//! The proof-of-succinct-work puzzle.
//!
//! A prover hashes its address, a nonce and the epoch's challenge to a
//! polynomial and commits to it: the commitment is the sum of the powers of
//! the reference string, each multiplied by its coefficient. The digest of the
//! commitment gives the solution's target. A verifier computes all of it
//! again.

use crate::curve::{subgroup_point, Affine};
use crate::encoding::{point_bytes, slice_subrange, write_point, Coordinates};
use crate::error::PuzzleError;
use crate::hash::{append_bytes, blake2s256, blake2s_256, coefficient_values, hash_to_polynomial};
use crate::msm::{dot, msm, paired, point_logs, scalar_values};
use crate::scalar::group_order;
use crate::srs::UniversalSrs;
use vstd::bytes::{
    spec_u32_to_le_bytes, spec_u64_from_le_bytes, spec_u64_to_le_bytes, u32_to_le_bytes,
    u64_from_le_bytes, u64_to_le_bytes,
};
use vstd::prelude::*;

verus! {

/// The most solutions that a batch holds.
pub const MAX_SOLUTIONS: usize = 256;

/// The least that the targets of a batch must add up to, together with the
/// target brought along, for the batch to be accepted.
pub const MINIMUM_COMBINED_TARGET: u64 = 1;

/// The degree of the polynomials of a puzzle.
#[derive(Clone, Copy, Debug, PartialEq, Eq)]
pub struct PuzzleConfig {
    pub degree: u32,
}

/// A prover's address: 32 bytes, of which nothing is known here.
#[derive(Clone, Copy, Debug, PartialEq, Eq)]
pub struct Address {
    pub bytes: [u8; 32],
}

/// What binds the solutions of one epoch.
#[derive(Clone, Copy, Debug, PartialEq, Eq)]
pub struct EpochChallenge {
    pub epoch_number: u32,
    pub randomness: [u8; 32],
    pub degree: u32,
}

/// One prover's solution.
#[derive(Clone, Copy, Debug)]
pub struct ProverSolution {
    pub address: Address,
    pub nonce: u64,
    pub commitment: Affine,
    pub target: u64,
}

/// The solutions of one block: at least one, at most `MAX_SOLUTIONS`, and no
/// two of one address.
pub struct CoinbaseSolution {
    solutions: Vec<ProverSolution>,
}

/// A puzzle for one degree: the powers of the reference string up to it.
pub struct CoinbasePuzzle {
    commitment_key: Vec<Affine>,
    degree: u32,
}

/// The bytes that a prover hashes: the address, the nonce, and the
/// challenge's epoch number, randomness and degree; 80 bytes.
pub open spec fn prover_input(challenge: EpochChallenge, address: Address, nonce: u64) -> Seq<u8> {
    address.bytes@ + spec_u64_to_le_bytes(nonce) + spec_u32_to_le_bytes(challenge.epoch_number)
        + challenge.randomness@ + spec_u32_to_le_bytes(challenge.degree)
}

/// The multiple of the generator that the commitment to the polynomial of the
/// seed `input` is, under the key `key`.
pub open spec fn commitment_log(key: Seq<Affine>, input: Seq<u8>) -> int {
    dot(coefficient_values(input, key.len()), point_logs(key), key.len()) % group_order()
}

/// The coordinates of that commitment.
pub open spec fn commitment_of(key: Seq<Affine>, input: Seq<u8>) -> Coordinates {
    subgroup_point(commitment_log(key, input))
}

/// The number that the first eight bytes of the digest of a commitment hold.
pub open spec fn commitment_hash(c: Coordinates) -> u64 {
    spec_u64_from_le_bytes(blake2s_256(point_bytes(c)).subrange(0, 8))
}

/// The target of a commitment: the highest number divided by the
/// commitment's hash, and the highest number itself where the hash is 0. The
/// greater the target, the harder the commitment was to find.
pub open spec fn target_of(c: Coordinates) -> u64 {
    if commitment_hash(c) == 0 {
        u64::MAX
    } else {
        u64::MAX / commitment_hash(c)
    }
}

/// Whether a target is enough: it is, unless a minimum is asked for and the
/// target is below it.
pub open spec fn meets_minimum(target: u64, minimum_target: Option<u64>) -> bool {
    match minimum_target {
        Some(m) => target >= m,
        None => true,
    }
}

/// Whether the solution is the one that its address and nonce give under the
/// key and the challenge, with the target of its commitment.
pub open spec fn solution_valid(key: Seq<Affine>, challenge: EpochChallenge, s: ProverSolution) -> bool {
    &&& s.commitment.coordinates() == commitment_of(key, prover_input(challenge, s.address, s.nonce))
    &&& s.target == target_of(s.commitment.coordinates())
}

/// The sum of the targets of the first `n` solutions.
pub open spec fn targets_sum(solutions: Seq<ProverSolution>, n: nat) -> int
    decreases n,
{
    if n == 0 {
        0
    } else {
        targets_sum(solutions, (n - 1) as nat) + solutions[n - 1].target
    }
}

/// Whether the solutions may form a batch.
pub open spec fn batch_well_formed(solutions: Seq<ProverSolution>) -> bool {
    &&& 1 <= solutions.len() <= MAX_SOLUTIONS
    &&& forall|i: int, j: int|
        0 <= i < j < solutions.len() ==> solutions[i].address.bytes@ != solutions[j].address.bytes@
}

/// Whether a batch is accepted: every solution is valid, and the targets
/// together with the target brought along reach the minimum.
pub open spec fn batch_accepted(
    key: Seq<Affine>,
    challenge: EpochChallenge,
    solutions: Seq<ProverSolution>,
    cumulative_proof_target: u64,
) -> bool {
    &&& forall|i: int| 0 <= i < solutions.len() ==> solution_valid(key, challenge, #[trigger] solutions[i])
    &&& targets_sum(solutions, solutions.len()) + cumulative_proof_target >= MINIMUM_COMBINED_TARGET
}

impl EpochChallenge {
    /// The challenge of the epoch with the given number, randomness and
    /// degree.
    pub fn new(epoch_number: u32, randomness: [u8; 32], degree: u32) -> (challenge: EpochChallenge)
        ensures
            challenge.epoch_number == epoch_number,
            challenge.randomness == randomness,
            challenge.degree == degree,
    {
        EpochChallenge { epoch_number, randomness, degree }
    }
}

impl Address {
    /// The address that the bytes are.
    pub fn new(bytes: [u8; 32]) -> (address: Address)
        ensures
            address.bytes == bytes,
    {
        Address { bytes }
    }

    /// Whether the two are the same address.
    pub fn same(&self, other: &Address) -> (b: bool)
        ensures
            b == (self.bytes@ == other.bytes@),
    {
        let mut i: usize = 0;
        while i < 32
            invariant
                i <= 32,
                forall|j: int| 0 <= j < i ==> self.bytes@[j] == other.bytes@[j],
            decreases 32 - i,
        {
            if self.bytes[i] != other.bytes[i] {
                return false;
            }
            i = i + 1;
        }
        assert(self.bytes@ =~= other.bytes@);
        true
    }
}

impl ProverSolution {
    /// The target that was computed when the solution was proved.
    pub fn to_target(&self) -> (target: u64)
        ensures
            target == self.target,
    {
        self.target
    }
}

impl CoinbaseSolution {
    /// A batch is well formed.
    #[verifier::type_invariant]
    pub open spec fn inv(self) -> bool {
        batch_well_formed(self.solutions())
    }

    /// The solutions, in their order.
    pub closed spec fn solutions(self) -> Seq<ProverSolution> {
        self.solutions@
    }

    /// The batch of the given solutions, unless there is none, there are more
    /// than `MAX_SOLUTIONS`, or two of them have one address.
    pub fn new(solutions: Vec<ProverSolution>) -> (r: Result<CoinbaseSolution, PuzzleError>)
        ensures
            batch_well_formed(solutions@) ==> r is Ok,
            !batch_well_formed(solutions@) ==> r == Err::<CoinbaseSolution, PuzzleError>(
                PuzzleError::MalformedBatchError,
            ),
            r matches Ok(batch) ==> batch.solutions() == solutions@,
    {
        let n = solutions.len();
        if n == 0 || n > MAX_SOLUTIONS {
            return Err(PuzzleError::MalformedBatchError);
        }
        let mut j: usize = 1;
        while j < n
            invariant
                1 <= j <= n,
                n == solutions@.len(),
                forall|a: int, b: int|
                    0 <= a < b < j ==> solutions@[a].address.bytes@ != solutions@[b].address.bytes@,
            decreases n - j,
        {
            let mut i: usize = 0;
            while i < j
                invariant
                    i <= j < n,
                    n == solutions@.len(),
                    forall|a: int|
                        0 <= a < i ==> solutions@[a].address.bytes@ != solutions@[j as int].address.bytes@,
                decreases j - i,
            {
                if solutions[i].address.same(&solutions[j].address) {
                    return Err(PuzzleError::MalformedBatchError);
                }
                i = i + 1;
            }
            j = j + 1;
        }
        Ok(CoinbaseSolution { solutions })
    }

    /// The number of solutions.
    pub fn len(&self) -> (n: usize)
        ensures
            n == self.solutions().len(),
            1 <= n <= MAX_SOLUTIONS,
    {
        proof {
            use_type_invariant(self);
        }
        self.solutions.len()
    }

    /// The solution at `i`.
    pub fn get(&self, i: usize) -> (s: ProverSolution)
        requires
            i < self.solutions().len(),
        ensures
            s == self.solutions()[i as int],
    {
        self.solutions[i]
    }
}

impl CoinbasePuzzle {
    /// The key has one power for each coefficient.
    #[verifier::type_invariant]
    closed spec fn inv(self) -> bool {
        self.commitment_key@.len() == self.degree + 1
    }

    /// The powers that commitments are made with.
    pub closed spec fn commitment_key(self) -> Seq<Affine> {
        self.commitment_key@
    }

    /// The degree of the puzzle's polynomials.
    pub closed spec fn spec_degree(self) -> u32 {
        self.degree
    }

    /// The reference string for all degrees up to that of `config`, from the
    /// secret that `seed` gives.
    pub fn setup(config: PuzzleConfig, seed: &[u8]) -> (r: Result<UniversalSrs, PuzzleError>)
        ensures
            config.degree > crate::srs::MAX_SUPPORTED_DEGREE ==> r == Err::<UniversalSrs, PuzzleError>(
                PuzzleError::SetupError,
            ),
            config.degree <= crate::srs::MAX_SUPPORTED_DEGREE ==> r is Ok,
            r matches Ok(srs) ==> {
                &&& srs.spec_max_degree() == config.degree
                &&& forall|i: int|
                    0 <= i <= config.degree ==> (#[trigger] srs.powers()[i]).log() == crate::srs::power(
                        crate::srs::setup_secret(seed@),
                        i as nat,
                    ) % group_order()
            },
    {
        UniversalSrs::setup(config.degree, seed)
    }

    /// The puzzle for the degree of `config`, unless the reference string
    /// stops short of it.
    pub fn trim(srs: &UniversalSrs, config: PuzzleConfig) -> (r: Result<CoinbasePuzzle, PuzzleError>)
        ensures
            config.degree > srs.spec_max_degree() ==> r == Err::<CoinbasePuzzle, PuzzleError>(
                PuzzleError::ConfigError,
            ),
            config.degree <= srs.spec_max_degree() ==> r is Ok,
            r matches Ok(puzzle) ==> {
                &&& puzzle.spec_degree() == config.degree
                &&& puzzle.commitment_key() == srs.powers().subrange(0, config.degree + 1)
            },
    {
        if config.degree > srs.max_degree() {
            return Err(PuzzleError::ConfigError);
        }
        let commitment_key = srs.powers_up_to(config.degree);
        Ok(CoinbasePuzzle { commitment_key, degree: config.degree })
    }

    /// The degree of the puzzle's polynomials.
    pub fn degree(&self) -> (d: u32)
        ensures
            d == self.spec_degree(),
            d + 1 == self.commitment_key().len(),
    {
        proof {
            use_type_invariant(self);
        }
        self.degree
    }

    /// The commitment that the address and the nonce give under the
    /// challenge.
    pub fn commit(&self, challenge: &EpochChallenge, address: &Address, nonce: u64) -> (commitment:
        Affine)
        ensures
            commitment.coordinates() == commitment_of(
                self.commitment_key(),
                prover_input(*challenge, *address, nonce),
            ),
    {
        proof {
            use_type_invariant(self);
        }
        let input = prover_bytes(challenge, address, nonce);
        let polynomial = hash_to_polynomial(input.as_slice(), self.degree);
        let sum = msm(self.commitment_key.as_slice(), polynomial.coefficients.as_slice());
        proof {
            let n = self.commitment_key@.len();
            assert(polynomial@.len() == self.degree + 1);
            assert(polynomial.coefficients@.len() == polynomial@.len());
            assert(paired(self.commitment_key@, polynomial.coefficients@) == n);
            assert(scalar_values(polynomial.coefficients@) =~= coefficient_values(input@, n));
        }
        sum.to_affine()
    }

    /// The solution of the address with the nonce, unless its target is
    /// below `minimum_target`.
    pub fn prove(
        &self,
        challenge: &EpochChallenge,
        address: Address,
        nonce: u64,
        minimum_target: Option<u64>,
    ) -> (r: Result<ProverSolution, PuzzleError>)
        ensures
            ({
                let c = commitment_of(self.commitment_key(), prover_input(*challenge, address, nonce));
                &&& !meets_minimum(target_of(c), minimum_target) ==> r == Err::<
                    ProverSolution,
                    PuzzleError,
                >(PuzzleError::InsufficientWorkError)
                &&& meets_minimum(target_of(c), minimum_target) ==> r is Ok
                &&& r matches Ok(s) ==> {
                    &&& s.address == address
                    &&& s.nonce == nonce
                    &&& s.commitment.coordinates() == c
                    &&& s.target == target_of(c)
                }
            }),
    {
        let commitment = self.commit(challenge, &address, nonce);
        let target = commitment_target(&commitment);
        match minimum_target {
            Some(m) => {
                if target < m {
                    return Err(PuzzleError::InsufficientWorkError);
                }
            },
            None => {},
        }
        Ok(ProverSolution { address, nonce, commitment, target })
    }

    /// Accepts the batch or rejects it as a whole: it is accepted where each
    /// solution is the one that its address and nonce give under the
    /// challenge and the targets reach the minimum. What failed is not told.
    pub fn check_solutions(
        &self,
        batch: &CoinbaseSolution,
        challenge: &EpochChallenge,
        cumulative_proof_target: u64,
    ) -> (r: Result<(), PuzzleError>)
        ensures
            batch_accepted(
                self.commitment_key(),
                *challenge,
                batch.solutions(),
                cumulative_proof_target,
            ) ==> r is Ok,
            !batch_accepted(
                self.commitment_key(),
                *challenge,
                batch.solutions(),
                cumulative_proof_target,
            ) ==> r == Err::<(), PuzzleError>(PuzzleError::VerificationError),
    {
        let n = batch.len();
        let mut combined: u64 = 0;
        let mut i: usize = 0;
        while i < n
            invariant
                i <= n,
                n == batch.solutions().len(),
                forall|j: int|
                    0 <= j < i ==> solution_valid(
                        self.commitment_key(),
                        *challenge,
                        #[trigger] batch.solutions()[j],
                    ),
                combined == if targets_sum(batch.solutions(), i as nat) <= u64::MAX {
                    targets_sum(batch.solutions(), i as nat)
                } else {
                    u64::MAX as int
                },
                targets_sum(batch.solutions(), i as nat) >= 0,
            decreases n - i,
        {
            let solution = batch.get(i);
            let expected = self.commit(challenge, &solution.address, solution.nonce);
            if !expected.same_coordinates(&solution.commitment) {
                return Err(PuzzleError::VerificationError);
            }
            if commitment_target(&solution.commitment) != solution.target {
                return Err(PuzzleError::VerificationError);
            }
            combined = combined.saturating_add(solution.target);
            i = i + 1;
        }
        if combined.saturating_add(cumulative_proof_target) >= MINIMUM_COMBINED_TARGET {
            Ok(())
        } else {
            Err(PuzzleError::VerificationError)
        }
    }
}

/// A target is enough for every minimum up to itself, and for none above:
/// a solution with the target `t` is proved again with the minimum `t - 1`,
/// and not with the minimum `t + 1`.
pub proof fn law_minimum_target(t: u64)
    ensures
        meets_minimum(t, None),
        meets_minimum(t, Some(t)),
        t > 0 ==> meets_minimum(t, Some((t - 1) as u64)),
        t < u64::MAX ==> !meets_minimum(t, Some((t + 1) as u64)),
{
}

/// The bytes that a prover hashes tell its address, its nonce and every part
/// of the challenge: where any of them differs, so do the bytes.
pub proof fn law_prover_input_binds(
    first: EpochChallenge,
    first_address: Address,
    first_nonce: u64,
    second: EpochChallenge,
    second_address: Address,
    second_nonce: u64,
)
    requires
        prover_input(first, first_address, first_nonce) == prover_input(
            second,
            second_address,
            second_nonce,
        ),
    ensures
        first_address.bytes@ == second_address.bytes@,
        first_nonce == second_nonce,
        first.epoch_number == second.epoch_number,
        first.randomness@ == second.randomness@,
        first.degree == second.degree,
{
    let a = prover_input(first, first_address, first_nonce);
    let b = prover_input(second, second_address, second_nonce);
    lemma_prover_input_parts(first, first_address, first_nonce);
    lemma_prover_input_parts(second, second_address, second_nonce);
    vstd::bytes::lemma_auto_spec_u64_to_from_le_bytes();
    vstd::bytes::lemma_auto_spec_u32_to_from_le_bytes();
    assert(spec_u64_from_le_bytes(a.subrange(32, 40)) == spec_u64_from_le_bytes(b.subrange(32, 40)));
    assert(vstd::bytes::spec_u32_from_le_bytes(a.subrange(40, 44)) == vstd::bytes::spec_u32_from_le_bytes(
        b.subrange(40, 44),
    ));
    assert(vstd::bytes::spec_u32_from_le_bytes(a.subrange(76, 80)) == vstd::bytes::spec_u32_from_le_bytes(
        b.subrange(76, 80),
    ));
}

/// The parts of the bytes that a prover hashes, each at its place.
proof fn lemma_prover_input_parts(challenge: EpochChallenge, address: Address, nonce: u64)
    ensures
        ({
            let input = prover_input(challenge, address, nonce);
            &&& input.len() == 80
            &&& input.subrange(0, 32) == address.bytes@
            &&& input.subrange(32, 40) == spec_u64_to_le_bytes(nonce)
            &&& input.subrange(40, 44) == spec_u32_to_le_bytes(challenge.epoch_number)
            &&& input.subrange(44, 76) == challenge.randomness@
            &&& input.subrange(76, 80) == spec_u32_to_le_bytes(challenge.degree)
        }),
{
    vstd::bytes::lemma_auto_spec_u64_to_from_le_bytes();
    vstd::bytes::lemma_auto_spec_u32_to_from_le_bytes();
    let input = prover_input(challenge, address, nonce);
    assert(spec_u64_to_le_bytes(nonce).len() == 8);
    assert(spec_u32_to_le_bytes(challenge.epoch_number).len() == 4);
    assert(spec_u32_to_le_bytes(challenge.degree).len() == 4);
    assert(input.subrange(0, 32) =~= address.bytes@);
    assert(input.subrange(32, 40) =~= spec_u64_to_le_bytes(nonce));
    assert(input.subrange(40, 44) =~= spec_u32_to_le_bytes(challenge.epoch_number));
    assert(input.subrange(44, 76) =~= challenge.randomness@);
    assert(input.subrange(76, 80) =~= spec_u32_to_le_bytes(challenge.degree));
}

/// Every target is at least 1.
pub proof fn law_target_positive(c: Coordinates)
    ensures
        target_of(c) >= 1,
{
    let h = commitment_hash(c);
    if h != 0 {
        assert(u64::MAX / h >= 1) by (nonlinear_arith)
            requires
                0 < h <= u64::MAX,
        ;
    }
}

/// A batch of valid solutions is accepted whatever target is brought along.
pub proof fn law_valid_batch_accepted(
    key: Seq<Affine>,
    challenge: EpochChallenge,
    solutions: Seq<ProverSolution>,
    cumulative_proof_target: u64,
)
    requires
        solutions.len() >= 1,
        forall|i: int| 0 <= i < solutions.len() ==> solution_valid(key, challenge, #[trigger] solutions[i]),
    ensures
        batch_accepted(key, challenge, solutions, cumulative_proof_target),
{
    lemma_targets_sum_at_least(key, challenge, solutions, solutions.len());
}

/// The targets of `n` valid solutions add up to `n` at least.
proof fn lemma_targets_sum_at_least(
    key: Seq<Affine>,
    challenge: EpochChallenge,
    solutions: Seq<ProverSolution>,
    n: nat,
)
    requires
        n <= solutions.len(),
        forall|i: int| 0 <= i < solutions.len() ==> solution_valid(key, challenge, #[trigger] solutions[i]),
    ensures
        targets_sum(solutions, n) >= n,
    decreases n,
{
    if n > 0 {
        lemma_targets_sum_at_least(key, challenge, solutions, (n - 1) as nat);
        assert(solution_valid(key, challenge, solutions[n - 1]));
        law_target_positive(solutions[n - 1].commitment.coordinates());
    }
}

/// A batch is bound to its challenge: under a challenge for which the
/// address and the nonce of one of its solutions give another commitment
/// than the one recorded, the batch is not accepted, whatever target is
/// brought along, and `check_solutions` rejects it.
pub proof fn law_other_commitment_rejected(
    key: Seq<Affine>,
    challenge: EpochChallenge,
    solutions: Seq<ProverSolution>,
    cumulative_proof_target: u64,
    i: int,
)
    requires
        0 <= i < solutions.len(),
        solutions[i].commitment.coordinates() != commitment_of(
            key,
            prover_input(challenge, solutions[i].address, solutions[i].nonce),
        ),
    ensures
        !batch_accepted(key, challenge, solutions, cumulative_proof_target),
{
    assert(!solution_valid(key, challenge, solutions[i]));
}

/// Commitments depend on the key only through the elements that it holds:
/// two keys whose elements agree, place by place, give the same
/// commitments. So do a reference string and the one read from its bytes.
pub proof fn law_commitment_of_equal_keys(first: Seq<Affine>, second: Seq<Affine>, input: Seq<u8>)
    requires
        first.len() == second.len(),
        forall|i: int|
            0 <= i < first.len() ==> (#[trigger] first[i]).coordinates() == second[i].coordinates(),
    ensures
        commitment_of(first, input) == commitment_of(second, input),
{
    let n = first.len();
    let weights = coefficient_values(input, n);
    crate::msm::lemma_dot_agree(weights, point_logs(first), weights, point_logs(second), n);
}

/// The bytes that a prover hashes.
pub fn prover_bytes(challenge: &EpochChallenge, address: &Address, nonce: u64) -> (input: Vec<u8>)
    ensures
        input@ == prover_input(*challenge, *address, nonce),
{
    let mut input: Vec<u8> = Vec::new();
    append_bytes(&mut input, address.bytes.as_slice());
    let nonce_bytes = u64_to_le_bytes(nonce);
    append_bytes(&mut input, nonce_bytes.as_slice());
    let epoch_bytes = u32_to_le_bytes(challenge.epoch_number);
    append_bytes(&mut input, epoch_bytes.as_slice());
    append_bytes(&mut input, challenge.randomness.as_slice());
    let degree_bytes = u32_to_le_bytes(challenge.degree);
    append_bytes(&mut input, degree_bytes.as_slice());
    proof {
        assert(input@ =~= prover_input(*challenge, *address, nonce));
    }
    input
}

/// The target of a commitment.
pub fn commitment_target(commitment: &Affine) -> (target: u64)
    ensures
        target == target_of(commitment.coordinates()),
{
    let mut bytes: Vec<u8> = Vec::new();
    write_point(&mut bytes, commitment);
    assert(bytes@ =~= point_bytes(commitment.coordinates()));
    let digest = blake2s256(bytes.as_slice());
    let hash = u64_from_le_bytes(slice_subrange(digest.as_slice(), 0, 8));
    if hash == 0 {
        u64::MAX
    } else {
        u64::MAX / hash
    }
}

} // verus!
