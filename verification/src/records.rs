//! The challenge, the configuration and the solutions as bytes.
//!
//! Numbers are written least significant byte first. A solution is its
//! address, its nonce, its commitment and its target, 145 bytes; a batch is
//! the number of its solutions in eight bytes and then the solutions.

use crate::curve::{affine_in_group, lemma_six_limbs};
use crate::encoding::{
    coordinates_at, lemma_point_round_trip, point_at_valid, point_bytes, read_point, slice_subrange,
    write_point, Coordinates,
};
use crate::hash::append_bytes;
use crate::puzzle::{
    batch_well_formed, Address, CoinbaseSolution, EpochChallenge, ProverSolution, PuzzleConfig,
    MAX_SOLUTIONS,
};
use vstd::bytes::{
    lemma_auto_spec_u32_to_from_le_bytes, lemma_auto_spec_u64_to_from_le_bytes,
    spec_u32_from_le_bytes, spec_u32_to_le_bytes, spec_u64_from_le_bytes, spec_u64_to_le_bytes,
    u32_from_le_bytes, u32_to_le_bytes, u64_from_le_bytes, u64_to_le_bytes,
};
use vstd::prelude::*;

verus! {

/// The number that the eight bytes from `at` hold.
pub open spec fn u64_at(bytes: Seq<u8>, at: int) -> u64 {
    spec_u64_from_le_bytes(bytes.subrange(at, at + 8))
}

/// The number that the four bytes from `at` hold.
pub open spec fn u32_at(bytes: Seq<u8>, at: int) -> u32 {
    spec_u32_from_le_bytes(bytes.subrange(at, at + 4))
}

/// The bytes of a configuration: its degree in eight bytes.
pub open spec fn config_bytes(config: PuzzleConfig) -> Seq<u8> {
    spec_u64_to_le_bytes(config.degree as u64)
}

/// The bytes of a challenge: the epoch number, the randomness and the
/// degree; 40 bytes.
pub open spec fn challenge_bytes(challenge: EpochChallenge) -> Seq<u8> {
    spec_u32_to_le_bytes(challenge.epoch_number) + challenge.randomness@ + spec_u32_to_le_bytes(
        challenge.degree,
    )
}

/// The bytes of a solution: the address, the nonce, the commitment and the
/// target; 145 bytes.
pub open spec fn solution_bytes(s: ProverSolution) -> Seq<u8> {
    s.address.bytes@ + spec_u64_to_le_bytes(s.nonce) + point_bytes(s.commitment.coordinates())
        + spec_u64_to_le_bytes(s.target)
}

/// The bytes of the solutions, one after the other.
pub open spec fn solutions_bytes(solutions: Seq<ProverSolution>) -> Seq<u8> {
    Seq::new(145 * solutions.len(), |i: int| solution_bytes(solutions[i / 145])[i % 145])
}

/// The bytes of a batch.
pub open spec fn batch_bytes(solutions: Seq<ProverSolution>) -> Seq<u8> {
    spec_u64_to_le_bytes(solutions.len() as u64) + solutions_bytes(solutions)
}

/// Where the solution `i` of a batch begins.
pub open spec fn record_start(i: int) -> int {
    8 + 145 * i
}

/// The address of the solution `i`.
pub open spec fn record_address(bytes: Seq<u8>, i: int) -> Seq<u8> {
    bytes.subrange(record_start(i), record_start(i) + 32)
}

/// The nonce of the solution `i`.
pub open spec fn record_nonce(bytes: Seq<u8>, i: int) -> u64 {
    u64_at(bytes, record_start(i) + 32)
}

/// The coordinates of the commitment of the solution `i`.
pub open spec fn record_commitment(bytes: Seq<u8>, i: int) -> Coordinates {
    coordinates_at(bytes, record_start(i) + 40)
}

/// Whether the commitment of the solution `i` is an element of the group.
pub open spec fn record_commitment_valid(bytes: Seq<u8>, i: int) -> bool {
    point_at_valid(bytes, record_start(i) + 40)
}

/// The target of the solution `i`.
pub open spec fn record_target(bytes: Seq<u8>, i: int) -> u64 {
    u64_at(bytes, record_start(i) + 137)
}

/// Whether the solution `s` is what the bytes hold as the solution `i`.
pub open spec fn record_holds(bytes: Seq<u8>, i: int, s: ProverSolution) -> bool {
    &&& s.address.bytes@ == record_address(bytes, i)
    &&& s.nonce == record_nonce(bytes, i)
    &&& s.commitment.coordinates() == record_commitment(bytes, i)
    &&& s.target == record_target(bytes, i)
}

/// Whether the bytes are those of a batch: a number of solutions between 1
/// and `MAX_SOLUTIONS`, then as many solutions and nothing more, each with
/// an element of the group for its commitment, and no two of one address.
pub open spec fn batch_bytes_valid(bytes: Seq<u8>) -> bool {
    &&& bytes.len() >= 8
    &&& 1 <= u64_at(bytes, 0) <= MAX_SOLUTIONS
    &&& bytes.len() == 8 + 145 * u64_at(bytes, 0)
    &&& forall|i: int| 0 <= i < u64_at(bytes, 0) ==> record_commitment_valid(bytes, i)
    &&& forall|i: int, j: int|
        0 <= i < j < u64_at(bytes, 0) ==> record_address(bytes, i) != record_address(bytes, j)
}

/// The number that the eight bytes from `at` hold.
pub fn read_u64(bytes: &[u8], at: usize) -> (v: u64)
    requires
        at + 8 <= bytes@.len(),
    ensures
        v == u64_at(bytes@, at as int),
{
    let _ = bytes.len();
    u64_from_le_bytes(slice_subrange(bytes, at, at + 8))
}

/// The number that the four bytes from `at` hold.
pub fn read_u32(bytes: &[u8], at: usize) -> (v: u32)
    requires
        at + 4 <= bytes@.len(),
    ensures
        v == u32_at(bytes@, at as int),
{
    let _ = bytes.len();
    u32_from_le_bytes(slice_subrange(bytes, at, at + 4))
}

/// The 32 bytes from `at`.
pub fn read_32_bytes(bytes: &[u8], at: usize) -> (out: [u8; 32])
    requires
        at + 32 <= bytes@.len(),
    ensures
        out@ == bytes@.subrange(at as int, at + 32),
{
    let n = bytes.len();
    let mut out: [u8; 32] = [0u8; 32];
    let mut i: usize = 0;
    while i < 32
        invariant
            i <= 32,
            n == bytes@.len(),
            at + 32 <= bytes@.len(),
            forall|j: int| 0 <= j < i ==> out@[j] == bytes@[at + j],
        decreases 32 - i,
    {
        out[i] = bytes[at + i];
        i = i + 1;
    }
    proof {
        assert(out@ =~= bytes@.subrange(at as int, at + 32));
    }
    out
}

impl PuzzleConfig {
    /// The configuration as bytes.
    pub fn to_bytes(&self) -> (bytes: Vec<u8>)
        ensures
            bytes@ == config_bytes(*self),
            bytes@.len() == 8,
            u64_at(bytes@, 0) == self.degree,
    {
        let bytes = u64_to_le_bytes(self.degree as u64);
        proof {
            lemma_auto_spec_u64_to_from_le_bytes();
            assert(bytes@.subrange(0, 8) =~= bytes@);
        }
        bytes
    }

    /// The configuration that the bytes hold, if they hold one: eight bytes
    /// with a degree that fits.
    pub fn from_bytes(bytes: &[u8]) -> (r: Option<PuzzleConfig>)
        ensures
            r is Some <==> bytes@.len() == 8 && u64_at(bytes@, 0) <= u32::MAX,
            r matches Some(config) ==> config.degree == u64_at(bytes@, 0),
    {
        if bytes.len() != 8 {
            return None;
        }
        let degree = read_u64(bytes, 0);
        if degree > u32::MAX as u64 {
            return None;
        }
        Some(PuzzleConfig { degree: degree as u32 })
    }
}

impl EpochChallenge {
    /// The challenge as bytes.
    pub fn to_bytes(&self) -> (bytes: Vec<u8>)
        ensures
            bytes@ == challenge_bytes(*self),
            bytes@.len() == 40,
            u32_at(bytes@, 0) == self.epoch_number,
            bytes@.subrange(4, 36) == self.randomness@,
            u32_at(bytes@, 36) == self.degree,
    {
        let mut bytes = u32_to_le_bytes(self.epoch_number);
        append_bytes(&mut bytes, self.randomness.as_slice());
        let degree = u32_to_le_bytes(self.degree);
        append_bytes(&mut bytes, degree.as_slice());
        proof {
            lemma_auto_spec_u32_to_from_le_bytes();
            assert(bytes@ =~= challenge_bytes(*self));
            assert(bytes@.subrange(0, 4) =~= spec_u32_to_le_bytes(self.epoch_number));
            assert(bytes@.subrange(4, 36) =~= self.randomness@);
            assert(bytes@.subrange(36, 40) =~= spec_u32_to_le_bytes(self.degree));
        }
        bytes
    }

    /// The challenge that the bytes hold, if there are 40 of them.
    pub fn from_bytes(bytes: &[u8]) -> (r: Option<EpochChallenge>)
        ensures
            r is Some <==> bytes@.len() == 40,
            r matches Some(challenge) ==> {
                &&& challenge.epoch_number == u32_at(bytes@, 0)
                &&& challenge.randomness@ == bytes@.subrange(4, 36)
                &&& challenge.degree == u32_at(bytes@, 36)
            },
    {
        if bytes.len() != 40 {
            return None;
        }
        let epoch_number = read_u32(bytes, 0);
        let randomness = read_32_bytes(bytes, 4);
        let degree = read_u32(bytes, 36);
        Some(EpochChallenge { epoch_number, randomness, degree })
    }
}

/// Adds the bytes of the solution at the end of `out`.
pub fn write_solution(out: &mut Vec<u8>, s: &ProverSolution)
    ensures
        final(out)@ == old(out)@ + solution_bytes(*s),
        solution_bytes(*s).len() == 145,
{
    append_bytes(out, s.address.bytes.as_slice());
    let nonce = u64_to_le_bytes(s.nonce);
    append_bytes(out, nonce.as_slice());
    write_point(out, &s.commitment);
    let target = u64_to_le_bytes(s.target);
    append_bytes(out, target.as_slice());
    proof {
        lemma_six_limbs(s.commitment);
        lemma_auto_spec_u64_to_from_le_bytes();
        assert(out@ =~= old(out)@ + solution_bytes(*s));
    }
}

/// The solution that the 145 bytes from `at` hold, if their commitment is an
/// element of the group.
pub fn read_solution(bytes: &[u8], at: usize) -> (r: Option<ProverSolution>)
    requires
        at + 145 <= bytes@.len(),
    ensures
        r is Some <==> point_at_valid(bytes@, at + 40),
        r matches Some(s) ==> {
            &&& s.address.bytes@ == bytes@.subrange(at as int, at + 32)
            &&& s.nonce == u64_at(bytes@, at + 32)
            &&& s.commitment.coordinates() == coordinates_at(bytes@, at + 40)
            &&& s.target == u64_at(bytes@, at + 137)
        },
{
    let _ = bytes.len();
    let address = Address::new(read_32_bytes(bytes, at));
    let nonce = read_u64(bytes, at + 32);
    let target = read_u64(bytes, at + 137);
    match read_point(bytes, at + 40) {
        Some(commitment) => Some(ProverSolution { address, nonce, commitment, target }),
        None => None,
    }
}

/// The parts of the bytes of a solution, each at its place.
pub proof fn lemma_solution_parts(bytes: Seq<u8>, at: int, s: ProverSolution)
    requires
        0 <= at,
        at + 145 <= bytes.len(),
        bytes.subrange(at, at + 145) == solution_bytes(s),
    ensures
        bytes.subrange(at, at + 32) == s.address.bytes@,
        u64_at(bytes, at + 32) == s.nonce,
        coordinates_at(bytes, at + 40) == s.commitment.coordinates(),
        bytes[at + 136] <= 1,
        u64_at(bytes, at + 137) == s.target,
{
    lemma_six_limbs(s.commitment);
    lemma_auto_spec_u64_to_from_le_bytes();
    let whole = bytes.subrange(at, at + 145);
    let c = s.commitment.coordinates();
    assert(spec_u64_to_le_bytes(s.nonce).len() == 8);
    assert(spec_u64_to_le_bytes(s.target).len() == 8);
    assert(point_bytes(c).len() == 97);
    assert(bytes.subrange(at, at + 32) =~= s.address.bytes@) by {
        assert forall|j: int| 0 <= j < 32 implies bytes[at + j] == s.address.bytes@[j] by {
            assert(bytes[at + j] == whole[j]);
        }
    }
    assert(bytes.subrange(at + 32, at + 40) =~= spec_u64_to_le_bytes(s.nonce)) by {
        assert forall|j: int| 0 <= j < 8 implies bytes[at + 32 + j] == spec_u64_to_le_bytes(
            s.nonce,
        )[j] by {
            assert(bytes[at + 32 + j] == whole[32 + j]);
        }
    }
    assert(bytes.subrange(at + 40, at + 137) =~= point_bytes(c)) by {
        assert forall|j: int| 0 <= j < 97 implies bytes[at + 40 + j] == point_bytes(c)[j] by {
            assert(bytes[at + 40 + j] == whole[40 + j]);
        }
    }
    assert(bytes.subrange(at + 137, at + 145) =~= spec_u64_to_le_bytes(s.target)) by {
        assert forall|j: int| 0 <= j < 8 implies bytes[at + 137 + j] == spec_u64_to_le_bytes(
            s.target,
        )[j] by {
            assert(bytes[at + 137 + j] == whole[137 + j]);
        }
    }
    lemma_point_round_trip(bytes, at + 40, c);
}

/// The bytes of a batch are read back as the same batch: they are valid,
/// and each solution is held at its place.
pub proof fn law_batch_round_trip(solutions: Seq<ProverSolution>)
    requires
        batch_well_formed(solutions),
        forall|i: int|
            0 <= i < solutions.len() ==> affine_in_group(
                (#[trigger] solutions[i]).commitment.coordinates().0,
                solutions[i].commitment.coordinates().1,
                solutions[i].commitment.coordinates().2,
            ),
    ensures
        batch_bytes_valid(batch_bytes(solutions)),
        u64_at(batch_bytes(solutions), 0) == solutions.len(),
        forall|i: int|
            0 <= i < solutions.len() ==> record_holds(batch_bytes(solutions), i, #[trigger] solutions[i]),
{
    let bytes = batch_bytes(solutions);
    lemma_batch_head(solutions);
    assert forall|i: int| 0 <= i < solutions.len() implies record_holds(
        bytes,
        i,
        #[trigger] solutions[i],
    ) && record_commitment_valid(bytes, i) by {
        lemma_batch_record(solutions, i);
        lemma_solution_parts(bytes, record_start(i), solutions[i]);
    }
    assert forall|i: int, j: int| 0 <= i < j < solutions.len() implies record_address(bytes, i)
        != record_address(bytes, j) by {
        assert(record_holds(bytes, i, solutions[i]));
        assert(record_holds(bytes, j, solutions[j]));
    }
}

/// The first eight bytes hold the number of solutions.
proof fn lemma_batch_head(solutions: Seq<ProverSolution>)
    requires
        solutions.len() <= MAX_SOLUTIONS,
    ensures
        batch_bytes(solutions).len() == 8 + 145 * solutions.len(),
        u64_at(batch_bytes(solutions), 0) == solutions.len(),
{
    lemma_auto_spec_u64_to_from_le_bytes();
    let count = solutions.len() as u64;
    assert(spec_u64_to_le_bytes(count).len() == 8);
    assert(batch_bytes(solutions).subrange(0, 8) =~= spec_u64_to_le_bytes(count));
}

/// The bytes of the solution `i` stand at its place.
proof fn lemma_batch_record(solutions: Seq<ProverSolution>, i: int)
    requires
        solutions.len() <= MAX_SOLUTIONS,
        0 <= i < solutions.len(),
    ensures
        record_start(i) + 145 <= batch_bytes(solutions).len(),
        batch_bytes(solutions).subrange(record_start(i), record_start(i) + 145) == solution_bytes(
            solutions[i],
        ),
{
    lemma_batch_head(solutions);
    lemma_six_limbs(solutions[i].commitment);
    let bytes = batch_bytes(solutions);
    let at = record_start(i);
    let head = spec_u64_to_le_bytes(solutions.len() as u64);
    assert(head.len() == 8) by {
        lemma_auto_spec_u64_to_from_le_bytes();
    }
    assert(solution_bytes(solutions[i]).len() == 145) by {
        lemma_auto_spec_u64_to_from_le_bytes();
    }
    assert forall|j: int| 0 <= j < 145 implies bytes.subrange(at, at + 145)[j] == solution_bytes(
        solutions[i],
    )[j] by {
        vstd::arithmetic::div_mod::lemma_fundamental_div_mod_converse(145 * i + j, 145, i, j);
        assert(bytes[at + j] == solutions_bytes(solutions)[145 * i + j]);
    }
    assert(bytes.subrange(at, at + 145) =~= solution_bytes(solutions[i]));
}

impl CoinbaseSolution {
    /// The batch as bytes, from which `from_bytes` reads the same batch.
    pub fn to_bytes(&self) -> (bytes: Vec<u8>)
        ensures
            bytes@ == batch_bytes(self.solutions()),
            batch_bytes_valid(bytes@),
            u64_at(bytes@, 0) == self.solutions().len(),
            forall|i: int|
                0 <= i < self.solutions().len() ==> record_holds(bytes@, i, #[trigger] self.solutions()[i]),
    {
        proof {
            use_type_invariant(self);
        }
        let n = self.len();
        let mut bytes = u64_to_le_bytes(n as u64);
        let ghost head = bytes@;
        let mut i: usize = 0;
        proof {
            assert(solutions_bytes(self.solutions().subrange(0, 0)) =~= Seq::<u8>::empty());
        }
        while i < n
            invariant
                i <= n,
                n == self.solutions().len(),
                bytes@ == head + solutions_bytes(self.solutions().subrange(0, i as int)),
                forall|j: int|
                    0 <= j < i ==> affine_in_group(
                        (#[trigger] self.solutions()[j]).commitment.coordinates().0,
                        self.solutions()[j].commitment.coordinates().1,
                        self.solutions()[j].commitment.coordinates().2,
                    ),
            decreases n - i,
        {
            let s = self.get(i);
            let _ = s.commitment.to_coordinates();
            write_solution(&mut bytes, &s);
            proof {
                let before = self.solutions().subrange(0, i as int);
                let after = self.solutions().subrange(0, i + 1);
                assert(solutions_bytes(after) =~= solutions_bytes(before) + solution_bytes(s)) by {
                    assert forall|j: int| 0 <= j < 145 * (i + 1) implies solutions_bytes(after)[j] == (
                    solutions_bytes(before) + solution_bytes(s))[j] by {
                        if j < 145 * i {
                            assert(after[j / 145] == before[j / 145]);
                        } else {
                            assert(j / 145 == i && j % 145 == j - 145 * i);
                        }
                    }
                }
            }
            i = i + 1;
        }
        proof {
            assert(self.solutions().subrange(0, n as int) =~= self.solutions());
            law_batch_round_trip(self.solutions());
        }
        bytes
    }

    /// The batch that the bytes hold, if they hold one.
    pub fn from_bytes(bytes: &[u8]) -> (r: Option<CoinbaseSolution>)
        ensures
            r is Some <==> batch_bytes_valid(bytes@),
            r matches Some(batch) ==> {
                &&& batch.solutions().len() == u64_at(bytes@, 0)
                &&& forall|i: int|
                    0 <= i < batch.solutions().len() ==> record_holds(
                        bytes@,
                        i,
                        #[trigger] batch.solutions()[i],
                    )
            },
    {
        let len = bytes.len();
        if len < 8 {
            return None;
        }
        let count = read_u64(bytes, 0);
        if count == 0 || count > MAX_SOLUTIONS as u64 {
            return None;
        }
        if len as u64 != 8 + 145 * count {
            return None;
        }
        let mut solutions: Vec<ProverSolution> = Vec::new();
        let mut i: usize = 0;
        while i < count as usize
            invariant
                i <= count,
                1 <= count <= MAX_SOLUTIONS,
                count == u64_at(bytes@, 0),
                len == bytes@.len(),
                len == 8 + 145 * count,
                solutions@.len() == i,
                forall|j: int| 0 <= j < i ==> record_commitment_valid(bytes@, j),
                forall|j: int| 0 <= j < i ==> record_holds(bytes@, j, #[trigger] solutions@[j]),
            decreases count - i,
        {
            let at: usize = 8 + 145 * i;
            match read_solution(bytes, at) {
                Some(s) => {
                    solutions.push(s);
                },
                None => {
                    assert(!record_commitment_valid(bytes@, i as int));
                    return None;
                },
            }
            i = i + 1;
        }
        let ghost held = solutions@;
        match CoinbaseSolution::new(solutions) {
            Ok(batch) => {
                proof {
                    assert(batch_well_formed(held));
                    assert forall|a: int, b: int| 0 <= a < b < count implies record_address(bytes@, a)
                        != record_address(bytes@, b) by {
                        assert(record_holds(bytes@, a, held[a]));
                        assert(record_holds(bytes@, b, held[b]));
                    }
                }
                Some(batch)
            },
            Err(_) => {
                proof {
                    assert(!batch_well_formed(held));
                    assert(exists|a: int, b: int|
                        0 <= a < b < held.len() && held[a].address.bytes@ == held[b].address.bytes@);
                    let (a, b) = choose|a: int, b: int|
                        0 <= a < b < held.len() && held[a].address.bytes@ == held[b].address.bytes@;
                    assert(record_holds(bytes@, a, held[a]));
                    assert(record_holds(bytes@, b, held[b]));
                    assert(record_address(bytes@, a) == record_address(bytes@, b));
                }
                None
            },
        }
    }
}

} // verus!
