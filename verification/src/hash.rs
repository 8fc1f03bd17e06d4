//! Hashing bytes to digests, and to the coefficients of a polynomial.
//!
//! The digests are computed by the crate `blake2`. What a digest is, is not
//! stated here: the two names below stand for the two hash functions.

use crate::bits::{derange_helper, law_power_of_two_closed, log2, reverse_bits_spec};
use crate::scalar::{group_order, le_value, Scalar};
use blake2::{Blake2b512, Blake2s256, Digest};
use rayon::iter::{IntoParallelIterator, ParallelIterator};
use vstd::arithmetic::power2::pow2;
use vstd::bytes::{spec_u32_to_le_bytes, u32_to_le_bytes};
use vstd::prelude::*;

verus! {

/// The BLAKE2s-256 digest of `input`: 32 bytes.
pub uninterp spec fn blake2s_256(input: Seq<u8>) -> Seq<u8>;

/// The BLAKE2b-512 digest of `input`: 64 bytes.
pub uninterp spec fn blake2b_512(input: Seq<u8>) -> Seq<u8>;

/// The coefficient with the number `counter`: the BLAKE2b-512 digest of the
/// seed's digest followed by the counter, read as a little-endian number
/// and reduced into the scalar field.
pub open spec fn coefficient_value(seed_digest: Seq<u8>, counter: u32) -> int {
    (le_value(blake2b_512(seed_digest + spec_u32_to_le_bytes(counter))) as int) % group_order()
}

/// The first `count` coefficients that the seed `input` gives.
pub open spec fn coefficient_values(input: Seq<u8>, count: nat) -> Seq<int> {
    Seq::new(count, |i: int| coefficient_value(blake2s_256(input), i as u32))
}

/// A polynomial over the scalar field, by its coefficients, the constant one
/// first.
#[derive(Debug, PartialEq, Eq)]
pub struct Polynomial {
    pub coefficients: Vec<Scalar>,
}

impl View for Polynomial {
    type V = Seq<int>;

    /// The numbers that the coefficients are.
    open spec fn view(&self) -> Seq<int> {
        Seq::new(self.coefficients@.len(), |i: int| self.coefficients@[i]@ as int)
    }
}

impl Polynomial {
    /// The coefficients in the order of an evaluation domain: filled up with
    /// zeros to the next power of two, and each moved to the index whose bits
    /// are those of its own in reverse.
    pub fn to_evaluation_order(&self) -> (out: Vec<Scalar>)
        requires
            domain_size(self.coefficients@.len()) <= usize::MAX,
        ensures
            self.coefficients@.len() <= out@.len(),
            out@.len() == domain_size(self.coefficients@.len()),
            forall|i: int|
                0 <= i < out@.len() ==> (#[trigger] out@[i])@ == padded(
                    self@,
                    reverse_bits_spec(i as nat, domain_bits(self.coefficients@.len())) as int,
                ),
    {
        let n = self.coefficients.len();
        let bits = log2(n);
        proof {
            lemma_domain_bits(n as nat, bits as nat);
            vstd::arithmetic::power2::lemma2_to64();
        }
        let mut out: Vec<Scalar> = Vec::new();
        let mut i: usize = 0;
        while i < n
            invariant
                i <= n,
                n == self.coefficients@.len(),
                out@.len() == i,
                forall|j: int| 0 <= j < i ==> (#[trigger] out@[j])@ == self@[j],
            decreases n - i,
        {
            out.push(self.coefficients[i]);
            i = i + 1;
        }
        let ghost size = pow2(bits as nat);
        if bits == 0 {
            if n == 0 {
                out.push(Scalar::from_u64(0));
            }
        } else {
            while !is_size(out.len(), bits)
                invariant
                    n <= out@.len() <= size,
                    size <= usize::MAX,
                    n == self.coefficients@.len(),
                    size == pow2(bits as nat),
                    1 <= bits <= 64,
                    forall|j: int| 0 <= j < out@.len() ==> (#[trigger] out@[j])@ == padded(self@, j),
                decreases size - out@.len(),
            {
                out.push(Scalar::from_u64(0));
            }
        }
        proof {
            law_power_of_two_closed(bits as nat);
        }
        let ghost before = out@;
        derange_helper(&mut out, bits);
        proof {
            assert forall|i: int| 0 <= i < out@.len() implies (#[trigger] out@[i])@ == padded(
                self@,
                reverse_bits_spec(i as nat, bits as nat) as int,
            ) by {
                let r = reverse_bits_spec(i as nat, bits as nat);
                crate::bits::lemma_reverse_bound(i as nat, bits as nat);
                assert(out@[i] == before[r as int]);
            }
        }
        out
    }
}

/// The number of bits of the indices of the evaluation domain for `n`
/// coefficients: the least `r` with `n <= 2^r`.
pub open spec fn domain_bits(n: nat) -> nat
    decreases n,
{
    if n <= 1 {
        0
    } else {
        1 + domain_bits(((n + 1) / 2) as nat)
    }
}

/// The size of that domain: the least power of two that is at least `n`.
pub open spec fn domain_size(n: nat) -> nat {
    pow2(domain_bits(n))
}

/// The coefficient at `i`, and 0 from the degree upwards.
pub open spec fn padded(values: Seq<int>, i: int) -> int {
    if 0 <= i < values.len() {
        values[i]
    } else {
        0
    }
}

/// `domain_bits(n)` is the one number between whose powers of two `n` lies.
pub proof fn lemma_domain_bits(n: nat, r: nat)
    requires
        n <= pow2(r),
        r > 0 ==> pow2((r - 1) as nat) < n,
    ensures
        domain_bits(n) == r,
    decreases r,
{
    vstd::arithmetic::power2::lemma2_to64();
    if r == 0 {
    } else {
        vstd::arithmetic::power2::lemma_pow2_unfold(r);
        vstd::arithmetic::power2::lemma_pow2_pos((r - 1) as nat);
        if r == 1 {
            assert(n == 2);
            assert(domain_bits(1) == 0);
        } else {
            vstd::arithmetic::power2::lemma_pow2_unfold((r - 1) as nat);
            lemma_domain_bits(((n + 1) / 2) as nat, (r - 1) as nat);
        }
    }
}

/// Whether `len` is two to the power `bits`.
fn is_size(len: usize, bits: u32) -> (b: bool)
    requires
        1 <= bits <= 64,
    ensures
        b == (len == pow2(bits as nat)),
{
    proof {
        vstd::arithmetic::power2::lemma2_to64();
        vstd::arithmetic::power2::lemma2_to64_rest();
        if bits < 64 {
            vstd::arithmetic::power2::lemma_pow2_strictly_increases(bits as nat, 64);
            vstd::bits::lemma_u64_shl_is_mul(1, bits as u64);
        }
    }
    if bits == 64 {
        false
    } else {
        len as u64 == 1u64 << bits
    }
}

/// The BLAKE2s-256 digest of `input`.
pub fn blake2s256(input: &[u8]) -> (digest: Vec<u8>)
    ensures
        digest@ == blake2s_256(input@),
        digest@.len() == 32,
{
    digest_256(input)
}

/// The BLAKE2b-512 digest of `input`.
pub fn blake2b512(input: &[u8]) -> (digest: Vec<u8>)
    ensures
        digest@ == blake2b_512(input@),
        digest@.len() == 64,
{
    digest_512(input)
}

/// `Digest::digest` of `Blake2s256`: the digest, which is 32 bytes long.
#[verifier::external_body]
fn digest_256(input: &[u8]) -> (digest: Vec<u8>)
    ensures
        digest@ == blake2s_256(input@),
        digest@.len() == 32,
{
    Blake2s256::digest(input).to_vec()
}

/// `Digest::digest` of `Blake2b512`: the digest, which is 64 bytes long.
#[verifier::external_body]
fn digest_512(input: &[u8]) -> (digest: Vec<u8>)
    ensures
        digest@ == blake2b_512(input@),
        digest@.len() == 64,
{
    Blake2b512::digest(input).to_vec()
}

/// Adds the bytes of `src` at the end of `out`.
pub fn append_bytes(out: &mut Vec<u8>, src: &[u8])
    ensures
        final(out)@ == old(out)@ + src@,
{
    let mut i: usize = 0;
    while i < src.len()
        invariant
            i <= src@.len(),
            out@ == old(out)@ + src@.subrange(0, i as int),
        decreases src@.len() - i,
    {
        out.push(src[i]);
        proof {
            assert(src@.subrange(0, i + 1) =~= src@.subrange(0, i as int).push(src@[i as int]));
        }
        i = i + 1;
    }
    proof {
        assert(src@.subrange(0, src@.len() as int) =~= src@);
    }
}

/// The first `num_coefficients` coefficients that the seed `input` gives.
pub fn hash_to_coefficients(input: &[u8], num_coefficients: u32) -> (out: Vec<Scalar>)
    ensures
        out@.len() == num_coefficients,
        forall|i: int|
            0 <= i < num_coefficients ==> (#[trigger] out@[i])@ == coefficient_value(
                blake2s_256(input@),
                i as u32,
            ),
{
    let seed_digest = blake2s256(input);
    coefficients_of(&seed_digest, num_coefficients)
}

/// `into_par_iter`, `map` and `collect` of `rayon` over the numbers below
/// `count`: the coefficient with each number, at the place of the number.
/// The coefficients are made on the threads of a pool, and come in the order
/// of the numbers.
#[verifier::external_body]
fn coefficients_of(seed_digest: &Vec<u8>, count: u32) -> (out: Vec<Scalar>)
    ensures
        out@.len() == count,
        forall|i: int| 0 <= i < count ==> (#[trigger] out@[i])@ == coefficient_value(seed_digest@, i as u32),
{
    (0..count).into_par_iter().map(|counter| coefficient(seed_digest, counter)).collect()
}

/// The coefficient with the number `counter`.
pub fn coefficient(seed_digest: &Vec<u8>, counter: u32) -> (c: Scalar)
    ensures
        c@ == coefficient_value(seed_digest@, counter),
{
    let mut buffer: Vec<u8> = Vec::new();
    append_bytes(&mut buffer, seed_digest.as_slice());
    let number = u32_to_le_bytes(counter);
    append_bytes(&mut buffer, number.as_slice());
    assert(buffer@ =~= seed_digest@ + spec_u32_to_le_bytes(counter));
    let digest = blake2b512(buffer.as_slice());
    Scalar::from_bytes_le_mod_order(digest.as_slice())
}

/// The polynomial of the given degree that the seed `input` gives: the same
/// for the same seed and degree, wherever it is computed.
pub fn hash_to_polynomial(input: &[u8], degree: u32) -> (p: Polynomial)
    ensures
        p@ == coefficient_values(input@, (degree + 1) as nat),
{
    let seed_digest = blake2s256(input);
    let mut coefficients = coefficients_of(&seed_digest, degree);
    coefficients.push(coefficient(&seed_digest, degree));
    let p = Polynomial { coefficients };
    assert(p@ =~= coefficient_values(input@, (degree + 1) as nat));
    p
}

} // verus!
