//! 256-bit scalars: the multipliers of a multi-scalar multiplication and the
//! coefficients of a polynomial.

use snarkvm_curves::bls12_377::Fr;
use snarkvm_fields::PrimeField;
use snarkvm_utilities::biginteger::BigInteger256;
use vstd::arithmetic::div_mod::{
    lemma_div_denominator, lemma_fundamental_div_mod, lemma_fundamental_div_mod_converse,
    lemma_mod_multiples_vanish, lemma_small_mod,
};
use vstd::arithmetic::power2::{lemma2_to64, lemma2_to64_rest, lemma_pow2_adds, lemma_pow2_pos, pow2};
use vstd::bits::{low_bits_mask, lemma_u64_low_bits_mask_is_mod, lemma_u64_shl_is_mul, lemma_u64_shr_is_div};
use vstd::prelude::*;

verus! {

/// The order of the group, which is also the modulus of its scalar field.
pub open spec fn group_order() -> int {
    8444461749428370424248824938781546531375899335154063827935233455917409239041int
}

/// The number that four limbs hold, least significant limb first.
pub open spec fn limbs_value(l: Seq<u64>) -> nat {
    l[0] as nat + l[1] as nat * pow2(64) + l[2] as nat * pow2(128) + l[3] as nat * pow2(192)
}

/// The number that bytes hold, least significant byte first.
pub open spec fn le_value(bytes: Seq<u8>) -> nat
    decreases bytes.len(),
{
    if bytes.len() == 0 {
        0
    } else {
        bytes[0] as nat + 256 * le_value(bytes.drop_first())
    }
}

/// `width` bits of `value`, the lowest of them bit `start`.
pub open spec fn window_of(value: nat, start: nat, width: nat) -> nat {
    (value / pow2(start)) % pow2(width)
}

/// Whether bit `i` of `value` is set.
pub open spec fn bit_of(value: nat, i: nat) -> bool {
    window_of(value, i, 1) == 1
}

/// A number below `2^256`, in four 64-bit limbs, least significant first.
#[derive(Clone, Copy, Debug, PartialEq, Eq)]
pub struct Scalar {
    pub limbs: [u64; 4],
}

impl View for Scalar {
    type V = nat;

    /// The number that the scalar is.
    open spec fn view(&self) -> nat {
        limbs_value(self.limbs@)
    }
}

impl Scalar {
    /// The number of bits of a scalar.
    pub const BITS: u32 = 256;

    /// The scalar with these limbs.
    pub fn new(limbs: [u64; 4]) -> (s: Scalar)
        ensures
            s.limbs == limbs,
    {
        Scalar { limbs }
    }

    /// The scalar that the number `t` is.
    pub fn from_u64(t: u64) -> (s: Scalar)
        ensures
            s@ == t,
            s.limbs@ == seq![t, 0u64, 0u64, 0u64],
    {
        let s = Scalar { limbs: [t, 0, 0, 0] };
        proof {
            assert(0 * pow2(64) == 0 && 0 * pow2(128) == 0 && 0 * pow2(192) == 0);
        }
        s
    }

    /// The digit that the bits `start .. start + width` form. The window lies
    /// within one limb.
    pub fn digit(&self, start: u32, width: u32) -> (d: u64)
        requires
            start < 256,
            1 <= width,
            start % 64 + width <= 64,
        ensures
            d == window_of(self@, start as nat, width as nat),
            d < pow2(width as nat),
    {
        let q: usize = (start / 64) as usize;
        let r: u32 = start % 64;
        let limb: u64 = self.limbs[q];
        let shifted: u64 = limb >> r;
        proof {
            lemma2_to64();
            lemma2_to64_rest();
            lemma_pow2_pos(r as nat);
            lemma_pow2_pos(width as nat);
            lemma_u64_shr_is_div(limb, r as u64);
            lemma_window_in_limb(self.limbs@, q as nat, r as nat, width as nat);
            assert(start as nat == 64 * q as nat + r as nat);
        }
        if width == 64 {
            proof {
                lemma_small_mod(shifted as nat, pow2(64));
            }
            shifted
        } else {
            proof {
                vstd::arithmetic::power2::lemma_pow2_strictly_increases(width as nat, 64);
                lemma_u64_shl_is_mul(1, width as u64);
                lemma_u64_low_bits_mask_is_mod(shifted, width as nat);
            }
            let mask: u64 = (1u64 << width) - 1;
            assert(mask == low_bits_mask(width as nat));
            shifted & mask
        }
    }

    /// Whether bit `i` is set.
    pub fn bit(&self, i: u32) -> (b: bool)
        requires
            i < 256,
        ensures
            b == bit_of(self@, i as nat),
    {
        self.digit(i, 1) == 1
    }

    /// The 256 bits, the most significant first.
    pub fn to_bits_be(&self) -> (bits: Vec<bool>)
        ensures
            bits@.len() == 256,
            forall|j: int| 0 <= j < 256 ==> bits@[j] == bit_of(self@, (255 - j) as nat),
    {
        let mut bits: Vec<bool> = Vec::new();
        let mut j: u32 = 0;
        while j < 256
            invariant
                j <= 256,
                bits@.len() == j,
                forall|k: int| 0 <= k < j ==> bits@[k] == bit_of(self@, (255 - k) as nat),
            decreases 256 - j,
        {
            bits.push(self.bit(255 - j));
            j = j + 1;
        }
        bits
    }

    /// The product in the scalar field.
    pub fn mul_mod(&self, other: &Scalar) -> (r: Scalar)
        requires
            self@ < group_order(),
            other@ < group_order(),
        ensures
            r@ == ((self@ * other@) as int) % group_order(),
    {
        field_mul(self, other)
    }

    /// The number that `bytes` hold, least significant byte first, reduced
    /// into the scalar field.
    pub fn from_bytes_le_mod_order(bytes: &[u8]) -> (r: Scalar)
        ensures
            r@ == (le_value(bytes@) as int) % group_order(),
    {
        field_from_bytes(bytes)
    }
}

/// `Mul` of `Fr`, between `PrimeField::from_bigint` and `to_bigint`:
/// multiplication modulo the field's modulus. `from_bigint` gives `None` from
/// the modulus upwards, which `requires` leaves out.
#[verifier::external_body]
fn field_mul(a: &Scalar, b: &Scalar) -> (r: Scalar)
    requires
        limbs_value(a.limbs@) < group_order(),
        limbs_value(b.limbs@) < group_order(),
    ensures
        limbs_value(r.limbs@) == ((limbs_value(a.limbs@) * limbs_value(b.limbs@)) as int) % group_order(),
{
    let x = Fr::from_bigint(BigInteger256(a.limbs)).unwrap();
    let y = Fr::from_bigint(BigInteger256(b.limbs)).unwrap();
    Scalar { limbs: (x * y).to_bigint().0 }
}

/// `PrimeField::from_bytes_le_mod_order`, then `to_bigint`: reads the bytes
/// as one little-endian number and reduces it modulo the field's modulus.
#[verifier::external_body]
fn field_from_bytes(bytes: &[u8]) -> (r: Scalar)
    ensures
        limbs_value(r.limbs@) == (le_value(bytes@) as int) % group_order(),
{
    Scalar { limbs: Fr::from_bytes_le_mod_order(bytes).to_bigint().0 }
}

/// A window that lies within limb `q` is a window of that limb.
pub proof fn lemma_window_in_limb(l: Seq<u64>, q: nat, r: nat, width: nat)
    requires
        l.len() == 4,
        q < 4,
        r + width <= 64,
    ensures
        window_of(limbs_value(l), 64 * q + r, width) == (l[q as int] as nat / pow2(r)) % pow2(width),
{
    lemma2_to64();
    lemma2_to64_rest();
    lemma_pow2_adds(64, 64);
    lemma_pow2_adds(64, 128);
    let b = pow2(64);
    let l0 = l[0] as nat;
    let l1 = l[1] as nat;
    let l2 = l[2] as nat;
    let l3 = l[3] as nat;
    assert(pow2(128) == b * b);
    assert(pow2(192) == b * (b * b));
    assert(pow2(0) == 1);
    if q == 0 {
        let high = l1 + b * l2 + b * b * l3;
        assert(limbs_value(l) == 0 + pow2(0) * (l0 + b * high)) by (nonlinear_arith)
            requires
                limbs_value(l) == l0 + l1 * b + l2 * (b * b) + l3 * (b * (b * b)),
                high == l1 + b * l2 + b * b * l3,
                pow2(0) == 1,
        ;
        lemma_window_of_parts(0, l0, high, 0, r, width);
    } else if q == 1 {
        let high = l2 + b * l3;
        assert(limbs_value(l) == l0 + pow2(64) * (l1 + b * high)) by (nonlinear_arith)
            requires
                limbs_value(l) == l0 + l1 * b + l2 * (b * b) + l3 * (b * (b * b)),
                high == l2 + b * l3,
                pow2(64) == b,
        ;
        lemma_window_of_parts(l0, l1, high, 64, r, width);
    } else if q == 2 {
        let low = l0 + l1 * b;
        assert(low < b * b) by (nonlinear_arith)
            requires
                low == l0 + l1 * b,
                l0 < b,
                l1 < b,
        ;
        assert(limbs_value(l) == low + pow2(128) * (l2 + b * l3)) by (nonlinear_arith)
            requires
                limbs_value(l) == l0 + l1 * b + l2 * (b * b) + l3 * (b * (b * b)),
                low == l0 + l1 * b,
                pow2(128) == b * b,
        ;
        lemma_window_of_parts(low, l2, l3, 128, r, width);
    } else {
        let low = l0 + l1 * b + l2 * (b * b);
        assert(low < b * (b * b)) by (nonlinear_arith)
            requires
                low == l0 + l1 * b + l2 * (b * b),
                l0 < b,
                l1 < b,
                l2 < b,
        ;
        assert(limbs_value(l) == low + pow2(192) * (l3 + b * 0)) by (nonlinear_arith)
            requires
                limbs_value(l) == l0 + l1 * b + l2 * (b * b) + l3 * (b * (b * b)),
                low == l0 + l1 * b + l2 * (b * b),
                pow2(192) == b * (b * b),
        ;
        lemma_window_of_parts(low, l3, 0, 192, r, width);
    }
}

/// Of `low + 2^base * (limb + 2^64 * high)`, a window that starts `r` bits
/// into `limb` and ends within it reads `limb` alone.
proof fn lemma_window_of_parts(low: nat, limb: nat, high: nat, base: nat, r: nat, width: nat)
    requires
        low < pow2(base),
        limb < pow2(64),
        r + width <= 64,
    ensures
        window_of(low + pow2(base) * (limb + pow2(64) * high), base + r, width) == (limb / pow2(r))
            % pow2(width),
{
    let m = pow2(base);
    let d = pow2(r);
    let w = pow2(width);
    let rest = pow2((64 - r - width) as nat);
    lemma_pow2_pos(base);
    lemma_pow2_pos(r);
    lemma_pow2_pos(width);
    lemma_pow2_adds(base, r);
    lemma_pow2_adds(r, (64 - r) as nat);
    lemma_pow2_adds(width, (64 - r - width) as nat);
    let x = limb + pow2(64) * high;
    let v = low + m * x;
    // v / 2^base == x
    assert(v == x * m + low) by (nonlinear_arith)
        requires
            v == low + m * x,
    ;
    lemma_fundamental_div_mod_converse(v as int, m as int, x as int, low as int);
    // v / 2^(base + r) == x / 2^r
    lemma_div_denominator(v as int, m as int, d as int);
    assert(v / pow2(base + r) == x / d);
    // x / 2^r == limb / 2^r + 2^(64 - r) * high
    let up = pow2((64 - r) as nat);
    lemma_fundamental_div_mod(limb as int, d as int);
    let lq = limb / d;
    let lr = limb % d;
    assert(x == (lq + up * high) * d + lr) by (nonlinear_arith)
        requires
            x == limb + pow2(64) * high,
            pow2(64) == d * up,
            limb == d * lq + lr,
    ;
    lemma_fundamental_div_mod_converse(x as int, d as int, (lq + up * high) as int, lr as int);
    // the part from `high` is a multiple of 2^width
    assert(lq + up * high == w * (rest * high) + lq) by (nonlinear_arith)
        requires
            up == w * rest,
    ;
    lemma_mod_multiples_vanish((rest * high) as int, lq as int, w as int);
}

} // verus!
