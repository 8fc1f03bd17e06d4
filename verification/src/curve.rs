//! Elements of G1, the prime-order group of BLS12-377.
//!
//! The arithmetic is done by `snarkvm_curves`. The private functions of this
//! module that are marked `external_body` call it; their contracts are
//! believed, not proved.
//!
//! What they state is that the points on the curve which the order
//! `group_order()` takes to the neutral element form a group of the prime order `group_order()` under the
//! library's addition, with `prime_subgroup_generator` for a generator. Such
//! a group is cyclic: each element is the generator a number of times over, a
//! number below the order, which is here called the element's `log`. Adding
//! two elements adds their logs modulo the order. The contracts of this
//! module, and all that is proved of sums of elements elsewhere, speak of
//! elements by their logs.

use crate::scalar::{group_order, limbs_value, Scalar};
use snarkvm_curves::bls12_377::{Fq, Fr, G1Affine, G1Projective};
use snarkvm_curves::{AffineCurve, ProjectiveCurve};
use snarkvm_fields::{Fp384, PrimeField, Zero};
use snarkvm_utilities::biginteger::{BigInteger256, BigInteger384};
use snarkvm_utilities::BitIteratorBE;
use std::marker::PhantomData;
use vstd::prelude::*;

verus! {

/// Whether a coordinate, a number in six limbs, least significant first, is
/// below the modulus of the base field.
pub open spec fn below_modulus(l: Seq<u64>) -> bool {
    &&& l.len() == 6
    &&& (l[5] < 0x01ae3a4617c510ea || (l[5] == 0x01ae3a4617c510ea && (l[4] < 0xc63b05c06ca1493b || (l[4]
        == 0xc63b05c06ca1493b && (l[3] < 0x1a22d9f300f5138f || (l[3] == 0x1a22d9f300f5138f && (l[2]
        < 0x1ef3622fba094800 || (l[2] == 0x1ef3622fba094800 && (l[1] < 0x170b5d4430000000 || (l[1]
        == 0x170b5d4430000000 && l[0] < 0x8508c00000000001))))))))))
}

/// Whether the affine coordinates `x` and `y`, with the flag `infinity` for
/// the point at infinity, are both below the modulus and those of a point on
/// the curve. A flagged point is on the curve whatever its coordinates.
pub uninterp spec fn affine_on_curve(x: Seq<u64>, y: Seq<u64>, infinity: bool) -> bool;

/// Whether the order of the group times the point is the neutral element.
pub uninterp spec fn affine_order_divides(x: Seq<u64>, y: Seq<u64>, infinity: bool) -> bool;

/// Whether the coordinates are those of a point of the group: of a point on
/// the curve which the order of the group takes to the neutral element.
pub open spec fn affine_in_group(x: Seq<u64>, y: Seq<u64>, infinity: bool) -> bool {
    affine_on_curve(x, y, infinity) && affine_order_divides(x, y, infinity)
}

/// The number `k` in `0 .. group_order()` for which such a point is `k` times
/// the generator. The group is cyclic of prime order, so that each of its
/// points has one such number.
pub uninterp spec fn affine_log(x: Seq<u64>, y: Seq<u64>, infinity: bool) -> int;

/// Whether Jacobian coordinates, in the limbs that the curve library computes
/// on, are a point of the group.
pub uninterp spec fn jacobian_in_group(x: Seq<u64>, y: Seq<u64>, z: Seq<u64>) -> bool;

/// The number `k` in `0 .. group_order()` for which such a point is `k` times
/// the generator.
pub uninterp spec fn jacobian_log(x: Seq<u64>, y: Seq<u64>, z: Seq<u64>) -> int;

/// The affine coordinates of the `k`-fold multiple of the generator, as the
/// curve library normalises them.
pub uninterp spec fn subgroup_point(k: int) -> (Seq<u64>, Seq<u64>, bool);

/// The multiple that the sum of the multiples `a` and `b` is.
pub open spec fn log_add(a: int, b: int) -> int {
    (a + b) % group_order()
}

/// The multiple that twice the multiple `a` is.
pub open spec fn log_double(a: int) -> int {
    (2 * a) % group_order()
}

/// The multiple that `k` times the multiple `a` is.
pub open spec fn log_mul(k: int, a: int) -> int {
    (k * a) % group_order()
}

/// A group element in affine coordinates: the form in which elements are
/// stored and handed in.
#[derive(Clone, Copy, Debug)]
pub struct Affine {
    x: [u64; 6],
    y: [u64; 6],
    infinity: bool,
}

/// A group element in Jacobian coordinates: the form in which sums are
/// accumulated.
#[derive(Clone, Copy, Debug)]
pub struct Projective {
    x: [u64; 6],
    y: [u64; 6],
    z: [u64; 6],
}

impl Affine {
    /// Only points of the group are held.
    #[verifier::type_invariant]
    pub closed spec fn inv(self) -> bool {
        &&& below_modulus(self.x@)
        &&& below_modulus(self.y@)
        &&& affine_in_group(self.x@, self.y@, self.infinity)
        &&& 0 <= affine_log(self.x@, self.y@, self.infinity) < group_order()
    }

    /// The coordinates and the flag for the point at infinity.
    pub closed spec fn coordinates(self) -> (Seq<u64>, Seq<u64>, bool) {
        (self.x@, self.y@, self.infinity)
    }

    /// The multiple of the generator that this element is.
    pub open spec fn log(self) -> int {
        affine_log(self.coordinates().0, self.coordinates().1, self.coordinates().2)
    }

    /// The element with these coordinates, if they are those of one. The
    /// point at infinity is one whatever its coordinates below the modulus
    /// are; any other element comes with the coordinates of its normal form.
    pub fn from_coordinates(x: [u64; 6], y: [u64; 6], infinity: bool) -> (r: Option<Affine>)
        ensures
            r is Some <==> affine_in_group(x@, y@, infinity),
            r is Some ==> below_modulus(x@) && below_modulus(y@),
            infinity && below_modulus(x@) && below_modulus(y@) ==> r is Some,
            r matches Some(a) ==> {
                &&& a.coordinates() == (x@, y@, infinity)
                &&& infinity ==> a.log() == 0
                &&& !infinity ==> a.coordinates() == subgroup_point(a.log())
            },
    {
        if !curve_check(&x, &y, infinity) {
            return None;
        }
        if !order_check(&x, &y, infinity) {
            return None;
        }
        Some(Affine { x, y, infinity })
    }

    /// The generator: the element that all others are multiples of.
    pub fn generator() -> (g: Affine)
        ensures
            g.log() == 1,
            g.coordinates() == subgroup_point(1),
    {
        generator_point()
    }

    /// The coordinates and the flag, which are those of a point of the group.
    pub fn to_coordinates(&self) -> (c: ([u64; 6], [u64; 6], bool))
        ensures
            (c.0@, c.1@, c.2) == self.coordinates(),
            affine_in_group(c.0@, c.1@, c.2),
            below_modulus(c.0@),
            below_modulus(c.1@),
    {
        proof {
            use_type_invariant(self);
        }
        (self.x, self.y, self.infinity)
    }

    /// The first coordinate.
    pub fn x(&self) -> (x: [u64; 6])
        ensures
            x@ == self.coordinates().0,
    {
        self.x
    }

    /// The second coordinate.
    pub fn y(&self) -> (y: [u64; 6])
        ensures
            y@ == self.coordinates().1,
    {
        self.y
    }

    /// Whether this is the point at infinity, the neutral element.
    pub fn is_infinity(&self) -> (b: bool)
        ensures
            b == self.coordinates().2,
    {
        self.infinity
    }

    /// The same element in Jacobian coordinates.
    pub fn to_projective(&self) -> (p: Projective)
        ensures
            p.log() == self.log(),
            0 <= p.log() < group_order(),
    {
        proof {
            use_type_invariant(self);
        }
        affine_to_jacobian(self)
    }

    /// This element `scalar` times over.
    pub fn mul_bits(&self, scalar: &Scalar) -> (p: Projective)
        ensures
            p.log() == log_mul(scalar@ as int, self.log()),
    {
        proof {
            use_type_invariant(self);
        }
        double_and_add(self, scalar)
    }

    /// Whether the two hold the same coordinates and flag.
    pub fn same_coordinates(&self, other: &Affine) -> (b: bool)
        ensures
            b == (self.coordinates() == other.coordinates()),
    {
        let same_x = same_limbs(&self.x, &other.x);
        let same_y = same_limbs(&self.y, &other.y);
        same_x && same_y && self.infinity == other.infinity
    }
}

impl Projective {
    /// Only points of the group are held.
    #[verifier::type_invariant]
    pub closed spec fn inv(self) -> bool {
        &&& jacobian_in_group(self.x@, self.y@, self.z@)
        &&& 0 <= jacobian_log(self.x@, self.y@, self.z@) < group_order()
    }

    /// The multiple of the generator that this element is.
    pub closed spec fn log(self) -> int {
        jacobian_log(self.x@, self.y@, self.z@)
    }

    /// The neutral element.
    pub fn identity() -> (p: Projective)
        ensures
            p.log() == 0,
    {
        identity_point()
    }

    /// The element added to itself.
    pub fn double(&self) -> (r: Projective)
        ensures
            r.log() == log_double(self.log()),
    {
        proof {
            use_type_invariant(self);
        }
        double_point(self)
    }

    /// The sum of the two elements.
    pub fn add(&self, other: &Projective) -> (r: Projective)
        ensures
            r.log() == log_add(self.log(), other.log()),
    {
        proof {
            use_type_invariant(self);
            use_type_invariant(other);
        }
        add_points(self, other)
    }

    /// The sum of the two elements, the second in affine coordinates.
    pub fn add_mixed(&self, other: &Affine) -> (r: Projective)
        ensures
            r.log() == log_add(self.log(), other.log()),
    {
        proof {
            use_type_invariant(self);
            use_type_invariant(other);
        }
        add_mixed_points(self, other)
    }

    /// The same element in affine coordinates, normalised: two equal elements
    /// give the same coordinates.
    pub fn to_affine(&self) -> (a: Affine)
        ensures
            a.log() == self.log(),
            a.coordinates() == subgroup_point(self.log()),
    {
        proof {
            use_type_invariant(self);
        }
        normalize_point(self)
    }

    /// Whether the two are the same element of the group.
    pub fn same_point(&self, other: &Projective) -> (b: bool)
        ensures
            b == (self.log() == other.log()),
    {
        proof {
            use_type_invariant(self);
            use_type_invariant(other);
        }
        equal_points(self, other)
    }
}

/// Each coordinate has six limbs.
pub proof fn lemma_six_limbs(a: Affine)
    ensures
        a.coordinates().0.len() == 6,
        a.coordinates().1.len() == 6,
{
}

/// Doubling an element is adding it to itself.
pub proof fn law_double_is_self_add(a: int)
    ensures
        log_double(a) == log_add(a, a),
{
}

/// Doubling and adding along the bits of a scalar multiplies by the scalar:
/// one more bit at the end of `k` doubles the multiple and, where the bit is
/// set, adds the element once more.
pub proof fn law_double_and_add(k: int, bit: bool, a: int)
    ensures
        log_mul(
            2 * k + if bit {
                1int
            } else {
                0int
            },
            a,
        ) == log_add(
            log_double(log_mul(k, a)),
            if bit {
                a
            } else {
                0
            },
        ),
{
    let r = group_order();
    let b = if bit {
        1int
    } else {
        0int
    };
    vstd::arithmetic::div_mod::lemma_mul_mod_noop_right(2, k * a, r);
    vstd::arithmetic::div_mod::lemma_add_mod_noop_right(b * a, 2 * (k * a), r);
    assert((2 * k + b) * a == b * a + 2 * (k * a)) by (nonlinear_arith);
    assert(b * a == if bit {
        a
    } else {
        0
    }) by (nonlinear_arith)
        requires
            b == if bit {
                1int
            } else {
                0int
            },
    ;
}

/// The neutral element, at either side, changes nothing.
pub proof fn law_identity_is_neutral(a: int)
    requires
        0 <= a < group_order(),
    ensures
        log_add(a, 0) == a,
        log_add(0, a) == a,
        log_double(0) == 0,
{
}

/// Sums do not depend on the order of their terms, nor on their grouping.
pub proof fn law_add_commutes_and_associates(a: int, b: int, c: int)
    ensures
        log_add(a, b) == log_add(b, a),
        log_add(log_add(a, b), c) == log_add(a, log_add(b, c)),
{
    vstd::arithmetic::div_mod::lemma_add_mod_noop(a + b, c, group_order());
    vstd::arithmetic::div_mod::lemma_add_mod_noop(a, b + c, group_order());
    vstd::arithmetic::div_mod::lemma_mod_twice(c, group_order());
    vstd::arithmetic::div_mod::lemma_mod_twice(a, group_order());
    vstd::arithmetic::div_mod::lemma_add_mod_noop((a + b) % group_order(), c, group_order());
    vstd::arithmetic::div_mod::lemma_add_mod_noop(a, (b + c) % group_order(), group_order());
}

/// Whether the two coordinates are the same number.
fn same_limbs(a: &[u64; 6], b: &[u64; 6]) -> (same: bool)
    ensures
        same == (a@ == b@),
{
    let mut i: usize = 0;
    while i < 6
        invariant
            i <= 6,
            forall|j: int| 0 <= j < i ==> a@[j] == b@[j],
        decreases 6 - i,
    {
        if a[i] != b[i] {
            return false;
        }
        i = i + 1;
    }
    assert(a@ =~= b@);
    true
}

/// `AffineCurve::is_on_curve`, on field elements made by
/// `PrimeField::from_bigint`: whether both numbers are below the modulus and
/// the point is on the curve. `from_bigint` gives `None` from the modulus
/// upwards, and a flagged point is on the curve.
#[verifier::external_body]
fn curve_check(x: &[u64; 6], y: &[u64; 6], infinity: bool) -> (b: bool)
    ensures
        b == affine_on_curve(x@, y@, infinity),
        b ==> below_modulus(x@) && below_modulus(y@),
        infinity && below_modulus(x@) && below_modulus(y@) ==> b,
{
    match (Fq::from_bigint(BigInteger384(*x)), Fq::from_bigint(BigInteger384(*y))) {
        (Some(fx), Some(fy)) => G1Affine::new(fx, fy, infinity).is_on_curve(),
        _ => false,
    }
}

/// `AffineCurve::mul_bits` by `PrimeField::modulus` of the scalar field,
/// then `Zero::is_zero`: whether the order of the group takes the point to
/// the neutral element, as it does a flagged point. A point that it takes
/// there is a multiple of the generator, the flagged point the multiple 0,
/// and any other comes, as it stands, from `to_affine` of itself.
#[verifier::external_body]
fn order_check(x: &[u64; 6], y: &[u64; 6], infinity: bool) -> (divides: bool)
    requires
        affine_on_curve(x@, y@, infinity),
    ensures
        divides == affine_order_divides(x@, y@, infinity),
        divides ==> 0 <= affine_log(x@, y@, infinity) < group_order(),
        infinity ==> divides,
        divides && infinity ==> affine_log(x@, y@, infinity) == 0,
        divides && !infinity ==> (x@, y@, infinity) == subgroup_point(affine_log(x@, y@, infinity)),
{
    let fx = Fq::from_bigint(BigInteger384(*x)).unwrap();
    let fy = Fq::from_bigint(BigInteger384(*y)).unwrap();
    G1Affine::new(fx, fy, infinity).mul_bits(BitIteratorBE::new(Fr::modulus())).is_zero()
}

/// `AffineCurve::prime_subgroup_generator`: the generator, of which every
/// `log` counts the multiples.
#[verifier::external_body]
fn generator_point() -> (g: Affine)
    ensures
        below_modulus(g.x@) && below_modulus(g.y@),
        affine_in_group(g.x@, g.y@, g.infinity),
        affine_log(g.x@, g.y@, g.infinity) == 1,
        (g.x@, g.y@, g.infinity) == subgroup_point(1),
{
    let g = G1Affine::prime_subgroup_generator();
    Affine { x: g.x.to_bigint().0, y: g.y.to_bigint().0, infinity: g.infinity }
}

/// `Zero::zero` of the Jacobian form: the neutral element.
#[verifier::external_body]
fn identity_point() -> (p: Projective)
    ensures
        jacobian_in_group(p.x@, p.y@, p.z@),
        jacobian_log(p.x@, p.y@, p.z@) == 0,
{
    let p = G1Projective::zero();
    Projective { x: p.x.0.0, y: p.y.0.0, z: p.z.0.0 }
}

/// `AffineCurve::to_projective`: the same element.
#[verifier::external_body]
fn affine_to_jacobian(a: &Affine) -> (p: Projective)
    requires
        affine_in_group(a.x@, a.y@, a.infinity),
    ensures
        jacobian_in_group(p.x@, p.y@, p.z@),
        0 <= jacobian_log(p.x@, p.y@, p.z@) < group_order(),
        jacobian_log(p.x@, p.y@, p.z@) == affine_log(a.x@, a.y@, a.infinity),
{
    let fx = Fq::from_bigint(BigInteger384(a.x)).unwrap();
    let fy = Fq::from_bigint(BigInteger384(a.y)).unwrap();
    let p = G1Affine::new(fx, fy, a.infinity).to_projective();
    Projective { x: p.x.0.0, y: p.y.0.0, z: p.z.0.0 }
}

/// `ProjectiveCurve::to_affine`: the same element, with the coordinates that
/// the element alone decides.
#[verifier::external_body]
fn normalize_point(p: &Projective) -> (a: Affine)
    requires
        jacobian_in_group(p.x@, p.y@, p.z@),
    ensures
        below_modulus(a.x@) && below_modulus(a.y@),
        affine_in_group(a.x@, a.y@, a.infinity),
        0 <= affine_log(a.x@, a.y@, a.infinity) < group_order(),
        affine_log(a.x@, a.y@, a.infinity) == jacobian_log(p.x@, p.y@, p.z@),
        (a.x@, a.y@, a.infinity) == subgroup_point(jacobian_log(p.x@, p.y@, p.z@)),
{
    let q = G1Projective::new(
        Fp384(BigInteger384(p.x), PhantomData),
        Fp384(BigInteger384(p.y), PhantomData),
        Fp384(BigInteger384(p.z), PhantomData),
    );
    let a = q.to_affine();
    Affine { x: a.x.to_bigint().0, y: a.y.to_bigint().0, infinity: a.infinity }
}

/// `ProjectiveCurve::double`: the element added to itself.
#[verifier::external_body]
fn double_point(p: &Projective) -> (r: Projective)
    requires
        jacobian_in_group(p.x@, p.y@, p.z@),
    ensures
        jacobian_in_group(r.x@, r.y@, r.z@),
        0 <= jacobian_log(r.x@, r.y@, r.z@) < group_order(),
        jacobian_log(r.x@, r.y@, r.z@) == log_double(jacobian_log(p.x@, p.y@, p.z@)),
{
    let a = G1Projective::new(
        Fp384(BigInteger384(p.x), PhantomData),
        Fp384(BigInteger384(p.y), PhantomData),
        Fp384(BigInteger384(p.z), PhantomData),
    );
    let r = a.double();
    Projective { x: r.x.0.0, y: r.y.0.0, z: r.z.0.0 }
}

/// `Add` of the Jacobian form: the sum of the two elements.
#[verifier::external_body]
fn add_points(p: &Projective, q: &Projective) -> (r: Projective)
    requires
        jacobian_in_group(p.x@, p.y@, p.z@),
        jacobian_in_group(q.x@, q.y@, q.z@),
    ensures
        jacobian_in_group(r.x@, r.y@, r.z@),
        0 <= jacobian_log(r.x@, r.y@, r.z@) < group_order(),
        jacobian_log(r.x@, r.y@, r.z@) == log_add(
            jacobian_log(p.x@, p.y@, p.z@),
            jacobian_log(q.x@, q.y@, q.z@),
        ),
{
    let a = G1Projective::new(
        Fp384(BigInteger384(p.x), PhantomData),
        Fp384(BigInteger384(p.y), PhantomData),
        Fp384(BigInteger384(p.z), PhantomData),
    );
    let b = G1Projective::new(
        Fp384(BigInteger384(q.x), PhantomData),
        Fp384(BigInteger384(q.y), PhantomData),
        Fp384(BigInteger384(q.z), PhantomData),
    );
    let r = a + b;
    Projective { x: r.x.0.0, y: r.y.0.0, z: r.z.0.0 }
}

/// `ProjectiveCurve::add_mixed`: the sum of the two elements.
#[verifier::external_body]
fn add_mixed_points(p: &Projective, q: &Affine) -> (r: Projective)
    requires
        jacobian_in_group(p.x@, p.y@, p.z@),
        affine_in_group(q.x@, q.y@, q.infinity),
    ensures
        jacobian_in_group(r.x@, r.y@, r.z@),
        0 <= jacobian_log(r.x@, r.y@, r.z@) < group_order(),
        jacobian_log(r.x@, r.y@, r.z@) == log_add(
            jacobian_log(p.x@, p.y@, p.z@),
            affine_log(q.x@, q.y@, q.infinity),
        ),
{
    let a = G1Projective::new(
        Fp384(BigInteger384(p.x), PhantomData),
        Fp384(BigInteger384(p.y), PhantomData),
        Fp384(BigInteger384(p.z), PhantomData),
    );
    let fx = Fq::from_bigint(BigInteger384(q.x)).unwrap();
    let fy = Fq::from_bigint(BigInteger384(q.y)).unwrap();
    let r = a.add_mixed(&G1Affine::new(fx, fy, q.infinity));
    Projective { x: r.x.0.0, y: r.y.0.0, z: r.z.0.0 }
}

/// `AffineCurve::mul_bits` over `BitIteratorBE`: doubles and adds along the
/// bits of the scalar, the most significant first, which multiplies the
/// element by the scalar.
#[verifier::external_body]
fn double_and_add(a: &Affine, k: &Scalar) -> (r: Projective)
    requires
        affine_in_group(a.x@, a.y@, a.infinity),
    ensures
        jacobian_in_group(r.x@, r.y@, r.z@),
        0 <= jacobian_log(r.x@, r.y@, r.z@) < group_order(),
        jacobian_log(r.x@, r.y@, r.z@) == log_mul(
            limbs_value(k.limbs@) as int,
            affine_log(a.x@, a.y@, a.infinity),
        ),
{
    let fx = Fq::from_bigint(BigInteger384(a.x)).unwrap();
    let fy = Fq::from_bigint(BigInteger384(a.y)).unwrap();
    let r = G1Affine::new(fx, fy, a.infinity).mul_bits(BitIteratorBE::new(BigInteger256(k.limbs)));
    Projective { x: r.x.0.0, y: r.y.0.0, z: r.z.0.0 }
}

/// `PartialEq` of the Jacobian form: whether the two are one element.
#[verifier::external_body]
fn equal_points(p: &Projective, q: &Projective) -> (b: bool)
    requires
        jacobian_in_group(p.x@, p.y@, p.z@),
        jacobian_in_group(q.x@, q.y@, q.z@),
    ensures
        b == (jacobian_log(p.x@, p.y@, p.z@) == jacobian_log(q.x@, q.y@, q.z@)),
{
    let a = G1Projective::new(
        Fp384(BigInteger384(p.x), PhantomData),
        Fp384(BigInteger384(p.y), PhantomData),
        Fp384(BigInteger384(p.z), PhantomData),
    );
    let b = G1Projective::new(
        Fp384(BigInteger384(q.x), PhantomData),
        Fp384(BigInteger384(q.y), PhantomData),
        Fp384(BigInteger384(q.z), PhantomData),
    );
    a == b
}

} // verus!
