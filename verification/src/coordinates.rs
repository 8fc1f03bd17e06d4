//! Coordinates as they come: points that need not lie on the curve.
//!
//! The values of this module hold numbers below the modulus of the base
//! field and nothing more is asked of them. The curve library's formulas are
//! applied to them as they stand. What comes out is named, not stated, but
//! for the inputs on which the formulas take a short way: the point at
//! infinity, a scalar of 0 or 1, a point added to itself. Where the
//! coordinates are those of elements of the group, the outcome is the
//! element that the group's law gives.

use crate::curve::{
    affine_in_group, affine_log, below_modulus, log_add, log_mul, subgroup_point, Affine,
};
use crate::scalar::{limbs_value, Scalar};
use snarkvm_curves::bls12_377::{Fq, G1Affine, G1Projective};
use snarkvm_curves::{AffineCurve, ProjectiveCurve};
use snarkvm_fields::{PrimeField, Zero};
use snarkvm_utilities::biginteger::{BigInteger256, BigInteger384};
use snarkvm_utilities::BitIteratorBE;
use vstd::prelude::*;

verus! {

/// The limbs of a small number.
pub open spec fn small(v: u64) -> Seq<u64> {
    seq![v, 0u64, 0u64, 0u64, 0u64, 0u64]
}

/// Three coordinates, each in limbs.
pub type Triple = (Seq<u64>, Seq<u64>, Seq<u64>);

/// The affine coordinates that `to_affine` gives for Jacobian ones.
pub uninterp spec fn jacobian_normal_form(x: Seq<u64>, y: Seq<u64>, z: Seq<u64>) -> (
    Seq<u64>,
    Seq<u64>,
    bool,
);

/// The Jacobian coordinates that doubling gives.
pub uninterp spec fn jacobian_double(x: Seq<u64>, y: Seq<u64>, z: Seq<u64>) -> Triple;

/// The Jacobian coordinates that adding the second triple to the first gives.
pub uninterp spec fn jacobian_sum(
    x: Seq<u64>,
    y: Seq<u64>,
    z: Seq<u64>,
    other_x: Seq<u64>,
    other_y: Seq<u64>,
    other_z: Seq<u64>,
) -> Triple;

/// The Jacobian coordinates that doubling and adding along the 256 bits of
/// the scalar `k`, given in limbs, gives for the affine coordinates.
pub uninterp spec fn affine_multiple(x: Seq<u64>, y: Seq<u64>, infinity: bool, k: Seq<u64>) -> Triple;

/// Affine coordinates and the flag for the point at infinity.
#[derive(Clone, Copy, Debug, PartialEq, Eq)]
pub struct AffineCoordinates {
    pub x: [u64; 6],
    pub y: [u64; 6],
    pub infinity: bool,
}

/// Jacobian coordinates: `(x, y, z)` stands for the affine point
/// `(x / z^2, y / z^3)`, and for the point at infinity where `z` is 0.
#[derive(Clone, Copy, Debug, PartialEq, Eq)]
pub struct JacobianCoordinates {
    pub x: [u64; 6],
    pub y: [u64; 6],
    pub z: [u64; 6],
}

impl AffineCoordinates {
    /// The coordinates and the flag.
    pub open spec fn coordinates(self) -> (Seq<u64>, Seq<u64>, bool) {
        (self.x@, self.y@, self.infinity)
    }

    /// Whether both coordinates are below the modulus.
    pub open spec fn reduced(self) -> bool {
        below_modulus(self.x@) && below_modulus(self.y@)
    }

    /// Whether the coordinates are those of an element of the group.
    pub open spec fn in_group(self) -> bool {
        affine_in_group(self.x@, self.y@, self.infinity)
    }

    /// The multiple of the generator that the element is.
    pub open spec fn log(self) -> int {
        affine_log(self.x@, self.y@, self.infinity)
    }

    /// The coordinates of an element of the group.
    pub fn of_element(element: &Affine) -> (c: AffineCoordinates)
        ensures
            c.coordinates() == element.coordinates(),
            c.reduced(),
            c.in_group(),
    {
        let (x, y, infinity) = element.to_coordinates();
        AffineCoordinates { x, y, infinity }
    }

    /// The element of the group with these coordinates, if there is one.
    pub fn to_element(&self) -> (r: Option<Affine>)
        ensures
            r is Some <==> self.in_group(),
            r matches Some(a) ==> a.coordinates() == self.coordinates(),
    {
        Affine::from_coordinates(self.x, self.y, self.infinity)
    }

    /// The point `scalar` times over, by doubling and adding along the bits
    /// of the scalar. The scalar 0 and the point at infinity give the point
    /// at infinity; the scalar 1 gives the point itself, with 1 for `z`.
    pub fn mul_bits(&self, scalar: &Scalar) -> (r: JacobianCoordinates)
        requires
            self.reduced(),
        ensures
            r.coordinates() == affine_multiple(self.x@, self.y@, self.infinity, scalar.limbs@),
            r.reduced(),
            scalar.limbs@ == seq![0u64, 0u64, 0u64, 0u64] || self.infinity ==> r.coordinates() == (
                small(0),
                small(1),
                small(0),
            ),
            scalar.limbs@ == seq![1u64, 0u64, 0u64, 0u64] && !self.infinity ==> r.coordinates() == (
                self.x@,
                self.y@,
                small(1),
            ),
            self.in_group() ==> r.in_group() && r.log() == log_mul(scalar@ as int, self.log()),
    {
        multiple_of(self, scalar)
    }
}

impl JacobianCoordinates {
    /// The three coordinates.
    pub open spec fn coordinates(self) -> Triple {
        (self.x@, self.y@, self.z@)
    }

    /// Whether the three coordinates are below the modulus.
    pub open spec fn reduced(self) -> bool {
        below_modulus(self.x@) && below_modulus(self.y@) && below_modulus(self.z@)
    }

    /// The affine coordinates of the same point.
    pub open spec fn normal_form(self) -> (Seq<u64>, Seq<u64>, bool) {
        jacobian_normal_form(self.x@, self.y@, self.z@)
    }

    /// Whether the coordinates are those of an element of the group.
    pub open spec fn in_group(self) -> bool {
        affine_in_group(self.normal_form().0, self.normal_form().1, self.normal_form().2)
    }

    /// The multiple of the generator that the element is.
    pub open spec fn log(self) -> int {
        affine_log(self.normal_form().0, self.normal_form().1, self.normal_form().2)
    }

    /// The point at infinity, the neutral element: `(0, 1, 0)`.
    pub fn zero() -> (r: JacobianCoordinates)
        ensures
            r.coordinates() == (small(0), small(1), small(0)),
            r.reduced(),
            r.in_group(),
            r.log() == 0,
    {
        point_at_infinity()
    }

    /// Whether this is the point at infinity: whether `z` is 0.
    pub fn is_zero(&self) -> (b: bool)
        ensures
            b == (self.z@ == small(0)),
    {
        let mut i: usize = 0;
        while i < 6
            invariant
                i <= 6,
                forall|j: int| 0 <= j < i ==> self.z@[j] == 0,
            decreases 6 - i,
        {
            if self.z[i] != 0 {
                return false;
            }
            i = i + 1;
        }
        assert(self.z@ =~= small(0));
        true
    }

    /// The point added to itself. The point at infinity stays as it is.
    pub fn double(&self) -> (r: JacobianCoordinates)
        requires
            self.reduced(),
        ensures
            r.coordinates() == jacobian_double(self.x@, self.y@, self.z@),
            r.reduced(),
            self.z@ == small(0) ==> r.coordinates() == self.coordinates(),
            self.in_group() ==> r.in_group() && r.log() == log_add(self.log(), self.log()),
    {
        doubled(self)
    }

    /// The sum of the two points. The point at infinity, at either side,
    /// gives the other point as it stands; a point added to itself is
    /// doubled.
    pub fn add(&self, other: &JacobianCoordinates) -> (r: JacobianCoordinates)
        requires
            self.reduced(),
            other.reduced(),
        ensures
            r.coordinates() == jacobian_sum(self.x@, self.y@, self.z@, other.x@, other.y@, other.z@),
            r.reduced(),
            self.z@ == small(0) ==> r.coordinates() == other.coordinates(),
            self.z@ != small(0) && other.z@ == small(0) ==> r.coordinates() == self.coordinates(),
            self.coordinates() == other.coordinates() ==> r.coordinates() == jacobian_double(
                self.x@,
                self.y@,
                self.z@,
            ),
            self.in_group() && other.in_group() ==> r.in_group() && r.log() == log_add(
                self.log(),
                other.log(),
            ),
    {
        sum_of(self, other)
    }

    /// The affine coordinates of the same point: the point at infinity where
    /// `z` is 0, and `x` and `y` as they stand where `z` is 1. Of an element
    /// of the group they are the coordinates that the element alone decides.
    pub fn to_affine(&self) -> (r: AffineCoordinates)
        requires
            self.reduced(),
        ensures
            r.coordinates() == self.normal_form(),
            r.reduced(),
            self.z@ == small(0) ==> r.coordinates() == (small(0), small(1), true),
            self.z@ == small(1) ==> r.coordinates() == (self.x@, self.y@, false),
            self.in_group() ==> r.coordinates() == subgroup_point(self.log()),
    {
        normalized(self)
    }
}

/// The affine coordinates `x` and `y`, two small numbers, with the flag.
pub fn creat_affine(x: u64, y: u64, infinity: bool) -> (c: AffineCoordinates)
    ensures
        c.x@ == small(x),
        c.y@ == small(y),
        c.infinity == infinity,
        c.reduced(),
{
    let c = AffineCoordinates { x: [x, 0, 0, 0, 0, 0], y: [y, 0, 0, 0, 0, 0], infinity };
    assert(c.x@ =~= small(x));
    assert(c.y@ =~= small(y));
    c
}

/// The Jacobian coordinates `(x, y, z)`, three small numbers.
pub fn creat_projective(x: u64, y: u64, z: u64) -> (c: JacobianCoordinates)
    ensures
        c.x@ == small(x),
        c.y@ == small(y),
        c.z@ == small(z),
        c.reduced(),
{
    let c = JacobianCoordinates { x: [x, 0, 0, 0, 0, 0], y: [y, 0, 0, 0, 0, 0], z: [z, 0, 0, 0, 0, 0] };
    assert(c.x@ =~= small(x));
    assert(c.y@ =~= small(y));
    assert(c.z@ =~= small(z));
    c
}

/// `Zero::zero` of the Jacobian form: `(0, 1, 0)`, which `to_affine` takes to
/// the point at infinity, the neutral element of the group.
#[verifier::external_body]
fn point_at_infinity() -> (r: JacobianCoordinates)
    ensures
        (r.x@, r.y@, r.z@) == (small(0), small(1), small(0)),
        below_modulus(r.x@) && below_modulus(r.y@) && below_modulus(r.z@),
        affine_in_group(
            jacobian_normal_form(r.x@, r.y@, r.z@).0,
            jacobian_normal_form(r.x@, r.y@, r.z@).1,
            jacobian_normal_form(r.x@, r.y@, r.z@).2,
        ),
        affine_log(
            jacobian_normal_form(r.x@, r.y@, r.z@).0,
            jacobian_normal_form(r.x@, r.y@, r.z@).1,
            jacobian_normal_form(r.x@, r.y@, r.z@).2,
        ) == 0,
{
    let p = G1Projective::zero();
    JacobianCoordinates { x: p.x.to_bigint().0, y: p.y.to_bigint().0, z: p.z.to_bigint().0 }
}

/// `ProjectiveCurve::double`, between `from_bigint` and `to_bigint`. It
/// returns a point at infinity as it is.
#[verifier::external_body]
fn doubled(p: &JacobianCoordinates) -> (r: JacobianCoordinates)
    requires
        below_modulus(p.x@) && below_modulus(p.y@) && below_modulus(p.z@),
    ensures
        (r.x@, r.y@, r.z@) == jacobian_double(p.x@, p.y@, p.z@),
        below_modulus(r.x@) && below_modulus(r.y@) && below_modulus(r.z@),
        p.z@ == small(0) ==> (r.x@, r.y@, r.z@) == (p.x@, p.y@, p.z@),
        p.in_group() ==> r.in_group() && r.log() == log_add(p.log(), p.log()),
{
    let a = G1Projective::new(
        Fq::from_bigint(BigInteger384(p.x)).unwrap(),
        Fq::from_bigint(BigInteger384(p.y)).unwrap(),
        Fq::from_bigint(BigInteger384(p.z)).unwrap(),
    );
    let r = a.double();
    JacobianCoordinates { x: r.x.to_bigint().0, y: r.y.to_bigint().0, z: r.z.to_bigint().0 }
}

/// `Add` of the Jacobian form, between `from_bigint` and `to_bigint`. Where
/// the first point is at infinity it returns the second, and where only the
/// second is, the first; where the two are the same it doubles.
#[verifier::external_body]
fn sum_of(p: &JacobianCoordinates, q: &JacobianCoordinates) -> (r: JacobianCoordinates)
    requires
        below_modulus(p.x@) && below_modulus(p.y@) && below_modulus(p.z@),
        below_modulus(q.x@) && below_modulus(q.y@) && below_modulus(q.z@),
    ensures
        (r.x@, r.y@, r.z@) == jacobian_sum(p.x@, p.y@, p.z@, q.x@, q.y@, q.z@),
        below_modulus(r.x@) && below_modulus(r.y@) && below_modulus(r.z@),
        p.z@ == small(0) ==> (r.x@, r.y@, r.z@) == (q.x@, q.y@, q.z@),
        p.z@ != small(0) && q.z@ == small(0) ==> (r.x@, r.y@, r.z@) == (p.x@, p.y@, p.z@),
        (p.x@, p.y@, p.z@) == (q.x@, q.y@, q.z@) ==> (r.x@, r.y@, r.z@) == jacobian_double(
            p.x@,
            p.y@,
            p.z@,
        ),
        p.in_group() && q.in_group() ==> r.in_group() && r.log() == log_add(p.log(), q.log()),
{
    let a = G1Projective::new(
        Fq::from_bigint(BigInteger384(p.x)).unwrap(),
        Fq::from_bigint(BigInteger384(p.y)).unwrap(),
        Fq::from_bigint(BigInteger384(p.z)).unwrap(),
    );
    let b = G1Projective::new(
        Fq::from_bigint(BigInteger384(q.x)).unwrap(),
        Fq::from_bigint(BigInteger384(q.y)).unwrap(),
        Fq::from_bigint(BigInteger384(q.z)).unwrap(),
    );
    let r = a + b;
    JacobianCoordinates { x: r.x.to_bigint().0, y: r.y.to_bigint().0, z: r.z.to_bigint().0 }
}

/// `AffineCurve::mul_bits` over `BitIteratorBE`, between `from_bigint` and
/// `to_bigint`. It starts at the point at infinity, skips the leading zero
/// bits, and for each bit doubles and, where the bit is set, adds the point:
/// a point at infinity is never added, and the first point added comes as it
/// stands, with 1 for `z`.
#[verifier::external_body]
fn multiple_of(a: &AffineCoordinates, k: &Scalar) -> (r: JacobianCoordinates)
    requires
        below_modulus(a.x@) && below_modulus(a.y@),
    ensures
        (r.x@, r.y@, r.z@) == affine_multiple(a.x@, a.y@, a.infinity, k.limbs@),
        below_modulus(r.x@) && below_modulus(r.y@) && below_modulus(r.z@),
        k.limbs@ == seq![0u64, 0u64, 0u64, 0u64] || a.infinity ==> (r.x@, r.y@, r.z@) == (
            small(0),
            small(1),
            small(0),
        ),
        k.limbs@ == seq![1u64, 0u64, 0u64, 0u64] && !a.infinity ==> (r.x@, r.y@, r.z@) == (
            a.x@,
            a.y@,
            small(1),
        ),
        a.in_group() ==> r.in_group() && r.log() == log_mul(limbs_value(k.limbs@) as int, a.log()),
{
    let fx = Fq::from_bigint(BigInteger384(a.x)).unwrap();
    let fy = Fq::from_bigint(BigInteger384(a.y)).unwrap();
    let r = G1Affine::new(fx, fy, a.infinity).mul_bits(BitIteratorBE::new(BigInteger256(k.limbs)));
    JacobianCoordinates { x: r.x.to_bigint().0, y: r.y.to_bigint().0, z: r.z.to_bigint().0 }
}

/// `ProjectiveCurve::to_affine`, between `from_bigint` and `to_bigint`. It
/// gives the fixed point at infinity where `z` is 0, and `x` and `y` as
/// they stand where `z` is 1. Of an element of the group it gives the
/// coordinates that the element alone decides.
#[verifier::external_body]
fn normalized(p: &JacobianCoordinates) -> (r: AffineCoordinates)
    requires
        below_modulus(p.x@) && below_modulus(p.y@) && below_modulus(p.z@),
    ensures
        (r.x@, r.y@, r.infinity) == jacobian_normal_form(p.x@, p.y@, p.z@),
        below_modulus(r.x@) && below_modulus(r.y@),
        p.z@ == small(0) ==> (r.x@, r.y@, r.infinity) == (small(0), small(1), true),
        p.z@ == small(1) ==> (r.x@, r.y@, r.infinity) == (p.x@, p.y@, false),
        p.in_group() ==> (r.x@, r.y@, r.infinity) == subgroup_point(p.log()),
{
    let a = G1Projective::new(
        Fq::from_bigint(BigInteger384(p.x)).unwrap(),
        Fq::from_bigint(BigInteger384(p.y)).unwrap(),
        Fq::from_bigint(BigInteger384(p.z)).unwrap(),
    ).to_affine();
    AffineCoordinates { x: a.x.to_bigint().0, y: a.y.to_bigint().0, infinity: a.infinity }
}

} // verus!
