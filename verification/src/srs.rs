//! The structured reference string: the powers of one secret scalar, each
//! as a multiple of the generator.

use crate::curve::{affine_in_group, lemma_six_limbs, Affine};
use crate::encoding::{
    coordinates_at, lemma_point_round_trip, point_at_valid, point_bytes, read_point, slice_subrange,
    write_point,
};
use crate::error::PuzzleError;
use crate::fixed_base::FixedBaseTable;
use crate::hash::{blake2b512, blake2b_512};
use crate::scalar::{group_order, le_value, Scalar};
use vstd::arithmetic::div_mod::{lemma_mod_twice, lemma_mul_mod_noop_left, lemma_small_mod};
use vstd::bytes::{
    lemma_auto_spec_u64_to_from_le_bytes, spec_u64_from_le_bytes, spec_u64_to_le_bytes,
    u64_from_le_bytes, u64_to_le_bytes,
};
use vstd::prelude::*;

verus! {

/// The highest degree that a reference string is made for.
pub const MAX_SUPPORTED_DEGREE: u32 = 0x0fff_ffff;

/// `tau` to the power `i`.
pub open spec fn power(tau: int, i: nat) -> int
    decreases i,
{
    if i == 0 {
        1
    } else {
        power(tau, (i - 1) as nat) * tau
    }
}

/// The secret scalar that a seed gives: its BLAKE2b-512 digest, read as a
/// little-endian number and reduced into the scalar field.
pub open spec fn setup_secret(seed: Seq<u8>) -> int {
    (le_value(blake2b_512(seed)) as int) % group_order()
}

/// The bytes of the elements, one after the other.
pub open spec fn points_bytes(points: Seq<Affine>) -> Seq<u8> {
    Seq::new(97 * points.len(), |i: int| point_bytes(points[i / 97].coordinates())[i % 97])
}

/// The bytes of a reference string: its highest degree as eight bytes, least
/// significant first, then its elements.
pub open spec fn srs_bytes(powers: Seq<Affine>) -> Seq<u8> {
    spec_u64_to_le_bytes((powers.len() - 1) as u64) + points_bytes(powers)
}

/// The highest degree that the first eight bytes declare.
pub open spec fn declared_degree(bytes: Seq<u8>) -> u64 {
    spec_u64_from_le_bytes(bytes.subrange(0, 8))
}

/// The coordinates that the bytes hold at the place of the element `i`.
pub open spec fn element_at(bytes: Seq<u8>, i: int) -> crate::encoding::Coordinates {
    coordinates_at(bytes, 8 + 97 * i)
}

/// Whether the bytes hold an element of the group at the place of the
/// element `i`.
pub open spec fn element_valid(bytes: Seq<u8>, i: int) -> bool {
    point_at_valid(bytes, 8 + 97 * i)
}

/// Whether the bytes are those of a reference string: a supported degree,
/// then as many elements as it asks for and nothing more, each an element
/// of the group.
pub open spec fn srs_bytes_valid(bytes: Seq<u8>) -> bool {
    &&& bytes.len() >= 8
    &&& declared_degree(bytes) <= MAX_SUPPORTED_DEGREE
    &&& bytes.len() == 8 + 97 * (declared_degree(bytes) + 1)
    &&& forall|i: int| 0 <= i <= declared_degree(bytes) ==> element_valid(bytes, i)
}

/// The bytes of a reference string are read back as the same string: they
/// are valid, and the element at each place has the coordinates of the one
/// that was written.
pub proof fn law_srs_round_trip(powers: Seq<Affine>)
    requires
        1 <= powers.len() <= MAX_SUPPORTED_DEGREE + 1,
        forall|i: int|
            0 <= i < powers.len() ==> affine_in_group(
                (#[trigger] powers[i]).coordinates().0,
                powers[i].coordinates().1,
                powers[i].coordinates().2,
            ),
    ensures
        srs_bytes_valid(srs_bytes(powers)),
        declared_degree(srs_bytes(powers)) == powers.len() - 1,
        forall|i: int|
            0 <= i < powers.len() ==> element_at(srs_bytes(powers), i) == (#[trigger] powers[i]).coordinates(),
{
    let bytes = srs_bytes(powers);
    lemma_srs_head(powers);
    assert forall|i: int| 0 <= i < powers.len() implies element_at(bytes, i) == (
    #[trigger] powers[i]).coordinates() && element_valid(bytes, i) by {
        lemma_srs_element(powers, i);
        lemma_six_limbs(powers[i]);
        lemma_point_round_trip(bytes, 8 + 97 * i, powers[i].coordinates());
    }
}

/// The first eight bytes hold the highest degree.
proof fn lemma_srs_head(powers: Seq<Affine>)
    requires
        1 <= powers.len() <= MAX_SUPPORTED_DEGREE + 1,
    ensures
        srs_bytes(powers).len() == 8 + 97 * powers.len(),
        declared_degree(srs_bytes(powers)) == powers.len() - 1,
{
    let degree = (powers.len() - 1) as u64;
    lemma_auto_spec_u64_to_from_le_bytes();
    assert(spec_u64_to_le_bytes(degree).len() == 8);
    assert(srs_bytes(powers).subrange(0, 8) =~= spec_u64_to_le_bytes(degree));
}

/// The bytes of the element `i` stand at its place.
proof fn lemma_srs_element(powers: Seq<Affine>, i: int)
    requires
        1 <= powers.len() <= MAX_SUPPORTED_DEGREE + 1,
        0 <= i < powers.len(),
    ensures
        8 + 97 * i + 97 <= srs_bytes(powers).len(),
        srs_bytes(powers).subrange(8 + 97 * i, 8 + 97 * i + 97) == point_bytes(
            powers[i].coordinates(),
        ),
{
    lemma_srs_head(powers);
    lemma_six_limbs(powers[i]);
    let bytes = srs_bytes(powers);
    let c = powers[i].coordinates();
    let at = 8 + 97 * i;
    let head = spec_u64_to_le_bytes((powers.len() - 1) as u64);
    assert(head.len() == 8) by {
        lemma_auto_spec_u64_to_from_le_bytes();
    }
    assert(point_bytes(c).len() == 97);
    assert forall|j: int| 0 <= j < 97 implies bytes.subrange(at, at + 97)[j] == point_bytes(c)[j] by {
        lemma_index_in_element(i, j);
        assert(bytes[at + j] == points_bytes(powers)[97 * i + j]);
    }
    assert(bytes.subrange(at, at + 97) =~= point_bytes(c));
}

/// The byte `j` of the element `i` is the byte `97 * i + j` of them all.
proof fn lemma_index_in_element(i: int, j: int)
    requires
        0 <= i,
        0 <= j < 97,
    ensures
        (97 * i + j) / 97 == i,
        (97 * i + j) % 97 == j,
{
    vstd::arithmetic::div_mod::lemma_fundamental_div_mod_converse(97 * i + j, 97, i, j);
}

/// The powers of a secret scalar as group elements, up to a highest degree.
/// It is made once and not changed thereafter.
pub struct UniversalSrs {
    powers: Vec<Affine>,
}

impl UniversalSrs {
    /// There is at least the power 0, and no more powers than are supported.
    #[verifier::type_invariant]
    closed spec fn inv(self) -> bool {
        1 <= self.powers@.len() <= MAX_SUPPORTED_DEGREE + 1
    }

    /// The elements, the one for the power 0 first.
    pub closed spec fn powers(self) -> Seq<Affine> {
        self.powers@
    }

    /// The highest degree that the string serves.
    pub open spec fn spec_max_degree(self) -> int {
        self.powers().len() - 1
    }

    /// The reference string for all degrees up to `max_degree`, from the
    /// secret that `seed` gives.
    pub fn setup(max_degree: u32, seed: &[u8]) -> (r: Result<UniversalSrs, PuzzleError>)
        ensures
            max_degree > MAX_SUPPORTED_DEGREE ==> r == Err::<UniversalSrs, PuzzleError>(
                PuzzleError::SetupError,
            ),
            max_degree <= MAX_SUPPORTED_DEGREE ==> r is Ok,
            r matches Ok(srs) ==> {
                &&& srs.spec_max_degree() == max_degree
                &&& forall|i: int|
                    0 <= i <= max_degree ==> (#[trigger] srs.powers()[i]).log() == power(
                        setup_secret(seed@),
                        i as nat,
                    ) % group_order()
            },
    {
        if max_degree > MAX_SUPPORTED_DEGREE {
            return Err(PuzzleError::SetupError);
        }
        let table = FixedBaseTable::new(&Affine::generator());
        let digest = blake2b512(seed);
        let tau = Scalar::from_bytes_le_mod_order(digest.as_slice());
        let ghost t = setup_secret(seed@);
        let mut current = Scalar::from_u64(1);
        let mut powers: Vec<Affine> = Vec::new();
        let mut i: u32 = 0;
        proof {
            lemma_small_mod(1, group_order() as nat);
        }
        loop
            invariant_except_break
                i <= max_degree,
                powers@.len() == i,
            invariant
                max_degree <= MAX_SUPPORTED_DEGREE,
                table.base_log() == 1,
                tau@ == t,
                0 <= t < group_order(),
                current@ == power(t, i as nat) % group_order(),
                forall|j: int|
                    0 <= j < powers@.len() ==> (#[trigger] powers@[j]).log() == power(t, j as nat)
                        % group_order(),
            ensures
                powers@.len() == max_degree + 1,
            decreases max_degree - i,
        {
            let element = table.mul(&current).to_affine();
            proof {
                lemma_mod_twice(power(t, i as nat), group_order());
                assert(current@ * 1 == current@);
            }
            powers.push(element);
            if i == max_degree {
                break ;
            }
            let ghost before = power(t, i as nat);
            current = current.mul_mod(&tau);
            proof {
                lemma_mul_mod_noop_left(before, t, group_order());
            }
            i = i + 1;
        }
        Ok(UniversalSrs { powers })
    }

    /// The string as bytes, from which `from_bytes` reads the same string.
    pub fn to_bytes(&self) -> (bytes: Vec<u8>)
        ensures
            bytes@ == srs_bytes(self.powers()),
            srs_bytes_valid(bytes@),
            declared_degree(bytes@) == self.spec_max_degree(),
            forall|i: int|
                0 <= i < self.powers().len() ==> element_at(bytes@, i) == (#[trigger] self.powers()[i]).coordinates(),
    {
        proof {
            use_type_invariant(self);
        }
        let n = self.powers.len();
        let mut bytes = u64_to_le_bytes((n - 1) as u64);
        let ghost head = bytes@;
        let mut i: usize = 0;
        proof {
            assert(points_bytes(self.powers@.subrange(0, 0)) =~= Seq::<u8>::empty());
        }
        while i < n
            invariant
                i <= n,
                n == self.powers@.len(),
                bytes@ == head + points_bytes(self.powers@.subrange(0, i as int)),
                forall|j: int|
                    0 <= j < i ==> affine_in_group(
                        (#[trigger] self.powers@[j]).coordinates().0,
                        self.powers@[j].coordinates().1,
                        self.powers@[j].coordinates().2,
                    ),
            decreases n - i,
        {
            let element = self.powers[i];
            let _ = element.to_coordinates();
            write_point(&mut bytes, &element);
            proof {
                let before = self.powers@.subrange(0, i as int);
                let after = self.powers@.subrange(0, i + 1);
                let c = self.powers@[i as int].coordinates();
                lemma_six_limbs(self.powers@[i as int]);
                assert(point_bytes(c).len() == 97);
                assert(points_bytes(after) =~= points_bytes(before) + point_bytes(c)) by {
                    assert forall|j: int| 0 <= j < 97 * (i + 1) implies points_bytes(after)[j] == (
                    points_bytes(before) + point_bytes(c))[j] by {
                        if j < 97 * i {
                            assert(after[j / 97] == before[j / 97]);
                        } else {
                            assert(j / 97 == i && j % 97 == j - 97 * i);
                        }
                    }
                }
            }
            i = i + 1;
        }
        proof {
            assert(self.powers@.subrange(0, n as int) =~= self.powers@);
            law_srs_round_trip(self.powers@);
        }
        bytes
    }

    /// The string that the bytes hold, if they hold one.
    pub fn from_bytes(bytes: &[u8]) -> (r: Option<UniversalSrs>)
        ensures
            r is Some <==> srs_bytes_valid(bytes@),
            r matches Some(srs) ==> {
                &&& srs.spec_max_degree() == declared_degree(bytes@)
                &&& forall|i: int|
                    0 <= i < srs.powers().len() ==> (#[trigger] srs.powers()[i]).coordinates()
                        == element_at(bytes@, i)
            },
    {
        let len = bytes.len();
        if len < 8 {
            return None;
        }
        let degree = u64_from_le_bytes(slice_subrange(bytes, 0, 8));
        if degree > MAX_SUPPORTED_DEGREE as u64 {
            return None;
        }
        let count: u64 = degree + 1;
        if len as u64 != 8 + 97 * count {
            return None;
        }
        let mut powers: Vec<Affine> = Vec::new();
        let mut i: u64 = 0;
        while i < count
            invariant
                i <= count,
                count == degree + 1,
                degree == declared_degree(bytes@),
                degree <= MAX_SUPPORTED_DEGREE,
                len == bytes@.len(),
                len == 8 + 97 * count,
                powers@.len() == i,
                forall|j: int| 0 <= j < i ==> element_valid(bytes@, j),
                forall|j: int|
                    0 <= j < i ==> (#[trigger] powers@[j]).coordinates() == element_at(bytes@, j),
            decreases count - i,
        {
            let at: usize = (8 + 97 * i) as usize;
            match read_point(bytes, at) {
                Some(p) => {
                    powers.push(p);
                },
                None => {
                    assert(!element_valid(bytes@, i as int));
                    return None;
                },
            }
            i = i + 1;
        }
        Some(UniversalSrs { powers })
    }

    /// The highest degree that the string serves.
    pub fn max_degree(&self) -> (d: u32)
        ensures
            d == self.spec_max_degree(),
    {
        proof {
            use_type_invariant(self);
        }
        (self.powers.len() - 1) as u32
    }

    /// The element for the power `i`.
    pub fn power_of_tau(&self, i: usize) -> (p: Affine)
        requires
            i <= self.spec_max_degree(),
        ensures
            p == self.powers()[i as int],
    {
        self.powers[i]
    }

    /// The elements for the powers up to `degree`.
    pub fn powers_up_to(&self, degree: u32) -> (key: Vec<Affine>)
        requires
            degree <= self.spec_max_degree(),
        ensures
            key@ == self.powers().subrange(0, degree + 1),
    {
        proof {
            use_type_invariant(self);
        }
        let mut key: Vec<Affine> = Vec::new();
        let end: usize = degree as usize + 1;
        let mut i: usize = 0;
        while i < end
            invariant
                i <= end,
                end == degree + 1,
                end <= self.powers@.len(),
                key@ == self.powers@.subrange(0, i as int),
            decreases end - i,
        {
            key.push(self.powers[i]);
            proof {
                assert(self.powers@.subrange(0, i + 1) =~= self.powers@.subrange(0, i as int).push(
                    self.powers@[i as int],
                ));
            }
            i = i + 1;
        }
        key
    }
}

} // verus!
