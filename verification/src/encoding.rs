//! Group elements as bytes.
//!
//! A coordinate is written limb by limb, each limb as eight bytes, least
//! significant first. An element is its two coordinates and one byte for the
//! flag of the point at infinity: 97 bytes.

use crate::curve::{affine_in_group, Affine};
use crate::hash::append_bytes;
use vstd::bytes::{
    lemma_auto_spec_u64_to_from_le_bytes, spec_u64_from_le_bytes, spec_u64_to_le_bytes,
    u64_from_le_bytes, u64_to_le_bytes,
};
use vstd::prelude::*;

verus! {

/// The two coordinates of a point, each in limbs, and the flag for the point
/// at infinity.
pub type Coordinates = (Seq<u64>, Seq<u64>, bool);

/// The bytes of the limbs: byte `i` is byte `i % 8` of limb `i / 8`.
pub open spec fn limbs_bytes(limbs: Seq<u64>) -> Seq<u8> {
    Seq::new(8 * limbs.len(), |i: int| spec_u64_to_le_bytes(limbs[i / 8])[i % 8])
}

/// The byte of the flag.
pub open spec fn flag_byte(infinity: bool) -> u8 {
    if infinity {
        1
    } else {
        0
    }
}

/// The bytes of an element.
pub open spec fn point_bytes(c: Coordinates) -> Seq<u8> {
    limbs_bytes(c.0) + limbs_bytes(c.1) + seq![flag_byte(c.2)]
}

/// The limb that the eight bytes from `at` hold.
pub open spec fn limb_at(bytes: Seq<u8>, at: int) -> u64 {
    spec_u64_from_le_bytes(bytes.subrange(at, at + 8))
}

/// The six limbs that the 48 bytes from `at` hold.
pub open spec fn limbs_at(bytes: Seq<u8>, at: int) -> Seq<u64> {
    Seq::new(6, |i: int| limb_at(bytes, at + 8 * i))
}

/// The coordinates that the 97 bytes from `at` hold, whether or not they are
/// those of an element. The flag is set by the byte 1 and by no other.
pub open spec fn coordinates_at(bytes: Seq<u8>, at: int) -> Coordinates {
    (limbs_at(bytes, at), limbs_at(bytes, at + 48), bytes[at + 96] == 1)
}

/// Whether the 97 bytes from `at` are those of an element: the byte of the
/// flag is 0 or 1 and the coordinates are those of a point of the group.
pub open spec fn point_at_valid(bytes: Seq<u8>, at: int) -> bool {
    let c = coordinates_at(bytes, at);
    bytes[at + 96] <= 1 && affine_in_group(c.0, c.1, c.2)
}

/// Reading what was written gives the limbs back.
pub proof fn lemma_limbs_round_trip(bytes: Seq<u8>, at: int, limbs: Seq<u64>)
    requires
        limbs.len() == 6,
        0 <= at,
        at + 48 <= bytes.len(),
        bytes.subrange(at, at + 48) == limbs_bytes(limbs),
    ensures
        limbs_at(bytes, at) == limbs,
{
    lemma_auto_spec_u64_to_from_le_bytes();
    assert forall|i: int| 0 <= i < 6 implies limbs_at(bytes, at)[i] == limbs[i] by {
        let part = bytes.subrange(at + 8 * i, at + 8 * i + 8);
        let whole = bytes.subrange(at, at + 48);
        assert(part =~= spec_u64_to_le_bytes(limbs[i])) by {
            assert(spec_u64_to_le_bytes(limbs[i]).len() == 8);
            assert forall|j: int| 0 <= j < 8 implies part[j] == spec_u64_to_le_bytes(limbs[i])[j] by {
                assert(part[j] == whole[8 * i + j]);
                assert((8 * i + j) / 8 == i && (8 * i + j) % 8 == j);
            }
        }
    }
    assert(limbs_at(bytes, at) =~= limbs);
}

/// Reading what was written gives the element back.
pub proof fn lemma_point_round_trip(bytes: Seq<u8>, at: int, c: Coordinates)
    requires
        c.0.len() == 6,
        c.1.len() == 6,
        0 <= at,
        at + 97 <= bytes.len(),
        bytes.subrange(at, at + 97) == point_bytes(c),
    ensures
        coordinates_at(bytes, at) == c,
        bytes[at + 96] <= 1,
{
    let whole = bytes.subrange(at, at + 97);
    assert(bytes.subrange(at, at + 48) =~= limbs_bytes(c.0)) by {
        assert forall|j: int| 0 <= j < 48 implies bytes.subrange(at, at + 48)[j] == limbs_bytes(
            c.0,
        )[j] by {
            assert(bytes[at + j] == whole[j]);
        }
    }
    assert(bytes.subrange(at + 48, at + 96) =~= limbs_bytes(c.1)) by {
        assert forall|j: int| 0 <= j < 48 implies bytes.subrange(at + 48, at + 96)[j]
            == limbs_bytes(c.1)[j] by {
            assert(bytes[at + 48 + j] == whole[48 + j]);
        }
    }
    assert(bytes[at + 96] == whole[96]);
    lemma_limbs_round_trip(bytes, at, c.0);
    lemma_limbs_round_trip(bytes, at + 48, c.1);
}

/// Adds the bytes of the limbs at the end of `out`.
pub fn write_limbs(out: &mut Vec<u8>, limbs: &[u64; 6])
    ensures
        final(out)@ == old(out)@ + limbs_bytes(limbs@),
{
    let mut i: usize = 0;
    proof {
        lemma_auto_spec_u64_to_from_le_bytes();
        assert(limbs_bytes(limbs@.subrange(0, 0)) =~= Seq::<u8>::empty());
    }
    while i < 6
        invariant
            i <= 6,
            out@ == old(out)@ + limbs_bytes(limbs@.subrange(0, i as int)),
        decreases 6 - i,
    {
        let limb = limbs[i];
        let eight = u64_to_le_bytes(limb);
        append_bytes(out, eight.as_slice());
        proof {
            lemma_auto_spec_u64_to_from_le_bytes();
            let before = limbs@.subrange(0, i as int);
            let after = limbs@.subrange(0, i + 1);
            assert(limbs_bytes(after) =~= limbs_bytes(before) + spec_u64_to_le_bytes(limb)) by {
                assert forall|j: int| 0 <= j < 8 * (i + 1) implies limbs_bytes(after)[j] == (
                limbs_bytes(before) + spec_u64_to_le_bytes(limb))[j] by {
                    if j < 8 * i {
                        assert(after[j / 8] == before[j / 8]);
                    } else {
                        assert(j / 8 == i && j % 8 == j - 8 * i);
                    }
                }
            }
        }
        i = i + 1;
    }
    proof {
        assert(limbs@.subrange(0, 6) =~= limbs@);
    }
}

/// Adds the bytes of the element at the end of `out`.
pub fn write_point(out: &mut Vec<u8>, point: &Affine)
    ensures
        final(out)@ == old(out)@ + point_bytes(point.coordinates()),
{
    let x = point.x();
    let y = point.y();
    write_limbs(out, &x);
    write_limbs(out, &y);
    out.push(if point.is_infinity() {
        1u8
    } else {
        0u8
    });
    proof {
        assert(out@ =~= old(out)@ + point_bytes(point.coordinates()));
    }
}

/// The six limbs that the 48 bytes from `at` hold.
pub fn read_limbs(bytes: &[u8], at: usize) -> (limbs: [u64; 6])
    requires
        at + 48 <= bytes@.len(),
    ensures
        limbs@ == limbs_at(bytes@, at as int),
{
    let mut limbs: [u64; 6] = [0, 0, 0, 0, 0, 0];
    let n = bytes.len();
    let mut i: usize = 0;
    while i < 6
        invariant
            i <= 6,
            n == bytes@.len(),
            at + 48 <= bytes@.len(),
            forall|j: int| 0 <= j < i ==> limbs@[j] == limb_at(bytes@, at + 8 * j),
        decreases 6 - i,
    {
        let from: usize = at + 8 * i;
        let part = slice_subrange(bytes, from, from + 8);
        let limb = u64_from_le_bytes(part);
        limbs[i] = limb;
        i = i + 1;
    }
    proof {
        assert(limbs@ =~= limbs_at(bytes@, at as int));
    }
    limbs
}

/// The element that the 97 bytes from `at` hold, if they hold one.
pub fn read_point(bytes: &[u8], at: usize) -> (point: Option<Affine>)
    requires
        at + 97 <= bytes@.len(),
    ensures
        point is Some <==> point_at_valid(bytes@, at as int),
        point matches Some(p) ==> p.coordinates() == coordinates_at(bytes@, at as int),
{
    let _ = bytes.len();
    let flag = bytes[at + 96];
    if flag > 1 {
        return None;
    }
    let x = read_limbs(bytes, at);
    let y = read_limbs(bytes, at + 48);
    Affine::from_coordinates(x, y, flag == 1)
}

/// The part of the slice from `from` up to `to`.
pub(crate) fn slice_subrange(bytes: &[u8], from: usize, to: usize) -> (part: &[u8])
    requires
        from <= to <= bytes@.len(),
    ensures
        part@ == bytes@.subrange(from as int, to as int),
{
    vstd::slice::slice_subrange(bytes, from, to)
}

} // verus!
