//! Points in a three-dimensional space, their three orderings and the
//! encodings that go with them.

use crate::bytes::{lex_lt, lex_ordering};
use crate::dimension::{lemma_precedes_transitive, lemma_precedes_trichotomy, Dimension};
use crate::triple::{
    decode_triple, encode_triple, lemma_triple_length, lemma_triple_order,
    lemma_triple_prefix_free, max_triple_len, triple_encoding, triple_max_len, triple_precedes,
};
use core::cmp::Ordering;
use vstd::prelude::*;

verus! {

/// One of the three orderings of a point: which dimension is compared first,
/// which second and which last.
#[derive(PartialEq, Eq, Clone, Copy, Debug)]
pub enum Rotation {
    /// By `x`, then by `y`, then by `z`.
    Xyz,
    /// By `y`, then by `z`, then by `x`.
    Yzx,
    /// By `z`, then by `x`, then by `y`.
    Zxy,
}

impl Rotation {
    /// The ordering that a rank selects: xyz for the ranks that leave the
    /// remainder 2 when divided by three, yzx for those that leave 1, and zxy
    /// for the multiples of three.
    pub open spec fn of_rank(rank: u8) -> Rotation {
        if rank % 3 == 2 {
            Rotation::Xyz
        } else if rank % 3 == 1 {
            Rotation::Yzx
        } else {
            Rotation::Zxy
        }
    }

    /// The ordering that a rank selects.
    pub fn for_rank(rank: u8) -> (rotation: Rotation)
        ensures
            rotation == Rotation::of_rank(rank),
    {
        if rank % 3 == 2 {
            Rotation::Xyz
        } else if rank % 3 == 1 {
            Rotation::Yzx
        } else {
            Rotation::Zxy
        }
    }
}

/// A point in a 3d space. It has no order of its own: a comparison selects
/// one of three total orderings, `cmp_xyz`, `cmp_yzx` or `cmp_zxy`.
///
/// The three dimensions have types `X`, `Y`, and `Z`.
#[derive(PartialEq, Eq, Clone, Copy, Debug)]
pub struct Point3d<X, Y, Z> where X: Dimension, Y: Dimension, Z: Dimension {
    pub x: X,
    pub y: Y,
    pub z: Z,
}

impl<X: Dimension, Y: Dimension, Z: Dimension> Point3d<X, Y, Z> {
    /// The encoding of the point that is homomorphic to the given ordering:
    /// the three dimensions in the order in which it compares them.
    pub open spec fn encoding(&self, rotation: Rotation) -> Seq<u8> {
        match rotation {
            Rotation::Xyz => triple_encoding(&self.x, &self.y, &self.z),
            Rotation::Yzx => triple_encoding(&self.y, &self.z, &self.x),
            Rotation::Zxy => triple_encoding(&self.z, &self.x, &self.y),
        }
    }

    /// The longest that an encoding for the given ordering can be.
    pub open spec fn max_len(rotation: Rotation) -> int {
        match rotation {
            Rotation::Xyz => triple_max_len::<X, Y, Z>(),
            Rotation::Yzx => triple_max_len::<Y, Z, X>(),
            Rotation::Zxy => triple_max_len::<Z, X, Y>(),
        }
    }

    /// `self` comes strictly before `other` in the given ordering.
    pub open spec fn precedes(&self, rotation: Rotation, other: &Self) -> bool {
        match rotation {
            Rotation::Xyz => triple_precedes(
                &self.x,
                &self.y,
                &self.z,
                &other.x,
                &other.y,
                &other.z,
            ),
            Rotation::Yzx => triple_precedes(
                &self.y,
                &self.z,
                &self.x,
                &other.y,
                &other.z,
                &other.x,
            ),
            Rotation::Zxy => triple_precedes(
                &self.z,
                &self.x,
                &self.y,
                &other.z,
                &other.x,
                &other.y,
            ),
        }
    }

    /// How `self` and `other` compare in the given ordering.
    pub open spec fn ordering(&self, rotation: Rotation, other: &Self) -> Ordering {
        if self.precedes(rotation, other) {
            Ordering::Less
        } else if self == other {
            Ordering::Equal
        } else {
            Ordering::Greater
        }
    }

    /// What decoding owes for the input `buf`: the point whose encoding for
    /// the given ordering `buf` starts with, together with the length of that
    /// encoding, or an error where `buf` starts with the encoding of no point.
    pub open spec fn decodes_as(rotation: Rotation, buf: Seq<u8>, r: Result<(Self, usize), ()>) -> bool {
        match r {
            Ok((p, n)) => n == p.encoding(rotation).len() && p.encoding(rotation).is_prefix_of(buf),
            Err(_) => forall|p: Self| !(#[trigger] p.encoding(rotation)).is_prefix_of(buf),
        }
    }

    /// Compare by x dimension first, using the y dimension as a tiebreaker,
    /// and using the z dimension as the final tiebreaker.
    pub fn cmp_xyz(&self, other: &Self) -> (o: Ordering)
        ensures
            o == self.ordering(Rotation::Xyz, other),
    {
        compare_triple(&self.x, &self.y, &self.z, &other.x, &other.y, &other.z)
    }

    /// Compare by y dimension first, using the z dimension as a tiebreaker,
    /// and using the x dimension as the final tiebreaker.
    pub fn cmp_yzx(&self, other: &Self) -> (o: Ordering)
        ensures
            o == self.ordering(Rotation::Yzx, other),
    {
        compare_triple(&self.y, &self.z, &self.x, &other.y, &other.z, &other.x)
    }

    /// Compare by z dimension first, using the x dimension as a tiebreaker,
    /// and using the y dimension as the final tiebreaker.
    pub fn cmp_zxy(&self, other: &Self) -> (o: Ordering)
        ensures
            o == self.ordering(Rotation::Zxy, other),
    {
        compare_triple(&self.z, &self.x, &self.y, &other.z, &other.x, &other.y)
    }

    /// Return the maximum length of any xyz-encoding.
    pub fn max_encoding_len_xyz() -> (n: usize)
        requires
            Self::max_len(Rotation::Xyz) <= usize::MAX,
        ensures
            n == Self::max_len(Rotation::Xyz),
    {
        max_triple_len::<X, Y, Z>()
    }

    /// Encode the point with the encoding that is homomorphic to the xyz
    /// ordering into the front of `buf`, and return how long the encoding is.
    /// The bytes behind the encoding are left as they were.
    ///
    /// The buffer must hold the encoding: a buffer of `max_encoding_len_xyz`
    /// bytes holds any.
    pub fn encode_xyz(&self, buf: &mut [u8]) -> (len: usize)
        requires
            old(buf)@.len() >= self.encoding(Rotation::Xyz).len(),
        ensures
            len == self.encoding(Rotation::Xyz).len(),
            final(buf)@ == self.encoding(Rotation::Xyz) + old(buf)@.skip(len as int),
    {
        encode_triple(&self.x, &self.y, &self.z, buf)
    }

    /// Decode the point whose xyz-encoding `buf` starts with. On success,
    /// return the point and the number of bytes that were decoded; fail where
    /// `buf` starts with the xyz-encoding of no point.
    pub fn decode_xyz(buf: &[u8]) -> (r: Result<(Self, usize), ()>)
        ensures
            Self::decodes_as(Rotation::Xyz, buf@, r),
    {
        match decode_triple::<X, Y, Z>(buf) {
            Ok((x, y, z, n)) => Ok((Point3d { x, y, z }, n)),
            Err(_) => {
                assert forall|p: Self| !(#[trigger] p.encoding(Rotation::Xyz)).is_prefix_of(
                    buf@,
                ) by {
                    assert(!triple_encoding(&p.x, &p.y, &p.z).is_prefix_of(buf@));
                }
                Err(())
            },
        }
    }

    /// Return the maximum length of any yzx-encoding.
    pub fn max_encoding_len_yzx() -> (n: usize)
        requires
            Self::max_len(Rotation::Yzx) <= usize::MAX,
        ensures
            n == Self::max_len(Rotation::Yzx),
    {
        max_triple_len::<Y, Z, X>()
    }

    /// Encode the point with the encoding that is homomorphic to the yzx
    /// ordering into the front of `buf`, and return how long the encoding is.
    /// The bytes behind the encoding are left as they were.
    ///
    /// The buffer must hold the encoding: a buffer of `max_encoding_len_yzx`
    /// bytes holds any.
    pub fn encode_yzx(&self, buf: &mut [u8]) -> (len: usize)
        requires
            old(buf)@.len() >= self.encoding(Rotation::Yzx).len(),
        ensures
            len == self.encoding(Rotation::Yzx).len(),
            final(buf)@ == self.encoding(Rotation::Yzx) + old(buf)@.skip(len as int),
    {
        encode_triple(&self.y, &self.z, &self.x, buf)
    }

    /// Decode the point whose yzx-encoding `buf` starts with. On success,
    /// return the point and the number of bytes that were decoded; fail where
    /// `buf` starts with the yzx-encoding of no point.
    pub fn decode_yzx(buf: &[u8]) -> (r: Result<(Self, usize), ()>)
        ensures
            Self::decodes_as(Rotation::Yzx, buf@, r),
    {
        match decode_triple::<Y, Z, X>(buf) {
            Ok((y, z, x, n)) => Ok((Point3d { x, y, z }, n)),
            Err(_) => {
                assert forall|p: Self| !(#[trigger] p.encoding(Rotation::Yzx)).is_prefix_of(
                    buf@,
                ) by {
                    assert(!triple_encoding(&p.y, &p.z, &p.x).is_prefix_of(buf@));
                }
                Err(())
            },
        }
    }

    /// Return the maximum length of any zxy-encoding.
    pub fn max_encoding_len_zxy() -> (n: usize)
        requires
            Self::max_len(Rotation::Zxy) <= usize::MAX,
        ensures
            n == Self::max_len(Rotation::Zxy),
    {
        max_triple_len::<Z, X, Y>()
    }

    /// Encode the point with the encoding that is homomorphic to the zxy
    /// ordering into the front of `buf`, and return how long the encoding is.
    /// The bytes behind the encoding are left as they were.
    ///
    /// The buffer must hold the encoding: a buffer of `max_encoding_len_zxy`
    /// bytes holds any.
    pub fn encode_zxy(&self, buf: &mut [u8]) -> (len: usize)
        requires
            old(buf)@.len() >= self.encoding(Rotation::Zxy).len(),
        ensures
            len == self.encoding(Rotation::Zxy).len(),
            final(buf)@ == self.encoding(Rotation::Zxy) + old(buf)@.skip(len as int),
    {
        encode_triple(&self.z, &self.x, &self.y, buf)
    }

    /// Decode the point whose zxy-encoding `buf` starts with. On success,
    /// return the point and the number of bytes that were decoded; fail where
    /// `buf` starts with the zxy-encoding of no point.
    pub fn decode_zxy(buf: &[u8]) -> (r: Result<(Self, usize), ()>)
        ensures
            Self::decodes_as(Rotation::Zxy, buf@, r),
    {
        match decode_triple::<Z, X, Y>(buf) {
            Ok((z, x, y, n)) => Ok((Point3d { x, y, z }, n)),
            Err(_) => {
                assert forall|p: Self| !(#[trigger] p.encoding(Rotation::Zxy)).is_prefix_of(
                    buf@,
                ) by {
                    assert(!triple_encoding(&p.z, &p.x, &p.y).is_prefix_of(buf@));
                }
                Err(())
            },
        }
    }

    /// Compare two points in the given ordering.
    pub fn cmp(&self, rotation: Rotation, other: &Self) -> (o: Ordering)
        ensures
            o == self.ordering(rotation, other),
    {
        match rotation {
            Rotation::Xyz => self.cmp_xyz(other),
            Rotation::Yzx => self.cmp_yzx(other),
            Rotation::Zxy => self.cmp_zxy(other),
        }
    }

    /// Does `self` come strictly before `other` in the given ordering?
    pub fn comes_before(&self, rotation: Rotation, other: &Self) -> (before: bool)
        ensures
            before == self.precedes(rotation, other),
    {
        match self.cmp(rotation, other) {
            Ordering::Less => true,
            _ => false,
        }
    }

    /// Are the two points the same point?
    pub fn same_as(&self, other: &Self) -> (same: bool)
        ensures
            same == (self == other),
    {
        proof {
            self.lemma_precedes_trichotomy(Rotation::Xyz, other);
        }
        match self.cmp_xyz(other) {
            Ordering::Equal => true,
            _ => false,
        }
    }

    /// Return the maximum length of any encoding for the given ordering.
    pub fn max_encoding_len(rotation: Rotation) -> (n: usize)
        requires
            Self::max_len(rotation) <= usize::MAX,
        ensures
            n == Self::max_len(rotation),
    {
        match rotation {
            Rotation::Xyz => Self::max_encoding_len_xyz(),
            Rotation::Yzx => Self::max_encoding_len_yzx(),
            Rotation::Zxy => Self::max_encoding_len_zxy(),
        }
    }

    /// Encode the point with the encoding that is homomorphic to the given
    /// ordering into the front of `buf`, and return how long the encoding is.
    /// The bytes behind the encoding are left as they were.
    pub fn encode(&self, rotation: Rotation, buf: &mut [u8]) -> (len: usize)
        requires
            old(buf)@.len() >= self.encoding(rotation).len(),
        ensures
            len == self.encoding(rotation).len(),
            final(buf)@ == self.encoding(rotation) + old(buf)@.skip(len as int),
    {
        match rotation {
            Rotation::Xyz => self.encode_xyz(buf),
            Rotation::Yzx => self.encode_yzx(buf),
            Rotation::Zxy => self.encode_zxy(buf),
        }
    }

    /// Decode the point whose encoding for the given ordering `buf` starts
    /// with. On success, return the point and the number of bytes that were
    /// decoded; fail where `buf` starts with the encoding of no point.
    pub fn decode(rotation: Rotation, buf: &[u8]) -> (r: Result<(Self, usize), ()>)
        ensures
            Self::decodes_as(rotation, buf@, r),
    {
        match rotation {
            Rotation::Xyz => Self::decode_xyz(buf),
            Rotation::Yzx => Self::decode_yzx(buf),
            Rotation::Zxy => Self::decode_zxy(buf),
        }
    }

    /// No encoding of a point is longer than the maximum of its ordering, and
    /// where all three dimensions have a fixed width, every encoding has
    /// exactly that length.
    pub proof fn lemma_encoding_length(&self, rotation: Rotation)
        ensures
            self.encoding(rotation).len() <= Self::max_len(rotation),
            X::IS_FIXED_WIDTH_ENCODING && Y::IS_FIXED_WIDTH_ENCODING && Z::IS_FIXED_WIDTH_ENCODING
                ==> self.encoding(rotation).len() == Self::max_len(rotation),
    {
        lemma_triple_length(&self.x, &self.y, &self.z);
        lemma_triple_length(&self.y, &self.z, &self.x);
        lemma_triple_length(&self.z, &self.x, &self.y);
    }

    /// No encoding of a point is a prefix of the encoding of another point for
    /// the same ordering. In particular, different points have different
    /// encodings.
    pub proof fn lemma_encoding_prefix_free(&self, rotation: Rotation, other: &Self)
        requires
            self.encoding(rotation).is_prefix_of(other.encoding(rotation)),
        ensures
            self == other,
    {
        match rotation {
            Rotation::Xyz => lemma_triple_prefix_free(
                &self.x,
                &self.y,
                &self.z,
                &other.x,
                &other.y,
                &other.z,
            ),
            Rotation::Yzx => lemma_triple_prefix_free(
                &self.y,
                &self.z,
                &self.x,
                &other.y,
                &other.z,
                &other.x,
            ),
            Rotation::Zxy => lemma_triple_prefix_free(
                &self.z,
                &self.x,
                &self.y,
                &other.z,
                &other.x,
                &other.y,
            ),
        }
    }

    /// Each encoding is order-homomorphic: a point comes before another in an
    /// ordering exactly when its encoding for that ordering comes before the
    /// other's in the lexicographic order on byte strings.
    pub proof fn lemma_precedes_homomorphic(&self, rotation: Rotation, other: &Self)
        ensures
            self.precedes(rotation, other) <==> lex_lt(
                self.encoding(rotation),
                other.encoding(rotation),
            ),
    {
        lemma_triple_order(&self.x, &self.y, &self.z, &other.x, &other.y, &other.z);
        lemma_triple_order(&self.y, &self.z, &self.x, &other.y, &other.z, &other.x);
        lemma_triple_order(&self.z, &self.x, &self.y, &other.z, &other.x, &other.y);
    }

    /// Comparing two points in an ordering gives what comparing their
    /// encodings for that ordering byte by byte gives.
    pub proof fn lemma_ordering_homomorphic(&self, rotation: Rotation, other: &Self)
        ensures
            self.ordering(rotation, other) == lex_ordering(
                self.encoding(rotation),
                other.encoding(rotation),
            ),
    {
        self.lemma_precedes_homomorphic(rotation, other);
        if self.encoding(rotation) == other.encoding(rotation) {
            self.lemma_encoding_prefix_free(rotation, other);
        }
    }

    /// Decoding inverts encoding: whatever follows the encoding of a point in
    /// the input, decoding returns the point and the length of its encoding.
    pub proof fn lemma_decode_inverts_encode(
        &self,
        rotation: Rotation,
        rest: Seq<u8>,
        r: Result<(Self, usize), ()>,
    )
        requires
            Self::decodes_as(rotation, self.encoding(rotation) + rest, r),
        ensures
            r == Ok::<(Self, usize), ()>((*self, self.encoding(rotation).len() as usize)),
    {
        let code = self.encoding(rotation);
        let buf = code + rest;
        assert(code =~= buf.subrange(0, code.len() as int));
        match r {
            Ok((p, n)) => {
                let other = p.encoding(rotation);
                if code.len() <= other.len() {
                    assert(code =~= other.subrange(0, code.len() as int)) by {
                        assert forall|i: int| 0 <= i < code.len() implies code[i] == other[i] by {
                            assert(buf.subrange(0, other.len() as int)[i] == buf[i]);
                        }
                    }
                    self.lemma_encoding_prefix_free(rotation, &p);
                } else {
                    assert(other =~= code.subrange(0, other.len() as int)) by {
                        assert forall|i: int| 0 <= i < other.len() implies other[i] == code[i] by {
                            assert(buf.subrange(0, other.len() as int)[i] == buf[i]);
                        }
                    }
                    p.lemma_encoding_prefix_free(rotation, self);
                }
            },
            Err(_) => {},
        }
    }

    /// Each ordering is a strict total order: of two different points exactly
    /// one comes before the other, and no point comes before itself.
    pub proof fn lemma_precedes_trichotomy(&self, rotation: Rotation, other: &Self)
        ensures
            self == other ==> !self.precedes(rotation, other) && !other.precedes(rotation, self),
            self != other ==> (self.precedes(rotation, other) <==> !other.precedes(
                rotation,
                self,
            )),
    {
        lemma_precedes_trichotomy(&self.x, &other.x);
        lemma_precedes_trichotomy(&self.y, &other.y);
        lemma_precedes_trichotomy(&self.z, &other.z);
    }

    /// Each ordering is transitive.
    pub proof fn lemma_precedes_transitive(&self, rotation: Rotation, mid: &Self, other: &Self)
        requires
            self.precedes(rotation, mid),
            mid.precedes(rotation, other),
        ensures
            self.precedes(rotation, other),
    {
        self.lemma_precedes_homomorphic(rotation, mid);
        mid.lemma_precedes_homomorphic(rotation, other);
        self.lemma_precedes_homomorphic(rotation, other);
        crate::bytes::lemma_lex_transitive(
            self.encoding(rotation),
            mid.encoding(rotation),
            other.encoding(rotation),
        );
    }
}

/// Compare two triples by their first dimension, using the second as a
/// tiebreaker and the third as the final tiebreaker.
fn compare_triple<A: Dimension, B: Dimension, C: Dimension>(
    a1: &A,
    b1: &B,
    c1: &C,
    a2: &A,
    b2: &B,
    c2: &C,
) -> (o: Ordering)
    ensures
        o == Ordering::Less <==> triple_precedes(a1, b1, c1, a2, b2, c2),
        o == Ordering::Equal <==> a1 == a2 && b1 == b2 && c1 == c2,
{
    proof {
        lemma_precedes_trichotomy(a1, a2);
        lemma_precedes_trichotomy(b1, b2);
        lemma_precedes_trichotomy(c1, c2);
    }
    let first = a1.compare(a2);
    match first {
        Ordering::Equal => {
            let second = b1.compare(b2);
            match second {
                Ordering::Equal => c1.compare(c2),
                _ => second,
            }
        },
        _ => first,
    }
}

} // verus!
