//! Run-time checks of what the library promises: of the encodings of
//! dimensions and points, and of the construction of trees.
//!
//! Each check uses the library as a caller would, on the values it is given,
//! and tells whether all went as promised. That it did is proved: the checks
//! cannot fail.

use crate::bytes::{compare_bytes, has_double_zero};
use crate::dimension::{lemma_distinct_encodings_diverge, lemma_precedes_trichotomy, Dimension};
use crate::point::{Point3d, Rotation};
use crate::schedule::has_distinct_points;
use crate::tree::ControlNode;
use crate::tree_laws::lemma_counting_summary;
use core::cmp::Ordering;
use vstd::prelude::*;

verus! {

/// Are the two values of a dimension the same value?
fn same_value<D: Dimension>(a: &D, b: &D) -> (same: bool)
    ensures
        same == (a == b),
{
    match a.compare(b) {
        Ordering::Equal => true,
        _ => {
            proof {
                lemma_precedes_trichotomy(a, b);
            }
            false
        },
    }
}

/// Are the two orderings the same?
fn same_ordering(a: Ordering, b: Ordering) -> (same: bool)
    ensures
        same == (a == b),
{
    match (a, b) {
        (Ordering::Less, Ordering::Less) => true,
        (Ordering::Equal, Ordering::Equal) => true,
        (Ordering::Greater, Ordering::Greater) => true,
        _ => false,
    }
}

/// Does a zero byte directly follow a zero byte within the first `len` bytes
/// of `buf`?
fn holds_double_zero(buf: &[u8], len: usize) -> (found: bool)
    requires
        len <= buf@.len(),
    ensures
        found == has_double_zero(buf@.take(len as int)),
{
    let ghost code = buf@.take(len as int);
    let mut i: usize = 1;
    while i < len
        invariant
            1 <= i,
            len <= buf@.len(),
            code == buf@.take(len as int),
            forall|j: int| 0 <= j && j + 1 < i ==> !(code[j] == 0 && #[trigger] code[j + 1] == 0),
        decreases len - i,
    {
        if buf[i] == 0 && buf[i - 1] == 0 {
            assert(code[i - 1] == 0 && code[i - 1 + 1] == 0);
            return true;
        }
        i += 1;
    }
    false
}

/// The encoding of a value of a dimension, in a buffer of the greatest length
/// that the dimension declares, with the length of the encoding.
fn encoded<D: Dimension>(v: &D) -> (r: (Vec<u8>, usize))
    ensures
        r.1 == v.encoding().len(),
        r.0@.len() == D::HOMOMORPHIC_ENCODING_MAX_LENGTH,
        r.0@.take(r.1 as int) == v.encoding(),
        v.encoding().is_prefix_of(r.0@),
{
    let mut buf: Vec<u8> = vec![0u8; D::HOMOMORPHIC_ENCODING_MAX_LENGTH];
    proof {
        D::lemma_encoding_length(v);
    }
    let len = v.homomorphic_encode(buf.as_mut_slice());
    assert(buf@.take(len as int) =~= v.encoding());
    (buf, len)
}

/// Check that the encodings of two values of a dimension keep what the
/// dimension promises: that the encoding of `v1` has the declared length or
/// stays within it, that it holds no two consecutive zero bytes where the
/// width is variable, that decoding it gives `v1` and its length back, and
/// that the encodings of `v1` and `v2` compare as `v1` and `v2` do.
pub fn assert_dimension_works<D: Dimension>(v1: &D, v2: &D) -> (works: bool)
    ensures
        works,
{
    let (v1_buf, v1_encoding_len) = encoded(v1);
    proof {
        D::lemma_encoding_length(v1);
        D::lemma_encoding_no_double_zero(v1);
    }
    if D::IS_FIXED_WIDTH_ENCODING {
        if v1_encoding_len != D::HOMOMORPHIC_ENCODING_MAX_LENGTH {
            return false;
        }
    } else {
        if v1_encoding_len > D::HOMOMORPHIC_ENCODING_MAX_LENGTH {
            return false;
        }
        if holds_double_zero(v1_buf.as_slice(), v1_encoding_len) {
            return false;
        }
    }

    match D::homomorphic_decode(v1_buf.as_slice()) {
        Err(_) => {
            return false;
        },
        Ok((v1_decoded, v1_num_decoded_bytes)) => {
            proof {
                crate::bytes::lemma_prefixes_do_not_diverge(
                    v1.encoding(),
                    v1_decoded.encoding(),
                    v1_buf@,
                );
                if v1_decoded != *v1 {
                    lemma_distinct_encodings_diverge(v1, &v1_decoded);
                }
            }
            if !same_value(&v1_decoded, v1) {
                return false;
            }
            if v1_num_decoded_bytes != v1_encoding_len {
                return false;
            }
        },
    }

    let (v2_buf, v2_encoding_len) = encoded(v2);
    orders_agree(v1, v2, &v1_buf, v1_encoding_len, &v2_buf, v2_encoding_len)
}

/// Do two values of a dimension compare as their encodings do?
fn orders_agree<D: Dimension>(
    v1: &D,
    v2: &D,
    v1_buf: &Vec<u8>,
    v1_len: usize,
    v2_buf: &Vec<u8>,
    v2_len: usize,
) -> (agree: bool)
    requires
        is_encoding_in(v1.encoding(), v1_buf@, v1_len),
        is_encoding_in(v2.encoding(), v2_buf@, v2_len),
    ensures
        agree,
{
    let v1_code = vstd::slice::slice_subrange(v1_buf.as_slice(), 0, v1_len);
    let v2_code = vstd::slice::slice_subrange(v2_buf.as_slice(), 0, v2_len);
    proof {
        crate::dimension::lemma_ordering_homomorphic(v1, v2);
        lemma_precedes_trichotomy(v1, v2);
    }
    same_ordering(v1.compare(v2), compare_bytes(v1_code, v2_code))
}

/// `buf` holds `code` in its first `len` bytes.
pub open spec fn is_encoding_in(code: Seq<u8>, buf: Seq<u8>, len: usize) -> bool {
    len <= buf.len() && buf.subrange(0, len as int) == code
}

/// The encoding of a point for an ordering, in a buffer of the greatest
/// length that an encoding for that ordering can have, with the length of
/// the encoding.
fn encoded_point<X: Dimension, Y: Dimension, Z: Dimension>(
    rotation: Rotation,
    p: &Point3d<X, Y, Z>,
) -> (r: (Vec<u8>, usize))
    requires
        Point3d::<X, Y, Z>::max_len(rotation) <= usize::MAX,
    ensures
        r.1 == p.encoding(rotation).len(),
        r.0@.len() == Point3d::<X, Y, Z>::max_len(rotation),
        is_encoding_in(p.encoding(rotation), r.0@, r.1),
        r.0@ == p.encoding(rotation) + r.0@.skip(r.1 as int),
{
    let mut buf: Vec<u8> = vec![0u8; Point3d::<X, Y, Z>::max_encoding_len(rotation)];
    proof {
        p.lemma_encoding_length(rotation);
    }
    let len = p.encode(rotation, buf.as_mut_slice());
    assert(buf@.subrange(0, len as int) =~= p.encoding(rotation));
    assert(buf@ =~= p.encoding(rotation) + buf@.skip(len as int));
    (buf, len)
}

/// Do two points compare in an ordering as their encodings for it do?
fn point_orders_agree<X: Dimension, Y: Dimension, Z: Dimension>(
    rotation: Rotation,
    v1: &Point3d<X, Y, Z>,
    v2: &Point3d<X, Y, Z>,
    v1_buf: &Vec<u8>,
    v1_len: usize,
    v2_buf: &Vec<u8>,
    v2_len: usize,
) -> (agree: bool)
    requires
        is_encoding_in(v1.encoding(rotation), v1_buf@, v1_len),
        is_encoding_in(v2.encoding(rotation), v2_buf@, v2_len),
    ensures
        agree,
{
    let v1_code = vstd::slice::slice_subrange(v1_buf.as_slice(), 0, v1_len);
    let v2_code = vstd::slice::slice_subrange(v2_buf.as_slice(), 0, v2_len);
    proof {
        v1.lemma_ordering_homomorphic(rotation, v2);
    }
    same_ordering(v1.cmp(rotation, v2), compare_bytes(v1_code, v2_code))
}

/// Check for one ordering that the encodings of two points work and are
/// homomorphic.
fn point3d_works_in<X: Dimension, Y: Dimension, Z: Dimension>(
    rotation: Rotation,
    v1: &Point3d<X, Y, Z>,
    v2: &Point3d<X, Y, Z>,
) -> (works: bool)
    requires
        Point3d::<X, Y, Z>::max_len(rotation) <= usize::MAX,
    ensures
        works,
{
    let max = Point3d::<X, Y, Z>::max_encoding_len(rotation);
    let (v1_buf, v1_encoding_len) = encoded_point(rotation, v1);
    proof {
        v1.lemma_encoding_length(rotation);
    }
    if X::IS_FIXED_WIDTH_ENCODING && Y::IS_FIXED_WIDTH_ENCODING && Z::IS_FIXED_WIDTH_ENCODING {
        if v1_encoding_len != max {
            return false;
        }
    } else {
        if v1_encoding_len > max {
            return false;
        }
    }

    let decoded = Point3d::<X, Y, Z>::decode(rotation, v1_buf.as_slice());
    proof {
        v1.lemma_decode_inverts_encode(rotation, v1_buf@.skip(v1_encoding_len as int), decoded);
    }
    match decoded {
        Err(_) => {
            return false;
        },
        Ok((v1_decoded, v1_num_decoded_bytes)) => {
            if !v1_decoded.same_as(v1) {
                return false;
            }
            if v1_num_decoded_bytes != v1_encoding_len {
                return false;
            }
        },
    }

    let (v2_buf, v2_encoding_len) = encoded_point(rotation, v2);
    point_orders_agree(rotation, v1, v2, &v1_buf, v1_encoding_len, &v2_buf, v2_encoding_len)
}

/// Check that the encodings of two 3d points work and are homomorphic, in
/// each of the three orderings: that the encoding of `v1` has the greatest
/// length where all dimensions have a fixed width and stays within it
/// otherwise, that decoding it gives `v1` and its length back, and that the
/// encodings of `v1` and `v2` compare as `v1` and `v2` do.
pub fn assert_point3d_works<X: Dimension, Y: Dimension, Z: Dimension>(
    v1: &Point3d<X, Y, Z>,
    v2: &Point3d<X, Y, Z>,
) -> (works: bool)
    requires
        Point3d::<X, Y, Z>::max_len(Rotation::Xyz) <= usize::MAX,
        Point3d::<X, Y, Z>::max_len(Rotation::Yzx) <= usize::MAX,
        Point3d::<X, Y, Z>::max_len(Rotation::Zxy) <= usize::MAX,
    ensures
        works,
{
    point3d_works_in(Rotation::Xyz, v1, v2) && point3d_works_in(Rotation::Yzx, v1, v2)
        && point3d_works_in(Rotation::Zxy, v1, v2)
}

/// Check that construction works on the given points, values and ranks:
/// that the tree built from them is a valid 3d-ish zip-tree, and that under
/// the counting monoid the count and the summary of its root are the number
/// of points given. No point may be given twice.
pub fn assert_tree_works<X: Dimension, Y: Dimension, Z: Dimension, V>(
    items: Vec<(Point3d<X, Y, Z>, V, u8)>,
) -> (works: bool)
    requires
        has_distinct_points(items@),
    ensures
        works,
{
    let given = items.len();
    let tree: ControlNode<X, Y, Z, V, usize> = ControlNode::from_iter(items);
    proof {
        lemma_counting_summary(tree);
    }
    if !tree.assert_tree_invariants() {
        return false;
    }
    match tree {
        ControlNode::Empty => given == 0,
        ControlNode::NonEmpty { count, summary, .. } => count == given && summary == given,
    }
}

} // verus!
