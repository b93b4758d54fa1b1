//! Dimensions: totally ordered scalars with an order-homomorphic byte encoding.

use crate::bytes::{
    diverge, has_double_zero, lemma_diverge_iff_no_prefix, lemma_lex_asymmetric,
    lemma_lex_irreflexive, lemma_lex_total, lemma_lex_transitive, lex_lt, lex_ordering,
};
use core::cmp::Ordering;
use vstd::prelude::*;

verus! {

/// A type that can be used as a dimension of a `Point3d`.
///
/// A dimension is a totally ordered type whose values have a byte encoding
/// that is order-homomorphic: comparing two encodings lexicographically gives
/// the order of the two values. The order is `precedes`, the encoding is
/// `encoding`; the four proof obligations are what an implementation has to
/// show of the two, and the three executable methods are held to them.
pub trait Dimension: Sized {
    /// The maximum length of any encoding.
    const HOMOMORPHIC_ENCODING_MAX_LENGTH: usize;

    /// Do the encodings of all values have the same length? If not, no
    /// encoding may hold two consecutive zero bytes: the encoding of a point
    /// ends a variable-width field with two zero bytes.
    const IS_FIXED_WIDTH_ENCODING: bool;

    /// The encoding of a value.
    spec fn encoding(&self) -> Seq<u8>;

    /// The strict total order of the dimension.
    spec fn precedes(&self, other: &Self) -> bool;

    /// No encoding is longer than the declared maximum, and with a fixed width
    /// every encoding has exactly that length.
    proof fn lemma_encoding_length(v: &Self)
        ensures
            v.encoding().len() <= Self::HOMOMORPHIC_ENCODING_MAX_LENGTH,
            Self::IS_FIXED_WIDTH_ENCODING ==> v.encoding().len()
                == Self::HOMOMORPHIC_ENCODING_MAX_LENGTH,
    ;

    /// The encoding is order-homomorphic.
    proof fn lemma_encoding_homomorphic(a: &Self, b: &Self)
        ensures
            a.precedes(b) <==> lex_lt(a.encoding(), b.encoding()),
    ;

    /// No encoding is a prefix of the encoding of another value, so a decoder
    /// can tell where an encoding ends.
    proof fn lemma_encoding_prefix_free(a: &Self, b: &Self)
        requires
            a.encoding().is_prefix_of(b.encoding()),
        ensures
            a == b,
    ;

    /// A variable-width encoding never holds two consecutive zero bytes.
    proof fn lemma_encoding_no_double_zero(v: &Self)
        ensures
            !Self::IS_FIXED_WIDTH_ENCODING ==> !has_double_zero(v.encoding()),
    ;

    /// Compare two values in the order of the dimension.
    fn compare(&self, other: &Self) -> (o: Ordering)
        ensures
            match o {
                Ordering::Less => self.precedes(other),
                Ordering::Equal => self == other,
                Ordering::Greater => other.precedes(self),
            },
    ;

    /// Encode `self` into the front of `buf` and return how long the encoding
    /// is. The bytes behind the encoding are left as they were.
    fn homomorphic_encode(&self, buf: &mut [u8]) -> (len: usize)
        requires
            old(buf)@.len() >= self.encoding().len(),
        ensures
            len == self.encoding().len(),
            final(buf)@ == self.encoding() + old(buf)@.skip(len as int),
    ;

    /// Decode the value whose encoding `buf` starts with, and return it with
    /// the length of that encoding. Fail where `buf` starts with no encoding.
    fn homomorphic_decode(buf: &[u8]) -> (r: Result<(Self, usize), ()>)
        ensures
            match r {
                Ok((v, n)) => n == v.encoding().len() && v.encoding().is_prefix_of(buf@),
                Err(_) => forall|v: Self| !(#[trigger] v.encoding()).is_prefix_of(buf@),
            },
    ;
}

/// How two values of a dimension compare.
pub open spec fn dimension_ordering<D: Dimension>(a: &D, b: &D) -> Ordering {
    if a.precedes(b) {
        Ordering::Less
    } else if a == b {
        Ordering::Equal
    } else {
        Ordering::Greater
    }
}

/// What a decoder owes for the input `buf`: the value whose encoding `buf`
/// starts with, together with the length of that encoding, or an error where
/// `buf` starts with the encoding of no value.
pub open spec fn decodes_as<D: Dimension>(buf: Seq<u8>, r: Result<(D, usize), ()>) -> bool {
    match r {
        Ok((v, n)) => n == v.encoding().len() && v.encoding().is_prefix_of(buf),
        Err(_) => forall|v: D| !(#[trigger] v.encoding()).is_prefix_of(buf),
    }
}

/// The encodings of two different values diverge.
pub proof fn lemma_distinct_encodings_diverge<D: Dimension>(a: &D, b: &D)
    requires
        a != b,
    ensures
        diverge(a.encoding(), b.encoding()),
{
    lemma_diverge_iff_no_prefix(a.encoding(), b.encoding());
    if a.encoding().is_prefix_of(b.encoding()) {
        D::lemma_encoding_prefix_free(a, b);
    }
    if b.encoding().is_prefix_of(a.encoding()) {
        D::lemma_encoding_prefix_free(b, a);
    }
}

/// The order of a dimension is a strict total order: of two values exactly
/// one precedes the other unless they are equal, and then neither does.
pub proof fn lemma_precedes_trichotomy<D: Dimension>(a: &D, b: &D)
    ensures
        a == b ==> !a.precedes(b) && !b.precedes(a),
        a != b ==> (a.precedes(b) <==> !b.precedes(a)),
{
    D::lemma_encoding_homomorphic(a, b);
    D::lemma_encoding_homomorphic(b, a);
    if a == b {
        lemma_lex_irreflexive(a.encoding());
    } else {
        lemma_distinct_encodings_diverge(a, b);
        lemma_lex_total(a.encoding(), b.encoding());
        if lex_lt(a.encoding(), b.encoding()) {
            lemma_lex_asymmetric(a.encoding(), b.encoding());
        }
    }
}

/// The order of a dimension is transitive.
pub proof fn lemma_precedes_transitive<D: Dimension>(a: &D, b: &D, c: &D)
    requires
        a.precedes(b),
        b.precedes(c),
    ensures
        a.precedes(c),
{
    D::lemma_encoding_homomorphic(a, b);
    D::lemma_encoding_homomorphic(b, c);
    D::lemma_encoding_homomorphic(a, c);
    lemma_lex_transitive(a.encoding(), b.encoding(), c.encoding());
}

/// Comparing two values gives what comparing their encodings byte by byte
/// gives.
pub proof fn lemma_ordering_homomorphic<D: Dimension>(a: &D, b: &D)
    ensures
        dimension_ordering(a, b) == lex_ordering(a.encoding(), b.encoding()),
{
    D::lemma_encoding_homomorphic(a, b);
    if a != b {
        lemma_distinct_encodings_diverge(a, b);
    }
}

/// Decoding inverts encoding: whatever follows the encoding of `v` in the
/// input, a decoder returns `v` and the length of its encoding.
pub proof fn lemma_decode_inverts_encode<D: Dimension>(
    v: &D,
    rest: Seq<u8>,
    r: Result<(D, usize), ()>,
)
    requires
        decodes_as(v.encoding() + rest, r),
    ensures
        r == Ok::<(D, usize), ()>((*v, v.encoding().len() as usize)),
{
    let buf = v.encoding() + rest;
    assert(v.encoding() =~= buf.subrange(0, v.encoding().len() as int));
    assert(v.encoding().is_prefix_of(buf));
    match r {
        Ok((w, n)) => {
            crate::bytes::lemma_prefixes_do_not_diverge(v.encoding(), w.encoding(), buf);
            if *v != w {
                lemma_distinct_encodings_diverge(v, &w);
            }
        },
        Err(_) => {},
    }
}

} // verus!
