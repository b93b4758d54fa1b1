//! The encoding of three dimensions in a row, which the three orderings of a
//! point share.
//!
//! A field is the encoding of one dimension, followed by two zero bytes where
//! the dimension has a variable-width encoding. The encoding of a triple is
//! the first field, the second field and the bare encoding of the third.

use crate::bytes::{
    lemma_diverge_iff_no_prefix, lemma_lex_common_prefix, lemma_lex_diverge,
    lemma_prefixes_do_not_diverge, lex_lt,
};
use crate::dimension::{lemma_distinct_encodings_diverge, Dimension};
use vstd::prelude::*;

verus! {

/// The two zero bytes that end a variable-width field, and nothing for a
/// fixed-width field.
pub open spec fn delimiter<D: Dimension>() -> Seq<u8> {
    if D::IS_FIXED_WIDTH_ENCODING {
        Seq::empty()
    } else {
        seq![0u8, 0u8]
    }
}

/// A field: the encoding of `d` with its delimiter.
pub open spec fn field<D: Dimension>(d: &D) -> Seq<u8> {
    d.encoding() + delimiter::<D>()
}

/// The encoding of three dimensions in the order `a`, `b`, `c`.
pub open spec fn triple_encoding<A: Dimension, B: Dimension, C: Dimension>(
    a: &A,
    b: &B,
    c: &C,
) -> Seq<u8> {
    field(a) + field(b) + c.encoding()
}

/// The longest that the encoding of three dimensions can be.
pub open spec fn triple_max_len<A: Dimension, B: Dimension, C: Dimension>() -> int {
    A::HOMOMORPHIC_ENCODING_MAX_LENGTH + delimiter::<A>().len() + B::HOMOMORPHIC_ENCODING_MAX_LENGTH
        + delimiter::<B>().len() + C::HOMOMORPHIC_ENCODING_MAX_LENGTH
}

/// The lexicographic order on triples: by `a`, then by `b`, then by `c`.
pub open spec fn triple_precedes<A: Dimension, B: Dimension, C: Dimension>(
    a1: &A,
    b1: &B,
    c1: &C,
    a2: &A,
    b2: &B,
    c2: &C,
) -> bool {
    a1.precedes(a2) || (a1 == a2 && (b1.precedes(b2) || (b1 == b2 && c1.precedes(c2))))
}

/// Two byte strings that start with a field each are ordered by the two
/// dimension values, and by what follows the fields where the values are equal.
pub proof fn lemma_field_order<D: Dimension>(d1: &D, d2: &D, t1: Seq<u8>, t2: Seq<u8>)
    ensures
        lex_lt(field(d1) + t1, field(d2) + t2) == (d1.precedes(d2) || (d1 == d2 && lex_lt(t1, t2))),
{
    D::lemma_encoding_homomorphic(d1, d2);
    if d1 == d2 {
        lemma_lex_common_prefix(field(d1), t1, t2);
        crate::dimension::lemma_precedes_trichotomy(d1, d2);
    } else {
        lemma_distinct_encodings_diverge(d1, d2);
        let s1 = delimiter::<D>() + t1;
        let s2 = delimiter::<D>() + t2;
        assert(field(d1) + t1 =~= d1.encoding() + s1);
        assert(field(d2) + t2 =~= d2.encoding() + s2);
        lemma_lex_diverge(d1.encoding(), d2.encoding(), s1, s2);
    }
}

/// Where a byte string that starts with a field is a prefix of another, the
/// two fields hold the same value, and what follows the first field is a
/// prefix of what follows the second.
pub proof fn lemma_field_prefix<D: Dimension>(d1: &D, d2: &D, t1: Seq<u8>, t2: Seq<u8>)
    requires
        (field(d1) + t1).is_prefix_of(field(d2) + t2),
    ensures
        d1 == d2,
        t1.is_prefix_of(t2),
{
    let whole1 = field(d1) + t1;
    let whole2 = field(d2) + t2;
    if d1 != d2 {
        lemma_distinct_encodings_diverge(d1, d2);
        let s1 = delimiter::<D>() + t1;
        let s2 = delimiter::<D>() + t2;
        assert(whole1 =~= d1.encoding() + s1);
        assert(whole2 =~= d2.encoding() + s2);
        lemma_lex_diverge(d1.encoding(), d2.encoding(), s1, s2);
        lemma_diverge_iff_no_prefix(whole1, whole2);
    }
    let n = field(d1).len() as int;
    assert(whole1 =~= whole2.subrange(0, whole1.len() as int));
    assert forall|i: int| 0 <= i < t1.len() implies t1[i] == t2[i] by {
        assert(whole1[n + i] == t1[i]);
        assert(whole2[n + i] == t2[i]);
    }
    assert(t1 =~= t2.subrange(0, t1.len() as int));
}

/// A byte string that starts with a field starts with the encoding of the
/// field's value.
pub proof fn lemma_field_starts_with_encoding<D: Dimension>(d: &D, t: Seq<u8>, buf: Seq<u8>)
    requires
        (field(d) + t).is_prefix_of(buf),
    ensures
        d.encoding().is_prefix_of(buf),
        field(d).is_prefix_of(buf),
{
    let whole = field(d) + t;
    let head = buf.subrange(0, whole.len() as int);
    assert forall|i: int| 0 <= i < field(d).len() implies field(d)[i] == buf[i] by {
        assert(whole[i] == head[i]);
    }
    assert(field(d) =~= buf.subrange(0, field(d).len() as int));
    assert(d.encoding() =~= buf.subrange(0, d.encoding().len() as int));
}

/// The encoding of a triple is no longer than the declared maximum, and has
/// exactly that length where all three dimensions have a fixed width.
pub proof fn lemma_triple_length<A: Dimension, B: Dimension, C: Dimension>(a: &A, b: &B, c: &C)
    ensures
        triple_encoding(a, b, c).len() == a.encoding().len() + delimiter::<A>().len()
            + b.encoding().len() + delimiter::<B>().len() + c.encoding().len(),
        triple_encoding(a, b, c).len() <= triple_max_len::<A, B, C>(),
        A::IS_FIXED_WIDTH_ENCODING && B::IS_FIXED_WIDTH_ENCODING && C::IS_FIXED_WIDTH_ENCODING
            ==> triple_encoding(a, b, c).len() == triple_max_len::<A, B, C>(),
{
    A::lemma_encoding_length(a);
    B::lemma_encoding_length(b);
    C::lemma_encoding_length(c);
}

/// The encoding of triples is order-homomorphic.
pub proof fn lemma_triple_order<A: Dimension, B: Dimension, C: Dimension>(
    a1: &A,
    b1: &B,
    c1: &C,
    a2: &A,
    b2: &B,
    c2: &C,
)
    ensures
        triple_precedes(a1, b1, c1, a2, b2, c2) <==> lex_lt(
            triple_encoding(a1, b1, c1),
            triple_encoding(a2, b2, c2),
        ),
{
    let t1 = field(b1) + c1.encoding();
    let t2 = field(b2) + c2.encoding();
    assert(triple_encoding(a1, b1, c1) =~= field(a1) + t1);
    assert(triple_encoding(a2, b2, c2) =~= field(a2) + t2);
    lemma_field_order(a1, a2, t1, t2);
    lemma_field_order(b1, b2, c1.encoding(), c2.encoding());
    C::lemma_encoding_homomorphic(c1, c2);
}

/// The encoding of no triple is a prefix of the encoding of another.
pub proof fn lemma_triple_prefix_free<A: Dimension, B: Dimension, C: Dimension>(
    a1: &A,
    b1: &B,
    c1: &C,
    a2: &A,
    b2: &B,
    c2: &C,
)
    requires
        triple_encoding(a1, b1, c1).is_prefix_of(triple_encoding(a2, b2, c2)),
    ensures
        a1 == a2,
        b1 == b2,
        c1 == c2,
{
    let t1 = field(b1) + c1.encoding();
    let t2 = field(b2) + c2.encoding();
    assert(triple_encoding(a1, b1, c1) =~= field(a1) + t1);
    assert(triple_encoding(a2, b2, c2) =~= field(a2) + t2);
    lemma_field_prefix(a1, a2, t1, t2);
    lemma_field_prefix(b1, b2, c1.encoding(), c2.encoding());
    C::lemma_encoding_prefix_free(c1, c2);
}

/// Encode `d` and its delimiter into `buf` from index `start` on, and return
/// the index behind the field.
fn encode_field<D: Dimension>(d: &D, buf: &mut [u8], start: usize) -> (end: usize)
    requires
        start + field(d).len() <= old(buf)@.len(),
    ensures
        end == start + field(d).len(),
        final(buf)@ == old(buf)@.take(start as int) + field(d) + old(buf)@.skip(end as int),
{
    let total: usize = buf.len();
    let (_, tail) = buf.split_at_mut(start);
    let n: usize = d.homomorphic_encode(tail);
    let mut end: usize = start + n;
    if !D::IS_FIXED_WIDTH_ENCODING {
        buf[end] = 0;
        buf[end + 1] = 0;
        end += 2;
    }
    assert(buf@.len() == total);
    assert(buf@ =~= old(buf)@.take(start as int) + field(d) + old(buf)@.skip(end as int));
    end
}

/// Encode three dimensions into the front of `buf` and return how long the
/// encoding is. The bytes behind the encoding are left as they were.
pub(crate) fn encode_triple<A: Dimension, B: Dimension, C: Dimension>(
    a: &A,
    b: &B,
    c: &C,
    buf: &mut [u8],
) -> (len: usize)
    requires
        old(buf)@.len() >= triple_encoding(a, b, c).len(),
    ensures
        len == triple_encoding(a, b, c).len(),
        final(buf)@ == triple_encoding(a, b, c) + old(buf)@.skip(len as int),
{
    let total: usize = buf.len();
    let end_a: usize = encode_field(a, buf, 0);
    let end_b: usize = encode_field(b, buf, end_a);
    let (_, tail) = buf.split_at_mut(end_b);
    let n: usize = c.homomorphic_encode(tail);
    assert(buf@.len() == total);
    assert(buf@ =~= triple_encoding(a, b, c) + old(buf)@.skip(end_b + n));
    end_b + n
}

/// Decode the field that `buf` holds from index `start` on, and return its
/// value with the index behind the field. Fail where no field starts there.
fn decode_field<D: Dimension>(buf: &[u8], start: usize) -> (r: Result<(D, usize), ()>)
    requires
        start <= buf@.len(),
    ensures
        match r {
            Ok((d, end)) => end == start + field(&d).len() && field(&d).is_prefix_of(
                buf@.skip(start as int),
            ),
            Err(_) => forall|d: D| !(#[trigger] field(&d)).is_prefix_of(buf@.skip(start as int)),
        },
{
    let total: usize = buf.len();
    let rest = vstd::slice::slice_subrange(buf, start, total);
    assert(rest@ =~= buf@.skip(start as int));
    match D::homomorphic_decode(rest) {
        Err(_) => {
            proof {
                assert forall|d: D| !(#[trigger] field(&d)).is_prefix_of(rest@) by {
                    if field(&d).is_prefix_of(rest@) {
                        assert(field(&d) + Seq::<u8>::empty() =~= field(&d));
                        lemma_field_starts_with_encoding(&d, Seq::empty(), rest@);
                    }
                }
            }
            Err(())
        },
        Ok((d, n)) => {
            let end: usize = start + n;
            if D::IS_FIXED_WIDTH_ENCODING {
                assert(field(&d) =~= d.encoding());
                Ok((d, end))
            } else if total - end >= 2 && buf[end] == 0 && buf[end + 1] == 0 {
                assert(field(&d) =~= rest@.subrange(0, n + 2));
                Ok((d, end + 2))
            } else {
                proof {
                    assert forall|e: D| !(#[trigger] field(&e)).is_prefix_of(rest@) by {
                        if field(&e).is_prefix_of(rest@) {
                            assert(field(&e) + Seq::<u8>::empty() =~= field(&e));
                            lemma_field_starts_with_encoding(&e, Seq::empty(), rest@);
                            lemma_prefixes_do_not_diverge(e.encoding(), d.encoding(), rest@);
                            if e != d {
                                lemma_distinct_encodings_diverge(&e, &d);
                            }
                            let head = rest@.subrange(0, field(&e).len() as int);
                            assert(head[n as int] == field(&e)[n as int]);
                            assert(head[n + 1] == field(&e)[n + 1]);
                        }
                    }
                }
                Err(())
            }
        },
    }
}

/// Decode the triple whose encoding `buf` starts with, and return its three
/// values with the length of that encoding. Fail where `buf` starts with the
/// encoding of no triple.
pub(crate) fn decode_triple<A: Dimension, B: Dimension, C: Dimension>(buf: &[u8]) -> (r: Result<
    (A, B, C, usize),
    (),
>)
    ensures
        match r {
            Ok((a, b, c, n)) => n == triple_encoding(&a, &b, &c).len() && triple_encoding(
                &a,
                &b,
                &c,
            ).is_prefix_of(buf@),
            Err(_) => forall|a: A, b: B, c: C|
                !(#[trigger] triple_encoding(&a, &b, &c)).is_prefix_of(buf@),
        },
{
    let total: usize = buf.len();
    assert(buf@.skip(0) =~= buf@);
    let (a, end_a) = match decode_field::<A>(buf, 0) {
        Ok(found) => found,
        Err(_) => {
            proof {
                assert forall|a: A, b: B, c: C|
                    !(#[trigger] triple_encoding(&a, &b, &c)).is_prefix_of(buf@) by {
                    if triple_encoding(&a, &b, &c).is_prefix_of(buf@) {
                        lemma_triple_starts(&a, &b, &c, buf@);
                    }
                }
            }
            return Err(());
        },
    };
    proof {
        lemma_prefix_within(field(&a), buf@);
    }
    let (b, end_b) = match decode_field::<B>(buf, end_a) {
        Ok(found) => found,
        Err(_) => {
            proof {
                assert forall|a2: A, b2: B, c2: C|
                    !(#[trigger] triple_encoding(&a2, &b2, &c2)).is_prefix_of(buf@) by {
                    if triple_encoding(&a2, &b2, &c2).is_prefix_of(buf@) {
                        lemma_triple_starts(&a2, &b2, &c2, buf@);
                        lemma_same_field(&a2, &a, buf@);
                    }
                }
            }
            return Err(());
        },
    };
    proof {
        lemma_prefix_within(field(&b), buf@.skip(end_a as int));
        assert(buf@.skip(end_a as int).skip(field(&b).len() as int) =~= buf@.skip(end_b as int));
    }
    let rest = vstd::slice::slice_subrange(buf, end_b, total);
    assert(rest@ =~= buf@.skip(end_b as int));
    match C::homomorphic_decode(rest) {
        Ok((c, n)) => {
            proof {
                let whole = triple_encoding(&a, &b, &c);
                assert(whole =~= buf@.subrange(0, end_b + n)) by {
                    assert forall|i: int| 0 <= i < whole.len() implies whole[i] == buf@[i] by {
                        if i < end_a {
                            assert(buf@.skip(0).subrange(0, field(&a).len() as int)[i] == buf@[i]);
                        } else if i < end_b {
                            assert(buf@.skip(end_a as int).subrange(0, field(&b).len() as int)[i
                                - end_a] == buf@[i]);
                        } else {
                            assert(rest@.subrange(0, n as int)[i - end_b] == buf@[i]);
                        }
                    }
                }
            }
            Ok((a, b, c, end_b + n))
        },
        Err(_) => {
            proof {
                assert forall|a2: A, b2: B, c2: C|
                    !(#[trigger] triple_encoding(&a2, &b2, &c2)).is_prefix_of(buf@) by {
                    if triple_encoding(&a2, &b2, &c2).is_prefix_of(buf@) {
                        lemma_triple_starts(&a2, &b2, &c2, buf@);
                        lemma_same_field(&a2, &a, buf@);
                        lemma_same_field(&b2, &b, buf@.skip(end_a as int));
                        assert(c2.encoding().is_prefix_of(rest@));
                    }
                }
            }
            Err(())
        },
    }
}

/// A prefix of a byte string is no longer than the string.
proof fn lemma_prefix_within(p: Seq<u8>, buf: Seq<u8>)
    requires
        p.is_prefix_of(buf),
    ensures
        p.len() <= buf.len(),
{
}

/// Two fields that the same byte string starts with hold the same value.
proof fn lemma_same_field<D: Dimension>(d1: &D, d2: &D, buf: Seq<u8>)
    requires
        field(d1).is_prefix_of(buf),
        field(d2).is_prefix_of(buf),
    ensures
        d1 == d2,
{
    assert(field(d1) + Seq::<u8>::empty() =~= field(d1));
    assert(field(d2) + Seq::<u8>::empty() =~= field(d2));
    lemma_field_starts_with_encoding(d1, Seq::empty(), buf);
    lemma_field_starts_with_encoding(d2, Seq::empty(), buf);
    lemma_prefixes_do_not_diverge(d1.encoding(), d2.encoding(), buf);
    if d1 != d2 {
        lemma_distinct_encodings_diverge(d1, d2);
    }
}

/// A byte string that starts with the encoding of a triple starts with the
/// first field, goes on with the second, and then with the encoding of the
/// third dimension.
proof fn lemma_triple_starts<A: Dimension, B: Dimension, C: Dimension>(
    a: &A,
    b: &B,
    c: &C,
    buf: Seq<u8>,
)
    requires
        triple_encoding(a, b, c).is_prefix_of(buf),
    ensures
        field(a).is_prefix_of(buf),
        field(b).is_prefix_of(buf.skip(field(a).len() as int)),
        c.encoding().is_prefix_of(buf.skip((field(a).len() + field(b).len()) as int)),
{
    let whole = triple_encoding(a, b, c);
    let head = buf.subrange(0, whole.len() as int);
    let la = field(a).len() as int;
    let lb = field(b).len() as int;
    assert forall|i: int| 0 <= i < whole.len() implies whole[i] == buf[i] by {
        assert(whole[i] == head[i]);
    }
    assert(field(a) =~= buf.subrange(0, la));
    assert(field(b) =~= buf.skip(la).subrange(0, lb)) by {
        assert forall|i: int| 0 <= i < lb implies field(b)[i] == buf.skip(la)[i] by {
            assert(whole[la + i] == field(b)[i]);
        }
    }
    assert(c.encoding() =~= buf.skip(la + lb).subrange(0, c.encoding().len() as int)) by {
        assert forall|i: int| 0 <= i < c.encoding().len() implies c.encoding()[i] == buf.skip(
            la + lb,
        )[i] by {
            assert(whole[la + lb + i] == c.encoding()[i]);
        }
    }
}

/// The longest that the encoding of three dimensions can be.
pub(crate) fn max_triple_len<A: Dimension, B: Dimension, C: Dimension>() -> (n: usize)
    requires
        triple_max_len::<A, B, C>() <= usize::MAX,
    ensures
        n == triple_max_len::<A, B, C>(),
{
    let after_a: usize = if A::IS_FIXED_WIDTH_ENCODING {
        0
    } else {
        2
    };
    let after_b: usize = if B::IS_FIXED_WIDTH_ENCODING {
        0
    } else {
        2
    };
    A::HOMOMORPHIC_ENCODING_MAX_LENGTH + after_a + B::HOMOMORPHIC_ENCODING_MAX_LENGTH + after_b
        + C::HOMOMORPHIC_ENCODING_MAX_LENGTH
}

} // verus!
