//! Lexicographic order on byte strings.
//!
//! An ordered key-value store compares its keys byte by byte, the shorter of
//! two strings coming first where one is a prefix of the other. Everything the
//! encodings of this crate promise is stated against the order defined here.

use core::cmp::Ordering;
use vstd::prelude::*;

verus! {

/// `a` comes strictly before `b` in the lexicographic order on byte strings.
pub open spec fn lex_lt(a: Seq<u8>, b: Seq<u8>) -> bool
    decreases a.len(),
{
    if b.len() == 0 {
        false
    } else if a.len() == 0 {
        true
    } else if a[0] == b[0] {
        lex_lt(a.drop_first(), b.drop_first())
    } else {
        a[0] < b[0]
    }
}

/// `a` comes before `b` or equals it.
pub open spec fn lex_le(a: Seq<u8>, b: Seq<u8>) -> bool {
    a == b || lex_lt(a, b)
}

/// How two byte strings compare lexicographically: the result of comparing
/// two byte slices with `Ord::cmp`.
pub open spec fn lex_ordering(a: Seq<u8>, b: Seq<u8>) -> Ordering {
    if lex_lt(a, b) {
        Ordering::Less
    } else if a == b {
        Ordering::Equal
    } else {
        Ordering::Greater
    }
}

/// Two byte strings part ways: at some index that both have, they hold
/// different bytes. This is the case exactly when neither is a prefix of the
/// other.
pub open spec fn diverge(a: Seq<u8>, b: Seq<u8>) -> bool {
    exists|i: int| 0 <= i < a.len() && i < b.len() && a[i] != b[i]
}

/// The string holds a zero byte directly followed by another zero byte.
pub open spec fn has_double_zero(s: Seq<u8>) -> bool {
    exists|i: int| 0 <= i && i + 1 < s.len() && s[i] == 0 && #[trigger] s[i + 1] == 0
}

/// No byte string comes before itself.
pub proof fn lemma_lex_irreflexive(a: Seq<u8>)
    ensures
        !lex_lt(a, a),
    decreases a.len(),
{
    if a.len() > 0 {
        lemma_lex_irreflexive(a.drop_first());
    }
}

/// Of two byte strings at most one comes before the other.
pub proof fn lemma_lex_asymmetric(a: Seq<u8>, b: Seq<u8>)
    requires
        lex_lt(a, b),
    ensures
        !lex_lt(b, a),
    decreases a.len(),
{
    if a.len() > 0 && b.len() > 0 && a[0] == b[0] {
        lemma_lex_asymmetric(a.drop_first(), b.drop_first());
    }
}

/// The order is transitive.
pub proof fn lemma_lex_transitive(a: Seq<u8>, b: Seq<u8>, c: Seq<u8>)
    requires
        lex_lt(a, b),
        lex_lt(b, c),
    ensures
        lex_lt(a, c),
    decreases a.len(),
{
    if a.len() > 0 && a[0] == b[0] && b[0] == c[0] {
        lemma_lex_transitive(a.drop_first(), b.drop_first(), c.drop_first());
    }
}

/// The order is total: two different byte strings are ordered one way or the
/// other.
pub proof fn lemma_lex_total(a: Seq<u8>, b: Seq<u8>)
    ensures
        a == b || lex_lt(a, b) || lex_lt(b, a),
    decreases a.len(),
{
    if a.len() > 0 && b.len() > 0 && a[0] == b[0] {
        lemma_lex_total(a.drop_first(), b.drop_first());
        if a.drop_first() == b.drop_first() {
            assert(a =~= seq![a[0]] + a.drop_first());
            assert(b =~= seq![b[0]] + b.drop_first());
        }
    } else if a.len() == 0 && b.len() == 0 {
        assert(a =~= b);
    }
}

/// A common prefix decides nothing: the order of `p + a` and `p + b` is that
/// of `a` and `b`.
pub proof fn lemma_lex_common_prefix(p: Seq<u8>, a: Seq<u8>, b: Seq<u8>)
    ensures
        lex_lt(p + a, p + b) == lex_lt(a, b),
    decreases p.len(),
{
    if p.len() == 0 {
        assert(p + a =~= a);
        assert(p + b =~= b);
    } else {
        assert((p + a).drop_first() =~= p.drop_first() + a);
        assert((p + b).drop_first() =~= p.drop_first() + b);
        lemma_lex_common_prefix(p.drop_first(), a, b);
    }
}

/// Two strings that diverge are ordered by the first byte in which they
/// differ, so nothing appended to either changes their order.
pub proof fn lemma_lex_diverge(a: Seq<u8>, b: Seq<u8>, s: Seq<u8>, t: Seq<u8>)
    requires
        diverge(a, b),
    ensures
        lex_lt(a + s, b + t) == lex_lt(a, b),
        diverge(a + s, b + t),
    decreases a.len(),
{
    let i = choose|i: int| 0 <= i < a.len() && i < b.len() && a[i] != b[i];
    assert((a + s)[i] == a[i]);
    assert((b + t)[i] == b[i]);
    if a[0] == b[0] {
        let a1 = a.drop_first();
        let b1 = b.drop_first();
        assert(a1[i - 1] == a[i]);
        assert(b1[i - 1] == b[i]);
        assert((a + s).drop_first() =~= a1 + s);
        assert((b + t).drop_first() =~= b1 + t);
        lemma_lex_diverge(a1, b1, s, t);
    }
}

/// Two strings diverge exactly when neither is a prefix of the other.
pub proof fn lemma_diverge_iff_no_prefix(a: Seq<u8>, b: Seq<u8>)
    ensures
        diverge(a, b) <==> !a.is_prefix_of(b) && !b.is_prefix_of(a),
    decreases a.len(),
{
    if diverge(a, b) {
        let i = choose|i: int| 0 <= i < a.len() && i < b.len() && a[i] != b[i];
        if a.is_prefix_of(b) {
            assert(b.subrange(0, a.len() as int)[i] == a[i]);
        }
        if b.is_prefix_of(a) {
            assert(a.subrange(0, b.len() as int)[i] == b[i]);
        }
    } else {
        if a.len() <= b.len() {
            assert(a =~= b.subrange(0, a.len() as int));
        } else {
            assert(b =~= a.subrange(0, b.len() as int));
        }
    }
}

/// Two prefixes of one string do not diverge.
pub proof fn lemma_prefixes_do_not_diverge(a: Seq<u8>, b: Seq<u8>, whole: Seq<u8>)
    requires
        a.is_prefix_of(whole),
        b.is_prefix_of(whole),
    ensures
        !diverge(a, b),
{
    if diverge(a, b) {
        let i = choose|i: int| 0 <= i < a.len() && i < b.len() && a[i] != b[i];
        assert(whole.subrange(0, a.len() as int)[i] == whole[i]);
        assert(whole.subrange(0, b.len() as int)[i] == whole[i]);
    }
}

/// Byte strings that start with different bytes are ordered by those bytes,
/// and those that start with the same byte by what follows it.
pub proof fn lemma_lex_leading_byte(x: u8, a: Seq<u8>, y: u8, b: Seq<u8>)
    ensures
        lex_lt(seq![x] + a, seq![y] + b) == (x < y || (x == y && lex_lt(a, b))),
{
    assert((seq![x] + a).drop_first() =~= a);
    assert((seq![y] + b).drop_first() =~= b);
}

/// `s + [0]` is the least byte string that comes after `s`: a string comes
/// after `s` exactly when it does not come before `s + [0]`.
pub proof fn lemma_lex_successor(s: Seq<u8>, k: Seq<u8>)
    ensures
        lex_lt(s, k) <==> lex_le(s + seq![0u8], k),
    decreases s.len(),
{
    let succ = s + seq![0u8];
    if s.len() == 0 {
        assert(succ =~= seq![0u8]);
        if k.len() > 0 {
            let rest = k.drop_first();
            assert(succ.drop_first().len() == 0);
            assert(lex_lt(succ.drop_first(), rest) == (rest.len() > 0));
            if k[0] == 0 && rest.len() == 0 {
                assert(succ =~= k);
            }
        }
    } else if k.len() > 0 {
        assert(succ.drop_first() =~= s.drop_first() + seq![0u8]);
        lemma_lex_successor(s.drop_first(), k.drop_first());
        if s[0] == k[0] {
            if succ.drop_first() == k.drop_first() {
                assert(succ =~= seq![succ[0]] + succ.drop_first());
                assert(k =~= seq![k[0]] + k.drop_first());
            }
        } else {
            assert(succ[0] != k[0]);
        }
    } else {
        assert(succ != k);
    }
}

/// Two byte strings that agree up to an index are ordered by the bytes that
/// they hold there, and where one of them ends there, the shorter comes
/// first.
pub proof fn lemma_lex_first_difference(a: Seq<u8>, b: Seq<u8>, i: int)
    requires
        0 <= i <= a.len(),
        i <= b.len(),
        forall|j: int| 0 <= j < i ==> a[j] == b[j],
        i < a.len() && i < b.len() ==> a[i] != b[i],
    ensures
        lex_lt(a, b) == (if i < a.len() && i < b.len() {
            a[i] < b[i]
        } else {
            a.len() < b.len()
        }),
        a == b <==> i == a.len() && i == b.len(),
    decreases i,
{
    if i == 0 {
        if a.len() == 0 && b.len() == 0 {
            assert(a =~= b);
        }
    } else {
        let a1 = a.drop_first();
        let b1 = b.drop_first();
        lemma_lex_first_difference(a1, b1, i - 1);
        if a1 == b1 {
            assert(a =~= seq![a[0]] + a1);
            assert(b =~= seq![b[0]] + b1);
        }
    }
}

/// The first index at which two byte strings differ or one of them ends.
pub fn first_difference(a: &[u8], b: &[u8]) -> (i: usize)
    ensures
        i <= a@.len(),
        i <= b@.len(),
        forall|j: int| 0 <= j < i ==> a@[j] == b@[j],
        i < a@.len() && i < b@.len() ==> a@[i as int] != b@[i as int],
        lex_lt(a@, b@) == (if i < a@.len() && i < b@.len() {
            a@[i as int] < b@[i as int]
        } else {
            a@.len() < b@.len()
        }),
        a@ == b@ <==> i == a@.len() && i == b@.len(),
{
    let mut i: usize = 0;
    while i < a.len() && i < b.len() && a[i] == b[i]
        invariant
            i <= a@.len(),
            i <= b@.len(),
            forall|j: int| 0 <= j < i ==> a@[j] == b@[j],
        decreases a@.len() - i,
    {
        i += 1;
    }
    proof {
        lemma_lex_first_difference(a@, b@, i as int);
    }
    i
}

/// Compare two byte strings lexicographically.
pub fn compare_bytes(a: &[u8], b: &[u8]) -> (o: Ordering)
    ensures
        o == lex_ordering(a@, b@),
{
    let i = first_difference(a, b);
    if i < a.len() && i < b.len() {
        if a[i] < b[i] {
            Ordering::Less
        } else {
            Ordering::Greater
        }
    } else if a.len() < b.len() {
        Ordering::Less
    } else if a.len() == b.len() {
        Ordering::Equal
    } else {
        Ordering::Greater
    }
}

} // verus!
