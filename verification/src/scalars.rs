//! Two dimensions over `u8`: one with a fixed-width encoding and one with a
//! variable-width encoding.

use crate::bytes::{lemma_lex_irreflexive, lex_lt};
use crate::dimension::Dimension;
use core::cmp::Ordering;
use vstd::prelude::*;

verus! {

/// A `u8` that uses a fixed-width encoding: the byte itself.
#[derive(PartialEq, Eq, PartialOrd, Ord, Clone, Copy, Debug, Hash)]
pub struct U8FixedWidth(pub u8);

/// A `u8` that uses a variable-width encoding.
///
/// The encoding of `n` consists of `n` times the byte `0x02`, followed by the
/// single byte `0x01`.
#[derive(PartialEq, Eq, PartialOrd, Ord, Clone, Copy, Debug, Hash)]
pub struct U8VariableWidth(pub u8);

/// The unary code of `n`: `n` bytes `0x02` and then one byte `0x01`.
pub open spec fn unary_code(n: nat) -> Seq<u8> {
    Seq::new(n + 1, |i: int| if i < n { 2u8 } else { 1u8 })
}

/// Unary codes are ordered as the numbers they stand for.
pub proof fn lemma_unary_code_order(n: nat, m: nat)
    ensures
        lex_lt(unary_code(n), unary_code(m)) == (n < m),
    decreases n,
{
    let a = unary_code(n);
    let b = unary_code(m);
    assert(a[0] == if n > 0 { 2u8 } else { 1u8 });
    assert(b[0] == if m > 0 { 2u8 } else { 1u8 });
    if n > 0 && m > 0 {
        assert(a.drop_first() =~= unary_code((n - 1) as nat));
        assert(b.drop_first() =~= unary_code((m - 1) as nat));
        lemma_unary_code_order((n - 1) as nat, (m - 1) as nat);
    } else if n == 0 && m == 0 {
        lemma_lex_irreflexive(a);
    }
}

/// The unary code that a byte string starts with, if any, is that of the
/// number of bytes `0x02` before its first other byte.
pub proof fn lemma_unary_code_prefix(n: nat, buf: Seq<u8>)
    ensures
        unary_code(n).is_prefix_of(buf) <==> {
            &&& n < buf.len()
            &&& buf[n as int] == 1
            &&& forall|j: int| 0 <= j < n ==> buf[j] == 2
        },
{
    let code = unary_code(n);
    if code.is_prefix_of(buf) {
        let head = buf.subrange(0, code.len() as int);
        assert(head[n as int] == code[n as int]);
        assert forall|j: int| 0 <= j < n implies buf[j] == 2 by {
            assert(head[j] == code[j]);
        }
    }
    if n < buf.len() && buf[n as int] == 1 && (forall|j: int| 0 <= j < n ==> buf[j] == 2) {
        assert(code =~= buf.subrange(0, code.len() as int));
    }
}

impl Dimension for U8FixedWidth {
    const HOMOMORPHIC_ENCODING_MAX_LENGTH: usize = 1;

    const IS_FIXED_WIDTH_ENCODING: bool = true;

    open spec fn encoding(&self) -> Seq<u8> {
        seq![self.0]
    }

    open spec fn precedes(&self, other: &Self) -> bool {
        self.0 < other.0
    }

    proof fn lemma_encoding_length(v: &Self) {
    }

    proof fn lemma_encoding_homomorphic(a: &Self, b: &Self) {
        if a.0 == b.0 {
            lemma_lex_irreflexive(a.encoding());
        }
    }

    proof fn lemma_encoding_prefix_free(a: &Self, b: &Self) {
        assert(b.encoding().subrange(0, 1)[0] == a.encoding()[0]);
    }

    proof fn lemma_encoding_no_double_zero(v: &Self) {
    }

    fn compare(&self, other: &Self) -> (o: Ordering) {
        if self.0 < other.0 {
            Ordering::Less
        } else if self.0 == other.0 {
            Ordering::Equal
        } else {
            Ordering::Greater
        }
    }

    fn homomorphic_encode(&self, buf: &mut [u8]) -> (len: usize) {
        buf[0] = self.0;
        assert(buf@ =~= self.encoding() + old(buf)@.skip(1));
        1
    }

    fn homomorphic_decode(buf: &[u8]) -> (r: Result<(Self, usize), ()>) {
        if buf.len() == 0 {
            Err(())
        } else {
            let v = U8FixedWidth(buf[0]);
            assert(v.encoding() =~= buf@.subrange(0, 1));
            Ok((v, 1))
        }
    }
}

impl Dimension for U8VariableWidth {
    const HOMOMORPHIC_ENCODING_MAX_LENGTH: usize = 256;

    const IS_FIXED_WIDTH_ENCODING: bool = false;

    open spec fn encoding(&self) -> Seq<u8> {
        unary_code(self.0 as nat)
    }

    open spec fn precedes(&self, other: &Self) -> bool {
        self.0 < other.0
    }

    proof fn lemma_encoding_length(v: &Self) {
    }

    proof fn lemma_encoding_homomorphic(a: &Self, b: &Self) {
        lemma_unary_code_order(a.0 as nat, b.0 as nat);
    }

    proof fn lemma_encoding_prefix_free(a: &Self, b: &Self) {
        lemma_unary_code_prefix(a.0 as nat, b.encoding());
    }

    proof fn lemma_encoding_no_double_zero(v: &Self) {
    }

    fn compare(&self, other: &Self) -> (o: Ordering) {
        if self.0 < other.0 {
            Ordering::Less
        } else if self.0 == other.0 {
            Ordering::Equal
        } else {
            Ordering::Greater
        }
    }

    fn homomorphic_encode(&self, buf: &mut [u8]) -> (len: usize) {
        let n: usize = self.0 as usize;
        let mut i: usize = 0;
        while i < n
            invariant
                i <= n,
                n < buf@.len(),
                buf@.len() == old(buf)@.len(),
                forall|j: int| 0 <= j < i ==> buf@[j] == 2,
                forall|j: int| i <= j < buf@.len() ==> buf@[j] == old(buf)@[j],
            decreases n - i,
        {
            buf[i] = 2;
            i += 1;
        }
        buf[n] = 1;
        assert(buf@ =~= self.encoding() + old(buf)@.skip(n + 1));
        n + 1
    }

    fn homomorphic_decode(buf: &[u8]) -> (r: Result<(Self, usize), ()>) {
        let mut i: usize = 0;
        loop
            invariant
                i <= 255,
                i <= buf@.len(),
                forall|j: int| 0 <= j < i ==> buf@[j] == 2,
            decreases 256 - i,
        {
            if i >= buf.len() {
                proof {
                    lemma_no_unary_code(buf@, i as nat);
                }
                return Err(());
            }
            if buf[i] == 1 {
                let v = U8VariableWidth(i as u8);
                proof {
                    lemma_unary_code_prefix(i as nat, buf@);
                }
                return Ok((v, i + 1));
            }
            if buf[i] != 2 || i >= 255 {
                proof {
                    lemma_no_unary_code(buf@, i as nat);
                }
                return Err(());
            }
            i += 1;
        }
    }
}

/// A byte string that starts with `run` bytes `0x02` and then ends, goes on
/// with a byte other than `0x01` and `0x02`, or has used up the 255 bytes
/// `0x02` that the longest code holds, starts with the code of no `u8`.
proof fn lemma_no_unary_code(buf: Seq<u8>, run: nat)
    requires
        run <= buf.len(),
        forall|j: int| 0 <= j < run ==> buf[j] == 2,
        run == buf.len() || (buf[run as int] != 1 && buf[run as int] != 2) || (run == 255
            && buf[run as int] != 1),
    ensures
        forall|v: U8VariableWidth| !(#[trigger] v.encoding()).is_prefix_of(buf),
{
    assert forall|v: U8VariableWidth| !(#[trigger] v.encoding()).is_prefix_of(buf) by {
        lemma_unary_code_prefix(v.0 as nat, buf);
    }
}

/// The fixed-width dimension declares the width of one byte.
pub proof fn lemma_fixed_width_constants()
    ensures
        U8FixedWidth::HOMOMORPHIC_ENCODING_MAX_LENGTH == 1,
        U8FixedWidth::IS_FIXED_WIDTH_ENCODING,
{
}

/// The variable-width dimension declares a variable width of at most 256
/// bytes.
pub proof fn lemma_variable_width_constants()
    ensures
        U8VariableWidth::HOMOMORPHIC_ENCODING_MAX_LENGTH == 256,
        !U8VariableWidth::IS_FIXED_WIDTH_ENCODING,
{
}

} // verus!
