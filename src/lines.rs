//! Splitting a text into lines.
//!
//! A line ends at a newline, which is not part of it; a carriage return just
//! before that newline is dropped too. The last line needs no newline, and a
//! text that ends in a newline has no empty line after it, so the empty text
//! has no lines at all.
use vstd::prelude::*;
use vstd::string::StringSliceAdditionalSpecFns;
use vstd::utf8::*;
use crate::encoding::{
    lemma_ascii_absent, lemma_ascii_last, lemma_boundary_after_ascii, lemma_boundary_at,
    lemma_encode_ascii, lemma_split_view, lemma_view_from_bytes,
};

verus! {

broadcast use vstd::utf8::encode_utf8_decode_utf8, vstd::utf8::encode_utf8_valid_utf8;

/// Position of the first newline in `s`, or the length of `s` where it has none.
pub open spec fn newline_index(s: Seq<char>) -> nat
    decreases s.len(),
{
    if s.len() == 0 {
        0
    } else if s[0] == '\n' {
        0
    } else {
        1 + newline_index(s.drop_first())
    }
}

/// `line` without one carriage return at its end.
pub open spec fn without_cr(line: Seq<char>) -> Seq<char> {
    if line.len() > 0 && line.last() == '\r' {
        line.drop_last()
    } else {
        line
    }
}

/// The first line of `s`.
pub open spec fn first_line(s: Seq<char>) -> Seq<char> {
    let k = newline_index(s);
    if k < s.len() {
        without_cr(s.take(k as int))
    } else {
        s
    }
}

/// What follows the first line of `s` and its newline.
pub open spec fn after_first_line(s: Seq<char>) -> Seq<char> {
    let k = newline_index(s);
    if k < s.len() {
        s.skip(k as int + 1)
    } else {
        Seq::empty()
    }
}

/// The lines of `s`, in order.
pub open spec fn lines_of(s: Seq<char>) -> Seq<Seq<char>>
    decreases s.len(),
{
    if s.len() == 0 {
        Seq::empty()
    } else {
        seq![first_line(s)] + lines_of(after_first_line(s))
    }
}

/// Number of newlines in `s`.
pub open spec fn newline_count(s: Seq<char>) -> nat
    decreases s.len(),
{
    if s.len() == 0 {
        0
    } else {
        (if s[0] == '\n' { 1nat } else { 0nat }) + newline_count(s.drop_first())
    }
}

/// Whether `s` ends in a piece of text that no newline closes.
pub open spec fn has_open_last_line(s: Seq<char>) -> bool {
    s.len() > 0 && s.last() != '\n'
}

/// The first newline index lies within `s`, names a newline, and has none before it.
pub proof fn lemma_newline_index_bound(s: Seq<char>)
    ensures
        newline_index(s) <= s.len(),
        newline_index(s) < s.len() ==> s[newline_index(s) as int] == '\n',
        forall|i: int| 0 <= i < newline_index(s) ==> s[i] != '\n',
    decreases s.len(),
{
    if s.len() > 0 && s[0] != '\n' {
        lemma_newline_index_bound(s.drop_first());
        assert forall|i: int| 0 <= i < newline_index(s) implies s[i] != '\n' by {
            if i > 0 {
                assert(s[i] == s.drop_first()[i - 1]);
            }
        }
    }
}

/// In a text with a newline, the first newline stands after the first line's text.
pub proof fn lemma_newline_index_of(a: Seq<char>, b: Seq<char>)
    requires
        !a.contains('\n'),
    ensures
        newline_index(a + seq!['\n'] + b) == a.len(),
    decreases a.len(),
{
    let s = a + seq!['\n'] + b;
    if a.len() == 0 {
        assert(s[0] == '\n');
    } else {
        assert(s[0] == a[0]);
        assert(!a.drop_first().contains('\n')) by {
            if a.drop_first().contains('\n') {
                let j = choose|j: int| 0 <= j < a.drop_first().len() && a.drop_first()[j] == '\n';
                assert(a[j + 1] == '\n');
            }
        }
        assert(s.drop_first() =~= a.drop_first() + seq!['\n'] + b);
        lemma_newline_index_of(a.drop_first(), b);
    }
}

/// In a text without a newline, the first line is the whole text.
pub proof fn lemma_newline_index_none(a: Seq<char>)
    requires
        !a.contains('\n'),
    ensures
        newline_index(a) == a.len(),
    decreases a.len(),
{
    if a.len() > 0 {
        assert(a[0] != '\n');
        assert(!a.drop_first().contains('\n')) by {
            if a.drop_first().contains('\n') {
                let j = choose|j: int| 0 <= j < a.drop_first().len() && a.drop_first()[j] == '\n';
                assert(a[j + 1] == '\n');
            }
        }
        lemma_newline_index_none(a.drop_first());
    }
}

/// Cuts the first line off `s`: returns it and the text after its newline.
/// Both are views into `s`.
pub fn split_first_line<'a>(s: &'a str) -> (r: (&'a str, &'a str))
    ensures
        r.0@ == first_line(s@),
        r.1@ == after_first_line(s@),
{
    let bytes = s.as_bytes();
    let n = bytes.len();
    let mut k: usize = 0;
    while k < n && bytes[k] != 10u8
        invariant
            k <= n,
            n == bytes@.len(),
            bytes@ == s.spec_bytes(),
            forall|i: int| 0 <= i < k ==> bytes@[i] != 10u8,
        decreases n - k,
    {
        k = k + 1;
    }
    if k == n {
        proof {
            lemma_ascii_absent(s@, '\n');
            lemma_newline_index_none(s@);
        }
        let empty: &'a str = "";
        proof {
            reveal_strlit("");
        }
        return (s, empty);
    }
    proof {
        lemma_boundary_at(s, k as int);
    }
    let (head, tail) = s.split_at(k);
    proof {
        lemma_split_view(s, k as int, head, tail);
        assert(tail.spec_bytes()[0] == 10u8);
        lemma_boundary_after_ascii(tail);
    }
    let (newline, rest) = tail.split_at(1);
    proof {
        lemma_split_view(tail, 1, newline, rest);
        lemma_encode_ascii('\n');
        assert(newline.spec_bytes() =~= seq![10u8]);
        lemma_view_from_bytes(newline, seq!['\n']);
        assert forall|i: int| 0 <= i < encode_utf8(head@).len() implies encode_utf8(head@)[i]
            != 10u8 by {
            assert(head.spec_bytes()[i] == bytes@[i]);
        }
        lemma_ascii_absent(head@, '\n');
        assert(s@ =~= head@ + seq!['\n'] + rest@);
        lemma_newline_index_of(head@, rest@);
        assert(s@.take(head@.len() as int) =~= head@);
        assert(s@.skip(head@.len() as int + 1) =~= rest@);
    }
    let hb = head.as_bytes();
    let m = hb.len();
    if m > 0 && hb[m - 1] == 13u8 {
        proof {
            lemma_boundary_at(head, m - 1);
        }
        let (line, cr) = head.split_at(m - 1);
        proof {
            lemma_split_view(head, m - 1, line, cr);
            lemma_encode_ascii('\r');
            assert(cr.spec_bytes() =~= seq![13u8]);
            lemma_view_from_bytes(cr, seq!['\r']);
            assert(head@.drop_last() =~= line@);
        }
        (line, rest)
    } else {
        proof {
            if head@.len() > 0 && head@.last() == '\r' {
                lemma_ascii_last(head@);
            }
        }
        (head, rest)
    }
}

} // verus!
