//! Facts that tie a string slice's characters to its UTF-8 bytes.
use vstd::prelude::*;
use vstd::string::StringSliceAdditionalSpecFns;
use vstd::utf8::*;

verus! {

broadcast use vstd::utf8::encode_utf8_decode_utf8, vstd::utf8::encode_utf8_valid_utf8;

/// Encoding a concatenation encodes each part in turn.
pub proof fn lemma_encode_concat(a: Seq<char>, b: Seq<char>)
    ensures
        encode_utf8(a + b) == encode_utf8(a) + encode_utf8(b),
    decreases a.len(),
{
    if a.len() == 0 {
        assert(a + b =~= b);
        assert(encode_utf8(a) + encode_utf8(b) =~= encode_utf8(b));
    } else {
        lemma_encode_concat(a.drop_first(), b);
        assert((a + b).drop_first() =~= a.drop_first() + b);
        assert(encode_utf8(a + b) =~= encode_utf8(a) + encode_utf8(b));
    }
}

/// An ASCII character is encoded as the single byte of the same value.
pub proof fn lemma_encode_ascii(c: char)
    requires
        (c as u32) < 128,
    ensures
        encode_utf8(seq![c]) == seq![c as u32 as u8],
{
    let v = c as u32;
    assert(v & 0x7f == v) by (bit_vector)
        requires
            v < 128,
    ;
    assert(has_width_1_encoding(v));
    assert(encode_scalar(v) == seq![v as u8]);
    assert(seq![c].drop_first() =~= Seq::<char>::empty());
    assert(encode_utf8(Seq::<char>::empty()) =~= Seq::<u8>::empty());
    assert(encode_utf8(seq![c]) =~= seq![c as u32 as u8]);
}

/// A string whose bytes encode `y` reads as `y`.
pub proof fn lemma_view_from_bytes(t: &str, y: Seq<char>)
    requires
        t.spec_bytes() == encode_utf8(y),
    ensures
        t@ == y,
{
    assert(decode_utf8(encode_utf8(t@)) == t@);
    assert(decode_utf8(encode_utf8(y)) == y);
}

/// Two strings cut from `s` at byte `k` read, in order, as `s`.
pub proof fn lemma_split_view(s: &str, k: int, p: &str, q: &str)
    requires
        0 <= k <= s.spec_bytes().len(),
        p.spec_bytes() == s.spec_bytes().subrange(0, k),
        q.spec_bytes() == s.spec_bytes().subrange(k, s.spec_bytes().len() as int),
    ensures
        s@ == p@ + q@,
{
    lemma_encode_concat(p@, q@);
    assert(encode_utf8(p@ + q@) =~= s.spec_bytes());
    lemma_view_from_bytes(s, p@ + q@);
}

/// An ASCII character occurs in `x` only where its byte occurs in the encoding of `x`.
pub proof fn lemma_ascii_absent(x: Seq<char>, c: char)
    requires
        (c as u32) < 128,
        forall|i: int| 0 <= i < encode_utf8(x).len() ==> encode_utf8(x)[i] != c as u32 as u8,
    ensures
        !x.contains(c),
{
    if x.contains(c) {
        let j = choose|j: int| 0 <= j < x.len() && x[j] == c;
        let a = x.take(j);
        let b = x.skip(j + 1);
        assert(x =~= a + seq![c] + b);
        lemma_encode_concat(a + seq![c], b);
        lemma_encode_concat(a, seq![c]);
        lemma_encode_ascii(c);
        assert(encode_utf8(x)[encode_utf8(a).len() as int] == c as u32 as u8);
    }
}

/// A sequence that ends in an ASCII character has an encoding that ends in its byte.
pub proof fn lemma_ascii_last(x: Seq<char>)
    requires
        x.len() > 0,
        (x.last() as u32) < 128,
    ensures
        encode_utf8(x).len() > 0,
        encode_utf8(x).last() == x.last() as u32 as u8,
{
    let a = x.drop_last();
    assert(x =~= a + seq![x.last()]);
    lemma_encode_concat(a, seq![x.last()]);
    lemma_encode_ascii(x.last());
}

/// A byte that is not a continuation byte starts a character.
pub proof fn lemma_boundary_at(s: &str, k: int)
    requires
        0 <= k < s.spec_bytes().len(),
        s.spec_bytes()[k] < 0x80,
    ensures
        is_char_boundary(s.spec_bytes(), k),
{
    assert(valid_utf8(encode_utf8(s@)));
    is_char_boundary_iff_not_is_continuation_byte(s.spec_bytes(), k);
}

/// The byte after a leading ASCII byte starts a character, or ends the string.
pub proof fn lemma_boundary_after_ascii(s: &str)
    requires
        s.spec_bytes().len() > 0,
        s.spec_bytes()[0] < 0x80,
    ensures
        is_char_boundary(s.spec_bytes(), 1),
{
    let b = s.spec_bytes();
    assert(valid_utf8(encode_utf8(s@)));
    assert(length_of_first_scalar(b) == 1);
    reveal_with_fuel(is_char_boundary, 2);
}

} // verus!
