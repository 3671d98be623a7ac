//! Events and the rule that classifies one line.
use vstd::prelude::*;
use vstd::string::StringSliceAdditionalSpecFns;
use vstd::utf8::*;
use crate::encoding::{
    lemma_boundary_after_ascii, lemma_encode_ascii, lemma_encode_concat, lemma_split_view,
    lemma_view_from_bytes,
};

verus! {

broadcast use vstd::utf8::encode_utf8_decode_utf8, vstd::utf8::encode_utf8_valid_utf8;

/// One classified line. Every payload borrows from the text that was read.
#[derive(Debug, PartialEq, Eq)]
pub enum Event<'a> {
    /// A line that began with `# `; the rest of it.
    Heading(&'a str),
    /// A line that matched no prefix; all of it.
    Text(&'a str),
    /// A line that began with `- `; the rest of it.
    List(&'a str),
    /// A line that began with `> `; the rest of it.
    Quote(&'a str),
    /// A line that began with `& `; the rest of it.
    Link(&'a str),
    /// A line with no characters.
    Empty,
}

/// What an event says, with its text as characters.
pub ghost enum EventModel {
    Heading(Seq<char>),
    Text(Seq<char>),
    List(Seq<char>),
    Quote(Seq<char>),
    Link(Seq<char>),
    Empty,
}

impl<'a> View for Event<'a> {
    type V = EventModel;

    open spec fn view(&self) -> EventModel {
        match *self {
            Event::Heading(c) => EventModel::Heading(c@),
            Event::Text(c) => EventModel::Text(c@),
            Event::List(c) => EventModel::List(c@),
            Event::Quote(c) => EventModel::Quote(c@),
            Event::Link(c) => EventModel::Link(c@),
            Event::Empty => EventModel::Empty,
        }
    }
}

/// Whether `line` begins with `marker` followed by one space.
pub open spec fn has_marker(line: Seq<char>, marker: char) -> bool {
    line.len() >= 2 && line[0] == marker && line[1] == ' '
}

/// Whether `line` begins with one of the four recognised prefixes.
pub open spec fn has_prefix(line: Seq<char>) -> bool {
    has_marker(line, '#') || has_marker(line, '-') || has_marker(line, '&') || has_marker(line, '>')
}

/// The event for one line: a recognised prefix is cut off, anything else
/// is kept whole as text, and an empty line is marked as such.
pub open spec fn classify(line: Seq<char>) -> EventModel {
    if line.len() == 0 {
        EventModel::Empty
    } else if has_marker(line, '#') {
        EventModel::Heading(line.skip(2))
    } else if has_marker(line, '-') {
        EventModel::List(line.skip(2))
    } else if has_marker(line, '&') {
        EventModel::Link(line.skip(2))
    } else if has_marker(line, '>') {
        EventModel::Quote(line.skip(2))
    } else {
        EventModel::Text(line)
    }
}

/// The first two bytes of a text that starts with two ASCII characters are
/// those characters.
proof fn lemma_ascii_pair_bytes(line: Seq<char>)
    requires
        line.len() >= 2,
        (line[0] as u32) < 128,
        (line[1] as u32) < 128,
    ensures
        encode_utf8(line).len() >= 2,
        encode_utf8(line)[0] == line[0] as u32 as u8,
        encode_utf8(line)[1] == line[1] as u32 as u8,
{
    let rest = line.skip(2);
    assert(line =~= seq![line[0]] + seq![line[1]] + rest);
    lemma_encode_concat(seq![line[0]] + seq![line[1]], rest);
    lemma_encode_concat(seq![line[0]], seq![line[1]]);
    lemma_encode_ascii(line[0]);
    lemma_encode_ascii(line[1]);
}

/// A one-byte text holding an ASCII character reads as that character.
proof fn lemma_ascii_view(t: &str, c: char)
    requires
        (c as u32) < 128,
        t.spec_bytes() == seq![c as u32 as u8],
    ensures
        t@ == seq![c],
{
    lemma_encode_ascii(c);
    lemma_view_from_bytes(t, seq![c]);
}

/// Classifies one line. The event's text is a view into `line`.
pub fn classify_line<'a>(line: &'a str) -> (e: Event<'a>)
    ensures
        e@ == classify(line@),
{
    if line.is_empty() {
        return Event::Empty;
    }
    let b = line.as_bytes();
    let n = b.len();
    if n >= 2 && b[1] == 32u8 && (b[0] == 35u8 || b[0] == 45u8 || b[0] == 38u8 || b[0] == 62u8) {
        let m = b[0];
        proof {
            lemma_boundary_after_ascii(line);
        }
        let (first, tail) = line.split_at(1);
        proof {
            lemma_split_view(line, 1, first, tail);
            assert(tail.spec_bytes()[0] == 32u8);
            lemma_boundary_after_ascii(tail);
        }
        let (space, content) = tail.split_at(1);
        proof {
            lemma_split_view(tail, 1, space, content);
            assert(space.spec_bytes() =~= seq![32u8]);
            lemma_ascii_view(space, ' ');
            assert(first.spec_bytes() =~= seq![m]);
            if m == 35u8 {
                lemma_ascii_view(first, '#');
            } else if m == 45u8 {
                lemma_ascii_view(first, '-');
            } else if m == 38u8 {
                lemma_ascii_view(first, '&');
            } else {
                lemma_ascii_view(first, '>');
            }
            assert(line@ =~= first@ + space@ + content@);
            assert(line@.skip(2) =~= content@);
        }
        if m == 35u8 {
            Event::Heading(content)
        } else if m == 45u8 {
            Event::List(content)
        } else if m == 38u8 {
            Event::Link(content)
        } else {
            Event::Quote(content)
        }
    } else {
        proof {
            if has_prefix(line@) {
                lemma_ascii_pair_bytes(line@);
            }
        }
        Event::Text(line)
    }
}

/// A recognised prefix followed by any text `t` yields the event of that
/// prefix, carrying exactly `t`.
pub proof fn lemma_prefix_stripped(t: Seq<char>)
    requires
        !t.contains('\n'),
    ensures
        classify(seq!['#', ' '] + t) == EventModel::Heading(t),
        classify(seq!['-', ' '] + t) == EventModel::List(t),
        classify(seq!['&', ' '] + t) == EventModel::Link(t),
        classify(seq!['>', ' '] + t) == EventModel::Quote(t),
{
    assert((seq!['#', ' '] + t).skip(2) =~= t);
    assert((seq!['-', ' '] + t).skip(2) =~= t);
    assert((seq!['&', ' '] + t).skip(2) =~= t);
    assert((seq!['>', ' '] + t).skip(2) =~= t);
}

/// A non-empty line without a recognised prefix is text, kept whole.
pub proof fn lemma_text_kept_whole(t: Seq<char>)
    requires
        t.len() > 0,
        !has_prefix(t),
    ensures
        classify(t) == EventModel::Text(t),
{
}

/// A line of a single character is text holding that character.
pub proof fn lemma_single_char_line(c: char)
    ensures
        classify(seq![c]) == EventModel::Text(seq![c]),
{
}

/// The empty line is marked as empty, not as empty text.
pub proof fn lemma_blank_line()
    ensures
        classify(Seq::empty()) == EventModel::Empty,
        classify(Seq::empty()) != EventModel::Text(Seq::empty()),
{
}

} // verus!
