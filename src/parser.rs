//! The event producer: a cursor over the lines of a text.
use vstd::prelude::*;
use crate::event::{classify, classify_line, Event, EventModel};
use crate::lines::{
    after_first_line, first_line, has_open_last_line, lemma_newline_index_bound,
    lemma_newline_index_of, lines_of, newline_count, newline_index, split_first_line, without_cr,
};

verus! {

/// The events of a text, one per line, in the order of the lines.
pub open spec fn events_of(s: Seq<char>) -> Seq<EventModel> {
    lines_of(s).map_values(|line: Seq<char>| classify(line))
}

/// Produces the events of a text one at a time, on demand.
pub struct Parser<'a> {
    rest: &'a str,
}

impl<'a> View for Parser<'a> {
    /// The text whose lines have not been read yet.
    type V = Seq<char>;

    closed spec fn view(&self) -> Seq<char> {
        self.rest@
    }
}

impl<'a> Parser<'a> {
    /// A parser positioned before the first line of `text`.
    pub fn new(text: &'a str) -> (p: Self)
        ensures
            p@ == text@,
    {
        Parser { rest: text }
    }

    /// The event of the next line, or `None` once every line has been read;
    /// an exhausted parser stays as it is.
    pub fn next(&mut self) -> (r: Option<Event<'a>>)
        ensures
            r is None <==> events_of(old(self)@).len() == 0,
            r is None ==> final(self)@ == old(self)@,
            r is Some ==> r->0@ == classify(first_line(old(self)@)),
            r is Some ==> final(self)@ == after_first_line(old(self)@),
            r is Some ==> final(self)@.len() < old(self)@.len(),
            r is Some ==> events_of(old(self)@) == seq![r->0@] + events_of(final(self)@),
    {
        if self.rest.is_empty() {
            return None;
        }
        let (line, rest) = split_first_line(self.rest);
        proof {
            let s = old(self)@;
            lemma_newline_index_bound(s);
            assert(lines_of(s) == seq![first_line(s)] + lines_of(after_first_line(s)));
            assert(events_of(s) =~= seq![classify(first_line(s))] + events_of(
                after_first_line(s),
            ));
        }
        self.rest = rest;
        Some(classify_line(line))
    }

    /// Reads every remaining line and returns their events in order.
    pub fn collect_events(self) -> (r: Vec<Event<'a>>)
        ensures
            r@.map_values(|e: Event<'a>| e@) == events_of(self@),
            r@.len() == lines_of(self@).len(),
            forall|i: int| 0 <= i < r@.len() ==> r@[i]@ == classify(#[trigger] lines_of(self@)[i]),
    {
        let mut parser = self;
        let mut out: Vec<Event<'a>> = Vec::new();
        loop
            invariant
                events_of(self@) == out@.map_values(|e: Event<'a>| e@) + events_of(parser@),
            decreases parser@.len(),
        {
            let ghost before = out@;
            match parser.next() {
                Some(e) => {
                    out.push(e);
                    proof {
                        assert(out@.map_values(|e: Event<'a>| e@) =~= before.map_values(
                            |e: Event<'a>| e@,
                        ) + seq![e@]);
                    }
                },
                None => {
                    assert(events_of(self@) =~= out@.map_values(|e: Event<'a>| e@));
                    assert forall|i: int| 0 <= i < out@.len() implies out@[i]@ == classify(
                        #[trigger] lines_of(self@)[i],
                    ) by {
                        assert(out@.map_values(|e: Event<'a>| e@)[i] == events_of(self@)[i]);
                    }
                    return out;
                },
            }
        }
    }
}

/// Counting newlines from the start of `s` up to its first line's end.
proof fn lemma_newline_count_first_line(s: Seq<char>)
    requires
        s.len() > 0,
    ensures
        newline_index(s) < s.len() ==> newline_count(s) == 1 + newline_count(
            after_first_line(s),
        ),
        newline_index(s) == s.len() ==> newline_count(s) == 0,
    decreases s.len(),
{
    lemma_newline_index_bound(s);
    let t = s.drop_first();
    if s[0] == '\n' {
        assert(after_first_line(s) =~= t);
    } else if t.len() == 0 {
        assert(newline_count(t) == 0);
    } else {
        lemma_newline_count_first_line(t);
        lemma_newline_index_bound(t);
        if newline_index(s) < s.len() {
            assert(after_first_line(s) =~= after_first_line(t));
        }
    }
}

/// Every line of a text gives one event: as many as the text has newlines,
/// and one more where text follows its last newline.
pub proof fn lemma_event_count(s: Seq<char>)
    ensures
        events_of(s).len() == newline_count(s) + if has_open_last_line(s) {
            1nat
        } else {
            0nat
        },
    decreases s.len(),
{
    if s.len() > 0 {
        lemma_newline_index_bound(s);
        lemma_newline_count_first_line(s);
        let rest = after_first_line(s);
        assert(lines_of(s) == seq![first_line(s)] + lines_of(rest));
        if newline_index(s) < s.len() {
            lemma_event_count(rest);
            if rest.len() > 0 {
                assert(rest.last() == s.last());
            } else {
                assert(newline_index(s) == s.len() - 1);
            }
        } else {
            assert(!s.contains('\n'));
            assert(s.last() == s[s.len() - 1]);
        }
    }
}

/// The events keep the order of the lines: a first line `a`, ended by a
/// newline, gives the first event, and the text after it gives the rest.
pub proof fn lemma_events_in_order(a: Seq<char>, b: Seq<char>)
    requires
        !a.contains('\n'),
    ensures
        events_of(a + seq!['\n'] + b) == seq![classify(without_cr(a))] + events_of(b),
{
    let s = a + seq!['\n'] + b;
    lemma_newline_index_of(a, b);
    assert(s.take(a.len() as int) =~= a);
    assert(s.skip(a.len() as int + 1) =~= b);
    assert(lines_of(s) == seq![first_line(s)] + lines_of(after_first_line(s)));
    assert(events_of(s) =~= seq![classify(without_cr(a))] + events_of(b));
}

} // verus!
