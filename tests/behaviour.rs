use linemark::{classify_line, Event, Parser};

fn events(text: &str) -> Vec<Event<'_>> {
    Parser::new(text).collect_events()
}

#[test]
fn whole_sequence_heading_and_list() {
    assert_eq!(
        events("# Heading\n- List1"),
        vec![Event::Heading("Heading"), Event::List("List1")]
    );
}

#[test]
fn whole_sequence_bare_heading() {
    assert_eq!(events("# "), vec![Event::Heading("")]);
}

#[test]
fn whole_sequence_bare_heading_then_list() {
    assert_eq!(
        events("# \n- List1"),
        vec![Event::Heading(""), Event::List("List1")]
    );
}

#[test]
fn whole_sequence_missing_space() {
    assert_eq!(events("-List1"), vec![Event::Text("-List1")]);
}

#[test]
fn whole_sequence_blank_line_between_text() {
    assert_eq!(
        events("asdf\n\nasdf"),
        vec![Event::Text("asdf"), Event::Empty, Event::Text("asdf")]
    );
}

#[test]
fn empty_text_has_no_events() {
    assert_eq!(events(""), vec![]);
    let mut p = Parser::new("");
    assert_eq!(p.next(), None);
}

#[test]
fn one_event_per_line() {
    assert_eq!(events("a").len(), 1);
    assert_eq!(events("a\n").len(), 1);
    assert_eq!(events("\n").len(), 1);
    assert_eq!(events("a\n\n").len(), 2);
    assert_eq!(events("\n\n\n").len(), 3);
    assert_eq!(events("a\nb\nc").len(), 3);
}

#[test]
fn lines_with_null_and_multibyte_characters() {
    assert_eq!(
        events("\u{0}x\nélan\n# 日本\n> 🙂"),
        vec![
            Event::Text("\u{0}x"),
            Event::Text("élan"),
            Event::Heading("日本"),
            Event::Quote("🙂"),
        ]
    );
}

#[test]
fn order_is_kept() {
    assert_eq!(
        events("> q\n& l\n- i\n# h\nt"),
        vec![
            Event::Quote("q"),
            Event::Link("l"),
            Event::List("i"),
            Event::Heading("h"),
            Event::Text("t"),
        ]
    );
}

#[test]
fn next_yields_events_one_by_one_then_stays_exhausted() {
    let mut p = Parser::new("# a\nb");
    assert_eq!(p.next(), Some(Event::Heading("a")));
    assert_eq!(p.next(), Some(Event::Text("b")));
    assert_eq!(p.next(), None);
    assert_eq!(p.next(), None);
}

#[test]
fn each_prefix_is_stripped() {
    assert_eq!(classify_line("# title"), Event::Heading("title"));
    assert_eq!(classify_line("- item"), Event::List("item"));
    assert_eq!(classify_line("& http://x"), Event::Link("http://x"));
    assert_eq!(classify_line("> said"), Event::Quote("said"));
    assert_eq!(classify_line("#  two"), Event::Heading(" two"));
    assert_eq!(classify_line("- # nested"), Event::List("# nested"));
}

#[test]
fn unmatched_lines_stay_whole() {
    assert_eq!(classify_line("plain"), Event::Text("plain"));
    assert_eq!(classify_line("#title"), Event::Text("#title"));
    assert_eq!(classify_line(" # x"), Event::Text(" # x"));
    assert_eq!(classify_line("* x"), Event::Text("* x"));
    assert_eq!(classify_line("#\u{a0}x"), Event::Text("#\u{a0}x"));
    assert_eq!(classify_line("é x"), Event::Text("é x"));
}

#[test]
fn single_character_lines_are_text() {
    assert_eq!(classify_line("-"), Event::Text("-"));
    assert_eq!(classify_line("#"), Event::Text("#"));
    assert_eq!(classify_line("&"), Event::Text("&"));
    assert_eq!(classify_line(">"), Event::Text(">"));
    assert_eq!(classify_line("ß"), Event::Text("ß"));
}

#[test]
fn empty_line_is_empty_not_text() {
    assert_eq!(classify_line(""), Event::Empty);
    assert_ne!(classify_line(""), Event::Text(""));
}

#[test]
fn carriage_return_before_newline_is_dropped() {
    assert_eq!(
        events("# a\r\nb\r\n\r\nc\r"),
        vec![
            Event::Heading("a"),
            Event::Text("b"),
            Event::Empty,
            Event::Text("c\r"),
        ]
    );
}

#[test]
fn content_borrows_from_the_input() {
    let text = String::from("- item");
    let e = classify_line(&text);
    match e {
        Event::List(c) => assert_eq!(c.as_ptr(), text[2..].as_ptr()),
        other => panic!("unexpected {:?}", other),
    }
}
