use rewrapper::line::{Line, OwnedLine};
use rewrapper::patterns::LinePatterns;
use rewrapper::unwrap::{place_line, unwrap_lines};

fn lines_with<'a>(texts: &[&'a str], flags: &[bool]) -> Vec<Line<'a>> {
    texts
        .iter()
        .zip(flags.iter())
        .map(|(t, f)| Line { should_format: *f, contents: t })
        .collect()
}

fn pairs(lines: &Vec<OwnedLine>) -> Vec<(String, bool)> {
    lines.iter().map(|l| (l.contents.clone(), l.should_format)).collect()
}

fn pair(s: &str, f: bool) -> (String, bool) {
    (s.to_string(), f)
}

#[test]
fn a_line_is_appended_after_one_space() {
    let mut out = vec![OwnedLine { should_format: false, contents: "foo".to_string() }];
    place_line(&mut out, true, &Line { should_format: true, contents: "  bar \t" }, false, false);
    assert_eq!(pairs(&out), vec![pair("foo bar", true)]);
}

#[test]
fn a_line_starts_anew_when_it_cannot_join() {
    let line = Line { should_format: true, contents: "  bar " };
    let start = || vec![OwnedLine { should_format: true, contents: "foo".to_string() }];
    let kept = vec![pair("foo", true), pair("  bar ", true)];

    let mut out = start();
    place_line(&mut out, false, &line, false, false);
    assert_eq!(pairs(&out), kept);

    let mut out = start();
    place_line(&mut out, true, &line, true, false);
    assert_eq!(pairs(&out), kept);

    let mut out = start();
    place_line(&mut out, true, &line, false, true);
    assert_eq!(pairs(&out), kept);

    let mut out = start();
    place_line(&mut out, true, &Line { should_format: false, contents: "  bar " }, false, false);
    assert_eq!(pairs(&out), vec![pair("foo", true), pair("  bar ", false)]);

    let mut out: Vec<OwnedLine> = Vec::new();
    place_line(&mut out, true, &line, false, false);
    assert_eq!(pairs(&out), vec![pair("  bar ", true)]);
}

#[test]
fn a_paragraph_between_tags_is_merged() {
    let patterns = LinePatterns::new().unwrap();
    let lines = lines_with(&["<p>", "foo", "bar", "</p>"], &[true, true, true, true]);
    let out = unwrap_lines(&patterns, lines);
    assert_eq!(
        pairs(&out),
        vec![pair("<p>", true), pair("foo bar", true), pair("</p>", true)]
    );
}

#[test]
fn a_touched_line_draws_in_its_paragraph() {
    let patterns = LinePatterns::new().unwrap();
    let lines = lines_with(
        &["first", "second", "third", "", "fourth"],
        &[false, true, true, true, false],
    );
    let out = unwrap_lines(&patterns, lines);
    assert_eq!(
        pairs(&out),
        vec![pair("first second third", true), pair("", true), pair("fourth", false)]
    );
}

#[test]
fn ineligible_lines_are_not_appended() {
    let patterns = LinePatterns::new().unwrap();
    let lines = lines_with(&["a", "b", "c"], &[true, false, false]);
    let out = unwrap_lines(&patterns, lines);
    assert_eq!(pairs(&out), vec![pair("a", true), pair("b", false), pair("c", false)]);
}

#[test]
fn nothing_is_appended_after_a_hard_terminator() {
    let patterns = LinePatterns::new().unwrap();
    let lines = lines_with(
        &["<p>one", "two</p>", "three", "<li>four</li>", "five -->", "six"],
        &[true, true, true, true, true, true],
    );
    let out = unwrap_lines(&patterns, lines);
    assert_eq!(
        pairs(&out),
        vec![
            pair("<p>one two</p>", true),
            pair("three <li>four</li>", true),
            pair("five -->", true),
            pair("six", true),
        ]
    );
}

#[test]
fn openers_start_their_own_logical_line() {
    let patterns = LinePatterns::new().unwrap();
    let lines = lines_with(
        &["intro", "  1. first", "     more", "  2. second", ": term", ":: desc", "   goes on"],
        &[true, true, true, true, true, true, true],
    );
    let out = unwrap_lines(&patterns, lines);
    assert_eq!(
        pairs(&out),
        vec![
            pair("intro", true),
            pair("  1. first", true),
            pair("     more", true),
            pair("  2. second", true),
            pair(": term", true),
            pair(":: desc goes on", true),
        ]
    );
}

#[test]
fn standalone_lines_keep_their_text_and_flag() {
    let patterns = LinePatterns::new().unwrap();
    let lines = lines_with(
        &["text", "  <ul>", "   ", "<dt>term</dt>", "<h2>Title</h2>", "more"],
        &[true, false, true, true, false, true],
    );
    let out = unwrap_lines(&patterns, lines);
    assert_eq!(
        pairs(&out),
        vec![
            pair("text", true),
            pair("  <ul>", false),
            pair("   ", true),
            pair("<dt>term</dt>", true),
            pair("<h2>Title</h2>", false),
            pair("more", true),
        ]
    );
}

#[test]
fn a_merged_line_that_closes_an_element_takes_no_more() {
    let patterns = LinePatterns::new().unwrap();
    let lines = lines_with(&["one", "two</p>  ", "three"], &[true, true, true]);
    let out = unwrap_lines(&patterns, lines);
    assert_eq!(pairs(&out), vec![pair("one two</p>", true), pair("three", true)]);
}

#[test]
fn an_empty_document_has_no_logical_lines() {
    let patterns = LinePatterns::new().unwrap();
    let out = unwrap_lines(&patterns, Vec::new());
    assert!(out.is_empty());
}
