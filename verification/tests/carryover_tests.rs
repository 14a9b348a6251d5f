use rewrapper::carryover::{carry_flags, carryover_should_format_bit_where_necessary};
use rewrapper::line::Line;
use rewrapper::patterns::LinePatterns;

fn lines_with<'a>(texts: &[&'a str], flags: &[bool]) -> Vec<Line<'a>> {
    texts
        .iter()
        .zip(flags.iter())
        .map(|(t, f)| Line { should_format: *f, contents: t })
        .collect()
}

fn flags(lines: &Vec<Line>) -> Vec<bool> {
    lines.iter().map(|l| l.should_format).collect()
}

#[test]
fn flags_are_carried_until_a_stop() {
    let mut lines = lines_with(
        &["a", "b", "c", "d", "e", "f"],
        &[false, true, false, false, false, false],
    );
    carry_flags(&mut lines, &vec![false, false, false, true, false, false]);
    assert_eq!(flags(&lines), vec![false, true, true, true, false, false]);
}

#[test]
fn a_stop_on_the_eligible_line_itself_ends_the_carrying() {
    let mut lines = lines_with(&["a", "b", "c"], &[true, false, true]);
    carry_flags(&mut lines, &vec![true, false, false]);
    assert_eq!(flags(&lines), vec![true, false, true]);
}

#[test]
fn carryover_covers_the_rest_of_the_paragraph() {
    let patterns = LinePatterns::new().unwrap();
    let mut lines = lines_with(
        &["first line", "second line", "third line", "", "fourth line"],
        &[false, true, false, false, false],
    );
    carryover_should_format_bit_where_necessary(&patterns, &mut lines);
    assert_eq!(flags(&lines), vec![false, true, true, true, false]);
}

#[test]
fn carryover_stops_at_a_hard_terminator() {
    let patterns = LinePatterns::new().unwrap();
    let mut lines = lines_with(
        &["<p>one", "two</p>", "three", "1. four", "five", "   ", "six"],
        &[true, false, false, true, false, false, false],
    );
    carryover_should_format_bit_where_necessary(&patterns, &mut lines);
    assert_eq!(flags(&lines), vec![true, true, false, true, false, false, false]);
}

#[test]
fn carryover_keeps_the_texts() {
    let patterns = LinePatterns::new().unwrap();
    let mut lines = lines_with(&["a", " b "], &[true, false]);
    carryover_should_format_bit_where_necessary(&patterns, &mut lines);
    assert_eq!(lines[0].contents, "a");
    assert_eq!(lines[1].contents, " b ");
    let mut none: Vec<Line> = Vec::new();
    carryover_should_format_bit_where_necessary(&patterns, &mut none);
    assert!(none.is_empty());
}

#[test]
fn a_touched_line_makes_its_paragraph_eligible() {
    let patterns = LinePatterns::new().unwrap();
    let mut lines = lines_with(
        &["first line", "second line", "third line", "", "fourth line"],
        &[false, true, false, false, false],
    );
    carryover_should_format_bit_where_necessary(&patterns, &mut lines);
    let logical = rewrapper::unwrap::unwrap_lines(&patterns, lines);
    assert_eq!(logical.len(), 3);
    assert_eq!(logical[0].contents, "first line second line third line");
    assert!(logical[0].should_format);
    assert_eq!(logical[1].contents, "");
    assert_eq!(logical[2].contents, "fourth line");
    assert!(!logical[2].should_format);
}
