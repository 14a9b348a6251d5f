use rewrapper::exempt::{
    contains_close_tag, exempt_blocks, exempt_dependencies_section, open_exempt_tag, ExemptTag,
};
use rewrapper::line::Line;

fn eligible<'a>(texts: &[&'a str]) -> Vec<Line<'a>> {
    texts.iter().map(|t| Line { should_format: true, contents: t }).collect()
}

fn flags(lines: &Vec<Line>) -> Vec<bool> {
    lines.iter().map(|l| l.should_format).collect()
}

fn texts<'a>(lines: &Vec<Line<'a>>) -> Vec<&'a str> {
    lines.iter().map(|l| l.contents).collect()
}

#[test]
fn each_opener_is_recognised() {
    assert_eq!(open_exempt_tag("a <!-- b"), Some(ExemptTag::Comment));
    assert_eq!(open_exempt_tag("<pre>"), Some(ExemptTag::Pre));
    assert_eq!(open_exempt_tag("<xmp class=x>"), Some(ExemptTag::Xmp));
    assert_eq!(open_exempt_tag("<style>"), Some(ExemptTag::Style));
    assert_eq!(open_exempt_tag("<script src=x>"), Some(ExemptTag::Script));
    assert_eq!(open_exempt_tag("<svg width=1>"), Some(ExemptTag::Svg));
    assert_eq!(open_exempt_tag("  <table>"), Some(ExemptTag::Table));
    assert_eq!(open_exempt_tag("plain <p> text"), None);
    assert_eq!(open_exempt_tag(""), None);
}

#[test]
fn the_first_opener_in_the_line_wins() {
    assert_eq!(open_exempt_tag("<table><!-- x"), Some(ExemptTag::Table));
    assert_eq!(open_exempt_tag("<!-- x <table>"), Some(ExemptTag::Comment));
    assert_eq!(open_exempt_tag("<svg><pre><style>"), Some(ExemptTag::Svg));
    assert_eq!(open_exempt_tag("x<script><pre>"), Some(ExemptTag::Script));
}

#[test]
fn each_closer_is_recognised() {
    assert!(contains_close_tag(ExemptTag::Comment, "x --> y"));
    assert!(contains_close_tag(ExemptTag::Pre, "</pre>"));
    assert!(contains_close_tag(ExemptTag::Xmp, "a</xmp>"));
    assert!(contains_close_tag(ExemptTag::Style, "</style>"));
    assert!(contains_close_tag(ExemptTag::Script, "</script>"));
    assert!(contains_close_tag(ExemptTag::Svg, "</svg>"));
    assert!(contains_close_tag(ExemptTag::Table, "</table>"));
    assert!(!contains_close_tag(ExemptTag::Pre, "</xmp>"));
    assert!(!contains_close_tag(ExemptTag::Comment, "</pre>"));
    assert!(!contains_close_tag(ExemptTag::Table, "<table>"));
}

#[test]
fn lines_of_a_block_are_exempt_from_opener_to_closer() {
    let mut lines = eligible(&["before", "<pre>", "  code", "</pre> tail", "after"]);
    exempt_blocks(&mut lines);
    assert_eq!(flags(&lines), vec![true, false, false, false, true]);
    assert_eq!(texts(&lines), vec!["before", "<pre>", "  code", "</pre> tail", "after"]);
}

#[test]
fn a_block_can_open_and_close_on_one_line() {
    let mut lines = eligible(&["<!-- note -->", "text", "--> <!-- odd", "still", "-->", "out"]);
    exempt_blocks(&mut lines);
    assert_eq!(flags(&lines), vec![false, true, false, true, true, true]);
}

#[test]
fn no_block_opens_inside_another() {
    let mut lines = eligible(&["<pre>", "<!--", "</pre>", "-->", "x"]);
    exempt_blocks(&mut lines);
    assert_eq!(flags(&lines), vec![false, false, false, true, true]);
}

#[test]
fn an_unclosed_block_runs_to_the_end() {
    let mut lines = eligible(&["a", "<table>", "b", "c"]);
    exempt_blocks(&mut lines);
    assert_eq!(flags(&lines), vec![true, false, false, false]);
}

#[test]
fn ineligible_lines_stay_ineligible_outside_blocks() {
    let mut lines = vec![
        Line { should_format: false, contents: "a" },
        Line { should_format: true, contents: "b" },
    ];
    exempt_blocks(&mut lines);
    assert_eq!(flags(&lines), vec![false, true]);
    let mut none: Vec<Line> = Vec::new();
    exempt_blocks(&mut none);
    assert!(none.is_empty());
}

#[test]
fn entries_of_the_dependencies_section_are_exempt() {
    let mut lines = eligible(&[
        "<li>before</li>",
        "  <h4>Dependencies</h4>",
        "<p>This depends on:</p>",
        "<ul>",
        " <li>one",
        " <dfn data-x>two</dfn>",
        "</ul>",
        "<h4>Next</h4>",
        "<li>after</li>",
    ]);
    exempt_dependencies_section(&mut lines);
    assert_eq!(
        flags(&lines),
        vec![true, true, true, true, false, false, true, true, true]
    );
}

#[test]
fn the_section_ends_at_the_next_heading() {
    let mut lines = eligible(&[
        "<h4>Dependencies</h4>",
        "<li>a",
        "<h4>Other</h4>",
        "<li>b",
        "<h4>Dependencies</h4>",
        "<li>c",
        "<h4>Dependencies</h4>",
        "<li>d",
    ]);
    exempt_dependencies_section(&mut lines);
    assert_eq!(flags(&lines), vec![true, false, true, true, true, false, true, true]);
}

#[test]
fn the_heading_must_fill_its_line() {
    let mut lines = eligible(&["see <h4>Dependencies</h4>", "<li>a", "<h4>Dependencies</h4>  ", "<li>b"]);
    exempt_dependencies_section(&mut lines);
    assert_eq!(flags(&lines), vec![true, true, true, false]);
}

#[test]
fn a_closing_heading_is_left_alone() {
    let mut lines = eligible(&["<h4>Dependencies</h4>", "<li>x</li></h4>", "<li>y"]);
    exempt_dependencies_section(&mut lines);
    assert_eq!(flags(&lines), vec![true, true, true]);
}
