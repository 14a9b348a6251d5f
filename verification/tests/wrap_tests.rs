use rewrapper::line::OwnedLine;
use rewrapper::patterns::LinePatterns;
use rewrapper::wrap::{extra_indent_width, wrap_lines, wrap_single_line, wrap_with_indent};

fn chars(s: &str) -> Vec<char> {
    s.chars().collect()
}

fn owned(s: &str, f: bool) -> OwnedLine {
    OwnedLine { should_format: f, contents: s.to_string() }
}

#[test]
fn words_fill_each_segment_greedily() {
    assert_eq!(wrap_with_indent("aaa bbb ccc ddd", 0, 7), vec!["aaa bbb", "ccc ddd"]);
    assert_eq!(wrap_with_indent("aaa bbb ccc ddd", 0, 6), vec!["aaa", "bbb", "ccc", "ddd"]);
    assert_eq!(wrap_with_indent("aaa bbb ccc ddd", 0, 11), vec!["aaa bbb ccc", "ddd"]);
    assert_eq!(wrap_with_indent("aaa bbb ccc ddd", 0, 15), vec!["aaa bbb ccc ddd"]);
}

#[test]
fn the_indent_is_repeated_on_every_segment() {
    assert_eq!(wrap_with_indent("  foo bar baz", 0, 9), vec!["  foo bar", "  baz"]);
    assert_eq!(wrap_with_indent("\t foo bar", 0, 5), vec!["\t foo", "\t bar"]);
}

#[test]
fn continuation_segments_hang_by_the_extra_indent() {
    assert_eq!(
        wrap_with_indent(" 1. one two three four", 3, 11),
        vec![" 1. one two", "    three", "    four"]
    );
}

#[test]
fn a_word_wider_than_the_column_gets_a_segment_of_its_own() {
    assert_eq!(
        wrap_with_indent("supercalifragilistic word", 0, 5),
        vec!["supercalifragilistic", "word"]
    );
    assert_eq!(
        wrap_with_indent("a supercalifragilistic b", 0, 5),
        vec!["a", "supercalifragilistic", "b"]
    );
    assert_eq!(wrap_with_indent("      x", 0, 3), vec!["      x"]);
}

#[test]
fn a_line_of_whitespace_is_kept() {
    assert_eq!(wrap_with_indent("      ", 0, 3), vec!["      "]);
    assert_eq!(wrap_with_indent("", 0, 0), vec![""]);
}

#[test]
fn doubled_spaces_make_empty_words() {
    assert_eq!(wrap_with_indent("a  b", 0, 10), vec!["a  b"]);
    assert_eq!(wrap_with_indent("aaa  bbb", 0, 3), vec!["aaa", "bbb"]);
    assert_eq!(wrap_with_indent("aaa  bbb", 0, 4), vec!["aaa ", "bbb"]);
    assert_eq!(wrap_with_indent(" aaa  bbb", 0, 5), vec![" aaa ", " bbb"]);
    assert_eq!(wrap_with_indent(" aaa  bbbbb", 0, 4), vec![" aaa", " bbbbb"]);
}

#[test]
fn marker_widths() {
    assert_eq!(extra_indent_width(&chars("12. item"), false, false, true, false), 4);
    assert_eq!(extra_indent_width(&chars(": term"), false, false, false, true), 2);
    assert_eq!(extra_indent_width(&chars(":: desc"), true, false, false, false), 3);
    assert_eq!(extra_indent_width(&chars(":: 1. item"), true, true, false, false), 6);
    assert_eq!(extra_indent_width(&chars("plain"), false, false, false, false), 0);
    assert_eq!(extra_indent_width(&chars("1.\titem"), false, false, true, false), 0);
    assert_eq!(extra_indent_width(&chars("1.\ta. b"), false, false, true, false), 6);
    assert_eq!(extra_indent_width(&chars(""), true, true, true, true), 0);
}

#[test]
fn a_numbered_item_hangs_under_its_text() {
    let patterns = LinePatterns::new().unwrap();
    assert_eq!(
        wrap_single_line(&patterns, "1. one two three four", 10),
        vec!["1. one two", "   three", "   four"]
    );
    assert_eq!(
        wrap_single_line(&patterns, "  10. one two three", 12),
        vec!["  10. one", "      two", "      three"]
    );
}

#[test]
fn a_definition_term_hangs_under_its_text() {
    let patterns = LinePatterns::new().unwrap();
    assert_eq!(
        wrap_single_line(&patterns, ": alpha beta gamma", 12),
        vec![": alpha beta", "  gamma"]
    );
}

#[test]
fn a_definition_description_hangs_under_its_text() {
    let patterns = LinePatterns::new().unwrap();
    assert_eq!(
        wrap_single_line(&patterns, ":: alpha beta gamma", 13),
        vec![":: alpha beta", "   gamma"]
    );
    assert_eq!(
        wrap_single_line(&patterns, ":: 1. alpha beta gamma", 12),
        vec![":: 1. alpha", "      beta", "      gamma"]
    );
}

#[test]
fn plain_text_has_no_extra_indent() {
    let patterns = LinePatterns::new().unwrap();
    assert_eq!(
        wrap_single_line(&patterns, " the quick brown fox", 10),
        vec![" the quick", " brown fox"]
    );
    assert_eq!(wrap_single_line(&patterns, "see 1. below", 6), vec!["see 1.", "below"]);
}

#[test]
fn only_long_eligible_lines_are_wrapped() {
    let patterns = LinePatterns::new().unwrap();
    let lines = vec![
        owned("short", true),
        owned("this one is long", true),
        owned("this one is long", false),
        owned("<dt>a long term</dt>", true),
        owned("exactly 10", true),
    ];
    assert_eq!(
        wrap_lines(&patterns, lines, 10),
        vec![
            "short",
            "this one",
            "is long",
            "this one is long",
            "<dt>a long term</dt>",
            "exactly 10",
        ]
    );
}

#[test]
fn width_is_counted_in_characters() {
    let patterns = LinePatterns::new().unwrap();
    let lines = vec![owned("\u{e9}\u{e9}\u{e9} \u{e9}\u{e9}", true)];
    assert_eq!(wrap_lines(&patterns, lines, 6), vec!["\u{e9}\u{e9}\u{e9} \u{e9}\u{e9}"]);
    let lines = vec![owned("\u{e9}\u{e9}\u{e9} \u{e9}\u{e9}", true)];
    assert_eq!(wrap_lines(&patterns, lines, 5), vec!["\u{e9}\u{e9}\u{e9}", "\u{e9}\u{e9}"]);
}

#[test]
fn no_lines_give_no_lines() {
    let patterns = LinePatterns::new().unwrap();
    assert!(wrap_lines(&patterns, Vec::new(), 100).is_empty());
}

#[test]
fn segments_fit_the_width_or_hold_one_word() {
    let patterns = LinePatterns::new().unwrap();
    let lines = [
        "The quick brown fox jumps over the lazy dog and keeps on running.",
        "   1. An item with an_extraordinarily_long_word_in_the_middle of it.",
        ":: 12. nested items hang under both markers, as deep as they go",
        "\t: a term with a tab before it and words after it",
        "word",
        "a  b   c    d     e      f",
    ];
    for line in lines {
        for width in [0u8, 1, 5, 10, 20, 40, 80] {
            let segments = wrap_single_line(&patterns, line, width);
            assert!(!segments.is_empty());
            for segment in &segments {
                let fits = segment.chars().count() <= width as usize;
                let one_word = !segment.trim_start().contains(' ');
                assert!(fits || one_word, "{:?} at width {}", segment, width);
            }
            let ink = |s: &str| -> String { s.chars().filter(|c| !c.is_whitespace()).collect() };
            assert_eq!(ink(&segments.concat()), ink(line));
        }
    }
}
