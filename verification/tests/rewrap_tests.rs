use rewrapper::line::Line;
use rewrapper::patterns::LinePatterns;
use rewrapper::rewrap::{document_lines, reflow_document, rewrap_lines};

fn eligible<'a>(texts: &[&'a str]) -> Vec<Line<'a>> {
    texts.iter().map(|t| Line { should_format: true, contents: t }).collect()
}

#[test]
fn a_short_paragraph_is_joined_and_left_alone() {
    let patterns = LinePatterns::new().unwrap();
    let out = rewrap_lines(&patterns, eligible(&["<p>", "foo", "bar", "</p>"]), 100);
    assert_eq!(out, vec!["<p>", "foo bar", "</p>"]);
}

#[test]
fn a_paragraph_is_rewrapped_to_the_width() {
    let patterns = LinePatterns::new().unwrap();
    let out = rewrap_lines(
        &patterns,
        eligible(&["<p>The quick brown", "fox jumps over the", "lazy dog.</p>", "", "<p>Next.</p>"]),
        24,
    );
    assert_eq!(
        out,
        vec!["<p>The quick brown fox", "jumps over the lazy", "dog.</p>", "", "<p>Next.</p>"]
    );
}

#[test]
fn only_the_touched_paragraph_is_rewrapped() {
    let patterns = LinePatterns::new().unwrap();
    let lines = vec![
        Line { should_format: false, contents: "one" },
        Line { should_format: true, contents: "two" },
        Line { should_format: false, contents: "three" },
        Line { should_format: false, contents: "" },
        Line { should_format: false, contents: "four" },
        Line { should_format: false, contents: "five" },
    ];
    let out = rewrap_lines(&patterns, lines, 100);
    assert_eq!(out, vec!["one two three", "", "four", "five"]);
}

#[test]
fn exempt_blocks_come_out_as_they_went_in() {
    let patterns = LinePatterns::new().unwrap();
    let texts = [
        "some text",
        "<pre>",
        "  verbatim    text that is far longer than the width",
        "  more",
        "</pre>",
        "closing text",
        "that is joined",
    ];
    let out = rewrap_lines(&patterns, eligible(&texts), 20);
    assert_eq!(
        out,
        vec![
            "some text",
            "<pre>",
            "  verbatim    text that is far longer than the width",
            "  more",
            "</pre>",
            "closing text that is",
            "joined",
        ]
    );
}

#[test]
fn dependency_entries_come_out_as_they_went_in() {
    let patterns = LinePatterns::new().unwrap();
    let texts = [
        "<h4>Dependencies</h4>",
        "<li>a very long entry that would be wrapped</li>",
        "<li><dfn>another</dfn> entry of some length</li>",
        "<h4>Algorithms</h4>",
        "<li>a very long entry that is wrapped",
    ];
    let out = rewrap_lines(&patterns, eligible(&texts), 20);
    assert_eq!(
        out,
        vec![
            "<h4>Dependencies</h4>",
            "<li>a very long entry that would be wrapped</li>",
            "<li><dfn>another</dfn> entry of some length</li>",
            "<h4>Algorithms</h4>",
            "<li>a very long",
            "entry that is",
            "wrapped",
        ]
    );
}

#[test]
fn a_wrapped_document_is_reproduced() {
    let patterns = LinePatterns::new().unwrap();
    let texts = ["<p>The quick brown", "fox jumps over the", "lazy dog.</p>", "", "<p>Next.</p>"];
    let once = rewrap_lines(&patterns, eligible(&texts), 24);
    let again: Vec<&str> = once.iter().map(|s| s.as_str()).collect();
    let twice = rewrap_lines(&patterns, eligible(&again), 24);
    assert_eq!(once, twice);
}

#[test]
fn words_survive_rewrapping() {
    let patterns = LinePatterns::new().unwrap();
    let texts = ["  1. alpha   beta", "gamma\tdelta ", "", " : epsilon zeta eta theta"];
    let out = rewrap_lines(&patterns, eligible(&texts), 12);
    let ink = |lines: Vec<String>| -> String {
        lines.concat().chars().filter(|c| !c.is_whitespace()).collect()
    };
    let before: Vec<String> = texts.iter().map(|t| t.to_string()).collect();
    assert_eq!(ink(out), ink(before));
}

#[test]
fn an_empty_document_stays_empty() {
    let patterns = LinePatterns::new().unwrap();
    assert!(rewrap_lines(&patterns, Vec::new(), 100).is_empty());
    assert_eq!(rewrap_lines(&patterns, eligible(&[""]), 100), vec![""]);
}

#[test]
fn document_lines_carry_one_flag() {
    let lines = document_lines(&vec!["a", "b"], true);
    assert_eq!(lines.len(), 2);
    assert!(lines[0].should_format && lines[1].should_format);
    assert_eq!(lines[1].contents, "b");
    let lines = document_lines(&vec!["a"], false);
    assert!(!lines[0].should_format);
}

#[test]
fn a_diff_scopes_the_reflow() {
    let patterns = LinePatterns::new().unwrap();
    let texts = vec!["one", "two", "", "three", "four", "five"];
    let diff = "--- a/source\n+++ b/source\n@@ -5,0 +5 @@\n+four";
    assert_eq!(
        reflow_document(&patterns, &texts, Some(diff), 100),
        vec!["one", "two", "", "three four five"]
    );
    assert_eq!(
        reflow_document(&patterns, &texts, None, 100),
        vec!["one two", "", "three four five"]
    );
    assert_eq!(
        reflow_document(&patterns, &texts, Some(""), 100),
        vec!["one", "two", "", "three", "four", "five"]
    );
}

#[test]
fn a_document_without_eligible_lines_is_unchanged() {
    let patterns = LinePatterns::new().unwrap();
    let texts = vec![
        "a line that is much longer than the width allows",
        "and another",
        "",
        "  1. with a marker",
    ];
    let lines = document_lines(&texts, false);
    assert_eq!(rewrap_lines(&patterns, lines, 10), texts);
}

#[test]
fn a_list_is_reproduced_once_wrapped() {
    let patterns = LinePatterns::new().unwrap();
    let texts = [
        "<ol>",
        " 1. The first item of the list goes on for a while and has to be wrapped.",
        " 2. The second item is short.",
        "</ol>",
        ":: A description that also goes on for a while, long enough to be wrapped twice or more.",
    ];
    let once = rewrap_lines(&patterns, eligible(&texts), 30);
    assert_eq!(
        once,
        vec![
            "<ol>",
            " 1. The first item of the list",
            "    goes on for a while and",
            "    has to be wrapped.",
            " 2. The second item is short.",
            "</ol>",
            ":: A description that also",
            "   goes on for a while, long",
            "   enough to be wrapped twice",
            "   or more.",
        ]
    );
    let again: Vec<&str> = once.iter().map(|s| s.as_str()).collect();
    assert_eq!(rewrap_lines(&patterns, eligible(&again), 30), once);
}

#[test]
fn rewrapping_twice_can_differ_where_a_marker_is_cut_off() {
    let patterns = LinePatterns::new().unwrap();
    let once = rewrap_lines(&patterns, eligible(&["ab", "1. foooo"]), 5);
    assert_eq!(once, vec!["ab", "1.", "   foooo"]);
    let again: Vec<&str> = once.iter().map(|s| s.as_str()).collect();
    assert_eq!(rewrap_lines(&patterns, eligible(&again), 5), vec!["ab 1.", "foooo"]);
}

#[test]
fn rewrapping_twice_can_differ_where_spaces_are_doubled() {
    let patterns = LinePatterns::new().unwrap();
    let once = rewrap_lines(&patterns, eligible(&["x a  b c"]), 3);
    assert_eq!(once, vec!["x a", " b", "c"]);
    let again: Vec<&str> = once.iter().map(|s| s.as_str()).collect();
    assert_eq!(rewrap_lines(&patterns, eligible(&again), 3), vec!["x a", "b c"]);
}

#[test]
fn a_paragraph_with_clean_words_is_reproduced_at_every_width() {
    let patterns = LinePatterns::new().unwrap();
    let texts = [
        "Lorem ipsum dolor sit amet, consectetur adipiscing elit, sed do eiusmod",
        "tempor incididunt ut labore et dolore magna aliqua.",
        "",
        "  :: Ut enim ad minim veniam, quis nostrud exercitation ullamco laboris",
        "  1. Duis aute irure dolor in reprehenderit in voluptate velit esse cillum",
    ];
    for width in [20u8, 33, 47, 60, 80, 200] {
        let once = rewrap_lines(&patterns, eligible(&texts), width);
        let again: Vec<&str> = once.iter().map(|s| s.as_str()).collect();
        assert_eq!(rewrap_lines(&patterns, eligible(&again), width), once);
    }
}
