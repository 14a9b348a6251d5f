use rewrapper::diff::{
    apply_diff, classify_diff_line, diff_trace, hunk_new_start, parse_diff_line_numbers,
    parse_number, DiffLineKind,
};
use rewrapper::line::Line;

fn chars(s: &str) -> Vec<char> {
    s.chars().collect()
}

#[test]
fn a_hunk_with_context_maps_to_its_added_lines() {
    let diff = "@@ -5,2 +5,3 @@\n unchanged line\n-deleted line\n+added line 1\n+added line 2";
    assert_eq!(parse_diff_line_numbers(diff), vec![6, 7]);
}

#[test]
fn file_headers_count_for_nothing() {
    let diff = "diff --git a/source b/source\nindex 83db48f..bf269f4 100644\n--- a/source\n+++ b/source\n@@ -0,0 +1,2 @@\n+one\n+two\n";
    assert_eq!(parse_diff_line_numbers(diff), vec![1, 2]);
}

#[test]
fn each_hunk_resets_the_counter() {
    let diff = "@@ -3 +3 @@ context\n-old\n+new\n@@ -10,0 +11,2 @@\n+a\n+b\n@@ -20,2 +22,0 @@\n-x\n-y";
    assert_eq!(parse_diff_line_numbers(diff), vec![3, 11, 12]);
}

#[test]
fn an_unreadable_header_leaves_the_counter() {
    let diff = "@@ -1 +4 @@\n+a\n@@ garbage @@\n+b\n@@ -1 +x,2 @@\n+c";
    assert_eq!(parse_diff_line_numbers(diff), vec![4, 5, 6]);
}

#[test]
fn lines_before_any_hunk_count_from_zero() {
    assert_eq!(parse_diff_line_numbers("+a\n b\n+c"), vec![0, 2]);
    assert_eq!(parse_diff_line_numbers(""), Vec::<usize>::new());
    assert_eq!(parse_diff_line_numbers("\\ No newline at end of file\nother"), Vec::<usize>::new());
}

#[test]
fn hunk_headers_are_read_leniently() {
    assert_eq!(hunk_new_start(&chars("@@ -5,2 +5,3 @@")), Some(5));
    assert_eq!(hunk_new_start(&chars("@@ -5,2 +17 @@ fn main() {")), Some(17));
    assert_eq!(hunk_new_start(&chars("@@ +8,1 -3 @@")), Some(8));
    assert_eq!(hunk_new_start(&chars("@@ -1 ++9 @@")), Some(9));
    assert_eq!(hunk_new_start(&chars("@@ -1 +007,2 @@")), Some(7));
    assert_eq!(hunk_new_start(&chars("@@\t-1\t+12\t@@")), Some(12));
    assert_eq!(hunk_new_start(&chars("@@ -1 +3")), Some(3));
    assert_eq!(hunk_new_start(&chars("@@ -1 @@ +3")), None);
    assert_eq!(hunk_new_start(&chars("@@ -1 x+3 @@")), None);
    assert_eq!(hunk_new_start(&chars("@@ -1 + 3 @@")), None);
    assert_eq!(hunk_new_start(&chars("@@ -1 +,3 @@")), None);
    assert_eq!(hunk_new_start(&chars("@@ -1 +-3 @@")), None);
    assert_eq!(hunk_new_start(&chars("@@ -1 +3a @@")), None);
    assert_eq!(hunk_new_start(&chars("@@@@")), None);
    assert_eq!(hunk_new_start(&chars("@ -1 +3 @@")), None);
    assert_eq!(hunk_new_start(&chars("")), None);
}

#[test]
fn numbers_are_plain_decimals() {
    assert_eq!(parse_number(&chars("0")), Some(0));
    assert_eq!(parse_number(&chars("42")), Some(42));
    assert_eq!(parse_number(&chars("+42")), Some(42));
    assert_eq!(parse_number(&chars("0042")), Some(42));
    assert_eq!(parse_number(&chars("")), None);
    assert_eq!(parse_number(&chars("+")), None);
    assert_eq!(parse_number(&chars("-1")), None);
    assert_eq!(parse_number(&chars("4 2")), None);
    assert_eq!(parse_number(&chars("42x")), None);
    assert_eq!(parse_number(&chars("\u{661}")), None);
}

#[test]
fn numbers_agree_with_the_standard_library() {
    for s in ["18446744073709551615", "18446744073709551616", "4294967295", "4294967296",
        "99999999999999999999999", "+0", "++1", "00000000000000000000000001"]
    {
        assert_eq!(parse_number(&chars(s)), s.parse::<usize>().ok());
    }
}

#[test]
fn a_number_past_the_machine_word_is_left_out() {
    let max = usize::MAX;
    let diff = format!("@@ -1 +{} @@\n+a\n+b\n+c", max - 1);
    assert_eq!(parse_diff_line_numbers(&diff), vec![max - 1, max]);
}

#[test]
fn listed_lines_become_eligible() {
    let mut lines = vec![
        Line { should_format: false, contents: "one" },
        Line { should_format: false, contents: "two" },
        Line { should_format: true, contents: "three" },
        Line { should_format: false, contents: "four" },
    ];
    apply_diff(&mut lines, &vec![2, 4, 4, 9, 0]);
    let flags: Vec<bool> = lines.iter().map(|l| l.should_format).collect();
    assert_eq!(flags, vec![false, true, true, true]);
    assert_eq!(lines[1].contents, "two");
}

#[test]
fn no_numbers_change_nothing() {
    let mut lines = vec![
        Line { should_format: false, contents: "one" },
        Line { should_format: true, contents: "two" },
    ];
    apply_diff(&mut lines, &Vec::new());
    let flags: Vec<bool> = lines.iter().map(|l| l.should_format).collect();
    assert_eq!(flags, vec![false, true]);
}

#[test]
fn diff_lines_are_told_by_how_they_begin() {
    assert_eq!(classify_diff_line(&chars("+++ b/source")), DiffLineKind::FileHeader);
    assert_eq!(classify_diff_line(&chars("--- a/source")), DiffLineKind::FileHeader);
    assert_eq!(classify_diff_line(&chars("index 83db48f..bf269f4")), DiffLineKind::FileHeader);
    assert_eq!(classify_diff_line(&chars("diff --git a b")), DiffLineKind::FileHeader);
    assert_eq!(classify_diff_line(&chars("@@ -1 +1 @@")), DiffLineKind::HunkHeader);
    assert_eq!(classify_diff_line(&chars("+added")), DiffLineKind::Added);
    assert_eq!(classify_diff_line(&chars("++")), DiffLineKind::Added);
    assert_eq!(classify_diff_line(&chars("-removed")), DiffLineKind::Removed);
    assert_eq!(classify_diff_line(&chars(" context")), DiffLineKind::Context);
    assert_eq!(classify_diff_line(&chars("\\ No newline at end of file")), DiffLineKind::Other);
    assert_eq!(classify_diff_line(&chars("")), DiffLineKind::Other);
    assert_eq!(classify_diff_line(&chars("@")), DiffLineKind::Other);
}

#[test]
fn the_trace_follows_the_counter() {
    let diff = "+++ b/source\n@@ -5,2 +005,3 @@ x\n unchanged\n-deleted\n+added\n@@ bad @@\n+more\n";
    let trace = diff_trace(diff);
    let kinds: Vec<DiffLineKind> = trace.iter().map(|s| s.kind).collect();
    assert_eq!(
        kinds,
        vec![
            DiffLineKind::FileHeader,
            DiffLineKind::HunkHeader,
            DiffLineKind::Context,
            DiffLineKind::Removed,
            DiffLineKind::Added,
            DiffLineKind::HunkHeader,
            DiffLineKind::Added,
            DiffLineKind::Other,
        ]
    );
    let before: Vec<Option<usize>> = trace.iter().map(|s| s.before).collect();
    let after: Vec<Option<usize>> = trace.iter().map(|s| s.after).collect();
    assert_eq!(
        before,
        vec![Some(0), Some(0), Some(5), Some(6), Some(6), Some(7), Some(7), Some(8)]
    );
    assert_eq!(
        after,
        vec![Some(0), Some(5), Some(6), Some(6), Some(7), Some(7), Some(8), Some(8)]
    );
    let read: Vec<Option<String>> = trace.iter().map(|s| s.read_from.clone()).collect();
    assert_eq!(
        read,
        vec![None, Some("+005".to_string()), None, None, None, None, None, None]
    );
    assert_eq!(parse_diff_line_numbers(diff), vec![6, 7]);
}

#[test]
fn the_trace_tells_where_a_word_is_too_small() {
    let diff = format!("@@ -1 +{} @@\n+a\n+b", usize::MAX);
    let trace = diff_trace(&diff);
    assert_eq!(trace.len(), 3);
    assert_eq!(trace[1].before, Some(usize::MAX));
    assert_eq!(trace[1].after, None);
    assert_eq!(trace[2].before, None);
    assert_eq!(trace[2].after, None);
    assert_eq!(diff_trace("").len(), 1);
}
