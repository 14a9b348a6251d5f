use rewrapper::text::{
    append_chars, contains_in, find_in, has_prefix, has_suffix, is_blank, is_space_char,
    leading_spaces, matches_at, push_all, same_chars, split_on, to_chars, to_string,
    trailing_text_end, trim_bounds,
};

fn chars(s: &str) -> Vec<char> {
    s.chars().collect()
}

fn strings(parts: &Vec<Vec<char>>) -> Vec<String> {
    parts.iter().map(|p| p.iter().collect::<String>()).collect()
}

#[test]
fn whitespace_is_what_unicode_lists() {
    for c in ['\t', '\n', '\u{b}', '\u{c}', '\r', ' ', '\u{85}', '\u{a0}', '\u{1680}', '\u{2000}',
        '\u{200a}', '\u{2028}', '\u{2029}', '\u{202f}', '\u{205f}', '\u{3000}']
    {
        assert!(is_space_char(c));
    }
    for c in ['a', '0', '<', '\u{8}', '\u{e}', '\u{200b}', '\u{180e}', '\u{feff}'] {
        assert!(!is_space_char(c));
    }
}

#[test]
fn whitespace_agrees_with_the_standard_library() {
    let mut n: u32 = 0;
    while n <= 0x11000 {
        if let Some(c) = char::from_u32(n) {
            assert_eq!(is_space_char(c), c.is_whitespace());
        }
        n += 1;
    }
}

#[test]
fn to_chars_keeps_every_character() {
    assert_eq!(to_chars("a\u{e9}b"), vec!['a', '\u{e9}', 'b']);
    assert_eq!(to_chars(""), Vec::<char>::new());
}

#[test]
fn to_string_takes_a_range() {
    let s = chars("hello world");
    assert_eq!(to_string(&s, 6, 11), "world");
    assert_eq!(to_string(&s, 3, 3), "");
    assert_eq!(to_string(&s, 0, 11), "hello world");
}

#[test]
fn append_chars_adds_at_the_end() {
    let mut out = String::from("ab");
    append_chars(&mut out, &chars("cdef"), 1, 3);
    assert_eq!(out, "abde");
}

#[test]
fn push_all_adds_at_the_end() {
    let mut out = chars("ab");
    push_all(&mut out, &chars("cd"));
    assert_eq!(out, chars("abcd"));
}

#[test]
fn leading_spaces_counts_the_indent() {
    assert_eq!(leading_spaces(&chars("   x ")), 3);
    assert_eq!(leading_spaces(&chars("x")), 0);
    assert_eq!(leading_spaces(&chars(" \t ")), 3);
    assert_eq!(leading_spaces(&chars("")), 0);
}

#[test]
fn trailing_text_end_cuts_trailing_whitespace() {
    assert_eq!(trailing_text_end(&chars("  ab  "), 2), 4);
    assert_eq!(trailing_text_end(&chars("    "), 4), 4);
    assert_eq!(trailing_text_end(&chars("ab"), 0), 2);
}

#[test]
fn trim_bounds_frame_the_text() {
    assert_eq!(trim_bounds(&chars("  foo bar \t")), (2, 9));
    assert_eq!(trim_bounds(&chars("foo")), (0, 3));
    assert_eq!(trim_bounds(&chars("   ")), (3, 3));
    assert_eq!(trim_bounds(&chars("")), (0, 0));
}

#[test]
fn blank_lines_hold_only_whitespace() {
    assert!(is_blank(&chars("")));
    assert!(is_blank(&chars(" \t ")));
    assert!(!is_blank(&chars(" x ")));
}

#[test]
fn matches_at_compares_in_place() {
    let hay = chars("abcabc");
    assert!(matches_at(&hay, &chars("bc"), 1));
    assert!(matches_at(&hay, &chars("bc"), 4));
    assert!(!matches_at(&hay, &chars("bc"), 2));
    assert!(!matches_at(&hay, &chars("bc"), 5));
    assert!(!matches_at(&hay, &chars("bc"), 100));
    assert!(matches_at(&hay, &chars(""), 6));
    assert!(!matches_at(&hay, &chars(""), 7));
}

#[test]
fn find_in_gives_the_first_occurrence() {
    assert_eq!(find_in(&chars("a. b. c"), &chars(". ")), Some(1));
    assert_eq!(find_in(&chars("abc"), &chars("c")), Some(2));
    assert_eq!(find_in(&chars("abc"), &chars("d")), None);
    assert_eq!(find_in(&chars("abc"), &chars("abcd")), None);
    assert_eq!(find_in(&chars("abc"), &chars("")), Some(0));
    assert_eq!(find_in(&chars(""), &chars("")), Some(0));
    assert_eq!(find_in(&chars("\u{e9}\u{e9}x"), &chars("x")), Some(2));
}

#[test]
fn contains_in_finds_anywhere() {
    assert!(contains_in(&chars("<ul><li>x"), &chars("<li>")));
    assert!(!contains_in(&chars("<ul><li x"), &chars("<li>")));
}

#[test]
fn prefixes_and_suffixes() {
    assert!(has_prefix(&chars("+++ b/source"), &chars("+++")));
    assert!(!has_prefix(&chars("++"), &chars("+++")));
    assert!(has_prefix(&chars("x"), &chars("")));
    assert!(has_suffix(&chars("text</p>"), &chars("</p>")));
    assert!(!has_suffix(&chars("text</p> "), &chars("</p>")));
    assert!(!has_suffix(&chars("p>"), &chars("</p>")));
    assert!(has_suffix(&chars(""), &chars("")));
}

#[test]
fn same_chars_is_equality() {
    assert!(same_chars(&chars("  "), &chars("  ")));
    assert!(!same_chars(&chars("  "), &chars("   ")));
    assert!(!same_chars(&chars("ab"), &chars("ac")));
    assert!(same_chars(&chars(""), &chars("")));
}

#[test]
fn split_on_keeps_empty_pieces() {
    assert_eq!(strings(&split_on(&chars("a b  c"), ' ')), vec!["a", "b", "", "c"]);
    assert_eq!(strings(&split_on(&chars(""), ' ')), vec![""]);
    assert_eq!(strings(&split_on(&chars(" "), ' ')), vec!["", ""]);
    assert_eq!(strings(&split_on(&chars("a\nb\n"), '\n')), vec!["a", "b", ""]);
    assert_eq!(strings(&split_on(&chars("abc"), ' ')), vec!["abc"]);
}
