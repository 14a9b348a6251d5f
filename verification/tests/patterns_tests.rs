use rewrapper::patterns::{
    ends_with_close, exempt_from_wrapping, is_definition_desc, is_definition_term,
    is_numbered_list_item, is_standalone_line, must_break, must_start_on_new_line, LinePatterns,
};

fn chars(s: &str) -> Vec<char> {
    s.chars().collect()
}

#[test]
fn the_patterns_compile() {
    assert!(LinePatterns::new().is_some());
}

#[test]
fn numbered_list_item_is_recognised() {
    let patterns = LinePatterns::new().unwrap();
    assert!(is_numbered_list_item(&patterns, "1. first"));
    assert!(is_numbered_list_item(&patterns, "  12. twelfth"));
    assert!(is_numbered_list_item(&patterns, "3.\tthird"));
    assert!(!is_numbered_list_item(&patterns, "1.first"));
    assert!(!is_numbered_list_item(&patterns, "1."));
    assert!(!is_numbered_list_item(&patterns, "first 1. "));
    assert!(!is_numbered_list_item(&patterns, ". first"));
    assert!(!is_numbered_list_item(&patterns, ""));
}

#[test]
fn definition_term_is_recognised() {
    let patterns = LinePatterns::new().unwrap();
    assert!(is_definition_term(&patterns, ": term"));
    assert!(is_definition_term(&patterns, "   : term"));
    assert!(!is_definition_term(&patterns, ":: description"));
    assert!(!is_definition_term(&patterns, ":term"));
    assert!(!is_definition_term(&patterns, "a : term"));
}

#[test]
fn definition_desc_is_recognised() {
    let patterns = LinePatterns::new().unwrap();
    assert!(is_definition_desc(&patterns, ":: description"));
    assert!(is_definition_desc(&patterns, "  :: description"));
    assert!(!is_definition_desc(&patterns, ": term"));
    assert!(!is_definition_desc(&patterns, "::description"));
    assert!(!is_definition_desc(&patterns, "::: x"));
}

#[test]
fn lone_tags_stand_alone() {
    let patterns = LinePatterns::new().unwrap();
    assert!(is_standalone_line(&patterns, ""));
    assert!(is_standalone_line(&patterns, "<p>"));
    assert!(is_standalone_line(&patterns, "</p>"));
    assert!(is_standalone_line(&patterns, "<div class=\"note\">"));
    assert!(!is_standalone_line(&patterns, "<p>text"));
    assert!(!is_standalone_line(&patterns, "<p>text</p>"));
    assert!(!is_standalone_line(&patterns, " <p>"));
    assert!(!is_standalone_line(&patterns, "foo"));
    assert!(!is_standalone_line(&patterns, "<a href=\"x.html\">"));
}

#[test]
fn whole_terms_and_headings_stand_alone() {
    let patterns = LinePatterns::new().unwrap();
    assert!(is_standalone_line(&patterns, "<dt>term</dt>"));
    assert!(is_standalone_line(&patterns, "  <dt><dfn>term</dfn></dt>"));
    assert!(is_standalone_line(&patterns, "<h3>Heading</h3>"));
    assert!(is_standalone_line(&patterns, "<h4 id=\"x\">Heading</h4>"));
    assert!(!is_standalone_line(&patterns, "<dt>term"));
    assert!(!is_standalone_line(&patterns, "<dt>term</dt> more"));
    assert!(!is_standalone_line(&patterns, "<h7>Heading</h7>"));
}

#[test]
fn openers_start_on_a_new_line() {
    let patterns = LinePatterns::new().unwrap();
    assert!(must_start_on_new_line(&patterns, "1. item"));
    assert!(must_start_on_new_line(&patterns, ": term"));
    assert!(must_start_on_new_line(&patterns, ":: description"));
    assert!(!must_start_on_new_line(&patterns, "plain text"));
    assert!(!must_start_on_new_line(&patterns, "1."));
}

#[test]
fn closing_markers_end_a_line() {
    assert!(ends_with_close(&chars("item</li>")));
    assert!(ends_with_close(&chars("text</p>")));
    assert!(ends_with_close(&chars("term</dt>")));
    assert!(ends_with_close(&chars("desc</dd>")));
    assert!(ends_with_close(&chars("note -->")));
    assert!(!ends_with_close(&chars("text</p> ")));
    assert!(!ends_with_close(&chars("text</div>")));
    assert!(!ends_with_close(&chars("")));
}

#[test]
fn hard_terminators_break() {
    let patterns = LinePatterns::new().unwrap();
    assert!(must_break(&patterns, "foo</p>"));
    assert!(must_break(&patterns, "foo</li>"));
    assert!(must_break(&patterns, "foo -->"));
    assert!(must_break(&patterns, "  1. item that goes on"));
    assert!(must_break(&patterns, "  : term"));
    assert!(!must_break(&patterns, "  :: description"));
    assert!(!must_break(&patterns, "foo"));
    assert!(!must_break(&patterns, "foo</p> "));
    assert!(!must_break(&patterns, ""));
}

#[test]
fn whole_terms_are_never_wrapped() {
    let patterns = LinePatterns::new().unwrap();
    assert!(exempt_from_wrapping(&patterns, "<dt>term</dt>"));
    assert!(exempt_from_wrapping(&patterns, "text <dt id=\"x\">term</dt>"));
    assert!(!exempt_from_wrapping(&patterns, "<dt>term</dt> text"));
    assert!(!exempt_from_wrapping(&patterns, "<dd>desc</dd>"));
}
