//! Line classification. The shapes that decide how a line is treated are
//! regular expressions, compiled once and held by `LinePatterns`.

use crate::text::{ends_with, has_suffix, leading_spaces, to_chars, to_string, trim_start};
use regex::Regex;
use vstd::prelude::*;

verus! {

/// `regex::Regex`, a compiled regular expression. The proofs see nothing
/// inside it.
#[verifier::external_type_specification]
#[verifier::external_body]
pub struct ExRegex(regex::Regex);

/// `regex::Error`, what `Regex::new` gives for a pattern that it turns
/// down. The proofs see nothing inside it.
#[verifier::external_type_specification]
#[verifier::external_body]
pub struct ExRegexError(regex::Error);

/// The texts in which a regex has a match, as `Regex::is_match` tells it.
pub uninterp spec fn matched_texts(re: Regex) -> Set<Seq<char>>;

/// The texts in which the regular expression written as `pattern` has a
/// match, once `Regex::new` has compiled it.
pub uninterp spec fn texts_matching(pattern: Seq<char>) -> Set<Seq<char>>;

/// Whether the regular expression written as `pattern` has a match
/// somewhere in `text`.
pub open spec fn pattern_matches(pattern: Seq<char>, text: Seq<char>) -> bool {
    texts_matching(pattern).contains(text)
}

/// Whether `Regex::new` accepts the regular expression written as
/// `pattern`: its syntax is valid and its compiled form stays within the
/// size limit that `Regex::new` sets.
pub uninterp spec fn pattern_compiles(pattern: Seq<char>) -> bool;

/// `Regex::new` compiles a pattern with the default options, which are
/// fixed: whether a regex comes back depends on the text of the pattern
/// alone, and so does what that regex matches.
pub assume_specification[ Regex::new ](re: &str) -> (r: Result<Regex, regex::Error>)
    ensures
        r is Ok <==> pattern_compiles(re@),
        r is Ok ==> matched_texts(r->Ok_0) == texts_matching(re@),
;

/// `Regex::is_match` says whether the regex has a match anywhere in the
/// haystack. The answer depends on the regex and the haystack alone.
pub assume_specification[ Regex::is_match ](re: &Regex, haystack: &str) -> (r: bool)
    ensures
        r == matched_texts(*re).contains(haystack@),
;

/// A single opening or closing tag that fills the whole line.
pub open spec fn single_tag_pattern() -> Seq<char> {
    r#"^</?[a-z-A-Z "=]+>$"#@
}

/// A definition term that opens and closes on the line.
pub open spec fn full_dt_pattern() -> Seq<char> {
    r#"<dt.*>.*</dt>$"#@
}

/// A heading that opens and closes on the line.
pub open spec fn header_pattern() -> Seq<char> {
    r#"<h[0-6].*>.*</h[0-6]>$"#@
}

/// The marker of a numbered list item: digits, a dot, whitespace.
pub open spec fn numbered_list_item_pattern() -> Seq<char> {
    r"^\s*\d+\.\s"@
}

/// The marker of a definition term: a colon, whitespace.
pub open spec fn definition_term_pattern() -> Seq<char> {
    r"^\s*:\s"@
}

/// The marker of a definition description: two colons, whitespace.
pub open spec fn definition_desc_pattern() -> Seq<char> {
    r"^\s*::\s"@
}

/// A line that is never merged with a neighbour: an empty line, a lone tag,
/// a whole definition term or a whole heading.
pub open spec fn standalone_line(line: Seq<char>) -> bool {
    ||| line.len() == 0
    ||| pattern_matches(single_tag_pattern(), line)
    ||| pattern_matches(full_dt_pattern(), line)
    ||| pattern_matches(header_pattern(), line)
}

/// The line starts with the marker of a numbered list item.
pub open spec fn numbered_list_item(line: Seq<char>) -> bool {
    pattern_matches(numbered_list_item_pattern(), line)
}

/// The line starts with the marker of a definition term.
pub open spec fn definition_term(line: Seq<char>) -> bool {
    pattern_matches(definition_term_pattern(), line)
}

/// The line starts with the marker of a definition description.
pub open spec fn definition_desc(line: Seq<char>) -> bool {
    pattern_matches(definition_desc_pattern(), line)
}

/// A line that opens a list item, a definition term or a definition
/// description is never appended to the line before it.
pub open spec fn starts_new_line(line: Seq<char>) -> bool {
    definition_term(line) || definition_desc(line) || numbered_list_item(line)
}

/// A line that ends with the close of a list item, paragraph, definition
/// term, definition description or comment.
pub open spec fn closes_element(line: Seq<char>) -> bool {
    ||| ends_with(line, "</li>"@)
    ||| ends_with(line, "</p>"@)
    ||| ends_with(line, "</dt>"@)
    ||| ends_with(line, "</dd>"@)
    ||| ends_with(line, "-->"@)
}

/// A hard terminator: nothing is appended to a line that closes an element
/// or that opens a numbered list item or a definition term.
pub open spec fn hard_break(line: Seq<char>) -> bool {
    ||| closes_element(line)
    ||| numbered_list_item(trim_start(line))
    ||| definition_term(trim_start(line))
}

/// A whole definition term is never split, whatever its length.
pub open spec fn never_wrapped(line: Seq<char>) -> bool {
    pattern_matches(full_dt_pattern(), line)
}

/// What holds of the outcome of compiling `pattern`: a regex comes out
/// exactly when the pattern compiles, and it matches what the pattern
/// matches.
pub open spec fn made_from(outcome: Result<Regex, regex::Error>, pattern: Seq<char>) -> bool {
    &&& outcome is Ok <==> pattern_compiles(pattern)
    &&& outcome is Ok ==> matched_texts(outcome->Ok_0) == texts_matching(pattern)
}

/// All six patterns by which lines are classified compile.
pub open spec fn patterns_compile() -> bool {
    &&& pattern_compiles(single_tag_pattern())
    &&& pattern_compiles(full_dt_pattern())
    &&& pattern_compiles(header_pattern())
    &&& pattern_compiles(numbered_list_item_pattern())
    &&& pattern_compiles(definition_term_pattern())
    &&& pattern_compiles(definition_desc_pattern())
}

/// The compiled patterns by which lines are classified.
pub struct LinePatterns {
    single_tag: Regex,
    full_dt_tag: Regex,
    header_tag: Regex,
    numbered_list_item: Regex,
    definition_term: Regex,
    definition_desc: Regex,
}

impl LinePatterns {
    /// Each regex matches as the pattern that its field is named for.
    #[verifier::type_invariant]
    pub closed spec fn well_formed(&self) -> bool {
        &&& matched_texts(self.single_tag) == texts_matching(single_tag_pattern())
        &&& matched_texts(self.full_dt_tag) == texts_matching(full_dt_pattern())
        &&& matched_texts(self.header_tag) == texts_matching(header_pattern())
        &&& matched_texts(self.numbered_list_item) == texts_matching(numbered_list_item_pattern())
        &&& matched_texts(self.definition_term) == texts_matching(definition_term_pattern())
        &&& matched_texts(self.definition_desc) == texts_matching(definition_desc_pattern())
    }

    /// Puts six compiled patterns together; `None` as soon as one of them
    /// did not compile.
    fn assemble(
        single_tag: Result<Regex, regex::Error>,
        full_dt_tag: Result<Regex, regex::Error>,
        header_tag: Result<Regex, regex::Error>,
        numbered_list_item: Result<Regex, regex::Error>,
        definition_term: Result<Regex, regex::Error>,
        definition_desc: Result<Regex, regex::Error>,
    ) -> (r: Option<LinePatterns>)
        requires
            made_from(single_tag, single_tag_pattern()),
            made_from(full_dt_tag, full_dt_pattern()),
            made_from(header_tag, header_pattern()),
            made_from(numbered_list_item, numbered_list_item_pattern()),
            made_from(definition_term, definition_term_pattern()),
            made_from(definition_desc, definition_desc_pattern()),
        ensures
            r is Some <==> single_tag is Ok && full_dt_tag is Ok && header_tag is Ok
                && numbered_list_item is Ok && definition_term is Ok && definition_desc is Ok,
            r is Some <==> patterns_compile(),
            r is Some ==> r->Some_0.well_formed(),
    {
        match (
            single_tag,
            full_dt_tag,
            header_tag,
            numbered_list_item,
            definition_term,
            definition_desc,
        ) {
            (Ok(a), Ok(b), Ok(c), Ok(d), Ok(e), Ok(f)) => Some(
                LinePatterns {
                    single_tag: a,
                    full_dt_tag: b,
                    header_tag: c,
                    numbered_list_item: d,
                    definition_term: e,
                    definition_desc: f,
                },
            ),
            _ => None,
        }
    }

    /// Compiles the six patterns. They are there exactly when the regex
    /// engine accepts every one of them.
    pub fn new() -> (r: Option<LinePatterns>)
        ensures
            r is Some <==> patterns_compile(),
            r is Some ==> r->Some_0.well_formed(),
    {
        LinePatterns::assemble(
            Regex::new(r#"^</?[a-z-A-Z "=]+>$"#),
            Regex::new(r#"<dt.*>.*</dt>$"#),
            Regex::new(r#"<h[0-6].*>.*</h[0-6]>$"#),
            Regex::new(r"^\s*\d+\.\s"),
            Regex::new(r"^\s*:\s"),
            Regex::new(r"^\s*::\s"),
        )
    }
}

/// Whether a line, given without the whitespace around it, is never merged
/// with a neighbour.
pub fn is_standalone_line(patterns: &LinePatterns, line: &str) -> (r: bool)
    ensures
        r == standalone_line(line@),
{
    proof {
        use_type_invariant(patterns);
    }
    line.is_empty() || patterns.single_tag.is_match(line) || patterns.full_dt_tag.is_match(line)
        || patterns.header_tag.is_match(line)
}

/// Whether a line starts with the marker of a numbered list item.
pub fn is_numbered_list_item(patterns: &LinePatterns, line: &str) -> (r: bool)
    ensures
        r == numbered_list_item(line@),
{
    proof {
        use_type_invariant(patterns);
    }
    patterns.numbered_list_item.is_match(line)
}

/// Whether a line starts with the marker of a definition term.
pub fn is_definition_term(patterns: &LinePatterns, line: &str) -> (r: bool)
    ensures
        r == definition_term(line@),
{
    proof {
        use_type_invariant(patterns);
    }
    patterns.definition_term.is_match(line)
}

/// Whether a line starts with the marker of a definition description.
pub fn is_definition_desc(patterns: &LinePatterns, line: &str) -> (r: bool)
    ensures
        r == definition_desc(line@),
{
    proof {
        use_type_invariant(patterns);
    }
    patterns.definition_desc.is_match(line)
}

/// Whether a line must not be appended to the line before it.
pub fn must_start_on_new_line(patterns: &LinePatterns, line: &str) -> (r: bool)
    ensures
        r == starts_new_line(line@),
{
    is_definition_term(patterns, line) || is_definition_desc(patterns, line)
        || is_numbered_list_item(patterns, line)
}

/// Whether the text ends with one of the five closing markers.
pub fn ends_with_close(line: &[char]) -> (r: bool)
    ensures
        r == closes_element(line@),
{
    has_suffix(line, to_chars("</li>").as_slice()) || has_suffix(line, to_chars("</p>").as_slice())
        || has_suffix(line, to_chars("</dt>").as_slice()) || has_suffix(
        line,
        to_chars("</dd>").as_slice(),
    ) || has_suffix(line, to_chars("-->").as_slice())
}

/// Whether nothing may be appended to a line.
pub fn must_break(patterns: &LinePatterns, line: &str) -> (r: bool)
    ensures
        r == hard_break(line@),
{
    let chars = to_chars(line);
    if ends_with_close(chars.as_slice()) {
        return true;
    }
    let start = leading_spaces(chars.as_slice());
    let rest = to_string(chars.as_slice(), start, chars.len());
    is_numbered_list_item(patterns, rest.as_str()) || is_definition_term(patterns, rest.as_str())
}

/// Whether a line is never split, whatever its length.
pub fn exempt_from_wrapping(patterns: &LinePatterns, line: &str) -> (r: bool)
    ensures
        r == never_wrapped(line@),
{
    proof {
        use_type_invariant(patterns);
    }
    patterns.full_dt_tag.is_match(line)
}

} // verus!
