//! The reflow engine as a whole: flags, exemptions, unwrapping, wrapping.

use crate::carryover::{
    carried_over, carryover_should_format_bit_where_necessary, lemma_carried_over_take,
};
use crate::diff::{
    added_line_numbers, apply_diff, diff_applied, fits_word, parse_diff_line_numbers,
};
use crate::exempt::{
    blocks_exempted, dependencies_exempted, exempt_blocks, exempt_dependencies_section,
    in_exempt_block, lemma_blocks_exempted_take, lemma_dependencies_exempted_take,
};
use crate::line::{contents_of, line_views, string_views, Line, LineView};
use crate::patterns::LinePatterns;
use crate::text::{concat, ink};
use crate::unwrap::{
    absorbs, lemma_unabsorbed_line, lemma_unwrapped_keeps_ink, unwrap_lines, unwrapped,
};
use crate::wrap::{lemma_wrapped_around, lemma_wrapped_keeps_ink, wrap_lines, wrapped};
use vstd::prelude::*;

verus! {

/// The flags with which the lines of a document go into unwrapping:
/// carried over the paragraphs first, then cleared inside exempt blocks,
/// then cleared on the entries of the section of dependencies.
pub open spec fn prepared(lines: Seq<LineView>) -> Seq<LineView> {
    dependencies_exempted(blocks_exempted(carried_over(lines)))
}

/// The lines that a document is rewritten to.
pub open spec fn rewrapped(lines: Seq<LineView>, width: int) -> Seq<Seq<char>> {
    wrapped(unwrapped(prepared(lines)), width)
}

/// The texts that a vector of string slices stands for.
pub open spec fn str_views<'a>(texts: Seq<&'a str>) -> Seq<Seq<char>> {
    Seq::new(texts.len(), |i: int| texts[i]@)
}

/// A document whose lines all carry the same flag.
pub open spec fn uniform_lines(texts: Seq<Seq<char>>, eligible: bool) -> Seq<LineView> {
    Seq::new(texts.len(), |i: int| LineView { should_format: eligible, contents: texts[i] })
}

/// The flags that a document starts with: every line eligible when no diff
/// is given, else the lines that the diff adds.
pub open spec fn flagged(texts: Seq<Seq<char>>, diff: Option<Seq<char>>) -> Seq<LineView> {
    match diff {
        Some(d) => diff_applied(uniform_lines(texts, false), added_line_numbers(d)),
        None => uniform_lines(texts, true),
    }
}

/// The lines that a document is rewritten to, given its lines and, where
/// only changed lines are to be reflowed, the diff that names them.
pub open spec fn reflowed(texts: Seq<Seq<char>>, diff: Option<Seq<char>>, width: int) -> Seq<
    Seq<char>,
> {
    rewrapped(flagged(texts, diff), width)
}

/// Leaving out the numbers that no machine word holds changes nothing for
/// the lines of a document.
pub proof fn lemma_diff_applied_filtered(lines: Seq<LineView>, numbers: Seq<nat>)
    requires
        lines.len() <= usize::MAX,
    ensures
        diff_applied(lines, numbers.filter(|n: nat| fits_word(n))) == diff_applied(lines, numbers),
{
    let fits = |n: nat| fits_word(n);
    let kept = numbers.filter(fits);
    assert forall|n: nat| fits_word(n) implies #[trigger] kept.contains(n) == numbers.contains(
        n,
    ) by {
        if kept.contains(n) {
            numbers.lemma_filter_contains_rev(fits, n);
        }
        if numbers.contains(n) {
            let k = choose|k: int| 0 <= k < numbers.len() && numbers[k] == n;
            numbers.lemma_filter_contains(fits, k);
        }
    }
    assert(diff_applied(lines, kept) =~= diff_applied(lines, numbers));
}

/// The passes that set flags leave every text as it is.
pub proof fn lemma_prepared_keeps_texts(lines: Seq<LineView>)
    ensures
        contents_of(prepared(lines)) == contents_of(lines),
        prepared(lines).len() == lines.len(),
{
    assert(contents_of(carried_over(lines)) =~= contents_of(lines));
    assert(contents_of(blocks_exempted(carried_over(lines))) =~= contents_of(lines));
    assert(contents_of(prepared(lines)) =~= contents_of(lines));
}

/// No content is lost. Reflowing moves words between lines and changes
/// the whitespace between them, nothing else: with all whitespace taken
/// out, the lines that come out, laid end to end, read as the lines that
/// went in.
pub proof fn lemma_rewrap_keeps_words(lines: Seq<LineView>, width: int)
    ensures
        ink(concat(rewrapped(lines, width))) == ink(concat(contents_of(lines))),
{
    lemma_prepared_keeps_texts(lines);
    lemma_unwrapped_keeps_ink(prepared(lines));
    lemma_wrapped_keeps_ink(unwrapped(prepared(lines)), width);
}

/// The passes that set flags look back only: the first `n` lines go into
/// unwrapping with the flags that they would have as a document of their
/// own.
pub proof fn lemma_prepared_take(lines: Seq<LineView>, n: int)
    requires
        0 <= n <= lines.len(),
    ensures
        prepared(lines).take(n) == prepared(lines.take(n)),
{
    lemma_carried_over_take(lines, n);
    lemma_blocks_exempted_take(carried_over(lines), n);
    lemma_dependencies_exempted_take(blocks_exempted(carried_over(lines)), n);
}

/// Ineligible lines come out as they went in. Let line `i` go into
/// unwrapping ineligible, and let the line after it, if there is one, not
/// be appended to it. Then the document is rewritten to: the lines that the
/// part before line `i` is rewritten to, as if the document ended there;
/// then line `i`, character for character, as a line of its own; then the
/// rest.
pub proof fn lemma_ineligible_line_is_kept(lines: Seq<LineView>, i: int, width: int)
    requires
        0 <= i < lines.len(),
        !prepared(lines)[i].should_format,
        i + 1 < lines.len() ==> !absorbs(prepared(lines)[i], prepared(lines)[i + 1]),
    ensures
        rewrapped(lines, width).len() > rewrapped(lines.take(i), width).len(),
        rewrapped(lines, width).take(rewrapped(lines.take(i), width).len() as int) == rewrapped(
            lines.take(i),
            width,
        ),
        rewrapped(lines, width)[rewrapped(lines.take(i), width).len() as int] == lines[i].contents,
{
    let ready = prepared(lines);
    lemma_prepared_keeps_texts(lines);
    lemma_prepared_take(lines, i);
    lemma_unabsorbed_line(ready, i);
    let logical = unwrapped(ready);
    let k = unwrapped(ready.take(i)).len() as int;
    lemma_wrapped_around(logical, k, width);
    let head = wrapped(logical.take(k), width);
    let tail = wrapped(logical.skip(k + 1), width);
    let all = rewrapped(lines, width);
    assert(all == head + seq![lines[i].contents] + tail) by {
        assert(contents_of(ready)[i] == contents_of(lines)[i]);
    }
    assert(head == rewrapped(lines.take(i), width));
    assert(all.take(head.len() as int) =~= head);
}

/// Where no line is eligible, unwrapping merges nothing.
pub proof fn lemma_unwrapped_ineligible(lines: Seq<LineView>)
    requires
        forall|i: int| 0 <= i < lines.len() ==> !(#[trigger] lines[i]).should_format,
    ensures
        unwrapped(lines) == lines,
    decreases lines.len(),
{
    if lines.len() > 0 {
        let front = lines.drop_last();
        assert forall|i: int| 0 <= i < front.len() implies !(#[trigger] front[i]).should_format by {
            assert(front[i] == lines[i]);
        }
        lemma_unwrapped_ineligible(front);
        assert(!lines[lines.len() - 1].should_format);
        assert(unwrapped(lines) =~= lines);
    } else {
        assert(unwrapped(lines) =~= lines);
    }
}

/// Where no line is eligible, wrapping breaks nothing.
pub proof fn lemma_wrapped_ineligible(lines: Seq<LineView>, width: int)
    requires
        forall|i: int| 0 <= i < lines.len() ==> !(#[trigger] lines[i]).should_format,
    ensures
        wrapped(lines, width) == contents_of(lines),
    decreases lines.len(),
{
    if lines.len() > 0 {
        let front = lines.drop_last();
        assert forall|i: int| 0 <= i < front.len() implies !(#[trigger] front[i]).should_format by {
            assert(front[i] == lines[i]);
        }
        lemma_wrapped_ineligible(front, width);
        assert(!lines[lines.len() - 1].should_format);
        assert(wrapped(lines, width) =~= contents_of(lines));
    } else {
        assert(wrapped(lines, width) =~= contents_of(lines));
    }
}

/// A document of which no line goes into unwrapping eligible comes out as
/// it went in, line for line.
pub proof fn lemma_nothing_eligible_nothing_changed(lines: Seq<LineView>, width: int)
    requires
        forall|i: int| 0 <= i < lines.len() ==> !(#[trigger] prepared(lines)[i]).should_format,
    ensures
        rewrapped(lines, width) == contents_of(lines),
{
    lemma_prepared_keeps_texts(lines);
    lemma_unwrapped_ineligible(prepared(lines));
    lemma_wrapped_ineligible(prepared(lines), width);
}

/// Lines of exempt blocks come out as they went in. Every line from the
/// opener of an exempt block to its closer goes into unwrapping
/// ineligible. It comes out character for character, as a line of its own,
/// after the lines that the part before it is rewritten to, unless it is
/// the last line of its block and the line after the block is appended to
/// it.
pub proof fn lemma_exempt_block_line_is_kept(lines: Seq<LineView>, i: int, width: int)
    requires
        0 <= i < lines.len(),
        in_exempt_block(contents_of(lines), i),
        i + 1 < lines.len() && !in_exempt_block(contents_of(lines), i + 1) ==> !absorbs(
            prepared(lines)[i],
            prepared(lines)[i + 1],
        ),
    ensures
        !prepared(lines)[i].should_format,
        rewrapped(lines, width).len() > rewrapped(lines.take(i), width).len(),
        rewrapped(lines, width).take(rewrapped(lines.take(i), width).len() as int) == rewrapped(
            lines.take(i),
            width,
        ),
        rewrapped(lines, width)[rewrapped(lines.take(i), width).len() as int] == lines[i].contents,
{
    assert(contents_of(carried_over(lines)) =~= contents_of(lines));
    lemma_ineligible_line_is_kept(lines, i, width);
}

/// Reflows the eligible lines of a document to the given width.
pub fn rewrap_lines(patterns: &LinePatterns, lines: Vec<Line>, column_length: u8) -> (out: Vec<
    String,
>)
    ensures
        string_views(out@) == rewrapped(line_views(lines@), column_length as int),
        ink(concat(string_views(out@))) == ink(concat(contents_of(line_views(lines@)))),
{
    proof {
        lemma_rewrap_keeps_words(line_views(lines@), column_length as int);
    }
    let mut lines = lines;
    carryover_should_format_bit_where_necessary(patterns, &mut lines);
    exempt_blocks(&mut lines);
    exempt_dependencies_section(&mut lines);
    let unwrapped_lines = unwrap_lines(patterns, lines);
    wrap_lines(patterns, unwrapped_lines, column_length)
}

/// The lines of a document, all with the same flag.
pub fn document_lines<'a>(texts: &Vec<&'a str>, eligible: bool) -> (lines: Vec<Line<'a>>)
    ensures
        line_views(lines@) == uniform_lines(str_views(texts@), eligible),
        lines.len() == texts.len(),
{
    let mut lines: Vec<Line<'a>> = Vec::new();
    let mut i: usize = 0;
    while i < texts.len()
        invariant
            i <= texts.len(),
            lines.len() == i,
            forall|k: int|
                0 <= k < i ==> (#[trigger] lines[k]).should_format == eligible
                    && lines[k].contents == texts[k],
        decreases texts.len() - i,
    {
        lines.push(Line { should_format: eligible, contents: texts[i] });
        i += 1;
    }
    assert(line_views(lines@) =~= uniform_lines(str_views(texts@), eligible));
    lines
}

/// Reflows a document. With a diff, only the lines that it adds, and the
/// paragraphs that they belong to, are reflowed; without one, the whole
/// document is.
pub fn reflow_document(
    patterns: &LinePatterns,
    texts: &Vec<&str>,
    diff: Option<&str>,
    column_length: u8,
) -> (out: Vec<String>)
    ensures
        string_views(out@) == reflowed(
            str_views(texts@),
            match diff {
                Some(d) => Some(d@),
                None => None,
            },
            column_length as int,
        ),
{
    match diff {
        Some(d) => {
            let numbers = parse_diff_line_numbers(d);
            let mut lines = document_lines(texts, false);
            proof {
                lemma_diff_applied_filtered(line_views(lines@), added_line_numbers(d@));
            }
            apply_diff(&mut lines, &numbers);
            rewrap_lines(patterns, lines, column_length)
        },
        None => {
            let lines = document_lines(texts, true);
            rewrap_lines(patterns, lines, column_length)
        },
    }
}

} // verus!
