//! Unwrapping: runs of physical lines that belong to one paragraph are
//! merged into logical lines.

use crate::line::{contents_of, line_views, owned_views, Line, LineView, OwnedLine};
use crate::patterns::{
    hard_break, is_standalone_line, must_break, must_start_on_new_line, standalone_line,
    starts_new_line, LinePatterns,
};
use crate::text::{
    append_chars, concat, ink, lemma_concat_add, lemma_concat_one, lemma_ink_add,
    lemma_ink_of_spaces, lemma_ink_trim, to_chars, to_string, trim, trim_bounds,
};
use vstd::prelude::*;

verus! {

/// Whether a line is appended to the logical line before it: the line is
/// not standalone, the logical line before it takes more text, the line
/// itself is eligible and does not have to start a line of its own.
pub open spec fn joins_previous(
    out: Seq<LineView>,
    smushable: bool,
    line: LineView,
    standalone: bool,
    starts_new_line: bool,
) -> bool {
    !standalone && smushable && line.should_format && !starts_new_line && out.len() > 0
}

/// The logical lines once `line` is placed after `out`: appended to the
/// last of them, a space between, and that line made eligible; or added as
/// a logical line of its own, as it stands.
pub open spec fn placed(
    out: Seq<LineView>,
    smushable: bool,
    line: LineView,
    standalone: bool,
    starts_new_line: bool,
) -> Seq<LineView> {
    if joins_previous(out, smushable, line, standalone, starts_new_line) {
        out.update(
            out.len() - 1,
            LineView {
                should_format: true,
                contents: out.last().contents + seq![' '] + trim(line.contents),
            },
        )
    } else {
        out.push(line)
    }
}

/// The state of unwrapping: the logical lines so far, and whether the last
/// of them takes more text.
pub struct Merged {
    pub lines: Seq<LineView>,
    pub smushable: bool,
}

/// The state after one more physical line.
pub open spec fn merge_step(acc: Merged, line: LineView) -> Merged {
    let standalone = standalone_line(trim(line.contents));
    let lines = placed(
        acc.lines,
        acc.smushable,
        line,
        standalone,
        starts_new_line(trim(line.contents)),
    );
    Merged { lines, smushable: !standalone && !hard_break(lines.last().contents) }
}

/// The state after all of `lines`.
pub open spec fn merged(lines: Seq<LineView>) -> Merged
    decreases lines.len(),
{
    if lines.len() == 0 {
        Merged { lines: Seq::empty(), smushable: false }
    } else {
        merge_step(merged(lines.drop_last()), lines.last())
    }
}

/// The logical lines of a document.
pub open spec fn unwrapped(lines: Seq<LineView>) -> Seq<LineView> {
    merged(lines).lines
}

/// Each physical line adds at most one logical line, and a state that
/// takes more text has a logical line to add it to.
pub proof fn lemma_merged_len(lines: Seq<LineView>)
    ensures
        merged(lines).lines.len() <= lines.len(),
        lines.len() > 0 ==> merged(lines).lines.len() > 0,
        merged(lines).smushable ==> merged(lines).lines.len() > 0,
    decreases lines.len(),
{
    if lines.len() > 0 {
        lemma_merged_len(lines.drop_last());
    }
}

/// Unwrapping moves text and changes whitespace, nothing else: the logical
/// lines, laid end to end, hold the ink of the physical lines.
pub proof fn lemma_unwrapped_keeps_ink(lines: Seq<LineView>)
    ensures
        ink(concat(contents_of(unwrapped(lines)))) == ink(concat(contents_of(lines))),
    decreases lines.len(),
{
    if lines.len() == 0 {
        assert(contents_of(lines) =~= contents_of(unwrapped(lines)));
    } else {
        let front = lines.drop_last();
        let line = lines.last();
        let acc = merged(front);
        let out = acc.lines;
        let standalone = standalone_line(trim(line.contents));
        let starts_new = starts_new_line(trim(line.contents));
        lemma_unwrapped_keeps_ink(front);
        assert(contents_of(lines) =~= contents_of(front) + seq![line.contents]);
        lemma_concat_add(contents_of(front), seq![line.contents]);
        lemma_concat_one(line.contents);
        lemma_ink_add(concat(contents_of(front)), line.contents);
        if joins_previous(out, acc.smushable, line, standalone, starts_new) {
            let head = out.drop_last();
            let last = out.last().contents;
            let grown = last + seq![' '] + trim(line.contents);
            assert(contents_of(out) =~= contents_of(head) + seq![last]);
            assert(contents_of(unwrapped(lines)) =~= contents_of(head) + seq![grown]);
            lemma_concat_add(contents_of(head), seq![last]);
            lemma_concat_add(contents_of(head), seq![grown]);
            lemma_concat_one(last);
            lemma_concat_one(grown);
            lemma_ink_add(concat(contents_of(head)), last);
            lemma_ink_add(concat(contents_of(head)), grown);
            lemma_ink_add(last + seq![' '], trim(line.contents));
            lemma_ink_add(last, seq![' ']);
            lemma_ink_of_spaces(seq![' ']);
            lemma_ink_trim(line.contents);
            assert(ink(grown) =~= ink(last) + ink(line.contents));
            assert(ink(concat(contents_of(unwrapped(lines)))) =~= ink(concat(contents_of(lines))));
        } else {
            assert(contents_of(unwrapped(lines)) =~= contents_of(out) + seq![line.contents]);
            lemma_concat_add(contents_of(out), seq![line.contents]);
            lemma_ink_add(concat(contents_of(out)), line.contents);
        }
    }
}

/// Whether `next` is appended to `line`, where `line` begins a logical
/// line and `next` is the physical line after it.
pub open spec fn absorbs(line: LineView, next: LineView) -> bool {
    &&& !standalone_line(trim(line.contents))
    &&& !hard_break(line.contents)
    &&& next.should_format
    &&& !standalone_line(trim(next.contents))
    &&& !starts_new_line(trim(next.contents))
}

/// The state after `j + 1` lines is one step from the state after `j`.
pub proof fn lemma_merged_take(lines: Seq<LineView>, j: int)
    requires
        0 <= j < lines.len(),
    ensures
        merged(lines.take(j + 1)) == merge_step(merged(lines.take(j)), lines[j]),
{
    assert(lines.take(j + 1).drop_last() =~= lines.take(j));
}

/// Only the last logical line can still change: every logical line before
/// the last one that stands after `j` physical lines stands unchanged
/// after `m >= j` of them.
pub proof fn lemma_merged_stable(lines: Seq<LineView>, j: int, m: int)
    requires
        0 <= j <= m <= lines.len(),
    ensures
        merged(lines.take(m)).lines.len() >= merged(lines.take(j)).lines.len(),
        merged(lines.take(j)).lines.len() > 0 ==> merged(lines.take(m)).lines.take(
            merged(lines.take(j)).lines.len() - 1,
        ) == merged(lines.take(j)).lines.drop_last(),
    decreases m - j,
{
    let early = merged(lines.take(j)).lines;
    if j < m {
        lemma_merged_stable(lines, j, m - 1);
        lemma_merged_take(lines, m - 1);
        lemma_merged_len(lines.take(m - 1));
        let before = merged(lines.take(m - 1)).lines;
        let after = merged(lines.take(m)).lines;
        if early.len() > 0 {
            assert(after.take(early.len() - 1) =~= before.take(early.len() - 1));
        }
    } else {
        if early.len() > 0 {
            assert(early.take(early.len() - 1) =~= early.drop_last());
        }
    }
}

/// A line that is not eligible and takes up nothing stands among the
/// logical lines as it is, right after the logical lines of what precedes
/// it.
pub proof fn lemma_unabsorbed_line(lines: Seq<LineView>, i: int)
    requires
        0 <= i < lines.len(),
        !lines[i].should_format,
        i + 1 < lines.len() ==> !absorbs(lines[i], lines[i + 1]),
    ensures
        unwrapped(lines).len() > unwrapped(lines.take(i)).len(),
        unwrapped(lines).take(unwrapped(lines.take(i)).len() as int) == unwrapped(lines.take(i)),
        unwrapped(lines)[unwrapped(lines.take(i)).len() as int] == lines[i],
{
    let head = unwrapped(lines.take(i));
    let k = head.len() as int;
    let all = unwrapped(lines);
    lemma_merged_take(lines, i);
    let with_line = merged(lines.take(i + 1)).lines;
    assert(with_line == head.push(lines[i]));
    assert(lines.take(lines.len() as int) =~= lines);
    if i + 1 < lines.len() {
        lemma_merged_take(lines, i + 1);
        let with_next = merged(lines.take(i + 2)).lines;
        assert(with_next == with_line.push(lines[i + 1]));
        lemma_merged_stable(lines, i + 2, lines.len() as int);
        assert(all.take(k + 1) == with_next.drop_last());
        assert(with_next.drop_last() =~= with_line);
        assert(all.take(k) =~= all.take(k + 1).take(k));
        assert(all[k] == all.take(k + 1)[k]);
        assert(with_line.take(k) =~= head);
    } else {
        assert(lines.take(i + 1) =~= lines);
        assert(all.take(k) =~= head);
    }
}

/// Places one physical line after the logical lines in `out`, given how the
/// line was classified: whether it is standalone and whether it has to
/// start a line of its own. `smushable` says whether the last logical line
/// takes more text.
pub fn place_line(
    out: &mut Vec<OwnedLine>,
    smushable: bool,
    line: &Line,
    standalone: bool,
    starts_new_line: bool,
)
    ensures
        owned_views(final(out)@) == placed(
            owned_views(old(out)@),
            smushable,
            line@,
            standalone,
            starts_new_line,
        ),
{
    let ghost before = owned_views(out@);
    let chars = to_chars(line.contents);
    if !standalone && smushable && line.should_format && !starts_new_line && out.len() > 0 {
        let (start, end) = trim_bounds(chars.as_slice());
        let mut last = out.pop().unwrap();
        let ghost head = last.contents@;
        assert(head == before.last().contents);
        last.should_format = true;
        last.contents.push(' ');
        append_chars(&mut last.contents, chars.as_slice(), start, end);
        assert(last.contents@ =~= head + seq![' '] + trim(line.contents@));
        out.push(last);
        assert(owned_views(out@) =~= placed(before, smushable, line@, standalone, starts_new_line));
    } else {
        out.push(
            OwnedLine {
                should_format: line.should_format,
                contents: to_string(chars.as_slice(), 0, chars.len()),
            },
        );
        assert(chars@.subrange(0, chars.len() as int) =~= chars@);
        assert(owned_views(out@) =~= placed(before, smushable, line@, standalone, starts_new_line));
    }
}

/// Merges the physical lines of a document into logical lines.
pub fn unwrap_lines(patterns: &LinePatterns, lines: Vec<Line>) -> (out: Vec<OwnedLine>)
    ensures
        owned_views(out@) == unwrapped(line_views(lines@)),
        out.len() <= lines.len(),
{
    let ghost all = line_views(lines@);
    let mut out: Vec<OwnedLine> = Vec::new();
    let mut smushable = false;
    let mut i: usize = 0;
    assert(all.take(0) =~= Seq::empty());
    assert(owned_views(out@) =~= Seq::empty());
    while i < lines.len()
        invariant
            i <= lines.len(),
            all == line_views(lines@),
            owned_views(out@) == merged(all.take(i as int)).lines,
            smushable == merged(all.take(i as int)).smushable,
        decreases lines.len() - i,
    {
        proof {
            let upto = all.take(i + 1);
            assert(upto.drop_last() =~= all.take(i as int));
            assert(upto.last() == lines[i as int]@);
            lemma_merged_len(upto);
        }
        let line = &lines[i];
        let chars = to_chars(line.contents);
        let (start, end) = trim_bounds(chars.as_slice());
        let trimmed = to_string(chars.as_slice(), start, end);
        let standalone = is_standalone_line(patterns, trimmed.as_str());
        let starts_new = !standalone && must_start_on_new_line(patterns, trimmed.as_str());
        place_line(&mut out, smushable, line, standalone, starts_new);
        assert(out.len() > 0);
        smushable = !standalone && !must_break(patterns, out[out.len() - 1].contents.as_str());
        i += 1;
    }
    proof {
        assert(all.take(lines.len() as int) =~= all);
        lemma_merged_len(all);
    }
    out
}

} // verus!
