//! Carryover: a line that may be reflowed makes the rest of its paragraph
//! eligible too.

use crate::line::{flags_of, line_views, Line, LineView};
use crate::patterns::{hard_break, must_break, LinePatterns};
use crate::text::{blank, is_blank, to_chars};
use vstd::prelude::*;

verus! {

/// Eligibility is not carried past a blank line or a hard terminator.
pub open spec fn ends_paragraph(line: Seq<char>) -> bool {
    blank(line) || hard_break(line)
}

/// For each line of the document, whether it ends a paragraph.
pub open spec fn paragraph_ends(lines: Seq<LineView>) -> Seq<bool> {
    Seq::new(lines.len(), |i: int| ends_paragraph(lines[i].contents))
}

/// Line `i` is eligible after carryover: some line `j` at or before it was
/// eligible, and no line from `j` up to `i`, `i` left out, stops the
/// carrying.
pub open spec fn carried_to(flags: Seq<bool>, stops: Seq<bool>, i: int) -> bool {
    exists|j: int|
        0 <= j <= i && #[trigger] flags[j] && forall|k: int| j <= k < i ==> !#[trigger] stops[k]
}

/// The document after carryover: texts unchanged, flags carried forward.
pub open spec fn carried_over(lines: Seq<LineView>) -> Seq<LineView> {
    Seq::new(
        lines.len(),
        |i: int|
            LineView {
                should_format: carried_to(flags_of(lines), paragraph_ends(lines), i),
                contents: lines[i].contents,
            },
    )
}

/// Carryover looks back only: the flags of the first `n` lines are those
/// that the first `n` lines would get as a document of their own.
pub proof fn lemma_carried_over_take(lines: Seq<LineView>, n: int)
    requires
        0 <= n <= lines.len(),
    ensures
        carried_over(lines).take(n) == carried_over(lines.take(n)),
{
    let part = lines.take(n);
    let flags = flags_of(lines);
    let stops = paragraph_ends(lines);
    let part_flags = flags_of(part);
    let part_stops = paragraph_ends(part);
    assert forall|i: int| 0 <= i < n implies carried_to(flags, stops, i) == carried_to(
        part_flags,
        part_stops,
        i,
    ) by {
        if carried_to(flags, stops, i) {
            let j = choose|j: int|
                0 <= j <= i && #[trigger] flags[j] && forall|k: int|
                    j <= k < i ==> !#[trigger] stops[k];
            assert(part_flags[j]);
            assert forall|k: int| j <= k < i implies !#[trigger] part_stops[k] by {
                assert(!stops[k]);
            }
        }
        if carried_to(part_flags, part_stops, i) {
            let j = choose|j: int|
                0 <= j <= i && #[trigger] part_flags[j] && forall|k: int|
                    j <= k < i ==> !#[trigger] part_stops[k];
            assert(flags[j]);
            assert forall|k: int| j <= k < i implies !#[trigger] stops[k] by {
                assert(!part_stops[k]);
            }
        }
    }
    assert(carried_over(lines).take(n) =~= carried_over(part));
}

/// Carries eligibility forward, given for each line whether the carrying
/// stops after it.
pub fn carry_flags(lines: &mut Vec<Line>, stops: &Vec<bool>)
    requires
        stops.len() == old(lines).len(),
    ensures
        final(lines).len() == old(lines).len(),
        forall|i: int|
            0 <= i < old(lines).len() ==> (#[trigger] final(lines)[i]).contents == old(
                lines,
            )[i].contents,
        forall|i: int|
            0 <= i < old(lines).len() ==> (#[trigger] final(lines)[i]).should_format == carried_to(
                flags_of(line_views(old(lines)@)),
                stops@,
                i,
            ),
{
    let ghost flags = flags_of(line_views(lines@));
    let n = lines.len();
    let mut carrying = false;
    let mut i: usize = 0;
    while i < n
        invariant
            i <= n,
            n == lines.len(),
            n == old(lines).len(),
            n == stops.len(),
            flags == flags_of(line_views(old(lines)@)),
            carrying == (i > 0 && carried_to(flags, stops@, i - 1) && !stops[i - 1]),
            forall|k: int| 0 <= k < n ==> (#[trigger] lines[k]).contents == old(lines)[k].contents,
            forall|k: int| i <= k < n ==> (#[trigger] lines[k]).should_format == flags[k],
            forall|k: int|
                0 <= k < i ==> (#[trigger] lines[k]).should_format == carried_to(flags, stops@, k),
        decreases n - i,
    {
        let ghost was_carrying = carrying;
        if lines[i].should_format {
            carrying = true;
        }
        proof {
            if carrying {
                if flags[i as int] {
                    assert(carried_to(flags, stops@, i as int));
                } else {
                    let j = choose|j: int|
                        0 <= j <= i - 1 && #[trigger] flags[j] && forall|k: int|
                            j <= k < i - 1 ==> !#[trigger] stops[k];
                    assert(forall|k: int| j <= k < i ==> !#[trigger] stops[k]);
                    assert(carried_to(flags, stops@, i as int));
                }
            } else {
                if carried_to(flags, stops@, i as int) {
                    let j = choose|j: int|
                        0 <= j <= i && #[trigger] flags[j] && forall|k: int|
                            j <= k < i ==> !#[trigger] stops[k];
                    assert(j < i);
                    assert(!stops[i - 1]);
                    assert(forall|k: int| j <= k < i - 1 ==> !#[trigger] stops[k]);
                    assert(carried_to(flags, stops@, i - 1));
                    assert(false);
                }
            }
        }
        if carrying {
            lines[i].should_format = true;
            if stops[i] {
                carrying = false;
            }
        }
        i += 1;
    }
}

/// Makes every line eligible that follows an eligible line in the same
/// paragraph.
pub fn carryover_should_format_bit_where_necessary(patterns: &LinePatterns, lines: &mut Vec<Line>)
    ensures
        final(lines).len() == old(lines).len(),
        forall|i: int|
            0 <= i < old(lines).len() ==> (#[trigger] final(lines)[i]).contents == old(
                lines,
            )[i].contents,
        line_views(final(lines)@) == carried_over(line_views(old(lines)@)),
{
    let n = lines.len();
    let mut stops: Vec<bool> = Vec::new();
    let mut i: usize = 0;
    while i < n
        invariant
            i <= n,
            n == lines.len(),
            *lines == *old(lines),
            stops.len() == i,
            forall|k: int| 0 <= k < i ==> #[trigger] stops[k] == ends_paragraph(lines[k].contents@),
        decreases n - i,
    {
        let chars = to_chars(lines[i].contents);
        let stop = is_blank(chars.as_slice()) || must_break(patterns, lines[i].contents);
        stops.push(stop);
        i += 1;
    }
    assert(stops@ =~= paragraph_ends(line_views(lines@)));
    carry_flags(lines, &stops);
    assert(line_views(lines@) =~= carried_over(line_views(old(lines)@)));
}

} // verus!
