//! The two passes that take lines out of reflow: blocks whose content is
//! verbatim, and the entries of the "Dependencies" section.

use crate::line::{contents_of, line_views, Line, LineView};
use crate::text::{
    contains, contains_in, ends_with, find, find_in, has_suffix, lemma_find, matches_at, to_chars,
    trim, trim_bounds,
};
use vstd::prelude::*;

verus! {

/// The kinds of block whose lines are never reflowed, in the order in which
/// they take precedence.
#[derive(Clone, Copy, Debug, PartialEq, Eq, Structural)]
pub enum ExemptTag {
    Comment,
    Pre,
    Xmp,
    Style,
    Script,
    Svg,
    Table,
}

/// The marker that opens a block of the given kind.
pub open spec fn opener(tag: ExemptTag) -> Seq<char> {
    match tag {
        ExemptTag::Comment => "<!--"@,
        ExemptTag::Pre => "<pre"@,
        ExemptTag::Xmp => "<xmp"@,
        ExemptTag::Style => "<style"@,
        ExemptTag::Script => "<script"@,
        ExemptTag::Svg => "<svg"@,
        ExemptTag::Table => "<table"@,
    }
}

/// The marker that closes a block of the given kind.
pub open spec fn closer(tag: ExemptTag) -> Seq<char> {
    match tag {
        ExemptTag::Comment => "-->"@,
        ExemptTag::Pre => "</pre>"@,
        ExemptTag::Xmp => "</xmp>"@,
        ExemptTag::Style => "</style>"@,
        ExemptTag::Script => "</script>"@,
        ExemptTag::Svg => "</svg>"@,
        ExemptTag::Table => "</table>"@,
    }
}

/// Place of a kind in the order of precedence.
pub open spec fn rank(tag: ExemptTag) -> int {
    match tag {
        ExemptTag::Comment => 0,
        ExemptTag::Pre => 1,
        ExemptTag::Xmp => 2,
        ExemptTag::Style => 3,
        ExemptTag::Script => 4,
        ExemptTag::Svg => 5,
        ExemptTag::Table => 6,
    }
}

/// The better of `best` and `tag` as the block that `line` opens: `tag`
/// wins only where its opener stands strictly before that of `best`.
pub open spec fn earlier_opener(line: Seq<char>, best: Option<ExemptTag>, tag: ExemptTag) -> Option<
    ExemptTag,
> {
    match (find(line, opener(tag)), best) {
        (None, _) => best,
        (Some(_), None) => Some(tag),
        (Some(at), Some(b)) => if at < find(line, opener(b))->Some_0 {
            Some(tag)
        } else {
            best
        },
    }
}

/// The block that `line` opens: the kind whose opener stands first in the
/// line, the order of precedence deciding between two at the same place;
/// `None` when the line holds no opener.
pub open spec fn opened_tag(line: Seq<char>) -> Option<ExemptTag> {
    let t0 = earlier_opener(line, None, ExemptTag::Comment);
    let t1 = earlier_opener(line, t0, ExemptTag::Pre);
    let t2 = earlier_opener(line, t1, ExemptTag::Xmp);
    let t3 = earlier_opener(line, t2, ExemptTag::Style);
    let t4 = earlier_opener(line, t3, ExemptTag::Script);
    let t5 = earlier_opener(line, t4, ExemptTag::Svg);
    earlier_opener(line, t5, ExemptTag::Table)
}

/// The block that is open while `line` is looked at, given the block that
/// was open before it.
pub open spec fn block_during(before: Option<ExemptTag>, line: Seq<char>) -> Option<ExemptTag> {
    match before {
        None => opened_tag(line),
        Some(_) => before,
    }
}

/// The block that is open after `line`.
pub open spec fn block_after(before: Option<ExemptTag>, line: Seq<char>) -> Option<ExemptTag> {
    match block_during(before, line) {
        None => None,
        Some(tag) => if contains(line, closer(tag)) {
            None
        } else {
            Some(tag)
        },
    }
}

/// The block that is open before line `i` of the document.
pub open spec fn block_before(lines: Seq<Seq<char>>, i: int) -> Option<ExemptTag>
    decreases i,
{
    if i <= 0 {
        None
    } else {
        block_after(block_before(lines, i - 1), lines[i - 1])
    }
}

/// Line `i` lies in an exempt block: from the line that opens the block to
/// the line that closes it, both included.
pub open spec fn in_exempt_block(lines: Seq<Seq<char>>, i: int) -> bool {
    block_during(block_before(lines, i), lines[i]) is Some
}

/// The document after the block pass: texts unchanged, and a line stays
/// eligible only outside every exempt block.
pub open spec fn blocks_exempted(lines: Seq<LineView>) -> Seq<LineView> {
    Seq::new(
        lines.len(),
        |i: int|
            LineView {
                should_format: lines[i].should_format && !in_exempt_block(contents_of(lines), i),
                contents: lines[i].contents,
            },
    )
}

/// The heading that opens the section of dependencies.
pub open spec fn dependencies_heading(line: Seq<char>) -> bool {
    trim(line) == "<h4>Dependencies</h4>"@
}

/// A line on which a level-four heading closes.
pub open spec fn closes_heading(line: Seq<char>) -> bool {
    ends_with(line, "</h4>"@)
}

/// A line that holds a list item or a defining instance.
pub open spec fn names_dependency(line: Seq<char>) -> bool {
    contains(line, "<li>"@) || contains(line, "<dfn"@)
}

/// Whether the scan is inside the section of dependencies after `line`,
/// given whether it was before. The section is entered on its heading and
/// left on the next line on which a heading closes.
pub open spec fn inside_after(inside: bool, line: Seq<char>) -> bool {
    if inside {
        !closes_heading(line)
    } else {
        dependencies_heading(line)
    }
}

/// Whether the scan is inside the section of dependencies before line `i`
/// of the document.
pub open spec fn inside_before(lines: Seq<Seq<char>>, i: int) -> bool
    decreases i,
{
    if i <= 0 {
        false
    } else {
        inside_after(inside_before(lines, i - 1), lines[i - 1])
    }
}

/// Line `i` is an entry of the section of dependencies: it lies inside
/// the section, does not close it, and names a dependency.
pub open spec fn dependency_entry(lines: Seq<Seq<char>>, i: int) -> bool {
    &&& inside_before(lines, i)
    &&& !closes_heading(lines[i])
    &&& names_dependency(lines[i])
}

/// The document after the section pass: texts unchanged, and a line stays
/// eligible unless it is an entry of the section of dependencies.
pub open spec fn dependencies_exempted(lines: Seq<LineView>) -> Seq<LineView> {
    Seq::new(
        lines.len(),
        |i: int|
            LineView {
                should_format: lines[i].should_format && !dependency_entry(contents_of(lines), i),
                contents: lines[i].contents,
            },
    )
}

/// The opener of `tag` is in the line and stands first: no other opener
/// stands before it, and none of higher precedence stands at the same
/// place.
pub open spec fn stands_first(line: Seq<char>, tag: ExemptTag) -> bool {
    &&& contains(line, opener(tag))
    &&& forall|other: ExemptTag| #[trigger]
        contains(line, opener(other)) ==> {
            let mine = find(line, opener(tag))->Some_0;
            let theirs = find(line, opener(other))->Some_0;
            mine < theirs || (mine == theirs && rank(tag) <= rank(other))
        }
}

/// No opener is in the line.
pub open spec fn opens_nothing(line: Seq<char>) -> bool {
    forall|other: ExemptTag| !#[trigger] contains(line, opener(other))
}

/// `opened_tag` is the kind whose opener stands first in the line, and
/// `None` exactly when no opener is in the line.
pub proof fn lemma_opened_tag(line: Seq<char>)
    ensures
        match opened_tag(line) {
            Some(tag) => stands_first(line, tag),
            None => opens_nothing(line),
        },
{
    lemma_find(line, opener(ExemptTag::Comment));
    lemma_find(line, opener(ExemptTag::Pre));
    lemma_find(line, opener(ExemptTag::Xmp));
    lemma_find(line, opener(ExemptTag::Style));
    lemma_find(line, opener(ExemptTag::Script));
    lemma_find(line, opener(ExemptTag::Svg));
    lemma_find(line, opener(ExemptTag::Table));
}

/// The block that is open before a line depends on the lines before it
/// alone.
pub proof fn lemma_block_before_take(lines: Seq<Seq<char>>, n: int, i: int)
    requires
        0 <= i <= n <= lines.len(),
    ensures
        block_before(lines.take(n), i) == block_before(lines, i),
    decreases i,
{
    if i > 0 {
        lemma_block_before_take(lines, n, i - 1);
    }
}

/// The block pass looks back only: the flags of the first `n` lines are
/// those that the first `n` lines would get as a document of their own.
pub proof fn lemma_blocks_exempted_take(lines: Seq<LineView>, n: int)
    requires
        0 <= n <= lines.len(),
    ensures
        blocks_exempted(lines).take(n) == blocks_exempted(lines.take(n)),
{
    let part = lines.take(n);
    assert(contents_of(part) =~= contents_of(lines).take(n));
    assert forall|i: int| 0 <= i < n implies in_exempt_block(contents_of(part), i)
        == in_exempt_block(contents_of(lines), i) by {
        lemma_block_before_take(contents_of(lines), n, i);
    }
    assert(blocks_exempted(lines).take(n) =~= blocks_exempted(part));
}

/// Whether the scan is inside the section before a line depends on the
/// lines before it alone.
pub proof fn lemma_inside_before_take(lines: Seq<Seq<char>>, n: int, i: int)
    requires
        0 <= i <= n <= lines.len(),
    ensures
        inside_before(lines.take(n), i) == inside_before(lines, i),
    decreases i,
{
    if i > 0 {
        lemma_inside_before_take(lines, n, i - 1);
    }
}

/// The section pass looks back only: the flags of the first `n` lines are
/// those that the first `n` lines would get as a document of their own.
pub proof fn lemma_dependencies_exempted_take(lines: Seq<LineView>, n: int)
    requires
        0 <= n <= lines.len(),
    ensures
        dependencies_exempted(lines).take(n) == dependencies_exempted(lines.take(n)),
{
    let part = lines.take(n);
    assert(contents_of(part) =~= contents_of(lines).take(n));
    assert forall|i: int| 0 <= i < n implies dependency_entry(contents_of(part), i)
        == dependency_entry(contents_of(lines), i) by {
        lemma_inside_before_take(contents_of(lines), n, i);
    }
    assert(dependencies_exempted(lines).take(n) =~= dependencies_exempted(part));
}

/// The characters of the marker that opens a block.
fn opener_chars(tag: ExemptTag) -> (r: Vec<char>)
    ensures
        r@ == opener(tag),
{
    match tag {
        ExemptTag::Comment => to_chars("<!--"),
        ExemptTag::Pre => to_chars("<pre"),
        ExemptTag::Xmp => to_chars("<xmp"),
        ExemptTag::Style => to_chars("<style"),
        ExemptTag::Script => to_chars("<script"),
        ExemptTag::Svg => to_chars("<svg"),
        ExemptTag::Table => to_chars("<table"),
    }
}

/// The characters of the marker that closes a block.
fn closer_chars(tag: ExemptTag) -> (r: Vec<char>)
    ensures
        r@ == closer(tag),
{
    match tag {
        ExemptTag::Comment => to_chars("-->"),
        ExemptTag::Pre => to_chars("</pre>"),
        ExemptTag::Xmp => to_chars("</xmp>"),
        ExemptTag::Style => to_chars("</style>"),
        ExemptTag::Script => to_chars("</script>"),
        ExemptTag::Svg => to_chars("</svg>"),
        ExemptTag::Table => to_chars("</table>"),
    }
}

/// One step of the search for the first opener: `best` stands at `best_at`.
fn pick_earlier(line: &[char], best: Option<(ExemptTag, usize)>, tag: ExemptTag) -> (r: Option<
    (ExemptTag, usize),
>)
    requires
        best is Some ==> find(line@, opener(best->Some_0.0)) == Some(best->Some_0.1 as int),
    ensures
        r is Some ==> find(line@, opener(r->Some_0.0)) == Some(r->Some_0.1 as int),
        (match r {
            Some(p) => Some(p.0),
            None => None,
        }) == earlier_opener(
            line@,
            match best {
                Some(p) => Some(p.0),
                None => None,
            },
            tag,
        ),
{
    let marker = opener_chars(tag);
    match (find_in(line, marker.as_slice()), best) {
        (None, _) => best,
        (Some(at), None) => Some((tag, at)),
        (Some(at), Some(b)) => if at < b.1 {
            Some((tag, at))
        } else {
            best
        },
    }
}

/// The block that a line opens, if any.
pub fn open_exempt_tag(line: &str) -> (r: Option<ExemptTag>)
    ensures
        r == opened_tag(line@),
        match r {
            Some(tag) => stands_first(line@, tag),
            None => opens_nothing(line@),
        },
{
    proof {
        lemma_opened_tag(line@);
    }
    let chars = to_chars(line);
    let s = chars.as_slice();
    let t0 = pick_earlier(s, None, ExemptTag::Comment);
    let t1 = pick_earlier(s, t0, ExemptTag::Pre);
    let t2 = pick_earlier(s, t1, ExemptTag::Xmp);
    let t3 = pick_earlier(s, t2, ExemptTag::Style);
    let t4 = pick_earlier(s, t3, ExemptTag::Script);
    let t5 = pick_earlier(s, t4, ExemptTag::Svg);
    let t6 = pick_earlier(s, t5, ExemptTag::Table);
    match t6 {
        Some(p) => Some(p.0),
        None => None,
    }
}

/// Whether the line holds the marker that closes a block of kind
/// `open_tag`.
pub fn contains_close_tag(open_tag: ExemptTag, line: &str) -> (r: bool)
    ensures
        r == contains(line@, closer(open_tag)),
{
    let chars = to_chars(line);
    let marker = closer_chars(open_tag);
    contains_in(chars.as_slice(), marker.as_slice())
}

/// Takes every line of an exempt block out of reflow. A block that is
/// never closed runs to the end of the document.
pub fn exempt_blocks(lines: &mut Vec<Line>)
    ensures
        final(lines).len() == old(lines).len(),
        forall|i: int|
            0 <= i < old(lines).len() ==> (#[trigger] final(lines)[i]).contents == old(
                lines,
            )[i].contents,
        line_views(final(lines)@) == blocks_exempted(line_views(old(lines)@)),
{
    let ghost before = line_views(lines@);
    let ghost texts = contents_of(before);
    let n = lines.len();
    let mut open: Option<ExemptTag> = None;
    let mut i: usize = 0;
    while i < n
        invariant
            i <= n,
            n == lines.len(),
            n == old(lines).len(),
            before == line_views(old(lines)@),
            texts == contents_of(before),
            open == block_before(texts, i as int),
            forall|k: int| 0 <= k < n ==> (#[trigger] lines[k]).contents == old(lines)[k].contents,
            forall|k: int| i <= k < n ==> (#[trigger] lines[k]).should_format == before[k].should_format,
            forall|k: int|
                0 <= k < i ==> (#[trigger] lines[k]).should_format == (before[k].should_format
                    && !in_exempt_block(texts, k)),
        decreases n - i,
    {
        assert(texts[i as int] == lines[i as int].contents@);
        if open.is_none() {
            open = open_exempt_tag(lines[i].contents);
        }
        match open {
            Some(tag) => {
                lines[i].should_format = false;
                if contains_close_tag(tag, lines[i].contents) {
                    open = None;
                }
            },
            None => {},
        }
        i += 1;
    }
    assert(line_views(lines@) =~= blocks_exempted(before));
}

/// Takes the entries of the section of dependencies out of reflow.
pub fn exempt_dependencies_section(lines: &mut Vec<Line>)
    ensures
        final(lines).len() == old(lines).len(),
        forall|i: int|
            0 <= i < old(lines).len() ==> (#[trigger] final(lines)[i]).contents == old(
                lines,
            )[i].contents,
        line_views(final(lines)@) == dependencies_exempted(line_views(old(lines)@)),
{
    let ghost before = line_views(lines@);
    let ghost texts = contents_of(before);
    let heading = to_chars("<h4>Dependencies</h4>");
    let close = to_chars("</h4>");
    let item = to_chars("<li>");
    let dfn = to_chars("<dfn");
    let n = lines.len();
    let mut inside = false;
    let mut i: usize = 0;
    while i < n
        invariant
            i <= n,
            n == lines.len(),
            n == old(lines).len(),
            before == line_views(old(lines)@),
            texts == contents_of(before),
            heading@ == "<h4>Dependencies</h4>"@,
            close@ == "</h4>"@,
            item@ == "<li>"@,
            dfn@ == "<dfn"@,
            inside == inside_before(texts, i as int),
            forall|k: int| 0 <= k < n ==> (#[trigger] lines[k]).contents == old(lines)[k].contents,
            forall|k: int| i <= k < n ==> (#[trigger] lines[k]).should_format == before[k].should_format,
            forall|k: int|
                0 <= k < i ==> (#[trigger] lines[k]).should_format == (before[k].should_format
                    && !dependency_entry(texts, k)),
        decreases n - i,
    {
        assert(texts[i as int] == lines[i as int].contents@);
        let chars = to_chars(lines[i].contents);
        let s = chars.as_slice();
        if inside {
            if has_suffix(s, close.as_slice()) {
                inside = false;
            } else if contains_in(s, item.as_slice()) || contains_in(s, dfn.as_slice()) {
                lines[i].should_format = false;
            }
        } else {
            let (start, end) = trim_bounds(s);
            if end - start == heading.len() && matches_at(s, heading.as_slice(), start) {
                inside = true;
            }
        }
        i += 1;
    }
    assert(line_views(lines@) =~= dependencies_exempted(before));
}

} // verus!
