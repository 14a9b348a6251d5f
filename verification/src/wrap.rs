//! Wrapping: a logical line that is too long is broken into segments no
//! wider than the column width, word by word.

use crate::line::{contents_of, owned_views, string_views, LineView, OwnedLine};
use crate::patterns::{
    definition_desc, definition_term, exempt_from_wrapping, is_definition_desc,
    is_definition_term, is_numbered_list_item, never_wrapped, numbered_list_item, LinePatterns,
};
use crate::text::{
    concat, find, find_in, indent_of, ink, leading_spaces, lemma_concat_add, lemma_concat_one,
    lemma_ink_add, lemma_ink_of_spaces, lemma_ink_split, lemma_ink_trim, lemma_split, push_all,
    same_chars, spaces, split, split_on, to_chars, to_string, trim_start,
};
use vstd::prelude::*;
use vstd::slice::slice_subrange;

verus! {

/// Width of the text up to and including the first occurrence of `marker`;
/// zero when the marker is not in the text.
pub open spec fn marker_width(text: Seq<char>, marker: Seq<char>) -> int {
    match find(text, marker) {
        Some(at) => at + marker.len(),
        None => 0,
    }
}

/// Extra indentation of the continuation segments of a line whose text,
/// leading whitespace left aside, is `body`, given how the line was
/// classified. A definition description hangs under its marker, and
/// further under the marker of a numbered item when one follows (`nested`);
/// else a numbered item and a definition term hang under their markers.
pub open spec fn hanging_indent(
    body: Seq<char>,
    desc: bool,
    nested: bool,
    numbered: bool,
    term: bool,
) -> int {
    if desc {
        let width = marker_width(body, ":: "@);
        if nested {
            width + marker_width(body.skip(width), ". "@)
        } else {
            width
        }
    } else if numbered {
        marker_width(body, ". "@)
    } else if term {
        marker_width(body, ": "@)
    } else {
        0
    }
}

/// Extra indentation of the continuation segments of a line whose text,
/// leading whitespace left aside, is `body`.
pub open spec fn extra_indent(body: Seq<char>) -> int {
    hanging_indent(
        body,
        definition_desc(body),
        numbered_list_item(body.skip(marker_width(body, ":: "@))),
        numbered_list_item(body),
        definition_term(body),
    )
}

/// Greedy filling. `current` is the segment in progress and `words[next..]`
/// are still to be placed. A word joins the segment, after one space, when
/// the segment stays within `width`; else the segment is closed and a new
/// one starts with `hang` and the word. A segment that is nothing but the
/// bare `indent` is dropped instead of closed.
pub open spec fn fill(
    indent: Seq<char>,
    hang: Seq<char>,
    words: Seq<Seq<char>>,
    next: int,
    current: Seq<char>,
    width: int,
) -> Seq<Seq<char>>
    decreases words.len() - next,
{
    if next < 0 || next >= words.len() {
        seq![current]
    } else if current.len() + 1 + words[next].len() <= width {
        fill(indent, hang, words, next + 1, current + seq![' '] + words[next], width)
    } else if current != indent {
        seq![current] + fill(indent, hang, words, next + 1, hang + words[next], width)
    } else {
        fill(indent, hang, words, next + 1, hang + words[next], width)
    }
}

/// The segments of `line` at the given width, continuation segments
/// indented by `extra` more spaces than the line itself. The words are what
/// stands between single spaces, leading whitespace left aside; the first
/// segment always takes the first word.
pub open spec fn wrapped_with(line: Seq<char>, extra: int, width: int) -> Seq<Seq<char>> {
    let indent = indent_of(line);
    let words = split(trim_start(line), ' ');
    fill(indent, indent + spaces(extra as nat), words, 1, indent + words[0], width)
}

/// The segments of `line` at the given width.
pub open spec fn wrapped_line(line: Seq<char>, width: int) -> Seq<Seq<char>> {
    wrapped_with(line, extra_indent(trim_start(line)), width)
}

/// A logical line is broken only when it is eligible, wider than `width`
/// and not a whole definition term.
pub open spec fn is_wrapped(line: LineView, width: int) -> bool {
    line.contents.len() > width && !never_wrapped(line.contents) && line.should_format
}

/// What one logical line becomes.
pub open spec fn wrapped_one(line: LineView, width: int) -> Seq<Seq<char>> {
    if is_wrapped(line, width) {
        wrapped_line(line.contents, width)
    } else {
        seq![line.contents]
    }
}

/// What a sequence of logical lines becomes: the segments of each, in
/// order.
pub open spec fn wrapped(lines: Seq<LineView>, width: int) -> Seq<Seq<char>>
    decreases lines.len(),
{
    if lines.len() == 0 {
        Seq::empty()
    } else {
        wrapped(lines.drop_last(), width) + wrapped_one(lines.last(), width)
    }
}

/// `segment` holds a single word: it is the line's indent and one word, or
/// the hanging indent and one word.
pub open spec fn lone_word(
    segment: Seq<char>,
    indent: Seq<char>,
    hang: Seq<char>,
    words: Seq<Seq<char>>,
) -> bool {
    exists|k: int|
        0 <= k < words.len() && (segment == indent + #[trigger] words[k] || segment == hang
            + words[k])
}

/// A segment is in order when it fits the width or holds a single word.
pub open spec fn fits_or_lone(
    segment: Seq<char>,
    indent: Seq<char>,
    hang: Seq<char>,
    words: Seq<Seq<char>>,
    width: int,
) -> bool {
    segment.len() <= width || lone_word(segment, indent, hang, words)
}

/// Filling keeps segments in order: when the segment in progress is, so is
/// every segment that comes out.
pub proof fn lemma_fill_fits(
    indent: Seq<char>,
    hang: Seq<char>,
    words: Seq<Seq<char>>,
    next: int,
    current: Seq<char>,
    width: int,
)
    requires
        0 <= next,
        fits_or_lone(current, indent, hang, words, width),
    ensures
        forall|i: int|
            0 <= i < fill(indent, hang, words, next, current, width).len() ==> fits_or_lone(
                #[trigger] fill(indent, hang, words, next, current, width)[i],
                indent,
                hang,
                words,
                width,
            ),
    decreases words.len() - next,
{
    if next < words.len() {
        if current.len() + 1 + words[next].len() <= width {
            let joined = current + seq![' '] + words[next];
            assert(joined.len() <= width);
            lemma_fill_fits(indent, hang, words, next + 1, joined, width);
            assert(fill(indent, hang, words, next, current, width) == fill(
                indent,
                hang,
                words,
                next + 1,
                joined,
                width,
            ));
        } else {
            let started = hang + words[next];
            assert(lone_word(started, indent, hang, words));
            lemma_fill_fits(indent, hang, words, next + 1, started, width);
            let rest = fill(indent, hang, words, next + 1, started, width);
            let all = fill(indent, hang, words, next, current, width);
            assert forall|i: int| 0 <= i < all.len() implies fits_or_lone(
                #[trigger] all[i],
                indent,
                hang,
                words,
                width,
            ) by {
                if current != indent {
                    if i > 0 {
                        assert(all[i] == rest[i - 1]);
                    }
                } else {
                    assert(all[i] == rest[i]);
                }
            }
        }
    } else {
        assert(fill(indent, hang, words, next, current, width) =~= seq![current]);
    }
}

/// The wrap-width law. Every segment of a wrapped line is at most `width`
/// characters long, but for a segment that holds a single word, which is
/// wider only because its indent and that word alone are: no second word
/// is ever added to a segment that is over the width.
pub proof fn lemma_wrapped_segments_fit(line: Seq<char>, extra: int, width: int)
    ensures
        forall|i: int|
            0 <= i < wrapped_with(line, extra, width).len() ==> fits_or_lone(
                #[trigger] wrapped_with(line, extra, width)[i],
                indent_of(line),
                indent_of(line) + spaces(extra as nat),
                split(trim_start(line), ' '),
                width,
            ),
{
    let indent = indent_of(line);
    let hang = indent + spaces(extra as nat);
    let words = split(trim_start(line), ' ');
    lemma_split(trim_start(line), ' ');
    assert(lone_word(indent + words[0], indent, hang, words));
    lemma_fill_fits(indent, hang, words, 1, indent + words[0], width);
}

/// Filling loses no ink: what comes out holds the ink of the segment in
/// progress and of the words still to be placed, in order.
pub proof fn lemma_fill_keeps_ink(
    indent: Seq<char>,
    hang: Seq<char>,
    words: Seq<Seq<char>>,
    next: int,
    current: Seq<char>,
    width: int,
)
    requires
        0 <= next <= words.len(),
        ink(indent) == Seq::<char>::empty(),
        ink(hang) == Seq::<char>::empty(),
    ensures
        ink(concat(fill(indent, hang, words, next, current, width))) == ink(current) + ink(
            concat(words.skip(next)),
        ),
    decreases words.len() - next,
{
    let all = fill(indent, hang, words, next, current, width);
    if next < words.len() {
        let word = words[next];
        let later = words.skip(next + 1);
        assert(words.skip(next) =~= seq![word] + later);
        lemma_concat_add(seq![word], later);
        lemma_concat_one(word);
        lemma_ink_add(word, concat(later));
        if current.len() + 1 + word.len() <= width {
            let joined = current + seq![' '] + word;
            lemma_fill_keeps_ink(indent, hang, words, next + 1, joined, width);
            lemma_ink_add(current + seq![' '], word);
            lemma_ink_add(current, seq![' ']);
            lemma_ink_of_spaces(seq![' ']);
            assert(ink(joined) =~= ink(current) + ink(word));
            assert(ink(concat(all)) =~= ink(current) + ink(concat(words.skip(next)))) by {
                assert(all == fill(indent, hang, words, next + 1, joined, width));
            }
        } else {
            let started = hang + word;
            let rest = fill(indent, hang, words, next + 1, started, width);
            lemma_fill_keeps_ink(indent, hang, words, next + 1, started, width);
            lemma_ink_add(hang, word);
            assert(ink(started) =~= ink(word));
            if current != indent {
                lemma_concat_add(seq![current], rest);
                lemma_concat_one(current);
                lemma_ink_add(current, concat(rest));
                assert(ink(concat(all)) =~= ink(current) + ink(concat(words.skip(next))));
            } else {
                assert(ink(concat(all)) =~= ink(current) + ink(concat(words.skip(next))));
            }
        }
    } else {
        assert(all =~= seq![current]);
        lemma_concat_one(current);
        assert(words.skip(next) =~= Seq::<Seq<char>>::empty());
        assert(concat(Seq::<Seq<char>>::empty()) =~= Seq::<char>::empty());
        lemma_ink_of_spaces(Seq::<char>::empty());
        assert(ink(current) + Seq::<char>::empty() =~= ink(current));
    }
}

/// Wrapping a line moves its words and changes its whitespace, nothing
/// else: the segments, laid end to end, hold the ink of the line.
pub proof fn lemma_wrapped_with_keeps_ink(line: Seq<char>, extra: int, width: int)
    ensures
        ink(concat(wrapped_with(line, extra, width))) == ink(line),
{
    let indent = indent_of(line);
    let pad = spaces(extra as nat);
    let hang = indent + pad;
    let body = trim_start(line);
    let words = split(body, ' ');
    lemma_split(body, ' ');
    lemma_ink_trim(line);
    lemma_ink_of_spaces(pad);
    lemma_ink_add(indent, pad);
    assert(ink(hang) =~= Seq::<char>::empty());
    lemma_fill_keeps_ink(indent, hang, words, 1, indent + words[0], width);
    lemma_ink_add(indent, words[0]);
    assert(ink(indent + words[0]) =~= ink(words[0]));
    assert(words =~= seq![words[0]] + words.skip(1));
    lemma_concat_add(seq![words[0]], words.skip(1));
    lemma_concat_one(words[0]);
    lemma_ink_add(words[0], concat(words.skip(1)));
    lemma_ink_split(body);
}

/// Wrapping a sequence of logical lines keeps their ink.
pub proof fn lemma_wrapped_keeps_ink(lines: Seq<LineView>, width: int)
    ensures
        ink(concat(wrapped(lines, width))) == ink(concat(contents_of(lines))),
    decreases lines.len(),
{
    if lines.len() == 0 {
        assert(contents_of(lines) =~= Seq::<Seq<char>>::empty());
    } else {
        let front = lines.drop_last();
        let last = lines.last();
        lemma_wrapped_keeps_ink(front, width);
        lemma_concat_add(wrapped(front, width), wrapped_one(last, width));
        lemma_ink_add(concat(wrapped(front, width)), concat(wrapped_one(last, width)));
        assert(contents_of(lines) =~= contents_of(front) + seq![last.contents]);
        lemma_concat_add(contents_of(front), seq![last.contents]);
        lemma_concat_one(last.contents);
        lemma_ink_add(concat(contents_of(front)), last.contents);
        if is_wrapped(last, width) {
            lemma_wrapped_with_keeps_ink(
                last.contents,
                extra_indent(trim_start(last.contents)),
                width,
            );
        }
    }
}

/// Each logical line is wrapped by itself: the segments of two runs of
/// logical lines, one after the other, are the segments of the first run
/// and then those of the second.
pub proof fn lemma_wrapped_add(a: Seq<LineView>, b: Seq<LineView>, width: int)
    ensures
        wrapped(a + b, width) == wrapped(a, width) + wrapped(b, width),
    decreases b.len(),
{
    if b.len() == 0 {
        assert(a + b =~= a);
        assert(wrapped(a, width) + wrapped(b, width) =~= wrapped(a, width));
    } else {
        assert((a + b).drop_last() =~= a + b.drop_last());
        assert((a + b).last() == b.last());
        lemma_wrapped_add(a, b.drop_last(), width);
        assert(wrapped(a + b, width) =~= wrapped(a, width) + wrapped(b, width));
    }
}

/// A logical line that is not eligible is handed on as it is.
pub proof fn lemma_wrapped_around(lines: Seq<LineView>, k: int, width: int)
    requires
        0 <= k < lines.len(),
        !lines[k].should_format,
    ensures
        wrapped(lines, width) == wrapped(lines.take(k), width) + seq![lines[k].contents] + wrapped(
            lines.skip(k + 1),
            width,
        ),
{
    let one = seq![lines[k]];
    assert(lines =~= lines.take(k) + one + lines.skip(k + 1));
    lemma_wrapped_add(lines.take(k) + one, lines.skip(k + 1), width);
    lemma_wrapped_add(lines.take(k), one, width);
    assert(one.drop_last() =~= Seq::<LineView>::empty());
    assert(wrapped(Seq::<LineView>::empty(), width) =~= Seq::<Seq<char>>::empty());
    assert(wrapped(one, width) =~= seq![lines[k].contents]);
}

/// Width of the text up to and including the first occurrence of `marker`.
fn marker_end(text: &[char], marker: &[char]) -> (r: usize)
    ensures
        r == marker_width(text@, marker@),
        r <= text.len(),
{
    match find_in(text, marker) {
        Some(at) => at + marker.len(),
        None => 0,
    }
}

/// Extra indentation of the continuation segments of a line, given its
/// text without leading whitespace and how it was classified.
pub fn extra_indent_width(body: &[char], desc: bool, nested: bool, numbered: bool, term: bool) -> (r:
    usize)
    ensures
        r == hanging_indent(body@, desc, nested, numbered, term),
        r <= body.len(),
{
    if desc {
        let marker = to_chars(":: ");
        let width = marker_end(body, marker.as_slice());
        if nested {
            let dot = to_chars(". ");
            let rest = slice_subrange(body, width, body.len());
            width + marker_end(rest, dot.as_slice())
        } else {
            width
        }
    } else if numbered {
        let dot = to_chars(". ");
        marker_end(body, dot.as_slice())
    } else if term {
        let colon = to_chars(": ");
        marker_end(body, colon.as_slice())
    } else {
        0
    }
}

/// Breaks `line` into segments no wider than `column_length`, continuation
/// segments indented by `extra_indent` more spaces than the line itself.
pub fn wrap_with_indent(line: &str, extra_indent: usize, column_length: u8) -> (out: Vec<String>)
    ensures
        string_views(out@) == wrapped_with(line@, extra_indent as int, column_length as int),
        out.len() >= 1,
        forall|i: int|
            0 <= i < out.len() ==> fits_or_lone(
                #[trigger] string_views(out@)[i],
                indent_of(line@),
                indent_of(line@) + spaces(extra_indent as nat),
                split(trim_start(line@), ' '),
                column_length as int,
            ),
{
    let width: usize = column_length as usize;
    let chars = to_chars(line);
    let s = chars.as_slice();
    let indent_len = leading_spaces(s);
    let indent = slice_subrange(s, 0, indent_len);
    let body = slice_subrange(s, indent_len, s.len());
    let words = split_on(body, ' ');
    let ghost word_views = words@.map_values(|p: Vec<char>| p@);

    let mut hang: Vec<char> = Vec::new();
    push_all(&mut hang, indent);
    let mut k: usize = 0;
    assert(hang@ =~= indent@ + spaces(0));
    while k < extra_indent
        invariant
            k <= extra_indent,
            hang@ == indent@ + spaces(k as nat),
        decreases extra_indent - k,
    {
        hang.push(' ');
        assert((indent@ + spaces(k as nat)).push(' ') =~= indent@ + spaces((k + 1) as nat));
        k += 1;
    }

    let mut out: Vec<String> = Vec::new();
    let mut current: Vec<char> = Vec::new();
    push_all(&mut current, indent);
    push_all(&mut current, words[0].as_slice());
    assert(current@ =~= indent@ + word_views[0]);
    let ghost whole = fill(indent@, hang@, word_views, 1, current@, width as int);
    assert(string_views(out@) + whole =~= whole);
    let mut next: usize = 1;
    while next < words.len()
        invariant
            1 <= next <= words.len(),
            word_views == words@.map_values(|p: Vec<char>| p@),
            whole == string_views(out@) + fill(
                indent@,
                hang@,
                word_views,
                next as int,
                current@,
                width as int,
            ),
        decreases words.len() - next,
    {
        let word = words[next].as_slice();
        assert(word@ == word_views[next as int]);
        if current.len() < width && word.len() <= width - 1 - current.len() {
            let ghost head = current@;
            current.push(' ');
            push_all(&mut current, word);
            assert(current@ =~= head + seq![' '] + word@);
        } else {
            if !same_chars(current.as_slice(), indent) {
                let ghost before = string_views(out@);
                out.push(to_string(current.as_slice(), 0, current.len()));
                assert(current@.subrange(0, current.len() as int) =~= current@);
                assert(string_views(out@) =~= before.push(current@));
            }
            current = Vec::new();
            push_all(&mut current, hang.as_slice());
            push_all(&mut current, word);
        }
        next += 1;
    }
    let ghost before = string_views(out@);
    out.push(to_string(current.as_slice(), 0, current.len()));
    proof {
        assert(current@.subrange(0, current.len() as int) =~= current@);
        assert(string_views(out@) =~= before.push(current@));
        assert(whole =~= string_views(out@));
        lemma_wrapped_segments_fit(line@, extra_indent as int, column_length as int);
        let segments = wrapped_with(line@, extra_indent as int, column_length as int);
        assert(string_views(out@) == segments);
        assert forall|i: int| 0 <= i < out.len() implies fits_or_lone(
            #[trigger] string_views(out@)[i],
            indent_of(line@),
            indent_of(line@) + spaces(extra_indent as nat),
            split(trim_start(line@), ' '),
            column_length as int,
        ) by {
            assert(string_views(out@)[i] == segments[i]);
        }
    }
    out
}

/// Breaks a line that is too long into segments, with the indentation that
/// its structure asks for.
pub fn wrap_single_line(patterns: &LinePatterns, line: &str, column_length: u8) -> (out: Vec<String>)
    ensures
        string_views(out@) == wrapped_line(line@, column_length as int),
        out.len() >= 1,
        forall|i: int|
            0 <= i < out.len() ==> fits_or_lone(
                #[trigger] string_views(out@)[i],
                indent_of(line@),
                indent_of(line@) + spaces(extra_indent(trim_start(line@)) as nat),
                split(trim_start(line@), ' '),
                column_length as int,
            ),
{
    let chars = to_chars(line);
    let s = chars.as_slice();
    let indent_len = leading_spaces(s);
    let body = slice_subrange(s, indent_len, s.len());
    let text = to_string(s, indent_len, s.len());
    let desc = is_definition_desc(patterns, text.as_str());
    let mut nested = false;
    let mut numbered = false;
    let mut term = false;
    if desc {
        let marker = to_chars(":: ");
        let width = marker_end(body, marker.as_slice());
        let rest = to_string(body, width, body.len());
        nested = is_numbered_list_item(patterns, rest.as_str());
    } else {
        numbered = is_numbered_list_item(patterns, text.as_str());
        if !numbered {
            term = is_definition_term(patterns, text.as_str());
        }
    }
    let extra = extra_indent_width(body, desc, nested, numbered, term);
    wrap_with_indent(line, extra, column_length)
}

/// Wraps every logical line that is eligible, too long and not exempt; the
/// others are handed on as they are.
pub fn wrap_lines(patterns: &LinePatterns, lines: Vec<OwnedLine>, column_length: u8) -> (out: Vec<
    String,
>)
    ensures
        string_views(out@) == wrapped(owned_views(lines@), column_length as int),
        out.len() >= lines.len(),
{
    let ghost all = owned_views(lines@);
    let width: usize = column_length as usize;
    let mut out: Vec<String> = Vec::new();
    let mut i: usize = 0;
    assert(all.take(0) =~= Seq::empty());
    assert(string_views(out@) =~= Seq::empty());
    while i < lines.len()
        invariant
            i <= lines.len(),
            all == owned_views(lines@),
            width == column_length,
            string_views(out@) == wrapped(all.take(i as int), width as int),
            out.len() >= i,
        decreases lines.len() - i,
    {
        proof {
            let upto = all.take(i + 1);
            assert(upto.drop_last() =~= all.take(i as int));
            assert(upto.last() == lines[i as int]@);
        }
        let line = &lines[i];
        let ghost before = string_views(out@);
        let chars = to_chars(line.contents.as_str());
        if chars.len() <= width || exempt_from_wrapping(patterns, line.contents.as_str())
            || !line.should_format {
            out.push(line.contents.clone());
            assert(string_views(out@) =~= before + seq![line.contents@]);
        } else {
            let mut segments = wrap_single_line(patterns, line.contents.as_str(), column_length);
            let ghost added = string_views(segments@);
            out.append(&mut segments);
            assert(string_views(out@) =~= before + added);
        }
        i += 1;
    }
    assert(all.take(lines.len() as int) =~= all);
    out
}

} // verus!
