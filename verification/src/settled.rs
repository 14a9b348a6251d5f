//! What wrapping gives is wrapped already. The segments of a line whose
//! words are clean are laid out as a well-wrapped paragraph is, so a
//! document that was reflowed once is reproduced when it is reflowed again,
//! wherever its lines are classified the second time as they were merged
//! the first time.

use crate::line::{contents_of, LineView};
use crate::paragraph::{
    all_space, breaks_between, document, first_word, join_words, lemma_join_front,
    lemma_join_split, lemma_trim_tidy, lemma_well_wrapped_is_reproduced, one_word, tidy,
    well_wrapped_document, Paragraph,
};
use crate::patterns::{hard_break, never_wrapped, standalone_line, starts_new_line};
use crate::rewrap::uniform_lines;
use crate::text::{
    indent_of, is_space, lemma_find, lemma_next_sep_unique, lemma_skip_spaces, lemma_split, split,
    trim_start,
};
use crate::unwrap::unwrapped;
use crate::wrap::{
    extra_indent, fill, is_wrapped, marker_width, wrapped, wrapped_line, wrapped_one,
};
use vstd::prelude::*;

verus! {

/// A word that has something in it and no whitespace.
pub open spec fn clean_word(word: Seq<char>) -> bool {
    word.len() > 0 && forall|i: int| 0 <= i < word.len() ==> !is_space(#[trigger] word[i])
}

/// Words that are all clean: the text they come from has single spaces
/// between its words and no other whitespace.
pub open spec fn clean_words(words: Seq<Seq<char>>) -> bool {
    forall|k: int| 0 <= k < words.len() ==> clean_word(#[trigger] words[k])
}

/// Greedy filling told by the bodies of the segments, indents left aside.
/// `body` is the body in progress, after a prefix of `prefix_len`
/// characters; later bodies stand after `hang_len` characters.
pub open spec fn bodies_from(
    words: Seq<Seq<char>>,
    next: int,
    body: Seq<char>,
    prefix_len: int,
    hang_len: int,
    width: int,
) -> Seq<Seq<char>>
    decreases words.len() - next,
{
    if next < 0 || next >= words.len() {
        seq![body]
    } else if prefix_len + body.len() + 1 + words[next].len() <= width {
        bodies_from(words, next + 1, body + seq![' '] + words[next], prefix_len, hang_len, width)
    } else {
        seq![body] + bodies_from(words, next + 1, words[next], hang_len, hang_len, width)
    }
}

/// The segments with the given bodies: the first after `first`, the others
/// after `hang`.
pub open spec fn prefixed(bodies: Seq<Seq<char>>, first: Seq<char>, hang: Seq<char>) -> Seq<
    Seq<char>,
> {
    Seq::new(
        bodies.len(),
        |i: int|
            if i == 0 {
                first + bodies[0]
            } else {
                hang + bodies[i]
            },
    )
}

/// With clean words no segment is ever dropped, and `fill` gives the
/// bodies of `bodies_from` behind their prefixes.
pub proof fn lemma_fill_bodies(
    indent: Seq<char>,
    hang: Seq<char>,
    words: Seq<Seq<char>>,
    next: int,
    prefix: Seq<char>,
    body: Seq<char>,
    width: int,
)
    requires
        0 <= next,
        clean_words(words),
        body.len() > 0,
        prefix.len() >= indent.len(),
        hang.len() >= indent.len(),
    ensures
        fill(indent, hang, words, next, prefix + body, width) == prefixed(
            bodies_from(words, next, body, prefix.len() as int, hang.len() as int, width),
            prefix,
            hang,
        ),
    decreases words.len() - next,
{
    let current = prefix + body;
    let bodies = bodies_from(words, next, body, prefix.len() as int, hang.len() as int, width);
    if next < words.len() {
        let word = words[next];
        assert(clean_word(word));
        if current.len() + 1 + word.len() <= width {
            let grown = body + seq![' '] + word;
            lemma_fill_bodies(indent, hang, words, next + 1, prefix, grown, width);
            assert(current + seq![' '] + word =~= prefix + grown);
        } else {
            lemma_fill_bodies(indent, hang, words, next + 1, hang, word, width);
            let rest = bodies_from(words, next + 1, word, hang.len() as int, hang.len() as int, width);
            assert(current != indent);
            assert(fill(indent, hang, words, next, current, width) =~= prefixed(
                bodies,
                prefix,
                hang,
            )) by {
                let tail = prefixed(rest, hang, hang);
                let all = prefixed(bodies, prefix, hang);
                assert(all.len() == tail.len() + 1);
                assert forall|i: int| 0 <= i < all.len() implies all[i] == (seq![current]
                    + tail)[i] by {
                    if i > 0 {
                        assert(bodies[i] == rest[i - 1]);
                    }
                }
            }
        }
    } else {
        assert(fill(indent, hang, words, next, current, width) =~= prefixed(bodies, prefix, hang));
    }
}

/// How many characters stand before body `i`.
pub open spec fn prefix_len_at(i: int, first_len: int, hang_len: int) -> int {
    if i == 0 {
        first_len
    } else {
        hang_len
    }
}

/// The bodies are laid out as greedy filling lays them out: each is tidy,
/// each fits the width behind its prefix or is a single word, and the first
/// word of each would not have fitted on the segment before.
pub open spec fn laid_out(bodies: Seq<Seq<char>>, first_len: int, hang_len: int, width: int) -> bool {
    &&& bodies.len() >= 1
    &&& forall|i: int| 0 <= i < bodies.len() ==> tidy(#[trigger] bodies[i])
    &&& forall|i: int|
        0 <= i < bodies.len() ==> prefix_len_at(i, first_len, hang_len) + (
        #[trigger] bodies[i]).len() <= width || one_word(bodies[i])
    &&& forall|i: int|
        0 <= i < bodies.len() - 1 ==> prefix_len_at(i, first_len, hang_len) + (
        #[trigger] bodies[i]).len() + 1 + first_word(bodies[i + 1]).len() > width
}

/// `text` begins with `head`, and a space follows where more follows.
pub open spec fn begins_with_word(text: Seq<char>, head: Seq<char>) -> bool {
    text == head || (text.len() > head.len() && text.take(head.len() as int) == head
        && text[head.len() as int] == ' ')
}

/// A text that begins with a word has that word as its first word.
pub proof fn lemma_first_word_of(text: Seq<char>, head: Seq<char>)
    requires
        clean_word(head),
        begins_with_word(text, head),
    ensures
        first_word(text) == head,
{
    assert forall|i: int| 0 <= i < head.len() implies #[trigger] text[i] != ' ' by {
        if text != head {
            assert(text.take(head.len() as int)[i] == text[i]);
        }
        assert(!is_space(head[i]));
    }
    lemma_next_sep_unique(text, ' ', 0, head.len() as int);
    if text == head {
        assert(text.take(head.len() as int) =~= head);
    }
}

/// Greedy filling lays clean words out: the bodies that come out are laid
/// out, and the first of them begins with the body in progress.
pub proof fn lemma_bodies_laid_out(
    words: Seq<Seq<char>>,
    next: int,
    body: Seq<char>,
    prefix_len: int,
    hang_len: int,
    width: int,
)
    requires
        0 <= next,
        clean_words(words),
        tidy(body),
        prefix_len + body.len() <= width || one_word(body),
    ensures
        laid_out(bodies_from(words, next, body, prefix_len, hang_len, width), prefix_len, hang_len, width),
        begins_with_word(bodies_from(words, next, body, prefix_len, hang_len, width)[0], body),
    decreases words.len() - next,
{
    let bodies = bodies_from(words, next, body, prefix_len, hang_len, width);
    if next < words.len() {
        let word = words[next];
        assert(clean_word(word));
        assert(tidy(word));
        assert(one_word(word)) by {
            assert forall|i: int| 0 <= i < word.len() implies #[trigger] word[i] != ' ' by {
                assert(!is_space(word[i]));
            }
        }
        if prefix_len + body.len() + 1 + word.len() <= width {
            let grown = body + seq![' '] + word;
            assert(tidy(grown)) by {
                assert(grown[0] == body[0]);
                assert(grown.last() == word.last());
            }
            lemma_bodies_laid_out(words, next + 1, grown, prefix_len, hang_len, width);
            let first = bodies[0];
            assert(begins_with_word(first, body)) by {
                if first == grown {
                    assert(grown.take(body.len() as int) =~= body);
                } else {
                    assert(first.take(body.len() as int) =~= first.take(grown.len() as int).take(
                        body.len() as int,
                    ));
                    assert(grown.take(body.len() as int) =~= body);
                    assert(first.take(grown.len() as int)[body.len() as int] == first[body.len() as int]);
                }
                assert(grown[body.len() as int] == ' ');
            }
        } else {
            let rest = bodies_from(words, next + 1, word, hang_len, hang_len, width);
            lemma_bodies_laid_out(words, next + 1, word, hang_len, hang_len, width);
            lemma_first_word_of(rest[0], word);
            assert(bodies =~= seq![body] + rest);
            assert forall|i: int| 0 <= i < bodies.len() implies tidy(#[trigger] bodies[i]) by {
                if i > 0 {
                    assert(bodies[i] == rest[i - 1]);
                }
            }
            assert forall|i: int| 0 <= i < bodies.len() implies prefix_len_at(
                i,
                prefix_len,
                hang_len,
            ) + (#[trigger] bodies[i]).len() <= width || one_word(bodies[i]) by {
                if i > 0 {
                    assert(bodies[i] == rest[i - 1]);
                    assert(prefix_len_at(i - 1, hang_len, hang_len) == hang_len);
                }
            }
            assert forall|i: int| 0 <= i < bodies.len() - 1 implies prefix_len_at(
                i,
                prefix_len,
                hang_len,
            ) + (#[trigger] bodies[i]).len() + 1 + first_word(bodies[i + 1]).len() > width by {
                assert(bodies[i + 1] == rest[i]);
                if i > 0 {
                    assert(bodies[i] == rest[i - 1]);
                    assert(prefix_len_at(i - 1, hang_len, hang_len) == hang_len);
                }
            }
        }
    }
}

/// The bodies that come out, joined by spaces, are the body in progress
/// and the words that were left, joined by spaces.
pub proof fn lemma_bodies_join(
    words: Seq<Seq<char>>,
    next: int,
    body: Seq<char>,
    prefix_len: int,
    hang_len: int,
    width: int,
)
    requires
        0 <= next <= words.len(),
    ensures
        join_words(bodies_from(words, next, body, prefix_len, hang_len, width)) == join_words(
            seq![body] + words.skip(next),
        ),
    decreases words.len() - next,
{
    let bodies = bodies_from(words, next, body, prefix_len, hang_len, width);
    if next < words.len() {
        let word = words[next];
        let later = words.skip(next + 1);
        assert(words.skip(next) =~= seq![word] + later);
        assert(seq![body] + words.skip(next) =~= seq![body] + (seq![word] + later));
        lemma_join_front(body, seq![word] + later);
        if prefix_len + body.len() + 1 + word.len() <= width {
            let grown = body + seq![' '] + word;
            lemma_bodies_join(words, next + 1, grown, prefix_len, hang_len, width);
            if later.len() > 0 {
                lemma_join_front(grown, later);
                lemma_join_front(word, later);
                assert(join_words(seq![grown] + later) =~= join_words(seq![body] + words.skip(next)));
            } else {
                assert(seq![grown] + later =~= seq![grown]);
                assert(seq![word] + later =~= seq![word]);
                assert(join_words(seq![grown]) == grown);
                assert(join_words(seq![word]) == word);
            }
        } else {
            let rest = bodies_from(words, next + 1, word, hang_len, hang_len, width);
            lemma_bodies_join(words, next + 1, word, hang_len, hang_len, width);
            lemma_join_front(body, rest);
        }
    } else {
        assert(words.skip(next) =~= Seq::<Seq<char>>::empty());
        assert(seq![body] + words.skip(next) =~= seq![body]);
    }
}

/// The words of a line: what stands between single spaces, leading
/// whitespace left aside.
pub open spec fn words_of(line: Seq<char>) -> Seq<Seq<char>> {
    split(trim_start(line), ' ')
}

/// The paragraph that wrapping makes of a line.
pub open spec fn paragraph_of(line: Seq<char>, width: int) -> Paragraph {
    let indent = indent_of(line);
    let extra = extra_indent(trim_start(line)) as nat;
    let words = words_of(line);
    Paragraph {
        eligible: true,
        indent,
        extra,
        bodies: bodies_from(
            words,
            1,
            words[0],
            indent.len() as int,
            (indent.len() + extra) as int,
            width,
        ),
    }
}

/// An extra indent is never negative.
pub proof fn lemma_extra_indent(body: Seq<char>)
    ensures
        extra_indent(body) >= 0,
{
    let after = body.skip(marker_width(body, ":: "@));
    lemma_find(body, ":: "@);
    lemma_find(body, ". "@);
    lemma_find(body, ": "@);
    lemma_find(after, ". "@);
}

/// The paragraph that wrapping makes of a line with clean words has the
/// segments of the line as its lines and the line as its text, and it is
/// laid out as greedy filling lays it out.
pub proof fn lemma_paragraph_of(line: Seq<char>, width: int)
    requires
        clean_words(words_of(line)),
    ensures
        paragraph_of(line, width).segments() == wrapped_line(line, width),
        paragraph_of(line, width).logical().contents == line,
        join_words(paragraph_of(line, width).bodies) == trim_start(line),
        all_space(paragraph_of(line, width).indent),
        laid_out(
            paragraph_of(line, width).bodies,
            paragraph_of(line, width).indent.len() as int,
            paragraph_of(line, width).hang().len() as int,
            width,
        ),
{
    let p = paragraph_of(line, width);
    let indent = p.indent;
    let hang = p.hang();
    let words = words_of(line);
    let body = trim_start(line);
    lemma_split(body, ' ');
    lemma_skip_spaces(line, 0);
    assert(clean_word(words[0]));
    assert(all_space(indent)) by {
        assert forall|i: int| 0 <= i < indent.len() implies is_space(#[trigger] indent[i]) by {
            assert(indent[i] == line[i]);
        }
    }
    assert(one_word(words[0])) by {
        assert forall|i: int| 0 <= i < words[0].len() implies #[trigger] words[0][i] != ' ' by {
            assert(!is_space(words[0][i]));
        }
    }
    lemma_fill_bodies(indent, hang, words, 1, indent, words[0], width);
    assert(p.segments() =~= prefixed(p.bodies, indent, hang));
    lemma_bodies_laid_out(words, 1, words[0], indent.len() as int, hang.len() as int, width);
    lemma_bodies_join(words, 1, words[0], indent.len() as int, hang.len() as int, width);
    assert(seq![words[0]] + words.skip(1) =~= words);
    lemma_join_split(body);
    assert(p.bodies.take(p.bodies.len() as int) =~= p.bodies);
    assert(indent + body =~= line);
}

/// The lines of the paragraph are such as are merged again: the text is
/// no whole definition term, no line stands alone, none but the first
/// opens a list item or a definition, and no line but the last ends on a
/// hard terminator.
pub open spec fn merges_back(p: Paragraph) -> bool {
    let m = p.bodies.len() as int;
    &&& !never_wrapped(p.logical().contents)
    &&& forall|i: int| 0 <= i < m ==> !standalone_line(#[trigger] p.bodies[i])
    &&& forall|i: int| 1 <= i < m ==> !starts_new_line(#[trigger] p.bodies[i])
    &&& forall|k: int| 1 <= k < m ==> !hard_break(#[trigger] p.text_upto(k))
}

/// A paragraph that is laid out and whose lines merge again is well
/// wrapped.
pub proof fn lemma_laid_out_is_well_wrapped(p: Paragraph, width: int)
    requires
        all_space(p.indent),
        laid_out(p.bodies, p.indent.len() as int, p.hang().len() as int, width),
        p.bodies.len() >= 2 ==> p.extra == extra_indent(join_words(p.bodies)) && merges_back(p),
    ensures
        p.well_wrapped(width),
{
    let m = p.bodies.len() as int;
    assert(tidy(p.bodies[0]));
    if m == 1 {
        lemma_trim_tidy(p.indent, p.bodies[0]);
        assert(p.bodies.take(1) =~= p.bodies);
        assert(join_words(p.bodies) == p.bodies[0]);
        assert(prefix_len_at(0, p.indent.len() as int, p.hang().len() as int) + p.bodies[0].len()
            <= width || one_word(p.bodies[0]));
    } else {
        assert forall|i: int| 0 <= i < m implies (#[trigger] p.segment(i)).len() <= width
            || one_word(p.bodies[i]) by {
            assert(prefix_len_at(i, p.indent.len() as int, p.hang().len() as int)
                + p.bodies[i].len() <= width || one_word(p.bodies[i]));
        }
        assert forall|i: int| 0 <= i < m - 1 implies (#[trigger] p.segment(i)).len() + 1
            + first_word(p.bodies[i + 1]).len() > width by {
            assert(prefix_len_at(i, p.indent.len() as int, p.hang().len() as int)
                + p.bodies[i].len() + 1 + first_word(p.bodies[i + 1]).len() > width);
        }
    }
}

/// The first line of a paragraph as a paragraph of its own.
pub open spec fn head_of(p: Paragraph) -> Paragraph {
    Paragraph { eligible: true, indent: p.indent, extra: 0, bodies: seq![p.bodies[0]] }
}

/// The later lines of a paragraph as a paragraph of their own.
pub open spec fn tail_of(p: Paragraph) -> Paragraph {
    Paragraph { eligible: true, indent: p.hang(), extra: 0, bodies: p.bodies.skip(1) }
}

/// The first segment ends on a hard terminator, as that of a numbered
/// item or of a definition term does: the later segments are not appended
/// to it again.
pub open spec fn breaks_after_first(p: Paragraph) -> bool {
    p.bodies.len() >= 2 && hard_break(p.segment(0))
}

/// A line as a paragraph of one line.
pub open spec fn single(text: Seq<char>) -> Paragraph {
    Paragraph { eligible: true, indent: Seq::empty(), extra: 0, bodies: seq![text] }
}

/// The paragraphs that the segments of a logical line make when they are
/// unwrapped again: the line itself where it is not broken; else its
/// segments, in one paragraph or, where the first segment ends on a hard
/// terminator, in two.
pub open spec fn pieces(line: LineView, width: int) -> Seq<Paragraph> {
    if !is_wrapped(line, width) {
        seq![single(line.contents)]
    } else {
        let p = paragraph_of(line.contents, width);
        if breaks_after_first(p) {
            seq![head_of(p), tail_of(p)]
        } else {
            seq![p]
        }
    }
}

/// The segments of a logical line are taken the second time as they were
/// laid out the first time. Nothing is asked of a line that is not broken.
/// A line that is broken has clean words, and its segments, those after
/// the first where the first ends on a hard terminator, are such as are
/// merged again and ask for no other indent than they have.
pub open spec fn settles(line: LineView, width: int) -> bool {
    is_wrapped(line, width) ==> {
        let p = paragraph_of(line.contents, width);
        let t = tail_of(p);
        &&& clean_words(words_of(line.contents))
        &&& if breaks_after_first(p) {
            t.bodies.len() >= 2 ==> extra_indent(join_words(t.bodies)) == 0 && merges_back(t)
        } else {
            p.bodies.len() >= 2 ==> merges_back(p)
        }
    }
}

/// The lines of two runs of paragraphs, one after the other.
pub proof fn lemma_document_add(a: Seq<Paragraph>, b: Seq<Paragraph>)
    ensures
        document(a + b) == document(a) + document(b),
    decreases b.len(),
{
    if b.len() == 0 {
        assert(a + b =~= a);
        assert(document(a) + document(b) =~= document(a));
    } else {
        assert((a + b).drop_last() =~= a + b.drop_last());
        assert((a + b).last() == b.last());
        lemma_document_add(a, b.drop_last());
        assert(document(a + b) =~= document(a) + document(b));
    }
}

/// The lines of a single paragraph.
pub proof fn lemma_document_one(p: Paragraph)
    ensures
        document(seq![p]) == p.lines(),
{
    assert(seq![p].drop_last() =~= Seq::<Paragraph>::empty());
    assert(document(Seq::<Paragraph>::empty()) =~= Seq::<LineView>::empty());
    assert(document(seq![p]) =~= p.lines());
}

/// The pieces of a logical line that settles are well wrapped, none runs
/// on into the next, and their lines are the segments of the line.
pub proof fn lemma_pieces(line: LineView, width: int)
    requires
        line.should_format,
        settles(line, width),
    ensures
        pieces(line, width).len() >= 1,
        well_wrapped_document(pieces(line, width), width),
        document(pieces(line, width)) == uniform_lines(wrapped_one(line, width), true),
{
    let ps = pieces(line, width);
    if !is_wrapped(line, width) {
        let p = single(line.contents);
        assert(p.bodies.take(1) =~= p.bodies);
        assert(join_words(p.bodies) == line.contents);
        assert(p.logical().contents =~= line.contents);
        assert(p.logical() == line);
        lemma_document_one(p);
        assert(p.segment(0) =~= line.contents);
        assert(p.lines() =~= uniform_lines(seq![line.contents], true));
    } else {
        let p = paragraph_of(line.contents, width);
        let m = p.bodies.len() as int;
        lemma_paragraph_of(line.contents, width);
        assert(p.lines() =~= uniform_lines(p.segments(), true));
        if breaks_after_first(p) {
            let h = head_of(p);
            let t = tail_of(p);
            assert(tidy(p.bodies[0]));
            assert(prefix_len_at(0, p.indent.len() as int, p.hang().len() as int)
                + p.bodies[0].len() <= width || one_word(p.bodies[0]));
            assert(laid_out(h.bodies, h.indent.len() as int, h.hang().len() as int, width));
            lemma_laid_out_is_well_wrapped(h, width);
            assert(all_space(t.indent)) by {
                assert forall|i: int| 0 <= i < t.indent.len() implies is_space(
                    #[trigger] t.indent[i],
                ) by {
                    if i < p.indent.len() {
                        assert(t.indent[i] == p.indent[i]);
                    }
                }
            }
            assert(t.hang() =~= p.hang());
            assert(laid_out(t.bodies, t.indent.len() as int, t.hang().len() as int, width)) by {
                let a = p.indent.len() as int;
                let hl = p.hang().len() as int;
                assert forall|i: int| 0 <= i < t.bodies.len() implies tidy(
                    #[trigger] t.bodies[i],
                ) by {
                    assert(tidy(p.bodies[i + 1]));
                }
                assert forall|i: int| 0 <= i < t.bodies.len() implies prefix_len_at(i, hl, hl) + (
                #[trigger] t.bodies[i]).len() <= width || one_word(t.bodies[i]) by {
                    assert(prefix_len_at(i + 1, a, hl) + p.bodies[i + 1].len() <= width
                        || one_word(p.bodies[i + 1]));
                }
                assert forall|i: int| 0 <= i < t.bodies.len() - 1 implies prefix_len_at(i, hl, hl)
                    + (#[trigger] t.bodies[i]).len() + 1 + first_word(t.bodies[i + 1]).len()
                    > width by {
                    assert(t.bodies[i + 1] == p.bodies[i + 2]);
                    assert(prefix_len_at(i + 1, a, hl) + p.bodies[i + 1].len() + 1 + first_word(
                        p.bodies[i + 2],
                    ).len() > width);
                }
            }
            lemma_laid_out_is_well_wrapped(t, width);
            assert(h.bodies.take(1) =~= h.bodies);
            assert(join_words(h.bodies) == p.bodies[0]);
            assert(h.logical().contents == p.segment(0));
            assert(breaks_between(h, t));
            assert(ps =~= seq![h] + seq![t]);
            lemma_document_add(seq![h], seq![t]);
            lemma_document_one(h);
            lemma_document_one(t);
            assert(h.lines() + t.lines() =~= p.lines()) by {
                assert forall|i: int| 0 <= i < p.lines().len() implies (h.lines() + t.lines())[i]
                    == p.lines()[i] by {
                    if i > 0 {
                        assert(t.segment(i - 1) =~= p.segment(i));
                    }
                }
            }
        } else {
            lemma_extra_indent(trim_start(line.contents));
            lemma_laid_out_is_well_wrapped(p, width);
            lemma_document_one(p);
        }
    }
}

/// The paragraphs that the segments of a run of logical lines make.
pub open spec fn all_pieces(lines: Seq<LineView>, width: int) -> Seq<Paragraph>
    decreases lines.len(),
{
    if lines.len() == 0 {
        Seq::empty()
    } else {
        all_pieces(lines.drop_last(), width) + pieces(lines.last(), width)
    }
}

/// A run of logical lines whose segments are taken the second time as
/// they were laid out the first time: every line is eligible and settles,
/// and the first segment of a line is not appended to the last segment of
/// the line before.
pub open spec fn settled(lines: Seq<LineView>, width: int) -> bool {
    &&& forall|j: int| 0 <= j < lines.len() ==> (#[trigger] lines[j]).should_format
    &&& forall|j: int| 0 <= j < lines.len() ==> settles(#[trigger] lines[j], width)
    &&& forall|j: int|
        0 <= j < lines.len() - 1 ==> breaks_between(
            pieces(#[trigger] lines[j], width).last(),
            pieces(lines[j + 1], width)[0],
        )
}

/// Two well-wrapped documents, the first not running on into the second,
/// make a well-wrapped document.
pub proof fn lemma_well_wrapped_add(a: Seq<Paragraph>, b: Seq<Paragraph>, width: int)
    requires
        well_wrapped_document(a, width),
        well_wrapped_document(b, width),
        a.len() > 0 && b.len() > 0 ==> breaks_between(a.last(), b[0]),
    ensures
        well_wrapped_document(a + b, width),
{
    let all = a + b;
    assert forall|j: int| 0 <= j < all.len() implies (#[trigger] all[j]).well_wrapped(width) by {
        if j < a.len() {
            assert(all[j] == a[j]);
        } else {
            assert(all[j] == b[j - a.len()]);
        }
    }
    assert forall|j: int| 0 <= j < all.len() - 1 implies breaks_between(
        #[trigger] all[j],
        all[j + 1],
    ) by {
        if j + 1 < a.len() {
            assert(all[j] == a[j] && all[j + 1] == a[j + 1]);
        } else if j < a.len() {
            assert(all[j] == a.last() && all[j + 1] == b[0]);
        } else {
            assert(all[j] == b[j - a.len()] && all[j + 1] == b[j - a.len() + 1]);
        }
    }
}

/// The segments of settled logical lines make a well-wrapped document.
pub proof fn lemma_all_pieces(lines: Seq<LineView>, width: int)
    requires
        settled(lines, width),
    ensures
        well_wrapped_document(all_pieces(lines, width), width),
        document(all_pieces(lines, width)) == uniform_lines(wrapped(lines, width), true),
        lines.len() > 0 ==> all_pieces(lines, width).len() > 0 && all_pieces(lines, width).last()
            == pieces(lines.last(), width).last(),
    decreases lines.len(),
{
    if lines.len() == 0 {
        assert(document(all_pieces(lines, width)) =~= uniform_lines(wrapped(lines, width), true));
    } else {
        let front = lines.drop_last();
        let last = lines.last();
        let n = lines.len() as int;
        assert(last == lines[n - 1]);
        assert forall|j: int| 0 <= j < front.len() implies (#[trigger] front[j]).should_format
            && settles(front[j], width) by {
            assert(front[j] == lines[j]);
        }
        assert forall|j: int| 0 <= j < front.len() - 1 implies breaks_between(
            pieces(#[trigger] front[j], width).last(),
            pieces(front[j + 1], width)[0],
        ) by {
            assert(front[j] == lines[j]);
            assert(front[j + 1] == lines[j + 1]);
        }
        lemma_all_pieces(front, width);
        lemma_pieces(last, width);
        let a = all_pieces(front, width);
        let b = pieces(last, width);
        if front.len() > 0 {
            assert(front.last() == lines[n - 2]);
            assert(breaks_between(pieces(lines[n - 2], width).last(), pieces(lines[n - 1], width)[0]));
        }
        lemma_well_wrapped_add(a, b, width);
        lemma_document_add(a, b);
        assert(document(a + b) =~= uniform_lines(wrapped(lines, width), true));
        assert((a + b).last() == b.last());
    }
}

/// Wrapping is reproduced. Wrap a run of settled logical lines, take the
/// segments as a document whose lines are all eligible, and unwrap and
/// wrap that document: the segments come out again, line for line.
pub proof fn lemma_wrapped_is_reproduced(lines: Seq<LineView>, width: int)
    requires
        settled(lines, width),
    ensures
        wrapped(unwrapped(uniform_lines(wrapped(lines, width), true)), width) == wrapped(
            lines,
            width,
        ),
{
    lemma_all_pieces(lines, width);
    lemma_well_wrapped_is_reproduced(all_pieces(lines, width), width);
    assert(contents_of(uniform_lines(wrapped(lines, width), true)) =~= wrapped(
        lines,
        width,
    ));
}

/// Unwrapping and wrapping are idempotent. Take a document whose lines are
/// all eligible, and let its logical lines be settled at the given width.
/// Unwrapping and wrapping what unwrapping and wrapping made of the
/// document changes nothing.
pub proof fn lemma_unwrap_wrap_is_idempotent(texts: Seq<Seq<char>>, width: int)
    requires
        settled(unwrapped(uniform_lines(texts, true)), width),
    ensures
        ({
            let once = wrapped(unwrapped(uniform_lines(texts, true)), width);
            wrapped(unwrapped(uniform_lines(once, true)), width) == once
        }),
{
    lemma_wrapped_is_reproduced(unwrapped(uniform_lines(texts, true)), width);
}

} // verus!
