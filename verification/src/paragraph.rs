//! Documents that are wrapped already. A paragraph that greedy filling
//! would lay out as it stands is merged and laid out again to the same
//! lines, so reflowing such a document changes nothing.

use crate::line::{contents_of, LineView};
use crate::patterns::{hard_break, never_wrapped, standalone_line, starts_new_line};
use crate::rewrap::{lemma_prepared_keeps_texts, prepared, rewrapped};
use crate::text::{
    indent_of, is_space, lemma_next_sep, lemma_next_sep_unique, lemma_skip_spaces,
    lemma_skip_spaces_unique, lemma_split, lemma_text_end_unique, next_sep, spaces, split, trim,
    trim_start,
};
use crate::unwrap::{joins_previous, merge_step, merged, unwrapped, Merged};
use crate::wrap::{extra_indent, fill, is_wrapped, wrapped, wrapped_one, wrapped_with};
use vstd::prelude::*;

verus! {

/// The pieces with one space between each two.
pub open spec fn join_words(words: Seq<Seq<char>>) -> Seq<char>
    decreases words.len(),
{
    if words.len() == 0 {
        Seq::empty()
    } else if words.len() == 1 {
        words[0]
    } else {
        join_words(words.drop_last()) + seq![' '] + words.last()
    }
}

/// The first word of a text: what stands before its first space.
pub open spec fn first_word(s: Seq<char>) -> Seq<char> {
    s.take(next_sep(s, ' ', 0))
}

/// Nothing but whitespace.
pub open spec fn all_space(s: Seq<char>) -> bool {
    forall|i: int| 0 <= i < s.len() ==> is_space(#[trigger] s[i])
}

/// A text that has something in it and neither starts nor ends with
/// whitespace.
pub open spec fn tidy(s: Seq<char>) -> bool {
    s.len() > 0 && !is_space(s[0]) && !is_space(s.last())
}

/// A text without a space is its own single word.
pub proof fn lemma_split_word(s: Seq<char>)
    requires
        forall|i: int| 0 <= i < s.len() ==> #[trigger] s[i] != ' ',
    ensures
        split(s, ' ') == seq![s],
{
    lemma_next_sep_unique(s, ' ', 0, s.len() as int);
}

/// Splitting two texts joined by a space gives the pieces of the first and
/// then those of the second.
pub proof fn lemma_split_add(a: Seq<char>, b: Seq<char>)
    ensures
        split(a + seq![' '] + b, ' ') == split(a, ' ') + split(b, ' '),
    decreases a.len(),
{
    let s = a + seq![' '] + b;
    let cut = next_sep(a, ' ', 0);
    lemma_next_sep(a, ' ', 0);
    assert forall|i: int| 0 <= i < cut implies #[trigger] s[i] != ' ' by {
        assert(s[i] == a[i]);
    }
    assert(s[cut] == ' ') by {
        if cut < a.len() {
            assert(s[cut] == a[cut]);
        }
    }
    lemma_next_sep_unique(s, ' ', 0, cut);
    assert(s.take(cut) =~= a.take(cut));
    if cut < a.len() {
        let rest = a.skip(cut + 1);
        assert(s.skip(cut + 1) =~= rest + seq![' '] + b);
        lemma_split_add(rest, b);
        assert(split(s, ' ') =~= split(a, ' ') + split(b, ' '));
    } else {
        assert(s.skip(cut + 1) =~= b);
        assert(a.take(cut) =~= a);
        assert(split(s, ' ') =~= split(a, ' ') + split(b, ' '));
    }
}

/// Joining the pieces of a split gives the text back.
pub proof fn lemma_join_split(s: Seq<char>)
    ensures
        join_words(split(s, ' ')) == s,
    decreases s.len(),
{
    let cut = next_sep(s, ' ', 0);
    lemma_next_sep(s, ' ', 0);
    if cut < s.len() {
        let head = s.take(cut);
        let tail = s.skip(cut + 1);
        lemma_join_split(tail);
        lemma_join_front(head, split(tail, ' '));
        lemma_split(tail, ' ');
        assert(s =~= head + seq![' '] + tail);
    }
}

/// Joining a first piece with more pieces puts a space after the first.
pub proof fn lemma_join_front(head: Seq<char>, more: Seq<Seq<char>>)
    requires
        more.len() >= 1,
    ensures
        join_words(seq![head] + more) == head + seq![' '] + join_words(more),
    decreases more.len(),
{
    let all = seq![head] + more;
    assert(all.drop_last() =~= seq![head] + more.drop_last());
    assert(all.last() == more.last());
    if more.len() == 1 {
        assert(all.drop_last() =~= seq![head]);
        assert(join_words(seq![head]) == head);
        assert(join_words(more) == more[0]);
        assert(join_words(all) =~= head + seq![' '] + join_words(more));
    } else {
        lemma_join_front(head, more.drop_last());
        assert(join_words(all) =~= head + seq![' '] + join_words(more));
    }
}

/// One more piece adds a space and the piece; the joined text only grows.
pub proof fn lemma_join_take(words: Seq<Seq<char>>, c: int)
    requires
        1 <= c < words.len(),
    ensures
        join_words(words.take(c + 1)) == join_words(words.take(c)) + seq![' '] + words[c],
{
    assert(words.take(c + 1).drop_last() =~= words.take(c));
}

/// The first pieces joined are no longer than all the pieces joined.
pub proof fn lemma_join_grows(words: Seq<Seq<char>>, c: int)
    requires
        1 <= c <= words.len(),
    ensures
        join_words(words.take(c)).len() <= join_words(words).len(),
    decreases words.len() - c,
{
    if c < words.len() {
        lemma_join_take(words, c);
        lemma_join_grows(words, c + 1);
    } else {
        assert(words.take(c) =~= words);
    }
}

/// A tidy text after a run of whitespace: trimming gives the text, and the
/// run is the indent.
pub proof fn lemma_trim_tidy(prefix: Seq<char>, body: Seq<char>)
    requires
        all_space(prefix),
        tidy(body),
    ensures
        indent_of(prefix + body) == prefix,
        trim_start(prefix + body) == body,
        trim(prefix + body) == body,
{
    let s = prefix + body;
    assert forall|i: int| 0 <= i < prefix.len() implies is_space(#[trigger] s[i]) by {
        assert(s[i] == prefix[i]);
    }
    assert(s[prefix.len() as int] == body[0]);
    lemma_skip_spaces_unique(s, 0, prefix.len() as int);
    assert(s.take(prefix.len() as int) =~= prefix);
    assert(s.skip(prefix.len() as int) =~= body);
    lemma_text_end_unique(body, body.len() as int);
    assert(body.take(body.len() as int) =~= body);
}

/// The words of several texts, text after text.
pub open spec fn all_words(texts: Seq<Seq<char>>) -> Seq<Seq<char>>
    decreases texts.len(),
{
    if texts.len() == 0 {
        Seq::empty()
    } else {
        all_words(texts.drop_last()) + split(texts.last(), ' ')
    }
}

/// The words of several texts start with the words of the first.
pub proof fn lemma_all_words_front(texts: Seq<Seq<char>>)
    requires
        texts.len() >= 1,
    ensures
        all_words(texts) == split(texts[0], ' ') + all_words(texts.drop_first()),
    decreases texts.len(),
{
    if texts.len() == 1 {
        assert(texts.drop_last() =~= Seq::<Seq<char>>::empty());
        assert(texts.drop_first() =~= Seq::<Seq<char>>::empty());
        assert(all_words(Seq::<Seq<char>>::empty()) =~= Seq::<Seq<char>>::empty());
        assert(all_words(texts) =~= split(texts[0], ' ') + all_words(texts.drop_first()));
    } else {
        let front = texts.drop_last();
        lemma_all_words_front(front);
        assert(front.drop_first() =~= texts.drop_first().drop_last());
        assert(texts.drop_first().last() == texts.last());
        assert(all_words(texts) =~= split(texts[0], ' ') + all_words(texts.drop_first()));
    }
}

/// The words of texts joined by single spaces are the words of the texts.
pub proof fn lemma_split_join(texts: Seq<Seq<char>>)
    requires
        texts.len() >= 1,
    ensures
        split(join_words(texts), ' ') == all_words(texts),
    decreases texts.len(),
{
    if texts.len() == 1 {
        assert(texts.drop_last() =~= Seq::<Seq<char>>::empty());
        assert(all_words(Seq::<Seq<char>>::empty()) =~= Seq::<Seq<char>>::empty());
        assert(all_words(texts) =~= split(texts[0], ' '));
    } else {
        lemma_split_join(texts.drop_last());
        lemma_split_add(join_words(texts.drop_last()), texts.last());
    }
}

/// Greedy filling as `fill` does it, told by the words that are left.
pub open spec fn fill_rest(
    indent: Seq<char>,
    hang: Seq<char>,
    rest: Seq<Seq<char>>,
    current: Seq<char>,
    width: int,
) -> Seq<Seq<char>>
    decreases rest.len(),
{
    if rest.len() == 0 {
        seq![current]
    } else if current.len() + 1 + rest[0].len() <= width {
        fill_rest(indent, hang, rest.drop_first(), current + seq![' '] + rest[0], width)
    } else if current != indent {
        seq![current] + fill_rest(indent, hang, rest.drop_first(), hang + rest[0], width)
    } else {
        fill_rest(indent, hang, rest.drop_first(), hang + rest[0], width)
    }
}

/// `fill` looks at the words from `next` on alone.
pub proof fn lemma_fill_rest(
    indent: Seq<char>,
    hang: Seq<char>,
    words: Seq<Seq<char>>,
    next: int,
    current: Seq<char>,
    width: int,
)
    requires
        0 <= next <= words.len(),
    ensures
        fill(indent, hang, words, next, current, width) == fill_rest(
            indent,
            hang,
            words.skip(next),
            current,
            width,
        ),
    decreases words.len() - next,
{
    let rest = words.skip(next);
    if next < words.len() {
        assert(rest[0] == words[next]);
        assert(rest.drop_first() =~= words.skip(next + 1));
        lemma_fill_rest(indent, hang, words, next + 1, current + seq![' '] + words[next], width);
        lemma_fill_rest(indent, hang, words, next + 1, hang + words[next], width);
    }
}

/// Nothing in the text is a space character.
pub open spec fn one_word(s: Seq<char>) -> bool {
    forall|i: int| 0 <= i < s.len() ==> #[trigger] s[i] != ' '
}

/// Within a segment that fits, every word joins: with `c` words of `body`
/// placed, filling goes on to the whole of `body` and then to `more`. A
/// body of one word is whole from the start.
pub proof fn lemma_fill_segment(
    indent: Seq<char>,
    hang: Seq<char>,
    body: Seq<char>,
    c: int,
    more: Seq<Seq<char>>,
    prefix: Seq<char>,
    width: int,
)
    requires
        1 <= c <= split(body, ' ').len(),
        (prefix + body).len() <= width || one_word(body),
    ensures
        fill_rest(
            indent,
            hang,
            split(body, ' ').skip(c) + more,
            prefix + join_words(split(body, ' ').take(c)),
            width,
        ) == fill_rest(indent, hang, more, prefix + body, width),
    decreases split(body, ' ').len() - c,
{
    let words = split(body, ' ');
    let rest = words.skip(c) + more;
    let current = prefix + join_words(words.take(c));
    lemma_join_split(body);
    if one_word(body) {
        lemma_split_word(body);
    }
    if c < words.len() {
        lemma_join_take(words, c);
        lemma_join_grows(words, c + 1);
        assert(rest[0] == words[c]);
        assert(rest.drop_first() =~= words.skip(c + 1) + more);
        assert(current + seq![' '] + words[c] =~= prefix + join_words(words.take(c + 1)));
        lemma_fill_segment(indent, hang, body, c + 1, more, prefix, width);
    } else {
        assert(words.take(c) =~= words);
        assert(rest =~= more);
    }
}

/// A paragraph as it is laid out: the first line is the indent and the
/// first body, each later one the indent, `extra` spaces and its body.
/// `eligible` is the flag of the first line; the later lines of a
/// paragraph are always eligible, else they would not belong to it.
pub struct Paragraph {
    pub eligible: bool,
    pub indent: Seq<char>,
    pub extra: nat,
    pub bodies: Seq<Seq<char>>,
}

impl Paragraph {
    /// What the later lines start with.
    pub open spec fn hang(self) -> Seq<char> {
        self.indent + spaces(self.extra)
    }

    /// The text of line `i`.
    pub open spec fn segment(self, i: int) -> Seq<char> {
        if i == 0 {
            self.indent + self.bodies[0]
        } else {
            self.hang() + self.bodies[i]
        }
    }

    /// The texts of the paragraph's lines.
    pub open spec fn segments(self) -> Seq<Seq<char>> {
        Seq::new(self.bodies.len(), |i: int| self.segment(i))
    }

    /// The paragraph's lines with their flags.
    pub open spec fn lines(self) -> Seq<LineView> {
        Seq::new(
            self.bodies.len(),
            |i: int|
                LineView { should_format: i > 0 || self.eligible, contents: self.segment(i) },
        )
    }

    /// The first `k` lines of the paragraph as one text.
    pub open spec fn text_upto(self, k: int) -> Seq<char> {
        self.indent + join_words(self.bodies.take(k))
    }

    /// The first `k` lines of the paragraph as one logical line: eligible
    /// when the first line is or when something was appended to it.
    pub open spec fn logical_upto(self, k: int) -> LineView {
        LineView { should_format: k > 1 || self.eligible, contents: self.text_upto(k) }
    }

    /// The paragraph as one logical line.
    pub open spec fn logical(self) -> LineView {
        self.logical_upto(self.bodies.len() as int)
    }

    /// Whether the logical line of the paragraph takes more text.
    pub open spec fn open_ended(self) -> bool {
        !standalone_line(trim(self.segment(self.bodies.len() - 1))) && !hard_break(
            self.logical().contents,
        )
    }

    /// The paragraph is laid out as greedy filling lays it out.
    ///
    /// A paragraph of one line is a line that wrapping leaves alone: it is
    /// not eligible, or it fits the width, or it is a whole definition
    /// term, or it holds a single word.
    ///
    /// In a paragraph of several lines every segment fits the width or
    /// holds a single word, the first word of the next segment would not
    /// have fitted on the segment before, the bodies are tidy, the extra
    /// indent is the one that the text asks for, and the lines are such as
    /// are merged: none stands alone, none but the first opens a list item
    /// or a definition, and no line but the last ends on a hard
    /// terminator.
    pub open spec fn well_wrapped(self, width: int) -> bool {
        let m = self.bodies.len() as int;
        &&& m >= 1
        &&& m == 1 ==> !is_wrapped(self.logical(), width) || one_word(trim_start(self.segment(0)))
        &&& m >= 2 ==> {
            &&& all_space(self.indent)
            &&& self.extra == extra_indent(join_words(self.bodies))
            &&& !never_wrapped(self.logical().contents)
            &&& forall|i: int| 0 <= i < m ==> tidy(#[trigger] self.bodies[i])
            &&& forall|i: int|
                0 <= i < m ==> (#[trigger] self.segment(i)).len() <= width || one_word(
                    self.bodies[i],
                )
            &&& forall|i: int|
                0 <= i < m - 1 ==> (#[trigger] self.segment(i)).len() + 1 + first_word(
                    self.bodies[i + 1],
                ).len() > width
            &&& forall|i: int| 0 <= i < m ==> !standalone_line(#[trigger] self.bodies[i])
            &&& forall|i: int| 1 <= i < m ==> !starts_new_line(#[trigger] self.bodies[i])
            &&& forall|k: int| 1 <= k < m ==> !hard_break(#[trigger] self.text_upto(k))
        }
    }
}

/// Filling goes from segment to segment: with segment `i` complete and the
/// words of the later bodies left, what comes out are the segments from
/// `i` on.
pub proof fn lemma_fill_paragraph(p: Paragraph, i: int, width: int)
    requires
        p.bodies.len() >= 2,
        p.well_wrapped(width),
        0 <= i < p.bodies.len(),
    ensures
        fill_rest(
            p.indent,
            p.hang(),
            all_words(p.bodies.skip(i + 1)),
            p.segment(i),
            width,
        ) == p.segments().skip(i),
    decreases p.bodies.len() - i,
{
    let m = p.bodies.len() as int;
    let later = p.bodies.skip(i + 1);
    let rest = all_words(later);
    let current = p.segment(i);
    if i == m - 1 {
        assert(later =~= Seq::<Seq<char>>::empty());
        assert(p.segments().skip(i) =~= seq![current]);
    } else {
        let body = p.bodies[i + 1];
        let words = split(body, ' ');
        lemma_all_words_front(later);
        assert(later[0] == body);
        assert(later.drop_first() =~= p.bodies.skip(i + 2));
        let more = all_words(p.bodies.skip(i + 2));
        lemma_split(body, ' ');
        assert(rest[0] == words[0]);
        lemma_first_word(body);
        assert(tidy(p.bodies[i]));
        assert(current.len() > p.indent.len());
        assert(rest.drop_first() =~= words.skip(1) + more);
        assert(words.take(1) =~= seq![words[0]]);
        assert(join_words(words.take(1)) == words[0]);
        assert(p.segment(i + 1).len() <= width || one_word(p.bodies[i + 1]));
        lemma_fill_segment(p.indent, p.hang(), body, 1, more, p.hang(), width);
        lemma_fill_paragraph(p, i + 1, width);
        assert(p.segments().skip(i) =~= seq![current] + p.segments().skip(i + 1));
    }
}

/// The first piece of a split is the first word.
pub proof fn lemma_first_word(s: Seq<char>)
    ensures
        split(s, ' ')[0] == first_word(s),
{
    lemma_next_sep(s, ' ', 0);
    let cut = next_sep(s, ' ', 0);
    if cut >= s.len() {
        assert(s.take(cut) =~= s);
    }
}

/// A line that holds a single word is wrapped to itself.
pub proof fn lemma_wrapped_word(line: Seq<char>, extra: int, width: int)
    requires
        one_word(trim_start(line)),
    ensures
        wrapped_with(line, extra, width) == seq![line],
{
    let body = trim_start(line);
    lemma_split_word(body);
    lemma_skip_spaces(line, 0);
    assert(indent_of(line) + body =~= line);
}

/// Wrapping the logical line of a well-wrapped paragraph gives the lines
/// of the paragraph.
pub proof fn lemma_wrapped_paragraph(p: Paragraph, width: int)
    requires
        p.well_wrapped(width),
    ensures
        wrapped_one(p.logical(), width) == p.segments(),
{
    let m = p.bodies.len() as int;
    let text = p.logical().contents;
    assert(p.bodies.take(m) =~= p.bodies);
    if m == 1 {
        assert(join_words(p.bodies) == p.bodies[0]);
        assert(p.segments() =~= seq![text]);
        if is_wrapped(p.logical(), width) {
            lemma_wrapped_word(text, extra_indent(trim_start(text)), width);
        }
    } else {
        let joined = join_words(p.bodies);
        let first = p.bodies[0];
        let words = split(joined, ' ');
        let first_words = split(first, ' ');
        let more = all_words(p.bodies.skip(1));
        assert(tidy(p.bodies[0]));
        lemma_join_front_tidy(p.bodies);
        lemma_trim_tidy(p.indent, joined);
        lemma_split_join(p.bodies);
        lemma_all_words_front(p.bodies);
        assert(p.bodies.drop_first() =~= p.bodies.skip(1));
        lemma_split(first, ' ');
        assert(words[0] == first_words[0]);
        assert(words.skip(1) =~= first_words.skip(1) + more);
        assert(first_words.take(1) =~= seq![first_words[0]]);
        assert(join_words(first_words.take(1)) == first_words[0]);
        lemma_fill_rest(p.indent, p.hang(), words, 1, p.indent + words[0], width);
        assert(p.segment(0).len() <= width || one_word(p.bodies[0]));
        lemma_fill_segment(p.indent, p.hang(), first, 1, more, p.indent, width);
        lemma_fill_paragraph(p, 0, width);
        assert(p.segments().skip(0) =~= p.segments());
        // The logical line is longer than the width: its second segment
        // starts with a word that did not fit on the first.
        lemma_join_grows(p.bodies, 2);
        lemma_join_take(p.bodies, 1);
        assert(p.bodies.take(1) =~= seq![p.bodies[0]]);
        assert(join_words(p.bodies.take(1)) == p.bodies[0]);
        lemma_next_sep(p.bodies[1], ' ', 0);
        assert(p.segment(0).len() + 1 + first_word(p.bodies[1]).len() > width);
        assert(text.len() > width);
    }
}

/// Tidy texts joined by spaces make a tidy text.
pub proof fn lemma_join_front_tidy(texts: Seq<Seq<char>>)
    requires
        texts.len() >= 1,
        forall|i: int| 0 <= i < texts.len() ==> tidy(#[trigger] texts[i]),
    ensures
        tidy(join_words(texts)),
        join_words(texts)[0] == texts[0][0],
    decreases texts.len(),
{
    if texts.len() > 1 {
        let front = texts.drop_last();
        assert forall|i: int| 0 <= i < front.len() implies tidy(#[trigger] front[i]) by {
            assert(front[i] == texts[i]);
        }
        lemma_join_front_tidy(front);
        assert(tidy(texts[texts.len() - 1]));
        let joined = join_words(texts);
        assert(joined[0] == join_words(front)[0]);
        assert(joined.last() == texts.last().last());
    } else {
        assert(tidy(texts[0]));
    }
}

/// The state of unwrapping after more lines, from a given state.
pub open spec fn merged_from(acc: Merged, lines: Seq<LineView>) -> Merged
    decreases lines.len(),
{
    if lines.len() == 0 {
        acc
    } else {
        merge_step(merged_from(acc, lines.drop_last()), lines.last())
    }
}

/// Unwrapping two runs of lines goes on from the state after the first.
pub proof fn lemma_merged_add(a: Seq<LineView>, b: Seq<LineView>)
    ensures
        merged(a + b) == merged_from(merged(a), b),
    decreases b.len(),
{
    if b.len() == 0 {
        assert(a + b =~= a);
    } else {
        assert((a + b).drop_last() =~= a + b.drop_last());
        assert((a + b).last() == b.last());
        lemma_merged_add(a, b.drop_last());
    }
}

/// The first line of `p` starts a logical line of its own after `acc`.
pub open spec fn starts_apart(acc: Merged, p: Paragraph) -> bool {
    let first = p.lines()[0];
    !joins_previous(
        acc.lines,
        acc.smushable,
        first,
        standalone_line(trim(first.contents)),
        starts_new_line(trim(first.contents)),
    )
}

/// The first `k` lines of a well-wrapped paragraph are merged into one
/// logical line.
pub proof fn lemma_paragraph_merges(acc: Merged, p: Paragraph, k: int, width: int)
    requires
        p.well_wrapped(width),
        starts_apart(acc, p),
        1 <= k <= p.bodies.len(),
    ensures
        merged_from(acc, p.lines().take(k)) == (Merged {
            lines: acc.lines.push(p.logical_upto(k)),
            smushable: !standalone_line(trim(p.segment(k - 1))) && !hard_break(p.text_upto(k)),
        }),
    decreases k,
{
    let lines = p.lines().take(k);
    let line = p.lines()[k - 1];
    assert(lines.last() == line);
    assert(lines.drop_last() =~= p.lines().take(k - 1));
    if k == 1 {
        assert(p.bodies.take(1) =~= seq![p.bodies[0]]);
        assert(join_words(p.bodies.take(1)) == p.bodies[0]);
        assert(lines.drop_last() =~= Seq::<LineView>::empty());
        assert(merged_from(acc, Seq::<LineView>::empty()) == acc);
    } else {
        lemma_paragraph_merges(acc, p, k - 1, width);
        let before = merged_from(acc, lines.drop_last());
        assert(tidy(p.bodies[k - 1]));
        assert(tidy(p.bodies[k - 2]));
        assert(all_space(p.hang()));
        lemma_trim_tidy(p.hang(), p.bodies[k - 1]);
        if k == 2 {
            lemma_trim_tidy(p.indent, p.bodies[0]);
        } else {
            lemma_trim_tidy(p.hang(), p.bodies[k - 2]);
        }
        assert(!standalone_line(p.bodies[k - 2]));
        assert(!standalone_line(p.bodies[k - 1]));
        assert(!starts_new_line(p.bodies[k - 1]));
        assert(!hard_break(p.text_upto(k - 1)));
        assert(before.smushable);
        lemma_join_take(p.bodies, k - 1);
        assert(p.text_upto(k) =~= p.text_upto(k - 1) + seq![' '] + p.bodies[k - 1]);
        let after = merge_step(before, line);
        assert(after.lines =~= acc.lines.push(p.logical_upto(k)));
    }
}

/// The lines of a document made of the given paragraphs.
pub open spec fn document(paragraphs: Seq<Paragraph>) -> Seq<LineView>
    decreases paragraphs.len(),
{
    if paragraphs.len() == 0 {
        Seq::empty()
    } else {
        document(paragraphs.drop_last()) + paragraphs.last().lines()
    }
}

/// The logical lines of a document made of the given paragraphs: one for
/// each.
pub open spec fn logical_lines(paragraphs: Seq<Paragraph>) -> Seq<LineView> {
    Seq::new(paragraphs.len(), |j: int| paragraphs[j].logical())
}

/// The line that follows paragraph `p` is not appended to it: `p` takes no
/// more text, or the line is not eligible, stands alone or has to start a
/// line of its own.
pub open spec fn breaks_between(p: Paragraph, q: Paragraph) -> bool {
    let first = q.segment(0);
    !p.open_ended() || !q.eligible || standalone_line(trim(first)) || starts_new_line(
        trim(first),
    )
}

/// A document that is wrapped already: every paragraph is well wrapped,
/// and no paragraph runs on into the next.
pub open spec fn well_wrapped_document(paragraphs: Seq<Paragraph>, width: int) -> bool {
    &&& forall|j: int| 0 <= j < paragraphs.len() ==> (#[trigger] paragraphs[j]).well_wrapped(width)
    &&& forall|j: int|
        0 <= j < paragraphs.len() - 1 ==> breaks_between(#[trigger] paragraphs[j], paragraphs[j + 1])
}

/// Unwrapping a well-wrapped document finds its paragraphs.
pub proof fn lemma_document_merges(paragraphs: Seq<Paragraph>, width: int)
    requires
        well_wrapped_document(paragraphs, width),
    ensures
        merged(document(paragraphs)).lines == logical_lines(paragraphs),
        paragraphs.len() > 0 ==> merged(document(paragraphs)).smushable
            == paragraphs.last().open_ended(),
    decreases paragraphs.len(),
{
    if paragraphs.len() == 0 {
        assert(logical_lines(paragraphs) =~= Seq::<LineView>::empty());
    } else {
        let front = paragraphs.drop_last();
        let p = paragraphs.last();
        let m = p.bodies.len() as int;
        assert(p == paragraphs[paragraphs.len() - 1]);
        assert(p.well_wrapped(width));
        assert forall|j: int| 0 <= j < front.len() implies (#[trigger] front[j]).well_wrapped(
            width,
        ) by {
            assert(front[j] == paragraphs[j]);
        }
        assert forall|j: int| 0 <= j < front.len() - 1 implies breaks_between(
            #[trigger] front[j],
            front[j + 1],
        ) by {
            assert(front[j] == paragraphs[j]);
            assert(front[j + 1] == paragraphs[j + 1]);
        }
        lemma_document_merges(front, width);
        let head = document(front);
        let tail = p.lines();
        lemma_merged_add(head, tail);
        let acc = merged(head);
        if front.len() > 0 {
            assert(front.last() == paragraphs[paragraphs.len() - 2]);
            assert(breaks_between(paragraphs[paragraphs.len() - 2], paragraphs[paragraphs.len() - 1]));
        }
        assert(starts_apart(acc, p));
        assert(p.lines().take(m) =~= p.lines());
        lemma_paragraph_merges(acc, p, m, width);
        assert(merged(head + tail).lines =~= logical_lines(paragraphs));
    }
}

/// Wrapping the paragraphs of a well-wrapped document gives its lines.
pub proof fn lemma_document_wraps(paragraphs: Seq<Paragraph>, width: int)
    requires
        forall|j: int| 0 <= j < paragraphs.len() ==> (#[trigger] paragraphs[j]).well_wrapped(width),
    ensures
        wrapped(logical_lines(paragraphs), width) == contents_of(document(paragraphs)),
    decreases paragraphs.len(),
{
    if paragraphs.len() == 0 {
        assert(logical_lines(paragraphs) =~= Seq::<LineView>::empty());
        assert(contents_of(document(paragraphs)) =~= Seq::<Seq<char>>::empty());
    } else {
        let front = paragraphs.drop_last();
        let p = paragraphs.last();
        assert(p == paragraphs[paragraphs.len() - 1]);
        assert forall|j: int| 0 <= j < front.len() implies (#[trigger] front[j]).well_wrapped(
            width,
        ) by {
            assert(front[j] == paragraphs[j]);
        }
        lemma_document_wraps(front, width);
        lemma_wrapped_paragraph(p, width);
        assert(logical_lines(paragraphs).drop_last() =~= logical_lines(front));
        assert(contents_of(document(paragraphs)) =~= contents_of(document(front)) + p.segments());
    }
}

/// Unwrapping and wrapping are idempotent on what is wrapped already.
/// Take a document whose paragraphs are well wrapped at the given width,
/// none running on into the next. Unwrapping it and wrapping it again
/// gives the document back, line for line.
pub proof fn lemma_well_wrapped_is_reproduced(paragraphs: Seq<Paragraph>, width: int)
    requires
        well_wrapped_document(paragraphs, width),
    ensures
        wrapped(unwrapped(document(paragraphs)), width) == contents_of(document(paragraphs)),
{
    lemma_document_merges(paragraphs, width);
    lemma_document_wraps(paragraphs, width);
}

/// Reflowing is idempotent on what is wrapped already. Take a document
/// that goes into unwrapping as well-wrapped paragraphs, none running on
/// into the next; one that is eligible as a whole and holds no exempt
/// block is such a document when its paragraphs are eligible throughout.
/// Reflowing it gives the document back, line for line.
pub proof fn lemma_rewrap_is_idempotent(
    lines: Seq<LineView>,
    paragraphs: Seq<Paragraph>,
    width: int,
)
    requires
        prepared(lines) == document(paragraphs),
        well_wrapped_document(paragraphs, width),
    ensures
        rewrapped(lines, width) == contents_of(lines),
{
    lemma_well_wrapped_is_reproduced(paragraphs, width);
    lemma_prepared_keeps_texts(lines);
}

} // verus!
