//! Character-sequence primitives that the reflow passes are built from.
//!
//! Every line of a document is modelled as a `Seq<char>`; the executable
//! functions work on `&[char]` and are proved against the definitions here.

use vstd::prelude::*;
use vstd::string::*;

verus! {

/// The characters that count as whitespace: those that Unicode lists as
/// `White_Space`.
pub open spec fn is_space(c: char) -> bool {
    let n = c as u32;
    ||| 0x09 <= n <= 0x0d
    ||| n == 0x20
    ||| n == 0x85
    ||| n == 0xa0
    ||| n == 0x1680
    ||| 0x2000 <= n <= 0x200a
    ||| n == 0x2028
    ||| n == 0x2029
    ||| n == 0x202f
    ||| n == 0x205f
    ||| n == 0x3000
}

/// Index of the first character at or after `from` that is not whitespace
/// (`s.len()` when there is none).
pub open spec fn skip_spaces(s: Seq<char>, from: int) -> int
    decreases s.len() - from,
{
    if 0 <= from < s.len() && is_space(s[from]) {
        skip_spaces(s, from + 1)
    } else {
        from
    }
}

/// Length of the leading run of whitespace.
pub open spec fn indent_len(s: Seq<char>) -> int {
    skip_spaces(s, 0)
}

/// Length of `s` once its trailing run of whitespace is cut off.
pub open spec fn text_end(s: Seq<char>) -> int
    decreases s.len(),
{
    if s.len() > 0 && is_space(s.last()) {
        text_end(s.drop_last())
    } else {
        s.len() as int
    }
}

/// The leading run of whitespace.
pub open spec fn indent_of(s: Seq<char>) -> Seq<char> {
    s.take(indent_len(s))
}

/// `s` without its leading whitespace.
pub open spec fn trim_start(s: Seq<char>) -> Seq<char> {
    s.skip(indent_len(s))
}

/// `s` without its trailing whitespace.
pub open spec fn trim_end(s: Seq<char>) -> Seq<char> {
    s.take(text_end(s))
}

/// `s` without leading and trailing whitespace.
pub open spec fn trim(s: Seq<char>) -> Seq<char> {
    trim_end(trim_start(s))
}

/// A line is blank when nothing but whitespace is on it.
pub open spec fn blank(s: Seq<char>) -> bool {
    trim(s).len() == 0
}

/// `needle` stands in `hay` at index `at`.
pub open spec fn occurs_at(hay: Seq<char>, needle: Seq<char>, at: int) -> bool {
    &&& 0 <= at
    &&& at + needle.len() <= hay.len()
    &&& hay.subrange(at, at + needle.len()) == needle
}

/// `needle` stands somewhere in `hay`.
pub open spec fn contains(hay: Seq<char>, needle: Seq<char>) -> bool {
    exists|at: int| occurs_at(hay, needle, at)
}

/// Index of the first occurrence of `needle` in `hay` at or after `from`.
pub open spec fn find_from(hay: Seq<char>, needle: Seq<char>, from: int) -> Option<int>
    decreases hay.len() + 1 - from,
{
    if from < 0 || from + needle.len() > hay.len() {
        None
    } else if occurs_at(hay, needle, from) {
        Some(from)
    } else {
        find_from(hay, needle, from + 1)
    }
}

/// Index of the first occurrence of `needle` in `hay`.
pub open spec fn find(hay: Seq<char>, needle: Seq<char>) -> Option<int> {
    find_from(hay, needle, 0)
}

/// `s` begins with `prefix`.
pub open spec fn starts_with(s: Seq<char>, prefix: Seq<char>) -> bool {
    occurs_at(s, prefix, 0)
}

/// `s` ends with `suffix`.
pub open spec fn ends_with(s: Seq<char>, suffix: Seq<char>) -> bool {
    occurs_at(s, suffix, s.len() - suffix.len())
}

/// Index of the first `sep` in `s` at or after `from` (`s.len()` when there
/// is none).
pub open spec fn next_sep(s: Seq<char>, sep: char, from: int) -> int
    decreases s.len() - from,
{
    if 0 <= from < s.len() && s[from] != sep {
        next_sep(s, sep, from + 1)
    } else {
        from
    }
}

/// The pieces of `s` between occurrences of `sep`, empty pieces included.
/// There is always at least one piece.
pub open spec fn split(s: Seq<char>, sep: char) -> Seq<Seq<char>>
    decreases s.len(),
{
    let cut = next_sep(s, sep, 0);
    if 0 <= cut < s.len() {
        seq![s.take(cut)] + split(s.skip(cut + 1), sep)
    } else {
        seq![s]
    }
}

/// `n` space characters.
pub open spec fn spaces(n: nat) -> Seq<char> {
    Seq::new(n, |i: int| ' ')
}

/// The pieces laid end to end.
pub open spec fn concat(parts: Seq<Seq<char>>) -> Seq<char>
    decreases parts.len(),
{
    if parts.len() == 0 {
        Seq::empty()
    } else {
        concat(parts.drop_last()) + parts.last()
    }
}

/// What is left of `s` when every whitespace character is taken out.
pub open spec fn ink(s: Seq<char>) -> Seq<char> {
    s.filter(|c: char| !is_space(c))
}

/// `skip_spaces` passes over whitespace and nothing else.
pub proof fn lemma_skip_spaces(s: Seq<char>, from: int)
    requires
        0 <= from <= s.len(),
    ensures
        from <= skip_spaces(s, from) <= s.len(),
        forall|i: int| from <= i < skip_spaces(s, from) ==> is_space(#[trigger] s[i]),
        skip_spaces(s, from) < s.len() ==> !is_space(s[skip_spaces(s, from)]),
    decreases s.len() - from,
{
    if from < s.len() && is_space(s[from]) {
        lemma_skip_spaces(s, from + 1);
    }
}

/// After `text_end` comes whitespace and nothing else, and the character
/// before it is none.
pub proof fn lemma_text_end(s: Seq<char>)
    ensures
        0 <= text_end(s) <= s.len(),
        forall|i: int| text_end(s) <= i < s.len() ==> is_space(#[trigger] s[i]),
        text_end(s) > 0 ==> !is_space(s[text_end(s) - 1]),
    decreases s.len(),
{
    if s.len() > 0 && is_space(s.last()) {
        let t = s.drop_last();
        lemma_text_end(t);
        assert forall|i: int| text_end(s) <= i < s.len() implies is_space(#[trigger] s[i]) by {
            if i < t.len() {
                assert(t[i] == s[i]);
            }
        }
        if text_end(s) > 0 {
            assert(t[text_end(s) - 1] == s[text_end(s) - 1]);
        }
    }
}

/// Any index that bounds a trailing run of whitespace and has a
/// non-whitespace character before it is the end of the text.
pub proof fn lemma_text_end_unique(s: Seq<char>, end: int)
    requires
        0 <= end <= s.len(),
        forall|i: int| end <= i < s.len() ==> is_space(#[trigger] s[i]),
        end > 0 ==> !is_space(s[end - 1]),
    ensures
        text_end(s) == end,
    decreases s.len(),
{
    if s.len() > 0 && is_space(s.last()) {
        assert(end < s.len()) by {
            if end == s.len() {
                assert(!is_space(s[end - 1]));
            }
        }
        let t = s.drop_last();
        assert forall|i: int| end <= i < t.len() implies is_space(#[trigger] t[i]) by {
            assert(t[i] == s[i]);
        }
        lemma_text_end_unique(t, end);
    } else if s.len() > 0 {
        if end < s.len() {
            assert(is_space(s[s.len() - 1]));
        }
    }
}

/// Any index that bounds a leading run of whitespace and has a
/// non-whitespace character at it is where the text starts.
pub proof fn lemma_skip_spaces_unique(s: Seq<char>, from: int, start: int)
    requires
        0 <= from <= start <= s.len(),
        forall|i: int| from <= i < start ==> is_space(#[trigger] s[i]),
        start < s.len() ==> !is_space(s[start]),
    ensures
        skip_spaces(s, from) == start,
    decreases start - from,
{
    if from < start {
        assert(is_space(s[from]));
        lemma_skip_spaces_unique(s, from + 1, start);
    }
}

/// `find` returns the first index at which the needle stands, and `None`
/// exactly when it stands nowhere.
pub proof fn lemma_find_from(hay: Seq<char>, needle: Seq<char>, from: int)
    requires
        0 <= from,
    ensures
        match find_from(hay, needle, from) {
            Some(at) => from <= at && occurs_at(hay, needle, at) && forall|j: int|
                from <= j < at ==> !occurs_at(hay, needle, j),
            None => forall|j: int| from <= j ==> !occurs_at(hay, needle, j),
        },
    decreases hay.len() + 1 - from,
{
    if from + needle.len() > hay.len() {
    } else if occurs_at(hay, needle, from) {
    } else {
        lemma_find_from(hay, needle, from + 1);
    }
}

/// `find` is `Some` exactly when the needle stands somewhere, and then
/// gives the first place where it does.
pub proof fn lemma_find(hay: Seq<char>, needle: Seq<char>)
    ensures
        find(hay, needle) is Some <==> contains(hay, needle),
        match find(hay, needle) {
            Some(at) => occurs_at(hay, needle, at) && forall|j: int|
                j < at ==> !occurs_at(hay, needle, j),
            None => true,
        },
{
    lemma_find_from(hay, needle, 0);
}

/// `next_sep` passes over everything but the separator.
pub proof fn lemma_next_sep(s: Seq<char>, sep: char, from: int)
    requires
        0 <= from <= s.len(),
    ensures
        from <= next_sep(s, sep, from) <= s.len(),
        forall|i: int| from <= i < next_sep(s, sep, from) ==> #[trigger] s[i] != sep,
        next_sep(s, sep, from) < s.len() ==> s[next_sep(s, sep, from)] == sep,
    decreases s.len() - from,
{
    if from < s.len() && s[from] != sep {
        lemma_next_sep(s, sep, from + 1);
    }
}

/// The first separator at or after `from` is where `next_sep` stops.
pub proof fn lemma_next_sep_unique(s: Seq<char>, sep: char, from: int, cut: int)
    requires
        0 <= from <= cut <= s.len(),
        forall|i: int| from <= i < cut ==> #[trigger] s[i] != sep,
        cut < s.len() ==> s[cut] == sep,
    ensures
        next_sep(s, sep, from) == cut,
    decreases cut - from,
{
    if from < cut {
        assert(s[from] != sep);
        lemma_next_sep_unique(s, sep, from + 1, cut);
    }
}

/// No piece of a split holds the separator, and there is at least one piece.
pub proof fn lemma_split(s: Seq<char>, sep: char)
    ensures
        split(s, sep).len() >= 1,
        forall|k: int, i: int|
            0 <= k < split(s, sep).len() && 0 <= i < split(s, sep)[k].len() ==> #[trigger] split(
                s,
                sep,
            )[k][i] != sep,
    decreases s.len(),
{
    let cut = next_sep(s, sep, 0);
    lemma_next_sep(s, sep, 0);
    if cut < s.len() {
        lemma_split(s.skip(cut + 1), sep);
        let rest = split(s.skip(cut + 1), sep);
        assert forall|k: int, i: int|
            0 <= k < split(s, sep).len() && 0 <= i < split(s, sep)[k].len() implies #[trigger] split(
            s,
            sep,
        )[k][i] != sep by {
            if k == 0 {
                assert(split(s, sep)[0] == s.take(cut));
            } else {
                assert(split(s, sep)[k] == rest[k - 1]);
            }
        }
    }
}

/// The ink of two texts, one after the other, is the ink of each.
pub proof fn lemma_ink_add(a: Seq<char>, b: Seq<char>)
    ensures
        ink(a + b) == ink(a) + ink(b),
{
    Seq::filter_distributes_over_add(a, b, |c: char| !is_space(c));
}

/// Whitespace leaves no ink.
pub proof fn lemma_ink_of_spaces(s: Seq<char>)
    requires
        forall|i: int| 0 <= i < s.len() ==> is_space(#[trigger] s[i]),
    ensures
        ink(s) == Seq::<char>::empty(),
    decreases s.len(),
{
    reveal(Seq::filter);
    if s.len() > 0 {
        let t = s.drop_last();
        assert forall|i: int| 0 <= i < t.len() implies is_space(#[trigger] t[i]) by {
            assert(t[i] == s[i]);
        }
        lemma_ink_of_spaces(t);
    }
    assert(ink(s) =~= Seq::<char>::empty());
}

/// Trimming takes no ink away.
pub proof fn lemma_ink_trim(s: Seq<char>)
    ensures
        ink(indent_of(s)) == Seq::<char>::empty(),
        ink(trim_start(s)) == ink(s),
        ink(trim_end(s)) == ink(s),
        ink(trim(s)) == ink(s),
{
    lemma_skip_spaces(s, 0);
    let indent = indent_of(s);
    assert forall|i: int| 0 <= i < indent.len() implies is_space(#[trigger] indent[i]) by {
        assert(indent[i] == s[i]);
    }
    lemma_ink_of_spaces(indent);
    assert(s =~= indent + trim_start(s));
    lemma_ink_add(indent, trim_start(s));
    assert(ink(trim_start(s)) =~= ink(s));
    lemma_ink_trim_end(s);
    lemma_ink_trim_end(trim_start(s));
}

/// Cutting trailing whitespace takes no ink away.
pub proof fn lemma_ink_trim_end(s: Seq<char>)
    ensures
        ink(trim_end(s)) == ink(s),
{
    lemma_text_end(s);
    let tail = s.skip(text_end(s));
    assert forall|i: int| 0 <= i < tail.len() implies is_space(#[trigger] tail[i]) by {
        assert(tail[i] == s[i + text_end(s)]);
    }
    lemma_ink_of_spaces(tail);
    assert(s =~= trim_end(s) + tail);
    lemma_ink_add(trim_end(s), tail);
    assert(ink(trim_end(s)) =~= ink(s));
}

/// Laying two runs of pieces end to end.
pub proof fn lemma_concat_add(a: Seq<Seq<char>>, b: Seq<Seq<char>>)
    ensures
        concat(a + b) == concat(a) + concat(b),
    decreases b.len(),
{
    if b.len() == 0 {
        assert(a + b =~= a);
        assert(concat(a) + concat(b) =~= concat(a));
    } else {
        assert((a + b).drop_last() =~= a + b.drop_last());
        lemma_concat_add(a, b.drop_last());
        assert((a + b).last() == b.last());
        assert(concat(a + b) =~= concat(a) + concat(b));
    }
}

/// A single piece laid end to end is that piece.
pub proof fn lemma_concat_one(s: Seq<char>)
    ensures
        concat(seq![s]) == s,
{
    assert(seq![s].drop_last() =~= Seq::<Seq<char>>::empty());
    assert(concat(Seq::<Seq<char>>::empty()) =~= Seq::<char>::empty());
    assert(concat(seq![s]) =~= s);
}

/// Splitting on spaces takes no ink away.
pub proof fn lemma_ink_split(s: Seq<char>)
    ensures
        ink(concat(split(s, ' '))) == ink(s),
    decreases s.len(),
{
    let cut = next_sep(s, ' ', 0);
    lemma_next_sep(s, ' ', 0);
    if cut < s.len() {
        let head = s.take(cut);
        let tail = s.skip(cut + 1);
        lemma_ink_split(tail);
        lemma_concat_one(head);
        lemma_concat_add(seq![head], split(tail, ' '));
        lemma_ink_add(head, concat(split(tail, ' ')));
        assert(s =~= head + seq![' '] + tail);
        lemma_ink_add(head + seq![' '], tail);
        lemma_ink_add(head, seq![' ']);
        lemma_ink_of_spaces(seq![' ']);
        assert(ink(head) + Seq::<char>::empty() =~= ink(head));
    } else {
        lemma_concat_one(s);
    }
}

/// `String::push` of the standard library: the string afterwards is the
/// string before with `ch` added at its end.
pub assume_specification[ String::push ](s: &mut String, ch: char)
    ensures
        final(s)@ == old(s)@.push(ch),
;

/// Whether a character is whitespace.
pub fn is_space_char(c: char) -> (r: bool)
    ensures
        r == is_space(c),
{
    let n: u32 = c as u32;
    (0x09 <= n && n <= 0x0d) || n == 0x20 || n == 0x85 || n == 0xa0 || n == 0x1680 || (0x2000 <= n
        && n <= 0x200a) || n == 0x2028 || n == 0x2029 || n == 0x202f || n == 0x205f || n == 0x3000
}

/// The characters of a string, in order.
pub fn to_chars(s: &str) -> (v: Vec<char>)
    ensures
        v@ == s@,
{
    let mut v: Vec<char> = Vec::new();
    for c in it: s.chars()
        invariant
            v@ == it.seq().take(it.index() as int),
            it.seq() == s@,
    {
        v.push(c);
    }
    v
}

/// Adds the characters of `s` to the end of `out`.
pub fn push_all(out: &mut Vec<char>, s: &[char])
    ensures
        final(out)@ == old(out)@ + s@,
{
    let mut i: usize = 0;
    assert(out@ + s@.take(0) =~= out@);
    while i < s.len()
        invariant
            i <= s.len(),
            out@ == old(out)@ + s@.take(i as int),
        decreases s.len() - i,
    {
        out.push(s[i]);
        assert((old(out)@ + s@.take(i as int)).push(s@[i as int]) =~= old(out)@ + s@.take(i + 1));
        i += 1;
    }
    assert(s@.take(s.len() as int) =~= s@);
}

/// Adds the characters `s[from..to]` to the end of `out`.
pub fn append_chars(out: &mut String, s: &[char], from: usize, to: usize)
    requires
        from <= to <= s.len(),
    ensures
        final(out)@ == old(out)@ + s@.subrange(from as int, to as int),
{
    let mut i: usize = from;
    assert(out@ + s@.subrange(from as int, from as int) =~= out@);
    while i < to
        invariant
            from <= i <= to <= s.len(),
            out@ == old(out)@ + s@.subrange(from as int, i as int),
        decreases to - i,
    {
        out.push(s[i]);
        assert((old(out)@ + s@.subrange(from as int, i as int)).push(s@[i as int]) =~= old(out)@
            + s@.subrange(from as int, i + 1));
        i += 1;
    }
}

/// A string made of the characters `s[from..to]`.
pub fn to_string(s: &[char], from: usize, to: usize) -> (r: String)
    requires
        from <= to <= s.len(),
    ensures
        r@ == s@.subrange(from as int, to as int),
{
    let mut r = String::new();
    append_chars(&mut r, s, from, to);
    assert(Seq::<char>::empty() + s@.subrange(from as int, to as int) =~= s@.subrange(
        from as int,
        to as int,
    ));
    r
}

/// Whether two texts are the same.
pub fn same_chars(a: &[char], b: &[char]) -> (r: bool)
    ensures
        r == (a@ == b@),
{
    if a.len() != b.len() {
        return false;
    }
    let r = matches_at(a, b, 0);
    proof {
        assert(a@.subrange(0, b@.len() as int) =~= a@);
    }
    r
}

/// Whether nothing but whitespace is in `s`.
pub fn is_blank(s: &[char]) -> (r: bool)
    ensures
        r == blank(s@),
{
    let (start, end) = trim_bounds(s);
    start == end
}

/// Length of the leading run of whitespace in `s`.
pub fn leading_spaces(s: &[char]) -> (n: usize)
    ensures
        n == indent_len(s@),
        n <= s.len(),
{
    let mut i: usize = 0;
    while i < s.len() && is_space_char(s[i])
        invariant
            i <= s.len(),
            forall|k: int| 0 <= k < i ==> is_space(#[trigger] s@[k]),
        decreases s.len() - i,
    {
        i += 1;
    }
    proof {
        lemma_skip_spaces_unique(s@, 0, i as int);
    }
    i
}

/// Where the text of `s[from..]` ends once trailing whitespace is cut off,
/// as an index into `s`.
pub fn trailing_text_end(s: &[char], from: usize) -> (end: usize)
    requires
        from <= s.len(),
    ensures
        from <= end <= s.len(),
        end - from == text_end(s@.skip(from as int)),
{
    let mut end: usize = s.len();
    while end > from && is_space_char(s[end - 1])
        invariant
            from <= end <= s.len(),
            forall|k: int| end <= k < s.len() ==> is_space(#[trigger] s@[k]),
        decreases end,
    {
        end -= 1;
    }
    proof {
        let t = s@.skip(from as int);
        assert forall|i: int| end - from <= i < t.len() implies is_space(#[trigger] t[i]) by {
            assert(t[i] == s@[i + from]);
        }
        lemma_text_end_unique(t, end - from);
    }
    end
}

/// The bounds of `trim(s)` within `s`: `trim(s) == s[start..end]`.
pub fn trim_bounds(s: &[char]) -> (r: (usize, usize))
    ensures
        r.0 <= r.1 <= s.len(),
        r.0 == indent_len(s@),
        s@.subrange(r.0 as int, r.1 as int) == trim(s@),
{
    let start = leading_spaces(s);
    let end = trailing_text_end(s, start);
    proof {
        let t = s@.skip(start as int);
        assert(t.take(end - start) =~= s@.subrange(start as int, end as int));
    }
    (start, end)
}

/// Whether `needle` stands in `hay` at index `at`.
pub fn matches_at(hay: &[char], needle: &[char], at: usize) -> (r: bool)
    ensures
        r == occurs_at(hay@, needle@, at as int),
{
    if needle.len() > hay.len() || at > hay.len() - needle.len() {
        return false;
    }
    let mut k: usize = 0;
    while k < needle.len()
        invariant
            k <= needle.len(),
            at + needle.len() <= hay.len(),
            forall|j: int| 0 <= j < k ==> hay@[at + j] == needle@[j],
        decreases needle.len() - k,
    {
        if hay[at + k] != needle[k] {
            proof {
                let sub = hay@.subrange(at as int, at + needle.len());
                assert(sub[k as int] == hay@[at + k]);
            }
            return false;
        }
        k += 1;
    }
    assert(hay@.subrange(at as int, at + needle.len()) =~= needle@);
    true
}

/// Index of the first occurrence of `needle` in `hay`.
pub fn find_in(hay: &[char], needle: &[char]) -> (r: Option<usize>)
    ensures
        match r {
            Some(at) => find(hay@, needle@) == Some(at as int),
            None => find(hay@, needle@) is None,
        },
        r is Some <==> contains(hay@, needle@),
        r is Some ==> r->Some_0 + needle.len() <= hay.len(),
{
    proof {
        lemma_find(hay@, needle@);
    }
    if needle.len() > hay.len() {
        return None;
    }
    let last: usize = hay.len() - needle.len();
    let mut i: usize = 0;
    loop
        invariant
            i <= last,
            last == hay.len() - needle.len(),
            find(hay@, needle@) == find_from(hay@, needle@, i as int),
        decreases last - i,
    {
        if matches_at(hay, needle, i) {
            return Some(i);
        }
        if i == last {
            proof {
                assert(find_from(hay@, needle@, i + 1) is None);
                lemma_find(hay@, needle@);
            }
            return None;
        }
        proof {
            lemma_find(hay@, needle@);
        }
        i += 1;
    }
}

/// Whether `needle` stands somewhere in `hay`.
pub fn contains_in(hay: &[char], needle: &[char]) -> (r: bool)
    ensures
        r == contains(hay@, needle@),
{
    find_in(hay, needle).is_some()
}

/// Whether `s` begins with `prefix`.
pub fn has_prefix(s: &[char], prefix: &[char]) -> (r: bool)
    ensures
        r == starts_with(s@, prefix@),
{
    matches_at(s, prefix, 0)
}

/// Whether `s` ends with `suffix`.
pub fn has_suffix(s: &[char], suffix: &[char]) -> (r: bool)
    ensures
        r == ends_with(s@, suffix@),
{
    if suffix.len() > s.len() {
        return false;
    }
    matches_at(s, suffix, s.len() - suffix.len())
}

/// The pieces of `s` between occurrences of `sep`.
pub fn split_on(s: &[char], sep: char) -> (parts: Vec<Vec<char>>)
    ensures
        parts@.len() >= 1,
        parts@.map_values(|p: Vec<char>| p@) == split(s@, sep),
{
    let mut parts: Vec<Vec<char>> = Vec::new();
    let mut piece: Vec<char> = Vec::new();
    let mut start: usize = 0;
    let mut i: usize = 0;
    proof {
        assert(s@.skip(0) =~= s@);
        assert(parts@.map_values(|p: Vec<char>| p@) + split(s@, sep) =~= split(s@, sep));
    }
    while i < s.len()
        invariant
            start <= i <= s.len(),
            piece@ == s@.subrange(start as int, i as int),
            forall|k: int| start <= k < i ==> #[trigger] s@[k] != sep,
            split(s@, sep) == parts@.map_values(|p: Vec<char>| p@) + split(
                s@.skip(start as int),
                sep,
            ),
        decreases s.len() - i,
    {
        if s[i] == sep {
            proof {
                let rest = s@.skip(start as int);
                assert forall|k: int| 0 <= k < i - start implies #[trigger] rest[k] != sep by {
                    assert(rest[k] == s@[start + k]);
                }
                assert(rest[i - start] == sep);
                lemma_next_sep_unique(rest, sep, 0, i - start);
                assert(rest.take(i - start) =~= piece@);
                assert(rest.skip(i - start + 1) =~= s@.skip(i + 1));
                assert(parts@.push(piece).map_values(|p: Vec<char>| p@) =~= parts@.map_values(
                    |p: Vec<char>| p@,
                ).push(piece@));
            }
            parts.push(piece);
            piece = Vec::new();
            start = i + 1;
        } else {
            piece.push(s[i]);
            assert(s@.subrange(start as int, i as int).push(s@[i as int]) =~= s@.subrange(
                start as int,
                i + 1,
            ));
        }
        i += 1;
    }
    proof {
        let rest = s@.skip(start as int);
        assert forall|k: int| 0 <= k < rest.len() implies #[trigger] rest[k] != sep by {
            assert(rest[k] == s@[start + k]);
        }
        lemma_next_sep_unique(rest, sep, 0, rest.len() as int);
        assert(rest =~= piece@);
        assert(parts@.push(piece).map_values(|p: Vec<char>| p@) =~= parts@.map_values(
            |p: Vec<char>| p@,
        ).push(piece@));
    }
    parts.push(piece);
    parts
}

} // verus!
