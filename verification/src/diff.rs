//! From a unified diff to the numbers of the lines that it adds, and from
//! those numbers to the flags of the document's lines.

use crate::line::{line_views, Line, LineView};
use crate::text::{
    find, find_in, has_prefix, is_space, is_space_char, split, split_on, starts_with, to_chars,
    to_string,
};
use vstd::prelude::*;
use vstd::slice::slice_subrange;

verus! {

/// A decimal digit.
pub open spec fn is_digit(c: char) -> bool {
    '0' <= c <= '9'
}

/// Nothing but decimal digits.
pub open spec fn all_digits(s: Seq<char>) -> bool {
    forall|i: int| 0 <= i < s.len() ==> is_digit(#[trigger] s[i])
}

/// The number that a run of decimal digits writes.
pub open spec fn digits_value(s: Seq<char>) -> nat
    decreases s.len(),
{
    if s.len() == 0 {
        0
    } else {
        (digits_value(s.drop_last()) * 10 + (s.last() as u32 - '0' as u32)) as nat
    }
}

/// The number that `s` writes: decimal digits, at least one, after an
/// optional `+`. A number that does not fit the machine word is no number.
pub open spec fn parsed_number(s: Seq<char>) -> Option<nat> {
    let digits = if s.len() > 0 && s[0] == '+' {
        s.skip(1)
    } else {
        s
    };
    if digits.len() > 0 && all_digits(digits) && digits_value(digits) <= usize::MAX {
        Some(digits_value(digits))
    } else {
        None
    }
}

/// A `+` at `at` begins a word: it stands at the start of `s` or after
/// whitespace.
pub open spec fn plus_word_at(s: Seq<char>, at: int) -> bool {
    0 <= at < s.len() && s[at] == '+' && (at == 0 || is_space(s[at - 1]))
}

/// Where the first word that begins with `+` starts, looking from `from`.
pub open spec fn first_plus_word(s: Seq<char>, from: int) -> Option<int>
    decreases s.len() - from,
{
    if from < 0 || from >= s.len() {
        None
    } else if plus_word_at(s, from) {
        Some(from)
    } else {
        first_plus_word(s, from + 1)
    }
}

/// Index of the first whitespace or comma at or after `from` (`s.len()`
/// when there is none): where the field that starts at `from` ends.
pub open spec fn field_end(s: Seq<char>, from: int) -> int
    decreases s.len() - from,
{
    if 0 <= from < s.len() && !is_space(s[from]) && s[from] != ',' {
        field_end(s, from + 1)
    } else {
        from
    }
}

/// What stands between the `@@` that opens a hunk header and the next `@@`
/// (the end of the line when there is no other).
pub open spec fn hunk_ranges(line: Seq<char>) -> Seq<char> {
    let rest = line.skip(2);
    match find(rest, "@@"@) {
        Some(at) => rest.take(at),
        None => rest,
    }
}

/// The line of the new file at which a hunk starts: in the header
/// `@@ -a,b +c,d @@` the number `c`, read from the first word between the
/// two `@@` that begins with `+`, up to its comma. `None` for a line that is
/// no hunk header or whose number cannot be read.
pub open spec fn hunk_start(line: Seq<char>) -> Option<nat> {
    if !starts_with(line, "@@"@) {
        None
    } else {
        let ranges = hunk_ranges(line);
        match first_plus_word(ranges, 0) {
            Some(at) => parsed_number(ranges.subrange(at + 1, field_end(ranges, at + 1))),
            None => None,
        }
    }
}

/// The word of a hunk header from which the start of the hunk is read:
/// the first word between the two `@@` that begins with `+`, up to its
/// comma.
pub open spec fn hunk_field(line: Seq<char>) -> Option<Seq<char>> {
    if !starts_with(line, "@@"@) {
        None
    } else {
        let ranges = hunk_ranges(line);
        match first_plus_word(ranges, 0) {
            Some(at) => Some(ranges.subrange(at, field_end(ranges, at + 1))),
            None => None,
        }
    }
}

/// The mapper's state: the number of the next line of the new file, and
/// the numbers of the added lines found so far.
pub struct DiffState {
    pub counter: nat,
    pub added: Seq<nat>,
}

/// Lines that head a file's diff and count for nothing.
pub open spec fn file_header(line: Seq<char>) -> bool {
    ||| starts_with(line, "+++"@)
    ||| starts_with(line, "---"@)
    ||| starts_with(line, "index"@)
    ||| starts_with(line, "diff"@)
}

/// The state after one line of the diff.
pub open spec fn diff_step(state: DiffState, line: Seq<char>) -> DiffState {
    if file_header(line) {
        state
    } else if starts_with(line, "@@"@) {
        match hunk_start(line) {
            Some(start) => DiffState { counter: start, added: state.added },
            None => state,
        }
    } else if starts_with(line, "+"@) {
        DiffState { counter: state.counter + 1, added: state.added.push(state.counter) }
    } else if starts_with(line, "-"@) {
        state
    } else if starts_with(line, " "@) {
        DiffState { counter: state.counter + 1, added: state.added }
    } else {
        state
    }
}

/// What a line of a diff is to the mapper.
#[derive(Clone, Copy, Debug, PartialEq, Eq, Structural)]
pub enum DiffLineKind {
    FileHeader,
    HunkHeader,
    Added,
    Removed,
    Context,
    Other,
}

/// What a line of a diff is: told by how it begins, file headers first.
pub open spec fn line_kind(line: Seq<char>) -> DiffLineKind {
    if file_header(line) {
        DiffLineKind::FileHeader
    } else if starts_with(line, "@@"@) {
        DiffLineKind::HunkHeader
    } else if starts_with(line, "+"@) {
        DiffLineKind::Added
    } else if starts_with(line, "-"@) {
        DiffLineKind::Removed
    } else if starts_with(line, " "@) {
        DiffLineKind::Context
    } else {
        DiffLineKind::Other
    }
}

/// What the mapper does on one line of a diff: what the line is, the
/// number of the next line of the new file before and after it, and, for a
/// hunk header whose number was read, the word that it was read from. A
/// number that no machine word holds is `None`.
pub struct DiffStep {
    pub kind: DiffLineKind,
    pub before: Option<usize>,
    pub after: Option<usize>,
    pub read_from: Option<String>,
}

/// A number as a machine word, where one holds it.
pub open spec fn word_of(n: nat) -> Option<usize> {
    if n <= usize::MAX {
        Some(n as usize)
    } else {
        None
    }
}

/// `step` tells what the mapper does on `line` in the given state.
pub open spec fn step_matches(step: DiffStep, state: DiffState, line: Seq<char>) -> bool {
    &&& step.kind == line_kind(line)
    &&& step.before == word_of(state.counter)
    &&& step.after == word_of(diff_step(state, line).counter)
    &&& match step.read_from {
        Some(text) => hunk_start(line) is Some && hunk_field(line) == Some(text@),
        None => hunk_start(line) is None,
    }
}

/// The state after all the given lines of a diff.
pub open spec fn diff_state(lines: Seq<Seq<char>>) -> DiffState
    decreases lines.len(),
{
    if lines.len() == 0 {
        DiffState { counter: 0, added: Seq::empty() }
    } else {
        diff_step(diff_state(lines.drop_last()), lines.last())
    }
}

/// The numbers of the lines that a diff adds, in the order in which the
/// diff lists them.
pub open spec fn added_line_numbers(diff: Seq<char>) -> Seq<nat> {
    diff_state(split(diff, '\n')).added
}

/// The numbers as mathematical integers.
pub open spec fn numbers_of(v: Seq<usize>) -> Seq<nat> {
    Seq::new(v.len(), |i: int| v[i] as nat)
}

/// A line number that a machine word holds.
pub open spec fn fits_word(n: nat) -> bool {
    n <= usize::MAX
}

/// The document once the added lines are marked: line `i`, counted from
/// zero, becomes eligible when `i + 1` is among `numbers`.
pub open spec fn diff_applied(lines: Seq<LineView>, numbers: Seq<nat>) -> Seq<LineView> {
    Seq::new(
        lines.len(),
        |i: int|
            LineView {
                should_format: lines[i].should_format || numbers.contains((i + 1) as nat),
                contents: lines[i].contents,
            },
    )
}

/// A run of digits writes a number no smaller than any of its prefixes.
proof fn lemma_digits_value_grows(s: Seq<char>, k: int)
    requires
        0 <= k <= s.len(),
        all_digits(s),
    ensures
        digits_value(s.take(k)) <= digits_value(s),
    decreases s.len() - k,
{
    if k < s.len() {
        let longer = s.take(k + 1);
        assert(longer.drop_last() =~= s.take(k));
        assert(is_digit(s[k]));
        assert(longer.last() == s[k]);
        lemma_digits_value_grows(s, k + 1);
    } else {
        assert(s.take(k) =~= s);
    }
}

/// Reads a decimal number, digits only.
fn parse_digits(s: &[char]) -> (r: Option<usize>)
    ensures
        r is Some <==> s@.len() > 0 && all_digits(s@) && digits_value(s@) <= usize::MAX,
        r is Some ==> r->Some_0 == digits_value(s@),
{
    if s.len() == 0 {
        return None;
    }
    let mut acc: usize = 0;
    let mut i: usize = 0;
    assert(s@.take(0) =~= Seq::<char>::empty());
    while i < s.len()
        invariant
            i <= s.len(),
            all_digits(s@.take(i as int)),
            acc == digits_value(s@.take(i as int)),
        decreases s.len() - i,
    {
        let c = s[i];
        if !('0' <= c && c <= '9') {
            assert(!is_digit(s@[i as int]));
            return None;
        }
        let d: usize = (c as u32 - '0' as u32) as usize;
        proof {
            let longer = s@.take(i + 1);
            assert(longer.drop_last() =~= s@.take(i as int));
            assert(longer.last() == c);
            assert forall|k: int| 0 <= k < longer.len() implies is_digit(#[trigger] longer[k]) by {
                if k < i {
                    assert(s@.take(i as int)[k] == longer[k]);
                }
            }
        }
        if acc > (usize::MAX - d) / 10 {
            proof {
                if all_digits(s@) {
                    lemma_digits_value_grows(s@, i + 1);
                }
            }
            return None;
        }
        acc = acc * 10 + d;
        i += 1;
    }
    assert(s@.take(s.len() as int) =~= s@);
    Some(acc)
}

/// Reads a number as a line number is written: decimal digits after an
/// optional `+`.
pub fn parse_number(s: &[char]) -> (r: Option<usize>)
    ensures
        match r {
            Some(n) => parsed_number(s@) == Some(n as nat),
            None => parsed_number(s@) is None,
        },
{
    if s.len() > 0 && s[0] == '+' {
        let digits = slice_subrange(s, 1, s.len());
        parse_digits(digits)
    } else {
        parse_digits(s)
    }
}

/// Where in a hunk header the word stands from which the start of the hunk
/// is read: `line[from..to]` is that word, `+` included.
fn hunk_field_range(line: &[char]) -> (r: Option<(usize, usize)>)
    ensures
        match r {
            Some(range) => range.0 < range.1 <= line.len() && hunk_field(line@) == Some(
                line@.subrange(range.0 as int, range.1 as int),
            ) && hunk_start(line@) == parsed_number(
                line@.subrange(range.0 + 1, range.1 as int),
            ),
            None => hunk_field(line@) is None && hunk_start(line@) is None,
        },
{
    let marker = to_chars("@@");
    proof {
        reveal_strlit("@@");
    }
    if !has_prefix(line, marker.as_slice()) {
        return None;
    }
    let rest = slice_subrange(line, 2, line.len());
    let stop = match find_in(rest, marker.as_slice()) {
        Some(at) => at,
        None => rest.len(),
    };
    let ranges = slice_subrange(rest, 0, stop);
    assert(ranges@ == hunk_ranges(line@)) by {
        assert(rest@.subrange(0, rest.len() as int) =~= rest@);
    }
    let mut i: usize = 0;
    while i < ranges.len()
        invariant
            i <= ranges.len(),
            ranges.len() + 2 <= line.len(),
            ranges@ == line@.subrange(2, 2 + ranges.len()),
            starts_with(line@, "@@"@),
            ranges@ == hunk_ranges(line@),
            first_plus_word(ranges@, 0) == first_plus_word(ranges@, i as int),
        decreases ranges.len() - i,
    {
        if ranges[i] == '+' && (i == 0 || is_space_char(ranges[i - 1])) {
            let from = i + 1;
            let mut end: usize = from;
            while end < ranges.len() && !is_space_char(ranges[end]) && ranges[end] != ','
                invariant
                    from <= end <= ranges.len(),
                    field_end(ranges@, from as int) == field_end(ranges@, end as int),
                decreases ranges.len() - end,
            {
                end += 1;
            }
            proof {
                assert(ranges@.subrange(i as int, end as int) =~= line@.subrange(i + 2, end + 2));
                assert(ranges@.subrange(from as int, end as int) =~= line@.subrange(
                    i + 3,
                    end + 2,
                ));
            }
            return Some((i + 2, end + 2));
        }
        i += 1;
    }
    None
}

/// The line of the new file at which the hunk that `line` heads starts.
pub fn hunk_new_start(line: &[char]) -> (r: Option<usize>)
    ensures
        match r {
            Some(n) => hunk_start(line@) == Some(n as nat),
            None => hunk_start(line@) is None,
        },
{
    match hunk_field_range(line) {
        Some(range) => parse_number(slice_subrange(line, range.0 + 1, range.1)),
        None => None,
    }
}

/// What a line of a diff is to the mapper.
pub fn classify_diff_line(line: &[char]) -> (kind: DiffLineKind)
    ensures
        kind == line_kind(line@),
{
    if has_prefix(line, to_chars("+++").as_slice()) || has_prefix(line, to_chars("---").as_slice())
        || has_prefix(line, to_chars("index").as_slice()) || has_prefix(
        line,
        to_chars("diff").as_slice(),
    ) {
        DiffLineKind::FileHeader
    } else if has_prefix(line, to_chars("@@").as_slice()) {
        DiffLineKind::HunkHeader
    } else if has_prefix(line, to_chars("+").as_slice()) {
        DiffLineKind::Added
    } else if has_prefix(line, to_chars("-").as_slice()) {
        DiffLineKind::Removed
    } else if has_prefix(line, to_chars(" ").as_slice()) {
        DiffLineKind::Context
    } else {
        DiffLineKind::Other
    }
}

/// A counter as a machine word, where one holds it.
fn counter_word(counter: u128) -> (r: Option<usize>)
    ensures
        r == word_of(counter as nat),
{
    if counter <= usize::MAX as u128 {
        Some(counter as usize)
    } else {
        None
    }
}

/// What the mapper does on each line of a diff, line by line: the steps
/// by which `parse_diff_line_numbers` comes to its numbers.
pub fn diff_trace(diff: &str) -> (trace: Vec<DiffStep>)
    ensures
        trace.len() == split(diff@, '\n').len(),
        forall|k: int|
            0 <= k < trace.len() ==> step_matches(
                #[trigger] trace[k],
                diff_state(split(diff@, '\n').take(k)),
                split(diff@, '\n')[k],
            ),
{
    let chars = to_chars(diff);
    let lines = split_on(chars.as_slice(), '\n');
    let ghost texts = lines@.map_values(|p: Vec<char>| p@);
    let mut trace: Vec<DiffStep> = Vec::new();
    let mut counter: u128 = 0;
    let mut i: usize = 0;
    assert(texts.take(0) =~= Seq::empty());
    while i < lines.len()
        invariant
            i <= lines.len(),
            texts == lines@.map_values(|p: Vec<char>| p@),
            texts == split(diff@, '\n'),
            trace.len() == i,
            counter == diff_state(texts.take(i as int)).counter,
            counter <= usize::MAX + i,
            forall|k: int|
                0 <= k < i ==> step_matches(
                    #[trigger] trace[k],
                    diff_state(texts.take(k)),
                    texts[k],
                ),
        decreases lines.len() - i,
    {
        let line = lines[i].as_slice();
        let ghost state = diff_state(texts.take(i as int));
        proof {
            let upto = texts.take(i + 1);
            assert(upto.drop_last() =~= texts.take(i as int));
            assert(upto.last() == line@);
        }
        let kind = classify_diff_line(line);
        let before = counter_word(counter);
        let mut read_from: Option<String> = None;
        match kind {
            DiffLineKind::HunkHeader => {
                match hunk_field_range(line) {
                    Some(range) => {
                        match parse_number(slice_subrange(line, range.0 + 1, range.1)) {
                            Some(start) => {
                                counter = start as u128;
                                read_from = Some(to_string(line, range.0, range.1));
                            },
                            None => {},
                        }
                    },
                    None => {},
                }
            },
            DiffLineKind::Added => {
                counter = counter + 1;
            },
            DiffLineKind::Context => {
                counter = counter + 1;
            },
            _ => {},
        }
        proof {
            // A file header does not begin as a hunk header does.
            reveal_strlit("@@");
            reveal_strlit("+++");
            reveal_strlit("---");
            reveal_strlit("index");
            reveal_strlit("diff");
            if file_header(line@) {
                assert(line@.subrange(0, 2)[0] == line@[0]);
                assert(!starts_with(line@, "@@"@));
            }
        }
        let step = DiffStep { kind, before, after: counter_word(counter), read_from };
        assert(step_matches(step, state, line@));
        trace.push(step);
        i += 1;
    }
    trace
}

/// The numbers of the lines that a unified diff adds to the new file.
/// Numbers too large for a machine word are left out: no document has a
/// line there.
pub fn parse_diff_line_numbers(diff: &str) -> (numbers: Vec<usize>)
    ensures
        numbers_of(numbers@) == added_line_numbers(diff@).filter(|n: nat| fits_word(n)),
{
    let chars = to_chars(diff);
    let lines = split_on(chars.as_slice(), '\n');
    let ghost texts = lines@.map_values(|p: Vec<char>| p@);
    let plus3 = to_chars("+++");
    let minus3 = to_chars("---");
    let index = to_chars("index");
    let diff_word = to_chars("diff");
    let at2 = to_chars("@@");
    let plus = to_chars("+");
    let minus = to_chars("-");
    let space = to_chars(" ");
    let ghost fits = |n: nat| fits_word(n);

    let mut numbers: Vec<usize> = Vec::new();
    let mut counter: u128 = 0;
    let mut i: usize = 0;
    proof {
        assert(texts.take(0) =~= Seq::empty());
        reveal(Seq::filter);
        assert(numbers_of(numbers@) =~= Seq::<nat>::empty().filter(fits));
    }
    while i < lines.len()
        invariant
            i <= lines.len(),
            texts == lines@.map_values(|p: Vec<char>| p@),
            plus3@ == "+++"@,
            minus3@ == "---"@,
            index@ == "index"@,
            diff_word@ == "diff"@,
            at2@ == "@@"@,
            plus@ == "+"@,
            minus@ == "-"@,
            space@ == " "@,
            fits == (|n: nat| fits_word(n)),
            counter == diff_state(texts.take(i as int)).counter,
            counter <= usize::MAX + i,
            numbers_of(numbers@) == diff_state(texts.take(i as int)).added.filter(fits),
        decreases lines.len() - i,
    {
        let line = lines[i].as_slice();
        let ghost before = diff_state(texts.take(i as int));
        proof {
            let upto = texts.take(i + 1);
            assert(upto.drop_last() =~= texts.take(i as int));
            assert(upto.last() == line@);
        }
        if has_prefix(line, plus3.as_slice()) || has_prefix(line, minus3.as_slice()) || has_prefix(
            line,
            index.as_slice(),
        ) || has_prefix(line, diff_word.as_slice()) {
        } else if has_prefix(line, at2.as_slice()) {
            match hunk_new_start(line) {
                Some(start) => {
                    counter = start as u128;
                },
                None => {},
            }
        } else if has_prefix(line, plus.as_slice()) {
            proof {
                before.added.lemma_filter_push(before.counter, fits);
            }
            if counter <= usize::MAX as u128 {
                let ghost old_numbers = numbers_of(numbers@);
                numbers.push(counter as usize);
                assert(numbers_of(numbers@) =~= old_numbers.push(counter as nat));
            }
            counter = counter + 1;
        } else if has_prefix(line, minus.as_slice()) {
        } else if has_prefix(line, space.as_slice()) {
            counter = counter + 1;
        }
        i += 1;
    }
    assert(texts.take(lines.len() as int) =~= texts);
    numbers
}

/// Whether `n` is among `numbers`.
fn is_listed(numbers: &Vec<usize>, n: usize) -> (r: bool)
    ensures
        r == numbers_of(numbers@).contains(n as nat),
{
    let mut k: usize = 0;
    while k < numbers.len()
        invariant
            k <= numbers.len(),
            forall|j: int| 0 <= j < k ==> numbers_of(numbers@)[j] != n as nat,
        decreases numbers.len() - k,
    {
        if numbers[k] == n {
            assert(numbers_of(numbers@)[k as int] == n as nat);
            return true;
        }
        k += 1;
    }
    false
}

/// Makes every line eligible whose number, counted from one, is among
/// `diff_line_numbers`. The other lines keep their flag.
pub fn apply_diff(lines: &mut Vec<Line>, diff_line_numbers: &Vec<usize>)
    ensures
        final(lines).len() == old(lines).len(),
        forall|i: int|
            0 <= i < old(lines).len() ==> (#[trigger] final(lines)[i]).contents == old(
                lines,
            )[i].contents,
        line_views(final(lines)@) == diff_applied(
            line_views(old(lines)@),
            numbers_of(diff_line_numbers@),
        ),
{
    let ghost before = line_views(lines@);
    let ghost listed = numbers_of(diff_line_numbers@);
    let n = lines.len();
    let mut i: usize = 0;
    while i < n
        invariant
            i <= n,
            n == lines.len(),
            n == old(lines).len(),
            before == line_views(old(lines)@),
            listed == numbers_of(diff_line_numbers@),
            forall|k: int| 0 <= k < n ==> (#[trigger] lines[k]).contents == old(lines)[k].contents,
            forall|k: int| i <= k < n ==> (#[trigger] lines[k]).should_format == before[k].should_format,
            forall|k: int|
                0 <= k < i ==> (#[trigger] lines[k]).should_format == (before[k].should_format
                    || listed.contains((k + 1) as nat)),
        decreases n - i,
    {
        if is_listed(diff_line_numbers, i + 1) {
            lines[i].should_format = true;
        }
        i += 1;
    }
    assert(line_views(lines@) =~= diff_applied(before, listed));
}

} // verus!
