//! Character-level text handling: white space, lines and decimal numbers.

use vstd::prelude::*;
use vstd::slice::slice_subrange;

verus! {

/// `String::push` appends one character at the end.
pub assume_specification[ String::push ](s: &mut String, c: char)
    ensures
        final(s)@ == old(s)@.push(c),
;

/// The characters that carry the Unicode `White_Space` property.
pub open spec fn white_space(c: char) -> bool {
    ||| '\u{9}' <= c <= '\u{d}'
    ||| c == '\u{20}'
    ||| c == '\u{85}'
    ||| c == '\u{a0}'
    ||| c == '\u{1680}'
    ||| '\u{2000}' <= c <= '\u{200a}'
    ||| c == '\u{2028}'
    ||| c == '\u{2029}'
    ||| c == '\u{202f}'
    ||| c == '\u{205f}'
    ||| c == '\u{3000}'
}

/// Whether `c` is white space.
pub fn is_white_space(c: char) -> (r: bool)
    ensures
        r == white_space(c),
{
    ('\u{9}' <= c && c <= '\u{d}') || c == '\u{20}' || c == '\u{85}' || c == '\u{a0}' || c
        == '\u{1680}' || ('\u{2000}' <= c && c <= '\u{200a}') || c == '\u{2028}' || c == '\u{2029}'
        || c == '\u{202f}' || c == '\u{205f}' || c == '\u{3000}'
}

/// `s` without the white space at its front.
pub open spec fn trimmed_front(s: Seq<char>) -> Seq<char>
    decreases s.len(),
{
    if s.len() > 0 && white_space(s[0]) {
        trimmed_front(s.drop_first())
    } else {
        s
    }
}

/// `s` without the white space at its back.
pub open spec fn trimmed_back(s: Seq<char>) -> Seq<char>
    decreases s.len(),
{
    if s.len() > 0 && white_space(s.last()) {
        trimmed_back(s.drop_last())
    } else {
        s
    }
}

/// `s` without the white space at either end.
pub open spec fn trimmed(s: Seq<char>) -> Seq<char> {
    trimmed_back(trimmed_front(s))
}

/// `s` without the occurrences of `c` at its front.
pub open spec fn without_leading(s: Seq<char>, c: char) -> Seq<char>
    decreases s.len(),
{
    if s.len() > 0 && s[0] == c {
        without_leading(s.drop_first(), c)
    } else {
        s
    }
}

/// The position of the first line feed, or the length where there is none.
pub open spec fn line_end(s: Seq<char>) -> int
    decreases s.len(),
{
    if s.len() == 0 || s[0] == '\n' {
        0
    } else {
        1 + line_end(s.drop_first())
    }
}

/// The first line of `s`, without its line feed and without a carriage
/// return directly before that line feed.
pub open spec fn first_line(s: Seq<char>) -> Seq<char> {
    let end = line_end(s);
    if 0 < end < s.len() && s[end - 1] == '\r' {
        s.take(end - 1)
    } else {
        s.take(end)
    }
}

/// What follows the first line feed; nothing where there is none.
pub open spec fn after_first_line(s: Seq<char>) -> Seq<char> {
    let end = line_end(s);
    if end < s.len() {
        s.skip(end + 1)
    } else {
        Seq::empty()
    }
}

pub proof fn lemma_line_end(s: Seq<char>)
    ensures
        0 <= line_end(s) <= s.len(),
        forall|i: int| 0 <= i < line_end(s) ==> s[i] != '\n',
        line_end(s) < s.len() ==> s[line_end(s)] == '\n',
    decreases s.len(),
{
    if s.len() > 0 && s[0] != '\n' {
        let t = s.drop_first();
        lemma_line_end(t);
        assert forall|i: int| 0 <= i < line_end(s) implies s[i] != '\n' by {
            if i > 0 {
                assert(s[i] == t[i - 1]);
            }
        }
        if line_end(s) < s.len() {
            assert(s[line_end(s)] == t[line_end(t)]);
        }
    }
}

/// The lines of `s`. A line ends with a line feed, or a carriage return and
/// a line feed; the last line may lack its ending.
pub open spec fn lines_of(s: Seq<char>) -> Seq<Seq<char>>
    decreases s.len(),
    via lines_of_decreases
{
    if s.len() == 0 {
        Seq::empty()
    } else {
        seq![first_line(s)] + lines_of(after_first_line(s))
    }
}

#[via_fn]
proof fn lines_of_decreases(s: Seq<char>) {
    lemma_line_end(s);
}

/// A first line feed at `end` settles `line_end`.
proof fn lemma_line_end_is(s: Seq<char>, end: int)
    requires
        0 <= end <= s.len(),
        forall|i: int| 0 <= i < end ==> s[i] != '\n',
        end < s.len() ==> s[end] == '\n',
    ensures
        line_end(s) == end,
{
    lemma_line_end(s);
    if line_end(s) < end {
        assert(s[line_end(s)] != '\n');
    } else if end < line_end(s) {
        assert(s[end] != '\n');
    }
}

/// The views of a vector of slices.
pub open spec fn slice_views(v: Seq<&[char]>) -> Seq<Seq<char>> {
    v.map_values(|line: &[char]| line@)
}

/// The characters of a string.
pub fn chars_of(s: &str) -> (r: Vec<char>)
    ensures
        r@ == s@,
{
    let mut out: Vec<char> = Vec::new();
    for c in it: s.chars()
        invariant
            it.seq() == s@,
            out@ == s@.take(it.index()),
    {
        out.push(c);
    }
    assert(s@.take(s@.len() as int) == s@);
    out
}

/// The string of a slice of characters.
pub fn string_of(chars: &[char]) -> (r: String)
    ensures
        r@ == chars@,
{
    let mut out: String = String::new();
    let mut i: usize = 0;
    while i < chars.len()
        invariant
            i <= chars.len(),
            out@ == chars@.take(i as int),
        decreases chars.len() - i,
    {
        out.push(chars[i]);
        i += 1;
    }
    assert(chars@.take(chars@.len() as int) == chars@);
    out
}

/// The lines of a text, each without its line ending.
pub fn lines(text: &[char]) -> (r: Vec<&[char]>)
    ensures
        slice_views(r@) == lines_of(text@),
{
    let mut out: Vec<&[char]> = Vec::new();
    let mut from: usize = 0;
    proof {
        assert(text@.skip(0) == text@);
    }
    while from < text.len()
        invariant
            from <= text.len(),
            slice_views(out@) + lines_of(text@.skip(from as int)) == lines_of(text@),
        decreases text.len() - from,
    {
        let ghost rest = text@.skip(from as int);
        let mut end: usize = from;
        while end < text.len() && text[end] != '\n'
            invariant
                from <= end <= text.len(),
                forall|i: int| from <= i < end ==> text@[i] != '\n',
            decreases text.len() - end,
        {
            end += 1;
        }
        proof {
            lemma_line_end_is(rest, end - from);
        }
        let last: usize = if from < end && end < text.len() && text[end - 1] == '\r' {
            end - 1
        } else {
            end
        };
        let line: &[char] = slice_subrange(text, from, last);
        assert(line@ == first_line(rest));
        let ghost before = out@;
        out.push(line);
        proof {
            assert(slice_views(out@) == slice_views(before) + seq![line@]);
            if end < text.len() {
                assert(text@.skip(end + 1) == after_first_line(rest));
            } else {
                assert(text@.skip(end as int) == after_first_line(rest));
            }
            assert(seq![line@] + lines_of(after_first_line(rest)) == lines_of(rest));
        }
        from = if end < text.len() {
            end + 1
        } else {
            end
        };
        assert(slice_views(out@) + lines_of(after_first_line(rest)) == slice_views(before)
            + lines_of(rest));
    }
    assert(slice_views(out@) + Seq::<Seq<char>>::empty() == slice_views(out@));
    out
}

/// `s` without the white space at either end.
pub fn trim(s: &[char]) -> (r: &[char])
    ensures
        r@ == trimmed(s@),
{
    let mut from: usize = 0;
    proof {
        assert(s@.skip(0) == s@);
    }
    while from < s.len() && is_white_space(s[from])
        invariant
            from <= s.len(),
            trimmed_front(s@.skip(from as int)) == trimmed_front(s@),
        decreases s.len() - from,
    {
        assert(s@.skip(from as int).drop_first() == s@.skip(from + 1));
        from += 1;
    }
    let ghost front = s@.skip(from as int);
    assert(trimmed_front(s@) == front);
    let mut to: usize = s.len();
    proof {
        assert(front.take(to - from) == front);
    }
    while from < to && is_white_space(s[to - 1])
        invariant
            from <= to <= s.len(),
            front == s@.skip(from as int),
            trimmed_back(front.take(to - from)) == trimmed_back(front),
        decreases to - from,
    {
        assert(front.take(to - from).drop_last() == front.take(to - 1 - from));
        assert(front.take(to - from).last() == s@[to - 1]);
        to -= 1;
    }
    proof {
        if from < to {
            assert(front.take(to - from).last() == s@[to - 1]);
        }
        assert(trimmed_back(front) == front.take(to - from));
        assert(s@.subrange(from as int, to as int) == front.take(to - from));
    }
    slice_subrange(s, from, to)
}

/// `s` without the occurrences of `c` at its front.
pub fn trim_start_matches(s: &[char], c: char) -> (r: &[char])
    ensures
        r@ == without_leading(s@, c),
{
    let mut from: usize = 0;
    proof {
        assert(s@.skip(0) == s@);
    }
    while from < s.len() && s[from] == c
        invariant
            from <= s.len(),
            without_leading(s@.skip(from as int), c) == without_leading(s@, c),
        decreases s.len() - from,
    {
        assert(s@.skip(from as int).drop_first() == s@.skip(from + 1));
        from += 1;
    }
    assert(s@.subrange(from as int, s@.len() as int) == s@.skip(from as int));
    slice_subrange(s, from, s.len())
}

/// Whether every character of `s` is an ASCII digit.
pub open spec fn ascii_digits(s: Seq<char>) -> bool {
    forall|i: int| 0 <= i < s.len() ==> '0' <= #[trigger] s[i] <= '9'
}

/// The number that a sequence of ASCII digits denotes.
pub open spec fn decimal_value(s: Seq<char>) -> nat
    decreases s.len(),
{
    if s.len() == 0 {
        0
    } else {
        decimal_value(s.drop_last()) * 10 + (s.last() as nat - '0' as nat) as nat
    }
}

/// An unsigned decimal number: one or more ASCII digits.
pub open spec fn unsigned_value(s: Seq<char>) -> Option<nat> {
    if s.len() > 0 && ascii_digits(s) {
        Some(decimal_value(s))
    } else {
        None
    }
}

/// A decimal number with an optional sign.
pub open spec fn signed_value(s: Seq<char>) -> Option<int> {
    if s.len() > 0 && s[0] == '-' {
        match unsigned_value(s.drop_first()) {
            Some(v) => Some(-(v as int)),
            None => None,
        }
    } else if s.len() > 0 && s[0] == '+' {
        match unsigned_value(s.drop_first()) {
            Some(v) => Some(v as int),
            None => None,
        }
    } else {
        match unsigned_value(s) {
            Some(v) => Some(v as int),
            None => None,
        }
    }
}

/// A longer run of digits denotes no smaller number.
proof fn lemma_decimal_value_prefix(s: Seq<char>, n: int)
    requires
        0 <= n <= s.len(),
    ensures
        decimal_value(s.take(n)) <= decimal_value(s),
    decreases s.len() - n,
{
    if n == s.len() {
        assert(s.take(n) == s);
    } else {
        lemma_decimal_value_prefix(s, n + 1);
        assert(s.take(n + 1).drop_last() == s.take(n));
    }
}

/// Reads an unsigned decimal number that fits in 64 bits.
pub fn parse_unsigned(s: &[char]) -> (r: Option<u64>)
    ensures
        r == match unsigned_value(s@) {
            Some(v) => if v <= u64::MAX {
                Some(v as u64)
            } else {
                None
            },
            None => None,
        },
{
    if s.len() == 0 {
        return None;
    }
    let mut value: u64 = 0;
    let mut fits: bool = true;
    let mut i: usize = 0;
    while i < s.len()
        invariant
            i <= s.len(),
            ascii_digits(s@.take(i as int)),
            fits ==> value == decimal_value(s@.take(i as int)),
            !fits ==> decimal_value(s@.take(i as int)) > u64::MAX,
        decreases s.len() - i,
    {
        let c: char = s[i];
        if c < '0' || '9' < c {
            assert(!ascii_digits(s@));
            return None;
        }
        let digit: u64 = (c as u32 - '0' as u32) as u64;
        proof {
            assert(s@.take(i + 1).drop_last() == s@.take(i as int));
            lemma_decimal_value_prefix(s@.take(i + 1), i as int);
            assert(s@.take(i + 1).take(i as int) == s@.take(i as int));
        }
        if fits {
            if value > (u64::MAX - digit) / 10 {
                fits = false;
            } else {
                value = value * 10 + digit;
            }
        }
        i += 1;
    }
    assert(s@.take(s@.len() as int) == s@);
    if fits {
        Some(value)
    } else {
        None
    }
}

/// Reads a decimal number with an optional sign that fits in 64 bits.
pub fn parse_signed(s: &[char]) -> (r: Option<i64>)
    ensures
        r == match signed_value(s@) {
            Some(v) => if i64::MIN <= v <= i64::MAX {
                Some(v as i64)
            } else {
                None
            },
            None => None,
        },
{
    if s.len() > 0 && s[0] == '-' {
        assert(s@.subrange(1, s@.len() as int) == s@.drop_first());
        match parse_unsigned(slice_subrange(s, 1, s.len())) {
            Some(v) => if v == 0x8000_0000_0000_0000 {
                Some(i64::MIN)
            } else if v < 0x8000_0000_0000_0000 {
                Some(-(v as i64))
            } else {
                None
            },
            None => None,
        }
    } else {
        let from: usize = if s.len() > 0 && s[0] == '+' {
            1
        } else {
            0
        };
        assert(s@.subrange(0, s@.len() as int) == s@);
        assert(s@.len() > 0 ==> s@.subrange(1, s@.len() as int) == s@.drop_first());
        match parse_unsigned(slice_subrange(s, from, s.len())) {
            Some(v) => if v < 0x8000_0000_0000_0000 {
                Some(v as i64)
            } else {
                None
            },
            None => None,
        }
    }
}

/// Whether every character of `s` has a property.
pub open spec fn every(s: Seq<char>, p: spec_fn(char) -> bool) -> bool {
    forall|i: int| 0 <= i < s.len() ==> p(#[trigger] s[i])
}

proof fn lemma_trimmed_front(s: Seq<char>, p: spec_fn(char) -> bool)
    ensures
        trimmed_front(s).len() <= s.len(),
        trimmed_front(s).len() > 0 ==> !white_space(trimmed_front(s)[0]),
        every(s, p) ==> every(trimmed_front(s), p),
    decreases s.len(),
{
    if s.len() > 0 && white_space(s[0]) {
        lemma_trimmed_front(s.drop_first(), p);
        if every(s, p) {
            assert forall|i: int| 0 <= i < s.drop_first().len() implies p(
                #[trigger] s.drop_first()[i],
            ) by {
                assert(s.drop_first()[i] == s[i + 1]);
            }
        }
    }
}

proof fn lemma_trimmed_back(s: Seq<char>, p: spec_fn(char) -> bool)
    ensures
        trimmed_back(s).len() <= s.len(),
        trimmed_back(s).len() > 0 ==> trimmed_back(s)[0] == s[0] && !white_space(
            trimmed_back(s).last(),
        ),
        trimmed_back(trimmed_back(s)) == trimmed_back(s),
        every(s, p) ==> every(trimmed_back(s), p),
    decreases s.len(),
{
    if s.len() > 0 && white_space(s.last()) {
        lemma_trimmed_back(s.drop_last(), p);
        if every(s, p) {
            assert forall|i: int| 0 <= i < s.drop_last().len() implies p(
                #[trigger] s.drop_last()[i],
            ) by {
                assert(s.drop_last()[i] == s[i]);
            }
        }
    }
}

/// Trimming leaves only what was there, and nothing more to trim.
pub proof fn lemma_trimmed(s: Seq<char>, p: spec_fn(char) -> bool)
    ensures
        trimmed(trimmed(s)) == trimmed(s),
        every(s, p) ==> every(trimmed(s), p),
{
    lemma_trimmed_front(s, p);
    lemma_trimmed_back(trimmed_front(s), p);
    assert(trimmed_front(trimmed(s)) == trimmed(s));
}

/// White space at the back makes no difference to what trimming leaves.
pub proof fn lemma_trimmed_push(s: Seq<char>, c: char)
    requires
        white_space(c),
    ensures
        trimmed(s.push(c)) == trimmed(s),
    decreases s.len(),
{
    let t = s.push(c);
    if s.len() == 0 {
        assert(t.drop_first() == Seq::<char>::empty());
        assert(trimmed_front(t) == trimmed_front(t.drop_first()));
        assert(s == Seq::<char>::empty());
    } else if white_space(s[0]) {
        assert(t.drop_first() == s.drop_first().push(c));
        lemma_trimmed_push(s.drop_first(), c);
    } else {
        assert(t.drop_last() == s);
    }
}

/// Taking a character off the front leaves only what was there.
pub proof fn lemma_without_leading(s: Seq<char>, c: char, p: spec_fn(char) -> bool)
    requires
        every(s, p),
    ensures
        every(without_leading(s, c), p),
    decreases s.len(),
{
    if s.len() > 0 && s[0] == c {
        assert forall|i: int| 0 <= i < s.drop_first().len() implies p(
            #[trigger] s.drop_first()[i],
        ) by {
            assert(s.drop_first()[i] == s[i + 1]);
        }
        lemma_without_leading(s.drop_first(), c, p);
    }
}

/// The lines of a text hold only what is in the text, and no line feed.
pub proof fn lemma_lines(s: Seq<char>, p: spec_fn(char) -> bool)
    requires
        every(s, p),
    ensures
        forall|k: int|
            0 <= k < lines_of(s).len() ==> every(#[trigger] lines_of(s)[k], p) && every(
                lines_of(s)[k],
                |c: char| c != '\n',
            ),
    decreases s.len(),
{
    if s.len() > 0 {
        lemma_line_end(s);
        let rest = after_first_line(s);
        let first = first_line(s);
        assert forall|i: int| 0 <= i < rest.len() implies p(#[trigger] rest[i]) by {
            assert(rest[i] == s[line_end(s) + 1 + i]);
        }
        lemma_lines(rest, p);
        assert forall|k: int| 0 <= k < lines_of(s).len() implies every(
            #[trigger] lines_of(s)[k],
            p,
        ) && every(lines_of(s)[k], |c: char| c != '\n') by {
            if k == 0 {
                assert(lines_of(s)[0] == first);
                assert forall|i: int| 0 <= i < first.len() implies p(#[trigger] first[i])
                    && first[i] != '\n' by {
                    assert(first[i] == s[i]);
                }
            } else {
                assert(lines_of(s)[k] == lines_of(rest)[k - 1]);
            }
        }
    }
}

/// Joining a text to another with a line feed: where the first text is empty,
/// an empty line comes first; where it is one line, that line, which may lose
/// a carriage return; else its first line.
pub proof fn lemma_joined_lines(a: Seq<char>, b: Seq<char>)
    ensures
        ({
            let joined = a + seq!['\n'] + b;
            &&& joined.len() > 0
            &&& line_end(a) < a.len() ==> first_line(joined) == first_line(a) && after_first_line(
                joined,
            ) == after_first_line(a) + seq!['\n'] + b
            &&& line_end(a) == a.len() ==> after_first_line(joined) == b && first_line(a) == a && (
            first_line(joined) == a || (a.len() > 0 && a.last() == '\r' && first_line(joined)
                == a.drop_last()))
        }),
{
    let joined = a + seq!['\n'] + b;
    lemma_line_end(a);
    assert forall|i: int| 0 <= i < line_end(a) implies joined[i] != '\n' by {
        assert(joined[i] == a[i]);
    }
    assert(joined[a.len() as int] == '\n');
    assert(line_end(a) < a.len() ==> joined[line_end(a)] == a[line_end(a)]);
    lemma_line_end_is(joined, line_end(a));
    if line_end(a) < a.len() {
        assert(first_line(joined) == first_line(a));
        assert(after_first_line(joined) == after_first_line(a) + seq!['\n'] + b);
    } else {
        assert(after_first_line(joined) == b);
        assert(first_line(a) == a);
        if a.len() > 0 && a.last() == '\r' {
            assert(first_line(joined) == a.drop_last());
        } else {
            assert(first_line(joined) == a);
        }
    }
}

proof fn lemma_trimmed_front_of(before: Seq<char>, rest: Seq<char>)
    requires
        every(before, |c: char| white_space(c)),
    ensures
        trimmed_front(before + rest) == trimmed_front(rest),
    decreases before.len(),
{
    if before.len() == 0 {
        assert(before + rest == rest);
    } else {
        let less = before.drop_first();
        assert forall|i: int| 0 <= i < less.len() implies white_space(#[trigger] less[i]) by {
            assert(less[i] == before[i + 1]);
        }
        assert(white_space(before[0]));
        assert((before + rest)[0] == before[0]);
        assert((before + rest).drop_first() == less + rest);
        lemma_trimmed_front_of(less, rest);
    }
}

proof fn lemma_trimmed_of(rest: Seq<char>, after: Seq<char>)
    requires
        every(after, |c: char| white_space(c)),
    ensures
        trimmed(rest + after) == trimmed(rest),
    decreases after.len(),
{
    if after.len() == 0 {
        assert(rest + after == rest);
    } else {
        let less = after.drop_last();
        assert forall|i: int| 0 <= i < less.len() implies white_space(#[trigger] less[i]) by {
            assert(less[i] == after[i]);
        }
        assert(white_space(after[after.len() - 1]));
        assert(rest + after == (rest + less).push(after.last()));
        lemma_trimmed_push(rest + less, after.last());
        lemma_trimmed_of(rest, less);
    }
}

/// Trimming takes off the white space at both ends and nothing else.
pub proof fn law_trimming_leaves_the_core(before: Seq<char>, core: Seq<char>, after: Seq<char>)
    requires
        forall|i: int| 0 <= i < before.len() ==> white_space(#[trigger] before[i]),
        forall|i: int| 0 <= i < after.len() ==> white_space(#[trigger] after[i]),
        core.len() > 0 ==> !white_space(core[0]) && !white_space(core[core.len() - 1]),
    ensures
        trimmed(before + core + after) == core,
{
    lemma_trimmed_of(before + core, after);
    lemma_trimmed_front_of(before, core);
}

/// A character is taken off the front as often as it stands there.
pub proof fn law_leading_characters_are_taken_off(marks: Seq<char>, c: char, rest: Seq<char>)
    requires
        forall|i: int| 0 <= i < marks.len() ==> #[trigger] marks[i] == c,
        rest.len() > 0 ==> rest[0] != c,
    ensures
        without_leading(marks + rest, c) == rest,
    decreases marks.len(),
{
    if marks.len() == 0 {
        assert(marks + rest == rest);
    } else {
        let less = marks.drop_first();
        assert forall|i: int| 0 <= i < less.len() implies #[trigger] less[i] == c by {
            assert(less[i] == marks[i + 1]);
        }
        assert((marks + rest)[0] == marks[0]);
        assert((marks + rest).drop_first() == less + rest);
        law_leading_characters_are_taken_off(less, c, rest);
    }
}

/// A line feed ends a line, and takes one carriage return in front of it
/// along; what follows gives the other lines. Text without a line feed is one
/// line, and no text is none.
pub proof fn law_line_feeds_end_lines(line: Seq<char>, rest: Seq<char>)
    requires
        forall|i: int| 0 <= i < line.len() ==> #[trigger] line[i] != '\n',
    ensures
        lines_of(Seq::empty()) == Seq::<Seq<char>>::empty(),
        line.len() > 0 ==> lines_of(line) == seq![line],
        line.len() > 0 && line[line.len() - 1] == '\r' ==> lines_of(line + seq!['\n'] + rest)
            == seq![line.subrange(0, line.len() - 1)] + lines_of(rest),
        line.len() == 0 || line[line.len() - 1] != '\r' ==> lines_of(line + seq!['\n'] + rest)
            == seq![line] + lines_of(rest),
{
    lemma_line_end(line);
    if line_end(line) < line.len() {
        assert(line[line_end(line)] != '\n');
    }
    lemma_joined_lines(line, rest);
    let joined = line + seq!['\n'] + rest;
    assert(lines_of(joined) == seq![first_line(joined)] + lines_of(after_first_line(joined)));
    assert(line_end(joined) == line.len()) by {
        assert forall|i: int| 0 <= i < line.len() implies joined[i] != '\n' by {
            assert(joined[i] == line[i]);
        }
        assert(joined[line.len() as int] == '\n');
        lemma_line_end_is(joined, line.len() as int);
    }
    if line.len() > 0 {
        assert(joined[line.len() - 1] == line[line.len() - 1]);
        if line[line.len() - 1] == '\r' {
            assert(first_line(joined) == line.subrange(0, line.len() - 1));
        } else {
            assert(first_line(joined) == line);
        }
        assert(lines_of(after_first_line(line)) == Seq::<Seq<char>>::empty());
        assert(lines_of(line) == seq![line]);
    } else {
        assert(first_line(joined) == line);
    }
}

/// Digits count by their place: those in front of others count ten times as
/// much for each of these. A single digit counts for itself, and zeros in
/// front for nothing.
pub proof fn law_digits_count_by_their_place(a: Seq<char>, b: Seq<char>, c: char)
    ensures
        decimal_value(Seq::empty()) == 0,
        '0' <= c <= '9' ==> decimal_value(seq![c]) == c as int - 48,
        decimal_value(a + b) == decimal_value(a) * vstd::arithmetic::power::pow(10, b.len())
            + decimal_value(b),
        decimal_value(seq!['0'] + b) == decimal_value(b),
    decreases b.len(),
{
    reveal(vstd::arithmetic::power::pow);
    assert(seq![c].drop_last() == Seq::<char>::empty());
    assert(decimal_value(Seq::<char>::empty()) == 0);
    assert(decimal_value(seq!['0']) == 0) by {
        assert(seq!['0'].drop_last() == Seq::<char>::empty());
    }
    if b.len() == 0 {
        assert(a + b == a);
        assert(seq!['0'] + b == seq!['0']);
        vstd::arithmetic::power::lemma_pow0(10);
    } else {
        let less = b.drop_last();
        law_digits_count_by_their_place(a, less, c);
        assert((a + b).drop_last() == a + less);
        assert((a + b).last() == b.last());
        assert((seq!['0'] + b).drop_last() == seq!['0'] + less);
        assert((seq!['0'] + b).last() == b.last());
        let p = vstd::arithmetic::power::pow(10, less.len());
        assert(vstd::arithmetic::power::pow(10, b.len()) == 10 * p);
        let v = decimal_value(a) as int;
        assert((v * p + decimal_value(less)) * 10 == v * (10 * p) + decimal_value(less) * 10)
            by (nonlinear_arith);
    }
}

/// A number is written with ASCII digits alone, one or more; a sign may stand
/// in front where signs are read, and only there.
pub proof fn law_numbers_are_digits(digits: Seq<char>)
    ensures
        digits.len() == 0 ==> unsigned_value(digits) is None,
        (exists|i: int| 0 <= i < digits.len() && !('0' <= #[trigger] digits[i] <= '9'))
            ==> unsigned_value(digits) is None,
        digits.len() > 0 && (forall|i: int|
            0 <= i < digits.len() ==> '0' <= #[trigger] digits[i] <= '9') ==> {
            &&& unsigned_value(digits) == Some(decimal_value(digits))
            &&& signed_value(digits) == Some(decimal_value(digits) as int)
        },
        signed_value(seq!['+'] + digits) == (match unsigned_value(digits) {
            Some(v) => Some(v as int),
            None => None,
        }),
        signed_value(seq!['-'] + digits) == (match unsigned_value(digits) {
            Some(v) => Some(0 - v),
            None => None,
        }),
        digits.len() > 0 && digits[0] != '+' && digits[0] != '-' ==> signed_value(digits) == (
        match unsigned_value(digits) {
            Some(v) => Some(v as int),
            None => None,
        }),
{
    assert((seq!['+'] + digits).drop_first() == digits);
    assert((seq!['-'] + digits).drop_first() == digits);
    if digits.len() > 0 && ascii_digits(digits) {
        assert('0' <= digits[0] <= '9');
    }
}

/// Trimming leaves nothing exactly where there is nothing but white space.
pub proof fn law_nothing_is_left_of_white_space(s: Seq<char>)
    ensures
        trimmed(s).len() == 0 <==> forall|i: int| 0 <= i < s.len() ==> white_space(#[trigger] s[i]),
{
    if forall|i: int| 0 <= i < s.len() ==> white_space(#[trigger] s[i]) {
        let none = Seq::<char>::empty();
        law_trimming_leaves_the_core(s, none, none);
        assert(s + none + none == s);
    } else {
        let i = choose|i: int| 0 <= i < s.len() && !white_space(#[trigger] s[i]);
        lemma_something_is_left(s, i);
    }
}

proof fn lemma_something_is_left(s: Seq<char>, i: int)
    requires
        0 <= i < s.len(),
        !white_space(s[i]),
    ensures
        trimmed(s).len() > 0,
    decreases s.len(),
{
    if white_space(s[0]) {
        assert(s.drop_first()[i - 1] == s[i]);
        lemma_something_is_left(s.drop_first(), i - 1);
    } else {
        lemma_something_is_left_at_the_back(s);
    }
}

proof fn lemma_something_is_left_at_the_back(s: Seq<char>)
    requires
        s.len() > 0,
        !white_space(s[0]),
    ensures
        trimmed_back(s).len() > 0,
    decreases s.len(),
{
    if white_space(s.last()) {
        assert(s.drop_last()[0] == s[0]);
        lemma_something_is_left_at_the_back(s.drop_last());
    }
}

} // verus!
