//! The grammar of LRC files: time tags and the offset tag.
//!
//! Tags are found with regular expressions. The specification functions here
//! say what the two patterns match; the functions that run them are trusted to
//! find exactly that.

use regex::Regex;
use vstd::prelude::*;

use crate::text;

verus! {

/// A time tag: `[minutes:seconds]`, with an optional fraction behind a point
/// or a colon.
pub const TAG_PATTERN: &'static str = r"\[(\d{1,3}):(\d{2})(?:[\.:](\d{1,3}))?\]";

/// An offset tag at the start of a line, in any mix of upper and lower case.
pub const OFFSET_PATTERN: &'static str = r"(?i)^\[offset:([+-]?\d+)\]";

/// Whether `c` is one of the ten characters that start at `zero`.
pub open spec fn ten_from(c: char, zero: u32) -> bool {
    zero <= c as u32 <= zero + 9
}

/// The decimal digits beyond ASCII: the Unicode general category
/// `Decimal_Number`, in blocks of ten.
#[verifier::opaque]
pub open spec fn wide_digit(c: char) -> bool {
    ||| ten_from(c, 0x660) || ten_from(c, 0x6f0) || ten_from(c, 0x7c0) || ten_from(c, 0x966)
    ||| ten_from(c, 0x9e6) || ten_from(c, 0xa66) || ten_from(c, 0xae6) || ten_from(c, 0xb66)
    ||| ten_from(c, 0xbe6) || ten_from(c, 0xc66) || ten_from(c, 0xce6) || ten_from(c, 0xd66)
    ||| ten_from(c, 0xde6) || ten_from(c, 0xe50) || ten_from(c, 0xed0) || ten_from(c, 0xf20)
    ||| ten_from(c, 0x1040) || ten_from(c, 0x1090) || ten_from(c, 0x17e0) || ten_from(c, 0x1810)
    ||| ten_from(c, 0x1946) || ten_from(c, 0x19d0) || ten_from(c, 0x1a80) || ten_from(c, 0x1a90)
    ||| ten_from(c, 0x1b50) || ten_from(c, 0x1bb0) || ten_from(c, 0x1c40) || ten_from(c, 0x1c50)
    ||| ten_from(c, 0xa620) || ten_from(c, 0xa8d0) || ten_from(c, 0xa900) || ten_from(c, 0xa9d0)
    ||| ten_from(c, 0xa9f0) || ten_from(c, 0xaa50) || ten_from(c, 0xabf0) || ten_from(c, 0xff10)
    ||| ten_from(c, 0x104a0) || ten_from(c, 0x10d30) || ten_from(c, 0x10d40) || ten_from(c, 0x11066)
    ||| ten_from(c, 0x110f0) || ten_from(c, 0x11136) || ten_from(c, 0x111d0) || ten_from(c, 0x112f0)
    ||| ten_from(c, 0x11450) || ten_from(c, 0x114d0) || ten_from(c, 0x11650) || ten_from(c, 0x116c0)
    ||| ten_from(c, 0x116d0) || ten_from(c, 0x116da) || ten_from(c, 0x11730) || ten_from(c, 0x118e0)
    ||| ten_from(c, 0x11950) || ten_from(c, 0x11bf0) || ten_from(c, 0x11c50) || ten_from(c, 0x11d50)
    ||| ten_from(c, 0x11da0) || ten_from(c, 0x11f50) || ten_from(c, 0x16130) || ten_from(c, 0x16a60)
    ||| ten_from(c, 0x16ac0) || ten_from(c, 0x16b50) || ten_from(c, 0x16d70) || ten_from(c, 0x1ccf0)
    ||| ten_from(c, 0x1d7ce) || ten_from(c, 0x1d7d8) || ten_from(c, 0x1d7e2) || ten_from(c, 0x1d7ec)
    ||| ten_from(c, 0x1d7f6) || ten_from(c, 0x1e140) || ten_from(c, 0x1e2f0) || ten_from(c, 0x1e4f0)
    ||| ten_from(c, 0x1e5f1) || ten_from(c, 0x1e950) || ten_from(c, 0x1fbf0)
}

/// What `\d` matches.
pub open spec fn digit(c: char) -> bool {
    if (c as u32) < 0x80 {
        '0' <= c <= '9'
    } else {
        wide_digit(c)
    }
}

/// The number of digits that follow each other in `s` from position `i` on.
pub open spec fn digit_run(s: Seq<char>, i: int) -> nat
    decreases s.len() - i,
{
    if 0 <= i < s.len() && digit(s[i]) {
        1 + digit_run(s, i + 1)
    } else {
        0
    }
}

/// Whether `s` has the character `c` at position `i`.
pub open spec fn has_at(s: Seq<char>, i: int, c: char) -> bool {
    0 <= i < s.len() && s[i] == c
}

/// The three fields of a time tag, as they are written.
pub struct TagFields {
    pub minutes: Seq<char>,
    pub seconds: Seq<char>,
    pub fraction: Option<Seq<char>>,
}

/// The time tag that starts at position `i` of `s`, with the position behind
/// its closing bracket.
pub open spec fn tag_at(s: Seq<char>, i: int) -> Option<(TagFields, int)> {
    let minutes = digit_run(s, i + 1);
    let colon = i + 1 + minutes;
    let end = colon + 3;
    let fraction = digit_run(s, end + 1);
    let close = end + 1 + fraction;
    if !(has_at(s, i, '[') && 1 <= minutes <= 3 && has_at(s, colon, ':') && digit_run(s, colon + 1)
        == 2) {
        None
    } else if has_at(s, end, ']') {
        Some(
            (
                TagFields {
                    minutes: s.subrange(i + 1, colon),
                    seconds: s.subrange(colon + 1, end),
                    fraction: None,
                },
                end + 1,
            ),
        )
    } else if (has_at(s, end, '.') || has_at(s, end, ':')) && 1 <= fraction <= 3 && has_at(
        s,
        close,
        ']',
    ) {
        Some(
            (
                TagFields {
                    minutes: s.subrange(i + 1, colon),
                    seconds: s.subrange(colon + 1, end),
                    fraction: Some(s.subrange(end + 1, close)),
                },
                close + 1,
            ),
        )
    } else {
        None
    }
}

/// The time tags of `s` from position `i` on, from left to right.
pub open spec fn tags_from(s: Seq<char>, i: int) -> Seq<TagFields>
    decreases s.len() - i,
{
    if i < 0 || i >= s.len() {
        Seq::empty()
    } else {
        match tag_at(s, i) {
            Some((fields, next)) => seq![fields] + tags_from(s, next),
            None => tags_from(s, i + 1),
        }
    }
}

/// The time tags of `s`, from left to right.
pub open spec fn tags_in(s: Seq<char>) -> Seq<TagFields> {
    tags_from(s, 0)
}

/// What is left of `s` from position `i` on once its time tags are taken out.
pub open spec fn untagged_from(s: Seq<char>, i: int) -> Seq<char>
    decreases s.len() - i,
{
    if i < 0 || i >= s.len() {
        Seq::empty()
    } else {
        match tag_at(s, i) {
            Some((_, next)) => untagged_from(s, next),
            None => seq![s[i]] + untagged_from(s, i + 1),
        }
    }
}

/// What is left of `s` once its time tags are taken out.
pub open spec fn without_tags(s: Seq<char>) -> Seq<char> {
    untagged_from(s, 0)
}

/// Whether `s` has a letter at position `i`, in either case. The long s counts
/// as an s.
pub open spec fn letter_at(s: Seq<char>, i: int, lower: char, upper: char) -> bool {
    has_at(s, i, lower) || has_at(s, i, upper) || (lower == 's' && has_at(s, i, '\u{17f}'))
}

/// The number in the offset tag that `s` starts with, as it is written.
pub open spec fn offset_field(s: Seq<char>) -> Option<Seq<char>> {
    let from = if has_at(s, 8, '+') || has_at(s, 8, '-') {
        9
    } else {
        8
    };
    let digits = digit_run(s, from);
    if has_at(s, 0, '[') && letter_at(s, 1, 'o', 'O') && letter_at(s, 2, 'f', 'F') && letter_at(
        s,
        3,
        'f',
        'F',
    ) && letter_at(s, 4, 's', 'S') && letter_at(s, 5, 'e', 'E') && letter_at(s, 6, 't', 'T')
        && has_at(s, 7, ':') && digits >= 1 && has_at(s, from + digits, ']') {
        Some(s.subrange(8, from + digits))
    } else {
        None
    }
}

/// One match of the time tag pattern.
pub struct TagCapture {
    pub minutes: String,
    pub seconds: String,
    pub fraction: Option<String>,
}

impl View for TagCapture {
    type V = TagFields;

    open spec fn view(&self) -> TagFields {
        TagFields {
            minutes: self.minutes@,
            seconds: self.seconds@,
            fraction: match self.fraction {
                Some(f) => Some(f@),
                None => None,
            },
        }
    }
}

/// The fields of a sequence of matches.
pub open spec fn fields_of(v: Seq<TagCapture>) -> Seq<TagFields> {
    v.map_values(|t: TagCapture| t@)
}

/// The compiled form of a regular expression. It is carried, never looked
/// into.
#[verifier::external_type_specification]
#[verifier::external_body]
pub struct ExRegex(Regex);

/// The regular expression that `Regex::new` makes of a pattern.
pub uninterp spec fn compiled(pattern: Seq<char>) -> Regex;

/// `Regex::new`, on the two patterns of this module. Both are valid and far
/// below the default size limit, so the call succeeds.
#[verifier::external_body]
pub(crate) fn compile(pattern: &str) -> (re: Regex)
    requires
        pattern@ == TAG_PATTERN@ || pattern@ == OFFSET_PATTERN@,
    ensures
        re == compiled(pattern@),
{
    Regex::new(pattern).unwrap()
}

/// `Regex::captures_iter` with the time tag pattern: the non-overlapping
/// matches in `line`, from left to right, each with its three groups.
#[verifier::external_body]
pub(crate) fn capture_tags(tag: &Regex, line: &str) -> (r: Vec<TagCapture>)
    requires
        *tag == compiled(TAG_PATTERN@),
    ensures
        fields_of(r@) == tags_in(line@),
{
    tag.captures_iter(line).map(
        |c|
            TagCapture {
                minutes: c[1].to_string(),
                seconds: c[2].to_string(),
                fraction: c.get(3).map(|m| m.as_str().to_string()),
            },
    ).collect()
}

/// `Regex::replace_all` with the time tag pattern and an empty replacement:
/// every match is cut out, the rest of `line` stays as it is.
#[verifier::external_body]
pub(crate) fn remove_tags(tag: &Regex, line: &str, replacement: &str) -> (r: String)
    requires
        *tag == compiled(TAG_PATTERN@),
        replacement@.len() == 0,
    ensures
        r@ == without_tags(line@),
{
    tag.replace_all(line, replacement).into_owned()
}

/// `Regex::captures` with the offset pattern: the first group of the match at
/// the start of `line`, if there is one.
#[verifier::external_body]
pub(crate) fn capture_offset(offset: &Regex, line: &str) -> (r: Option<String>)
    requires
        *offset == compiled(OFFSET_PATTERN@),
    ensures
        (match r {
            Some(field) => Some(field@),
            None => None,
        }) == offset_field(line@),
{
    offset.captures(line).map(|c| c[1].to_string())
}

/// What a field of digits counts for: nothing where a digit lies beyond ASCII.
pub open spec fn field_value(s: Seq<char>) -> nat {
    match text::unsigned_value(s) {
        Some(v) => v,
        None => 0,
    }
}

/// The milliseconds that a fraction stands for: its digits count from the
/// tenth of a second on.
pub open spec fn fraction_millis(fraction: Option<Seq<char>>) -> nat {
    match fraction {
        None => 0,
        Some(f) => if f.len() == 1 {
            field_value(f) * 100
        } else if f.len() == 2 {
            field_value(f) * 10
        } else {
            field_value(f)
        },
    }
}

/// The time that a tag names, in milliseconds.
pub open spec fn tag_millis(t: TagFields) -> nat {
    (field_value(t.minutes) * 60 + field_value(t.seconds)) * 1000 + fraction_millis(t.fraction)
}

/// Whether the third byte of a fraction ends a character. It always does in
/// one of ASCII digits; a wider digit may straddle it.
pub open spec fn splits_cleanly(fraction: Option<Seq<char>>) -> bool {
    match fraction {
        None => true,
        Some(f) => {
            let bytes = vstd::utf8::encode_utf8(f);
            vstd::utf8::is_char_boundary(
                bytes,
                if bytes.len() < 3 {
                    bytes.len() as int
                } else {
                    3
                },
            )
        },
    }
}

/// The offset, in milliseconds, that an offset tag sets: zero for a number
/// that 64 bits do not hold.
pub open spec fn offset_millis(field: Seq<char>) -> int {
    match text::signed_value(field) {
        Some(v) => if i64::MIN <= v <= i64::MAX {
            v
        } else {
            0
        },
        None => 0,
    }
}

/// The latest time, in milliseconds, that a tag can name.
pub const LATEST_MS: u64 = 60_039_999;

/// The field lengths that the time tag pattern allows.
pub open spec fn tag_shape(t: TagFields) -> bool {
    &&& 1 <= t.minutes.len() <= 3
    &&& t.seconds.len() == 2
    &&& t.fraction matches Some(f) ==> 1 <= f.len() <= 3
}

proof fn lemma_digit_run(s: Seq<char>, i: int)
    requires
        0 <= i,
    ensures
        digit_run(s, i) > 0 ==> i + digit_run(s, i) <= s.len(),
        forall|k: int| i <= k < i + digit_run(s, i) ==> digit(#[trigger] s[k]),
    decreases s.len() - i,
{
    if 0 <= i < s.len() && digit(s[i]) {
        lemma_digit_run(s, i + 1);
    }
}

/// Every time tag of a line has the lengths that the pattern allows.
pub proof fn lemma_tag_shapes(s: Seq<char>, i: int)
    requires
        0 <= i,
    ensures
        forall|k: int| 0 <= k < tags_from(s, i).len() ==> tag_shape(#[trigger] tags_from(s, i)[k]),
    decreases s.len() - i,
{
    if i < s.len() {
        match tag_at(s, i) {
            Some((fields, next)) => {
                let minutes = digit_run(s, i + 1);
                lemma_digit_run(s, i + 1);
                lemma_digit_run(s, i + 2 + minutes);
                lemma_digit_run(s, i + 5 + minutes);
                lemma_tag_shapes(s, next);
                let rest = tags_from(s, next);
                assert forall|k: int| 0 <= k < tags_from(s, i).len() implies tag_shape(
                    #[trigger] tags_from(s, i)[k],
                ) by {
                    if k > 0 {
                        assert(tags_from(s, i)[k] == rest[k - 1]);
                    }
                }
            },
            None => {
                lemma_tag_shapes(s, i + 1);
                assert(tags_from(s, i) == tags_from(s, i + 1));
            },
        }
    }
}

/// The characters of a fraction are digits of the line that it stands in.
pub proof fn lemma_fractions(s: Seq<char>, i: int, p: spec_fn(char) -> bool)
    requires
        0 <= i,
        text::every(s, p),
    ensures
        forall|k: int|
            0 <= k < tags_from(s, i).len() ==> ((#[trigger] tags_from(s, i)[k]).fraction matches Some(
                f,
            ) ==> text::every(f, p) && text::every(f, |c: char| digit(c))),
    decreases s.len() - i,
{
    if i < s.len() {
        match tag_at(s, i) {
            Some((fields, next)) => {
                let minutes = digit_run(s, i + 1);
                lemma_digit_run(s, i + 1);
                lemma_digit_run(s, i + 2 + minutes);
                lemma_digit_run(s, i + 5 + minutes);
                lemma_fractions(s, next, p);
                let rest = tags_from(s, next);
                assert forall|k: int| 0 <= k < tags_from(s, i).len() implies ((
                #[trigger] tags_from(s, i)[k]).fraction matches Some(f) ==> text::every(f, p)
                    && text::every(f, |c: char| digit(c))) by {
                    if k > 0 {
                        assert(tags_from(s, i)[k] == rest[k - 1]);
                    }
                }
            },
            None => {
                lemma_fractions(s, i + 1, p);
                assert(tags_from(s, i) == tags_from(s, i + 1));
            },
        }
    }
}

/// Taking the tags out of a line leaves only what was there.
pub proof fn lemma_untagged(s: Seq<char>, i: int, p: spec_fn(char) -> bool)
    requires
        0 <= i,
        text::every(s, p),
    ensures
        text::every(untagged_from(s, i), p),
    decreases s.len() - i,
{
    if i < s.len() {
        match tag_at(s, i) {
            Some((_, next)) => {
                lemma_untagged(s, next, p);
            },
            None => {
                lemma_untagged(s, i + 1, p);
            },
        }
    }
}

/// A fraction of ASCII digits splits cleanly.
pub proof fn lemma_ascii_splits_cleanly(f: Seq<char>)
    requires
        f.len() <= 3,
        text::ascii_digits(f),
    ensures
        splits_cleanly(Some(f)),
{
    assert(vstd::utf8::is_ascii_chars(f)) by {
        assert forall|i: int| 0 <= i < f.len() implies (#[trigger] f[i]) <= '\u{7f}' by {
            assert('0' <= f[i] <= '9');
        }
    }
    vstd::utf8::is_ascii_chars_encode_utf8(f);
    vstd::utf8::encode_utf8_valid_utf8(f);
    vstd::utf8::is_char_boundary_start_end_of_seq(vstd::utf8::encode_utf8(f));
}

proof fn lemma_short_value(s: Seq<char>)
    requires
        s.len() <= 3,
    ensures
        field_value(s) <= 999,
        s.len() <= 2 ==> field_value(s) <= 99,
        s.len() <= 1 ==> field_value(s) <= 9,
{
    if text::ascii_digits(s) {
        reveal_with_fuel(text::decimal_value, 4);
        if s.len() > 0 {
            let t = s.drop_last();
            assert('0' <= s[s.len() - 1] <= '9');
            if t.len() > 0 {
                let u = t.drop_last();
                assert(t.last() == s[s.len() - 2]);
                assert('0' <= s[s.len() - 2] <= '9');
                if u.len() > 0 {
                    assert(u.last() == s[s.len() - 3]);
                    assert('0' <= s[s.len() - 3] <= '9');
                    assert(u.drop_last().len() == 0);
                }
            }
        }
    }
}

/// A tag names no time beyond 1000 minutes and 40 seconds.
pub proof fn lemma_tag_millis_bound(t: TagFields)
    requires
        tag_shape(t),
    ensures
        tag_millis(t) <= LATEST_MS,
{
    lemma_short_value(t.minutes);
    lemma_short_value(t.seconds);
    if let Some(f) = t.fraction {
        lemma_short_value(f);
    }
}

/// What a captured field of at most three digits counts for.
fn read_field(field: &str) -> (r: u64)
    requires
        field@.len() <= 3,
    ensures
        r == field_value(field@),
{
    let chars: Vec<char> = text::chars_of(field);
    proof {
        lemma_short_value(field@);
    }
    text::parse_unsigned(chars.as_slice()).unwrap_or(0)
}

/// The time that a captured tag names, in milliseconds.
pub fn read_tag(t: &TagCapture) -> (r: u64)
    requires
        tag_shape(t@),
    ensures
        r == tag_millis(t@),
        r <= LATEST_MS,
{
    proof {
        lemma_tag_millis_bound(t@);
        lemma_short_value(t.minutes@);
        lemma_short_value(t.seconds@);
    }
    let minutes: u64 = read_field(t.minutes.as_str());
    let seconds: u64 = read_field(t.seconds.as_str());
    let fraction: u64 = match &t.fraction {
        None => 0,
        Some(f) => {
            proof {
                lemma_short_value(f@);
            }
            let count: usize = text::chars_of(f.as_str()).len();
            let value: u64 = read_field(f.as_str());
            if count == 1 {
                value * 100
            } else if count == 2 {
                value * 10
            } else {
                value
            }
        },
    };
    (minutes * 60 + seconds) * 1_000 + fraction
}

/// The offset, in milliseconds, that a captured offset field sets.
pub fn read_offset(field: &str) -> (r: i64)
    ensures
        r == offset_millis(field@),
{
    let chars: Vec<char> = text::chars_of(field);
    text::parse_signed(chars.as_slice()).unwrap_or(0)
}

/// Whether the third byte of a captured fraction ends a character.
pub fn fraction_splits_cleanly(fraction: &Option<String>) -> (r: bool)
    ensures
        r == splits_cleanly(
            match *fraction {
                Some(f) => Some(f@),
                None => None,
            },
        ),
{
    match fraction {
        None => true,
        Some(f) => {
            let bytes: usize = f.as_str().as_bytes().len();
            f.as_str().is_char_boundary(
                if bytes < 3 {
                    bytes
                } else {
                    3
                },
            )
        },
    }
}

/// A time tag as it is written, with a point or a colon in front of the
/// fraction.
pub open spec fn written_tag(t: TagFields, point: char) -> Seq<char> {
    seq!['['] + t.minutes + seq![':'] + t.seconds + (match t.fraction {
        Some(f) => seq![point] + f,
        None => Seq::empty(),
    }) + seq![']']
}

/// Whether fields make a time tag: one to three digits, two digits and, if
/// there is a fraction, one to three digits behind a point or a colon.
pub open spec fn makes_tag(t: TagFields, point: char) -> bool {
    &&& 1 <= t.minutes.len() <= 3
    &&& forall|k: int| 0 <= k < t.minutes.len() ==> digit(#[trigger] t.minutes[k])
    &&& t.seconds.len() == 2
    &&& forall|k: int| 0 <= k < t.seconds.len() ==> digit(#[trigger] t.seconds[k])
    &&& point == '.' || point == ':'
    &&& t.fraction matches Some(f) ==> 1 <= f.len() <= 3 && forall|k: int|
        0 <= k < f.len() ==> digit(#[trigger] f[k])
}

proof fn lemma_digit_run_is(s: Seq<char>, i: int, n: nat)
    requires
        0 <= i,
        i + n <= s.len(),
        forall|k: int| i <= k < i + n ==> digit(#[trigger] s[k]),
        i + n < s.len() ==> !digit(s[i + n]),
    ensures
        digit_run(s, i) == n,
    decreases n,
{
    if n > 0 {
        assert(digit(s[i]));
        lemma_digit_run_is(s, i + 1, (n - 1) as nat);
    }
}

/// A time tag is found wherever it is written, with its fields and its end.
pub proof fn law_written_tags_are_found(
    before: Seq<char>,
    t: TagFields,
    point: char,
    after: Seq<char>,
)
    requires
        makes_tag(t, point),
    ensures
        tag_at(before + written_tag(t, point) + after, before.len() as int) == Some(
            (t, (before.len() + written_tag(t, point).len()) as int),
        ),
{
    let w = written_tag(t, point);
    let s = before + w + after;
    let i = before.len() as int;
    let m = t.minutes.len();
    let colon = i + 1 + m;
    let end = colon + 3;
    assert forall|k: int| 0 <= k < w.len() implies s[i + k] == #[trigger] w[k] by {}
    assert(s[i] == w[0]);
    assert forall|k: int| i + 1 <= k < i + 1 + m implies digit(#[trigger] s[k]) by {
        assert(s[k] == w[k - i]);
        assert(w[k - i] == t.minutes[k - i - 1]);
    }
    assert(s[colon] == w[1 + m as int]);
    assert(w[1 + m as int] == ':');
    lemma_digit_run_is(s, i + 1, m);
    assert forall|k: int| colon + 1 <= k < colon + 3 implies digit(#[trigger] s[k]) by {
        assert(s[k] == w[k - i]);
        assert(w[k - i] == t.seconds[k - colon - 1]);
    }
    assert(s[end] == w[end - i]);
    lemma_digit_run_is(s, colon + 1, 2);
    assert(s.subrange(i + 1, colon) == t.minutes) by {
        assert forall|k: int| 0 <= k < m implies s.subrange(i + 1, colon)[k] == t.minutes[k] by {
            assert(s[i + 1 + k] == w[1 + k]);
        }
    }
    assert(s.subrange(colon + 1, end) == t.seconds) by {
        assert forall|k: int| 0 <= k < 2 implies s.subrange(colon + 1, end)[k] == t.seconds[k] by {
            assert(s[colon + 1 + k] == w[colon + 1 + k - i]);
        }
    }
    match t.fraction {
        None => {
            assert(w[end - i] == ']');
        },
        Some(f) => {
            let close = end + 1 + f.len();
            assert(w[end - i] == point);
            assert forall|k: int| end + 1 <= k < close implies digit(#[trigger] s[k]) by {
                assert(s[k] == w[k - i]);
                assert(w[k - i] == f[k - end - 1]);
            }
            assert(s[close] == w[close - i]);
            assert(w[close - i] == ']');
            lemma_digit_run_is(s, end + 1, f.len());
            assert(s.subrange(end + 1, close) == f) by {
                assert forall|k: int| 0 <= k < f.len() implies s.subrange(end + 1, close)[k]
                    == f[k] by {
                    assert(s[end + 1 + k] == w[end + 1 + k - i]);
                }
            }
        },
    }
}

/// Nothing but a written tag is found.
pub proof fn law_found_tags_are_written(s: Seq<char>, i: int)
    requires
        0 <= i,
    ensures
        tag_at(s, i) matches Some((t, next)) ==> {
            &&& i < next <= s.len()
            &&& (makes_tag(t, '.') && s.subrange(i, next) == written_tag(t, '.')) || (makes_tag(
                t,
                ':',
            ) && s.subrange(i, next) == written_tag(t, ':'))
        },
{
    if let Some((t, next)) = tag_at(s, i) {
        let m = digit_run(s, i + 1);
        let colon = i + 1 + m;
        let end = colon + 3;
        lemma_digit_run(s, i + 1);
        lemma_digit_run(s, colon + 1);
        lemma_digit_run(s, end + 1);
        if t.fraction is None {
            assert(makes_tag(t, '.'));
            assert(s.subrange(i, next) == written_tag(t, '.'));
        } else {
            assert(makes_tag(t, s[end]));
            assert(s.subrange(i, next) == written_tag(t, s[end]));
        }
    }
}

proof fn lemma_digit_run_shift(s: Seq<char>, k: int, i: int)
    requires
        0 <= k <= s.len(),
        0 <= i,
    ensures
        digit_run(s.skip(k), i) == digit_run(s, k + i),
    decreases s.len() - k - i,
{
    if i < s.len() - k && digit(s[k + i]) {
        lemma_digit_run_shift(s, k, i + 1);
    }
}

proof fn lemma_tag_at_shift(s: Seq<char>, k: int, i: int)
    requires
        0 <= k <= s.len(),
        0 <= i,
    ensures
        tag_at(s.skip(k), i) == (match tag_at(s, k + i) {
            Some((t, next)) => Some((t, next - k)),
            None => None,
        }),
{
    let r = s.skip(k);
    let m = digit_run(s, k + i + 1);
    lemma_digit_run_shift(s, k, i + 1);
    lemma_digit_run_shift(s, k, i + 2 + m);
    lemma_digit_run_shift(s, k, i + 5 + m);
    lemma_digit_run(s, k + i + 1);
    lemma_digit_run(s, k + i + 2 + m);
    lemma_digit_run(s, k + i + 5 + m);
    let f = digit_run(s, k + i + 5 + m);
    if tag_at(s, k + i) is Some {
        assert(r.subrange(i + 1, i + 1 + m) == s.subrange(k + i + 1, k + i + 1 + m));
        assert(r.subrange(i + 2 + m, i + 4 + m) == s.subrange(k + i + 2 + m, k + i + 4 + m));
        if !has_at(s, k + i + 4 + m, ']') {
            assert(r.subrange(i + 5 + m, i + 5 + m + f) == s.subrange(
                k + i + 5 + m,
                k + i + 5 + m + f,
            ));
        }
    }
}

proof fn lemma_tags_shift(s: Seq<char>, k: int, i: int)
    requires
        0 <= k <= s.len(),
        0 <= i,
    ensures
        tags_from(s.skip(k), i) == tags_from(s, k + i),
        untagged_from(s.skip(k), i) == untagged_from(s, k + i),
    decreases s.len() - k - i,
{
    if k + i < s.len() {
        lemma_tag_at_shift(s, k, i);
        match tag_at(s, k + i) {
            Some((t, next)) => {
                law_found_tags_are_written(s, k + i);
                lemma_tags_shift(s, k, next - k);
            },
            None => {
                lemma_tags_shift(s, k, i + 1);
            },
        }
    }
}

/// A line is read from left to right: a tag at its front gives its fields and
/// leaves no text, any other character stays as it is, and the rest of the
/// line is read on its own.
pub proof fn law_lines_are_read_from_the_left(s: Seq<char>)
    ensures
        s.len() == 0 ==> tags_in(s).len() == 0 && without_tags(s).len() == 0,
        s.len() > 0 ==> match tag_at(s, 0) {
            Some((t, next)) => {
                &&& tags_in(s) == seq![t] + tags_in(s.skip(next))
                &&& without_tags(s) == without_tags(s.skip(next))
            },
            None => {
                &&& tags_in(s) == tags_in(s.skip(1))
                &&& without_tags(s) == seq![s[0]] + without_tags(s.skip(1))
            },
        },
{
    if s.len() > 0 {
        match tag_at(s, 0) {
            Some((t, next)) => {
                law_found_tags_are_written(s, 0);
                lemma_tags_shift(s, next, 0);
            },
            None => {
                lemma_tags_shift(s, 1, 0);
            },
        }
    }
}

/// A tag in front of a line adds its fields to the tags of the line and
/// nothing to its text.
pub proof fn law_tags_in_front_add_up(t: TagFields, point: char, rest: Seq<char>)
    requires
        makes_tag(t, point),
    ensures
        tags_in(written_tag(t, point) + rest) == seq![t] + tags_in(rest),
        without_tags(written_tag(t, point) + rest) == without_tags(rest),
{
    let w = written_tag(t, point);
    let s = w + rest;
    law_written_tags_are_found(Seq::empty(), t, point, rest);
    assert(Seq::<char>::empty() + w + rest == s);
    law_lines_are_read_from_the_left(s);
    assert(s.skip(w.len() as int) == rest);
}

/// Text without an opening bracket holds no tag, and stays as it is.
pub proof fn law_text_without_brackets_stays(s: Seq<char>)
    requires
        forall|i: int| 0 <= i < s.len() ==> #[trigger] s[i] != '[',
    ensures
        tags_in(s).len() == 0,
        without_tags(s) == s,
    decreases s.len(),
{
    law_lines_are_read_from_the_left(s);
    if s.len() > 0 {
        law_found_tags_are_written(s, 0);
        if let Some((t, next)) = tag_at(s, 0) {
            assert(s.subrange(0, next)[0] == '[');
            assert(s[0] == '[');
        }
        let rest = s.skip(1);
        assert forall|i: int| 0 <= i < rest.len() implies #[trigger] rest[i] != '[' by {
            assert(rest[i] == s[i + 1]);
        }
        law_text_without_brackets_stays(rest);
        assert(seq![s[0]] + rest == s);
    }
}

/// The ASCII characters that count as digits are those from 0 to 9.
pub proof fn law_ascii_digits(c: char)
    requires
        (c as u32) < 128,
    ensures
        digit(c) == ('0' <= c <= '9'),
{
}

/// Whether eight characters open an offset tag, in any case.
pub open spec fn opens_offset(head: Seq<char>) -> bool {
    &&& head.len() == 8
    &&& head[0] == '['
    &&& head[1] == 'o' || head[1] == 'O'
    &&& head[2] == 'f' || head[2] == 'F'
    &&& head[3] == 'f' || head[3] == 'F'
    &&& head[4] == 's' || head[4] == 'S' || head[4] == '\u{17f}'
    &&& head[5] == 'e' || head[5] == 'E'
    &&& head[6] == 't' || head[6] == 'T'
    &&& head[7] == ':'
}

/// Whether a number can stand in an offset tag: digits, one or more, with at
/// most one sign in front.
pub open spec fn offset_number(sign: Seq<char>, digits: Seq<char>) -> bool {
    &&& sign.len() == 0 || sign == seq!['+'] || sign == seq!['-']
    &&& digits.len() > 0
    &&& forall|k: int| 0 <= k < digits.len() ==> digit(#[trigger] digits[k])
}

/// An offset tag at the front of a line gives the number that is written in
/// it, whatever follows.
pub proof fn law_written_offsets_are_found(
    head: Seq<char>,
    sign: Seq<char>,
    digits: Seq<char>,
    rest: Seq<char>,
)
    requires
        opens_offset(head),
        offset_number(sign, digits),
    ensures
        offset_field(head + sign + digits + seq![']'] + rest) == Some(sign + digits),
{
    let s = head + sign + digits + seq![']'] + rest;
    let from = 8 + sign.len() as int;
    let close = from + digits.len();
    assert forall|k: int| 0 <= k < 8 implies s[k] == #[trigger] head[k] by {}
    assert(s[0] == head[0] && s[1] == head[1] && s[2] == head[2] && s[3] == head[3]);
    assert(s[4] == head[4] && s[5] == head[5] && s[6] == head[6] && s[7] == head[7]);
    assert forall|k: int| from <= k < close implies digit(#[trigger] s[k]) by {
        assert(s[k] == digits[k - from]);
    }
    assert(s[close] == ']');
    lemma_digit_run_is(s, from, digits.len());
    if sign.len() == 0 {
        assert(s[8] == digits[0]);
        assert(digit(digits[0]));
    } else {
        assert(s[8] == sign[0]);
    }
    assert(s.subrange(8, close) == sign + digits);
}

/// Nothing but a written offset tag is found.
pub proof fn law_found_offsets_are_written(s: Seq<char>)
    ensures
        offset_field(s) matches Some(field) ==> {
            &&& opens_offset(s.take(8))
            &&& 8 + field.len() < s.len()
            &&& s.subrange(8, 8 + field.len() as int) == field
            &&& s[8 + field.len() as int] == ']'
            &&& offset_number(Seq::empty(), field) || (field.len() > 0 && offset_number(
                seq![field[0]],
                field.skip(1),
            ))
        },
{
    if let Some(field) = offset_field(s) {
        let from: int = if has_at(s, 8, '+') || has_at(s, 8, '-') {
            9
        } else {
            8
        };
        lemma_digit_run(s, from);
        if from == 8 {
            assert forall|k: int| 0 <= k < field.len() implies digit(#[trigger] field[k]) by {
                assert(field[k] == s[8 + k]);
            }
            assert(offset_number(Seq::empty(), field));
        } else {
            assert(field[0] == s[8]);
            let digits = field.skip(1);
            assert forall|k: int| 0 <= k < digits.len() implies digit(#[trigger] digits[k]) by {
                assert(digits[k] == s[9 + k]);
            }
            assert(offset_number(seq![field[0]], digits));
        }
    }
}

/// An offset is the number that is written, with its sign; one that 64 bits
/// do not hold, or that is not written in ASCII digits, is no offset.
pub proof fn law_offsets_are_what_is_written(digits: Seq<char>)
    requires
        digits.len() > 0,
    ensures
        (forall|k: int| 0 <= k < digits.len() ==> '0' <= #[trigger] digits[k] <= '9') ==> {
            let v = text::decimal_value(digits) as int;
            &&& v <= 0x7fff_ffff_ffff_ffff ==> offset_millis(digits) == v && offset_millis(
                seq!['+'] + digits,
            ) == v
            &&& v > 0x7fff_ffff_ffff_ffff ==> offset_millis(digits) == 0 && offset_millis(
                seq!['+'] + digits,
            ) == 0
            &&& v <= 0x8000_0000_0000_0000 ==> offset_millis(seq!['-'] + digits) == 0 - v
            &&& v > 0x8000_0000_0000_0000 ==> offset_millis(seq!['-'] + digits) == 0
        },
        !(forall|k: int| 0 <= k < digits.len() ==> '0' <= #[trigger] digits[k] <= '9') ==> {
            &&& offset_millis(seq!['+'] + digits) == 0
            &&& offset_millis(seq!['-'] + digits) == 0
            &&& digit(digits[0]) ==> offset_millis(digits) == 0
        },
{
    text::law_numbers_are_digits(digits);
}

/// Whether every character is an ASCII digit.
pub open spec fn ascii(s: Seq<char>) -> bool {
    forall|k: int| 0 <= k < s.len() ==> '0' <= #[trigger] s[k] <= '9'
}

/// The time of a tag written in ASCII digits: sixty thousand milliseconds for
/// each minute, a thousand for each second, and the fraction by its length;
/// one digit counts tenths, two count hundredths and three thousandths.
pub proof fn law_time_of_a_tag(t: TagFields)
    requires
        t.minutes.len() > 0 && ascii(t.minutes),
        t.seconds.len() > 0 && ascii(t.seconds),
        t.fraction matches Some(f) ==> 1 <= f.len() <= 3 && ascii(f),
    ensures
        tag_millis(t) == 60_000 * text::decimal_value(t.minutes) + 1_000 * text::decimal_value(
            t.seconds,
        ) + (match t.fraction {
            None => 0,
            Some(f) => if f.len() == 1 {
                100 * text::decimal_value(f)
            } else if f.len() == 2 {
                10 * text::decimal_value(f)
            } else {
                text::decimal_value(f)
            },
        }),
{
    text::law_numbers_are_digits(t.minutes);
    text::law_numbers_are_digits(t.seconds);
    if let Some(f) = t.fraction {
        text::law_numbers_are_digits(f);
    }
}

/// How the time of a tag follows its fields: zeros in front of the minutes
/// change nothing, a minute more is 60000 ms more and a second more 1000 ms,
/// whatever the number of digits; and zeros behind a fraction change nothing.
pub proof fn law_time_follows_the_fields(t: TagFields, minutes: Seq<char>, seconds: Seq<char>)
    requires
        t.minutes.len() > 0 && ascii(t.minutes),
        t.seconds.len() > 0 && ascii(t.seconds),
        minutes.len() > 0 && ascii(minutes),
        seconds.len() > 0 && ascii(seconds),
    ensures
        tag_millis(TagFields { minutes: seq!['0'] + t.minutes, ..t }) == tag_millis(t),
        tag_millis(TagFields { minutes, ..t }) - tag_millis(t) == 60_000 * (text::decimal_value(
            minutes,
        ) - text::decimal_value(t.minutes)),
        tag_millis(TagFields { seconds, ..t }) - tag_millis(t) == 1_000 * (text::decimal_value(
            seconds,
        ) - text::decimal_value(t.seconds)),
        t.fraction matches Some(f) ==> (1 <= f.len() < 3 && ascii(f) ==> tag_millis(
            TagFields { fraction: Some(f.push('0')), ..t },
        ) == tag_millis(t)),
        t.fraction == Some(seq!['0']) ==> tag_millis(TagFields { fraction: None, ..t })
            == tag_millis(t),
{
    text::law_digits_count_by_their_place(Seq::empty(), t.minutes, '0');
    let padded = seq!['0'] + t.minutes;
    assert(ascii(padded)) by {
        assert forall|k: int| 0 <= k < padded.len() implies '0' <= #[trigger] padded[k] <= '9' by {
            if k > 0 {
                assert(padded[k] == t.minutes[k - 1]);
            }
        }
    }
    text::law_numbers_are_digits(t.minutes);
    text::law_numbers_are_digits(t.seconds);
    text::law_numbers_are_digits(padded);
    text::law_numbers_are_digits(minutes);
    text::law_numbers_are_digits(seconds);
    if let Some(f) = t.fraction {
        if 1 <= f.len() < 3 && ascii(f) {
            let longer = f.push('0');
            assert(ascii(longer)) by {
                assert forall|k: int| 0 <= k < longer.len() implies '0' <= #[trigger] longer[k]
                    <= '9' by {
                    if k < f.len() {
                        assert(longer[k] == f[k]);
                    }
                }
            }
            text::law_numbers_are_digits(f);
            text::law_numbers_are_digits(longer);
            assert(longer.drop_last() == f);
        }
        if f == seq!['0'] {
            text::law_digits_count_by_their_place(Seq::empty(), Seq::empty(), '0');
            assert(ascii(f));
            text::law_numbers_are_digits(f);
        }
    }
}

/// A field with a digit beyond ASCII counts for nothing.
pub proof fn law_wide_fields_count_for_nothing(t: TagFields)
    ensures
        !ascii(t.minutes) ==> tag_millis(t) == tag_millis(TagFields { minutes: seq!['0'], ..t }),
        !ascii(t.seconds) ==> tag_millis(t) == tag_millis(TagFields { seconds: seq!['0'], ..t }),
        t.fraction matches Some(f) ==> (!ascii(f) ==> tag_millis(t) == tag_millis(
            TagFields { fraction: None, ..t },
        )),
{
    text::law_numbers_are_digits(seq!['0']);
    text::law_digits_count_by_their_place(Seq::empty(), Seq::empty(), '0');
    text::law_numbers_are_digits(t.minutes);
    text::law_numbers_are_digits(t.seconds);
    if let Some(f) = t.fraction {
        text::law_numbers_are_digits(f);
    }
}

/// The number of bytes that the first `k` characters of a text take.
pub open spec fn bytes_in_front(f: Seq<char>, k: int) -> int {
    vstd::utf8::encode_utf8(f.take(k)).len() as int
}

proof fn lemma_bytes_in_front(f: Seq<char>, k: int)
    requires
        0 <= k <= f.len(),
    ensures
        0 <= bytes_in_front(f, k) <= vstd::utf8::encode_utf8(f).len(),
        k > 0 ==> bytes_in_front(f, k) == vstd::utf8::encode_scalar(f[0] as u32).len()
            + bytes_in_front(f.drop_first(), k - 1),
    decreases f.len(),
{
    if k > 0 {
        assert(f.take(k).drop_first() == f.drop_first().take(k - 1));
        lemma_bytes_in_front(f.drop_first(), k - 1);
    } else {
        assert(f.take(0).len() == 0);
    }
}

proof fn lemma_boundaries_are_between_characters(f: Seq<char>, at: int)
    ensures
        vstd::utf8::is_char_boundary(vstd::utf8::encode_utf8(f), at) == exists|k: int|
            0 <= k <= f.len() && #[trigger] bytes_in_front(f, k) == at,
    decreases f.len(),
{
    let bytes = vstd::utf8::encode_utf8(f);
    vstd::utf8::encode_utf8_valid_utf8(f);
    assert(bytes_in_front(f, 0) == 0) by {
        assert(f.take(0).len() == 0);
    }
    assert forall|k: int| 0 <= k <= f.len() implies 0 <= #[trigger] bytes_in_front(f, k)
        <= bytes.len() by {
        lemma_bytes_in_front(f, k);
    }
    if 0 < at <= bytes.len() {
        let rest = f.drop_first();
        let first = vstd::utf8::encode_scalar(f[0] as u32).len() as int;
        vstd::utf8::encode_utf8_first_scalar(f);
        assert(vstd::utf8::pop_first_scalar(bytes) == vstd::utf8::encode_utf8(rest));
        lemma_boundaries_are_between_characters(rest, at - first);
        if exists|k: int| 0 <= k <= rest.len() && #[trigger] bytes_in_front(rest, k) == at - first {
            let k = choose|k: int|
                0 <= k <= rest.len() && #[trigger] bytes_in_front(rest, k) == at - first;
            lemma_bytes_in_front(f, k + 1);
            assert(bytes_in_front(f, k + 1) == at);
        }
        if exists|k: int| 0 <= k <= f.len() && #[trigger] bytes_in_front(f, k) == at {
            let k = choose|k: int| 0 <= k <= f.len() && #[trigger] bytes_in_front(f, k) == at;
            lemma_bytes_in_front(f, k);
            assert(bytes_in_front(rest, k - 1) == at - first);
        }
    }
}

/// A fraction of three bytes or fewer splits cleanly, and a longer one exactly
/// where some of its first characters take three bytes together.
pub proof fn law_fractions_split_between_characters(f: Seq<char>)
    ensures
        splits_cleanly(None),
        vstd::utf8::encode_utf8(f).len() <= 3 ==> splits_cleanly(Some(f)),
        vstd::utf8::encode_utf8(f).len() > 3 ==> splits_cleanly(Some(f)) == exists|k: int|
            0 <= k <= f.len() && #[trigger] bytes_in_front(f, k) == 3,
{
    let total = vstd::utf8::encode_utf8(f).len() as int;
    lemma_boundaries_are_between_characters(
        f,
        if total < 3 {
            total
        } else {
            3
        },
    );
    assert(f.take(f.len() as int) == f);
    assert(bytes_in_front(f, f.len() as int) == total);
}

/// A captured tag stands for its three fields, and matches for theirs in their
/// order.
pub proof fn law_captures_stand_for_their_fields(tags: Seq<TagCapture>, i: int)
    requires
        0 <= i < tags.len(),
    ensures
        fields_of(tags).len() == tags.len(),
        fields_of(tags)[i].minutes == tags[i].minutes@,
        fields_of(tags)[i].seconds == tags[i].seconds@,
        tags[i].fraction is None ==> fields_of(tags)[i].fraction is None,
        tags[i].fraction matches Some(f) ==> fields_of(tags)[i].fraction == Some(f@),
{
}

} // verus!
