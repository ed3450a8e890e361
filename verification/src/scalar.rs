//! Field-level reading of RBMEM text: scalars, `key: value` lines, list
//! items, integers and confidence scores.
use vstd::prelude::*;
use crate::text::{
    chars_eq, chars_of, copy_range, lower_chars, lower_seq, starts_with_chars, trim, trimmed,
};

verus! {

/// `s.trim_start_matches(c)`.
pub open spec fn strip_leading(s: Seq<char>, c: char) -> Seq<char>
    decreases s.len(),
{
    if s.len() > 0 && s[0] == c {
        strip_leading(s.drop_first(), c)
    } else {
        s
    }
}

/// `s.trim_end_matches(c)`.
pub open spec fn strip_trailing(s: Seq<char>, c: char) -> Seq<char>
    decreases s.len(),
{
    if s.len() > 0 && s.last() == c {
        strip_trailing(s.drop_last(), c)
    } else {
        s
    }
}

/// `s.trim_matches(c)`.
pub open spec fn trim_matches(s: Seq<char>, c: char) -> Seq<char> {
    strip_trailing(strip_leading(s, c), c)
}

/// The text before the first `c` (all of it where there is none).
pub open spec fn before_char(s: Seq<char>, c: char) -> Seq<char>
    decreases s.len(),
{
    if s.len() == 0 {
        s
    } else if s[0] == c {
        Seq::empty()
    } else {
        seq![s[0]] + before_char(s.drop_first(), c)
    }
}

/// A scalar value as written after `key:`: trimmed, `null` in any case read
/// as `null`, quotes stripped, and a `#` comment cut off.
pub open spec fn clean_scalar(v: Seq<char>) -> Seq<char> {
    let t = trim(v);
    if lower_seq(t) == "null"@ {
        "null"@
    } else {
        trim(before_char(trim_matches(trim_matches(t, '"'), '\''), '#'))
    }
}

/// Inline content after `content:`: trimmed and quotes stripped.
pub open spec fn clean_inline_content(v: Seq<char>) -> Seq<char> {
    trim_matches(trim_matches(trim(v), '"'), '\'')
}

/// Spaces and tabs skipped at the start.
pub open spec fn skip_space0(s: Seq<char>) -> Seq<char>
    decreases s.len(),
{
    if s.len() > 0 && (s[0] == ' ' || s[0] == '\t') {
        skip_space0(s.drop_first())
    } else {
        s
    }
}

/// The text up to the end of the line: up to a `\n` or `\r\n`; a `\r` not
/// followed by `\n` is an error.
pub open spec fn not_line_ending(s: Seq<char>) -> Option<Seq<char>>
    decreases s.len(),
{
    if s.len() == 0 {
        Some(s)
    } else if s[0] == '\n' {
        Some(Seq::empty())
    } else if s[0] == '\r' {
        if s.len() > 1 && s[1] == '\n' {
            Some(Seq::empty())
        } else {
            None
        }
    } else {
        match not_line_ending(s.drop_first()) {
            Some(r) => Some(seq![s[0]] + r),
            None => None,
        }
    }
}

/// The value after `: ` (spaces allowed around the colon), cleaned.
pub open spec fn value_after_colon(s: Seq<char>) -> Option<Seq<char>> {
    let a = skip_space0(s);
    if a.len() > 0 && a[0] == ':' {
        match not_line_ending(skip_space0(a.drop_first())) {
            Some(v) => Some(clean_scalar(v)),
            None => None,
        }
    } else {
        None
    }
}

/// `key: value` at the start of a line.
pub open spec fn field_value(line: Seq<char>, key: Seq<char>) -> Option<Seq<char>> {
    if key.is_prefix_of(line) {
        value_after_colon(line.skip(key.len() as int))
    } else {
        None
    }
}

/// `- key: value`, a list item that opens with a field.
pub open spec fn dash_field_value(line: Seq<char>, key: Seq<char>) -> Option<Seq<char>> {
    if line.len() > 0 && line[0] == '-' {
        field_value(skip_space0(line.drop_first()), key)
    } else {
        None
    }
}

fn strip_leading_exec(v: &[char], c: char) -> (r: usize)
    ensures
        r <= v@.len(),
        v@.skip(r as int) == strip_leading(v@, c),
{
    let mut i: usize = 0;
    assert(v@.skip(0) =~= v@);
    while i < v.len() && v[i] == c
        invariant
            i <= v@.len(),
            strip_leading(v@, c) == strip_leading(v@.skip(i as int), c),
        decreases v@.len() - i,
    {
        assert(v@.skip(i as int).drop_first() =~= v@.skip(i + 1));
        i += 1;
    }
    i
}

fn strip_trailing_exec(v: &[char], c: char) -> (r: usize)
    ensures
        r <= v@.len(),
        v@.take(r as int) == strip_trailing(v@, c),
{
    let mut i: usize = v.len();
    assert(v@.take(i as int) =~= v@);
    while i > 0 && v[i - 1] == c
        invariant
            i <= v@.len(),
            strip_trailing(v@, c) == strip_trailing(v@.take(i as int), c),
        decreases i,
    {
        assert(v@.take(i as int).drop_last() =~= v@.take(i - 1));
        i -= 1;
    }
    i
}

pub fn trim_matches_chars(v: &[char], c: char) -> (r: Vec<char>)
    ensures
        r@ == trim_matches(v@, c),
{
    let a = strip_leading_exec(v, c);
    let rest = copy_range(v, a, v.len());
    assert(rest@ =~= v@.skip(a as int));
    let b = strip_trailing_exec(&rest, c);
    copy_range(&rest, 0, b)
}

fn before_char_exec(v: &[char], c: char) -> (r: Vec<char>)
    ensures
        r@ == before_char(v@, c),
{
    let mut i: usize = 0;
    assert(v@.take(0) =~= Seq::<char>::empty());
    assert(v@.skip(0) =~= v@);
    assert(v@.take(0) + before_char(v@.skip(0), c) =~= before_char(v@, c));
    while i < v.len() && v[i] != c
        invariant
            i <= v@.len(),
            before_char(v@, c) == v@.take(i as int) + before_char(v@.skip(i as int), c),
        decreases v@.len() - i,
    {
        assert(v@.skip(i as int).drop_first() =~= v@.skip(i + 1));
        assert(v@.take(i + 1) =~= v@.take(i as int) + seq![v@[i as int]]);
        i += 1;
    }
    proof {
        assert(v@.skip(0) =~= v@);
    }
    assert(before_char(v@.skip(i as int), c) =~= Seq::<char>::empty());
    copy_range(v, 0, i)
}

pub fn clean_scalar_chars(v: &[char]) -> (r: Vec<char>)
    ensures
        r@ == clean_scalar(v@),
{
    let t = trimmed(v);
    let lowered = lower_chars(&t);
    let null = chars_of("null");
    if chars_eq(&lowered, &null) {
        return null;
    }
    let a = trim_matches_chars(&t, '"');
    let b = trim_matches_chars(&a, '\'');
    let c = before_char_exec(&b, '#');
    trimmed(&c)
}

pub fn clean_inline_content_chars(v: &[char]) -> (r: Vec<char>)
    ensures
        r@ == clean_inline_content(v@),
{
    let t = trimmed(v);
    let a = trim_matches_chars(&t, '"');
    trim_matches_chars(&a, '\'')
}

fn skip_space0_exec(v: &[char], from: usize) -> (r: usize)
    requires
        from <= v@.len(),
    ensures
        from <= r <= v@.len(),
        v@.skip(r as int) == skip_space0(v@.skip(from as int)),
{
    let mut i: usize = from;
    while i < v.len() && (v[i] == ' ' || v[i] == '\t')
        invariant
            from <= i <= v@.len(),
            skip_space0(v@.skip(from as int)) == skip_space0(v@.skip(i as int)),
        decreases v@.len() - i,
    {
        assert(v@.skip(i as int).drop_first() =~= v@.skip(i + 1));
        i += 1;
    }
    i
}

fn not_line_ending_exec(v: &[char], from: usize) -> (r: Option<Vec<char>>)
    requires
        from <= v@.len(),
    ensures
        r matches Some(x) ==> not_line_ending(v@.skip(from as int)) == Some(x@),
        r is None ==> not_line_ending(v@.skip(from as int)) is None,
{
    let mut i: usize = from;
    while i < v.len() && v[i] != '\n' && v[i] != '\r'
        invariant
            from <= i <= v@.len(),
            not_line_ending(v@.skip(from as int)) == match not_line_ending(v@.skip(i as int)) {
                Some(rest) => Some(v@.subrange(from as int, i as int) + rest),
                None => None,
            },
        decreases v@.len() - i,
    {
        assert(v@.skip(i as int).drop_first() =~= v@.skip(i + 1));
        assert(v@.subrange(from as int, i + 1) =~= v@.subrange(from as int, i as int) + seq![v@[i as int]]);
        i += 1;
    }
    if i < v.len() && v[i] == '\r' && !(i + 1 < v.len() && v[i + 1] == '\n') {
        assert(v@.skip(i as int)[0] == '\r');
        return None;
    }
    assert(not_line_ending(v@.skip(i as int)) == Some(Seq::<char>::empty()));
    assert(v@.subrange(from as int, i as int) + Seq::<char>::empty() =~= v@.subrange(from as int, i as int));
    Some(copy_range(v, from, i))
}

fn value_after_colon_exec(v: &[char], from: usize) -> (r: Option<Vec<char>>)
    requires
        from <= v@.len(),
    ensures
        r matches Some(x) ==> value_after_colon(v@.skip(from as int)) == Some(x@),
        r is None ==> value_after_colon(v@.skip(from as int)) is None,
{
    let a = skip_space0_exec(v, from);
    if a < v.len() && v[a] == ':' {
        assert(v@.skip(a as int).drop_first() =~= v@.skip(a + 1));
        let b = skip_space0_exec(v, a + 1);
        match not_line_ending_exec(v, b) {
            Some(x) => Some(clean_scalar_chars(&x)),
            None => None,
        }
    } else {
        None
    }
}

/// `key: value` at the start of a line.
pub fn parse_field_line(line: &[char], key: &str) -> (r: Option<Vec<char>>)
    ensures
        r matches Some(x) ==> field_value(line@, key@) == Some(x@),
        r is None ==> field_value(line@, key@) is None,
{
    let k = chars_of(key);
    if starts_with_chars(line, &k) {
        value_after_colon_exec(line, k.len())
    } else {
        None
    }
}

/// `- key: value`.
pub fn parse_dash_field(line: &[char], key: &str) -> (r: Option<Vec<char>>)
    ensures
        r matches Some(x) ==> dash_field_value(line@, key@) == Some(x@),
        r is None ==> dash_field_value(line@, key@) is None,
{
    if line.len() == 0 || line[0] != '-' {
        return None;
    }
    assert(line@.skip(1) =~= line@.drop_first());
    let a = skip_space0_exec(line, 1);
    let rest = copy_range(line, a, line.len());
    assert(rest@ =~= line@.skip(a as int));
    parse_field_line(&rest, key)
}

// ---------------------------------------------------------------------------
// Numbers
// ---------------------------------------------------------------------------

pub open spec fn is_digit(c: char) -> bool {
    '0' <= c && c <= '9'
}

pub open spec fn all_digits(s: Seq<char>) -> bool {
    forall|i: int| 0 <= i < s.len() ==> is_digit(#[trigger] s[i])
}

pub open spec fn digit_value(c: char) -> nat {
    ((c as u32) - 48) as nat
}

/// The number that a run of decimal digits writes.
pub open spec fn digits_value(s: Seq<char>) -> nat
    decreases s.len(),
{
    if s.len() == 0 {
        0
    } else {
        digits_value(s.drop_last()) * 10 + digit_value(s.last())
    }
}

/// `i64::from_str`: an optional sign, then one or more digits, in range.
pub open spec fn parse_i64_text(s: Seq<char>) -> Option<i64> {
    let (neg, body) = if s.len() > 0 && s[0] == '-' {
        (true, s.drop_first())
    } else if s.len() > 0 && s[0] == '+' {
        (false, s.drop_first())
    } else {
        (false, s)
    };
    if body.len() == 0 || !all_digits(body) {
        None
    } else {
        let v: int = if neg {
            -(digits_value(body) as int)
        } else {
            digits_value(body) as int
        };
        if i64::MIN <= v <= i64::MAX {
            Some(v as i64)
        } else {
            None
        }
    }
}

proof fn lemma_digits_value_step(s: Seq<char>, i: int)
    requires
        0 <= i < s.len(),
    ensures
        digits_value(s.take(i + 1)) == digits_value(s.take(i)) * 10 + digit_value(s[i]),
{
    assert(s.take(i + 1).drop_last() =~= s.take(i));
}

proof fn lemma_digits_value_monotone(s: Seq<char>, i: int)
    requires
        0 <= i <= s.len(),
    ensures
        digits_value(s.take(i)) <= digits_value(s),
    decreases s.len() - i,
{
    if i < s.len() {
        lemma_digits_value_monotone(s, i + 1);
        lemma_digits_value_step(s, i);
    } else {
        assert(s.take(i) =~= s);
    }
}

/// `text.parse::<i64>()`.
pub fn parse_i64(text: &[char]) -> (r: Option<i64>)
    ensures
        r == parse_i64_text(text@),
{
    let n = text.len();
    let mut start: usize = 0;
    let mut neg = false;
    if n > 0 && text[0] == '-' {
        start = 1;
        neg = true;
    } else if n > 0 && text[0] == '+' {
        start = 1;
    }
    let body = copy_range(text, start, n);
    assert(start == 1 ==> body@ =~= text@.drop_first());
    assert(start == 0 ==> body@ =~= text@);
    if body.len() == 0 {
        return None;
    }
    let mut value: i128 = 0;
    let limit: i128 = 9_223_372_036_854_775_808;
    let mut i: usize = 0;
    assert(body@.take(0) =~= Seq::<char>::empty());
    while i < body.len()
        invariant
            i <= body@.len(),
            limit == 9_223_372_036_854_775_808,
            n == text@.len(),
            (n > 0 && text@[0] == '-') ==> body@ == text@.drop_first() && neg,
            (n > 0 && text@[0] == '+') ==> body@ == text@.drop_first() && !neg,
            !(n > 0 && (text@[0] == '-' || text@[0] == '+')) ==> body@ == text@ && !neg,
            0 <= value <= limit,
            all_digits(body@.take(i as int)),
            value == digits_value(body@.take(i as int)) || (value == limit && digits_value(
                body@.take(i as int),
            ) >= limit),
        decreases body@.len() - i,
    {
        let c = body[i];
        if !('0' <= c && c <= '9') {
            assert(!is_digit(body@[i as int]));
            assert(!all_digits(body@));
            return None;
        }
        assert(is_digit(c));
        proof {
            lemma_digits_value_step(body@, i as int);
        }
        let d = ((c as u32) - 48) as i128;
        if value >= limit {
            value = limit;
        } else {
            assert(value * 10 <= limit * 10) by (nonlinear_arith)
                requires
                    0 <= value <= limit,
            ;
            let next = value * 10 + d;
            value = if next > limit {
                limit
            } else {
                next
            };
        }
        assert(all_digits(body@.take(i + 1))) by {
            assert forall|k: int| 0 <= k < i + 1 implies is_digit(#[trigger] body@.take(i + 1)[k]) by {
                if k < i {
                    assert(body@.take(i + 1)[k] == body@.take(i as int)[k]);
                }
            }
        }
        i += 1;
    }
    assert(body@.take(body@.len() as int) =~= body@);
    if neg {
        if value == limit {
            return if exact_limit(&body) {
                Some(-9_223_372_036_854_775_807i64 - 1)
            } else {
                None
            };
        }
        Some((0 - value) as i64)
    } else {
        if value >= limit {
            return None;
        }
        Some(value as i64)
    }
}

/// Whether a run of digits writes exactly 2^63.
fn exact_limit(body: &Vec<char>) -> (r: bool)
    requires
        all_digits(body@),
    ensures
        r == (digits_value(body@) == 9_223_372_036_854_775_808),
{
    let mut value: i128 = 0;
    let limit: i128 = 9_223_372_036_854_775_808;
    let mut i: usize = 0;
    assert(body@.take(0) =~= Seq::<char>::empty());
    while i < body.len()
        invariant
            i <= body@.len(),
            limit == 9_223_372_036_854_775_808,
            all_digits(body@),
            0 <= value <= limit,
            value == digits_value(body@.take(i as int)),
        decreases body@.len() - i,
    {
        let c = body[i];
        assert(is_digit(body@[i as int]));
        proof {
            lemma_digits_value_step(body@, i as int);
        }
        let d = ((c as u32) - 48) as i128;
        assert(value * 10 <= limit * 10) by (nonlinear_arith)
            requires
                0 <= value <= limit,
        ;
        let next = value * 10 + d;
        if next > limit {
            proof {
                lemma_digits_value_monotone(body@, i + 1);
            }
            return false;
        }
        value = next;
        i += 1;
    }
    assert(body@.take(body@.len() as int) =~= body@);
    value == limit
}


/// The text after the first `c` (`None` where there is none).
pub open spec fn after_char(s: Seq<char>, c: char) -> Option<Seq<char>>
    decreases s.len(),
{
    if s.len() == 0 {
        None
    } else if s[0] == c {
        Some(s.drop_first())
    } else {
        after_char(s.drop_first(), c)
    }
}

/// The `k`-th digit after the decimal point (0 past the end).
pub open spec fn frac_digit(f: Seq<char>, k: int) -> nat {
    if 0 <= k < f.len() {
        digit_value(f[k])
    } else {
        0
    }
}

pub open spec fn has_nonzero_digit(f: Seq<char>) -> bool {
    exists|k: int| 0 <= k < f.len() && f[k] != '0'
}

/// A confidence score in hundredths from decimal text: an optional sign,
/// digits with an optional fractional part. Values above 1 are read as
/// percentages; the result is clamped to 0..=1 and rounded half up.
pub open spec fn parse_confidence_text(s: Seq<char>) -> Option<u32> {
    let (neg, body) = if s.len() > 0 && s[0] == '-' {
        (true, s.drop_first())
    } else if s.len() > 0 && s[0] == '+' {
        (false, s.drop_first())
    } else {
        (false, s)
    };
    let int_part = before_char(body, '.');
    let frac = match after_char(body, '.') {
        Some(f) => f,
        None => Seq::empty(),
    };
    if !all_digits(int_part) || !all_digits(frac) || int_part.len() + frac.len() == 0 {
        None
    } else {
        let i = digits_value(int_part);
        let above_one = i > 1 || (i == 1 && has_nonzero_digit(frac));
        let h: int = if neg && (i > 0 || has_nonzero_digit(frac)) {
            0
        } else if above_one {
            i + (if frac_digit(frac, 0) >= 5 { 1int } else { 0int })
        } else {
            i * 100 + frac_digit(frac, 0) * 10 + frac_digit(frac, 1) + (if frac_digit(frac, 2) >= 5 {
                1int
            } else {
                0int
            })
        };
        Some(if h > 100 { 100u32 } else { h as u32 })
    }
}

/// Reads the digits of `v` as a number, capped at 1000; `None` if a
/// character is not a digit.
fn capped_digits(v: &[char]) -> (r: Option<u64>)
    ensures
        r matches Some(x) ==> all_digits(v@) && x == (if digits_value(v@) > 1000 { 1000 } else { digits_value(v@) }),
        r is None ==> !all_digits(v@),
{
    let mut value: u64 = 0;
    let mut i: usize = 0;
    assert(v@.take(0) =~= Seq::<char>::empty());
    while i < v.len()
        invariant
            i <= v@.len(),
            all_digits(v@.take(i as int)),
            value == (if digits_value(v@.take(i as int)) > 1000 { 1000 } else { digits_value(v@.take(i as int)) }),
        decreases v@.len() - i,
    {
        let c = v[i];
        if !('0' <= c && c <= '9') {
            assert(!is_digit(v@[i as int]));
            return None;
        }
        proof {
            lemma_digits_value_step(v@, i as int);
        }
        let d = ((c as u32) - 48) as u64;
        let next = value * 10 + d;
        value = if next > 1000 { 1000 } else { next };
        assert(all_digits(v@.take(i + 1))) by {
            assert forall|k: int| 0 <= k < i + 1 implies is_digit(#[trigger] v@.take(i + 1)[k]) by {
                if k < i {
                    assert(v@.take(i + 1)[k] == v@.take(i as int)[k]);
                }
            }
        }
        i += 1;
    }
    assert(v@.take(v@.len() as int) =~= v@);
    Some(value)
}

pub fn split_at_char(v: &[char], c: char) -> (r: (Vec<char>, Option<Vec<char>>))
    ensures
        r.0@ == before_char(v@, c),
        r.1 matches Some(x) ==> after_char(v@, c) == Some(x@),
        r.1 is None ==> after_char(v@, c) is None,
{
    let mut i: usize = 0;
    assert(v@.skip(0) =~= v@);
    assert(v@.take(0) + before_char(v@.skip(0), c) =~= before_char(v@, c));
    while i < v.len() && v[i] != c
        invariant
            i <= v@.len(),
            before_char(v@, c) == v@.take(i as int) + before_char(v@.skip(i as int), c),
            after_char(v@, c) == after_char(v@.skip(i as int), c),
        decreases v@.len() - i,
    {
        assert(v@.skip(i as int).drop_first() =~= v@.skip(i + 1));
        assert(v@.take(i + 1) =~= v@.take(i as int) + seq![v@[i as int]]);
        i += 1;
    }
    if i < v.len() {
        assert(before_char(v@.skip(i as int), c) =~= Seq::<char>::empty());
        assert(v@.take(i as int) + Seq::<char>::empty() =~= v@.take(i as int));
        assert(v@.skip(i as int).drop_first() =~= v@.skip(i + 1));
        (copy_range(v, 0, i), Some(copy_range(v, i + 1, v.len())))
    } else {
        assert(v@.take(i as int) + v@.skip(i as int) =~= v@);
        (copy_range(v, 0, i), None)
    }
}

fn has_nonzero_exec(v: &[char]) -> (r: bool)
    ensures
        r == has_nonzero_digit(v@),
{
    let mut i: usize = 0;
    while i < v.len()
        invariant
            i <= v@.len(),
            forall|k: int| 0 <= k < i ==> v@[k] == '0',
        decreases v@.len() - i,
    {
        if v[i] != '0' {
            return true;
        }
        i += 1;
    }
    false
}

fn frac_digit_exec(f: &[char], k: usize) -> (r: u64)
    requires
        all_digits(f@),
    ensures
        r == frac_digit(f@, k as int),
        r <= 9,
{
    if k < f.len() {
        assert(is_digit(f@[k as int]));
        ((f[k] as u32) - 48) as u64
    } else {
        0
    }
}

/// Reads a confidence score as hundredths.
pub fn parse_confidence(text: &[char]) -> (r: Option<u32>)
    ensures
        r == parse_confidence_text(text@),
{
    let n = text.len();
    let mut neg = false;
    let body = if n > 0 && text[0] == '-' {
        neg = true;
        copy_range(text, 1, n)
    } else if n > 0 && text[0] == '+' {
        copy_range(text, 1, n)
    } else {
        copy_range(text, 0, n)
    };
    assert((n > 0 && (text@[0] == '-' || text@[0] == '+')) ==> body@ =~= text@.drop_first());
    assert(!(n > 0 && (text@[0] == '-' || text@[0] == '+')) ==> body@ =~= text@);
    let (int_part, frac_opt) = split_at_char(&body, '.');
    let frac = match frac_opt {
        Some(f) => f,
        None => Vec::new(),
    };
    assert(frac@ == match after_char(body@, '.') {
        Some(f) => f,
        None => Seq::<char>::empty(),
    });
    let iv = match capped_digits(&int_part) {
        Some(x) => x,
        None => {
            return None;
        },
    };
    match capped_digits(&frac) {
        Some(_) => {},
        None => {
            return None;
        },
    }
    if int_part.len() == 0 && frac.len() == 0 {
        return None;
    }
    let nonzero = has_nonzero_exec(&frac);
    let d0 = frac_digit_exec(&frac, 0);
    let d1 = frac_digit_exec(&frac, 1);
    let d2 = frac_digit_exec(&frac, 2);
    let h: u64 = if neg && (iv > 0 || nonzero) {
        0
    } else if iv > 1 || (iv == 1 && nonzero) {
        iv + if d0 >= 5 { 1 } else { 0 }
    } else {
        iv * 100 + d0 * 10 + d1 + if d2 >= 5 { 1 } else { 0 }
    };
    Some(if h > 100 { 100 } else { h as u32 })
}

} // verus!
