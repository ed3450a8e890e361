//! Reading planning rules and candidate actions out of section text: bullet
//! items, first sentences, rule prefixes, and `requires` / `conflicts with`
//! sentences.
use vstd::prelude::*;
use crate::scalar::{all_digits, is_digit, strip_trailing};
use crate::text::{
    chars_of, copy_range, is_ascii_alnum, is_ascii_alnum_char, lines, split_lines, split_once,
    split_once_chars, starts_with_chars, trim, trimmed, views,
};

verus! {

/// The item of a bullet line: `- [ ] `, `- [x] `, `- `, `* ` or `N. `
/// stripped, then trimmed.
pub open spec fn bullet_text(line: Seq<char>) -> Option<Seq<char>> {
    let t = trim(line);
    let item = if "- [ ] "@.is_prefix_of(t) {
        Some(t.skip("- [ ] "@.len() as int))
    } else if "- [x] "@.is_prefix_of(t) {
        Some(t.skip("- [x] "@.len() as int))
    } else if "- "@.is_prefix_of(t) {
        Some(t.skip("- "@.len() as int))
    } else if "* "@.is_prefix_of(t) {
        Some(t.skip("* "@.len() as int))
    } else {
        match split_once(t, ". "@) {
            Some((number, rest)) => if all_digits(number) {
                Some(rest)
            } else {
                None
            },
            None => None,
        }
    };
    match item {
        Some(i) => Some(trim(i)),
        None => None,
    }
}

fn strip_lit(t: &[char], p: &str) -> (r: Option<Vec<char>>)
    ensures
        r matches Some(x) ==> p@.is_prefix_of(t@) && x@ == t@.skip(p@.len() as int),
        r is None ==> !p@.is_prefix_of(t@),
{
    let pc = chars_of(p);
    if starts_with_chars(t, &pc) {
        let x = copy_range(t, pc.len(), t.len());
        assert(x@ =~= t@.skip(p@.len() as int));
        Some(x)
    } else {
        None
    }
}

fn all_digits_exec(v: &[char]) -> (r: bool)
    ensures
        r == all_digits(v@),
{
    let mut i: usize = 0;
    while i < v.len()
        invariant
            i <= v@.len(),
            forall|k: int| 0 <= k < i ==> is_digit(#[trigger] v@[k]),
        decreases v@.len() - i,
    {
        if !('0' <= v[i] && v[i] <= '9') {
            assert(!is_digit(v@[i as int]));
            return false;
        }
        i += 1;
    }
    true
}

pub fn bullet_text_exec(line: &[char]) -> (r: Option<Vec<char>>)
    ensures
        r matches Some(x) ==> bullet_text(line@) == Some(x@),
        r is None ==> bullet_text(line@) is None,
{
    let t = trimmed(line);
    let item = if let Some(x) = strip_lit(&t, "- [ ] ") {
        Some(x)
    } else if let Some(x) = strip_lit(&t, "- [x] ") {
        Some(x)
    } else if let Some(x) = strip_lit(&t, "- ") {
        Some(x)
    } else if let Some(x) = strip_lit(&t, "* ") {
        Some(x)
    } else {
        match split_once_chars(&t, &chars_of(". ")) {
            Some((number, rest)) => if all_digits_exec(&number) {
                Some(rest)
            } else {
                None
            },
            None => None,
        }
    };
    match item {
        Some(i) => Some(trimmed(&i)),
        None => None,
    }
}

/// The first non-blank line of a text, trimmed (the text itself if every
/// line is blank), without trailing full stops.
pub open spec fn first_nonblank(ls: Seq<Seq<char>>) -> Option<Seq<char>>
    decreases ls.len(),
{
    if ls.len() == 0 {
        None
    } else if trim(ls[0]).len() > 0 {
        Some(trim(ls[0]))
    } else {
        first_nonblank(ls.drop_first())
    }
}

pub open spec fn first_sentence(content: Seq<char>) -> Seq<char> {
    strip_trailing(
        match first_nonblank(lines(content)) {
            Some(l) => l,
            None => content,
        },
        '.',
    )
}

pub fn first_sentence_exec(content: &[char]) -> (r: Vec<char>)
    ensures
        r@ == first_sentence(content@),
{
    let ls = split_lines(content);
    let ghost lv = views(ls@);
    let mut i: usize = 0;
    let mut found: Option<Vec<char>> = None;
    assert(lv.skip(0) =~= lv);
    while i < ls.len()
        invariant_except_break
            found is None,
        invariant
            i <= ls@.len(),
            lv == views(ls@),
            lv == lines(content@),
            found is None ==> first_nonblank(lv) == first_nonblank(lv.skip(i as int)),
            found matches Some(f) ==> first_nonblank(lv) == Some(f@),
        ensures
            found matches Some(f) ==> first_nonblank(lv) == Some(f@),
            found is None ==> first_nonblank(lv) is None,
        decreases ls@.len() - i,
    {
        let t = trimmed(&ls[i]);
        assert(lv.skip(i as int)[0] == ls@[i as int]@);
        if t.len() > 0 {
            assert(lv.skip(i as int).len() > 0);
            assert(first_nonblank(lv.skip(i as int)) == Some(t@));
            found = Some(t);
            break;
        }
        assert(lv.skip(i as int).drop_first() =~= lv.skip(i + 1));
        i += 1;
    }
    let base = match found {
        Some(f) => f,
        None => copy_range(content, 0, content.len()),
    };
    assert(found is None ==> base@ =~= content@);
    strip_trailing_exec(&base, '.')
}

fn strip_trailing_exec(v: &[char], c: char) -> (r: Vec<char>)
    ensures
        r@ == strip_trailing(v@, c),
{
    let mut i: usize = v.len();
    assert(v@.take(i as int) =~= v@);
    while i > 0 && v[i - 1] == c
        invariant
            i <= v@.len(),
            strip_trailing(v@, c) == strip_trailing(v@.take(i as int), c),
        decreases i,
    {
        assert(v@.take(i as int).drop_last() =~= v@.take(i - 1));
        i -= 1;
    }
    copy_range(v, 0, i)
}

// ---------------------------------------------------------------------------
// Rules
// ---------------------------------------------------------------------------

/// The prefixes a rule side may open with, tried in this order.
pub open spec fn rule_prefixes() -> Seq<Seq<char>> {
    seq![
        "- "@, "* "@, "must "@, "always "@, "include "@, "required "@, "requires "@, "require "@,
        "avoid "@, "never "@, "do not "@, "dont "@, "exclude "@, "prohibit "@, "prefer "@,
        "prioritize "@,
    ]
}

fn rule_prefix(i: usize) -> (r: &'static str)
    requires
        i < 16,
    ensures
        r@ == rule_prefixes()[i as int],
{
    match i {
        0 => "- ",
        1 => "* ",
        2 => "must ",
        3 => "always ",
        4 => "include ",
        5 => "required ",
        6 => "requires ",
        7 => "require ",
        8 => "avoid ",
        9 => "never ",
        10 => "do not ",
        11 => "dont ",
        12 => "exclude ",
        13 => "prohibit ",
        14 => "prefer ",
        _ => "prioritize ",
    }
}

/// The first of `ps` from position `i` on that prefixes `v`, stripped.
pub open spec fn strip_first_prefix(v: Seq<char>, ps: Seq<Seq<char>>, i: int) -> Seq<char>
    decreases ps.len() - i,
{
    if i < 0 || i >= ps.len() {
        v
    } else if ps[i].is_prefix_of(v) {
        v.skip(ps[i].len() as int)
    } else {
        strip_first_prefix(v, ps, i + 1)
    }
}

/// A rule's text with its leading marker or verb removed (the first that
/// matches).
pub open spec fn strip_rule_prefix(v: Seq<char>) -> Seq<char> {
    strip_first_prefix(v, rule_prefixes(), 0)
}

pub fn strip_rule_prefix_exec(v: &[char]) -> (r: Vec<char>)
    ensures
        r@ == strip_rule_prefix(v@),
{
    let mut i: usize = 0;
    while i < 16
        invariant
            i <= 16,
            rule_prefixes().len() == 16,
            strip_rule_prefix(v@) == strip_first_prefix(v@, rule_prefixes(), i as int),
        decreases 16 - i,
    {
        if let Some(rest) = strip_lit(v, rule_prefix(i)) {
            return rest;
        }
        i += 1;
    }
    copy_range(v, 0, v.len())
}

pub open spec fn is_junk(c: char) -> bool {
    !is_ascii_alnum(c) && c != ' '
}

pub open spec fn strip_junk_start(s: Seq<char>) -> Seq<char>
    decreases s.len(),
{
    if s.len() > 0 && is_junk(s[0]) {
        strip_junk_start(s.drop_first())
    } else {
        s
    }
}

pub open spec fn strip_junk_end(s: Seq<char>) -> Seq<char>
    decreases s.len(),
{
    if s.len() > 0 && is_junk(s.last()) {
        strip_junk_end(s.drop_last())
    } else {
        s
    }
}

/// One side of a rule: its prefix removed, punctuation at both ends cut,
/// trimmed.
pub open spec fn clean_rule_side(v: Seq<char>) -> Seq<char> {
    trim(strip_junk_end(strip_junk_start(strip_rule_prefix(v))))
}

pub fn clean_rule_side_exec(v: &[char]) -> (r: Vec<char>)
    ensures
        r@ == clean_rule_side(v@),
{
    let s = strip_rule_prefix_exec(v);
    let mut a: usize = 0;
    assert(s@.skip(0) =~= s@);
    while a < s.len() && !is_ascii_alnum_char(s[a]) && s[a] != ' '
        invariant
            a <= s@.len(),
            strip_junk_start(s@) == strip_junk_start(s@.skip(a as int)),
        decreases s@.len() - a,
    {
        assert(s@.skip(a as int).drop_first() =~= s@.skip(a + 1));
        a += 1;
    }
    let rest = copy_range(&s, a, s.len());
    assert(rest@ =~= s@.skip(a as int));
    let mut b: usize = rest.len();
    assert(rest@.take(b as int) =~= rest@);
    while b > 0 && !is_ascii_alnum_char(rest[b - 1]) && rest[b - 1] != ' '
        invariant
            b <= rest@.len(),
            strip_junk_end(rest@) == strip_junk_end(rest@.take(b as int)),
        decreases b,
    {
        assert(rest@.take(b as int).drop_last() =~= rest@.take(b - 1));
        b -= 1;
    }
    let mid = copy_range(&rest, 0, b);
    trimmed(&mid)
}

pub open spec fn split_rule(line: Seq<char>, marker: Seq<char>) -> Option<(Seq<char>, Seq<char>)> {
    match split_once(line, marker) {
        Some((l, r)) => Some((clean_rule_side(l), clean_rule_side(r))),
        None => None,
    }
}

/// `A requires B`, `A depends on B`, `A after B`, or `requires A -> B`.
pub open spec fn parse_requires(line: Seq<char>) -> Option<(Seq<char>, Seq<char>)> {
    if split_rule(line, " requires "@) is Some {
        split_rule(line, " requires "@)
    } else if split_rule(line, " depends on "@) is Some {
        split_rule(line, " depends on "@)
    } else if split_rule(line, " after "@) is Some {
        split_rule(line, " after "@)
    } else if "requires "@.is_prefix_of(line) || "require "@.is_prefix_of(line) {
        split_rule(line, " -> "@)
    } else {
        None
    }
}

/// `A conflicts with B` and its synonyms.
pub open spec fn parse_conflict(line: Seq<char>) -> Option<(Seq<char>, Seq<char>)> {
    if split_rule(line, " conflicts with "@) is Some {
        split_rule(line, " conflicts with "@)
    } else if split_rule(line, " cannot combine with "@) is Some {
        split_rule(line, " cannot combine with "@)
    } else if split_rule(line, " cannot run with "@) is Some {
        split_rule(line, " cannot run with "@)
    } else if split_rule(line, " not with "@) is Some {
        split_rule(line, " not with "@)
    } else {
        split_rule(line, " mutually exclusive with "@)
    }
}

fn split_rule_exec(line: &[char], marker: &str) -> (r: Option<(Vec<char>, Vec<char>)>)
    ensures
        r matches Some(p) ==> split_rule(line@, marker@) == Some((p.0@, p.1@)),
        r is None ==> split_rule(line@, marker@) is None,
{
    match split_once_chars(line, &chars_of(marker)) {
        Some((l, r)) => Some((clean_rule_side_exec(&l), clean_rule_side_exec(&r))),
        None => None,
    }
}

pub fn parse_requires_exec(line: &[char]) -> (r: Option<(Vec<char>, Vec<char>)>)
    ensures
        r matches Some(p) ==> parse_requires(line@) == Some((p.0@, p.1@)),
        r is None ==> parse_requires(line@) is None,
{
    if let Some(p) = split_rule_exec(line, " requires ") {
        return Some(p);
    }
    if let Some(p) = split_rule_exec(line, " depends on ") {
        return Some(p);
    }
    if let Some(p) = split_rule_exec(line, " after ") {
        return Some(p);
    }
    if starts_with_chars(line, &chars_of("requires ")) || starts_with_chars(line, &chars_of("require ")) {
        return split_rule_exec(line, " -> ");
    }
    None
}

pub fn parse_conflict_exec(line: &[char]) -> (r: Option<(Vec<char>, Vec<char>)>)
    ensures
        r matches Some(p) ==> parse_conflict(line@) == Some((p.0@, p.1@)),
        r is None ==> parse_conflict(line@) is None,
{
    if let Some(p) = split_rule_exec(line, " conflicts with ") {
        return Some(p);
    }
    if let Some(p) = split_rule_exec(line, " cannot combine with ") {
        return Some(p);
    }
    if let Some(p) = split_rule_exec(line, " cannot run with ") {
        return Some(p);
    }
    if let Some(p) = split_rule_exec(line, " not with ") {
        return Some(p);
    }
    split_rule_exec(line, " mutually exclusive with ")
}

/// The rule words that make an action required.
pub open spec fn starts_with_must(v: Seq<char>) -> bool {
    "must "@.is_prefix_of(v) || "always "@.is_prefix_of(v) || "include "@.is_prefix_of(v)
        || "required "@.is_prefix_of(v)
}

/// The rule words that exclude an action.
pub open spec fn starts_with_avoid(v: Seq<char>) -> bool {
    "avoid "@.is_prefix_of(v) || "never "@.is_prefix_of(v) || "do not "@.is_prefix_of(v)
        || "dont "@.is_prefix_of(v) || "exclude "@.is_prefix_of(v) || "prohibit "@.is_prefix_of(v)
}

pub fn starts_with_must_exec(v: &[char]) -> (r: bool)
    ensures
        r == starts_with_must(v@),
{
    starts_with_chars(v, &chars_of("must ")) || starts_with_chars(v, &chars_of("always "))
        || starts_with_chars(v, &chars_of("include ")) || starts_with_chars(v, &chars_of("required "))
}

pub fn starts_with_avoid_exec(v: &[char]) -> (r: bool)
    ensures
        r == starts_with_avoid(v@),
{
    starts_with_chars(v, &chars_of("avoid ")) || starts_with_chars(v, &chars_of("never "))
        || starts_with_chars(v, &chars_of("do not ")) || starts_with_chars(v, &chars_of("dont "))
        || starts_with_chars(v, &chars_of("exclude ")) || starts_with_chars(v, &chars_of("prohibit "))
}

} // verus!
