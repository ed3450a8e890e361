//! Inferring relations between sections from their prose: a section whose
//! text names another section's path (or its last part) near a relation verb
//! gets an inferred edge to it. Confidences are in hundredths.
use vstd::prelude::*;
use crate::text::{
    chars_eq, chars_of, contains, contains_chars, first_occurrence_from, find_from, is_ascii_alnum,
    is_ascii_alnum_char, lemma_first_occurrence_unique, lower, lower_chars, lower_seq, occurs_at,
    split_on, split_words, starts_with_chars, str_eq, string_of, views, words,
};
use crate::words::{norm_fold, normalize, normalize_str};
use crate::document::{
    GraphInfo, GraphInfoV, GraphRelation, GraphRelationV, InferenceStrategy, InferredRelationKind, RbmemDocument,
    Section, SectionV, DocumentV, relation_views, section_views,
};
use crate::plan::string_views;
use crate::time::Timestamp;

verus! {

// ---------------------------------------------------------------------------
// Normalized text
// ---------------------------------------------------------------------------

/// Characters below 128.
pub open spec fn is_ascii_text(s: Seq<char>) -> bool {
    forall|i: int| 0 <= i < s.len() ==> (#[trigger] s[i] as u32) < 128
}

proof fn lemma_norm_fold_ascii(s: Seq<char>)
    ensures
        is_ascii_text(norm_fold(s).0),
    decreases s.len(),
{
    if s.len() > 0 {
        lemma_norm_fold_ascii(s.drop_last());
        let (o, _) = norm_fold(s.drop_last());
        let c = s.last();
        if is_ascii_alnum(c) {
            assert((lower(c) as u32) < 128);
            assert forall|i: int| 0 <= i < o.push(lower(c)).len() implies (#[trigger] o.push(lower(c))[i] as u32) < 128 by {
                if i < o.len() {
                    assert(o.push(lower(c))[i] == o[i]);
                }
            }
        } else {
            assert forall|i: int| 0 <= i < o.push(' ').len() implies (#[trigger] o.push(' ')[i] as u32) < 128 by {
                if i < o.len() {
                    assert(o.push(' ')[i] == o[i]);
                }
            }
        }
    }
}

proof fn lemma_trim_start_sub(s: Seq<char>)
    ensures
        exists|a: int| 0 <= a <= s.len() && crate::text::trim_start(s) == #[trigger] s.subrange(a, s.len() as int),
    decreases s.len(),
{
    if s.len() > 0 && crate::text::is_ws(s[0]) {
        lemma_trim_start_sub(s.drop_first());
        let a = choose|a: int| 0 <= a <= s.drop_first().len() && crate::text::trim_start(s.drop_first()) == #[trigger] s.drop_first().subrange(a, s.drop_first().len() as int);
        assert(s.drop_first().subrange(a, s.drop_first().len() as int) =~= s.subrange(a + 1, s.len() as int));
    } else {
        assert(s.subrange(0, s.len() as int) =~= s);
    }
}

proof fn lemma_trim_end_sub(s: Seq<char>)
    ensures
        exists|b: int| 0 <= b <= s.len() && crate::text::trim_end(s) == #[trigger] s.subrange(0, b),
    decreases s.len(),
{
    if s.len() > 0 && crate::text::is_ws(s.last()) {
        lemma_trim_end_sub(s.drop_last());
        let b = choose|b: int| 0 <= b <= s.drop_last().len() && crate::text::trim_end(s.drop_last()) == #[trigger] s.drop_last().subrange(0, b);
        assert(s.drop_last().subrange(0, b) =~= s.subrange(0, b));
    } else {
        assert(s.subrange(0, s.len() as int) =~= s);
    }
}

/// Normalized text is ASCII: lower-case letters, digits and spaces.
pub proof fn lemma_normalize_ascii(s: Seq<char>)
    ensures
        is_ascii_text(normalize(s)),
{
    let o = norm_fold(s).0;
    lemma_norm_fold_ascii(s);
    lemma_trim_start_sub(o);
    let a = choose|a: int| 0 <= a <= o.len() && crate::text::trim_start(o) == #[trigger] o.subrange(a, o.len() as int);
    let t = crate::text::trim_start(o);
    lemma_trim_end_sub(t);
    let b = choose|b: int| 0 <= b <= t.len() && crate::text::trim_end(t) == #[trigger] t.subrange(0, b);
    assert forall|i: int| 0 <= i < normalize(s).len() implies (#[trigger] normalize(s)[i] as u32) < 128 by {
        assert(normalize(s)[i] == o[a + i]);
    }
}

/// Lower-case ASCII words separated by single spaces.
pub fn normalize_for_matching(value: &str) -> (r: String)
    ensures
        r@ == normalize(value@),
{
    string_of(&normalize_str(value))
}

/// A space on each side.
pub open spec fn padded(s: Seq<char>) -> Seq<char> {
    seq![' '] + s + seq![' ']
}

fn padded_exec(v: &[char]) -> (r: Vec<char>)
    ensures
        r@ == padded(v@),
{
    let mut r: Vec<char> = Vec::new();
    r.push(' ');
    let mut i: usize = 0;
    while i < v.len()
        invariant
            i <= v@.len(),
            r@ == seq![' '] + v@.take(i as int),
        decreases v@.len() - i,
    {
        r.push(v[i]);
        i += 1;
        assert(r@ =~= seq![' '] + v@.take(i as int));
    }
    r.push(' ');
    assert(v@.take(v@.len() as int) =~= v@);
    assert(r@ =~= padded(v@));
    r
}

/// The phrase occurs in the text as whole words.
pub open spec fn contains_phrase(text: Seq<char>, phrase: Seq<char>) -> bool {
    contains(padded(text), padded(phrase))
}

pub fn contains_phrase_exec(text: &[char], phrase: &[char]) -> (r: bool)
    ensures
        r == contains_phrase(text@, phrase@),
{
    contains_chars(&padded_exec(text), &padded_exec(phrase))
}

// ---------------------------------------------------------------------------
// Words, windows, negations
// ---------------------------------------------------------------------------

/// The words start with the pattern.
pub open spec fn window_matches(ws: Seq<Seq<char>>, pattern: Seq<Seq<char>>) -> bool {
    pattern.len() <= ws.len() && ws.take(pattern.len() as int) == pattern
}

fn window_matches_exec(ws: &Vec<Vec<char>>, from: usize, to: usize, pattern: &Vec<Vec<char>>) -> (r: bool)
    requires
        from <= to <= ws@.len(),
    ensures
        r == window_matches(views(ws@).subrange(from as int, to as int), views(pattern@)),
{
    let ghost w = views(ws@).subrange(from as int, to as int);
    let ghost p = views(pattern@);
    if pattern.len() > to - from {
        return false;
    }
    let mut k: usize = 0;
    while k < pattern.len()
        invariant
            from <= to <= ws@.len(),
            pattern@.len() <= to - from,
            k <= pattern@.len(),
            w == views(ws@).subrange(from as int, to as int),
            p == views(pattern@),
            forall|j: int| 0 <= j < k ==> w[j] == p[j],
        decreases pattern@.len() - k,
    {
        assert(w[k as int] == ws@[from + k]@);
        if !chars_eq(&ws[from + k], &pattern[k]) {
            assert(w.take(p.len() as int)[k as int] != p[k as int]);
            return false;
        }
        k += 1;
    }
    assert(w.take(p.len() as int) =~= p);
    true
}

/// Some run of consecutive words equals the phrase's words.
pub open spec fn has_word_run(ws: Seq<Seq<char>>, pw: Seq<Seq<char>>) -> bool {
    exists|i: int| 0 <= i && i + pw.len() <= ws.len() && #[trigger] ws.subrange(i, i + pw.len()) == pw
}

fn has_word_run_exec(ws: &Vec<Vec<char>>, from: usize, to: usize, pw: &Vec<Vec<char>>) -> (r: bool)
    requires
        from <= to <= ws@.len(),
    ensures
        r == has_word_run(views(ws@).subrange(from as int, to as int), views(pw@)),
{
    let ghost w = views(ws@).subrange(from as int, to as int);
    let ghost p = views(pw@);
    if pw.len() > to - from {
        assert forall|i: int| 0 <= i && i + p.len() <= w.len() implies #[trigger] w.subrange(i, i + p.len()) != p by {}
        return false;
    }
    if pw.len() == 0 {
        assert(w.subrange(0int, 0int + p.len()) =~= p);
        return true;
    }
    let mut i: usize = from;
    while i <= to - pw.len()
        invariant
            from <= i <= to - pw@.len() + 1,
            pw@.len() >= 1,
            from <= to <= ws@.len(),
            pw@.len() <= to - from,
            w == views(ws@).subrange(from as int, to as int),
            p == views(pw@),
            forall|j: int| 0 <= j < i - from && j + p.len() <= w.len() ==> #[trigger] w.subrange(j, j + p.len()) != p,
        decreases to - i,
    {
        let m = window_matches_exec(ws, i, i + pw.len(), pw);
        let ghost sub = views(ws@).subrange(i as int, i + pw@.len());
        assert(sub.take(p.len() as int) =~= sub);
        assert(w.subrange(i - from, i - from + p.len()) =~= sub);
        if m {
            return true;
        }
        i += 1;
    }
    assert forall|j: int| 0 <= j && j + p.len() <= w.len() implies #[trigger] w.subrange(j, j + p.len()) != p by {
        assert(j < i - from);
    }
    false
}

/// The words that mark a negation.
pub open spec fn negation_word(k: int) -> Seq<char> {
    if k == 0 { "not"@ }
    else if k == 1 { "no"@ }
    else if k == 2 { "don't"@ }
    else if k == 3 { "doesn't"@ }
    else if k == 4 { "didn't"@ }
    else if k == 5 { "won't"@ }
    else if k == 6 { "can't"@ }
    else if k == 7 { "cannot"@ }
    else if k == 8 { "never"@ }
    else if k == 9 { "avoid"@ }
    else if k == 10 { "avoiding"@ }
    else if k == 11 { "without"@ }
    else if k == 12 { "instead of"@ }
    else if k == 13 { "rather than"@ }
    else if k == 14 { "neither"@ }
    else if k == 15 { "nor"@ }
    else if k == 16 { "deny"@ }
    else if k == 17 { "denies"@ }
    else if k == 18 { "refuse"@ }
    else { "refuses"@ }
}

pub const NEGATION_COUNT: usize = 20;

fn negation_word_exec(k: usize) -> (r: &'static str)
    requires
        k < NEGATION_COUNT,
    ensures
        r@ == negation_word(k as int),
{
    match k {
        0 => "not",
        1 => "no",
        2 => "don't",
        3 => "doesn't",
        4 => "didn't",
        5 => "won't",
        6 => "can't",
        7 => "cannot",
        8 => "never",
        9 => "avoid",
        10 => "avoiding",
        11 => "without",
        12 => "instead of",
        13 => "rather than",
        14 => "neither",
        15 => "nor",
        16 => "deny",
        17 => "denies",
        18 => "refuse",
        _ => "refuses",
    }
}

/// The lower-cased window holds the negation word as a whole word, or starts
/// with it.
pub open spec fn negation_hit(lowered: Seq<char>, word: Seq<char>) -> bool {
    contains(padded(lowered), padded(word)) || (word + seq![' ']).is_prefix_of(lowered)
}

pub open spec fn negated_upto(lowered: Seq<char>, n: int) -> bool
    decreases n,
{
    if n <= 0 {
        false
    } else {
        negated_upto(lowered, n - 1) || negation_hit(lowered, negation_word(n - 1))
    }
}

proof fn lemma_negated_mono(lowered: Seq<char>, k: int, n: int)
    requires
        0 <= k <= n,
        negated_upto(lowered, k),
    ensures
        negated_upto(lowered, n),
    decreases n - k,
{
    if n > k {
        lemma_negated_mono(lowered, k, n - 1);
    }
}

/// Some negation word occurs in the window.
pub open spec fn is_negated(window: Seq<char>) -> bool {
    negated_upto(lower_seq(window), NEGATION_COUNT as int)
}

pub fn is_negated_exec(window: &[char]) -> (r: bool)
    ensures
        r == is_negated(window@),
{
    let lowered = lower_chars(window);
    let pl = padded_exec(&lowered);
    let mut k: usize = 0;
    while k < NEGATION_COUNT
        invariant
            k <= NEGATION_COUNT,
            lowered@ == lower_seq(window@),
            pl@ == padded(lowered@),
            !negated_upto(lowered@, k as int),
        decreases NEGATION_COUNT - k,
    {
        let w = chars_of(negation_word_exec(k));
        let pw = padded_exec(&w);
        let mut ws = crate::text::copy_range(&w, 0, w.len());
        ws.push(' ');
        assert(ws@ =~= w@ + seq![' ']);
        if contains_chars(&pl, &pw) || starts_with_chars(&lowered, &ws) {
            proof {
                assert(negated_upto(lowered@, k + 1));
                lemma_negated_mono(lowered@, k + 1, NEGATION_COUNT as int);
            }
            return true;
        }
        k += 1;
    }
    false
}

/// Non-alphanumeric characters stripped from both ends.
pub open spec fn strip_lead(s: Seq<char>) -> Seq<char>
    decreases s.len(),
{
    if s.len() > 0 && !is_ascii_alnum(s[0]) {
        strip_lead(s.drop_first())
    } else {
        s
    }
}

pub open spec fn strip_trail(s: Seq<char>) -> Seq<char>
    decreases s.len(),
{
    if s.len() > 0 && !is_ascii_alnum(s.last()) {
        strip_trail(s.drop_last())
    } else {
        s
    }
}

pub open spec fn trim_non_alnum(s: Seq<char>) -> Seq<char> {
    strip_trail(strip_lead(s))
}

fn trim_non_alnum_exec(v: &[char]) -> (r: Vec<char>)
    ensures
        r@ == trim_non_alnum(v@),
{
    let mut a: usize = 0;
    assert(v@.subrange(0, v@.len() as int) =~= v@);
    while a < v.len() && !is_ascii_alnum_char(v[a])
        invariant
            a <= v@.len(),
            strip_lead(v@) == strip_lead(v@.subrange(a as int, v@.len() as int)),
        decreases v@.len() - a,
    {
        assert(v@.subrange(a as int, v@.len() as int).drop_first() =~= v@.subrange(a + 1, v@.len() as int));
        a += 1;
    }
    let mut b: usize = v.len();
    let ghost t = v@.subrange(a as int, v@.len() as int);
    assert(strip_lead(t) == t);
    assert(v@.subrange(a as int, b as int) =~= t);
    while b > a && !is_ascii_alnum_char(v[b - 1])
        invariant
            a <= b <= v@.len(),
            t == v@.subrange(a as int, v@.len() as int),
            strip_trail(t) == strip_trail(v@.subrange(a as int, b as int)),
        decreases b,
    {
        assert(v@.subrange(a as int, b as int).drop_last() =~= v@.subrange(a as int, b - 1));
        b -= 1;
    }
    crate::text::copy_range(v, a, b)
}

pub open spec fn is_negation_upto(w: Seq<char>, n: int) -> bool
    decreases n,
{
    if n <= 0 {
        false
    } else {
        is_negation_upto(w, n - 1) || w == negation_word(n - 1)
    }
}

proof fn lemma_negation_upto_mono(w: Seq<char>, k: int, n: int)
    requires
        0 <= k <= n,
        is_negation_upto(w, k),
    ensures
        is_negation_upto(w, n),
    decreases n - k,
{
    if n > k {
        lemma_negation_upto_mono(w, k, n - 1);
    }
}

/// The word, stripped of punctuation at its ends, is a negation word.
pub open spec fn is_negation_word(w: Seq<char>) -> bool {
    is_negation_upto(trim_non_alnum(w), NEGATION_COUNT as int)
}

fn is_negation_word_exec(w: &[char]) -> (r: bool)
    ensures
        r == is_negation_word(w@),
{
    let t = trim_non_alnum_exec(w);
    let mut k: usize = 0;
    while k < NEGATION_COUNT
        invariant
            k <= NEGATION_COUNT,
            t@ == trim_non_alnum(w@),
            !is_negation_upto(t@, k as int),
        decreases NEGATION_COUNT - k,
    {
        if chars_eq(&t, &chars_of(negation_word_exec(k))) {
            proof {
                assert(is_negation_upto(t@, k + 1));
                lemma_negation_upto_mono(t@, k + 1, NEGATION_COUNT as int);
            }
            return true;
        }
        k += 1;
    }
    false
}


// ---------------------------------------------------------------------------
// Relation verbs
// ---------------------------------------------------------------------------

pub const PATTERN_COUNT: usize = 9;

/// The phrase of each relation pattern.
pub open spec fn pattern_phrase(k: int) -> Seq<char> {
    if k == 0 { "depends on"@ }
    else if k == 1 { "requires"@ }
    else if k == 2 { "uses"@ }
    else if k == 3 { "inherits from"@ }
    else if k == 4 { "extends"@ }
    else if k == 5 { "collaborates with"@ }
    else if k == 6 { "calls"@ }
    else if k == 7 { "imports"@ }
    else { "references"@ }
}

/// The relation type each pattern gives.
pub open spec fn pattern_type(k: int) -> Seq<char> {
    if k == 0 { "depends_on"@ }
    else if k == 1 { "requires"@ }
    else if k == 2 { "uses"@ }
    else if k == 3 { "inherits"@ }
    else if k == 4 { "extends"@ }
    else if k == 5 { "collaborates_with"@ }
    else if k == 6 { "calls"@ }
    else if k == 7 { "imports"@ }
    else { "references"@ }
}

/// The confidence of each pattern, in hundredths.
pub open spec fn pattern_confidence(k: int) -> u32 {
    if k == 0 { 95 }
    else if k == 1 { 94 }
    else if k == 2 { 92 }
    else if k == 3 { 95 }
    else if k == 4 { 90 }
    else if k == 5 { 93 }
    else if k == 6 { 90 }
    else if k == 7 { 91 }
    else { 88 }
}

fn relation_pattern(k: usize) -> (r: (&'static str, &'static str, u32))
    requires
        k < PATTERN_COUNT,
    ensures
        r.0@ == pattern_phrase(k as int),
        r.1@ == pattern_type(k as int),
        r.2 == pattern_confidence(k as int),
{
    match k {
        0 => ("depends on", "depends_on", 95),
        1 => ("requires", "requires", 94),
        2 => ("uses", "uses", 92),
        3 => ("inherits from", "inherits", 95),
        4 => ("extends", "extends", 90),
        5 => ("collaborates with", "collaborates_with", 93),
        6 => ("calls", "calls", 90),
        7 => ("imports", "imports", 91),
        _ => ("references", "references", 88),
    }
}

/// The words around an occurrence of the alias at `index`: six before, six
/// after.
pub open spec fn local_window(ws: Seq<Seq<char>>, index: int, alen: int) -> Seq<Seq<char>> {
    let start = if index >= 6 { index - 6 } else { 0 };
    let end = if index + alen + 6 <= ws.len() { index + alen + 6 } else { ws.len() as int };
    ws.subrange(start, end)
}

pub open spec fn patterns_in(win: Seq<Seq<char>>, n: int) -> bool
    decreases n,
{
    if n <= 0 {
        false
    } else {
        patterns_in(win, n - 1) || has_word_run(win, words(pattern_phrase(n - 1)))
    }
}

proof fn lemma_patterns_in_mono(win: Seq<Seq<char>>, k: int, n: int)
    requires
        0 <= k <= n,
        patterns_in(win, k),
    ensures
        patterns_in(win, n),
    decreases n - k,
{
    if n > k {
        lemma_patterns_in_mono(win, k, n - 1);
    }
}

pub open spec fn negation_in(win: Seq<Seq<char>>) -> bool {
    exists|j: int| 0 <= j < win.len() && #[trigger] is_negation_word(win[j])
}

/// The alias starts at word `index`, a relation phrase is among the words
/// around it, and no negation word is.
pub open spec fn verb_hit(ws: Seq<Seq<char>>, aw: Seq<Seq<char>>, index: int) -> bool {
    &&& window_matches(ws.skip(index), aw)
    &&& patterns_in(local_window(ws, index, aw.len() as int), PATTERN_COUNT as int)
    &&& !negation_in(local_window(ws, index, aw.len() as int))
}

/// A relation verb stands near an occurrence of the alias.
pub open spec fn verb_near_alias(text: Seq<char>, alias: Seq<char>) -> bool {
    let ws = words(text);
    let aw = words(alias);
    aw.len() > 0 && exists|i: int| 0 <= i < ws.len() && #[trigger] verb_hit(ws, aw, i)
}

fn verb_near_alias_exec(text: &[char], alias: &[char]) -> (r: bool)
    ensures
        r == verb_near_alias(text@, alias@),
{
    let ws = split_words(text);
    let aw = split_words(alias);
    let ghost wv = views(ws@);
    let ghost av = views(aw@);
    if aw.len() == 0 {
        return false;
    }
    let mut index: usize = 0;
    while index < ws.len()
        invariant
            index <= ws@.len(),
            wv == views(ws@),
            av == views(aw@),
            wv == words(text@),
            av == words(alias@),
            av.len() > 0,
            forall|j: int| 0 <= j < index ==> !#[trigger] verb_hit(wv, av, j),
        decreases ws@.len() - index,
    {
        assert(wv.subrange(index as int, wv.len() as int) =~= wv.skip(index as int));
        if window_matches_exec(&ws, index, ws.len(), &aw) {
            let start = if index >= 6 { index - 6 } else { 0 };
            let e = index + aw.len();
            let end = if ws.len() - e >= 6 { e + 6 } else { ws.len() };
            let ghost win = wv.subrange(start as int, end as int);
            assert(win == local_window(wv, index as int, av.len() as int));
            let mut found = false;
            let mut k: usize = 0;
            while k < PATTERN_COUNT
                invariant
                    k <= PATTERN_COUNT,
                    start <= end <= ws@.len(),
                    wv == views(ws@),
                    win == wv.subrange(start as int, end as int),
                    found == patterns_in(win, k as int),
                decreases PATTERN_COUNT - k,
            {
                let (phrase, _, _) = relation_pattern(k);
                let pw = split_words(&chars_of(phrase));
                let h = has_word_run_exec(&ws, start, end, &pw);
                found = found || h;
                k += 1;
            }
            if found {
                let mut negated = false;
                let mut j: usize = start;
                while j < end
                    invariant
                        start <= j <= end <= ws@.len(),
                        wv == views(ws@),
                        win == wv.subrange(start as int, end as int),
                        negated == exists|t: int| 0 <= t < j - start && #[trigger] is_negation_word(win[t]),
                    decreases end - j,
                {
                    assert(win[j - start] == ws@[j as int]@);
                    if is_negation_word_exec(&ws[j]) {
                        negated = true;
                    }
                    j += 1;
                }
                if !negated {
                    assert(verb_hit(wv, av, index as int));
                    return true;
                }
            }
        }
        index += 1;
    }
    false
}

/// The first position where `n` occurs in `h`.
pub open spec fn first_pos(h: Seq<char>, n: Seq<char>) -> int {
    choose|i: int| first_occurrence_from(h, n, 0, i)
}

/// Up to forty characters before an occurrence at `pos`, through its end.
pub open spec fn window_at(text: Seq<char>, pos: int, len: int) -> Seq<char> {
    let start = if pos >= 40 { pos - 40 } else { 0 };
    let end = if pos + len <= text.len() { pos + len } else { text.len() as int };
    text.subrange(start, end)
}

/// `phrase alias` or `alias phrase` occurs in the text, and the window before
/// the first such occurrence holds no negation.
/// Positions count characters; the normalized text this is applied to is
/// ASCII, so they are its byte positions as well.
pub open spec fn pattern_matches(text: Seq<char>, phrase: Seq<char>, alias: Seq<char>) -> bool {
    let direct = phrase + seq![' '] + alias;
    let passive = alias + seq![' '] + phrase;
    if contains(text, direct) {
        !is_negated(window_at(text, first_pos(text, direct), direct.len() as int))
    } else if contains(text, passive) {
        !is_negated(window_at(text, first_pos(text, passive), direct.len() as int))
    } else {
        false
    }
}

fn joined(a: &[char], b: &[char]) -> (r: Vec<char>)
    ensures
        r@ == a@ + seq![' '] + b@,
{
    let mut r = crate::text::copy_range(a, 0, a.len());
    r.push(' ');
    let mut i: usize = 0;
    let ghost start = r@;
    while i < b.len()
        invariant
            i <= b@.len(),
            r@ == start + b@.take(i as int),
        decreases b@.len() - i,
    {
        r.push(b[i]);
        i += 1;
        assert(r@ =~= start + b@.take(i as int));
    }
    assert(b@.take(b@.len() as int) =~= b@);
    assert(r@ =~= a@ + seq![' '] + b@);
    r
}

fn pattern_matches_exec(text: &[char], phrase: &[char], alias: &[char]) -> (r: bool)
    ensures
        r == pattern_matches(text@, phrase@, alias@),
{
    let direct = joined(phrase, alias);
    let passive = joined(alias, phrase);
    let pos = match find_from(text, &direct, 0) {
        Some(i) => {
            proof {
                assert(contains(text@, direct@));
                let k = first_pos(text@, direct@);
                lemma_first_occurrence_unique(text@, direct@, 0, i as int, k);
            }
            i
        },
        None => {
            assert(!contains(text@, direct@));
            match find_from(text, &passive, 0) {
                Some(i) => {
                    proof {
                        assert(contains(text@, passive@));
                        let k = first_pos(text@, passive@);
                        lemma_first_occurrence_unique(text@, passive@, 0, i as int, k);
                    }
                    i
                },
                None => {
                    assert(!contains(text@, passive@));
                    return false;
                },
            }
        },
    };
    let start = if pos >= 40 { pos - 40 } else { 0 };
    let end = if text.len() - pos >= direct.len() { pos + direct.len() } else { text.len() };
    let window = crate::text::copy_range(text, start, end);
    !is_negated_exec(&window)
}

// ---------------------------------------------------------------------------
// Aliases of a target path
// ---------------------------------------------------------------------------

/// The last `.`-separated part of a path.
pub open spec fn leaf_of(path: Seq<char>) -> Seq<char> {
    split_on(path, '.').last()
}

/// A trailing ` section` removed.
pub open spec fn without_section_suffix(s: Seq<char>) -> Seq<char> {
    if " section"@.is_suffix_of(s) {
        s.take(s.len() - " section"@.len())
    } else {
        s
    }
}

/// Consecutive repeats dropped.
pub open spec fn dedup(s: Seq<Seq<char>>) -> Seq<Seq<char>>
    decreases s.len(),
{
    if s.len() <= 1 {
        s
    } else if s.last() == s[s.len() - 2] {
        dedup(s.drop_last())
    } else {
        dedup(s.drop_last()).push(s.last())
    }
}

/// The normalized path, its normalized last part, and that part without a
/// trailing ` section`: sorted, repeats dropped.
pub open spec fn target_aliases(path: Seq<char>) -> Seq<Seq<char>> {
    let leaf = normalize(leaf_of(path));
    dedup(crate::index::sort_lex(seq![normalize(path), leaf, without_section_suffix(leaf)]))
}

fn dedup_exec(v: &Vec<String>) -> (r: Vec<String>)
    ensures
        crate::plan::string_views(r@) == dedup(crate::plan::string_views(v@)),
{
    let ghost sv = crate::plan::string_views(v@);
    let mut out: Vec<String> = Vec::new();
    let mut i: usize = 0;
    while i < v.len()
        invariant
            i <= v@.len(),
            sv == crate::plan::string_views(v@),
            crate::plan::string_views(out@) == dedup(sv.take(i as int)),
            i > 0 ==> crate::plan::string_views(out@).len() > 0 && crate::plan::string_views(out@).last() == sv[i - 1],
        decreases v@.len() - i,
    {
        let ghost before = crate::plan::string_views(out@);
        assert(sv.take(i + 1).drop_last() =~= sv.take(i as int));
        assert(sv[i as int] == v@[i as int]@);
        if i > 0 && str_eq(v[i].as_str(), v[i - 1].as_str()) {
            assert(sv[i - 1] == v@[i - 1]@);
            assert(sv.take(i + 1)[i - 1] == sv[i - 1]);
        } else {
            proof {
                if i > 0 {
                    assert(sv[i - 1] == v@[i - 1]@);
                    assert(sv.take(i + 1)[i - 1] == sv[i - 1]);
                }
            }
            out.push(v[i].clone());
            assert(crate::plan::string_views(out@) =~= before.push(sv[i as int]));
        }
        i += 1;
    }
    assert(sv.take(sv.len() as int) =~= sv);
    out
}

pub fn target_aliases_exec(path: &str) -> (r: Vec<String>)
    ensures
        crate::plan::string_views(r@) == target_aliases(path@),
{
    let pc = chars_of(path);
    let parts = crate::text::split_chars(&pc, '.');
    proof {
        crate::text::lemma_split_on_nonempty(path@, '.');
    }
    let leaf = &parts[parts.len() - 1];
    assert(leaf@ == leaf_of(path@));
    let np = string_of(&crate::words::normalize_chars(&pc));
    let nl_chars = crate::words::normalize_chars(leaf);
    let nl = string_of(&nl_chars);
    let suffix = chars_of(" section");
    proof {
        reveal_strlit(" section");
    }
    let trimmed = if crate::text::ends_with_chars(&nl_chars, &suffix) {
        crate::text::copy_range(&nl_chars, 0, nl_chars.len() - 8)
    } else {
        crate::text::copy_range(&nl_chars, 0, nl_chars.len())
    };
    assert(trimmed@ == without_section_suffix(nl_chars@));
    let ns = string_of(&trimmed);
    let mut sorted: Vec<String> = Vec::new();
    let ghost c = seq![np@, nl@, ns@];
    assert(crate::plan::string_views(sorted@) =~= Seq::<Seq<char>>::empty());
    crate::index::insert_path_sorted(&mut sorted, np.as_str());
    assert(c.take(1).drop_last() =~= Seq::<Seq<char>>::empty());
    assert(crate::index::sort_lex(c.take(1).drop_last()) =~= Seq::<Seq<char>>::empty());
    assert(c.take(1).last() == np@);
    assert(crate::plan::string_views(sorted@) == crate::index::sort_lex(c.take(1)));
    crate::index::insert_path_sorted(&mut sorted, nl.as_str());
    assert(c.take(2).drop_last() =~= c.take(1));
    assert(c.take(2).last() == nl@);
    assert(crate::plan::string_views(sorted@) == crate::index::sort_lex(c.take(2)));
    crate::index::insert_path_sorted(&mut sorted, ns.as_str());
    assert(c.take(3).drop_last() =~= c.take(2));
    assert(c.take(3).last() == ns@);
    assert(c.take(3) =~= c);
    dedup_exec(&sorted)
}


// ---------------------------------------------------------------------------
// Candidates
// ---------------------------------------------------------------------------

/// A relation that the prose suggests, before the threshold is applied.
pub struct InferredRelationCandidate {
    pub relation_type: String,
    pub confidence: u32,
    pub kind: InferredRelationKind,
}

pub struct RelationCandidateV {
    pub relation_type: Seq<char>,
    pub confidence: u32,
    pub kind: InferredRelationKind,
}

impl View for InferredRelationCandidate {
    type V = RelationCandidateV;

    open spec fn view(&self) -> RelationCandidateV {
        RelationCandidateV { relation_type: self.relation_type@, confidence: self.confidence, kind: self.kind }
    }
}

pub open spec fn opt_candidate_view(o: Option<InferredRelationCandidate>) -> Option<RelationCandidateV> {
    match o {
        Some(c) => Some(c@),
        None => None,
    }
}

/// The candidate replaces the best so far when the strategy allows its kind
/// and it is strictly more confident.
pub open spec fn push_best(best: Option<RelationCandidateV>, c: RelationCandidateV, s: InferenceStrategy) -> Option<RelationCandidateV> {
    if !s.spec_allows(c.kind) {
        best
    } else {
        match best {
            None => Some(c),
            Some(b) => if c.confidence > b.confidence { Some(c) } else { best },
        }
    }
}

fn push_best_exec(best: &mut Option<InferredRelationCandidate>, c: InferredRelationCandidate, s: InferenceStrategy)
    ensures
        opt_candidate_view(*final(best)) == push_best(opt_candidate_view(*old(best)), c@, s),
{
    if !s.allows_candidate_kind(c.kind) {
        return;
    }
    let replace = match best {
        None => true,
        Some(b) => c.confidence > b.confidence,
    };
    if replace {
        *best = Some(c);
    }
}

/// The explicit patterns tried in order for one alias.
pub open spec fn alias_patterns(best: Option<RelationCandidateV>, text: Seq<char>, alias: Seq<char>, s: InferenceStrategy, n: int) -> Option<RelationCandidateV>
    decreases n,
{
    if n <= 0 {
        best
    } else {
        let b = alias_patterns(best, text, alias, s, n - 1);
        if pattern_matches(text, pattern_phrase(n - 1), alias) {
            push_best(b, RelationCandidateV { relation_type: pattern_type(n - 1), confidence: pattern_confidence(n - 1), kind: InferredRelationKind::Explicit }, s)
        } else {
            b
        }
    }
}

/// What one alias contributes: the explicit patterns, a verb near it, and the
/// bare mention (stronger when the alias is the whole path).
pub open spec fn alias_step(best: Option<RelationCandidateV>, text: Seq<char>, target: Seq<char>, alias: Seq<char>, s: InferenceStrategy) -> Option<RelationCandidateV> {
    if alias.len() == 0 || !contains_phrase(text, alias) {
        best
    } else {
        let b1 = alias_patterns(best, text, alias, s, PATTERN_COUNT as int);
        let b2 = if verb_near_alias(text, alias) {
            push_best(b1, RelationCandidateV { relation_type: "references"@, confidence: 72, kind: InferredRelationKind::VerbWindow }, s)
        } else {
            b1
        };
        let mention = if alias == normalize(target) { 68u32 } else { 60u32 };
        push_best(b2, RelationCandidateV { relation_type: "mentions"@, confidence: mention, kind: InferredRelationKind::Mention }, s)
    }
}

pub open spec fn aliases_fold(text: Seq<char>, target: Seq<char>, aliases: Seq<Seq<char>>, s: InferenceStrategy) -> Option<RelationCandidateV>
    decreases aliases.len(),
{
    if aliases.len() == 0 {
        None
    } else {
        alias_step(aliases_fold(text, target, aliases.drop_last(), s), text, target, aliases.last(), s)
    }
}

/// The most confident relation that the normalized text suggests towards the
/// target path.
pub open spec fn relation_candidate(text: Seq<char>, target: Seq<char>, s: InferenceStrategy) -> Option<RelationCandidateV> {
    aliases_fold(text, target, target_aliases(target), s)
}

pub fn infer_relation_candidate(text: &[char], target_path: &str, strategy: InferenceStrategy) -> (r: Option<InferredRelationCandidate>)
    ensures
        opt_candidate_view(r) == relation_candidate(text@, target_path@, strategy),
{
    let aliases = target_aliases_exec(target_path);
    let ghost av = string_views(aliases@);
    let target_norm = normalize_str(target_path);
    let mut best: Option<InferredRelationCandidate> = None;
    let mut i: usize = 0;
    assert(av.take(0) =~= Seq::<Seq<char>>::empty());
    while i < aliases.len()
        invariant
            i <= aliases@.len(),
            av == string_views(aliases@),
            av == target_aliases(target_path@),
            target_norm@ == normalize(target_path@),
            opt_candidate_view(best) == aliases_fold(text@, target_path@, av.take(i as int), strategy),
        decreases aliases@.len() - i,
    {
        let alias = chars_of(aliases[i].as_str());
        assert(alias@ == av[i as int]);
        assert(av.take(i + 1).drop_last() =~= av.take(i as int));
        assert(av.take(i + 1).last() == av[i as int]);
        if alias.len() > 0 && contains_phrase_exec(text, &alias) {
            let ghost b0 = opt_candidate_view(best);
            let mut k: usize = 0;
            while k < PATTERN_COUNT
                invariant
                    k <= PATTERN_COUNT,
                    opt_candidate_view(best) == alias_patterns(b0, text@, alias@, strategy, k as int),
                decreases PATTERN_COUNT - k,
            {
                let (phrase, rtype, conf) = relation_pattern(k);
                if pattern_matches_exec(text, &chars_of(phrase), &alias) {
                    let c = InferredRelationCandidate { relation_type: rtype.to_owned(), confidence: conf, kind: InferredRelationKind::Explicit };
                    push_best_exec(&mut best, c, strategy);
                }
                k += 1;
            }
            if verb_near_alias_exec(text, &alias) {
                let c = InferredRelationCandidate { relation_type: "references".to_owned(), confidence: 72, kind: InferredRelationKind::VerbWindow };
                push_best_exec(&mut best, c, strategy);
            }
            let mention: u32 = if chars_eq(&alias, &target_norm) { 68 } else { 60 };
            let c = InferredRelationCandidate { relation_type: "mentions".to_owned(), confidence: mention, kind: InferredRelationKind::Mention };
            push_best_exec(&mut best, c, strategy);
        }
        i += 1;
    }
    assert(av.take(av.len() as int) =~= av);
    best
}

// ---------------------------------------------------------------------------
// Relations of a section, and of a document
// ---------------------------------------------------------------------------

/// The inferred relation towards a target.
pub open spec fn inferred_relation(to: Seq<char>, c: RelationCandidateV, now: Timestamp) -> GraphRelationV {
    GraphRelationV {
        to,
        relation_type: c.relation_type,
        valid_from: Some(now),
        valid_until: None,
        inferred: true,
        confidence: Some(c.confidence),
    }
}

/// The relations a section's text suggests towards the known paths other than
/// its own, those below the threshold left out.
pub open spec fn inferred_relations(text: Seq<char>, path: Seq<char>, known: Seq<Seq<char>>, now: Timestamp, min_confidence: u32, s: InferenceStrategy) -> Seq<GraphRelationV>
    decreases known.len(),
{
    if known.len() == 0 {
        Seq::empty()
    } else {
        let prev = inferred_relations(text, path, known.drop_last(), now, min_confidence, s);
        let t = known.last();
        if t == path {
            prev
        } else {
            match relation_candidate(text, t, s) {
                Some(c) => if c.confidence < min_confidence { prev } else { prev.push(inferred_relation(t, c, now)) },
                None => prev,
            }
        }
    }
}

pub fn infer_section_relations(section: &Section, known_paths: &Vec<String>, now: Timestamp, min_confidence: u32, strategy: InferenceStrategy) -> (r: Vec<GraphRelation>)
    ensures
        relation_views(r@) == inferred_relations(normalize(section@.content), section@.path, string_views(known_paths@), now, min_confidence, strategy),
        r@.len() <= known_paths@.len(),
{
    let text = normalize_str(section.content.as_str());
    let ghost kv = string_views(known_paths@);
    let mut out: Vec<GraphRelation> = Vec::new();
    let mut i: usize = 0;
    assert(kv.take(0) =~= Seq::<Seq<char>>::empty());
    while i < known_paths.len()
        invariant
            i <= known_paths@.len(),
            kv == string_views(known_paths@),
            text@ == normalize(section@.content),
            out@.len() <= i,
            relation_views(out@) == inferred_relations(text@, section@.path, kv.take(i as int), now, min_confidence, strategy),
        decreases known_paths@.len() - i,
    {
        let target = &known_paths[i];
        assert(kv.take(i + 1).drop_last() =~= kv.take(i as int));
        assert(kv.take(i + 1).last() == target@);
        if !str_eq(target.as_str(), section.path.as_str()) {
            match infer_relation_candidate(&text, target.as_str(), strategy) {
                Some(c) => {
                    if c.confidence >= min_confidence {
                        let ghost before = relation_views(out@);
                        let rel = GraphRelation {
                            to: target.clone(),
                            relation_type: c.relation_type,
                            valid_from: Some(now),
                            valid_until: None,
                            inferred: true,
                            confidence: Some(c.confidence),
                        };
                        out.push(rel);
                        assert(relation_views(out@) =~= before.push(inferred_relation(target@, c@, now)));
                    }
                },
                None => {},
            }
        }
        i += 1;
    }
    assert(kv.take(kv.len() as int) =~= kv);
    out
}

/// Whether some relation in the list points at the path.
pub open spec fn has_target(rels: Seq<GraphRelationV>, to: Seq<char>) -> bool {
    exists|i: int| 0 <= i < rels.len() && #[trigger] rels[i].to == to
}

/// New relations appended to a list, each skipped when the list already holds
/// one towards its target; with the number appended.
pub open spec fn add_new_relations(rels: Seq<GraphRelationV>, new: Seq<GraphRelationV>) -> (Seq<GraphRelationV>, nat)
    decreases new.len(),
{
    if new.len() == 0 {
        (rels, 0)
    } else {
        let (r, n) = add_new_relations(rels, new.drop_last());
        let x = new.last();
        if has_target(r, x.to) {
            (r, n)
        } else {
            (r.push(x), n + 1)
        }
    }
}

/// A section with the relations its text suggests added to its graph, and the
/// number added. A section with any inferred relation gets a graph.
pub open spec fn section_inferred(s: SectionV, known: Seq<Seq<char>>, now: Timestamp, min_confidence: u32, st: InferenceStrategy) -> (SectionV, nat) {
    let rels = inferred_relations(normalize(s.content), s.path, known, now, min_confidence, st);
    if rels.len() == 0 {
        (s, 0)
    } else {
        let g = match s.graph {
            Some(g) => g,
            None => GraphInfoV { node_type: None, relations: Seq::empty() },
        };
        let (r, n) = add_new_relations(g.relations, rels);
        (SectionV { graph: Some(GraphInfoV { relations: r, ..g }), ..s }, n)
    }
}

pub open spec fn sections_inferred(ss: Seq<SectionV>, known: Seq<Seq<char>>, now: Timestamp, min_confidence: u32, st: InferenceStrategy) -> (Seq<SectionV>, nat)
    decreases ss.len(),
{
    if ss.len() == 0 {
        (Seq::empty(), 0)
    } else {
        let (prev, n) = sections_inferred(ss.drop_last(), known, now, min_confidence, st);
        let (s, k) = section_inferred(ss.last(), known, now, min_confidence, st);
        (prev.push(s), n + k)
    }
}

/// The paths of the sections, in order.
pub open spec fn section_paths(ss: Seq<SectionV>) -> Seq<Seq<char>> {
    ss.map_values(|s: SectionV| s.path)
}

/// The document with inferred relations added, and how many were added; the
/// document's `last_updated` moves to `now` when any was.
pub open spec fn spec_infer_relations(d: DocumentV, now: Timestamp, min_confidence: u32, st: InferenceStrategy) -> (DocumentV, nat) {
    if st == InferenceStrategy::Off {
        (d, 0)
    } else {
        let m = st.spec_effective_min_confidence(min_confidence as int) as u32;
        let (ss, n) = sections_inferred(d.sections, section_paths(d.sections), now, m, st);
        let meta = if n > 0 { crate::document::MetaV { last_updated: now, ..d.meta } } else { d.meta };
        (DocumentV { meta, sections: ss, ..d }, n)
    }
}

proof fn lemma_add_new_count(rels: Seq<GraphRelationV>, new: Seq<GraphRelationV>)
    ensures
        add_new_relations(rels, new).1 <= new.len(),
        add_new_relations(rels, new).0.len() == rels.len() + add_new_relations(rels, new).1,
        forall|j: int| 0 <= j < rels.len() ==> add_new_relations(rels, new).0[j] == rels[j],
        forall|j: int| #![trigger add_new_relations(rels, new).0[j]] rels.len() <= j < add_new_relations(rels, new).0.len() ==> exists|t: int| 0 <= t < new.len() && add_new_relations(rels, new).0[j] == #[trigger] new[t],
    decreases new.len(),
{
    if new.len() > 0 {
        lemma_add_new_count(rels, new.drop_last());
        let (r, n) = add_new_relations(rels, new.drop_last());
        let x = new.last();
        if !has_target(r, x.to) {
            assert forall|j: int| #![trigger r.push(x)[j]] rels.len() <= j < r.push(x).len() implies exists|t: int| 0 <= t < new.len() && r.push(x)[j] == #[trigger] new[t] by {
                if j < r.len() {
                    let t = choose|t: int| 0 <= t < new.drop_last().len() && r[j] == #[trigger] new.drop_last()[t];
                    assert(new[t] == new.drop_last()[t]);
                } else {
                    assert(r.push(x)[j] == new[new.len() - 1]);
                }
            }
        } else {
            assert forall|j: int| #![trigger r[j]] rels.len() <= j < r.len() implies exists|t: int| 0 <= t < new.len() && r[j] == #[trigger] new[t] by {
                let t = choose|t: int| 0 <= t < new.drop_last().len() && r[j] == #[trigger] new.drop_last()[t];
                assert(new[t] == new.drop_last()[t]);
            }
        }
    }
}

fn add_new_relations_exec(rels: &mut Vec<GraphRelation>, new: Vec<GraphRelation>) -> (n: usize)
    ensures
        (relation_views(final(rels)@), n as nat) == add_new_relations(relation_views(old(rels)@), relation_views(new@)),
{
    let ghost nv = relation_views(new@);
    let ghost r0 = relation_views(rels@);
    let mut n: usize = 0;
    let mut i: usize = 0;
    assert(nv.take(0) =~= Seq::<GraphRelationV>::empty());
    while i < new.len()
        invariant
            i <= new@.len(),
            nv == relation_views(new@),
            n <= i,
            (relation_views(rels@), n as nat) == add_new_relations(r0, nv.take(i as int)),
        decreases new@.len() - i,
    {
        let x = &new[i];
        assert(nv.take(i + 1).drop_last() =~= nv.take(i as int));
        assert(nv.take(i + 1).last() == x@);
        let ghost rv = relation_views(rels@);
        let mut present = false;
        let mut j: usize = 0;
        while j < rels.len()
            invariant
                j <= rels@.len(),
                rv == relation_views(rels@),
                present == exists|t: int| 0 <= t < j && #[trigger] rv[t].to == x@.to,
            decreases rels@.len() - j,
        {
            assert(rv[j as int] == rels@[j as int]@);
            if str_eq(rels[j].to.as_str(), x.to.as_str()) {
                assert(rv[j as int].to == x@.to);
                present = true;
            } else {
                assert(rv[j as int].to != x@.to);
            }
            j += 1;
        }
        if !present {
            rels.push(x.duplicate());
            assert(relation_views(rels@) =~= rv.push(x@));
            n += 1;
        }
        i += 1;
    }
    assert(nv.take(nv.len() as int) =~= nv);
    n
}

/// A count as a `usize` holds it: stopping at `usize::MAX`.
pub open spec fn capped_count(n: nat) -> nat {
    if n > usize::MAX {
        usize::MAX as nat
    } else {
        n
    }
}

impl RbmemDocument {
    /// Adds the relations that the sections' prose suggests, under the
    /// balanced strategy.
    /// The count of added relations stops at `usize::MAX`.
    pub fn infer_relations(&mut self, now: Timestamp, min_confidence: u32) -> (added: usize)
        ensures
            final(self)@ == spec_infer_relations(old(self)@, now, min_confidence, InferenceStrategy::Balanced).0,
            added as nat == capped_count(spec_infer_relations(old(self)@, now, min_confidence, InferenceStrategy::Balanced).1),
    {
        self.infer_relations_with_strategy(now, min_confidence, InferenceStrategy::Balanced)
    }

    /// Adds to each section's graph the relations that its prose suggests
    /// towards the other sections, at or above the strategy's threshold; a
    /// relation towards a target the section already relates to is not added. Returns how many were added,
    /// a count that stops at `usize::MAX`.
    pub fn infer_relations_with_strategy(&mut self, now: Timestamp, min_confidence: u32, strategy: InferenceStrategy) -> (added: usize)
        ensures
            final(self)@ == spec_infer_relations(old(self)@, now, min_confidence, strategy).0,
            added as nat == capped_count(spec_infer_relations(old(self)@, now, min_confidence, strategy).1),
    {
        if matches!(strategy, InferenceStrategy::Off) {
            return 0;
        }
        let mc = strategy.effective_min_confidence(min_confidence);
        let ghost ss = section_views(self.sections@);
        let ghost count = self.sections@.len();
        let mut known: Vec<String> = Vec::new();
        let mut i: usize = 0;
        while i < self.sections.len()
            invariant
                i <= self.sections@.len(),
                ss == section_views(self.sections@),
                string_views(known@) == section_paths(ss.take(i as int)),
            decreases self.sections@.len() - i,
        {
            known.push(self.sections[i].path.clone());
            assert(section_paths(ss.take(i + 1)) =~= section_paths(ss.take(i as int)).push(ss[i as int].path));
            i += 1;
        }
        assert(ss.take(ss.len() as int) =~= ss);
        let mut out: Vec<Section> = Vec::new();
        let mut added: usize = 0;
        let mut i: usize = 0;
        assert(ss.take(0) =~= Seq::<SectionV>::empty());
        while i < self.sections.len()
            invariant
                i <= self.sections@.len(),
                count == self.sections@.len(),
                ss == section_views(self.sections@),
                string_views(known@) == section_paths(ss),
                known@.len() == count,
                section_views(out@) == sections_inferred(ss.take(i as int), section_paths(ss), now, mc, strategy).0,
                added as nat == capped_count(sections_inferred(ss.take(i as int), section_paths(ss), now, mc, strategy).1),
            decreases self.sections@.len() - i,
        {
            let section = &self.sections[i];
            assert(ss.take(i + 1).drop_last() =~= ss.take(i as int));
            assert(ss.take(i + 1).last() == section@);
            let inferred = infer_section_relations(section, &known, now, mc, strategy);
            let mut copy = section.duplicate();
            let mut k: usize = 0;
            if inferred.len() > 0 {
                let mut graph = match &section.graph {
                    Some(g) => g.duplicate(),
                    None => GraphInfo::empty(),
                };
                assert(graph@.relations == (match section@.graph { Some(g) => g, None => GraphInfoV { node_type: None, relations: Seq::empty() } }).relations);
                proof {
                    lemma_add_new_count(graph@.relations, relation_views(inferred@));
                }
                k = add_new_relations_exec(&mut graph.relations, inferred);
                copy.graph = Some(graph);
            }
            let ghost before = section_views(out@);
            out.push(copy);
            assert(section_views(out@) =~= before.push(section_inferred(section@, section_paths(ss), now, mc, strategy).0));
            added = added.saturating_add(k);
            i += 1;
        }
        assert(ss.take(ss.len() as int) =~= ss);
        self.sections = out;
        if added > 0 {
            self.meta.last_updated = now;
        }
        added
    }
}

/// Every relation a section's text suggests is marked inferred, with the
/// time it was inferred from.
proof fn lemma_inferred_flagged(text: Seq<char>, path: Seq<char>, known: Seq<Seq<char>>, now: Timestamp, min_confidence: u32, st: InferenceStrategy)
    ensures
        forall|j: int| 0 <= j < inferred_relations(text, path, known, now, min_confidence, st).len() ==> {
            &&& (#[trigger] inferred_relations(text, path, known, now, min_confidence, st)[j]).inferred
            &&& inferred_relations(text, path, known, now, min_confidence, st)[j].valid_from == Some(now)
            &&& inferred_relations(text, path, known, now, min_confidence, st)[j].to != path
        },
    decreases known.len(),
{
    if known.len() > 0 {
        lemma_inferred_flagged(text, path, known.drop_last(), now, min_confidence, st);
    }
}

/// What inference keeps of one section: its path, type, times, source and
/// content, and its relations as the first ones of its new list; what it adds
/// is inferred.
pub open spec fn kept_by_inference(old: SectionV, new: SectionV) -> bool {
    &&& new.path == old.path
    &&& new.section_type == old.section_type
    &&& new.temporal == old.temporal
    &&& new.source == old.source
    &&& new.encrypted == old.encrypted
    &&& new.content == old.content
    &&& old.graph matches Some(g) ==> new.graph matches Some(h) && h.node_type == g.node_type
        && h.relations.len() >= g.relations.len()
        && (forall|j: int| 0 <= j < g.relations.len() ==> h.relations[j] == g.relations[j])
        && (forall|j: int| g.relations.len() <= j < h.relations.len() ==> (#[trigger] h.relations[j]).inferred)
    &&& old.graph is None ==> (new.graph matches Some(h) ==> forall|j: int|
        0 <= j < h.relations.len() ==> (#[trigger] h.relations[j]).inferred)
}

proof fn lemma_section_kept(s: SectionV, known: Seq<Seq<char>>, now: Timestamp, min_confidence: u32, st: InferenceStrategy)
    ensures
        kept_by_inference(s, section_inferred(s, known, now, min_confidence, st).0),
{
    let rels = inferred_relations(normalize(s.content), s.path, known, now, min_confidence, st);
    lemma_inferred_flagged(normalize(s.content), s.path, known, now, min_confidence, st);
    if rels.len() > 0 {
        let g = match s.graph {
            Some(g) => g,
            None => GraphInfoV { node_type: None, relations: Seq::empty() },
        };
        lemma_add_new_count(g.relations, rels);
        let r = add_new_relations(g.relations, rels).0;
        assert forall|j: int| g.relations.len() <= j < r.len() implies (#[trigger] r[j]).inferred by {
            let t = choose|t: int| 0 <= t < rels.len() && r[j] == #[trigger] rels[t];
        }
    }
}

/// Relation inference is non-destructive: every section keeps its path,
/// type, times, source and content and all the relations it had, in order,
/// and gains only relations marked inferred; with the strategy `off` the
/// document is left as it was and nothing is added.
pub proof fn lemma_inference_non_destructive(d: DocumentV, now: Timestamp, min_confidence: u32, st: InferenceStrategy)
    ensures
        ({
            let (r, n) = spec_infer_relations(d, now, min_confidence, st);
            &&& r.sections.len() == d.sections.len()
            &&& forall|i: int| 0 <= i < d.sections.len() ==> kept_by_inference(d.sections[i], #[trigger] r.sections[i])
            &&& st == InferenceStrategy::Off ==> r == d && n == 0
        }),
{
    if st != InferenceStrategy::Off {
        let m = st.spec_effective_min_confidence(min_confidence as int) as u32;
        lemma_sections_kept(d.sections, section_paths(d.sections), now, m, st);
    } else {
        assert forall|i: int| 0 <= i < d.sections.len() implies kept_by_inference(d.sections[i], #[trigger] d.sections[i]) by {
            match d.sections[i].graph {
                Some(g) => {},
                None => {},
            }
        }
    }
}

proof fn lemma_sections_kept(ss: Seq<SectionV>, known: Seq<Seq<char>>, now: Timestamp, min_confidence: u32, st: InferenceStrategy)
    ensures
        sections_inferred(ss, known, now, min_confidence, st).0.len() == ss.len(),
        forall|i: int| 0 <= i < ss.len() ==> kept_by_inference(ss[i], #[trigger] sections_inferred(ss, known, now, min_confidence, st).0[i]),
    decreases ss.len(),
{
    if ss.len() > 0 {
        lemma_sections_kept(ss.drop_last(), known, now, min_confidence, st);
        lemma_section_kept(ss.last(), known, now, min_confidence, st);
        let prev = sections_inferred(ss.drop_last(), known, now, min_confidence, st).0;
        let all = sections_inferred(ss, known, now, min_confidence, st).0;
        assert forall|i: int| 0 <= i < ss.len() implies kept_by_inference(ss[i], #[trigger] all[i]) by {
            if i < ss.len() - 1 {
                assert(all[i] == prev[i]);
                assert(ss[i] == ss.drop_last()[i]);
            }
        }
    }
}

} // verus!
