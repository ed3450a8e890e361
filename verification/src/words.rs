//! Normalised words: the lower-case ASCII words of a text, the significant
//! terms among them, and how many terms two texts share.
use vstd::prelude::*;
use crate::text::{
    chars_eq, chars_of, is_ascii_alnum, is_ascii_alnum_char, lower, lower_char, split_words, trim,
    trimmed, views, words,
};

verus! {

/// The normalising pass: ASCII letters and digits lower-cased, every run of
/// other characters after a word turned into one space.
pub open spec fn norm_fold(s: Seq<char>) -> (Seq<char>, bool)
    decreases s.len(),
{
    if s.len() == 0 {
        (Seq::empty(), true)
    } else {
        let (o, last_space) = norm_fold(s.drop_last());
        let c = s.last();
        if is_ascii_alnum(c) {
            (o.push(lower(c)), false)
        } else if !last_space {
            (o.push(' '), true)
        } else {
            (o, last_space)
        }
    }
}

/// A text reduced to lower-case ASCII words separated by single spaces.
pub open spec fn normalize(s: Seq<char>) -> Seq<char> {
    trim(norm_fold(s).0)
}

pub fn normalize_chars(v: &[char]) -> (r: Vec<char>)
    ensures
        r@ == normalize(v@),
{
    let mut out: Vec<char> = Vec::new();
    let mut last_space = true;
    let mut i: usize = 0;
    assert(v@.take(0) =~= Seq::<char>::empty());
    while i < v.len()
        invariant
            i <= v@.len(),
            (out@, last_space) == norm_fold(v@.take(i as int)),
        decreases v@.len() - i,
    {
        let c = v[i];
        assert(v@.take(i + 1).drop_last() =~= v@.take(i as int));
        assert(v@.take(i + 1).last() == c);
        if is_ascii_alnum_char(c) {
            out.push(lower_char(c));
            last_space = false;
        } else if !last_space {
            out.push(' ');
            last_space = true;
        }
        i += 1;
    }
    assert(v@.take(v@.len() as int) =~= v@);
    trimmed(&out)
}

pub fn normalize_str(s: &str) -> (r: Vec<char>)
    ensures
        r@ == normalize(s@),
{
    normalize_chars(&chars_of(s))
}

/// Words that carry no meaning for matching goals and actions.
pub open spec fn is_stop_word(w: Seq<char>) -> bool {
    ||| w == "the"@ ||| w == "and"@ ||| w == "for"@ ||| w == "with"@ ||| w == "this"@
    ||| w == "that"@ ||| w == "from"@ ||| w == "into"@ ||| w == "your"@ ||| w == "you"@
    ||| w == "are"@ ||| w == "was"@ ||| w == "were"@ ||| w == "have"@ ||| w == "has"@
    ||| w == "had"@ ||| w == "will"@ ||| w == "shall"@ ||| w == "should"@ ||| w == "must"@
    ||| w == "need"@ ||| w == "needs"@ ||| w == "goal"@ ||| w == "task"@ ||| w == "plan"@
    ||| w == "step"@ ||| w == "agent"@ ||| w == "memory"@
}

pub fn is_stop_word_exec(w: &[char]) -> (r: bool)
    ensures
        r == is_stop_word(w@),
{
    chars_eq(w, &chars_of("the")) || chars_eq(w, &chars_of("and")) || chars_eq(w, &chars_of("for"))
        || chars_eq(w, &chars_of("with")) || chars_eq(w, &chars_of("this")) || chars_eq(
        w,
        &chars_of("that"),
    ) || chars_eq(w, &chars_of("from")) || chars_eq(w, &chars_of("into")) || chars_eq(
        w,
        &chars_of("your"),
    ) || chars_eq(w, &chars_of("you")) || chars_eq(w, &chars_of("are")) || chars_eq(
        w,
        &chars_of("was"),
    ) || chars_eq(w, &chars_of("were")) || chars_eq(w, &chars_of("have")) || chars_eq(
        w,
        &chars_of("has"),
    ) || chars_eq(w, &chars_of("had")) || chars_eq(w, &chars_of("will")) || chars_eq(
        w,
        &chars_of("shall"),
    ) || chars_eq(w, &chars_of("should")) || chars_eq(w, &chars_of("must")) || chars_eq(
        w,
        &chars_of("need"),
    ) || chars_eq(w, &chars_of("needs")) || chars_eq(w, &chars_of("goal")) || chars_eq(
        w,
        &chars_of("task"),
    ) || chars_eq(w, &chars_of("plan")) || chars_eq(w, &chars_of("step")) || chars_eq(
        w,
        &chars_of("agent"),
    ) || chars_eq(w, &chars_of("memory"))
}

/// A significant term: longer than two characters and not a stop word.
pub open spec fn is_term(w: Seq<char>) -> bool {
    w.len() > 2 && !is_stop_word(w)
}

/// The terms of a text, each once, in order of first appearance.
pub open spec fn term_list(ws: Seq<Seq<char>>) -> Seq<Seq<char>>
    decreases ws.len(),
{
    if ws.len() == 0 {
        Seq::empty()
    } else {
        let prev = term_list(ws.drop_last());
        if is_term(ws.last()) && !prev.contains(ws.last()) {
            prev.push(ws.last())
        } else {
            prev
        }
    }
}

pub open spec fn terms(text: Seq<char>) -> Seq<Seq<char>> {
    term_list(words(normalize(text)))
}

/// How many of the terms of `a` occur among those of `b`.
pub open spec fn count_shared(a: Seq<Seq<char>>, b: Seq<Seq<char>>) -> nat
    decreases a.len(),
{
    if a.len() == 0 {
        0
    } else {
        count_shared(a.drop_last(), b) + if b.contains(a.last()) {
            1nat
        } else {
            0nat
        }
    }
}

/// The number of terms two texts share.
pub open spec fn overlap(left: Seq<char>, right: Seq<char>) -> nat {
    count_shared(terms(left), terms(right))
}

fn list_contains(list: &Vec<Vec<char>>, w: &[char]) -> (r: bool)
    ensures
        r == views(list@).contains(w@),
{
    let mut i: usize = 0;
    while i < list.len()
        invariant
            i <= list@.len(),
            forall|j: int| 0 <= j < i ==> views(list@)[j] != w@,
        decreases list@.len() - i,
    {
        if chars_eq(&list[i], w) {
            assert(views(list@)[i as int] == w@);
            return true;
        }
        i += 1;
    }
    false
}

pub fn terms_of(text: &[char]) -> (r: Vec<Vec<char>>)
    ensures
        views(r@) == terms(text@),
        r@.len() <= text@.len(),
{
    let norm = normalize_chars(text);
    let ws = split_words(&norm);
    let ghost wv = views(ws@);
    let mut out: Vec<Vec<char>> = Vec::new();
    let mut i: usize = 0;
    assert(wv.take(0) =~= Seq::<Seq<char>>::empty());
    while i < ws.len()
        invariant
            i <= ws@.len(),
            wv == views(ws@),
            wv == words(normalize(text@)),
            views(out@) == term_list(wv.take(i as int)),
            out@.len() <= i,
        decreases ws@.len() - i,
    {
        let w = &ws[i];
        assert(wv.take(i + 1).drop_last() =~= wv.take(i as int));
        assert(wv.take(i + 1).last() == w@);
        if w.len() > 2 && !is_stop_word_exec(w) && !list_contains(&out, w) {
            let ghost before = views(out@);
            let copy = crate::text::copy_range(w, 0, w.len());
            assert(copy@ =~= w@);
            out.push(copy);
            assert(views(out@) =~= before.push(w@));
        }
        i += 1;
    }
    assert(wv.take(wv.len() as int) =~= wv);
    proof {
        lemma_words_len(normalize(text@));
        lemma_normalize_len(text@);
    }
    out
}

pub proof fn lemma_count_shared_le(a: Seq<Seq<char>>, b: Seq<Seq<char>>)
    ensures
        count_shared(a, b) <= a.len(),
    decreases a.len(),
{
    if a.len() > 0 {
        lemma_count_shared_le(a.drop_last(), b);
    }
}

pub proof fn lemma_norm_fold_len(s: Seq<char>)
    ensures
        norm_fold(s).0.len() <= s.len(),
    decreases s.len(),
{
    if s.len() > 0 {
        lemma_norm_fold_len(s.drop_last());
    }
}

pub proof fn lemma_normalize_len(s: Seq<char>)
    ensures
        normalize(s).len() <= s.len(),
{
    lemma_norm_fold_len(s);
    crate::text::lemma_trim_len(norm_fold(s).0);
}

pub proof fn lemma_words_len(s: Seq<char>)
    ensures
        words(s).len() <= s.len(),
{
    crate::text::lemma_words_len(s);
}

/// The number of terms two texts share.
pub fn overlap_score(left: &[char], right: &[char]) -> (r: usize)
    ensures
        r as nat == overlap(left@, right@),
        r <= left@.len(),
{
    let lt = terms_of(left);
    let rt = terms_of(right);
    let ghost lv = views(lt@);
    let mut count: usize = 0;
    let mut i: usize = 0;
    assert(lv.take(0) =~= Seq::<Seq<char>>::empty());
    while i < lt.len()
        invariant
            i <= lt@.len(),
            lv == views(lt@),
            lv == terms(left@),
            views(rt@) == terms(right@),
            count as nat == count_shared(lv.take(i as int), terms(right@)),
            count <= i,
        decreases lt@.len() - i,
    {
        assert(lv.take(i + 1).drop_last() =~= lv.take(i as int));
        assert(lv.take(i + 1).last() == lt@[i as int]@);
        if list_contains(&rt, &lt[i]) {
            count += 1;
        }
        i += 1;
    }
    assert(lv.take(lv.len() as int) =~= lv);
    count
}

/// How many shared terms make a phrase match: one for a phrase of at most
/// one term, else two.
pub open spec fn phrase_threshold(phrase: Seq<char>) -> nat {
    if terms(phrase).len() <= 1 {
        1
    } else {
        2
    }
}

pub fn phrase_threshold_exec(phrase: &[char]) -> (r: usize)
    ensures
        r as nat == phrase_threshold(phrase@),
{
    if terms_of(phrase).len() <= 1 {
        1
    } else {
        2
    }
}

/// Whether a word of the normalised path is one of the needles.
pub open spec fn path_has_any(path: Seq<char>, needles: Seq<Seq<char>>) -> bool {
    exists|i: int, j: int|
        0 <= i < needles.len() && 0 <= j < words(normalize(path)).len() && words(normalize(path))[j]
            == needles[i]
}

pub fn path_has_any_exec(path: &[char], needles: &Vec<Vec<char>>) -> (r: bool)
    ensures
        r == path_has_any(path@, views(needles@)),
{
    let norm = normalize_chars(path);
    let ws = split_words(&norm);
    let mut j: usize = 0;
    while j < ws.len()
        invariant
            j <= ws@.len(),
            views(ws@) == words(normalize(path@)),
            forall|i: int, k: int|
                0 <= i < needles@.len() && 0 <= k < j ==> views(ws@)[k] != views(needles@)[i],
        decreases ws@.len() - j,
    {
        if list_contains(needles, &ws[j]) {
            let ghost i = choose|i: int| 0 <= i < views(needles@).len() && views(needles@)[i] == ws@[j as int]@;
            assert(views(ws@)[j as int] == ws@[j as int]@);
            return true;
        }
        j += 1;
    }
    false
}

/// UTF-8 length of a character.
pub open spec fn utf8_width(c: char) -> nat {
    if (c as u32) < 0x80 {
        1
    } else if (c as u32) < 0x800 {
        2
    } else if (c as u32) < 0x10000 {
        3
    } else {
        4
    }
}

/// `str::len`: the UTF-8 length of a text.
pub open spec fn utf8_len(s: Seq<char>) -> nat
    decreases s.len(),
{
    if s.len() == 0 {
        0
    } else {
        utf8_len(s.drop_last()) + utf8_width(s.last())
    }
}

/// Whether the UTF-8 length of `v` is below `n`.
pub fn utf8_len_below(v: &[char], n: usize) -> (r: bool)
    ensures
        r == (utf8_len(v@) < n),
{
    if n == 0 {
        return false;
    }
    let mut total: usize = 0;
    let mut i: usize = 0;
    assert(v@.take(0) =~= Seq::<char>::empty());
    while i < v.len()
        invariant
            i <= v@.len(),
            total as nat == utf8_len(v@.take(i as int)),
            total < n,
        decreases v@.len() - i,
    {
        let c = v[i];
        let w: usize = if (c as u32) < 0x80 {
            1
        } else if (c as u32) < 0x800 {
            2
        } else if (c as u32) < 0x10000 {
            3
        } else {
            4
        };
        assert(v@.take(i + 1).drop_last() =~= v@.take(i as int));
        if w >= n - total {
            proof {
                lemma_utf8_len_prefix(v@, i + 1);
            }
            return false;
        }
        total = total + w;
        i += 1;
    }
    assert(v@.take(v@.len() as int) =~= v@);
    true
}

pub proof fn lemma_utf8_len_prefix(s: Seq<char>, k: int)
    requires
        0 <= k <= s.len(),
    ensures
        utf8_len(s.take(k)) <= utf8_len(s),
    decreases s.len() - k,
{
    if k < s.len() {
        lemma_utf8_len_prefix(s, k + 1);
        assert(s.take(k + 1).drop_last() =~= s.take(k));
    } else {
        assert(s.take(k) =~= s);
    }
}

} // verus!
