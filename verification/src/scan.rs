//! Finding the sections of an RBMEM text: where the meta block ends, and the
//! delimiters of each section in the canonical (`[SECTION: p]` ...
//! `[END SECTION]`) and human (`=== SECTION: p` ... `=== END SECTION`) forms.
use vstd::prelude::*;
use crate::scalar::not_line_ending;
use crate::text::{
    chars_of, contains, copy_range, find_from, first_occurrence_from, is_ws, is_ws_char, lemma_first_occurrence_unique,
    occurs_at, starts_with_chars, trim, trim_start,
};

verus! {

/// `s.replace("\r\n", "\n")`.
pub open spec fn crlf_to_lf(s: Seq<char>) -> Seq<char>
    decreases s.len(),
{
    if s.len() >= 2 && s[0] == '\r' && s[1] == '\n' {
        seq!['\n'] + crlf_to_lf(s.skip(2))
    } else if s.len() > 0 {
        seq![s[0]] + crlf_to_lf(s.skip(1))
    } else {
        s
    }
}

pub fn crlf_to_lf_exec(v: &[char]) -> (r: Vec<char>)
    ensures
        r@ == crlf_to_lf(v@),
{
    let mut out: Vec<char> = Vec::new();
    let mut i: usize = 0;
    assert(v@.skip(0) =~= v@);
    while i < v.len()
        invariant
            i <= v@.len(),
            crlf_to_lf(v@) == out@ + crlf_to_lf(v@.skip(i as int)),
        decreases v@.len() - i,
    {
        let ghost rest = v@.skip(i as int);
        if i + 1 < v.len() && v[i] == '\r' && v[i + 1] == '\n' {
            out.push('\n');
            assert(rest.skip(2) =~= v@.skip(i + 2));
            assert(crlf_to_lf(rest) == seq!['\n'] + crlf_to_lf(rest.skip(2)));
            i += 2;
        } else {
            out.push(v[i]);
            assert(rest.skip(1) =~= v@.skip(i + 1));
            assert(crlf_to_lf(rest) == seq![v@[i as int]] + crlf_to_lf(rest.skip(1)));
            i += 1;
        }
        assert(crlf_to_lf(v@) =~= out@ + crlf_to_lf(v@.skip(i as int)));
    }
    assert(crlf_to_lf(v@.skip(i as int)) =~= Seq::<char>::empty());
    assert(out@ + Seq::<char>::empty() =~= out@);
    out
}

/// The first position of `pat` in `s`.
pub open spec fn find(s: Seq<char>, pat: Seq<char>) -> Option<int> {
    if contains(s, pat) {
        Some(choose|i: int| first_occurrence_from(s, pat, 0, i))
    } else {
        None
    }
}

/// `find` on `v[from..]`, as a position relative to `from`.
pub fn find_in(v: &[char], pat: &[char], from: usize) -> (r: Option<usize>)
    requires
        from <= v@.len(),
    ensures
        r matches Some(i) ==> find(v@.skip(from as int), pat@) == Some(i as int) && from + i + pat@.len() <= v@.len(),
        r is None ==> find(v@.skip(from as int), pat@) is None,
{
    let ghost s = v@.skip(from as int);
    match find_from(v, pat, from) {
        Some(j) => {
            proof {
                assert(occurs_at(s, pat@, j - from)) by {
                    assert(s.subrange(j - from, j - from + pat@.len()) =~= v@.subrange(j as int, j + pat@.len()));
                }
                assert forall|k: int| 0 <= k < j - from implies !occurs_at(s, pat@, k) by {
                    if occurs_at(s, pat@, k) {
                        assert(s.subrange(k, k + pat@.len()) =~= v@.subrange(from + k, from + k + pat@.len()));
                        assert(occurs_at(v@, pat@, from + k));
                    }
                }
                assert(first_occurrence_from(s, pat@, 0, j - from));
                let c = choose|c: int| first_occurrence_from(s, pat@, 0, c);
                lemma_first_occurrence_unique(s, pat@, 0, j - from, c);
            }
            Some(j - from)
        },
        None => {
            proof {
                assert forall|k: int| !occurs_at(s, pat@, k) by {
                    if occurs_at(s, pat@, k) {
                        assert(s.subrange(k, k + pat@.len()) =~= v@.subrange(from + k, from + k + pat@.len()));
                        assert(occurs_at(v@, pat@, from + k));
                    }
                }
            }
            None
        },
    }
}

/// Where the meta block ends: before the first canonical delimiter, else
/// the first human delimiter, else one character before a bare `SECTION:`,
/// else at the end.
pub open spec fn meta_end(s: Seq<char>) -> int {
    match find(s, "[SECTION:"@) {
        Some(i) => i,
        None => match find(s, "=== SECTION:"@) {
            Some(i) => i,
            None => match find(s, "SECTION:"@) {
                Some(i) => if i > 0 {
                    i - 1
                } else {
                    0
                },
                None => s.len() as int,
            },
        },
    }
}

/// A byte-level split of the text would fall inside a character that is not
/// ASCII (`str::split_at` panics off a character boundary).
pub open spec fn split_inside_char(s: Seq<char>) -> bool {
    find(s, "[SECTION:"@) is None && find(s, "=== SECTION:"@) is None && match find(s, "SECTION:"@) {
        Some(i) => i > 0 && (s[i - 1] as u32) >= 128,
        None => false,
    }
}

pub fn meta_end_exec(v: &[char]) -> (r: usize)
    ensures
        r as int == meta_end(v@),
        r <= v@.len(),
{
    assert(v@.skip(0) =~= v@);
    match find_in(v, &chars_of("[SECTION:"), 0) {
        Some(i) => i,
        None => match find_in(v, &chars_of("=== SECTION:"), 0) {
            Some(i) => i,
            None => match find_in(v, &chars_of("SECTION:"), 0) {
                Some(i) => if i > 0 {
                    i - 1
                } else {
                    0
                },
                None => v.len(),
            },
        },
    }
}

pub fn splits_inside_char(v: &[char]) -> (r: bool)
    ensures
        r == split_inside_char(v@),
{
    assert(v@.skip(0) =~= v@);
    if find_in(v, &chars_of("[SECTION:"), 0).is_some() || find_in(v, &chars_of("=== SECTION:"), 0).is_some() {
        return false;
    }
    match find_in(v, &chars_of("SECTION:"), 0) {
        Some(i) => i > 0 && (v[i - 1] as u32) >= 128,
        None => false,
    }
}

// ---------------------------------------------------------------------------
// Delimiters
// ---------------------------------------------------------------------------

pub open spec fn is_multispace(c: char) -> bool {
    c == ' ' || c == '\t' || c == '\r' || c == '\n'
}

/// How many spaces, tabs and line breaks lead `s`.
pub open spec fn multispace_len(s: Seq<char>) -> int
    decreases s.len(),
{
    if s.len() > 0 && is_multispace(s[0]) {
        1 + multispace_len(s.drop_first())
    } else {
        0
    }
}

/// How many ASCII letters lead `s`.
pub open spec fn alpha_len(s: Seq<char>) -> int
    decreases s.len(),
{
    if s.len() > 0 && (('a' <= s[0] && s[0] <= 'z') || ('A' <= s[0] && s[0] <= 'Z')) {
        1 + alpha_len(s.drop_first())
    } else {
        0
    }
}

/// The length of a line ending (`\n` or `\r\n`) at the start of `s`, or 0.
pub open spec fn line_ending_len(s: Seq<char>) -> int {
    if s.len() > 0 && s[0] == '\n' {
        1
    } else if s.len() > 1 && s[0] == '\r' && s[1] == '\n' {
        2
    } else {
        0
    }
}

/// How many characters a run of line endings at the start of `s` takes.
pub open spec fn line_endings_len(s: Seq<char>) -> int
    decreases s.len(),
{
    let k = line_ending_len(s);
    if k > 0 && k <= s.len() {
        k + line_endings_len(s.skip(k))
    } else {
        0
    }
}

/// A canonical section at the start of `s`: an optional word glued to
/// `[SECTION:`, the path up to `]`, line breaks, the body up to
/// `[END SECTION]`, and one optional line break. The result is how much was
/// read, the trimmed path, and the body.
pub open spec fn canonical_section(s: Seq<char>) -> Option<(int, Seq<char>, Seq<char>)> {
    let p = alpha_len(s);
    let s2 = s.skip(p);
    let open = "[SECTION:"@;
    if !open.is_prefix_of(s2) {
        None
    } else {
        let s3 = s2.skip(open.len() as int);
        match find(s3, "]"@) {
            None => None,
            Some(j) => {
                let s4 = s3.skip(j + 1);
                let e = line_endings_len(s4);
                let s5 = s4.skip(e);
                let close = "[END SECTION]"@;
                match find(s5, close) {
                    None => None,
                    Some(b) => {
                        let s6 = s5.skip(b + close.len());
                        let le = line_ending_len(s6);
                        Some(
                            (
                                p + open.len() + j + 1 + e + b + close.len() + le,
                                trim(s3.take(j)),
                                s5.take(b),
                            ),
                        )
                    },
                }
            },
        }
    }
}

/// A human section at the start of `s`: `=== SECTION:` and the path to the
/// end of its line, line breaks, the body up to `=== END SECTION`, the rest
/// of that line and one optional line break.
pub open spec fn human_section(s: Seq<char>) -> Option<(int, Seq<char>, Seq<char>)> {
    let open = "=== SECTION:"@;
    let s2 = s.skip(open.len() as int);
    match not_line_ending(s2) {
        None => None,
        Some(path) => {
            let s3 = s2.skip(path.len() as int);
            let e = line_endings_len(s3);
            let s4 = s3.skip(e);
            let close = "=== END SECTION"@;
            match find(s4, close) {
                None => None,
                Some(b) => {
                    let s5 = s4.skip(b + close.len());
                    let x: int = match not_line_ending(s5) {
                        Some(t) => t.len() as int,
                        None => 0,
                    };
                    let le = line_ending_len(s5.skip(x));
                    Some(
                        (
                            open.len() + path.len() + e + b + close.len() + x + le,
                            trim(path),
                            s4.take(b),
                        ),
                    )
                },
            }
        },
    }
}

/// The section at the start of `s`, after leading blank space.
pub open spec fn next_section(s: Seq<char>) -> Option<(int, Seq<char>, Seq<char>)> {
    let w = multispace_len(s);
    let r = s.skip(w);
    let found = if "=== SECTION:"@.is_prefix_of(r) {
        human_section(r)
    } else {
        canonical_section(r)
    };
    match found {
        Some((k, path, body)) => Some((w + k, path, body)),
        None => None,
    }
}

// ---------------------------------------------------------------------------
// Executable scanning, by position in the whole text
// ---------------------------------------------------------------------------

pub proof fn lemma_skip_skip(s: Seq<char>, a: int, b: int)
    requires
        0 <= a,
        0 <= b,
        a + b <= s.len(),
    ensures
        s.skip(a).skip(b) == s.skip(a + b),
{
    assert(s.skip(a).skip(b) =~= s.skip(a + b));
}

fn multispace_at(v: &[char], from: usize) -> (r: usize)
    requires
        from <= v@.len(),
    ensures
        from <= r <= v@.len(),
        r - from == multispace_len(v@.skip(from as int)),
{
    let mut i: usize = from;
    while i < v.len() && (v[i] == ' ' || v[i] == '\t' || v[i] == '\r' || v[i] == '\n')
        invariant
            from <= i <= v@.len(),
            multispace_len(v@.skip(from as int)) == (i - from) + multispace_len(v@.skip(i as int)),
        decreases v@.len() - i,
    {
        assert(v@.skip(i as int).drop_first() =~= v@.skip(i + 1));
        i += 1;
    }
    i
}

fn alpha_at(v: &[char], from: usize) -> (r: usize)
    requires
        from <= v@.len(),
    ensures
        from <= r <= v@.len(),
        r - from == alpha_len(v@.skip(from as int)),
{
    let mut i: usize = from;
    while i < v.len() && (('a' <= v[i] && v[i] <= 'z') || ('A' <= v[i] && v[i] <= 'Z'))
        invariant
            from <= i <= v@.len(),
            alpha_len(v@.skip(from as int)) == (i - from) + alpha_len(v@.skip(i as int)),
        decreases v@.len() - i,
    {
        assert(v@.skip(i as int).drop_first() =~= v@.skip(i + 1));
        i += 1;
    }
    i
}

fn line_ending_at(v: &[char], from: usize) -> (r: usize)
    requires
        from <= v@.len(),
    ensures
        r as int == line_ending_len(v@.skip(from as int)),
        from + r <= v@.len(),
{
    if from < v.len() && v[from] == '\n' {
        1
    } else if v.len() - from >= 2 && v[from] == '\r' && v[from + 1] == '\n' {
        2
    } else {
        0
    }
}

fn line_endings_at(v: &[char], from: usize) -> (r: usize)
    requires
        from <= v@.len(),
    ensures
        from <= r <= v@.len(),
        r - from == line_endings_len(v@.skip(from as int)),
{
    let mut i: usize = from;
    let len = v.len();
    loop
        invariant
            from <= i <= v@.len(),
            v@.len() <= usize::MAX,
            line_endings_len(v@.skip(from as int)) == (i - from) + line_endings_len(v@.skip(i as int)),
        decreases v@.len() - i,
    {
        let k = line_ending_at(v, i);
        if k == 0 {
            return i;
        }
        proof {
            lemma_skip_skip(v@, i as int, k as int);
        }
        i += k;
    }
}

fn not_line_ending_len_at(v: &[char], from: usize) -> (r: Option<usize>)
    requires
        from <= v@.len(),
    ensures
        r matches Some(n) ==> not_line_ending(v@.skip(from as int)) matches Some(t) && t.len() == n && t == v@.subrange(from as int, from + n) && from + n <= v@.len(),
        r is None ==> not_line_ending(v@.skip(from as int)) is None,
{
    let mut i: usize = from;
    while i < v.len() && v[i] != '\n' && v[i] != '\r'
        invariant
            from <= i <= v@.len(),
            not_line_ending(v@.skip(from as int)) == match not_line_ending(v@.skip(i as int)) {
                Some(rest) => Some(v@.subrange(from as int, i as int) + rest),
                None => None,
            },
        decreases v@.len() - i,
    {
        assert(v@.skip(i as int).drop_first() =~= v@.skip(i + 1));
        assert(v@.subrange(from as int, i + 1) =~= v@.subrange(from as int, i as int) + seq![v@[i as int]]);
        i += 1;
    }
    if i < v.len() && v[i] == '\r' && !(i + 1 < v.len() && v[i + 1] == '\n') {
        return None;
    }
    assert(not_line_ending(v@.skip(i as int)) == Some(Seq::<char>::empty()));
    assert(v@.subrange(from as int, i as int) + Seq::<char>::empty() =~= v@.subrange(from as int, i as int));
    Some(i - from)
}

/// A section found in the text: where it ends, its trimmed path, and the
/// bounds of its body.
pub struct SectionSpan {
    pub end: usize,
    pub path: Vec<char>,
    pub body_start: usize,
    pub body_end: usize,
}

fn canonical_at(v: &[char], from: usize) -> (r: Option<SectionSpan>)
    requires
        from <= v@.len(),
    ensures
        r matches Some(sp) ==> canonical_section(v@.skip(from as int)) matches Some((k, path, body)) && sp.end
            == from + k && sp.end <= v@.len() && sp.path@ == path && sp.body_start <= sp.body_end <= v@.len()
            && body == v@.subrange(sp.body_start as int, sp.body_end as int) && k > 0,
        r is None ==> canonical_section(v@.skip(from as int)) is None,
{
    let ghost s = v@.skip(from as int);
    let len = v.len();
    proof {
        reveal_strlit("[SECTION:");
        reveal_strlit("]");
        reveal_strlit("[END SECTION]");
    }
    let a = alpha_at(v, from);
    let ghost p = a - from;
    proof {
        lemma_skip_skip(v@, from as int, p);
    }
    let open = chars_of("[SECTION:");
    let rest = copy_range(v, a, v.len());
    assert(rest@ =~= v@.skip(a as int));
    if !starts_with_chars(&rest, &open) {
        return None;
    }
    let b = a + open.len();
    proof {
        lemma_skip_skip(v@, a as int, open@.len() as int);
        lemma_skip_skip(v@, from as int, p + open@.len());
    }
    let j = match find_in(v, &chars_of("]"), b) {
        Some(j) => j,
        None => {
            return None;
        },
    };
    let path_raw = copy_range(v, b, b + j);
    assert(path_raw@ =~= v@.skip(b as int).take(j as int));
    let path = crate::text::trimmed(&path_raw);
    let c = b + j + 1;
    proof {
        lemma_skip_skip(v@, b as int, j + 1);
    }
    let d = line_endings_at(v, c);
    proof {
        lemma_skip_skip(v@, c as int, d - c);
    }
    let close = chars_of("[END SECTION]");
    let e = match find_in(v, &close, d) {
        Some(e) => e,
        None => {
            return None;
        },
    };
    assert(v@.skip(d as int).take(e as int) =~= v@.subrange(d as int, d + e));
    let f = d + e + close.len();
    proof {
        lemma_skip_skip(v@, d as int, e + close@.len());
    }
    let le = line_ending_at(v, f);
    Some(SectionSpan { end: f + le, path, body_start: d, body_end: d + e })
}

fn human_at(v: &[char], from: usize) -> (r: Option<SectionSpan>)
    requires
        from <= v@.len(),
        "=== SECTION:"@.is_prefix_of(v@.skip(from as int)),
    ensures
        r matches Some(sp) ==> human_section(v@.skip(from as int)) matches Some((k, path, body)) && sp.end
            == from + k && sp.end <= v@.len() && sp.path@ == path && sp.body_start <= sp.body_end <= v@.len()
            && body == v@.subrange(sp.body_start as int, sp.body_end as int) && k > 0,
        r is None ==> human_section(v@.skip(from as int)) is None,
{
    let len = v.len();
    proof {
        reveal_strlit("=== SECTION:");
        reveal_strlit("=== END SECTION");
    }
    let open = chars_of("=== SECTION:");
    let b = from + open.len();
    proof {
        lemma_skip_skip(v@, from as int, open@.len() as int);
    }
    let n = match not_line_ending_len_at(v, b) {
        Some(n) => n,
        None => {
            return None;
        },
    };
    let path_raw = copy_range(v, b, b + n);
    let path = crate::text::trimmed(&path_raw);
    let c = b + n;
    proof {
        lemma_skip_skip(v@, b as int, n as int);
    }
    let d = line_endings_at(v, c);
    proof {
        lemma_skip_skip(v@, c as int, d - c);
    }
    let close = chars_of("=== END SECTION");
    let e = match find_in(v, &close, d) {
        Some(e) => e,
        None => {
            return None;
        },
    };
    assert(v@.skip(d as int).take(e as int) =~= v@.subrange(d as int, d + e));
    let f = d + e + close.len();
    proof {
        lemma_skip_skip(v@, d as int, e + close@.len());
    }
    let x = match not_line_ending_len_at(v, f) {
        Some(x) => x,
        None => 0,
    };
    proof {
        lemma_skip_skip(v@, f as int, x as int);
    }
    let le = line_ending_at(v, f + x);
    Some(SectionSpan { end: f + x + le, path, body_start: d, body_end: d + e })
}

/// The section at position `from`, after leading blank space.
pub fn next_section_at(v: &[char], from: usize) -> (r: Option<SectionSpan>)
    requires
        from <= v@.len(),
    ensures
        r matches Some(sp) ==> next_section(v@.skip(from as int)) matches Some((k, path, body)) && sp.end
            == from + k && sp.end <= v@.len() && sp.path@ == path && sp.body_start <= sp.body_end <= v@.len()
            && body == v@.subrange(sp.body_start as int, sp.body_end as int) && k > 0,
        r is None ==> next_section(v@.skip(from as int)) is None,
{
    let w = multispace_at(v, from);
    proof {
        lemma_skip_skip(v@, from as int, w - from);
    }
    let rest = copy_range(v, w, v.len());
    assert(rest@ =~= v@.skip(w as int));
    if starts_with_chars(&rest, &chars_of("=== SECTION:")) {
        human_at(v, w)
    } else {
        canonical_at(v, w)
    }
}

} // verus!
