//! Turning Markdown into a document: each heading opens a section whose path
//! is the chain of heading slugs above it.
use vstd::prelude::*;
use crate::document::{lemma_sort_len, section_views, DocumentV, RbmemDocument, SectionType};
use crate::scalar::strip_trailing;
use crate::text::{
    chars_of, is_ascii_alnum, is_ascii_alnum_char, join, join_chars, lines, lower, lower_char, split_lines, string_of,
    trim, trim_start, trimmed, views,
};
use crate::time::Timestamp;

verus! {

/// The number of `#` at the start.
pub open spec fn leading_hashes(t: Seq<char>) -> nat
    decreases t.len(),
{
    if t.len() > 0 && t[0] == '#' {
        1 + leading_hashes(t.drop_first())
    } else {
        0
    }
}

/// A heading line: one to six `#` after optional white space, a space, and a
/// non-empty title; its level and trimmed title.
pub open spec fn markdown_heading(line: Seq<char>) -> Option<(nat, Seq<char>)> {
    let t = trim_start(line);
    let h = leading_hashes(t);
    if h == 0 || h > 6 {
        None
    } else {
        let after = t.skip(h as int);
        if !(after.len() > 0 && after[0] == ' ') {
            None
        } else if trim(after).len() == 0 {
            None
        } else {
            Some((h, trim(after)))
        }
    }
}

proof fn lemma_leading_hashes(t: Seq<char>, k: int)
    requires
        0 <= k <= t.len(),
        forall|j: int| 0 <= j < k ==> t[j] == '#',
        k == t.len() || t[k] != '#',
    ensures
        leading_hashes(t) == k,
    decreases k,
{
    if k > 0 {
        assert forall|j: int| 0 <= j < k - 1 implies t.drop_first()[j] == '#' by {
            assert(t.drop_first()[j] == t[j + 1]);
        }
        if k < t.len() {
            assert(t.drop_first()[k - 1] == t[k]);
        }
        lemma_leading_hashes(t.drop_first(), k - 1);
    }
}

pub fn markdown_heading_exec(line: &[char]) -> (r: Option<(usize, Vec<char>)>)
    ensures
        match r {
            Some((h, title)) => markdown_heading(line@) == Some((h as nat, title@)),
            None => markdown_heading(line@) is None,
        },
{
    let (a, _) = crate::text::trim_bounds(line);
    let t = crate::text::copy_range(line, a, line.len());
    let mut h: usize = 0;
    while h < t.len() && t[h] == '#'
        invariant
            h <= t@.len(),
            forall|j: int| 0 <= j < h ==> t@[j] == '#',
        decreases t@.len() - h,
    {
        h += 1;
    }
    proof {
        lemma_leading_hashes(t@, h as int);
    }
    if h == 0 || h > 6 {
        return None;
    }
    let after = crate::text::copy_range(&t, h, t.len());
    assert(after@ =~= t@.skip(h as int));
    if !(after.len() > 0 && after[0] == ' ') {
        return None;
    }
    let title = trimmed(&after);
    if title.len() == 0 {
        return None;
    }
    Some((h, title))
}

/// The slug of a heading: ASCII letters and digits lower-cased, each run of
/// other characters after a word turned into one `.`.
pub open spec fn slug_fold(s: Seq<char>) -> (Seq<char>, bool)
    decreases s.len(),
{
    if s.len() == 0 {
        (Seq::empty(), false)
    } else {
        let (o, last_sep) = slug_fold(s.drop_last());
        let c = s.last();
        if is_ascii_alnum(c) {
            (o.push(lower(c)), false)
        } else if !last_sep && o.len() > 0 {
            (o.push('.'), true)
        } else {
            (o, last_sep)
        }
    }
}

/// A character a path part is made of: a lower-case ASCII letter, a digit,
/// or the `.` between words.
pub open spec fn slug_char(c: char) -> bool {
    ('a' <= c && c <= 'z') || ('0' <= c && c <= '9') || c == '.'
}

/// A dotted path part: not empty, made of lower-case ASCII letters, digits
/// and dots, with no dot at either end and no two dots together.
pub open spec fn dotted_part(p: Seq<char>) -> bool {
    &&& p.len() > 0
    &&& forall|i: int| 0 <= i < p.len() ==> slug_char(#[trigger] p[i])
    &&& p[0] != '.'
    &&& p.last() != '.'
    &&& forall|i: int| 0 <= i < p.len() - 1 && #[trigger] p[i] == '.' ==> p[i + 1] != '.'
}

proof fn lemma_lower_alnum(c: char)
    requires
        is_ascii_alnum(c),
    ensures
        slug_char(crate::text::lower(c)),
        crate::text::lower(c) != '.',
{
    if 'A' <= c && c <= 'Z' {
        assert(65 <= c as u32 <= 90);
        let d = ((c as u32) + 32) as char;
        assert(97 <= d as u32 <= 122);
    }
}

proof fn lemma_slug_fold(s: Seq<char>)
    ensures
        forall|i: int| 0 <= i < slug_fold(s).0.len() ==> slug_char(#[trigger] slug_fold(s).0[i]),
        slug_fold(s).0.len() > 0 ==> slug_fold(s).0[0] != '.',
        forall|i: int| 0 <= i < slug_fold(s).0.len() - 1 && #[trigger] slug_fold(s).0[i] == '.' ==> slug_fold(s).0[i + 1] != '.',
        slug_fold(s).1 <==> (slug_fold(s).0.len() > 0 && slug_fold(s).0.last() == '.'),
    decreases s.len(),
{
    if s.len() > 0 {
        lemma_slug_fold(s.drop_last());
        let (o, last_sep) = slug_fold(s.drop_last());
        let c = s.last();
        if is_ascii_alnum(c) {
            lemma_lower_alnum(c);
            let n = o.push(crate::text::lower(c));
            assert forall|i: int| 0 <= i < n.len() implies slug_char(#[trigger] n[i]) by {
                if i < o.len() {
                    assert(n[i] == o[i]);
                }
            }
            assert forall|i: int| 0 <= i < n.len() - 1 && #[trigger] n[i] == '.' implies n[i + 1] != '.' by {
                assert(n[i] == o[i]);
                if i + 1 < o.len() {
                    assert(n[i + 1] == o[i + 1]);
                }
            }
        } else if !last_sep && o.len() > 0 {
            let n = o.push('.');
            assert forall|i: int| 0 <= i < n.len() implies slug_char(#[trigger] n[i]) by {
                if i < o.len() {
                    assert(n[i] == o[i]);
                }
            }
            assert forall|i: int| 0 <= i < n.len() - 1 && #[trigger] n[i] == '.' implies n[i + 1] != '.' by {
                assert(n[i] == o[i]);
                if i + 1 < o.len() {
                    assert(n[i + 1] == o[i + 1]);
                } else {
                    assert(o.last() != '.');
                }
            }
        }
    }
}

proof fn lemma_slug_fold_dotted_prefix(x: Seq<char>, i: int)
    requires
        dotted_part(x),
        0 <= i <= x.len(),
    ensures
        slug_fold(x.take(i)) == (x.take(i), i > 0 && x[i - 1] == '.'),
    decreases i,
{
    if i > 0 {
        lemma_slug_fold_dotted_prefix(x, i - 1);
        let q = x.take(i);
        assert(q.drop_last() =~= x.take(i - 1));
        assert(q.last() == x[i - 1]);
        let c = x[i - 1];
        assert(slug_char(c));
        if c == '.' {
            assert(i - 1 > 0);
            assert(x[i - 2] != '.');
            assert(x.take(i - 1).len() > 0);
            assert(x.take(i - 1).push('.') =~= q);
        } else {
            assert(is_ascii_alnum(c));
            assert(crate::text::lower(c) == c);
            assert(x.take(i - 1).push(c) =~= q);
        }
    } else {
        assert(x.take(0) =~= Seq::<char>::empty());
    }
}

/// A title with no ASCII letter or digit leaves nothing of its own.
proof fn lemma_slug_fold_empty(s: Seq<char>)
    requires
        forall|i: int| 0 <= i < s.len() ==> !is_ascii_alnum(#[trigger] s[i]),
    ensures
        slug_fold(s).0.len() == 0,
    decreases s.len(),
{
    if s.len() > 0 {
        lemma_slug_fold_empty(s.drop_last());
        assert(!is_ascii_alnum(s[s.len() - 1]));
    }
}

/// Turning a title into a path part twice gives what turning it once gave,
/// and a title with no ASCII letter or digit becomes `document`.
pub proof fn lemma_title_path_idempotent(title: Seq<char>)
    ensures
        title_to_path(title_to_path(title)) == title_to_path(title),
        (forall|i: int| 0 <= i < title.len() ==> !is_ascii_alnum(#[trigger] title[i])) ==> title_to_path(title) == "document"@,
{
    lemma_title_path_dotted(title);
    let p = title_to_path(title);
    lemma_slug_fold_dotted_prefix(p, p.len() as int);
    assert(p.take(p.len() as int) =~= p);
    assert(slug_fold(p).0 == p);
    assert(strip_trailing(p, '.') == p);
    if forall|i: int| 0 <= i < title.len() ==> !is_ascii_alnum(#[trigger] title[i]) {
        lemma_slug_fold_empty(title);
    }
}

/// A heading title always becomes a dotted path part: lower-case ASCII
/// letters and digits, with single dots between the words and none at
/// either end.
pub proof fn lemma_title_path_dotted(title: Seq<char>)
    ensures
        dotted_part(title_to_path(title)),
{
    lemma_slug_fold(title);
    let o = slug_fold(title).0;
    let s = strip_trailing(o, '.');
    if o.len() > 0 && o.last() == '.' {
        assert(o.len() > 1);
        let t = o.drop_last();
        assert(o[o.len() - 2] == '.' ==> o[o.len() - 1] != '.');
        assert(t.last() == o[o.len() - 2]);
        assert(s == strip_trailing(t, '.'));
        assert(t.last() != '.');
        assert(s == t);
        assert forall|i: int| 0 <= i < t.len() implies slug_char(#[trigger] t[i]) by {
            assert(t[i] == o[i]);
        }
        assert forall|i: int| 0 <= i < t.len() - 1 && #[trigger] t[i] == '.' implies t[i + 1] != '.' by {
            assert(t[i] == o[i] && t[i + 1] == o[i + 1]);
        }
        assert(t[0] == o[0]);
    } else {
        assert(s == o);
    }
    if s.len() == 0 {
        reveal_strlit("document");
        let d = "document"@;
        assert forall|i: int| 0 <= i < d.len() implies slug_char(#[trigger] d[i]) by {}
    }
}

/// A heading title as a path part, `document` when nothing is left.
pub open spec fn title_to_path(title: Seq<char>) -> Seq<char> {
    let s = strip_trailing(slug_fold(title).0, '.');
    if s.len() == 0 {
        "document"@
    } else {
        s
    }
}

pub fn title_to_path_exec(title: &[char]) -> (r: Vec<char>)
    ensures
        r@ == title_to_path(title@),
{
    let mut slug: Vec<char> = Vec::new();
    let mut last_sep = false;
    let mut i: usize = 0;
    assert(title@.take(0) =~= Seq::<char>::empty());
    while i < title.len()
        invariant
            i <= title@.len(),
            (slug@, last_sep) == slug_fold(title@.take(i as int)),
        decreases title@.len() - i,
    {
        let c = title[i];
        assert(title@.take(i + 1).drop_last() =~= title@.take(i as int));
        assert(title@.take(i + 1).last() == c);
        if is_ascii_alnum_char(c) {
            slug.push(lower_char(c));
            last_sep = false;
        } else if !last_sep && slug.len() > 0 {
            slug.push('.');
            last_sep = true;
        }
        i += 1;
    }
    assert(title@.take(title@.len() as int) =~= title@);
    let mut n = slug.len();
    assert(slug@.take(n as int) =~= slug@);
    while n > 0 && slug[n - 1] == '.'
        invariant
            n <= slug@.len(),
            strip_trailing(slug@, '.') == strip_trailing(slug@.take(n as int), '.'),
        decreases n,
    {
        assert(slug@.take(n as int).drop_last() =~= slug@.take(n - 1));
        n -= 1;
    }
    if n == 0 {
        chars_of("document")
    } else {
        crate::text::copy_range(&slug, 0, n)
    }
}

/// `title_to_path` for a string slice.
pub fn title_to_path_str(title: &str) -> (r: String)
    ensures
        r@ == title_to_path(title@),
{
    string_of(&title_to_path_exec(&chars_of(title)))
}

/// The first line of a text, empty when there is none.
pub open spec fn first_line(text: Seq<char>) -> Seq<char> {
    if lines(text).len() > 0 {
        lines(text)[0]
    } else {
        Seq::empty()
    }
}

pub fn first_line_exec(text: &str) -> (r: String)
    ensures
        r@ == first_line(text@),
{
    let ls = split_lines(&chars_of(text));
    if ls.len() > 0 {
        assert(views(ls@)[0] == ls@[0]@);
        string_of(&ls[0])
    } else {
        String::new()
    }
}

/// The lines gathered under a heading stored as a text section, unless they
/// are blank.
pub open spec fn flush(doc: DocumentV, path: Seq<char>, ls: Seq<Seq<char>>, now: Timestamp) -> DocumentV {
    let content = trim(join(ls, "\n"@));
    if content.len() == 0 {
        doc
    } else {
        RbmemDocument::spec_upsert(doc, path, SectionType::Text, content, now)
    }
}

/// The state of the conversion: the document so far, the heading slugs
/// above, the current path and the lines gathered under it.
pub struct MarkdownState {
    pub doc: DocumentV,
    pub stack: Seq<Seq<char>>,
    pub path: Seq<char>,
    pub lines: Seq<Seq<char>>,
}

pub open spec fn md_step(st: MarkdownState, line: Seq<char>, now: Timestamp) -> MarkdownState {
    match markdown_heading(line) {
        Some((level, title)) => {
            let keep: int = if level >= 1 { level - 1 } else { 0 };
            let kept = if keep < st.stack.len() { st.stack.take(keep) } else { st.stack };
            let stack = kept.push(title_to_path(title));
            MarkdownState { doc: flush(st.doc, st.path, st.lines, now), stack, path: join(stack, "."@), lines: Seq::empty() }
        },
        None => MarkdownState { lines: st.lines.push(line), ..st },
    }
}

pub open spec fn md_fold(ls: Seq<Seq<char>>, now: Timestamp) -> MarkdownState
    decreases ls.len(),
{
    if ls.len() == 0 {
        MarkdownState { doc: RbmemDocument::spec_new(now, "me"@), stack: Seq::empty(), path: "meta.markdown"@, lines: Seq::empty() }
    } else {
        md_step(md_fold(ls.drop_last(), now), ls.last(), now)
    }
}

/// The document a Markdown text becomes.
pub open spec fn converted(markdown: Seq<char>, now: Timestamp) -> DocumentV {
    let st = md_fold(lines(markdown), now);
    flush(st.doc, st.path, st.lines, now)
}

fn flush_exec(doc: &mut RbmemDocument, path: &str, ls: &Vec<Vec<char>>, now: Timestamp)
    requires
        now.valid(),
        old(doc)@.meta.default_expiry_days is None,
    ensures
        final(doc)@ == flush(old(doc)@, path@, views(ls@), now),
        final(doc)@.meta.default_expiry_days is None,
        final(doc)@.sections.len() <= old(doc)@.sections.len() + 1,
{
    let joined = join_chars(ls, &chars_of("\n"));
    let content = trimmed(&joined);
    if content.len() > 0 {
        proof {
            let d = old(doc)@;
            crate::document::lemma_first_index_in_range(d, path@);
            match d.first_index_of(path@) {
                Some(i) => {},
                None => {
                    lemma_sort_len(d.sections.push(RbmemDocument::fresh(path@, SectionType::Text, content@, now, d.meta.default_expiry_days)));
                },
            }
        }
        doc.upsert_section(path, SectionType::Text, string_of(&content), now);
    }
}

pub fn convert_markdown_to_rbmem(markdown: &str, now: Timestamp) -> (r: RbmemDocument)
    requires
        now.valid(),
    ensures
        r@ == converted(markdown@, now),
        r@.sections.len() <= lines(markdown@).len() + 1,
        r@.meta.default_expiry_days is None,
{
    let mut doc = RbmemDocument::new(now, "me");
    let mut stack: Vec<Vec<char>> = Vec::new();
    let mut path: String = "meta.markdown".to_owned();
    let mut current: Vec<Vec<char>> = Vec::new();
    let ls = split_lines(&chars_of(markdown));
    let ghost lv = views(ls@);
    let mut i: usize = 0;
    assert(lv.take(0) =~= Seq::<Seq<char>>::empty());
    assert(views(stack@) =~= Seq::<Seq<char>>::empty());
    assert(views(current@) =~= Seq::<Seq<char>>::empty());
    while i < ls.len()
        invariant
            i <= ls@.len(),
            lv == views(ls@),
            lv == lines(markdown@),
            now.valid(),
            doc@.meta.default_expiry_days is None,
            doc@.sections.len() <= i,
            md_fold(lv.take(i as int), now) == (MarkdownState { doc: doc@, stack: views(stack@), path: path@, lines: views(current@) }),
        decreases ls@.len() - i,
    {
        assert(lv.take(i + 1).drop_last() =~= lv.take(i as int));
        assert(lv.take(i + 1).last() == ls@[i as int]@);
        match markdown_heading_exec(&ls[i]) {
            Some((level, title)) => {
                flush_exec(&mut doc, path.as_str(), &current, now);
                let keep = if level >= 1 { level - 1 } else { 0 };
                if keep < stack.len() {
                    let ghost before = views(stack@);
                    stack.truncate(keep);
                    assert(views(stack@) =~= before.take(keep as int));
                }
                let slug = title_to_path_exec(&title);
                let ghost kept = views(stack@);
                stack.push(slug);
                assert(views(stack@) =~= kept.push(title_to_path(title@)));
                path = string_of(&join_chars(&stack, &chars_of(".")));
                current = Vec::new();
                assert(views(current@) =~= Seq::<Seq<char>>::empty());
            },
            None => {
                let ghost before = views(current@);
                let copy = crate::text::copy_range(&ls[i], 0, ls[i].len());
                assert(copy@ =~= ls@[i as int]@);
                current.push(copy);
                assert(views(current@) =~= before.push(ls@[i as int]@));
            },
        }
        i += 1;
    }
    assert(lv.take(lv.len() as int) =~= lv);
    flush_exec(&mut doc, path.as_str(), &current, now);
    doc
}

} // verus!
