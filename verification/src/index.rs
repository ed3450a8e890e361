//! An index over the sections of a document: keyword lookup, lookup by path
//! prefix, and related sections within some steps of the section graph.
use vstd::prelude::*;
use crate::contexts::insert_unique_exec;
use crate::document::{section_views, RbmemDocument, Section, SectionV, GraphInfoV};
use crate::plan::{insert_sorted_unique, lex_pos, lemma_lex_pos_bounds, string_views};
use crate::sorted::{lemma_insert_sorted_unique, sorted_strict, lemma_lex_pos_facts};
use crate::text::{
    chars_eq, chars_lt, chars_of, copy_range, ends_with_chars, is_ascii_alnum, is_ascii_alnum_char, lex_lt, lower_chars,
    lower, lower_seq, split_chars, split_on, lemma_split_on_nonempty, str_eq, string_of, trim, trim_end, trim_start,
    trimmed, views, is_ws,
};
use crate::scalar::strip_trailing;

verus! {

// ---------------------------------------------------------------------------
// Tokens
// ---------------------------------------------------------------------------

/// `text.split(|c| !c.is_ascii_alphanumeric())`.
pub open spec fn split_non_alnum(s: Seq<char>) -> Seq<Seq<char>>
    decreases s.len(),
{
    if s.len() == 0 {
        seq![Seq::<char>::empty()]
    } else {
        let prev = split_non_alnum(s.drop_last());
        if !is_ascii_alnum(s.last()) {
            prev.push(Seq::<char>::empty())
        } else {
            prev.update(prev.len() - 1, prev.last().push(s.last()))
        }
    }
}

pub proof fn lemma_split_non_alnum_nonempty(s: Seq<char>)
    ensures
        split_non_alnum(s).len() >= 1,
    decreases s.len(),
{
    if s.len() > 0 {
        lemma_split_non_alnum_nonempty(s.drop_last());
    }
}

/// A token as the index keys it: trimmed and ASCII lower-cased.
pub open spec fn normalize_token(t: Seq<char>) -> Seq<char> {
    lower_seq(trim(t))
}

pub open spec fn token_filter(ps: Seq<Seq<char>>) -> Seq<Seq<char>>
    decreases ps.len(),
{
    if ps.len() == 0 {
        Seq::empty()
    } else {
        let prev = token_filter(ps.drop_last());
        let n = normalize_token(ps.last());
        if n.len() > 1 {
            prev.push(n)
        } else {
            prev
        }
    }
}

/// The tokens of a text: its runs of ASCII letters and digits, lower-cased,
/// of at least two characters.
pub open spec fn tokens(text: Seq<char>) -> Seq<Seq<char>> {
    token_filter(split_non_alnum(text))
}

pub fn normalize_token_exec(t: &[char]) -> (r: Vec<char>)
    ensures
        r@ == normalize_token(t@),
{
    lower_chars(&trimmed(t))
}

pub fn tokenize(text: &[char]) -> (r: Vec<Vec<char>>)
    ensures
        views(r@) == tokens(text@),
{
    let mut pieces: Vec<Vec<char>> = Vec::new();
    let mut cur: Vec<char> = Vec::new();
    let mut i: usize = 0;
    assert(text@.take(0) =~= Seq::<char>::empty());
    assert(views(pieces@).push(cur@) =~= split_non_alnum(text@.take(0)));
    while i < text.len()
        invariant
            i <= text@.len(),
            views(pieces@).push(cur@) == split_non_alnum(text@.take(i as int)),
        decreases text@.len() - i,
    {
        let c = text[i];
        let ghost prev = views(pieces@).push(cur@);
        assert(text@.take(i + 1).drop_last() =~= text@.take(i as int));
        if !is_ascii_alnum_char(c) {
            let done = cur;
            pieces.push(done);
            cur = Vec::new();
            assert(views(pieces@) =~= prev);
            assert(views(pieces@).push(cur@) =~= prev.push(Seq::<char>::empty()));
        } else {
            cur.push(c);
            assert(views(pieces@).push(cur@) =~= prev.update(prev.len() - 1, prev.last().push(c)));
        }
        i += 1;
    }
    let ghost before = views(pieces@);
    pieces.push(cur);
    assert(views(pieces@) =~= before.push(pieces@[pieces@.len() - 1]@));
    assert(text@.take(text@.len() as int) =~= text@);
    let ghost pv = views(pieces@);
    let mut out: Vec<Vec<char>> = Vec::new();
    let mut k: usize = 0;
    assert(pv.take(0) =~= Seq::<Seq<char>>::empty());
    while k < pieces.len()
        invariant
            k <= pieces@.len(),
            pv == views(pieces@),
            views(out@) == token_filter(pv.take(k as int)),
        decreases pieces@.len() - k,
    {
        assert(pv.take(k + 1).drop_last() =~= pv.take(k as int));
        assert(pv.take(k + 1).last() == pieces@[k as int]@);
        let n = normalize_token_exec(&pieces[k]);
        if n.len() > 1 {
            let ghost b = views(out@);
            out.push(n);
            assert(views(out@) =~= b.push(normalize_token(pieces@[k as int]@)));
        }
        k += 1;
    }
    assert(pv.take(pv.len() as int) =~= pv);
    out
}

// ---------------------------------------------------------------------------
// Sorted multimaps from texts to sets of texts
// ---------------------------------------------------------------------------

pub type Multimap = Seq<(Seq<char>, Seq<Seq<char>>)>;

/// The entry for a key (the last one with it).
pub open spec fn mm_find(m: Multimap, k: Seq<char>) -> Option<int>
    decreases m.len(),
{
    if m.len() == 0 {
        None
    } else if m.last().0 == k {
        Some(m.len() - 1)
    } else {
        mm_find(m.drop_last(), k)
    }
}

/// Where a new key goes among the keys in `str` order.
pub open spec fn key_pos(m: Multimap, k: Seq<char>) -> int
    decreases m.len(),
{
    if m.len() == 0 {
        0
    } else if lex_lt(k, m[0].0) {
        0
    } else {
        1 + key_pos(m.drop_first(), k)
    }
}

/// `v` added to the set of `k`.
pub open spec fn mm_add(m: Multimap, k: Seq<char>, v: Seq<char>) -> Multimap {
    match mm_find(m, k) {
        Some(j) => m.update(j, (k, insert_sorted_unique(m[j].1, v))),
        None => m.insert(key_pos(m, k), (k, seq![v])),
    }
}

/// The set of `k`, as a sorted sequence.
pub open spec fn mm_get(m: Multimap, k: Seq<char>) -> Seq<Seq<char>> {
    match mm_find(m, k) {
        Some(j) => m[j].1,
        None => Seq::empty(),
    }
}

/// Keys once each, every set sorted.
pub open spec fn mm_wf(m: Multimap) -> bool {
    &&& forall|i: int, j: int| 0 <= i < j < m.len() ==> m[i].0 != m[j].0
    &&& forall|i: int| 0 <= i < m.len() ==> sorted_strict(#[trigger] m[i].1)
}

pub proof fn lemma_mm_find(m: Multimap, k: Seq<char>)
    requires
        mm_wf(m),
    ensures
        mm_find(m, k) matches Some(j) ==> 0 <= j < m.len() && m[j].0 == k,
        mm_find(m, k) is None ==> forall|i: int| 0 <= i < m.len() ==> m[i].0 != k,
        forall|i: int| 0 <= i < m.len() && m[i].0 == k ==> mm_find(m, k) == Some(i),
    decreases m.len(),
{
    lemma_mm_find_range(m, k);
    if m.len() > 0 {
        let d = m.drop_last();
        assert(mm_wf(d)) by {
            assert forall|i: int| 0 <= i < d.len() implies sorted_strict(#[trigger] d[i].1) by {
                assert(d[i] == m[i]);
            }
        }
        lemma_mm_find(d, k);
        assert forall|i: int| 0 <= i < m.len() && m[i].0 == k implies mm_find(m, k) == Some(i) by {
            if i < m.len() - 1 {
                assert(d[i] == m[i]);
                if m.last().0 == k {
                    assert(m[i].0 != m[m.len() - 1].0);
                }
            }
        }
        if mm_find(m, k) is None {
            assert forall|i: int| 0 <= i < m.len() implies m[i].0 != k by {
                if i < m.len() - 1 {
                    assert(d[i] == m[i]);
                }
            }
        }
    }
}

pub proof fn lemma_mm_find_range(m: Multimap, k: Seq<char>)
    ensures
        mm_find(m, k) matches Some(j) ==> 0 <= j < m.len() && m[j].0 == k,
    decreases m.len(),
{
    if m.len() > 0 && m.last().0 != k {
        lemma_mm_find_range(m.drop_last(), k);
    }
}

proof fn lemma_key_pos_bounds(m: Multimap, k: Seq<char>)
    ensures
        0 <= key_pos(m, k) <= m.len(),
    decreases m.len(),
{
    if m.len() > 0 && !lex_lt(k, m[0].0) {
        lemma_key_pos_bounds(m.drop_first(), k);
    }
}

proof fn lemma_mm_add_existing(m: Multimap, k: Seq<char>, v: Seq<char>, k2: Seq<char>, j: int)
    requires
        mm_wf(m),
        mm_find(m, k) == Some(j),
    ensures
        mm_wf(mm_add(m, k, v)),
        forall|y: Seq<char>|
            #[trigger] mm_get(mm_add(m, k, v), k2).contains(y) <==> (mm_get(m, k2).contains(y) || (k2 == k && y == v)),
{
    lemma_mm_find(m, k);
    lemma_mm_find(m, k2);
    let m2 = mm_add(m, k, v);
    lemma_insert_sorted_unique(m[j].1, v);
    assert(mm_wf(m2)) by {
        assert forall|i: int| 0 <= i < m2.len() implies sorted_strict(#[trigger] m2[i].1) by {
            if i != j {
                assert(m2[i] == m[i]);
            }
        }
    }
    lemma_mm_find(m2, k2);
    if k2 == k {
        assert(m2[j].0 == k);
        assert(mm_find(m2, k2) == Some(j));
    } else {
        match mm_find(m, k2) {
            Some(j2) => {
                assert(m2[j2].0 == k2);
                assert(mm_find(m2, k2) == Some(j2));
            },
            None => {
                assert forall|i: int| 0 <= i < m2.len() implies m2[i].0 != k2 by {
                    if i != j {
                        assert(m2[i] == m[i]);
                    }
                }
            },
        }
    }
}

proof fn lemma_mm_add_new_wf(m: Multimap, k: Seq<char>, v: Seq<char>)
    requires
        mm_wf(m),
        mm_find(m, k) is None,
    ensures
        mm_wf(mm_add(m, k, v)),
        mm_add(m, k, v) == m.insert(key_pos(m, k), (k, seq![v])),
        0 <= key_pos(m, k) <= m.len(),
{
    lemma_mm_find(m, k);
    lemma_key_pos_bounds(m, k);
    let p = key_pos(m, k);
    let m2 = mm_add(m, k, v);
    assert(sorted_strict(seq![v]));
    assert forall|a: int, b: int| 0 <= a < b < m2.len() implies m2[a].0 != m2[b].0 by {
        if a < p && b < p {
        } else if a < p && b == p {
        } else if a < p {
            assert(m2[b] == m[b - 1]);
        } else if a == p {
            assert(m2[b] == m[b - 1]);
        } else {
            assert(m2[a] == m[a - 1]);
            assert(m2[b] == m[b - 1]);
        }
    }
    assert forall|i: int| 0 <= i < m2.len() implies sorted_strict(#[trigger] m2[i].1) by {
        if i < p {
            assert(m2[i] == m[i]);
        } else if i > p {
            assert(m2[i] == m[i - 1]);
        }
    }
}

proof fn lemma_mm_add_new(m: Multimap, k: Seq<char>, v: Seq<char>, k2: Seq<char>)
    requires
        mm_wf(m),
        mm_find(m, k) is None,
    ensures
        mm_wf(mm_add(m, k, v)),
        forall|y: Seq<char>|
            #[trigger] mm_get(mm_add(m, k, v), k2).contains(y) <==> (mm_get(m, k2).contains(y) || (k2 == k && y == v)),
{
    lemma_mm_add_new_wf(m, k, v);
    lemma_mm_find(m, k2);
    let p = key_pos(m, k);
    let m2 = mm_add(m, k, v);
    lemma_mm_find(m2, k2);
    if k2 == k {
        assert(m2[p].0 == k);
        assert(mm_find(m2, k2) == Some(p));
        assert(mm_get(m2, k2) == seq![v]);
        assert(mm_get(m, k2) =~= Seq::<Seq<char>>::empty());
        assert forall|y: Seq<char>| #[trigger] mm_get(m2, k2).contains(y) <==> (mm_get(m, k2).contains(y) || (k2 == k
            && y == v)) by {
            if mm_get(m2, k2).contains(y) {
                let q = choose|q: int| 0 <= q < mm_get(m2, k2).len() && mm_get(m2, k2)[q] == y;
                assert(q == 0);
            }
            if y == v {
                assert(mm_get(m2, k2)[0] == v);
            }
        }
    } else {
        match mm_find(m, k2) {
            Some(j2) => {
                let j3 = if j2 < p {
                    j2
                } else {
                    j2 + 1
                };
                assert(m2[j3] == m[j2]);
                assert(mm_find(m2, k2) == Some(j3));
            },
            None => {
                assert forall|i: int| 0 <= i < m2.len() implies m2[i].0 != k2 by {
                    if i < p {
                        assert(m2[i] == m[i]);
                    } else if i > p {
                        assert(m2[i] == m[i - 1]);
                    }
                }
            },
        }
    }
}

/// Adding to a set keeps the map well formed, and adds exactly that member.
pub proof fn lemma_mm_add(m: Multimap, k: Seq<char>, v: Seq<char>, k2: Seq<char>)
    requires
        mm_wf(m),
    ensures
        mm_wf(mm_add(m, k, v)),
        forall|y: Seq<char>|
            #[trigger] mm_get(mm_add(m, k, v), k2).contains(y) <==> (mm_get(m, k2).contains(y) || (k2 == k && y == v)),
{
    match mm_find(m, k) {
        Some(j) => lemma_mm_add_existing(m, k, v, k2, j),
        None => lemma_mm_add_new(m, k, v, k2),
    }
}

pub open spec fn mm_views(v: Seq<(String, Vec<String>)>) -> Multimap {
    v.map_values(|e: (String, Vec<String>)| (e.0@, string_views(e.1@)))
}

fn mm_find_exec(m: &Vec<(String, Vec<String>)>, k: &str) -> (r: Option<usize>)
    ensures
        r matches Some(j) ==> mm_find(mm_views(m@), k@) == Some(j as int) && j < m@.len(),
        r is None ==> mm_find(mm_views(m@), k@) is None,
{
    let ghost mv = mm_views(m@);
    let mut n = m.len();
    assert(mv.take(n as int) =~= mv);
    while n > 0
        invariant
            n <= m@.len(),
            mv == mm_views(m@),
            mm_find(mv, k@) == mm_find(mv.take(n as int), k@),
        decreases n,
    {
        assert(mv.take(n as int).last() == mv[n - 1]);
        assert(mv[n - 1].0 == m@[n - 1].0@);
        if str_eq(m[n - 1].0.as_str(), k) {
            return Some(n - 1);
        }
        assert(mv.take(n as int).drop_last() =~= mv.take(n - 1));
        n -= 1;
    }
    None
}

fn key_pos_exec(m: &Vec<(String, Vec<String>)>, k: &str) -> (r: usize)
    ensures
        r as int == key_pos(mm_views(m@), k@),
{
    let ghost mv = mm_views(m@);
    let kc = chars_of(k);
    let mut i: usize = 0;
    assert(mv.skip(0) =~= mv);
    while i < m.len()
        invariant
            i <= m@.len(),
            mv == mm_views(m@),
            kc@ == k@,
            key_pos(mv, k@) == i + key_pos(mv.skip(i as int), k@),
        decreases m@.len() - i,
    {
        assert(mv.skip(i as int)[0] == mv[i as int]);
        assert(mv[i as int].0 == m@[i as int].0@);
        if chars_lt(&kc, &chars_of(m[i].0.as_str())) {
            assert(key_pos(mv.skip(i as int), k@) == 0);
            return i;
        }
        assert(mv.skip(i as int).drop_first() =~= mv.skip(i + 1));
        i += 1;
    }
    assert(mv.skip(i as int).len() == 0);
    i
}

/// Adds `v` to the set of `k`.
pub fn mm_add_exec(m: &mut Vec<(String, Vec<String>)>, k: &str, v: &str)
    ensures
        mm_views(final(m)@) == mm_add(mm_views(old(m)@), k@, v@),
{
    let ghost mv = mm_views(m@);
    match mm_find_exec(m, k) {
        Some(j) => {
            proof {
                lemma_mm_find_range(mv, k@);
            }
            let mut entry = (String::new(), Vec::new());
            std::mem::swap(&mut entry, &mut m[j]);
            let (key, mut set) = entry;
            assert(key@ == k@);
            insert_unique_exec(&mut set, chars_of(v));
            let ghost newset = string_views(set@);
            m.set(j, (key, set));
            assert(mm_views(m@) =~= mv.update(j as int, (k@, newset)));
        },
        None => {
            let p = key_pos_exec(m, k);
            proof {
                lemma_key_pos_bounds(mv, k@);
            }
            let mut set: Vec<String> = Vec::new();
            set.push(v.to_owned());
            assert(string_views(set@) =~= seq![v@]);
            m.insert(p, (k.to_owned(), set));
            assert(mm_views(m@) =~= mv.insert(p as int, (k@, seq![v@])));
        },
    }
}

pub fn mm_get_exec(m: &Vec<(String, Vec<String>)>, k: &str) -> (r: Vec<String>)
    ensures
        string_views(r@) == mm_get(mm_views(m@), k@),
{
    match mm_find_exec(m, k) {
        Some(j) => {
            let r = crate::text::copy_strings(&m[j].1);
            assert(string_views(r@) =~= string_views(m@[j as int].1@));
            r
        },
        None => {
            let r: Vec<String> = Vec::new();
            assert(string_views(r@) =~= Seq::<Seq<char>>::empty());
            r
        },
    }
}


// ---------------------------------------------------------------------------
// The index
// ---------------------------------------------------------------------------

/// `v` added to the sets of each key.
pub open spec fn add_all(m: Multimap, ks: Seq<Seq<char>>, v: Seq<char>) -> Multimap
    decreases ks.len(),
{
    if ks.len() == 0 {
        m
    } else {
        mm_add(add_all(m, ks.drop_last(), v), ks.last(), v)
    }
}

/// The keywords of a section: the tokens of its path and of its content,
/// each mapped to its path.
pub open spec fn keyword_step(m: Multimap, s: SectionV) -> Multimap {
    add_all(add_all(m, tokens(s.path), s.path), tokens(s.content), s.path)
}

pub open spec fn keywords_of(ss: Seq<SectionV>) -> Multimap
    decreases ss.len(),
{
    if ss.len() == 0 {
        Seq::empty()
    } else {
        keyword_step(keywords_of(ss.drop_last()), ss.last())
    }
}

/// The `contains` edges down a path, both ways, from `parent` through the
/// remaining parts.
pub open spec fn chain_edges(m: Multimap, parent: Seq<char>, parts: Seq<Seq<char>>) -> Multimap
    decreases parts.len(),
{
    if parts.len() == 0 {
        m
    } else {
        let child = if parent.len() == 0 {
            parts[0]
        } else {
            parent + "."@ + parts[0]
        };
        chain_edges(mm_add(mm_add(m, parent, child), child, parent), child, parts.drop_first())
    }
}

/// The relation edges of a section, both ways.
pub open spec fn relation_edges(m: Multimap, from: Seq<char>, tos: Seq<Seq<char>>) -> Multimap
    decreases tos.len(),
{
    if tos.len() == 0 {
        m
    } else {
        let prev = relation_edges(m, from, tos.drop_last());
        mm_add(mm_add(prev, from, tos.last()), tos.last(), from)
    }
}

pub open spec fn relation_targets(g: Option<GraphInfoV>) -> Seq<Seq<char>> {
    match g {
        Some(info) => info.relations.map_values(|r: crate::document::GraphRelationV| r.to),
        None => Seq::empty(),
    }
}

pub open spec fn section_edges(m: Multimap, s: SectionV) -> Multimap {
    let parts = split_on(s.path, '.');
    let m1 = if parts.len() > 1 {
        chain_edges(m, parts[0], parts.drop_first())
    } else {
        m
    };
    relation_edges(m1, s.path, relation_targets(s.graph))
}

pub open spec fn adjacency_of(ss: Seq<SectionV>) -> Multimap
    decreases ss.len(),
{
    if ss.len() == 0 {
        Seq::empty()
    } else {
        section_edges(adjacency_of(ss.drop_last()), ss.last())
    }
}

/// Texts sorted in `str` order, stably.
pub open spec fn sort_lex(s: Seq<Seq<char>>) -> Seq<Seq<char>>
    decreases s.len(),
{
    if s.len() == 0 {
        s
    } else {
        let t = sort_lex(s.drop_last());
        t.insert(lex_pos(t, s.last()), s.last())
    }
}

pub open spec fn paths_of(ss: Seq<SectionV>) -> Seq<Seq<char>> {
    sort_lex(ss.map_values(|s: SectionV| s.path))
}

/// The distinct `.`-separated part lists of the paths, in order.
pub open spec fn segments_of(ss: Seq<SectionV>) -> Seq<Seq<Seq<char>>>
    decreases ss.len(),
{
    if ss.len() == 0 {
        Seq::empty()
    } else {
        let prev = segments_of(ss.drop_last());
        let parts = split_on(ss.last().path, '.');
        if prev.contains(parts) {
            prev
        } else {
            prev.push(parts)
        }
    }
}

pub struct IndexV {
    pub keywords: Multimap,
    pub paths: Seq<Seq<char>>,
    pub adjacency: Multimap,
    pub segments: Seq<Seq<Seq<char>>>,
}

/// Keywords, sorted paths, the section graph, and the paths split into
/// parts.
#[derive(Debug, Clone)]
pub struct SectionIndex {
    pub keywords: Vec<(String, Vec<String>)>,
    pub paths: Vec<String>,
    pub adjacency: Vec<(String, Vec<String>)>,
    pub segments: Vec<Vec<Vec<char>>>,
}

pub open spec fn segment_views(v: Seq<Vec<Vec<char>>>) -> Seq<Seq<Seq<char>>> {
    v.map_values(|p: Vec<Vec<char>>| views(p@))
}

impl View for SectionIndex {
    type V = IndexV;

    open spec fn view(&self) -> IndexV {
        IndexV {
            keywords: mm_views(self.keywords@),
            paths: string_views(self.paths@),
            adjacency: mm_views(self.adjacency@),
            segments: segment_views(self.segments@),
        }
    }
}

/// The index of the sections.
pub open spec fn index_of(ss: Seq<SectionV>) -> IndexV {
    IndexV {
        keywords: keywords_of(ss),
        paths: paths_of(ss),
        adjacency: adjacency_of(ss),
        segments: segments_of(ss),
    }
}

fn add_all_exec(m: &mut Vec<(String, Vec<String>)>, ks: &Vec<Vec<char>>, v: &str)
    ensures
        mm_views(final(m)@) == add_all(mm_views(old(m)@), views(ks@), v@),
{
    let ghost kv = views(ks@);
    let ghost m0 = mm_views(m@);
    let mut i: usize = 0;
    assert(kv.take(0) =~= Seq::<Seq<char>>::empty());
    while i < ks.len()
        invariant
            i <= ks@.len(),
            kv == views(ks@),
            mm_views(m@) == add_all(m0, kv.take(i as int), v@),
        decreases ks@.len() - i,
    {
        let k = string_of(&ks[i]);
        mm_add_exec(m, k.as_str(), v);
        assert(kv.take(i + 1).drop_last() =~= kv.take(i as int));
        assert(kv.take(i + 1).last() == ks@[i as int]@);
        i += 1;
    }
    assert(kv.take(kv.len() as int) =~= kv);
}

fn section_edges_exec(m: &mut Vec<(String, Vec<String>)>, section: &Section)
    ensures
        mm_views(final(m)@) == section_edges(mm_views(old(m)@), section@),
{
    let parts = split_chars(&chars_of(section.path.as_str()), '.');
    let ghost pv = views(parts@);
    let ghost m0 = mm_views(m@);
    if parts.len() > 1 {
        let mut parent = string_of(&parts[0]);
        let mut d: usize = 1;
        assert(pv.drop_first().skip(0) =~= pv.drop_first());
        while d < parts.len()
            invariant
                1 <= d <= parts@.len(),
                pv == views(parts@),
                chain_edges(m0, pv[0], pv.drop_first()) == chain_edges(mm_views(m@), parent@, pv.drop_first().skip(d - 1)),
            decreases parts@.len() - d,
        {
            let ghost rest = pv.drop_first().skip(d - 1);
            assert(rest[0] == parts@[d as int]@);
            let child = if chars_of(parent.as_str()).len() == 0 {
                string_of(&parts[d])
            } else {
                let mut c = parent.clone();
                c.push_str(".");
                crate::text::push_chars(&mut c, &parts[d]);
                c
            };
            assert(child@ == (if parent@.len() == 0 {
                rest[0]
            } else {
                parent@ + "."@ + rest[0]
            }));
            mm_add_exec(m, parent.as_str(), child.as_str());
            mm_add_exec(m, child.as_str(), parent.as_str());
            assert(rest.drop_first() =~= pv.drop_first().skip(d as int));
            parent = child;
            d += 1;
        }
        assert(pv.drop_first().skip(d - 1).len() == 0);
    }
    let ghost m1 = mm_views(m@);
    match &section.graph {
        Some(g) => {
            let ghost tos = relation_targets(section@.graph);
            let mut i: usize = 0;
            assert(tos.take(0) =~= Seq::<Seq<char>>::empty());
            while i < g.relations.len()
                invariant
                    i <= g.relations@.len(),
                    tos == g@.relations.map_values(|r: crate::document::GraphRelationV| r.to),
                    mm_views(m@) == relation_edges(m1, section@.path, tos.take(i as int)),
                decreases g.relations@.len() - i,
            {
                let to = g.relations[i].to.as_str();
                assert(tos[i as int] == g.relations@[i as int].to@);
                mm_add_exec(m, section.path.as_str(), to);
                mm_add_exec(m, to, section.path.as_str());
                assert(tos.take(i + 1).drop_last() =~= tos.take(i as int));
                i += 1;
            }
            assert(tos.take(tos.len() as int) =~= tos);
        },
        None => {
            assert(relation_targets(section@.graph) =~= Seq::<Seq<char>>::empty());
        },
    }
}

pub fn insert_path_sorted(paths: &mut Vec<String>, x: &str)
    ensures
        string_views(final(paths)@) == string_views(old(paths)@).insert(lex_pos(string_views(old(paths)@), x@), x@),
{
    let ghost sv = string_views(paths@);
    let xc = chars_of(x);
    let mut i: usize = 0;
    assert(sv.skip(0) =~= sv);
    while i < paths.len()
        invariant
            i <= paths@.len(),
            sv == string_views(paths@),
            xc@ == x@,
            lex_pos(sv, x@) == i + lex_pos(sv.skip(i as int), x@),
        ensures
            i <= paths@.len(),
            lex_pos(sv, x@) == i as int,
        decreases paths@.len() - i,
    {
        assert(sv.skip(i as int)[0] == sv[i as int]);
        assert(sv[i as int] == paths@[i as int]@);
        if chars_lt(&xc, &chars_of(paths[i].as_str())) {
            assert(lex_pos(sv.skip(i as int), x@) == 0);
            break;
        }
        assert(sv.skip(i as int).drop_first() =~= sv.skip(i + 1));
        i += 1;
    }
    proof {
        if i == paths@.len() {
            assert(sv.skip(i as int).len() == 0);
        }
    }
    paths.insert(i, x.to_owned());
    assert(string_views(paths@) =~= sv.insert(i as int, x@));
}

impl SectionIndex {
    /// Builds the index of a document.
    pub fn build(document: &RbmemDocument) -> (r: SectionIndex)
        ensures
            r@ == index_of(document@.sections),
    {
        let ghost ss = document@.sections;
        let mut keywords: Vec<(String, Vec<String>)> = Vec::new();
        let mut adjacency: Vec<(String, Vec<String>)> = Vec::new();
        let mut paths: Vec<String> = Vec::new();
        let mut segments: Vec<Vec<Vec<char>>> = Vec::new();
        let mut i: usize = 0;
        assert(ss.take(0) =~= Seq::<SectionV>::empty());
        assert(mm_views(keywords@) =~= Seq::<(Seq<char>, Seq<Seq<char>>)>::empty());
        assert(string_views(paths@) =~= Seq::<Seq<char>>::empty());
        assert(segment_views(segments@) =~= Seq::<Seq<Seq<char>>>::empty());
        while i < document.sections.len()
            invariant
                i <= document.sections@.len(),
                ss == document@.sections,
                mm_views(keywords@) == keywords_of(ss.take(i as int)),
                string_views(paths@) == sort_lex(ss.take(i as int).map_values(|s: SectionV| s.path)),
                segment_views(segments@) == segments_of(ss.take(i as int)),
            decreases document.sections@.len() - i,
        {
            let section = &document.sections[i];
            assert(ss[i as int] == section@);
            assert(ss.take(i + 1).drop_last() =~= ss.take(i as int));
            assert(ss.take(i + 1).last() == section@);
            let path = chars_of(section.path.as_str());
            add_all_exec(&mut keywords, &tokenize(&path), section.path.as_str());
            add_all_exec(&mut keywords, &tokenize(&chars_of(section.content.as_str())), section.path.as_str());
            insert_path_sorted(&mut paths, section.path.as_str());
            assert(ss.take(i + 1).map_values(|s: SectionV| s.path).drop_last() =~= ss.take(i as int).map_values(
                |s: SectionV| s.path,
            ));
            let parts = split_chars(&path, '.');
            let mut seen = false;
            let mut k: usize = 0;
            while k < segments.len()
                invariant
                    k <= segments@.len(),
                    !seen ==> forall|j: int| 0 <= j < k ==> segment_views(segments@)[j] != views(parts@),
                    seen ==> segment_views(segments@).contains(views(parts@)),
                decreases segments@.len() - k,
            {
                if same_parts(&segments[k], &parts) {
                    assert(segment_views(segments@)[k as int] == views(parts@));
                    seen = true;
                }
                k += 1;
            }
            if !seen {
                let ghost before = segment_views(segments@);
                segments.push(parts);
                assert(segment_views(segments@) =~= before.push(views(segments@[segments@.len() - 1]@)));
            }
            i += 1;
        }
        assert(ss.take(ss.len() as int) =~= ss);
        let mut j: usize = 0;
        assert(ss.take(0) =~= Seq::<SectionV>::empty());
        while j < document.sections.len()
            invariant
                j <= document.sections@.len(),
                ss == document@.sections,
                mm_views(adjacency@) == adjacency_of(ss.take(j as int)),
            decreases document.sections@.len() - j,
        {
            assert(ss.take(j + 1).drop_last() =~= ss.take(j as int));
            assert(ss.take(j + 1).last() == document.sections@[j as int]@);
            section_edges_exec(&mut adjacency, &document.sections[j]);
            j += 1;
        }
        SectionIndex { keywords, paths, adjacency, segments }
    }
}

fn same_parts(a: &Vec<Vec<char>>, b: &Vec<Vec<char>>) -> (r: bool)
    ensures
        r == (views(a@) == views(b@)),
{
    if a.len() != b.len() {
        assert(views(a@).len() != views(b@).len());
        return false;
    }
    let mut i: usize = 0;
    while i < a.len()
        invariant
            i <= a@.len() == b@.len(),
            forall|j: int| 0 <= j < i ==> views(a@)[j] == views(b@)[j],
        decreases a@.len() - i,
    {
        if !chars_eq(&a[i], &b[i]) {
            assert(views(a@)[i as int] != views(b@)[i as int]);
            return false;
        }
        i += 1;
    }
    assert(views(a@) =~= views(b@));
    true
}


// ---------------------------------------------------------------------------
// Queries
// ---------------------------------------------------------------------------

pub fn list_contains_str(list: &Vec<String>, x: &str) -> (r: bool)
    ensures
        r == string_views(list@).contains(x@),
{
    let mut i: usize = 0;
    while i < list.len()
        invariant
            i <= list@.len(),
            forall|j: int| 0 <= j < i ==> string_views(list@)[j] != x@,
        decreases list@.len() - i,
    {
        if str_eq(list[i].as_str(), x) {
            assert(string_views(list@)[i as int] == x@);
            return true;
        }
        i += 1;
    }
    false
}

/// The nodes within one more step: section paths that an edge leads to from
/// the set.
pub open spec fn step_set(adj: Multimap, paths: Seq<Seq<char>>, r: Set<Seq<char>>) -> Set<Seq<char>> {
    Set::new(|y: Seq<char>| paths.contains(y) && exists|x: Seq<char>| r.contains(x) && mm_get(adj, x).contains(y))
}

/// The nodes within `d` steps of `start`, moving only onto section paths.
pub open spec fn reach(adj: Multimap, paths: Seq<Seq<char>>, start: Seq<char>, d: nat) -> Set<Seq<char>>
    decreases d,
{
    if d == 0 {
        Set::empty().insert(start)
    } else {
        let r = reach(adj, paths, start, (d - 1) as nat);
        r.union(step_set(adj, paths, r))
    }
}

pub proof fn lemma_reach_stable(adj: Multimap, paths: Seq<Seq<char>>, start: Seq<char>, d: nat, e: nat)
    requires
        d <= e,
        reach(adj, paths, start, d + 1) == reach(adj, paths, start, d),
    ensures
        reach(adj, paths, start, e) == reach(adj, paths, start, d),
    decreases e - d,
{
    if e > d {
        lemma_reach_stable(adj, paths, start, d, (e - 1) as nat);
        assert(reach(adj, paths, start, e) == reach(adj, paths, start, (e - 1) as nat).union(
            step_set(adj, paths, reach(adj, paths, start, (e - 1) as nat)),
        ));
    }
}

/// Adding a value under a key keeps the multimap well formed, keeps every
/// value it held, and adds just that value under that key.
proof fn lemma_mm_add_all_keys(m: Multimap, k: Seq<char>, v: Seq<char>)
    requires
        mm_wf(m),
    ensures
        mm_wf(mm_add(m, k, v)),
        forall|k2: Seq<char>, y: Seq<char>|
            #[trigger] mm_get(mm_add(m, k, v), k2).contains(y) <==> (mm_get(m, k2).contains(y) || (k2 == k && y == v)),
{
    lemma_mm_find(m, k);
    match mm_find(m, k) {
        Some(j) => {
            lemma_mm_add_existing(m, k, v, k, j);
            assert forall|k2: Seq<char>, y: Seq<char>|
                #[trigger] mm_get(mm_add(m, k, v), k2).contains(y) <==> (mm_get(m, k2).contains(y) || (k2 == k && y == v)) by {
                lemma_mm_add_existing(m, k, v, k2, j);
            }
        },
        None => {
            lemma_mm_add_new(m, k, v, k);
            assert forall|k2: Seq<char>, y: Seq<char>|
                #[trigger] mm_get(mm_add(m, k, v), k2).contains(y) <==> (mm_get(m, k2).contains(y) || (k2 == k && y == v)) by {
                lemma_mm_add_new(m, k, v, k2);
            }
        },
    }
}

/// The relation edges of a section are added both ways, and nothing is lost.
proof fn lemma_relation_edges(m: Multimap, from: Seq<char>, tos: Seq<Seq<char>>)
    requires
        mm_wf(m),
    ensures
        mm_wf(relation_edges(m, from, tos)),
        forall|k2: Seq<char>, y: Seq<char>| mm_get(m, k2).contains(y) ==> #[trigger] mm_get(relation_edges(m, from, tos), k2).contains(y),
        forall|i: int| 0 <= i < tos.len() ==> mm_get(relation_edges(m, from, tos), from).contains(#[trigger] tos[i])
            && mm_get(relation_edges(m, from, tos), tos[i]).contains(from),
    decreases tos.len(),
{
    if tos.len() > 0 {
        let prev = relation_edges(m, from, tos.drop_last());
        lemma_relation_edges(m, from, tos.drop_last());
        let t = tos.last();
        lemma_mm_add_all_keys(prev, from, t);
        lemma_mm_add_all_keys(mm_add(prev, from, t), t, from);
        let r = relation_edges(m, from, tos);
        assert(r == mm_add(mm_add(prev, from, t), t, from));
        assert forall|i: int| 0 <= i < tos.len() implies mm_get(r, from).contains(#[trigger] tos[i]) && mm_get(r, tos[i]).contains(from) by {
            if i < tos.len() - 1 {
                assert(tos[i] == tos.drop_last()[i]);
                assert(mm_get(prev, from).contains(tos.drop_last()[i]));
                assert(mm_get(mm_add(prev, from, t), from).contains(tos[i]));
                assert(mm_get(prev, tos[i]).contains(from));
                assert(mm_get(mm_add(prev, from, t), tos[i]).contains(from));
            } else {
                assert(mm_get(mm_add(prev, from, t), from).contains(t));
            }
        }
        assert forall|k2: Seq<char>, y: Seq<char>| mm_get(m, k2).contains(y) implies #[trigger] mm_get(r, k2).contains(y) by {
            assert(mm_get(prev, k2).contains(y));
            assert(mm_get(mm_add(prev, from, t), k2).contains(y));
        }
    }
}

/// The `contains` edges of a path keep the multimap well formed and lose
/// nothing.
proof fn lemma_chain_edges(m: Multimap, parent: Seq<char>, parts: Seq<Seq<char>>)
    requires
        mm_wf(m),
    ensures
        mm_wf(chain_edges(m, parent, parts)),
        forall|k2: Seq<char>, y: Seq<char>| mm_get(m, k2).contains(y) ==> #[trigger] mm_get(chain_edges(m, parent, parts), k2).contains(y),
    decreases parts.len(),
{
    if parts.len() > 0 {
        let child = if parent.len() == 0 {
            parts[0]
        } else {
            parent + "."@ + parts[0]
        };
        lemma_mm_add_all_keys(m, parent, child);
        lemma_mm_add_all_keys(mm_add(m, parent, child), child, parent);
        let m2 = mm_add(mm_add(m, parent, child), child, parent);
        lemma_chain_edges(m2, child, parts.drop_first());
        assert forall|k2: Seq<char>, y: Seq<char>| mm_get(m, k2).contains(y) implies #[trigger] mm_get(chain_edges(m, parent, parts), k2).contains(y) by {
            assert(mm_get(mm_add(m, parent, child), k2).contains(y));
            assert(mm_get(m2, k2).contains(y));
        }
    }
}

/// The section graph of an index links each section to the targets of its
/// relations, both ways.
pub proof fn lemma_adjacency_relations(ss: Seq<SectionV>)
    ensures
        mm_wf(adjacency_of(ss)),
        forall|j: int, i: int|
            0 <= j < ss.len() && 0 <= i < relation_targets(ss[j].graph).len() ==> mm_get(adjacency_of(ss), ss[j].path).contains(
                #[trigger] relation_targets(ss[j].graph)[i],
            ) && mm_get(adjacency_of(ss), relation_targets(ss[j].graph)[i]).contains(ss[j].path),
    decreases ss.len(),
{
    if ss.len() == 0 {
        assert(mm_wf(adjacency_of(ss)));
    } else {
        let front = ss.drop_last();
        let s = ss.last();
        lemma_adjacency_relations(front);
        let a0 = adjacency_of(front);
        let parts = split_on(s.path, '.');
        let m1 = if parts.len() > 1 {
            chain_edges(a0, parts[0], parts.drop_first())
        } else {
            a0
        };
        if parts.len() > 1 {
            lemma_chain_edges(a0, parts[0], parts.drop_first());
        }
        lemma_relation_edges(m1, s.path, relation_targets(s.graph));
        let a = adjacency_of(ss);
        assert(a == relation_edges(m1, s.path, relation_targets(s.graph)));
        assert forall|j: int, i: int|
            0 <= j < ss.len() && 0 <= i < relation_targets(ss[j].graph).len() implies mm_get(a, ss[j].path).contains(
                #[trigger] relation_targets(ss[j].graph)[i],
            ) && mm_get(a, relation_targets(ss[j].graph)[i]).contains(ss[j].path) by {
            if j < ss.len() - 1 {
                assert(ss[j] == front[j]);
                let y = relation_targets(front[j].graph)[i];
                assert(mm_get(a0, front[j].path).contains(y));
                assert(mm_get(a0, y).contains(front[j].path));
                assert(mm_get(m1, front[j].path).contains(y));
                assert(mm_get(m1, y).contains(front[j].path));
            } else {
                assert(ss[j] == s);
            }
        }
    }
}

/// Where the `contains` chain from `parent` through `parts` ends.
pub open spec fn chain_end(parent: Seq<char>, parts: Seq<Seq<char>>) -> Seq<char>
    decreases parts.len(),
{
    if parts.len() == 0 {
        parent
    } else {
        let child = if parent.len() == 0 {
            parts[0]
        } else {
            parent + "."@ + parts[0]
        };
        chain_end(child, parts.drop_first())
    }
}

/// The chain links its last two names, both ways, and loses nothing.
proof fn lemma_chain_last_link(m: Multimap, parent: Seq<char>, parts: Seq<Seq<char>>)
    requires
        mm_wf(m),
        parts.len() >= 1,
    ensures
        mm_get(chain_edges(m, parent, parts), chain_end(parent, parts.drop_last())).contains(chain_end(parent, parts)),
        mm_get(chain_edges(m, parent, parts), chain_end(parent, parts)).contains(chain_end(parent, parts.drop_last())),
    decreases parts.len(),
{
    let child = if parent.len() == 0 {
        parts[0]
    } else {
        parent + "."@ + parts[0]
    };
    lemma_mm_add_all_keys(m, parent, child);
    lemma_mm_add_all_keys(mm_add(m, parent, child), child, parent);
    let m2 = mm_add(mm_add(m, parent, child), child, parent);
    if parts.len() == 1 {
        assert(parts.drop_first() =~= Seq::<Seq<char>>::empty());
        assert(parts.drop_last() =~= Seq::<Seq<char>>::empty());
        assert(mm_get(mm_add(m, parent, child), parent).contains(child));
        assert(mm_get(m2, parent).contains(child));
        assert(mm_get(m2, child).contains(parent));
    } else {
        lemma_chain_last_link(m2, child, parts.drop_first());
        assert(parts.drop_last().drop_first() =~= parts.drop_first().drop_last());
        assert(parts.drop_last()[0] == parts[0]);
    }
}

/// Extending a chain that has a name adds `.` and the part.
proof fn lemma_chain_end_push(parent: Seq<char>, parts: Seq<Seq<char>>, x: Seq<char>)
    requires
        parent.len() > 0,
    ensures
        chain_end(parent, parts.push(x)) == chain_end(parent, parts) + "."@ + x,
        chain_end(parent, parts).len() > 0,
    decreases parts.len(),
{
    if parts.len() == 0 {
        assert(parts.push(x).drop_first() =~= Seq::<Seq<char>>::empty());
        assert(parts.push(x)[0] == x);
        assert(chain_end(parent, parts.push(x)) == chain_end(parent + "."@ + x, parts.push(x).drop_first()));
        assert(chain_end(parent + "."@ + x, Seq::<Seq<char>>::empty()) == parent + "."@ + x);
        assert(chain_end(parent, parts) == parent);
    } else {
        let child = parent + "."@ + parts[0];
        assert(parts.push(x).drop_first() =~= parts.drop_first().push(x));
        assert(parts.push(x)[0] == parts[0]);
        lemma_chain_end_push(child, parts.drop_first(), x);
        assert(chain_end(parent, parts.push(x)) == chain_end(child, parts.push(x).drop_first()));
        assert(chain_end(parent, parts) == chain_end(child, parts.drop_first()));
        assert(chain_end(child, parts.drop_first()) + "."@ + x == chain_end(parent, parts) + "."@ + x);
    }
}

/// The chain from the first part through the others spells the parts joined
/// with dots.
proof fn lemma_chain_end_join(parts: Seq<Seq<char>>)
    requires
        parts.len() >= 1,
        parts[0].len() > 0,
    ensures
        chain_end(parts[0], parts.drop_first()) == crate::text::join(parts, "."@),
    decreases parts.len(),
{
    if parts.len() == 1 {
        assert(parts.drop_first() =~= Seq::<Seq<char>>::empty());
    } else {
        let front = parts.drop_last();
        assert(front[0] == parts[0]);
        lemma_chain_end_join(front);
        assert(parts.drop_first() =~= front.drop_first().push(parts.last()));
        lemma_chain_end_push(parts[0], front.drop_first(), parts.last());
    }
}

/// Joining the pieces of a text split at a character gives the text back.
proof fn lemma_join_split_on(s: Seq<char>, c: char)
    ensures
        crate::text::join(split_on(s, c), seq![c]) == s,
    decreases s.len(),
{
    lemma_split_on_nonempty(s, c);
    if s.len() == 0 {
        assert(crate::text::join(split_on(s, c), seq![c]) =~= s);
    } else {
        let t = s.drop_last();
        lemma_join_split_on(t, c);
        lemma_split_on_nonempty(t, c);
        let p = split_on(t, c);
        assert(s =~= t.push(s.last()));
        if s.last() == c {
            let q = p.push(Seq::<char>::empty());
            assert(q.drop_last() =~= p);
            assert(crate::text::join(q, seq![c]) =~= s);
        } else {
            let q = p.update(p.len() - 1, p.last().push(s.last()));
            if p.len() == 1 {
                assert(crate::text::join(q, seq![c]) =~= s);
            } else {
                assert(q.drop_last() =~= p.drop_last());
                assert(crate::text::join(q, seq![c]) =~= s);
            }
        }
    }
}

/// The dotted parent of a path: its parts but the last, joined with dots.
pub open spec fn dotted_parent(path: Seq<char>) -> Seq<char> {
    crate::text::join(split_on(path, '.').drop_last(), "."@)
}

/// The section graph links each dotted path that does not start with a dot
/// to its dotted parent, both ways.
proof fn lemma_section_parent_link(m: Multimap, s: SectionV)
    requires
        mm_wf(m),
        split_on(s.path, '.').len() > 1,
        split_on(s.path, '.')[0].len() > 0,
    ensures
        mm_get(section_edges(m, s), dotted_parent(s.path)).contains(s.path),
        mm_get(section_edges(m, s), s.path).contains(dotted_parent(s.path)),
        mm_wf(section_edges(m, s)),
        forall|k2: Seq<char>, y: Seq<char>| mm_get(m, k2).contains(y) ==> #[trigger] mm_get(section_edges(m, s), k2).contains(y),
{
    let parts = split_on(s.path, '.');
    let rest = parts.drop_first();
    reveal_strlit(".");
    assert("."@ =~= seq!['.']);
    lemma_join_split_on(s.path, '.');
    lemma_chain_end_join(parts);
    lemma_chain_last_link(m, parts[0], rest);
    lemma_chain_edges(m, parts[0], rest);
    let front = parts.drop_last();
    assert(front[0] == parts[0]);
    lemma_chain_end_join(front);
    assert(rest.drop_last() =~= front.drop_first());
    let m1 = chain_edges(m, parts[0], rest);
    lemma_relation_edges(m1, s.path, relation_targets(s.graph));
}

/// The section graph of an index links each section whose path has a dotted
/// parent (and does not start with a dot) to that parent, both ways.
pub proof fn lemma_adjacency_parents(ss: Seq<SectionV>)
    ensures
        mm_wf(adjacency_of(ss)),
        forall|j: int|
            0 <= j < ss.len() && split_on(ss[j].path, '.').len() > 1 && split_on(ss[j].path, '.')[0].len() > 0 ==> mm_get(
                adjacency_of(ss),
                dotted_parent(#[trigger] ss[j].path),
            ).contains(ss[j].path) && mm_get(adjacency_of(ss), ss[j].path).contains(dotted_parent(ss[j].path)),
    decreases ss.len(),
{
    lemma_adjacency_relations(ss);
    if ss.len() > 0 {
        let front = ss.drop_last();
        let s = ss.last();
        lemma_adjacency_parents(front);
        let a0 = adjacency_of(front);
        let parts = split_on(s.path, '.');
        let m1 = if parts.len() > 1 {
            chain_edges(a0, parts[0], parts.drop_first())
        } else {
            a0
        };
        if parts.len() > 1 {
            lemma_chain_edges(a0, parts[0], parts.drop_first());
        }
        lemma_relation_edges(m1, s.path, relation_targets(s.graph));
        if parts.len() > 1 && parts[0].len() > 0 {
            lemma_section_parent_link(a0, s);
        }
        let a = adjacency_of(ss);
        assert forall|j: int|
            0 <= j < ss.len() && split_on(ss[j].path, '.').len() > 1 && split_on(ss[j].path, '.')[0].len() > 0 implies mm_get(
                a,
                dotted_parent(#[trigger] ss[j].path),
            ).contains(ss[j].path) && mm_get(a, ss[j].path).contains(dotted_parent(ss[j].path)) by {
            if j < ss.len() - 1 {
                assert(ss[j] == front[j]);
                let q = dotted_parent(front[j].path);
                assert(mm_get(a0, q).contains(front[j].path));
                assert(mm_get(a0, front[j].path).contains(q));
                assert(mm_get(m1, q).contains(front[j].path));
                assert(mm_get(m1, front[j].path).contains(q));
            } else {
                assert(ss[j] == s);
            }
        }
    }
}

/// Within one step or more, a related lookup of a section's path finds its
/// dotted parent where that is a section, and a related lookup of the parent
/// finds the section.
pub proof fn lemma_related_finds_parent(ss: Seq<SectionV>, j: int, d: nat)
    requires
        0 <= j < ss.len(),
        split_on(ss[j].path, '.').len() > 1,
        split_on(ss[j].path, '.')[0].len() > 0,
        d >= 1,
    ensures
        index_of(ss).paths.contains(dotted_parent(ss[j].path)) ==> reach(index_of(ss).adjacency, index_of(ss).paths, ss[j].path, d).contains(dotted_parent(ss[j].path)),
        index_of(ss).paths.contains(ss[j].path) ==> reach(index_of(ss).adjacency, index_of(ss).paths, dotted_parent(ss[j].path), d).contains(ss[j].path),
{
    lemma_adjacency_parents(ss);
    let q = dotted_parent(ss[j].path);
    lemma_related_depths(index_of(ss).adjacency, index_of(ss).paths, ss[j].path, d, q);
    lemma_related_depths(index_of(ss).adjacency, index_of(ss).paths, q, d, ss[j].path);
}

/// Within one step or more, a related lookup of a section's path finds the
/// targets of the section's relations that are sections, other than the path
/// itself.
pub proof fn lemma_related_finds_relations(ss: Seq<SectionV>, j: int, i: int, d: nat)
    requires
        0 <= j < ss.len(),
        0 <= i < relation_targets(ss[j].graph).len(),
        d >= 1,
        index_of(ss).paths.contains(relation_targets(ss[j].graph)[i]),
    ensures
        reach(index_of(ss).adjacency, index_of(ss).paths, ss[j].path, d).contains(relation_targets(ss[j].graph)[i]),
        index_of(ss).paths.contains(ss[j].path) ==> reach(index_of(ss).adjacency, index_of(ss).paths, relation_targets(ss[j].graph)[i], d).contains(ss[j].path),
{
    lemma_adjacency_relations(ss);
    let y = relation_targets(ss[j].graph)[i];
    lemma_related_depths(index_of(ss).adjacency, index_of(ss).paths, ss[j].path, d, y);
    lemma_related_depths(index_of(ss).adjacency, index_of(ss).paths, y, d, ss[j].path);
}

/// What is reached within fewer steps is reached within more.
pub proof fn lemma_reach_monotone(adj: Multimap, paths: Seq<Seq<char>>, start: Seq<char>, d: nat, e: nat, y: Seq<char>)
    requires
        d <= e,
        reach(adj, paths, start, d).contains(y),
    ensures
        reach(adj, paths, start, e).contains(y),
    decreases e - d,
{
    if e > d {
        lemma_reach_monotone(adj, paths, start, d, (e - 1) as nat, y);
    }
}

/// A related lookup within no steps finds nothing; within one step or more
/// it finds every section path that the index's section graph links `start`
/// to directly, and each path it finds within some depth it finds again
/// within any greater depth.
pub proof fn lemma_related_depths(adj: Multimap, paths: Seq<Seq<char>>, start: Seq<char>, d: nat, y: Seq<char>)
    ensures
        (reach(adj, paths, start, 0).contains(y) && y != start) == false,
        d >= 1 && paths.contains(y) && mm_get(adj, start).contains(y) ==> reach(adj, paths, start, d).contains(y),
        reach(adj, paths, start, d).contains(y) ==> reach(adj, paths, start, d + 1).contains(y),
{
    if d >= 1 && paths.contains(y) && mm_get(adj, start).contains(y) {
        let r0 = reach(adj, paths, start, 0);
        assert(r0.contains(start));
        assert(step_set(adj, paths, r0).contains(y));
        assert(reach(adj, paths, start, 1).contains(y));
        lemma_reach_monotone(adj, paths, start, 1, d, y);
    }
    if reach(adj, paths, start, d).contains(y) {
        lemma_reach_monotone(adj, paths, start, d, d + 1, y);
    }
}

pub proof fn lemma_reach_grows(adj: Multimap, paths: Seq<Seq<char>>, start: Seq<char>, d: nat)
    ensures
        reach(adj, paths, start, d).contains(start),
    decreases d,
{
    if d > 0 {
        lemma_reach_grows(adj, paths, start, (d - 1) as nat);
    }
}

pub open spec fn strip_star(p: Seq<char>) -> Seq<char> {
    if ".*"@.is_suffix_of(p) {
        p.take(p.len() - ".*"@.len())
    } else {
        p
    }
}

pub open spec fn nonempty_parts(ps: Seq<Seq<char>>) -> Seq<Seq<char>>
    decreases ps.len(),
{
    if ps.len() == 0 {
        ps
    } else {
        let prev = nonempty_parts(ps.drop_last());
        if ps.last().len() > 0 {
            prev.push(ps.last())
        } else {
            prev
        }
    }
}

/// A path rebuilt from a base and the parts below it.
pub open spec fn reconstruct(base: Seq<char>, rest: Seq<Seq<char>>) -> Seq<char>
    decreases rest.len(),
{
    if rest.len() == 0 {
        base
    } else {
        let b2 = if base.len() == 0 {
            rest[0]
        } else {
            base + "."@ + rest[0]
        };
        reconstruct(b2, rest.drop_first())
    }
}

pub open spec fn prefix_matches(segs: Seq<Seq<Seq<char>>>, q: Seq<Seq<char>>, base: Seq<char>) -> Seq<Seq<char>>
    decreases segs.len(),
{
    if segs.len() == 0 {
        Seq::empty()
    } else {
        let prev = prefix_matches(segs.drop_last(), q, base);
        if q.is_prefix_of(segs.last()) {
            prev.push(reconstruct(base, segs.last().skip(q.len() as int)))
        } else {
            prev
        }
    }
}

/// The paths under a prefix (`a.b` or `a.b.*`), rebuilt from the prefix and
/// sorted.
pub open spec fn prefix_result(ix: IndexV, pattern: Seq<char>) -> Seq<Seq<char>> {
    let p = strip_star(pattern);
    sort_lex(prefix_matches(ix.segments, nonempty_parts(split_on(p, '.')), strip_trailing(p, '.')))
}

fn reconstruct_exec(base: &Vec<char>, rest: &Vec<Vec<char>>, from: usize) -> (r: Vec<char>)
    requires
        from <= rest@.len(),
    ensures
        r@ == reconstruct(base@, views(rest@).skip(from as int)),
{
    let ghost rv = views(rest@);
    let mut cur = copy_range(base, 0, base.len());
    let mut i = from;
    assert(cur@ =~= base@);
    while i < rest.len()
        invariant
            from <= i <= rest@.len(),
            rv == views(rest@),
            reconstruct(base@, rv.skip(from as int)) == reconstruct(cur@, rv.skip(i as int)),
        decreases rest@.len() - i,
    {
        let ghost tail = rv.skip(i as int);
        assert(tail[0] == rest@[i as int]@);
        let next = if cur.len() == 0 {
            copy_range(&rest[i], 0, rest[i].len())
        } else {
            let mut c = copy_range(&cur, 0, cur.len());
            c.push('.');
            let part = &rest[i];
            let mut k: usize = 0;
            let ghost start = c@;
            while k < part.len()
                invariant
                    k <= part@.len(),
                    c@ == start + part@.take(k as int),
                decreases part@.len() - k,
            {
                c.push(part[k]);
                k += 1;
                assert(c@ =~= start + part@.take(k as int));
            }
            assert(part@.take(part@.len() as int) =~= part@);
            proof {
                reveal_strlit(".");
            }
            assert(c@ =~= cur@ + "."@ + tail[0]);
            c
        };
        assert(cur@.len() == 0 ==> next@ =~= tail[0]);
        assert(tail.drop_first() =~= rv.skip(i + 1));
        cur = next;
        i += 1;
    }
    assert(rv.skip(i as int).len() == 0);
    cur
}

impl SectionIndex {
    /// The sections whose path or content holds the keyword, sorted.
    pub fn keyword(&self, keyword: &str) -> (r: Vec<String>)
        ensures
            string_views(r@) == mm_get(self@.keywords, normalize_token(keyword@)),
    {
        let k = normalize_token_exec(&chars_of(keyword));
        let ks = string_of(&k);
        mm_get_exec(&self.keywords, ks.as_str())
    }

    /// Whether a section has this path.
    pub fn contains_path(&self, path: &str) -> (r: bool)
        ensures
            r == self@.paths.contains(path@),
    {
        list_contains_str(&self.paths, path)
    }

    /// The paths under a prefix.
    #[verifier::spinoff_prover]
    pub fn prefix(&self, pattern: &str) -> (r: Vec<String>)
        ensures
            string_views(r@) == prefix_result(self@, pattern@),
    {
        let pc = chars_of(pattern);
        let star = chars_of(".*");
        proof {
            reveal_strlit(".*");
        }
        let p = if ends_with_chars(&pc, &star) {
            copy_range(&pc, 0, pc.len() - 2)
        } else {
            copy_range(&pc, 0, pc.len())
        };
        assert(p@ =~= strip_star(pattern@));
        let parts = split_chars(&p, '.');
        let ghost pv = views(parts@);
        let mut q: Vec<Vec<char>> = Vec::new();
        let mut i: usize = 0;
        assert(pv.take(0) =~= Seq::<Seq<char>>::empty());
        while i < parts.len()
            invariant
                i <= parts@.len(),
                pv == views(parts@),
                views(q@) == nonempty_parts(pv.take(i as int)),
            decreases parts@.len() - i,
        {
            assert(pv.take(i + 1).drop_last() =~= pv.take(i as int));
            assert(pv.take(i + 1).last() == parts@[i as int]@);
            if parts[i].len() > 0 {
                let ghost b = views(q@);
                let c = copy_range(&parts[i], 0, parts[i].len());
                assert(c@ =~= parts@[i as int]@);
                q.push(c);
                assert(views(q@) =~= b.push(parts@[i as int]@));
            }
            i += 1;
        }
        assert(pv.take(pv.len() as int) =~= pv);
        let mut end = p.len();
        assert(p@.take(end as int) =~= p@);
        while end > 0 && p[end - 1] == '.'
            invariant
                end <= p@.len(),
                strip_trailing(p@, '.') == strip_trailing(p@.take(end as int), '.'),
            decreases end,
        {
            assert(p@.take(end as int).drop_last() =~= p@.take(end - 1));
            end -= 1;
        }
        let base = copy_range(&p, 0, end);
        let ghost segs = segment_views(self.segments@);
        let mut out: Vec<String> = Vec::new();
        let mut j: usize = 0;
        assert(segs.take(0) =~= Seq::<Seq<Seq<char>>>::empty());
        assert(string_views(out@) =~= Seq::<Seq<char>>::empty());
        while j < self.segments.len()
            invariant
                j <= self.segments@.len(),
                segs == segment_views(self.segments@),
                base@ == strip_trailing(p@, '.'),
                string_views(out@) == sort_lex(prefix_matches(segs.take(j as int), views(q@), base@)),
            decreases self.segments@.len() - j,
        {
            let s = &self.segments[j];
            assert(segs[j as int] == views(s@));
            assert(segs.take(j + 1).drop_last() =~= segs.take(j as int));
            assert(segs.take(j + 1).last() == views(s@));
            let mut is_prefix = q.len() <= s.len();
            let mut k: usize = 0;
            while is_prefix && k < q.len()
                invariant
                    k <= q@.len(),
                    is_prefix ==> q@.len() <= s@.len(),
                    is_prefix ==> forall|t: int| 0 <= t < k ==> views(q@)[t] == views(s@)[t],
                    !is_prefix ==> !views(q@).is_prefix_of(views(s@)),
                decreases q@.len() - k,
            {
                if !chars_eq(&q[k], &s[k]) {
                    assert(views(q@)[k as int] != views(s@)[k as int]);
                    is_prefix = false;
                }
                k += 1;
            }
            proof {
                if is_prefix {
                    assert(views(s@).subrange(0, views(q@).len() as int) =~= views(q@));
                }
            }
            if is_prefix {
                let rebuilt = reconstruct_exec(&base, s, q.len());
                let text = string_of(&rebuilt);
                let ghost prev = prefix_matches(segs.take(j as int), views(q@), base@);
                assert(rebuilt@ == reconstruct(base@, views(s@).skip(views(q@).len() as int)));
                insert_path_sorted(&mut out, text.as_str());
                assert(prev.push(rebuilt@).drop_last() =~= prev);
            }
            j += 1;
        }
        assert(segs.take(segs.len() as int) =~= segs);
        out
    }
}


/// Section paths one step along an edge from some node of `xs`.
pub open spec fn steps_from(adj: Multimap, paths: Seq<Seq<char>>, xs: Seq<Seq<char>>, z: Seq<char>) -> bool {
    paths.contains(z) && exists|j: int| 0 <= j < xs.len() && #[trigger] mm_get(adj, xs[j]).contains(z)
}

proof fn lemma_contains_push(s: Seq<Seq<char>>, a: Seq<char>, z: Seq<char>)
    ensures
        s.push(a).contains(z) <==> (s.contains(z) || z == a),
{
    if s.contains(z) {
        let j = choose|j: int| 0 <= j < s.len() && s[j] == z;
        assert(s.push(a)[j] == z);
    }
    if z == a {
        assert(s.push(a)[s.len() as int] == z);
    }
    if s.push(a).contains(z) {
        let j = choose|j: int| 0 <= j < s.push(a).len() && s.push(a)[j] == z;
        if j < s.len() {
            assert(s[j] == z);
        }
    }
}

proof fn lemma_steps_from_push(adj: Multimap, paths: Seq<Seq<char>>, xs: Seq<Seq<char>>, x: Seq<char>, z: Seq<char>)
    ensures
        steps_from(adj, paths, xs.push(x), z) <==> (steps_from(adj, paths, xs, z) || (paths.contains(z) && mm_get(adj, x).contains(z))),
{
    let ys = xs.push(x);
    if steps_from(adj, paths, ys, z) {
        let j = choose|j: int| 0 <= j < ys.len() && #[trigger] mm_get(adj, ys[j]).contains(z);
        if j < xs.len() {
            assert(ys[j] == xs[j]);
            assert(mm_get(adj, xs[j]).contains(z));
        }
    }
    if steps_from(adj, paths, xs, z) {
        let j = choose|j: int| 0 <= j < xs.len() && #[trigger] mm_get(adj, xs[j]).contains(z);
        assert(ys[j] == xs[j]);
        assert(mm_get(adj, ys[j]).contains(z));
    }
    if paths.contains(z) && mm_get(adj, x).contains(z) {
        assert(ys[xs.len() as int] == x);
        assert(mm_get(adj, ys[xs.len() as int]).contains(z));
    }
}

/// One step from a set given by the members of a sequence.
proof fn lemma_step_set_of(adj: Multimap, paths: Seq<Seq<char>>, r: Set<Seq<char>>, xs: Seq<Seq<char>>)
    requires
        forall|y: Seq<char>| #[trigger] xs.contains(y) <==> r.contains(y),
    ensures
        forall|z: Seq<char>| #[trigger] step_set(adj, paths, r).contains(z) <==> steps_from(adj, paths, xs, z),
{
    assert forall|z: Seq<char>| #[trigger] step_set(adj, paths, r).contains(z) <==> steps_from(adj, paths, xs, z) by {
        if step_set(adj, paths, r).contains(z) {
            let x = choose|x: Seq<char>| r.contains(x) && mm_get(adj, x).contains(z);
            assert(xs.contains(x));
            let j = choose|j: int| 0 <= j < xs.len() && xs[j] == x;
            assert(mm_get(adj, xs[j]).contains(z));
        }
        if steps_from(adj, paths, xs, z) {
            let j = choose|j: int| 0 <= j < xs.len() && #[trigger] mm_get(adj, xs[j]).contains(z);
            assert(xs.contains(xs[j]));
            assert(r.contains(xs[j]));
        }
    }
}

/// The members of `list` other than `x`, in their order.
fn without(list: &Vec<String>, x: &str) -> (r: Vec<String>)
    requires
        sorted_strict(string_views(list@)),
    ensures
        sorted_strict(string_views(r@)),
        forall|z: Seq<char>| #[trigger] string_views(r@).contains(z) <==> (string_views(list@).contains(z) && z != x@),
{
    let ghost sv = string_views(list@);
    let mut out: Vec<String> = Vec::new();
    let mut i: usize = 0;
    while i < list.len()
        invariant
            i <= list@.len(),
            sv == string_views(list@),
            sorted_strict(sv),
            sorted_strict(string_views(out@)),
            forall|t: int, j: int| 0 <= t < string_views(out@).len() && i <= j < sv.len() ==> lex_lt(string_views(out@)[t], sv[j]),
            forall|z: Seq<char>| #[trigger] string_views(out@).contains(z) <==> (sv.take(i as int).contains(z) && z != x@),
        decreases list@.len() - i,
    {
        let ghost before = string_views(out@);
        assert(sv.take(i + 1) =~= sv.take(i as int).push(sv[i as int]));
        assert(sv[i as int] == list@[i as int]@);
        if !str_eq(list[i].as_str(), x) {
            let item = list[i].clone();
            assert(item@ == sv[i as int]);
            out.push(item);
            assert(string_views(out@) =~= before.push(sv[i as int]));
            assert forall|z: Seq<char>| #[trigger] string_views(out@).contains(z) <==> (sv.take(i + 1).contains(z) && z != x@) by {
                lemma_contains_push(before, sv[i as int], z);
                lemma_contains_push(sv.take(i as int), sv[i as int], z);
            }
        } else {
            assert forall|z: Seq<char>| #[trigger] string_views(out@).contains(z) <==> (sv.take(i + 1).contains(z) && z != x@) by {
                lemma_contains_push(sv.take(i as int), sv[i as int], z);
            }
        }
        i += 1;
    }
    assert(sv.take(sv.len() as int) =~= sv);
    out
}

impl SectionIndex {
    /// Everything one step further on from the nodes in `visited`: the
    /// result holds them and every section path an edge leads to from one of
    /// them; `false` comes back when nothing was added.
    fn expand_level(&self, visited: &Vec<String>) -> (r: (Vec<String>, bool))
        requires
            sorted_strict(string_views(visited@)),
        ensures
            sorted_strict(string_views(r.0@)),
            forall|z: Seq<char>| #[trigger] string_views(r.0@).contains(z) <==> (string_views(visited@).contains(z)
                || steps_from(self@.adjacency, self@.paths, string_views(visited@), z)),
            !r.1 ==> string_views(r.0@) == string_views(visited@),
    {
        let ghost sv = string_views(visited@);
        let ghost adj = self@.adjacency;
        let ghost paths = self@.paths;
        let mut next = crate::text::copy_strings(visited);
        assert(string_views(next@) == sv);
        let mut changed = false;
        let mut i: usize = 0;
        assert forall|z: Seq<char>| #[trigger] string_views(next@).contains(z) <==> (sv.contains(z)
            || steps_from(adj, paths, sv.take(0), z)) by {}
        while i < visited.len()
            invariant
                i <= visited@.len(),
                sv == string_views(visited@),
                adj == self@.adjacency,
                paths == self@.paths,
                sorted_strict(string_views(next@)),
                forall|z: Seq<char>| #[trigger] string_views(next@).contains(z) <==> (sv.contains(z)
                    || steps_from(adj, paths, sv.take(i as int), z)),
                !changed ==> string_views(next@) == sv,
            decreases visited@.len() - i,
        {
            assert(sv[i as int] == visited@[i as int]@);
            let nbrs = mm_get_exec(&self.adjacency, visited[i].as_str());
            let ghost nv = string_views(nbrs@);
            let mut k: usize = 0;
            assert forall|z: Seq<char>| #[trigger] string_views(next@).contains(z) <==> (sv.contains(z)
                || steps_from(adj, paths, sv.take(i as int), z) || (paths.contains(z) && nv.take(0).contains(z))) by {}
            while k < nbrs.len()
                invariant
                    k <= nbrs@.len(),
                    i < visited@.len(),
                    sv == string_views(visited@),
                    adj == self@.adjacency,
                    paths == self@.paths,
                    nv == string_views(nbrs@),
                    nv == mm_get(adj, sv[i as int]),
                    sorted_strict(string_views(next@)),
                    forall|z: Seq<char>| #[trigger] string_views(next@).contains(z) <==> (sv.contains(z)
                        || steps_from(adj, paths, sv.take(i as int), z) || (paths.contains(z) && nv.take(k as int).contains(z))),
                    !changed ==> string_views(next@) == sv,
                decreases nbrs@.len() - k,
            {
                let y = nbrs[k].as_str();
                assert(y@ == nv[k as int]);
                assert(nv.take(k + 1) =~= nv.take(k as int).push(nv[k as int]));
                let on_path = list_contains_str(&self.paths, y);
                let seen = list_contains_str(&next, y);
                let ghost before = string_views(next@);
                if on_path && !seen {
                    let yc = chars_of(y);
                    insert_unique_exec(&mut next, yc);
                    proof {
                        lemma_insert_sorted_unique(before, y@);
                    }
                    changed = true;
                }
                assert forall|z: Seq<char>| #[trigger] string_views(next@).contains(z) <==> (sv.contains(z)
                    || steps_from(adj, paths, sv.take(i as int), z) || (paths.contains(z) && nv.take(k + 1).contains(z))) by {
                    lemma_contains_push(nv.take(k as int), nv[k as int], z);
                }
                k += 1;
            }
            assert(nv.take(nv.len() as int) =~= nv);
            assert(sv.take(i + 1) =~= sv.take(i as int).push(sv[i as int]));
            assert forall|z: Seq<char>| #[trigger] string_views(next@).contains(z) <==> (sv.contains(z)
                || steps_from(adj, paths, sv.take(i + 1), z)) by {
                lemma_steps_from_push(adj, paths, sv.take(i as int), sv[i as int], z);
            }
            i += 1;
        }
        assert(sv.take(sv.len() as int) =~= sv);
        (next, changed)
    }

    /// The section paths within `depth` steps of `path` along the section
    /// graph, the path itself left out, sorted.
    pub fn related(&self, path: &str, depth: usize) -> (r: Vec<String>)
        ensures
            sorted_strict(string_views(r@)),
            forall|y: Seq<char>| #[trigger] string_views(r@).contains(y) <==> (reach(self@.adjacency, self@.paths, path@, depth as nat).contains(y)
                && y != path@),
    {
        let ghost adj = self@.adjacency;
        let ghost paths = self@.paths;
        if depth == 0 {
            let r: Vec<String> = Vec::new();
            assert forall|y: Seq<char>| #[trigger] string_views(r@).contains(y) <==> (reach(adj, paths, path@, 0).contains(y) && y != path@) by {
                if string_views(r@).contains(y) {
                    let j = choose|j: int| 0 <= j < string_views(r@).len() && string_views(r@)[j] == y;
                }
            }
            return r;
        }
        let mut visited: Vec<String> = Vec::new();
        visited.push(path.to_owned());
        assert(string_views(visited@) =~= seq![path@]);
        assert forall|y: Seq<char>| #[trigger] string_views(visited@).contains(y) <==> reach(adj, paths, path@, 0).contains(y) by {
            if y == path@ {
                assert(string_views(visited@)[0] == y);
            }
        }
        let mut level: usize = 0;
        while level < depth
            invariant_except_break
                level <= depth,
            invariant
                adj == self@.adjacency,
                paths == self@.paths,
                sorted_strict(string_views(visited@)),
                forall|y: Seq<char>| #[trigger] string_views(visited@).contains(y) <==> reach(adj, paths, path@, level as nat).contains(y),
            ensures
                forall|y: Seq<char>| #[trigger] string_views(visited@).contains(y) <==> reach(adj, paths, path@, depth as nat).contains(y),
            decreases depth - level,
        {
            let (next, changed) = self.expand_level(&visited);
            let ghost rl = reach(adj, paths, path@, level as nat);
            proof {
                lemma_step_set_of(adj, paths, rl, string_views(visited@));
                assert(reach(adj, paths, path@, (level + 1) as nat) == rl.union(step_set(adj, paths, rl)));
            }
            if !changed {
                proof {
                    assert forall|z: Seq<char>| #[trigger] reach(adj, paths, path@, (level + 1) as nat).contains(z) <==> rl.contains(z) by {
                        if step_set(adj, paths, rl).contains(z) {
                            assert(string_views(next@).contains(z));
                        }
                    }
                    assert(reach(adj, paths, path@, (level + 1) as nat) =~= rl);
                    lemma_reach_stable(adj, paths, path@, level as nat, depth as nat);
                }
                break;
            }
            visited = next;
            level += 1;
        }
        without(&visited, path)
    }
}


// ---------------------------------------------------------------------------
// What the index holds
// ---------------------------------------------------------------------------

proof fn lemma_add_all(m: Multimap, ks: Seq<Seq<char>>, v: Seq<char>, k2: Seq<char>)
    requires
        mm_wf(m),
    ensures
        mm_wf(add_all(m, ks, v)),
        forall|y: Seq<char>| #[trigger] mm_get(add_all(m, ks, v), k2).contains(y) <==> (mm_get(m, k2).contains(y)
            || (ks.contains(k2) && y == v)),
    decreases ks.len(),
{
    if ks.len() > 0 {
        let front = ks.drop_last();
        lemma_add_all(m, front, v, k2);
        lemma_mm_add(add_all(m, front, v), ks.last(), v, k2);
        assert(ks =~= front.push(ks.last()));
        lemma_contains_push(front, ks.last(), k2);
    }
}

/// Whether a keyword is among the tokens of a section's path or content.
pub open spec fn mentions(s: SectionV, k: Seq<char>) -> bool {
    tokens(s.path).contains(k) || tokens(s.content).contains(k)
}

proof fn lemma_keywords_of(ss: Seq<SectionV>, k: Seq<char>)
    ensures
        mm_wf(keywords_of(ss)),
        forall|y: Seq<char>| #[trigger] mm_get(keywords_of(ss), k).contains(y) <==> exists|i: int|
            0 <= i < ss.len() && ss[i].path == y && #[trigger] mentions(ss[i], k),
    decreases ss.len(),
{
    if ss.len() > 0 {
        let front = ss.drop_last();
        let last = ss.last();
        lemma_keywords_of(front, k);
        let m0 = keywords_of(front);
        let m1 = add_all(m0, tokens(last.path), last.path);
        lemma_add_all(m0, tokens(last.path), last.path, k);
        lemma_add_all(m1, tokens(last.content), last.path, k);
        assert forall|y: Seq<char>| #[trigger] mm_get(keywords_of(ss), k).contains(y) <==> exists|i: int|
            0 <= i < ss.len() && ss[i].path == y && #[trigger] mentions(ss[i], k) by {
            if mm_get(keywords_of(ss), k).contains(y) {
                if mm_get(m0, k).contains(y) {
                    let i = choose|i: int| 0 <= i < front.len() && front[i].path == y && #[trigger] mentions(front[i], k);
                    assert(ss[i] == front[i]);
                } else {
                    assert(ss[ss.len() - 1] == last);
                    assert(mentions(ss[ss.len() - 1], k));
                }
            }
            if exists|i: int| 0 <= i < ss.len() && ss[i].path == y && #[trigger] mentions(ss[i], k) {
                let i = choose|i: int| 0 <= i < ss.len() && ss[i].path == y && #[trigger] mentions(ss[i], k);
                if i < front.len() {
                    assert(front[i] == ss[i]);
                    assert(mentions(front[i], k));
                }
            }
        }
    }
}

/// A keyword lookup gives the paths of exactly those sections whose path or
/// content holds the keyword (normalized) as a token, sorted, each once.
pub proof fn lemma_keyword_lookup(ss: Seq<SectionV>, keyword: Seq<char>)
    ensures
        sorted_strict(mm_get(index_of(ss).keywords, normalize_token(keyword))),
        forall|y: Seq<char>| #[trigger] mm_get(index_of(ss).keywords, normalize_token(keyword)).contains(y)
            <==> exists|i: int| 0 <= i < ss.len() && ss[i].path == y && #[trigger] mentions(ss[i], normalize_token(keyword)),
{
    let k = normalize_token(keyword);
    lemma_keywords_of(ss, k);
    lemma_mm_find(keywords_of(ss), k);
}

proof fn lemma_sort_lex_contains(s: Seq<Seq<char>>)
    ensures
        sort_lex(s).len() == s.len(),
        forall|y: Seq<char>| #[trigger] sort_lex(s).contains(y) <==> s.contains(y),
    decreases s.len(),
{
    if s.len() > 0 {
        let front = s.drop_last();
        let t = sort_lex(front);
        lemma_sort_lex_contains(front);
        lemma_lex_pos_bounds(t, s.last());
        let p = lex_pos(t, s.last());
        assert forall|y: Seq<char>| #[trigger] sort_lex(s).contains(y) <==> s.contains(y) by {
            let u = t.insert(p, s.last());
            assert(s =~= front.push(s.last()));
            lemma_contains_push(front, s.last(), y);
            if u.contains(y) {
                let j = choose|j: int| 0 <= j < u.len() && u[j] == y;
                if j < p {
                    assert(t[j] == y);
                } else if j > p {
                    assert(t[j - 1] == y);
                }
            }
            if t.contains(y) {
                let j = choose|j: int| 0 <= j < t.len() && t[j] == y;
                if j < p {
                    assert(u[j] == y);
                } else {
                    assert(u[j + 1] == y);
                }
            }
            if y == s.last() {
                assert(u[p] == y);
            }
        }
    }
}

/// A path is among the index's paths exactly when some section has it.
pub proof fn lemma_index_paths(ss: Seq<SectionV>, path: Seq<char>)
    ensures
        index_of(ss).paths.contains(path) <==> exists|i: int| 0 <= i < ss.len() && #[trigger] ss[i].path == path,
{
    let ps = ss.map_values(|s: SectionV| s.path);
    lemma_sort_lex_contains(ps);
    if ps.contains(path) {
        let j = choose|j: int| 0 <= j < ps.len() && ps[j] == path;
        assert(ss[j].path == path);
    }
    if exists|i: int| 0 <= i < ss.len() && #[trigger] ss[i].path == path {
        let i = choose|i: int| 0 <= i < ss.len() && #[trigger] ss[i].path == path;
        assert(ps[i] == path);
    }
}

// ---------------------------------------------------------------------------
// Letter case
// ---------------------------------------------------------------------------

proof fn lemma_lower_char_facts(c: char)
    ensures
        lower(lower(c)) == lower(c),
        is_ws(lower(c)) == is_ws(c),
        is_ascii_alnum(c) ==> !is_ws(c),
{
}

proof fn lemma_trim_start_lower(s: Seq<char>)
    ensures
        trim_start(lower_seq(s)) == lower_seq(trim_start(s)),
    decreases s.len(),
{
    if s.len() > 0 {
        lemma_lower_char_facts(s[0]);
        assert(lower_seq(s)[0] == lower(s[0]));
        if is_ws(s[0]) {
            assert(lower_seq(s).drop_first() =~= lower_seq(s.drop_first()));
            lemma_trim_start_lower(s.drop_first());
        }
    }
}

proof fn lemma_trim_end_lower(s: Seq<char>)
    ensures
        trim_end(lower_seq(s)) == lower_seq(trim_end(s)),
    decreases s.len(),
{
    if s.len() > 0 {
        lemma_lower_char_facts(s.last());
        assert(lower_seq(s).last() == lower(s.last()));
        if is_ws(s.last()) {
            assert(lower_seq(s).drop_last() =~= lower_seq(s.drop_last()));
            lemma_trim_end_lower(s.drop_last());
        }
    }
}

/// Trimming and ASCII lower-casing can be taken in either order.
proof fn lemma_trim_lower(s: Seq<char>)
    ensures
        trim(lower_seq(s)) == lower_seq(trim(s)),
        normalize_token(s) == trim(lower_seq(s)),
{
    lemma_trim_start_lower(s);
    lemma_trim_end_lower(trim_start(s));
}

/// A normalized token is lower-case: lower-casing it again changes nothing.
pub proof fn lemma_normalize_token_lower(t: Seq<char>)
    ensures
        lower_seq(normalize_token(t)) == normalize_token(t),
{
    let n = normalize_token(t);
    assert forall|i: int| 0 <= i < n.len() implies #[trigger] lower_seq(n)[i] == n[i] by {
        lemma_lower_char_facts(trim(t)[i]);
    }
    assert(lower_seq(n) =~= n);
}

/// Keys that differ only in ASCII letter case name the same token, so the
/// keyword lookup does not see letter case: a keyword and its lower-case
/// form give the same sections in every index.
pub proof fn lemma_keyword_ignores_case(idx: IndexV, k1: Seq<char>, k2: Seq<char>)
    requires
        lower_seq(k1) == lower_seq(k2),
    ensures
        normalize_token(k1) == normalize_token(k2),
        normalize_token(lower_seq(k1)) == normalize_token(k1),
        mm_get(idx.keywords, normalize_token(k1)) == mm_get(idx.keywords, normalize_token(k2)),
        mm_get(idx.keywords, normalize_token(lower_seq(k1))) == mm_get(idx.keywords, normalize_token(k1)),
{
    lemma_trim_lower(k1);
    lemma_trim_lower(k2);
    lemma_trim_lower(lower_seq(k1));
    assert forall|i: int| 0 <= i < k1.len() implies #[trigger] lower_seq(lower_seq(k1))[i] == lower_seq(k1)[i] by {
        lemma_lower_char_facts(k1[i]);
    }
    assert(lower_seq(lower_seq(k1)) =~= lower_seq(k1));
}

/// Every token of a text is lower-case, at least two characters long.
pub proof fn lemma_tokens_lower(text: Seq<char>)
    ensures
        forall|i: int| 0 <= i < tokens(text).len() ==> lower_seq(#[trigger] tokens(text)[i]) == tokens(text)[i]
            && tokens(text)[i].len() > 1,
{
    lemma_token_filter_lower(split_non_alnum(text));
}

proof fn lemma_token_filter_lower(ps: Seq<Seq<char>>)
    ensures
        forall|i: int| 0 <= i < token_filter(ps).len() ==> lower_seq(#[trigger] token_filter(ps)[i]) == token_filter(ps)[i]
            && token_filter(ps)[i].len() > 1,
    decreases ps.len(),
{
    if ps.len() > 0 {
        let prev = token_filter(ps.drop_last());
        lemma_token_filter_lower(ps.drop_last());
        lemma_normalize_token_lower(ps.last());
        let n = normalize_token(ps.last());
        if n.len() > 1 {
            assert forall|i: int| 0 <= i < token_filter(ps).len() implies lower_seq(#[trigger] token_filter(ps)[i])
                == token_filter(ps)[i] && token_filter(ps)[i].len() > 1 by {
                if i < prev.len() {
                    assert(token_filter(ps)[i] == prev[i]);
                } else {
                    assert(token_filter(ps)[i] == n);
                }
            }
        }
    }
}

proof fn lemma_split_non_alnum_pieces(s: Seq<char>)
    ensures
        forall|j: int, c: int| 0 <= j < split_non_alnum(s).len() && 0 <= c < split_non_alnum(s)[j].len()
            ==> is_ascii_alnum(#[trigger] split_non_alnum(s)[j][c]),
    decreases s.len(),
{
    if s.len() > 0 {
        lemma_split_non_alnum_pieces(s.drop_last());
        lemma_split_non_alnum_nonempty(s.drop_last());
    }
}

proof fn lemma_alnum_trim(w: Seq<char>)
    requires
        forall|c: int| 0 <= c < w.len() ==> is_ascii_alnum(#[trigger] w[c]),
    ensures
        trim(w) == w,
{
    if w.len() > 0 {
        lemma_lower_char_facts(w[0]);
        lemma_lower_char_facts(w.last());
        assert(w.last() == w[w.len() - 1]);
    }
}

proof fn lemma_token_filter_has(ps: Seq<Seq<char>>, w: Seq<char>)
    requires
        ps.contains(w),
        normalize_token(w).len() > 1,
    ensures
        token_filter(ps).contains(normalize_token(w)),
    decreases ps.len(),
{
    let prev = token_filter(ps.drop_last());
    let out = token_filter(ps);
    if normalize_token(ps.last()).len() > 1 {
        assert(out == prev.push(normalize_token(ps.last())));
        assert forall|x: Seq<char>| prev.contains(x) implies out.contains(x) by {
            let i = choose|i: int| 0 <= i < prev.len() && prev[i] == x;
            assert(out[i] == x);
        }
        assert(out[prev.len() as int] == normalize_token(ps.last()));
    }
    if ps.last() != w {
        let j = choose|j: int| 0 <= j < ps.len() && ps[j] == w;
        assert(ps.drop_last()[j] == w);
        lemma_token_filter_has(ps.drop_last(), w);
    }
}

/// A section whose content holds a word (a run of ASCII letters and digits
/// of at least two characters) is found by a keyword lookup of that word in
/// any letter case.
pub proof fn lemma_keyword_finds_word_any_case(ss: Seq<SectionV>, i: int, w: Seq<char>, keyword: Seq<char>)
    requires
        0 <= i < ss.len(),
        split_non_alnum(ss[i].content).contains(w),
        w.len() > 1,
        lower_seq(keyword) == lower_seq(w),
    ensures
        mm_get(index_of(ss).keywords, normalize_token(keyword)).contains(ss[i].path),
{
    let pieces = split_non_alnum(ss[i].content);
    let j = choose|j: int| 0 <= j < pieces.len() && pieces[j] == w;
    lemma_split_non_alnum_pieces(ss[i].content);
    assert forall|c: int| 0 <= c < w.len() implies is_ascii_alnum(#[trigger] w[c]) by {
        assert(pieces[j][c] == w[c]);
    }
    lemma_alnum_trim(w);
    assert(normalize_token(w).len() == w.len());
    lemma_token_filter_has(pieces, w);
    lemma_keyword_ignores_case(index_of(ss), keyword, w);
    lemma_keyword_lookup(ss, keyword);
    assert(mentions(ss[i], normalize_token(keyword)));
}

} // verus!
