//! Selecting the sections that answer a query or a task: the candidates the
//! keyword index offers, their parents and graph neighbours, a token budget,
//! and the sub-document of what was selected. Ranking by relevance scores is
//! done by the caller.
use vstd::prelude::*;
use crate::contexts::insert_unique_exec;
use crate::document::{section_views, unexpired, RbmemDocument, Section, SectionV};
use crate::time::Timestamp;
use crate::graph::add_names;
use crate::index::{index_of, list_contains_str, mm_get, normalize_token, reach, SectionIndex, IndexV};
use crate::plan::{insert_sorted_unique, string_views};
use crate::resolve::last_with_path;
use crate::sorted::{lemma_insert_sorted_unique, sorted_strict};
use crate::text::{chars_of, join, join_chars, split_chars, split_on, split_words, string_of, views, words};
use crate::words::{normalize, normalize_str};

verus! {

/// The members of a sequence as a set.
pub open spec fn set_of(s: Seq<Seq<char>>) -> Set<Seq<char>> {
    Set::new(|x: Seq<char>| s.contains(x))
}

// ---------------------------------------------------------------------------
// Query text
// ---------------------------------------------------------------------------

/// A query reduced to lower-case ASCII words.
pub fn normalize_for_query(text: &str) -> (r: String)
    ensures
        r@ == normalize(text@),
{
    string_of(&normalize_str(text))
}

/// The words of a normalized query longer than one character.
/// Normalized words are ASCII, so characters count bytes here.
pub open spec fn long_words(ws: Seq<Seq<char>>) -> Seq<Seq<char>>
    decreases ws.len(),
{
    if ws.len() == 0 {
        Seq::empty()
    } else if ws.last().len() > 1 {
        long_words(ws.drop_last()).push(ws.last())
    } else {
        long_words(ws.drop_last())
    }
}

pub open spec fn query_terms(text: Seq<char>) -> Seq<Seq<char>> {
    long_words(words(normalize(text)))
}

pub fn query_terms_exec(text: &str) -> (r: Vec<String>)
    ensures
        string_views(r@) == query_terms(text@),
{
    let n = normalize_str(text);
    let ws = split_words(&n);
    let ghost wv = views(ws@);
    let mut out: Vec<String> = Vec::new();
    let mut i: usize = 0;
    assert(wv.take(0) =~= Seq::<Seq<char>>::empty());
    while i < ws.len()
        invariant
            i <= ws@.len(),
            wv == views(ws@),
            string_views(out@) == long_words(wv.take(i as int)),
        decreases ws@.len() - i,
    {
        assert(wv.take(i + 1).drop_last() =~= wv.take(i as int));
        assert(wv.take(i + 1).last() == ws@[i as int]@);
        if ws[i].len() > 1 {
            let ghost before = string_views(out@);
            let w = string_of(&ws[i]);
            out.push(w);
            assert(string_views(out@) =~= before.push(w@));
        }
        i += 1;
    }
    assert(wv.take(wv.len() as int) =~= wv);
    out
}

// ---------------------------------------------------------------------------
// Candidates
// ---------------------------------------------------------------------------

/// The paths the keyword index gives for each of the words, added to a
/// sorted set.
pub open spec fn keyword_paths(ix: IndexV, acc: Seq<Seq<char>>, ks: Seq<Seq<char>>) -> Seq<Seq<char>>
    decreases ks.len(),
{
    if ks.len() == 0 {
        acc
    } else {
        add_names(keyword_paths(ix, acc, ks.drop_last()), mm_get(ix.keywords, normalize_token(ks.last())))
    }
}

/// The paths of the sections worth scoring: those the index gives for the
/// terms and for the words of the phrase.
pub open spec fn candidate_paths(ix: IndexV, terms: Seq<Seq<char>>, phrase: Seq<char>) -> Seq<Seq<char>> {
    keyword_paths(ix, keyword_paths(ix, Seq::empty(), terms), words(phrase))
}

/// The sections to score: the candidates, or every section when the index
/// offers none.
pub open spec fn sections_to_score(ss: Seq<SectionV>, cands: Seq<Seq<char>>) -> Seq<SectionV> {
    if cands.len() == 0 {
        ss
    } else {
        ss.filter(|s: SectionV| cands.contains(s.path))
    }
}

fn add_all_names(acc: &mut Vec<String>, names: &Vec<String>)
    ensures
        string_views(final(acc)@) == add_names(string_views(old(acc)@), string_views(names@)),
{
    let ghost nv = string_views(names@);
    let ghost a0 = string_views(acc@);
    let mut i: usize = 0;
    assert(nv.take(0) =~= Seq::<Seq<char>>::empty());
    while i < names.len()
        invariant
            i <= names@.len(),
            nv == string_views(names@),
            string_views(acc@) == add_names(a0, nv.take(i as int)),
        decreases names@.len() - i,
    {
        insert_unique_exec(acc, chars_of(names[i].as_str()));
        assert(nv.take(i + 1).drop_last() =~= nv.take(i as int));
        assert(nv.take(i + 1).last() == names@[i as int]@);
        i += 1;
    }
    assert(nv.take(nv.len() as int) =~= nv);
}

fn add_keyword_paths(index: &SectionIndex, acc: &mut Vec<String>, ks: &Vec<String>)
    ensures
        string_views(final(acc)@) == keyword_paths(index@, string_views(old(acc)@), string_views(ks@)),
{
    let ghost kv = string_views(ks@);
    let ghost a0 = string_views(acc@);
    let mut i: usize = 0;
    assert(kv.take(0) =~= Seq::<Seq<char>>::empty());
    while i < ks.len()
        invariant
            i <= ks@.len(),
            kv == string_views(ks@),
            string_views(acc@) == keyword_paths(index@, a0, kv.take(i as int)),
        decreases ks@.len() - i,
    {
        let found = index.keyword(ks[i].as_str());
        add_all_names(acc, &found);
        assert(kv.take(i + 1).drop_last() =~= kv.take(i as int));
        assert(kv.take(i + 1).last() == ks@[i as int]@);
        i += 1;
    }
    assert(kv.take(kv.len() as int) =~= kv);
}

/// The paths worth scoring for a query, by its keyword lookups.
pub fn query_candidate_paths(index: &SectionIndex, terms: &Vec<String>, phrase: &str) -> (r: Vec<String>)
    ensures
        string_views(r@) == candidate_paths(index@, string_views(terms@), phrase@),
{
    let mut acc: Vec<String> = Vec::new();
    assert(string_views(acc@) =~= Seq::<Seq<char>>::empty());
    add_keyword_paths(index, &mut acc, terms);
    let pw = split_words(&chars_of(phrase));
    let mut phrase_words: Vec<String> = Vec::new();
    let mut i: usize = 0;
    while i < pw.len()
        invariant
            i <= pw@.len(),
            string_views(phrase_words@) == views(pw@).take(i as int),
        decreases pw@.len() - i,
    {
        let w = string_of(&pw[i]);
        let ghost before = string_views(phrase_words@);
        phrase_words.push(w);
        assert(string_views(phrase_words@) =~= before.push(w@));
        assert(views(pw@).take(i + 1) =~= views(pw@).take(i as int).push(pw@[i as int]@));
        i += 1;
    }
    assert(views(pw@).take(pw@.len() as int) =~= views(pw@));
    add_keyword_paths(index, &mut acc, &phrase_words);
    acc
}

/// The sections to score for the candidate paths, in document order.
pub fn sections_to_score_exec(document: &RbmemDocument, cands: &Vec<String>) -> (r: Vec<Section>)
    ensures
        section_views(r@) == sections_to_score(document@.sections, string_views(cands@)),
{
    let ghost ss = document@.sections;
    let ghost cv = string_views(cands@);
    let mut out: Vec<Section> = Vec::new();
    let mut i: usize = 0;
    assert(ss.take(0).filter(|s: SectionV| cv.contains(s.path)) =~= Seq::<SectionV>::empty());
    while i < document.sections.len()
        invariant
            i <= document.sections@.len(),
            ss == section_views(document.sections@),
            cv == string_views(cands@),
            cands@.len() == 0 ==> section_views(out@) == ss.take(i as int),
            cands@.len() > 0 ==> section_views(out@) == ss.take(i as int).filter(|s: SectionV| cv.contains(s.path)),
        decreases document.sections@.len() - i,
    {
        let s = &document.sections[i];
        proof {
            reveal_with_fuel(Seq::filter, 1);
            assert(ss.take(i + 1).drop_last() =~= ss.take(i as int));
            assert(ss.take(i + 1).last() == s@);
        }
        let ghost before = section_views(out@);
        if cands.len() == 0 || list_contains_str(cands, s.path.as_str()) {
            out.push(s.duplicate());
            assert(section_views(out@) =~= before.push(s@));
        }
        i += 1;
    }
    assert(ss.take(ss.len() as int) =~= ss);
    out
}

// ---------------------------------------------------------------------------
// Parents and neighbours
// ---------------------------------------------------------------------------

/// The proper prefixes of a path's `.`-separated parts, joined back.
pub open spec fn raw_parent(path: Seq<char>, d: int) -> Seq<char> {
    join(split_on(path, '.').take(d), "."@)
}

fn take_parts(parts: &Vec<Vec<char>>, d: usize) -> (r: Vec<Vec<char>>)
    requires
        d <= parts@.len(),
    ensures
        views(r@) == views(parts@).take(d as int),
{
    let mut out: Vec<Vec<char>> = Vec::new();
    let mut i: usize = 0;
    while i < d
        invariant
            i <= d <= parts@.len(),
            views(out@) == views(parts@).take(i as int),
        decreases d - i,
    {
        let piece = crate::text::copy_range(&parts[i], 0, parts[i].len());
        assert(piece@ =~= parts@[i as int]@);
        let ghost before = out@;
        out.push(piece);
        assert(views(out@) =~= views(before).push(piece@));
        assert(views(parts@).take(i + 1) =~= views(parts@).take(i as int).push(parts@[i as int]@));
        i += 1;
    }
    out
}

/// A parent of a selected path that is a known path.
pub open spec fn known_parent_of(sel: Seq<Seq<char>>, known: Seq<Seq<char>>, y: Seq<char>) -> bool {
    known.contains(y) && exists|p: Seq<char>, d: int|
        #![trigger sel.contains(p), raw_parent(p, d)]
        sel.contains(p) && 1 <= d < split_on(p, '.').len() && y == raw_parent(p, d)
}

/// Adds to a sorted set of paths every known parent of its members.
pub fn include_known_parents(selected: &mut Vec<String>, known: &Vec<String>)
    requires
        sorted_strict(string_views(old(selected)@)),
    ensures
        sorted_strict(string_views(final(selected)@)),
        forall|y: Seq<char>| #[trigger] string_views(final(selected)@).contains(y) <==> (string_views(old(selected)@).contains(y)
            || known_parent_of(string_views(old(selected)@), string_views(known@), y)),
{
    let ghost s0 = string_views(selected@);
    let ghost kv = string_views(known@);
    let matched = crate::text::copy_strings(selected);
    assert(string_views(matched@) == s0);
    let mut i: usize = 0;
    while i < matched.len()
        invariant
            i <= matched@.len(),
            string_views(matched@) == s0,
            kv == string_views(known@),
            sorted_strict(string_views(selected@)),
            forall|y: Seq<char>| #[trigger] string_views(selected@).contains(y) <==> (s0.contains(y)
                || known_parent_of(s0.take(i as int), kv, y)),
        decreases matched@.len() - i,
    {
        let path = matched[i].as_str();
        assert(s0[i as int] == path@);
        let pc = chars_of(path);
        let parts = split_chars(&pc, '.');
        let ghost pv = views(parts@);
        proof {
            crate::text::lemma_split_on_nonempty(path@, '.');
        }
        let mut d: usize = 1;
        while d < parts.len()
            invariant
                1 <= d <= parts@.len(),
                i < matched@.len(),
                pv == views(parts@),
                pv == split_on(path@, '.'),
                path@ == s0[i as int],
                string_views(matched@) == s0,
                kv == string_views(known@),
                sorted_strict(string_views(selected@)),
                forall|y: Seq<char>| #[trigger] string_views(selected@).contains(y) <==> (s0.contains(y)
                    || known_parent_of(s0.take(i as int), kv, y)
                    || (kv.contains(y) && exists|e: int| 1 <= e < d && e < pv.len() && y == #[trigger] raw_parent(path@, e))),
            decreases parts@.len() - d,
        {
            let prefix: Vec<Vec<char>> = take_parts(&parts, d);
            let joined = join_chars(&prefix, &chars_of("."));
            assert(joined@ == raw_parent(path@, d as int));
            let parent = string_of(&joined);
            if list_contains_str(known, parent.as_str()) {
                let ghost before = string_views(selected@);
                insert_unique_exec(selected, joined);
                proof {
                    lemma_insert_sorted_unique(before, parent@);
                }
            }
            proof {
                assert forall|y: Seq<char>| #[trigger] string_views(selected@).contains(y) <==> (s0.contains(y)
                    || known_parent_of(s0.take(i as int), kv, y)
                    || (kv.contains(y) && exists|e: int| 1 <= e < d + 1 && e < pv.len() && y == #[trigger] raw_parent(path@, e))) by {
                    if kv.contains(y) && exists|e: int| 1 <= e < d + 1 && e < pv.len() && y == #[trigger] raw_parent(path@, e) {
                        let e = choose|e: int| 1 <= e < d + 1 && e < pv.len() && y == #[trigger] raw_parent(path@, e);
                        if e == d {
                            assert(y == parent@);
                        }
                    }
                }
            }
            d += 1;
        }
        proof {
            assert forall|y: Seq<char>| #[trigger] string_views(selected@).contains(y) <==> (s0.contains(y)
                || known_parent_of(s0.take(i + 1), kv, y)) by {
                let t = s0.take(i + 1);
                if known_parent_of(t, kv, y) {
                    let (p, e) = choose|p: Seq<char>, e: int|
                        #![trigger t.contains(p), raw_parent(p, e)]
                        t.contains(p) && 1 <= e < split_on(p, '.').len() && y == raw_parent(p, e);
                    let j = choose|j: int| 0 <= j < t.len() && t[j] == p;
                    if j < i {
                        assert(s0.take(i as int)[j] == p);
                        assert(s0.take(i as int).contains(p));
                    } else {
                        assert(p == path@);
                        assert(e < pv.len());
                    }
                }
                if known_parent_of(s0.take(i as int), kv, y) {
                    let (p, e) = choose|p: Seq<char>, e: int|
                        #![trigger s0.take(i as int).contains(p), raw_parent(p, e)]
                        s0.take(i as int).contains(p) && 1 <= e < split_on(p, '.').len() && y == raw_parent(p, e);
                    let j = choose|j: int| 0 <= j < i && s0.take(i as int)[j] == p;
                    assert(t[j] == p);
                    assert(t.contains(p));
                }
                if kv.contains(y) && exists|e: int| 1 <= e < d && e < pv.len() && y == #[trigger] raw_parent(path@, e) {
                    let e = choose|e: int| 1 <= e < d && e < pv.len() && y == #[trigger] raw_parent(path@, e);
                    assert(t[i as int] == path@);
                    assert(t.contains(path@));
                }
            }
        }
        i += 1;
    }
    assert(s0.take(s0.len() as int) =~= s0);
}


/// A node reached within `depth` steps from some member of the set, other
/// than that member.
pub open spec fn related_in(ix: IndexV, sel: Set<Seq<char>>, depth: nat, y: Seq<char>) -> bool {
    exists|p: Seq<char>| #![trigger sel.contains(p), reach(ix.adjacency, ix.paths, p, depth)]
        sel.contains(p) && reach(ix.adjacency, ix.paths, p, depth).contains(y) && y != p
}

/// Adds to a sorted set of paths the sections within `depth` steps of its
/// members.
pub fn include_related(index: &SectionIndex, selected: &mut Vec<String>, depth: usize)
    requires
        sorted_strict(string_views(old(selected)@)),
    ensures
        sorted_strict(string_views(final(selected)@)),
        forall|y: Seq<char>| #[trigger] string_views(final(selected)@).contains(y) <==> (string_views(old(selected)@).contains(y)
            || related_in(index@, set_of(string_views(old(selected)@)), depth as nat, y)),
{
    let ghost s0 = string_views(selected@);
    let ghost ix = index@;
    let snapshot = crate::text::copy_strings(selected);
    assert(string_views(snapshot@) == s0);
    let mut i: usize = 0;
    while i < snapshot.len()
        invariant
            i <= snapshot@.len(),
            string_views(snapshot@) == s0,
            ix == index@,
            sorted_strict(string_views(selected@)),
            forall|y: Seq<char>| #[trigger] string_views(selected@).contains(y) <==> (s0.contains(y)
                || related_in(ix, set_of(s0.take(i as int)), depth as nat, y)),
        decreases snapshot@.len() - i,
    {
        let path = snapshot[i].as_str();
        assert(s0[i as int] == path@);
        let found = index.related(path, depth);
        let ghost fv = string_views(found@);
        let ghost before = string_views(selected@);
        let mut k: usize = 0;
        while k < found.len()
            invariant
                k <= found@.len(),
                fv == string_views(found@),
                sorted_strict(string_views(selected@)),
                forall|y: Seq<char>| #[trigger] string_views(selected@).contains(y) <==> (before.contains(y) || fv.take(k as int).contains(y)),
            decreases found@.len() - k,
        {
            let ghost b = string_views(selected@);
            insert_unique_exec(selected, chars_of(found[k].as_str()));
            proof {
                lemma_insert_sorted_unique(b, found@[k as int]@);
                assert(fv.take(k + 1) =~= fv.take(k as int).push(fv[k as int]));
                assert forall|y: Seq<char>| #[trigger] string_views(selected@).contains(y) <==> (before.contains(y) || fv.take(k + 1).contains(y)) by {
                    if fv.take(k + 1).contains(y) {
                        let j = choose|j: int| 0 <= j < k + 1 && #[trigger] fv.take(k + 1)[j] == y;
                        if j < k {
                            assert(fv.take(k as int)[j] == y);
                        }
                    }
                    if fv.take(k as int).contains(y) {
                        let j = choose|j: int| 0 <= j < k && #[trigger] fv.take(k as int)[j] == y;
                        assert(fv.take(k + 1)[j] == y);
                    }
                    if y == fv[k as int] {
                        assert(fv.take(k + 1)[k as int] == y);
                    }
                }
            }
            k += 1;
        }
        assert(fv.take(fv.len() as int) =~= fv);
        proof {
            assert forall|y: Seq<char>| #[trigger] string_views(selected@).contains(y) <==> (s0.contains(y)
                || related_in(ix, set_of(s0.take(i + 1)), depth as nat, y)) by {
                let t = s0.take(i + 1);
                if related_in(ix, set_of(t), depth as nat, y) {
                    let p = choose|p: Seq<char>| #![trigger set_of(t).contains(p), reach(ix.adjacency, ix.paths, p, depth as nat)]
                        set_of(t).contains(p) && reach(ix.adjacency, ix.paths, p, depth as nat).contains(y) && y != p;
                    let j = choose|j: int| 0 <= j < t.len() && t[j] == p;
                    if j < i {
                        assert(s0.take(i as int)[j] == p);
                        assert(set_of(s0.take(i as int)).contains(p));
                    } else {
                        assert(p == path@);
                        assert(fv.contains(y));
                    }
                }
                if related_in(ix, set_of(s0.take(i as int)), depth as nat, y) {
                    let p = choose|p: Seq<char>| #![trigger set_of(s0.take(i as int)).contains(p), reach(ix.adjacency, ix.paths, p, depth as nat)]
                        set_of(s0.take(i as int)).contains(p) && reach(ix.adjacency, ix.paths, p, depth as nat).contains(y) && y != p;
                    let j = choose|j: int| 0 <= j < i && s0.take(i as int)[j] == p;
                    assert(t[j] == p);
                    assert(set_of(t).contains(p));
                }
                if fv.contains(y) {
                    assert(t[i as int] == path@);
                    assert(set_of(t).contains(path@));
                }
            }
        }
        i += 1;
    }
    assert(s0.take(s0.len() as int) =~= s0);
}

pub(crate) proof fn lemma_add_names_members(acc: Seq<Seq<char>>, names: Seq<Seq<char>>)
    requires
        sorted_strict(acc),
    ensures
        sorted_strict(add_names(acc, names)),
        forall|y: Seq<char>| #[trigger] add_names(acc, names).contains(y) <==> (acc.contains(y) || names.contains(y)),
    decreases names.len(),
{
    if names.len() > 0 {
        let front = names.drop_last();
        lemma_add_names_members(acc, front);
        lemma_insert_sorted_unique(add_names(acc, front), names.last());
        assert(names =~= front.push(names.last()));
        assert forall|y: Seq<char>| #[trigger] add_names(acc, names).contains(y) <==> (acc.contains(y) || names.contains(y)) by {
            if names.contains(y) {
                let j = choose|j: int| 0 <= j < names.len() && names[j] == y;
                if j < front.len() {
                    assert(front[j] == y);
                }
            }
            if front.contains(y) {
                let j = choose|j: int| 0 <= j < front.len() && front[j] == y;
                assert(names[j] == y);
            }
        }
    }
}

/// The members of the matched paths, with their known parents when asked
/// for.
pub open spec fn with_parents(matched: Seq<Seq<char>>, known: Seq<Seq<char>>, include_parents: bool) -> Set<Seq<char>> {
    Set::new(|y: Seq<char>| matched.contains(y) || (include_parents && known_parent_of(matched, known, y)))
}

proof fn lemma_known_parent_members(a: Seq<Seq<char>>, b: Seq<Seq<char>>, known: Seq<Seq<char>>, y: Seq<char>)
    requires
        forall|x: Seq<char>| #[trigger] a.contains(x) <==> b.contains(x),
    ensures
        known_parent_of(a, known, y) <==> known_parent_of(b, known, y),
{
    if known_parent_of(a, known, y) {
        let (p, d) = choose|p: Seq<char>, d: int| #![trigger a.contains(p), raw_parent(p, d)]
            a.contains(p) && 1 <= d < split_on(p, '.').len() && y == raw_parent(p, d);
        assert(b.contains(p));
    }
    if known_parent_of(b, known, y) {
        let (p, d) = choose|p: Seq<char>, d: int| #![trigger b.contains(p), raw_parent(p, d)]
            b.contains(p) && 1 <= d < split_on(p, '.').len() && y == raw_parent(p, d);
        assert(a.contains(p));
    }
}

/// The paths a query selects before any budget: the matched paths, their
/// parents that are sections when asked for, and the sections within
/// `graph_depth` steps of those; this comes between scoring and the
/// budget.
pub fn select_query_paths(index: &SectionIndex, matched: &Vec<String>, include_parents: bool, graph_depth: usize) -> (r: Vec<String>)
    ensures
        sorted_strict(string_views(r@)),
        forall|y: Seq<char>| #[trigger] string_views(r@).contains(y) <==> (with_parents(string_views(matched@), index@.paths, include_parents).contains(y)
            || related_in(index@, with_parents(string_views(matched@), index@.paths, include_parents), graph_depth as nat, y)),
{
    let ghost mv = string_views(matched@);
    let ghost wp = with_parents(mv, index@.paths, include_parents);
    let mut selected: Vec<String> = Vec::new();
    assert(string_views(selected@) =~= Seq::<Seq<char>>::empty());
    add_all_names(&mut selected, matched);
    proof {
        lemma_add_names_members(Seq::empty(), mv);
    }
    let ghost s0 = string_views(selected@);
    if include_parents {
        include_known_parents(&mut selected, &index.paths);
    }
    let ghost s1 = string_views(selected@);
    assert(set_of(s1) =~= wp) by {
        assert forall|y: Seq<char>| #[trigger] set_of(s1).contains(y) <==> wp.contains(y) by {
            lemma_known_parent_members(s0, mv, index@.paths, y);
        }
    }
    include_related(index, &mut selected, graph_depth);
    selected
}


// ---------------------------------------------------------------------------
// Token budget
// ---------------------------------------------------------------------------

/// The first section with the path.
pub open spec fn first_with_path(ss: Seq<SectionV>, p: Seq<char>) -> Option<SectionV>
    decreases ss.len(),
{
    if ss.len() == 0 {
        None
    } else if ss[0].path == p {
        Some(ss[0])
    } else {
        first_with_path(ss.drop_first(), p)
    }
}

/// The token estimate of a section: a quarter of its content's UTF-8
/// length, at least one; one where there is no section.
pub open spec fn tokens_of(s: Option<SectionV>) -> nat {
    match s {
        Some(x) => {
            let q = (vstd::utf8::encode_utf8(x.content).len() as usize) / 4;
            if q == 0 { 1 } else { q as nat }
        },
        None => 1,
    }
}

/// The section a path's tokens are counted on: the first with it, or the
/// last.
pub open spec fn counted_section(ss: Seq<SectionV>, p: Seq<char>, first: bool) -> Option<SectionV> {
    if first { first_with_path(ss, p) } else { last_with_path(ss, p) }
}

/// Walking the ranking: the tokens used, how many were taken, and whether
/// the walk stopped. The first path is always taken; a later one stops the
/// walk when it would go over the budget.
pub open spec fn budget_walk(toks: Seq<nat>, max: nat) -> (nat, nat, bool)
    decreases toks.len(),
{
    if toks.len() == 0 {
        (0, 0, false)
    } else {
        let (used, count, stopped) = budget_walk(toks.drop_last(), max);
        if stopped || (used + toks.last() > max && count > 0) {
            (used, count, true)
        } else {
            (used + toks.last(), count + 1, false)
        }
    }
}

pub open spec fn ranked_tokens(ss: Seq<SectionV>, ranked: Seq<Seq<char>>, first: bool) -> Seq<nat> {
    ranked.map_values(|p: Seq<char>| tokens_of(counted_section(ss, p, first)))
}

/// The paths kept under a budget, as a sorted set: the leading paths of the
/// ranking whose tokens fit.
pub open spec fn budget_selection(ss: Seq<SectionV>, ranked: Seq<Seq<char>>, max: nat, first: bool) -> Seq<Seq<char>> {
    add_names(Seq::empty(), ranked.take(budget_walk(ranked_tokens(ss, ranked, first), max).1 as int))
}

proof fn lemma_budget_walk(toks: Seq<nat>, max: nat)
    ensures
        budget_walk(toks, max).1 <= toks.len(),
        budget_walk(toks, max).1 > 1 ==> budget_walk(toks, max).0 <= max,
    decreases toks.len(),
{
    if toks.len() > 0 {
        lemma_budget_walk(toks.drop_last(), max);
    }
}

fn section_for_tokens(sections: &Vec<Section>, p: &str, first: bool) -> (r: Option<usize>)
    ensures
        match r {
            Some(j) => j < sections@.len() && counted_section(section_views(sections@), p@, first) == Some(sections@[j as int]@),
            None => counted_section(section_views(sections@), p@, first) is None,
        },
{
    if !first {
        return crate::diff::last_section_with_path(sections, p);
    }
    let ghost ss = section_views(sections@);
    let mut j: usize = 0;
    assert(ss.skip(0) =~= ss);
    while j < sections.len()
        invariant
            j <= sections@.len(),
            ss == section_views(sections@),
            first,
            first_with_path(ss, p@) == first_with_path(ss.skip(j as int), p@),
        decreases sections@.len() - j,
    {
        assert(ss.skip(j as int)[0] == sections@[j as int]@);
        if str_eq_path(&sections[j], p) {
            assert(first_with_path(ss.skip(j as int), p@) == Some(sections@[j as int]@));
            return Some(j);
        }
        assert(ss.skip(j as int).drop_first() =~= ss.skip(j + 1));
        j += 1;
    }
    assert(ss.skip(j as int).len() == 0);
    None
}

fn str_eq_path(s: &Section, p: &str) -> (r: bool)
    ensures
        r == (s@.path == p@),
{
    crate::text::str_eq(s.path.as_str(), p)
}

/// Keeps the leading paths of a ranking while their tokens fit the budget;
/// the first is kept whatever its size. Tokens
/// are counted on the first section with a path where `first` is set, else
/// on the last.
pub fn truncate_to_token_budget(document: &RbmemDocument, ranked: &Vec<String>, max_tokens: usize, first: bool) -> (r: Vec<String>)
    ensures
        string_views(r@) == budget_selection(document@.sections, string_views(ranked@), max_tokens as nat, first),
{
    let ghost ss = document@.sections;
    let ghost rv = string_views(ranked@);
    let ghost toks = ranked_tokens(ss, rv, first);
    let mut used: usize = 0;
    let mut count: usize = 0;
    let mut i: usize = 0;
    assert(toks.take(0) =~= Seq::<nat>::empty());
    assert(toks.take(toks.len() as int) =~= toks);
    while i < ranked.len()
        invariant_except_break
            i <= ranked@.len(),
            toks.take(toks.len() as int) == toks,
            ss == document@.sections,
            rv == string_views(ranked@),
            toks == ranked_tokens(ss, rv, first),
            toks.len() == rv.len(),
            count == i,
            budget_walk(toks.take(i as int), max_tokens as nat) == (used as nat, count as nat, false),
        ensures
            budget_walk(toks, max_tokens as nat).1 == count,
            count <= ranked@.len(),
        decreases ranked@.len() - i,
    {
        let p = ranked[i].as_str();
        assert(rv[i as int] == p@);
        let tokens: usize = match section_for_tokens(&document.sections, p, first) {
            Some(j) => {
                let q = document.sections[j].content.as_str().len() / 4;
                if q == 0 { 1 } else { q }
            },
            None => 1,
        };
        assert(tokens as nat == toks[i as int]);
        assert(toks.take(i + 1).drop_last() =~= toks.take(i as int));
        assert(toks.take(i + 1).last() == toks[i as int]);
        let over = if used > max_tokens { true } else { tokens > max_tokens - used };
        if over && count > 0 {
            proof {
                lemma_budget_stops(toks, max_tokens as nat, i as int + 1);
            }
            break;
        }
        proof {
            lemma_budget_walk(toks.take(i as int), max_tokens as nat);
        }
        used = if over { tokens } else { used + tokens };
        count += 1;
        i += 1;
    }
    proof {
        if i == ranked@.len() {
            assert(toks.take(i as int) =~= toks);
        }
    }
    let mut out: Vec<String> = Vec::new();
    assert(string_views(out@) =~= Seq::<Seq<char>>::empty());
    let mut k: usize = 0;
    assert(rv.take(0) =~= Seq::<Seq<char>>::empty());
    while k < count
        invariant
            k <= count <= ranked@.len(),
            rv == string_views(ranked@),
            string_views(out@) == add_names(Seq::empty(), rv.take(k as int)),
        decreases count - k,
    {
        insert_unique_exec(&mut out, chars_of(ranked[k].as_str()));
        assert(rv.take(k + 1).drop_last() =~= rv.take(k as int));
        assert(rv.take(k + 1).last() == ranked@[k as int]@);
        k += 1;
    }
    out
}

proof fn lemma_budget_stops(toks: Seq<nat>, max: nat, k: int)
    requires
        0 < k <= toks.len(),
        budget_walk(toks.take(k), max).2,
    ensures
        budget_walk(toks, max) == budget_walk(toks.take(k), max),
    decreases toks.len() - k,
{
    if k < toks.len() {
        assert(toks.take(k + 1).drop_last() =~= toks.take(k));
        lemma_budget_stops(toks, max, k + 1);
    } else {
        assert(toks.take(k) =~= toks);
    }
}

// ---------------------------------------------------------------------------
// The selected sub-document
// ---------------------------------------------------------------------------

/// The document with only the sections whose path was selected.
pub open spec fn subset_of(d: crate::document::DocumentV, sel: Seq<Seq<char>>) -> crate::document::DocumentV {
    crate::document::DocumentV { sections: d.sections.filter(|s: SectionV| sel.contains(s.path)), ..d }
}

pub fn subset_document(document: &RbmemDocument, selected: &Vec<String>) -> (r: RbmemDocument)
    ensures
        r@ == subset_of(document@, string_views(selected@)),
{
    let ghost ss = document@.sections;
    let ghost sv = string_views(selected@);
    let mut out: Vec<Section> = Vec::new();
    let mut i: usize = 0;
    assert(ss.take(0).filter(|s: SectionV| sv.contains(s.path)) =~= Seq::<SectionV>::empty());
    while i < document.sections.len()
        invariant
            i <= document.sections@.len(),
            ss == section_views(document.sections@),
            sv == string_views(selected@),
            section_views(out@) == ss.take(i as int).filter(|s: SectionV| sv.contains(s.path)),
        decreases document.sections@.len() - i,
    {
        let s = &document.sections[i];
        proof {
            reveal_with_fuel(Seq::filter, 1);
            assert(ss.take(i + 1).drop_last() =~= ss.take(i as int));
            assert(ss.take(i + 1).last() == s@);
        }
        if list_contains_str(selected, s.path.as_str()) {
            let ghost before = section_views(out@);
            out.push(s.duplicate());
            assert(section_views(out@) =~= before.push(s@));
        }
        i += 1;
    }
    assert(ss.take(ss.len() as int) =~= ss);
    RbmemDocument { meta: document.meta.duplicate(), sections: out, warnings: crate::text::copy_strings(&document.warnings) }
}

/// The selected sections that have not expired at `now`, in document order:
/// context assembly leaves expired sections out.
pub open spec fn current_subset_of(d: crate::document::DocumentV, sel: Seq<Seq<char>>, now: Timestamp) -> crate::document::DocumentV {
    crate::document::DocumentV { sections: unexpired(subset_of(d, sel).sections, now), ..d }
}

pub fn subset_current_document(document: &RbmemDocument, selected: &Vec<String>, now: Timestamp) -> (r: RbmemDocument)
    ensures
        r@ == current_subset_of(document@, string_views(selected@), now),
{
    let ghost ss = document@.sections;
    let ghost sv = string_views(selected@);
    let mut out: Vec<Section> = Vec::new();
    let mut i: usize = 0;
    assert(ss.take(0).filter(|s: SectionV| sv.contains(s.path)) =~= Seq::<SectionV>::empty());
    while i < document.sections.len()
        invariant
            i <= document.sections@.len(),
            ss == section_views(document.sections@),
            sv == string_views(selected@),
            section_views(out@) == unexpired(ss.take(i as int).filter(|s: SectionV| sv.contains(s.path)), now),
        decreases document.sections@.len() - i,
    {
        let s = &document.sections[i];
        let ghost x = ss.take(i as int).filter(|s: SectionV| sv.contains(s.path));
        proof {
            reveal_with_fuel(Seq::filter, 1);
            assert(ss.take(i + 1).drop_last() =~= ss.take(i as int));
            assert(ss.take(i + 1).last() == s@);
        }
        if list_contains_str(selected, s.path.as_str()) {
            assert(x.push(s@).drop_last() =~= x);
            if !s.temporal.is_expired(now) {
                let ghost before = section_views(out@);
                out.push(s.duplicate());
                assert(section_views(out@) =~= before.push(s@));
            }
        }
        i += 1;
    }
    assert(ss.take(ss.len() as int) =~= ss);
    RbmemDocument { meta: document.meta.duplicate(), sections: out, warnings: crate::text::copy_strings(&document.warnings) }
}

} // verus!
