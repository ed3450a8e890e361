//! Context packs: named selections of a document kept in `.rbmempacks`
//! (paths to include, a query, a graph depth, a mode and a budget), and the
//! sub-document a pack selects.
use vstd::prelude::*;
use crate::contexts::insert_unique_exec;
use crate::document::{parse_compact_mode, section_views, CompactMode, DocumentV, RbmemDocument, RbmemError, SectionV};
use crate::graph::{add_names, edge_views, graph_of, GraphEdgeV};
use crate::index::list_contains_str;
use crate::plan::string_views;
use crate::query::{
    budget_selection, include_known_parents, known_parent_of, set_of, subset_document, subset_of,
    truncate_to_token_budget,
};
use crate::scalar::{all_digits, digits_value, is_digit, trim_matches, trim_matches_chars};
use crate::sorted::{lemma_insert_sorted_unique, sorted_strict};
use crate::text::{
    chars_eq, chars_of, ends_with_chars, lines, lower_seq, split_lines, split_once, split_once_chars, starts_with_chars,
    str_eq, string_of, trim, trimmed, views,
};

verus! {

/// A named selection of a document.
#[derive(Debug, Clone)]
pub struct PackConfig {
    pub name: String,
    pub includes: Vec<String>,
    pub query: Option<String>,
    pub graph_depth: usize,
    pub mode: Option<CompactMode>,
    pub max_tokens: Option<usize>,
}

pub struct PackConfigV {
    pub name: Seq<char>,
    pub includes: Seq<Seq<char>>,
    pub query: Option<Seq<char>>,
    pub graph_depth: usize,
    pub mode: Option<CompactMode>,
    pub max_tokens: Option<usize>,
}

impl View for PackConfig {
    type V = PackConfigV;

    open spec fn view(&self) -> PackConfigV {
        PackConfigV {
            name: self.name@,
            includes: string_views(self.includes@),
            query: self.query.deep_view(),
            graph_depth: self.graph_depth,
            mode: self.mode,
            max_tokens: self.max_tokens,
        }
    }
}

// ---------------------------------------------------------------------------
// Numbers
// ---------------------------------------------------------------------------

/// `usize::from_str`: an optional `+`, then one or more digits, in range.
pub open spec fn parse_usize_text(s: Seq<char>) -> Option<usize> {
    let body = if s.len() > 0 && s[0] == '+' { s.drop_first() } else { s };
    if body.len() == 0 || !all_digits(body) || digits_value(body) > usize::MAX {
        None
    } else {
        Some(digits_value(body) as usize)
    }
}

proof fn lemma_digits_step(s: Seq<char>, i: int)
    requires
        0 <= i < s.len(),
    ensures
        digits_value(s.take(i + 1)) == digits_value(s.take(i)) * 10 + crate::scalar::digit_value(s[i]),
{
    assert(s.take(i + 1).drop_last() =~= s.take(i));
}

proof fn lemma_digits_grow(s: Seq<char>, i: int)
    requires
        0 <= i <= s.len(),
    ensures
        digits_value(s.take(i)) <= digits_value(s),
    decreases s.len() - i,
{
    if i < s.len() {
        lemma_digits_grow(s, i + 1);
        lemma_digits_step(s, i);
    } else {
        assert(s.take(i) =~= s);
    }
}

pub fn parse_usize(text: &[char]) -> (r: Option<usize>)
    ensures
        r == parse_usize_text(text@),
{
    let start: usize = if text.len() > 0 && text[0] == '+' { 1 } else { 0 };
    let ghost body = if text@.len() > 0 && text@[0] == '+' { text@.drop_first() } else { text@ };
    assert(body =~= text@.subrange(start as int, text@.len() as int));
    if start == text.len() {
        return None;
    }
    let mut value: usize = 0;
    let mut i: usize = start;
    assert(body.take(0) =~= Seq::<char>::empty());
    while i < text.len()
        invariant
            start <= i <= text@.len(),
            body == text@.subrange(start as int, text@.len() as int),
            body == (if text@.len() > 0 && text@[0] == '+' { text@.drop_first() } else { text@ }),
            body.len() > 0,
            forall|j: int| 0 <= j < i - start ==> is_digit(body[j]),
            value as nat == digits_value(body.take(i - start)),
        decreases text@.len() - i,
    {
        let c = text[i];
        assert(body[i - start] == c);
        if !('0' <= c && c <= '9') {
            assert(!is_digit(body[i - start]));
            assert(!all_digits(body));
            return None;
        }
        let d = (c as u32 - 48) as usize;
        proof {
            lemma_digits_step(body, i - start);
        }
        if value > (usize::MAX - d) / 10 {
            proof {
                lemma_digits_grow(body, i - start + 1);
                assert(digits_value(body.take(i - start + 1)) == value * 10 + d);
                assert(value * 10 + d > usize::MAX) by (nonlinear_arith)
                    requires
                        value > (usize::MAX - d) / 10,
                        d <= 9,
                ;
                if all_digits(body) {
                    assert(digits_value(body) > usize::MAX);
                }
                assert(parse_usize_text(text@) is None);
            }
            return None;
        }
        value = value * 10 + d;
        i += 1;
    }
    assert(body.take(body.len() as int) =~= body);
    Some(value)
}

// ---------------------------------------------------------------------------
// `.rbmempacks`
// ---------------------------------------------------------------------------

pub open spec fn empty_pack(name: Seq<char>) -> PackConfigV {
    PackConfigV { name, includes: Seq::empty(), query: None, graph_depth: 0, mode: None, max_tokens: None }
}

/// The scanner's state: the pack being read (if any), whether an `include:`
/// list is open, and the outcome once it is settled.
pub struct PackScan {
    pub current: Option<PackConfigV>,
    pub in_include: bool,
    pub done: Option<Result<PackConfigV, Seq<char>>>,
}

/// The name in a `[pack: name]` header.
pub open spec fn pack_header(t: Seq<char>) -> Option<Seq<char>> {
    if "[pack:"@.is_prefix_of(t) && t.len() >= "[pack:"@.len() + 1 && t.last() == ']' {
        Some(t.subrange("[pack:"@.len() as int, t.len() - 1))
    } else {
        None
    }
}

pub open spec fn pack_value(v: Seq<char>) -> Seq<char> {
    trim_matches(trim_matches(trim(v), '"'), '\'')
}

/// One line of `.rbmempacks` read while looking for the named pack.
pub open spec fn pack_line(st: PackScan, line: Seq<char>, name: Seq<char>) -> PackScan {
    let t = trim(line);
    if t.len() == 0 || t[0] == '#' {
        st
    } else {
        match pack_header(t) {
            Some(pack_name) => {
                let fresh = PackScan { current: Some(empty_pack(trim(pack_name))), in_include: false, done: None };
                match st.current {
                    Some(p) => if p.name == name { PackScan { done: Some(Ok(p)), ..st } } else { fresh },
                    None => fresh,
                }
            },
            None => match st.current {
                None => st,
                Some(p) => if p.name != name {
                    st
                } else if t == "include:"@ {
                    PackScan { in_include: true, ..st }
                } else if st.in_include && "- "@.is_prefix_of(t) {
                    PackScan { current: Some(PackConfigV { includes: p.includes.push(trim(t.skip(2))), ..p }), ..st }
                } else {
                    match split_once(t, seq![':']) {
                        None => PackScan { in_include: false, ..st },
                        Some((k, v)) => {
                            let key = trim(k);
                            let value = pack_value(v);
                            let next = if key == "query"@ || key == "task"@ {
                                Ok(PackConfigV { query: Some(value), ..p })
                            } else if key == "graph_depth"@ {
                                Ok(PackConfigV { graph_depth: match parse_usize_text(value) { Some(d) => d, None => 0 }, ..p })
                            } else if key == "mode"@ {
                                match parse_compact_mode(value) {
                                    Some(m) => Ok(PackConfigV { mode: Some(m), ..p }),
                                    None => Err("invalid compact mode: "@ + lower_seq(trim(value))),
                                }
                            } else if key == "max_tokens"@ {
                                Ok(PackConfigV { max_tokens: parse_usize_text(value), ..p })
                            } else {
                                Ok(p)
                            };
                            match next {
                                Ok(q) => PackScan { current: Some(q), in_include: false, done: None },
                                Err(e) => PackScan { current: Some(p), in_include: false, done: Some(Err(e)) },
                            }
                        },
                    }
                }
            },
        }
    }
}

pub open spec fn pack_scan(ls: Seq<Seq<char>>, name: Seq<char>) -> PackScan
    decreases ls.len(),
{
    if ls.len() == 0 {
        PackScan { current: None, in_include: false, done: None }
    } else {
        let st = pack_scan(ls.drop_last(), name);
        if st.done is Some {
            st
        } else {
            pack_line(st, ls.last(), name)
        }
    }
}

/// The named pack of a `.rbmempacks` text, or the error met reading it.
pub open spec fn parse_pack(text: Seq<char>, name: Seq<char>) -> Result<PackConfigV, Seq<char>> {
    let st = pack_scan(lines(text), name);
    match st.done {
        Some(r) => r,
        None => match st.current {
            Some(p) => if p.name == name { Ok(p) } else { Err("pack '"@ + name + "' not found"@) },
            None => Err("pack '"@ + name + "' not found"@),
        },
    }
}

fn empty_pack_exec(name: Vec<char>) -> (p: PackConfig)
    ensures
        p@ == empty_pack(name@),
{
    let p = PackConfig { name: string_of(&name), includes: Vec::new(), query: None, graph_depth: 0, mode: None, max_tokens: None };
    assert(p@.includes =~= Seq::<Seq<char>>::empty());
    p
}

fn dup_pack(p: &PackConfig) -> (r: PackConfig)
    ensures
        r@ == p@,
{
    PackConfig {
        name: p.name.clone(),
        includes: crate::text::copy_strings(&p.includes),
        query: crate::document::dup_opt_string(&p.query),
        graph_depth: p.graph_depth,
        mode: p.mode,
        max_tokens: p.max_tokens,
    }
}

fn pack_header_exec(t: &Vec<char>) -> (r: Option<Vec<char>>)
    ensures
        match r {
            Some(v) => pack_header(t@) == Some(v@),
            None => pack_header(t@) is None,
        },
{
    let prefix = chars_of("[pack:");
    proof {
        reveal_strlit("[pack:");
    }
    if starts_with_chars(t, &prefix) && t.len() >= 7 && t[t.len() - 1] == ']' {
        Some(crate::text::copy_range(t, 6, t.len() - 1))
    } else {
        None
    }
}

/// Reads the named pack from a `.rbmempacks` text.
pub fn parse_pack_config(text: &str, name: &str) -> (r: Result<PackConfig, RbmemError>)
    ensures
        match (r, parse_pack(text@, name@)) {
            (Ok(p), Ok(q)) => p@ == q,
            (Err(e), Err(m)) => e is Parse && e->Parse_0@ == m,
            _ => false,
        },
{
    let ls = split_lines(&chars_of(text));
    let ghost lv = views(ls@);
    let mut have = false;
    let mut pack = empty_pack_exec(Vec::new());
    let mut in_include = false;
    let mut i: usize = 0;
    assert(lv.take(0) =~= Seq::<Seq<char>>::empty());
    while i < ls.len()
        invariant
            i <= ls@.len(),
            lv == views(ls@),
            lv == lines(text@),
            pack_scan(lv.take(i as int), name@) == (PackScan {
                current: if have { Some(pack@) } else { None },
                in_include,
                done: None,
            }),
        decreases ls@.len() - i,
    {
        assert(lv.take(i + 1).drop_last() =~= lv.take(i as int));
        assert(lv.take(i + 1).last() == ls@[i as int]@);
        let ghost st = pack_scan(lv.take(i as int), name@);
        let t = trimmed(&ls[i]);
        if t.len() == 0 || t[0] == '#' {
            i += 1;
            continue;
        }
        match pack_header_exec(&t) {
            Some(pack_name) => {
                if have && str_eq(pack.name.as_str(), name) {
                    proof {
                        lemma_pack_scan_stops(lv, name@, i as int + 1);
                    }
                    return Ok(pack);
                }
                pack = empty_pack_exec(trimmed(&pack_name));
                have = true;
                in_include = false;
                i += 1;
                continue;
            },
            None => {},
        }
        if !have || !str_eq(pack.name.as_str(), name) {
            i += 1;
            continue;
        }
        if chars_eq(&t, &chars_of("include:")) {
            in_include = true;
            i += 1;
            continue;
        }
        let dash = chars_of("- ");
        proof {
            reveal_strlit("- ");
        }
        if in_include && starts_with_chars(&t, &dash) {
            let rest = crate::text::copy_range(&t, 2, t.len());
            assert(rest@ =~= t@.skip(2));
            let item = trimmed(&rest);
            let ghost before = string_views(pack.includes@);
            pack.includes.push(string_of(&item));
            assert(string_views(pack.includes@) =~= before.push(item@));
            i += 1;
            continue;
        }
        in_include = false;
        let colon = chars_of(":");
        proof {
            reveal_strlit(":");
            assert(colon@ =~= seq![':']);
        }
        match split_once_chars(&t, &colon) {
            None => {},
            Some((k, v)) => {
                let key = trimmed(&k);
                let value = trim_matches_chars(&trim_matches_chars(&trimmed(&v), '"'), '\'');
                if chars_eq(&key, &chars_of("query")) || chars_eq(&key, &chars_of("task")) {
                    pack.query = Some(string_of(&value));
                } else if chars_eq(&key, &chars_of("graph_depth")) {
                    pack.graph_depth = match parse_usize(&value) {
                        Some(d) => d,
                        None => 0,
                    };
                } else if chars_eq(&key, &chars_of("mode")) {
                    match CompactMode::from_str(string_of(&value).as_str()) {
                        Ok(m) => {
                            pack.mode = Some(m);
                        },
                        Err(e) => {
                            proof {
                                lemma_pack_scan_stops(lv, name@, i as int + 1);
                            }
                            return Err(e);
                        },
                    }
                } else if chars_eq(&key, &chars_of("max_tokens")) {
                    pack.max_tokens = parse_usize(&value);
                }
            },
        }
        i += 1;
    }
    assert(lv.take(lv.len() as int) =~= lv);
    if have && str_eq(pack.name.as_str(), name) {
        Ok(pack)
    } else {
        let mut msg = String::new();
        msg.push_str("pack '");
        msg.push_str(name);
        msg.push_str("' not found");
        Err(RbmemError::Parse(msg))
    }
}

proof fn lemma_pack_scan_stops(ls: Seq<Seq<char>>, name: Seq<char>, k: int)
    requires
        0 < k <= ls.len(),
        pack_scan(ls.take(k), name).done is Some,
    ensures
        pack_scan(ls, name) == pack_scan(ls.take(k), name),
    decreases ls.len() - k,
{
    if k < ls.len() {
        assert(ls.take(k + 1).drop_last() =~= ls.take(k));
        lemma_pack_scan_stops(ls, name, k + 1);
    } else {
        assert(ls.take(k) =~= ls);
    }
}


// ---------------------------------------------------------------------------
// What a pack selects
// ---------------------------------------------------------------------------

/// A section path the pack names: equal to an entry or under it.
pub open spec fn pack_named(ss: Seq<SectionV>, entries: Seq<Seq<char>>, y: Seq<char>) -> bool {
    exists|i: int, j: int| #![trigger entries[i], ss[j]]
        0 <= i < entries.len() && 0 <= j < ss.len() && ss[j].path == y && (y == entries[i] || (entries[i] + "."@).is_prefix_of(y))
}

/// The paths of the sections.
pub open spec fn known_set(ss: Seq<SectionV>) -> Set<Seq<char>> {
    Set::new(|y: Seq<char>| exists|j: int| 0 <= j < ss.len() && #[trigger] ss[j].path == y)
}

/// The ends of edges that touch the frontier and lead to a known path, in
/// either direction.
pub open spec fn neighbours(es: Seq<GraphEdgeV>, known: Set<Seq<char>>, frontier: Set<Seq<char>>) -> Set<Seq<char>> {
    Set::new(|y: Seq<char>| exists|i: int| 0 <= i < es.len() && {
        ||| (frontier.contains(#[trigger] es[i].from) && known.contains(es[i].to) && y == es[i].to)
        ||| (frontier.contains(es[i].to) && known.contains(es[i].from) && y == es[i].from)
    })
}

/// Growing a selection along the edges, at most `k` rounds, stopping when a
/// round adds nothing.
pub open spec fn grow(es: Seq<GraphEdgeV>, known: Set<Seq<char>>, sel: Set<Seq<char>>, frontier: Set<Seq<char>>, k: nat) -> Set<Seq<char>>
    decreases k,
{
    if k == 0 {
        sel
    } else {
        let next = neighbours(es, known, frontier);
        if next.subset_of(sel) {
            sel
        } else {
            grow(es, known, sel.union(next), next, (k - 1) as nat)
        }
    }
}

/// The selection with its graph neighbours within `depth` rounds.
pub open spec fn with_neighbours(ss: Seq<SectionV>, sel: Set<Seq<char>>, depth: nat) -> Set<Seq<char>> {
    if depth == 0 || sel.len() == 0 {
        sel
    } else {
        grow(graph_of(ss).edges, known_set(ss), sel, sel, depth)
    }
}

fn section_paths_vec(document: &RbmemDocument) -> (r: Vec<String>)
    ensures
        set_of(string_views(r@)) == known_set(document@.sections),
{
    let ghost ss = document@.sections;
    let mut out: Vec<String> = Vec::new();
    let mut i: usize = 0;
    while i < document.sections.len()
        invariant
            i <= document.sections@.len(),
            ss == section_views(document.sections@),
            string_views(out@) == ss.take(i as int).map_values(|s: SectionV| s.path),
        decreases document.sections@.len() - i,
    {
        let ghost before = string_views(out@);
        out.push(document.sections[i].path.clone());
        assert(string_views(out@) =~= before.push(ss[i as int].path));
        assert(ss.take(i + 1).map_values(|s: SectionV| s.path) =~= ss.take(i as int).map_values(|s: SectionV| s.path).push(ss[i as int].path));
        i += 1;
    }
    assert(ss.take(ss.len() as int) =~= ss);
    let ghost ps = ss.map_values(|s: SectionV| s.path);
    assert forall|y: Seq<char>| #[trigger] set_of(ps).contains(y) <==> known_set(ss).contains(y) by {
        if ps.contains(y) {
            let j = choose|j: int| 0 <= j < ps.len() && ps[j] == y;
            assert(ss[j].path == y);
        }
        if known_set(ss).contains(y) {
            let j = choose|j: int| 0 <= j < ss.len() && #[trigger] ss[j].path == y;
            assert(ps[j] == y);
        }
    }
    assert(set_of(ps) =~= known_set(ss));
    out
}

fn insert_member(sel: &mut Vec<String>, x: &str)
    requires
        sorted_strict(string_views(old(sel)@)),
    ensures
        sorted_strict(string_views(final(sel)@)),
        set_of(string_views(final(sel)@)) == set_of(string_views(old(sel)@)).insert(x@),
{
    let ghost b = string_views(sel@);
    insert_unique_exec(sel, chars_of(x));
    proof {
        lemma_insert_sorted_unique(b, x@);
        assert(set_of(string_views(sel@)) =~= set_of(b).insert(x@));
    }
}

/// The neighbours of a frontier along the graph's edges, as a sorted set.
fn neighbours_exec(edges: &Vec<crate::graph::GraphEdge>, known: &Vec<String>, frontier: &Vec<String>) -> (r: Vec<String>)
    ensures
        sorted_strict(string_views(r@)),
        set_of(string_views(r@)) == neighbours(edge_views(edges@), set_of(string_views(known@)), set_of(string_views(frontier@))),
{
    let ghost es = edge_views(edges@);
    let ghost k = set_of(string_views(known@));
    let ghost f = set_of(string_views(frontier@));
    let mut next: Vec<String> = Vec::new();
    assert(string_views(next@) =~= Seq::<Seq<char>>::empty());
    let mut i: usize = 0;
    while i < edges.len()
        invariant
            i <= edges@.len(),
            es == edge_views(edges@),
            k == set_of(string_views(known@)),
            f == set_of(string_views(frontier@)),
            sorted_strict(string_views(next@)),
            set_of(string_views(next@)) == neighbours(es.take(i as int), k, f),
        decreases edges@.len() - i,
    {
        let e = &edges[i];
        assert(es[i as int] == e@);
        let ghost before = set_of(string_views(next@));
        let a = list_contains_str(frontier, e.from.as_str()) && list_contains_str(known, e.to.as_str());
        if a {
            insert_member(&mut next, e.to.as_str());
        }
        let ghost mid = set_of(string_views(next@));
        let b = list_contains_str(frontier, e.to.as_str()) && list_contains_str(known, e.from.as_str());
        if b {
            insert_member(&mut next, e.from.as_str());
        }
        proof {
            assert(a == (f.contains(e@.from) && k.contains(e@.to)));
            assert(b == (f.contains(e@.to) && k.contains(e@.from)));
            assert forall|y: Seq<char>| #[trigger] set_of(string_views(next@)).contains(y) <==> (before.contains(y)
                || (a && y == e@.to) || (b && y == e@.from)) by {
                if a {
                    assert(mid =~= before.insert(e@.to));
                } else {
                    assert(mid =~= before);
                }
            }
            let t = es.take(i + 1);
            assert forall|y: Seq<char>| #[trigger] set_of(string_views(next@)).contains(y) <==> neighbours(t, k, f).contains(y) by {
                if neighbours(t, k, f).contains(y) {
                    let m = choose|m: int| 0 <= m < t.len() && {
                        ||| (f.contains(#[trigger] t[m].from) && k.contains(t[m].to) && y == t[m].to)
                        ||| (f.contains(t[m].to) && k.contains(t[m].from) && y == t[m].from)
                    };
                    if m < i {
                        assert(es.take(i as int)[m] == t[m]);
                        assert(neighbours(es.take(i as int), k, f).contains(y));
                    }
                }
                if neighbours(es.take(i as int), k, f).contains(y) {
                    let m = choose|m: int| 0 <= m < es.take(i as int).len() && {
                        ||| (f.contains(#[trigger] es.take(i as int)[m].from) && k.contains(es.take(i as int)[m].to) && y == es.take(i as int)[m].to)
                        ||| (f.contains(es.take(i as int)[m].to) && k.contains(es.take(i as int)[m].from) && y == es.take(i as int)[m].from)
                    };
                    assert(t[m] == es.take(i as int)[m]);
                }
                if a && y == e@.to {
                    assert(t[i as int] == e@);
                }
                if b && y == e@.from {
                    assert(t[i as int] == e@);
                }
            }
            assert(set_of(string_views(next@)) =~= neighbours(t, k, f));
        }
        i += 1;
    }
    assert(es.take(es.len() as int) =~= es);
    next
}

/// Adds the graph neighbours of a selection, round by round.
pub fn include_graph_neighbors(document: &RbmemDocument, selected: &mut Vec<String>, graph_depth: usize)
    requires
        sorted_strict(string_views(old(selected)@)),
    ensures
        sorted_strict(string_views(final(selected)@)),
        set_of(string_views(final(selected)@)) == with_neighbours(document@.sections, set_of(string_views(old(selected)@)), graph_depth as nat),
{
    let ghost s0 = set_of(string_views(selected@));
    if graph_depth == 0 || selected.len() == 0 {
        proof {
            if selected@.len() == 0 {
                assert(s0 =~= Set::<Seq<char>>::empty());
            }
        }
        return;
    }
    proof {
        assert(string_views(selected@).contains(string_views(selected@)[0]));
        assert(s0.contains(string_views(selected@)[0]));
        assert(s0.len() > 0) by {
            lemma_set_of_finite(string_views(selected@));
        }
    }
    let known = section_paths_vec(document);
    let graph = document.graph_view();
    let ghost es = edge_views(graph.edges@);
    let ghost kn = known_set(document@.sections);
    let mut frontier = crate::text::copy_strings(selected);
    assert(string_views(frontier@) == string_views(selected@));
    let mut level: usize = 0;
    while level < graph_depth
        invariant_except_break
            level <= graph_depth,
        invariant
            es == edge_views(graph.edges@),
            es == graph_of(document@.sections).edges,
            kn == set_of(string_views(known@)),
            kn == known_set(document@.sections),
            sorted_strict(string_views(selected@)),
            grow(es, kn, s0, s0, graph_depth as nat) == grow(es, kn, set_of(string_views(selected@)), set_of(string_views(frontier@)), (graph_depth - level) as nat),
        ensures
            grow(es, kn, s0, s0, graph_depth as nat) == set_of(string_views(selected@)),
        decreases graph_depth - level,
    {
        let next = neighbours_exec(&graph.edges, &known, &frontier);
        let ghost nx = set_of(string_views(next@));
        let ghost sel0 = set_of(string_views(selected@));
        let mut changed = false;
        let mut j: usize = 0;
        while j < next.len()
            invariant
                j <= next@.len(),
                nx == set_of(string_views(next@)),
                sorted_strict(string_views(selected@)),
                set_of(string_views(selected@)) == sel0.union(set_of(string_views(next@).take(j as int))),
                !changed ==> set_of(string_views(next@).take(j as int)).subset_of(sel0),
                changed ==> !nx.subset_of(sel0),
            decreases next@.len() - j,
        {
            let x = next[j].as_str();
            let ghost nv = string_views(next@);
            assert(nv[j as int] == x@);
            let present = list_contains_str(selected, x);
            proof {
                if present && !changed {
                    assert(set_of(string_views(selected@)).contains(x@));
                    if !sel0.contains(x@) {
                        assert(set_of(nv.take(j as int)).contains(x@));
                    }
                    assert(sel0.contains(x@));
                }
            }
            if !present {
                proof {
                    assert(set_of(string_views(selected@)).contains(x@) == false);
                    assert(nv.contains(x@));
                    assert(!sel0.contains(x@));
                }
                changed = true;
            }
            insert_member(selected, x);
            proof {
                assert(set_of(nv.take(j + 1)) =~= set_of(nv.take(j as int)).insert(x@)) by {
                    assert forall|y: Seq<char>| set_of(nv.take(j + 1)).contains(y) <==> set_of(nv.take(j as int)).insert(x@).contains(y) by {
                        if nv.take(j + 1).contains(y) {
                            let m = choose|m: int| 0 <= m < j + 1 && #[trigger] nv.take(j + 1)[m] == y;
                            if m < j {
                                assert(nv.take(j as int)[m] == y);
                            }
                        }
                        if nv.take(j as int).contains(y) {
                            let m = choose|m: int| 0 <= m < j && #[trigger] nv.take(j as int)[m] == y;
                            assert(nv.take(j + 1)[m] == y);
                        }
                        if y == x@ {
                            assert(nv.take(j + 1)[j as int] == y);
                        }
                    }
                }
                assert(set_of(string_views(selected@)) =~= sel0.union(set_of(nv.take(j + 1))));
            }
            j += 1;
        }
        assert(string_views(next@).take(next@.len() as int) =~= string_views(next@));
        assert(set_of(string_views(next@)) == nx);
        if !changed {
            assert(nx.subset_of(sel0));
            assert(set_of(string_views(selected@)) =~= sel0);
            break;
        }
        frontier = next;
        level += 1;
    }
    proof {
        if level == graph_depth {
            assert(grow(es, kn, set_of(string_views(selected@)), set_of(string_views(frontier@)), 0) == set_of(string_views(selected@)));
        }
    }
}

proof fn lemma_set_of_finite(s: Seq<Seq<char>>)
    ensures
        set_of(s).finite(),
        s.len() > 0 ==> set_of(s).len() > 0,
{
    assert(set_of(s) =~= s.to_set()) by {
        assert forall|x: Seq<char>| set_of(s).contains(x) <==> s.to_set().contains(x) by {}
    }
    vstd::seq_lib::seq_to_set_is_finite(s);
    if s.len() > 0 {
        assert(s.to_set().contains(s[0]));
        if s.to_set().len() == 0 {
            s.to_set().lemma_len0_is_empty();
            assert(Set::<Seq<char>>::empty().contains(s[0]));
        }
    }
}


/// A known parent of some member of the set.
pub open spec fn known_parent_in(sel: Set<Seq<char>>, known: Set<Seq<char>>, y: Seq<char>) -> bool {
    known.contains(y) && exists|p: Seq<char>, d: int|
        #![trigger sel.contains(p), crate::query::raw_parent(p, d)]
        sel.contains(p) && 1 <= d < crate::text::split_on(p, '.').len() && y == crate::query::raw_parent(p, d)
}

/// What the pack's entries and query pick, before parents and neighbours.
pub open spec fn pack_base(ss: Seq<SectionV>, p: PackConfigV, query_paths: Seq<Seq<char>>) -> Set<Seq<char>> {
    Set::new(|y: Seq<char>| pack_named(ss, p.includes, y) || (p.query is Some && query_paths.contains(y)))
}

pub open spec fn pack_parents(ss: Seq<SectionV>, sel: Set<Seq<char>>, include_parents: bool) -> Set<Seq<char>> {
    if include_parents {
        Set::new(|y: Seq<char>| sel.contains(y) || known_parent_in(sel, known_set(ss), y))
    } else {
        sel
    }
}

/// Everything a pack selects before its budget.
pub open spec fn pack_selection(ss: Seq<SectionV>, p: PackConfigV, include_parents: bool, query_paths: Seq<Seq<char>>) -> Set<Seq<char>> {
    with_neighbours(ss, pack_parents(ss, pack_base(ss, p, query_paths), include_parents), p.graph_depth as nat)
}

/// A set of paths in `str` order.
pub open spec fn sorted_of(s: Set<Seq<char>>) -> Seq<Seq<char>> {
    choose|q: Seq<Seq<char>>| sorted_strict(q) && set_of(q) == s
}

/// The document a pack gives: the selected sections, and under a budget
/// only the leading selected paths in `str` order whose tokens fit; the
/// query's own selection is handed in.
pub open spec fn packed(d: DocumentV, p: PackConfigV, include_parents: bool, max_tokens: Option<usize>, query_paths: Seq<Seq<char>>) -> DocumentV {
    let sel = sorted_of(pack_selection(d.sections, p, include_parents, query_paths));
    match max_tokens {
        None => subset_of(d, sel),
        Some(b) => subset_of(d, budget_selection(d.sections, sel, b as nat, true)),
    }
}

proof fn lemma_sorted_of(q: Seq<Seq<char>>)
    requires
        sorted_strict(q),
    ensures
        sorted_of(set_of(q)) == q,
{
    let c = sorted_of(set_of(q));
    assert(sorted_strict(c) && set_of(c) == set_of(q));
    assert forall|x: Seq<char>| #[trigger] c.contains(x) <==> q.contains(x) by {
        assert(set_of(c).contains(x) == c.contains(x));
        assert(set_of(q).contains(x) == q.contains(x));
    }
    crate::sorted::lemma_sorted_unique(c, q);
}

/// The sub-document a pack selects. The query's result
/// paths are handed in; they count only when the pack has a query.
pub fn pack_document(
    document: &RbmemDocument,
    pack: &PackConfig,
    include_parents: bool,
    max_tokens: Option<usize>,
    query_paths: &Vec<String>,
) -> (r: RbmemDocument)
    ensures
        r@ == packed(document@, pack@, include_parents, max_tokens, string_views(query_paths@)),
{
    let ghost ss = document@.sections;
    let ghost pv = pack@;
    let ghost qv = string_views(query_paths@);
    let mut sel: Vec<String> = Vec::new();
    assert(string_views(sel@) =~= Seq::<Seq<char>>::empty());
    let mut i: usize = 0;
    while i < pack.includes.len()
        invariant
            i <= pack.includes@.len(),
            ss == section_views(document.sections@),
            pv == pack@,
            sorted_strict(string_views(sel@)),
            forall|y: Seq<char>| #[trigger] set_of(string_views(sel@)).contains(y) <==> pack_named(ss, pv.includes.take(i as int), y),
        decreases pack.includes@.len() - i,
    {
        let entry = pack.includes[i].as_str();
        assert(pv.includes[i as int] == entry@);
        let mut under = chars_of(entry);
        under.push('.');
        proof {
            reveal_strlit(".");
            assert(under@ =~= entry@ + "."@);
        }
        let ghost before = set_of(string_views(sel@));
        let mut j: usize = 0;
        while j < document.sections.len()
            invariant
                j <= document.sections@.len(),
                i < pack.includes@.len(),
                ss == section_views(document.sections@),
                pv == pack@,
                entry@ == pv.includes[i as int],
                under@ == entry@ + "."@,
                sorted_strict(string_views(sel@)),
                forall|y: Seq<char>| #[trigger] set_of(string_views(sel@)).contains(y) <==> (before.contains(y)
                    || exists|m: int| 0 <= m < j && #[trigger] ss[m].path == y && (y == entry@ || under@.is_prefix_of(y))),
            decreases document.sections@.len() - j,
        {
            let path = document.sections[j].path.as_str();
            assert(ss[j as int].path == path@);
            if str_eq(path, entry) || starts_with_chars(&chars_of(path), &under) {
                insert_member(&mut sel, path);
            }
            j += 1;
        }
        proof {
            assert forall|y: Seq<char>| #[trigger] set_of(string_views(sel@)).contains(y) <==> pack_named(ss, pv.includes.take(i + 1), y) by {
                let inc = pv.includes.take(i + 1);
                if pack_named(ss, inc, y) {
                    let (a, m) = choose|a: int, m: int| #![trigger inc[a], ss[m]]
                        0 <= a < inc.len() && 0 <= m < ss.len() && ss[m].path == y && (y == inc[a] || (inc[a] + "."@).is_prefix_of(y));
                    if a < i {
                        assert(pv.includes.take(i as int)[a] == inc[a]);
                        assert(pack_named(ss, pv.includes.take(i as int), y));
                    } else {
                        assert(inc[a] == entry@);
                    }
                }
                if pack_named(ss, pv.includes.take(i as int), y) {
                    let (a, m) = choose|a: int, m: int| #![trigger pv.includes.take(i as int)[a], ss[m]]
                        0 <= a < i && 0 <= m < ss.len() && ss[m].path == y && (y == pv.includes.take(i as int)[a] || (pv.includes.take(i as int)[a] + "."@).is_prefix_of(y));
                    assert(inc[a] == pv.includes.take(i as int)[a]);
                }
                if exists|m: int| 0 <= m < ss.len() && #[trigger] ss[m].path == y && (y == entry@ || under@.is_prefix_of(y)) {
                    let m = choose|m: int| 0 <= m < ss.len() && #[trigger] ss[m].path == y && (y == entry@ || under@.is_prefix_of(y));
                    assert(inc[i as int] == entry@);
                }
            }
        }
        i += 1;
    }
    assert(pv.includes.take(pv.includes.len() as int) =~= pv.includes);
    if pack.query.is_some() {
        let mut k: usize = 0;
        let ghost before = set_of(string_views(sel@));
        while k < query_paths.len()
            invariant
                k <= query_paths@.len(),
                qv == string_views(query_paths@),
                sorted_strict(string_views(sel@)),
                forall|y: Seq<char>| #[trigger] set_of(string_views(sel@)).contains(y) <==> (before.contains(y) || qv.take(k as int).contains(y)),
            decreases query_paths@.len() - k,
        {
            insert_member(&mut sel, query_paths[k].as_str());
            proof {
                assert forall|y: Seq<char>| #[trigger] set_of(string_views(sel@)).contains(y) <==> (before.contains(y) || qv.take(k + 1).contains(y)) by {
                    if qv.take(k + 1).contains(y) {
                        let m = choose|m: int| 0 <= m < k + 1 && #[trigger] qv.take(k + 1)[m] == y;
                        if m < k {
                            assert(qv.take(k as int)[m] == y);
                        }
                    }
                    if qv.take(k as int).contains(y) {
                        let m = choose|m: int| 0 <= m < k && #[trigger] qv.take(k as int)[m] == y;
                        assert(qv.take(k + 1)[m] == y);
                    }
                    if y == qv[k as int] {
                        assert(qv.take(k + 1)[k as int] == y);
                    }
                }
            }
            k += 1;
        }
        assert(qv.take(qv.len() as int) =~= qv);
    }
    assert(set_of(string_views(sel@)) =~= pack_base(ss, pv, qv));
    if include_parents {
        let known = section_paths_vec(document);
        let ghost s0 = string_views(sel@);
        include_known_parents(&mut sel, &known);
        proof {
            assert forall|y: Seq<char>| #[trigger] set_of(string_views(sel@)).contains(y) <==> pack_parents(ss, pack_base(ss, pv, qv), true).contains(y) by {
                let b = pack_base(ss, pv, qv);
                if known_parent_of(s0, string_views(known@), y) {
                    let (p, d) = choose|p: Seq<char>, d: int| #![trigger s0.contains(p), crate::query::raw_parent(p, d)]
                        s0.contains(p) && 1 <= d < crate::text::split_on(p, '.').len() && y == crate::query::raw_parent(p, d);
                    assert(set_of(s0).contains(p));
                    assert(b.contains(p));
                    assert(set_of(string_views(known@)).contains(y));
                }
                if known_parent_in(b, known_set(ss), y) {
                    let (p, d) = choose|p: Seq<char>, d: int| #![trigger b.contains(p), crate::query::raw_parent(p, d)]
                        b.contains(p) && 1 <= d < crate::text::split_on(p, '.').len() && y == crate::query::raw_parent(p, d);
                    assert(set_of(s0).contains(p));
                    assert(s0.contains(p));
                    assert(set_of(string_views(known@)).contains(y));
                    assert(string_views(known@).contains(y));
                }
            }
            assert(set_of(string_views(sel@)) =~= pack_parents(ss, pack_base(ss, pv, qv), true));
        }
    }
    assert(set_of(string_views(sel@)) == pack_parents(ss, pack_base(ss, pv, qv), include_parents));
    include_graph_neighbors(document, &mut sel, pack.graph_depth);
    proof {
        lemma_sorted_of(string_views(sel@));
    }
    match max_tokens {
        Some(b) => {
            let kept = truncate_to_token_budget(document, &sel, b, true);
            subset_document(document, &kept)
        },
        None => subset_document(document, &sel),
    }
}

} // verus!
