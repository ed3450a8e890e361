//! Turning memory into a SAT problem: which candidates a rule phrase names,
//! the clause the goal imposes, the clauses of `requires`, `conflicts with`,
//! `must` and `avoid` rules, and the planning problem as a whole.
use vstd::prelude::*;
use crate::document::{section_views, RbmemDocument, RbmemError, Section, SectionV};
use crate::planner::{
    add_capped, all_sections, candidate_views, document_views, extract_candidates, extract_candidates_exec,
    flatten_sections, is_planning_context, is_planning_context_exec, rank_candidates, ranked, CandidateAction,
    CandidateV,
};
use crate::rules::{
    bullet_text, bullet_text_exec, first_sentence, first_sentence_exec, parse_conflict, parse_conflict_exec,
    parse_requires, parse_requires_exec, starts_with_avoid, starts_with_avoid_exec, starts_with_must,
    starts_with_must_exec, strip_rule_prefix, strip_rule_prefix_exec,
};
use crate::text::{
    chars_eq, chars_lt, chars_of, contains, contains_chars, copy_range, lex_lt, lines, split_lines, string_of, trim,
    trimmed, views,
};
use crate::words::{normalize, normalize_chars, overlap, overlap_score, phrase_threshold, phrase_threshold_exec};

verus! {

// ---------------------------------------------------------------------------
// Matching a phrase against candidates
// ---------------------------------------------------------------------------

pub open spec fn match_score(hay: Seq<char>, p: Seq<char>, full: nat) -> nat {
    if contains(hay, p) {
        full
    } else {
        overlap(hay, p)
    }
}

/// How well a candidate's title (or text) matches a normalised phrase: full
/// marks where it contains the phrase, else the shared terms.
pub open spec fn candidate_score(c: CandidateV, p: Seq<char>, by_title: bool) -> nat {
    if by_title {
        match_score(normalize(c.title), p, 100)
    } else {
        match_score(normalize(c.text), p, 50)
    }
}

/// The candidates scoring at least `th`, as (index, score) in index order.
pub open spec fn scored(cs: Seq<CandidateV>, p: Seq<char>, th: nat, by_title: bool) -> Seq<(nat, nat)>
    decreases cs.len(),
{
    if cs.len() == 0 {
        Seq::empty()
    } else {
        let prev = scored(cs.drop_last(), p, th, by_title);
        let sc = candidate_score(cs.last(), p, by_title);
        if sc >= th {
            prev.push(((cs.len() - 1) as nat, sc))
        } else {
            prev
        }
    }
}

/// Where a scored entry goes in a list sorted by descending score, after
/// the entries with an equal score.
pub open spec fn desc_pos(s: Seq<(nat, nat)>, x: (nat, nat)) -> int
    decreases s.len(),
{
    if s.len() == 0 {
        0
    } else if s[0].1 < x.1 {
        0
    } else {
        1 + desc_pos(s.drop_first(), x)
    }
}

/// The stable sort by descending score.
pub open spec fn sort_desc(s: Seq<(nat, nat)>) -> Seq<(nat, nat)>
    decreases s.len(),
{
    if s.len() == 0 {
        s
    } else {
        let t = sort_desc(s.drop_last());
        t.insert(desc_pos(t, s.last()), s.last())
    }
}

/// The indices of the three best entries.
pub open spec fn top3(s: Seq<(nat, nat)>) -> Seq<nat> {
    let t = sort_desc(s);
    let k = if t.len() < 3 {
        t.len() as int
    } else {
        3
    };
    t.take(k).map_values(|e: (nat, nat)| e.0)
}

/// The candidates a rule phrase names: up to three
/// by title, or if none by title, up to three by text; none for a phrase of
/// fewer than three characters.
pub open spec fn matching_candidates(cs: Seq<CandidateV>, phrase: Seq<char>) -> Seq<nat> {
    let p = normalize(phrase);
    if p.len() < 3 {
        Seq::empty()
    } else {
        let th = phrase_threshold(p);
        let s1 = scored(cs, p, th, true);
        if s1.len() > 0 {
            top3(s1)
        } else {
            top3(scored(cs, p, th, false))
        }
    }
}

pub proof fn lemma_desc_pos_bounds(s: Seq<(nat, nat)>, x: (nat, nat))
    ensures
        0 <= desc_pos(s, x) <= s.len(),
    decreases s.len(),
{
    if s.len() > 0 && !(s[0].1 < x.1) {
        lemma_desc_pos_bounds(s.drop_first(), x);
    }
}

pub proof fn lemma_sort_desc_len(s: Seq<(nat, nat)>)
    ensures
        sort_desc(s).len() == s.len(),
    decreases s.len(),
{
    if s.len() > 0 {
        lemma_sort_desc_len(s.drop_last());
        lemma_desc_pos_bounds(sort_desc(s.drop_last()), s.last());
    }
}

pub open spec fn pair_nat_views(v: Seq<(usize, usize)>) -> Seq<(nat, nat)> {
    v.map_values(|p: (usize, usize)| (p.0 as nat, p.1 as nat))
}

proof fn lemma_pair_views_push(v: Seq<(usize, usize)>, x: (usize, usize))
    ensures
        pair_nat_views(v.push(x)) == pair_nat_views(v).push((x.0 as nat, x.1 as nat)),
{
    assert(pair_nat_views(v.push(x)) =~= pair_nat_views(v).push((x.0 as nat, x.1 as nat)));
}

proof fn lemma_pair_views_insert(v: Seq<(usize, usize)>, i: int, x: (usize, usize))
    requires
        0 <= i <= v.len(),
    ensures
        pair_nat_views(v.insert(i, x)) == pair_nat_views(v).insert(i, (x.0 as nat, x.1 as nat)),
{
    assert(pair_nat_views(v.insert(i, x)) =~= pair_nat_views(v).insert(i, (x.0 as nat, x.1 as nat)));
}

proof fn lemma_views_i32_push(v: Seq<Vec<i32>>, x: Vec<i32>)
    ensures
        views_i32(v.push(x)) == views_i32(v).push(x@),
{
    assert(views_i32(v.push(x)) =~= views_i32(v).push(x@));
}

pub open spec fn nat_views(v: Seq<usize>) -> Seq<nat> {
    v.map_values(|i: usize| i as nat)
}

proof fn lemma_nat_views_push(v: Seq<usize>, x: usize)
    ensures
        nat_views(v.push(x)) == nat_views(v).push(x as nat),
{
    assert(nat_views(v.push(x)) =~= nat_views(v).push(x as nat));
}

fn desc_pos_exec(v: &Vec<(usize, usize)>, x: (usize, usize)) -> (r: usize)
    ensures
        r as int == desc_pos(pair_nat_views(v@), (x.0 as nat, x.1 as nat)),
{
    let ghost s = pair_nat_views(v@);
    let ghost xv = (x.0 as nat, x.1 as nat);
    let mut i: usize = 0;
    assert(s.skip(0) =~= s);
    while i < v.len()
        invariant
            i <= v@.len(),
            s == pair_nat_views(v@),
            xv == (x.0 as nat, x.1 as nat),
            desc_pos(s, xv) == i + desc_pos(s.skip(i as int), xv),
        decreases v@.len() - i,
    {
        assert(s.skip(i as int)[0] == s[i as int]);
        assert(s[i as int] == (v@[i as int].0 as nat, v@[i as int].1 as nat));
        if v[i].1 < x.1 {
            assert(s.skip(i as int).len() > 0);
            assert(s.skip(i as int)[0].1 < xv.1);
            assert(desc_pos(s.skip(i as int), xv) == 0);
            return i;
        }
        assert(desc_pos(s.skip(i as int), xv) == 1 + desc_pos(s.skip(i as int).drop_first(), xv));
        assert(s.skip(i as int).drop_first() =~= s.skip(i + 1));
        i += 1;
    }
    assert(s.skip(i as int).len() == 0);
    i
}

fn score_of(c: &CandidateAction, p: &Vec<char>, by_title: bool) -> (r: usize)
    ensures
        r as nat == candidate_score(c@, p@, by_title),
{
    let hay = if by_title {
        normalize_chars(&chars_of(c.title.as_str()))
    } else {
        normalize_chars(&chars_of(c.text.as_str()))
    };
    if contains_chars(&hay, p) {
        if by_title {
            100
        } else {
            50
        }
    } else {
        overlap_score(&hay, p)
    }
}

fn top3_of(cands: &Vec<CandidateAction>, p: &Vec<char>, th: usize, by_title: bool) -> (r: (bool, Vec<usize>))
    ensures
        r.0 == (scored(candidate_views(cands@), p@, th as nat, by_title).len() > 0),
        nat_views(r.1@) == top3(scored(candidate_views(cands@), p@, th as nat, by_title)),
{
    let ghost cv = candidate_views(cands@);
    let mut sorted: Vec<(usize, usize)> = Vec::new();
    let mut any = false;
    let mut i: usize = 0;
    assert(cv.take(0) =~= Seq::<CandidateV>::empty());
    assert(pair_nat_views(sorted@) =~= Seq::<(nat, nat)>::empty());
    while i < cands.len()
        invariant
            i <= cands@.len(),
            cv == candidate_views(cands@),
            pair_nat_views(sorted@) == sort_desc(scored(cv.take(i as int), p@, th as nat, by_title)),
            any == (scored(cv.take(i as int), p@, th as nat, by_title).len() > 0),
        decreases cands@.len() - i,
    {
        assert(cv.take(i + 1).drop_last() =~= cv.take(i as int));
        assert(cv.take(i + 1).last() == cands@[i as int]@);
        let sc = score_of(&cands[i], p, by_title);
        proof {
            lemma_sort_desc_len(scored(cv.take(i as int), p@, th as nat, by_title));
        }
        assert(candidate_score(cv.take(i + 1).last(), p@, by_title) == sc as nat);
        if sc >= th {
            assert(scored(cv.take(i + 1), p@, th as nat, by_title) == scored(cv.take(i as int), p@, th as nat, by_title).push(
                (i as nat, sc as nat),
            ));
            let pos = desc_pos_exec(&sorted, (i, sc));
            proof {
                lemma_desc_pos_bounds(pair_nat_views(sorted@), (i as nat, sc as nat));
            }
            let ghost before = pair_nat_views(sorted@);
            proof {
                lemma_pair_views_insert(sorted@, pos as int, (i, sc));
                let sv = scored(cv.take(i as int), p@, th as nat, by_title);
                let e = (i as nat, sc as nat);
                assert(sv.push(e).drop_last() =~= sv);
                assert(sort_desc(sv.push(e)) == sort_desc(sv).insert(desc_pos(sort_desc(sv), e), e));
            }
            sorted.insert(pos, (i, sc));
            any = true;
        } else {
            assert(scored(cv.take(i + 1), p@, th as nat, by_title) == scored(cv.take(i as int), p@, th as nat, by_title));
        }
        i += 1;
    }
    assert(cv.take(cv.len() as int) =~= cv);
    let mut out: Vec<usize> = Vec::new();
    let mut k: usize = 0;
    let ghost t = pair_nat_views(sorted@);
    let limit = if sorted.len() < 3 {
        sorted.len()
    } else {
        3
    };
    while k < limit
        invariant
            k <= limit <= sorted@.len(),
            t == pair_nat_views(sorted@),
            nat_views(out@) == t.take(k as int).map_values(|e: (nat, nat)| e.0),
        decreases limit - k,
    {
        assert(t[k as int] == (sorted@[k as int].0 as nat, sorted@[k as int].1 as nat));
        proof {
            lemma_nat_views_push(out@, sorted@[k as int].0);
        }
        out.push(sorted[k].0);
        assert(t.take(k + 1) =~= t.take(k as int).push(t[k as int]));
        k += 1;
        assert(nat_views(out@) =~= t.take(k as int).map_values(|e: (nat, nat)| e.0));
    }
    (any, out)
}

pub fn matching_candidates_exec(cands: &Vec<CandidateAction>, phrase: &[char]) -> (r: Vec<usize>)
    ensures
        nat_views(r@) == matching_candidates(candidate_views(cands@), phrase@),
        forall|k: int| 0 <= k < r@.len() ==> r@[k] < cands@.len(),
{
    let p = normalize_chars(phrase);
    if p.len() < 3 {
        let r: Vec<usize> = Vec::new();
        assert(nat_views(r@) =~= Seq::<nat>::empty());
        return r;
    }
    let th = phrase_threshold_exec(&p);
    let (any, first) = top3_of(cands, &p, th, true);
    let r = if any {
        first
    } else {
        top3_of(cands, &p, th, false).1
    };
    proof {
        lemma_scored_in_range(candidate_views(cands@), p@, th as nat, true);
        lemma_scored_in_range(candidate_views(cands@), p@, th as nat, false);
        lemma_top3_in_range(scored(candidate_views(cands@), p@, th as nat, true), candidate_views(cands@).len());
        lemma_top3_in_range(scored(candidate_views(cands@), p@, th as nat, false), candidate_views(cands@).len());
        assert forall|k: int| 0 <= k < r@.len() implies r@[k] < cands@.len() by {
            assert(nat_views(r@)[k] == r@[k] as nat);
        }
    }
    r
}

pub proof fn lemma_scored_in_range(cs: Seq<CandidateV>, p: Seq<char>, th: nat, by_title: bool)
    ensures
        forall|k: int|
            0 <= k < scored(cs, p, th, by_title).len() ==> (#[trigger] scored(cs, p, th, by_title)[k]).0 < cs.len(),
    decreases cs.len(),
{
    if cs.len() > 0 {
        lemma_scored_in_range(cs.drop_last(), p, th, by_title);
        let prev = scored(cs.drop_last(), p, th, by_title);
        assert forall|k: int|
            0 <= k < scored(cs, p, th, by_title).len() implies (#[trigger] scored(cs, p, th, by_title)[k]).0 < cs.len() by {
            if k < prev.len() {
                assert(scored(cs, p, th, by_title)[k] == prev[k]);
            }
        }
    }
}

pub proof fn lemma_sort_desc_elems(s: Seq<(nat, nat)>)
    ensures
        forall|k: int| 0 <= k < sort_desc(s).len() ==> s.contains(#[trigger] sort_desc(s)[k]),
    decreases s.len(),
{
    if s.len() > 0 {
        lemma_sort_desc_elems(s.drop_last());
        let t = sort_desc(s.drop_last());
        lemma_desc_pos_bounds(t, s.last());
        let pos = desc_pos(t, s.last());
        assert forall|k: int| 0 <= k < sort_desc(s).len() implies s.contains(#[trigger] sort_desc(s)[k]) by {
            if k < pos {
                assert(sort_desc(s)[k] == t[k]);
                let j = choose|j: int| 0 <= j < s.drop_last().len() && s.drop_last()[j] == t[k];
                assert(s[j] == t[k]);
            } else if k == pos {
                assert(s[s.len() - 1] == s.last());
            } else {
                assert(sort_desc(s)[k] == t[k - 1]);
                let j = choose|j: int| 0 <= j < s.drop_last().len() && s.drop_last()[j] == t[k - 1];
                assert(s[j] == t[k - 1]);
            }
        }
    }
}

pub proof fn lemma_top3_in_range(s: Seq<(nat, nat)>, n: nat)
    requires
        forall|k: int| 0 <= k < s.len() ==> (#[trigger] s[k]).0 < n,
    ensures
        forall|k: int| 0 <= k < top3(s).len() ==> (#[trigger] top3(s)[k]) < n,
{
    lemma_sort_desc_elems(s);
    lemma_sort_desc_len(s);
    assert forall|k: int| 0 <= k < top3(s).len() implies (#[trigger] top3(s)[k]) < n by {
        let t = sort_desc(s);
        assert(s.contains(t[k]));
    }
}

// ---------------------------------------------------------------------------
// Clauses
// ---------------------------------------------------------------------------

/// The variables of the candidates (numbered from 1) whose title shares
/// enough terms with the goal.
pub open spec fn goal_vars_title(cs: Seq<CandidateV>, goal: Seq<char>) -> Seq<i32>
    decreases cs.len(),
{
    if cs.len() == 0 {
        Seq::empty()
    } else {
        let prev = goal_vars_title(cs.drop_last(), goal);
        if overlap(cs.last().title, goal) >= phrase_threshold(goal) {
            prev.push(cs.len() as i32)
        } else {
            prev
        }
    }
}

/// The variables of the candidates whose text shares more than one term
/// with the goal.
pub open spec fn goal_vars_text(cs: Seq<CandidateV>, goal: Seq<char>) -> Seq<i32>
    decreases cs.len(),
{
    if cs.len() == 0 {
        Seq::empty()
    } else {
        let prev = goal_vars_text(cs.drop_last(), goal);
        if overlap(cs.last().text, goal) > 1 {
            prev.push(cs.len() as i32)
        } else {
            prev
        }
    }
}

pub open spec fn all_vars(n: nat) -> Seq<i32>
    decreases n,
{
    if n == 0 {
        Seq::empty()
    } else {
        all_vars((n - 1) as nat).push(n as i32)
    }
}

/// The goal clause: at least one of the candidates
/// whose title matches the goal, else of those whose text does, else of all.
pub open spec fn goal_clause(cs: Seq<CandidateV>, goal: Seq<char>) -> Seq<Seq<i32>> {
    let v1 = goal_vars_title(cs, goal);
    let v2 = goal_vars_text(cs, goal);
    let v3 = all_vars(cs.len());
    if v1.len() > 0 {
        seq![v1]
    } else if v2.len() > 0 {
        seq![v2]
    } else if v3.len() > 0 {
        seq![v3]
    } else {
        Seq::empty()
    }
}

pub fn goal_clause_exec(cands: &Vec<CandidateAction>, goal: &str) -> (r: Vec<Vec<i32>>)
    requires
        cands@.len() < i32::MAX,
    ensures
        views_i32(r@) == goal_clause(candidate_views(cands@), goal@),
{
    let ghost cv = candidate_views(cands@);
    let g = chars_of(goal);
    let th = phrase_threshold_exec(&g);
    let mut v1: Vec<i32> = Vec::new();
    let mut v2: Vec<i32> = Vec::new();
    let mut v3: Vec<i32> = Vec::new();
    let mut i: usize = 0;
    assert(cv.take(0) =~= Seq::<CandidateV>::empty());
    while i < cands.len()
        invariant
            i <= cands@.len() < i32::MAX,
            cv == candidate_views(cands@),
            g@ == goal@,
            th as nat == phrase_threshold(goal@),
            v1@ == goal_vars_title(cv.take(i as int), goal@),
            v2@ == goal_vars_text(cv.take(i as int), goal@),
            v3@ == all_vars(i as nat),
        decreases cands@.len() - i,
    {
        assert(cv.take(i + 1).drop_last() =~= cv.take(i as int));
        assert(cv.take(i + 1).last() == cands@[i as int]@);
        let var = (i + 1) as i32;
        if overlap_score(&chars_of(cands[i].title.as_str()), &g) >= th {
            v1.push(var);
        }
        if overlap_score(&chars_of(cands[i].text.as_str()), &g) > 1 {
            v2.push(var);
        }
        v3.push(var);
        i += 1;
    }
    assert(cv.take(cv.len() as int) =~= cv);
    let mut r: Vec<Vec<i32>> = Vec::new();
    if v1.len() > 0 {
        r.push(v1);
    } else if v2.len() > 0 {
        r.push(v2);
    } else if v3.len() > 0 {
        r.push(v3);
    }
    assert(views_i32(r@) =~= goal_clause(cv, goal@));
    r
}

pub open spec fn views_i32(v: Seq<Vec<i32>>) -> Seq<Seq<i32>> {
    v.map_values(|c: Vec<i32>| c@)
}

/// The ordered pairs of distinct candidates, one from each side.
pub open spec fn pair_row(a: nat, bs: Seq<nat>) -> Seq<(nat, nat)>
    decreases bs.len(),
{
    if bs.len() == 0 {
        Seq::empty()
    } else {
        pair_row(a, bs.drop_last()) + if a != bs.last() {
            seq![(a, bs.last())]
        } else {
            Seq::empty()
        }
    }
}

pub open spec fn pairs_of(as_: Seq<nat>, bs: Seq<nat>) -> Seq<(nat, nat)>
    decreases as_.len(),
{
    if as_.len() == 0 {
        Seq::empty()
    } else {
        pairs_of(as_.drop_last(), bs) + pair_row(as_.last(), bs)
    }
}

/// `a requires b`: not `a`, or `b`.
pub open spec fn requires_clause(p: (nat, nat)) -> Seq<i32> {
    seq![-((p.0 + 1) as int) as i32, (p.1 + 1) as i32]
}

/// `a conflicts with b`: not both.
pub open spec fn conflict_clause(p: (nat, nat)) -> Seq<i32> {
    seq![-((p.0 + 1) as int) as i32, -((p.1 + 1) as int) as i32]
}

pub open spec fn unit_clause(i: nat) -> Seq<i32> {
    seq![(i + 1) as i32]
}

pub open spec fn negated_unit_clause(i: nat) -> Seq<i32> {
    seq![-((i + 1) as int) as i32]
}

pub open spec fn requires_clauses(ps: Seq<(nat, nat)>) -> Seq<Seq<i32>> {
    ps.map_values(|p: (nat, nat)| requires_clause(p))
}

pub open spec fn conflict_clauses(ps: Seq<(nat, nat)>) -> Seq<Seq<i32>> {
    ps.map_values(|p: (nat, nat)| conflict_clause(p))
}

pub open spec fn unit_clauses(ns: Seq<nat>) -> Seq<Seq<i32>> {
    ns.map_values(|i: nat| unit_clause(i))
}

pub open spec fn negated_unit_clauses(ns: Seq<nat>) -> Seq<Seq<i32>> {
    ns.map_values(|i: nat| negated_unit_clause(i))
}

proof fn lemma_clause_lists_push(ps: Seq<(nat, nat)>, x: (nat, nat), ns: Seq<nat>, n: nat)
    ensures
        requires_clauses(ps.push(x)) == requires_clauses(ps).push(requires_clause(x)),
        conflict_clauses(ps.push(x)) == conflict_clauses(ps).push(conflict_clause(x)),
        unit_clauses(ns.push(n)) == unit_clauses(ns).push(unit_clause(n)),
        negated_unit_clauses(ns.push(n)) == negated_unit_clauses(ns).push(negated_unit_clause(n)),
{
    assert(requires_clauses(ps.push(x)) =~= requires_clauses(ps).push(requires_clause(x)));
    assert(conflict_clauses(ps.push(x)) =~= conflict_clauses(ps).push(conflict_clause(x)));
    assert(unit_clauses(ns.push(n)) =~= unit_clauses(ns).push(unit_clause(n)));
    assert(negated_unit_clauses(ns.push(n)) =~= negated_unit_clauses(ns).push(negated_unit_clause(n)));
}

/// Clauses, `requires` pairs and conflict pairs collected from the rules.
pub struct RulesV {
    pub clauses: Seq<Seq<i32>>,
    pub requirements: Seq<(nat, nat)>,
    pub conflicts: Seq<(nat, nat)>,
}

/// One rule line (trimmed, not blank) of a planning-context section.
pub open spec fn rule_line(st: RulesV, cs: Seq<CandidateV>, line: Seq<char>) -> RulesV {
    let n = normalize(line);
    match parse_requires(n) {
        Some((l, r)) => {
            let ps = pairs_of(matching_candidates(cs, l), matching_candidates(cs, r));
            RulesV {
                clauses: st.clauses + requires_clauses(ps),
                requirements: st.requirements + ps,
                ..st
            }
        },
        None => match parse_conflict(n) {
            Some((l, r)) => {
                let ps = pairs_of(matching_candidates(cs, l), matching_candidates(cs, r));
                RulesV {
                    clauses: st.clauses + conflict_clauses(ps),
                    conflicts: st.conflicts + ps,
                    ..st
                }
            },
            None => {
                let named = matching_candidates(cs, strip_rule_prefix(n));
                let st1 = if starts_with_must(n) {
                    RulesV { clauses: st.clauses + unit_clauses(named), ..st }
                } else {
                    st
                };
                if starts_with_avoid(n) {
                    RulesV { clauses: st1.clauses + negated_unit_clauses(named), ..st1 }
                } else {
                    st1
                }
            },
        },
    }
}

pub open spec fn rule_lines(st: RulesV, cs: Seq<CandidateV>, ls: Seq<Seq<char>>) -> RulesV
    decreases ls.len(),
{
    if ls.len() == 0 {
        st
    } else {
        let prev = rule_lines(st, cs, ls.drop_last());
        if trim(ls.last()).len() == 0 {
            prev
        } else {
            rule_line(prev, cs, trim(ls.last()))
        }
    }
}

/// The rules of a section; only planning-context
/// sections have any.
pub open spec fn section_rules(st: RulesV, cs: Seq<CandidateV>, s: SectionV) -> RulesV {
    if is_planning_context(s) {
        rule_lines(st, cs, lines(s.content))
    } else {
        st
    }
}

pub open spec fn rules_fold(st: RulesV, cs: Seq<CandidateV>, ss: Seq<SectionV>) -> RulesV
    decreases ss.len(),
{
    if ss.len() == 0 {
        st
    } else {
        section_rules(rules_fold(st, cs, ss.drop_last()), cs, ss.last())
    }
}

/// The mutable collections that rules are added to.
pub struct RuleSink {
    pub clauses: Vec<Vec<i32>>,
    pub requirements: Vec<(usize, usize)>,
    pub conflicts: Vec<(usize, usize)>,
}

impl View for RuleSink {
    type V = RulesV;

    open spec fn view(&self) -> RulesV {
        RulesV {
            clauses: views_i32(self.clauses@),
            requirements: pair_nat_views(self.requirements@),
            conflicts: pair_nat_views(self.conflicts@),
        }
    }
}

fn add_pairs(sink: &mut RuleSink, as_: &Vec<usize>, bs: &Vec<usize>, is_requires: bool)
    requires
        forall|k: int| 0 <= k < as_@.len() ==> as_@[k] < i32::MAX - 1,
        forall|k: int| 0 <= k < bs@.len() ==> bs@[k] < i32::MAX - 1,
    ensures
        ({
            let ps = pairs_of(nat_views(as_@), nat_views(bs@));
            if is_requires {
                final(sink)@ == (RulesV {
                    clauses: old(sink)@.clauses + requires_clauses(ps),
                    requirements: old(sink)@.requirements + ps,
                    ..old(sink)@
                })
            } else {
                final(sink)@ == (RulesV {
                    clauses: old(sink)@.clauses + conflict_clauses(ps),
                    conflicts: old(sink)@.conflicts + ps,
                    ..old(sink)@
                })
            }
        }),
{
    let ghost av = nat_views(as_@);
    let ghost bv = nat_views(bs@);
    let ghost s0 = sink@;
    let mut i: usize = 0;
    assert(av.take(0) =~= Seq::<nat>::empty());
    assert(s0.clauses + Seq::<Seq<i32>>::empty() =~= s0.clauses);
    assert(s0.requirements + Seq::<(nat, nat)>::empty() =~= s0.requirements);
    assert(s0.conflicts + Seq::<(nat, nat)>::empty() =~= s0.conflicts);
    while i < as_.len()
        invariant
            i <= as_@.len(),
            av == nat_views(as_@),
            bv == nat_views(bs@),
            forall|k: int| 0 <= k < as_@.len() ==> as_@[k] < i32::MAX - 1,
            forall|k: int| 0 <= k < bs@.len() ==> bs@[k] < i32::MAX - 1,
            ({
                let ps = pairs_of(av.take(i as int), bv);
                if is_requires {
                    sink@ == (RulesV {
                        clauses: s0.clauses + requires_clauses(ps),
                        requirements: s0.requirements + ps,
                        ..s0
                    })
                } else {
                    sink@ == (RulesV {
                        clauses: s0.clauses + conflict_clauses(ps),
                        conflicts: s0.conflicts + ps,
                        ..s0
                    })
                }
            }),
        decreases as_@.len() - i,
    {
        let a = as_[i];
        let ghost before = pairs_of(av.take(i as int), bv);
        assert(av.take(i + 1).drop_last() =~= av.take(i as int));
        assert(av.take(i + 1).last() == a as nat);
        let mut j: usize = 0;
        assert(bv.take(0) =~= Seq::<nat>::empty());
        assert(before + pair_row(a as nat, bv.take(0)) =~= before);
        while j < bs.len()
            invariant
                j <= bs@.len(),
                i < as_@.len(),
                a == as_@[i as int],
                a < i32::MAX - 1,
                bv == nat_views(bs@),
                forall|k: int| 0 <= k < bs@.len() ==> bs@[k] < i32::MAX - 1,
                ({
                    let ps = before + pair_row(a as nat, bv.take(j as int));
                    if is_requires {
                        sink@ == (RulesV {
                            clauses: s0.clauses + requires_clauses(ps),
                            requirements: s0.requirements + ps,
                            ..s0
                        })
                    } else {
                        sink@ == (RulesV {
                            clauses: s0.clauses + conflict_clauses(ps),
                            conflicts: s0.conflicts + ps,
                            ..s0
                        })
                    }
                }),
            decreases bs@.len() - j,
        {
            let b = bs[j];
            let ghost ps0 = before + pair_row(a as nat, bv.take(j as int));
            assert(bv.take(j + 1).drop_last() =~= bv.take(j as int));
            assert(bv.take(j + 1).last() == b as nat);
            if a != b {
                let pa = (a + 1) as i32;
                let pb = (b + 1) as i32;
                let ghost c0 = sink.clauses@;
                let ghost r0 = sink.requirements@;
                let ghost k0 = sink.conflicts@;
                if is_requires {
                    let mut c: Vec<i32> = Vec::new();
                    c.push(-pa);
                    c.push(pb);
                    assert(c@ =~= requires_clause((a as nat, b as nat)));
                    sink.clauses.push(c);
                    sink.requirements.push((a, b));
                } else {
                    let mut c: Vec<i32> = Vec::new();
                    c.push(-pa);
                    c.push(-pb);
                    assert(c@ =~= conflict_clause((a as nat, b as nat)));
                    sink.clauses.push(c);
                    sink.conflicts.push((a, b));
                }
                let ghost ps1 = ps0.push((a as nat, b as nat));
                assert(before + pair_row(a as nat, bv.take(j + 1)) =~= ps1);
                proof {
                    lemma_clause_lists_push(ps0, (a as nat, b as nat), Seq::empty(), 0);
                    lemma_views_i32_push(c0, sink.clauses@.last());
                    assert(sink.clauses@ == c0.push(sink.clauses@.last()));
                    if is_requires {
                        lemma_pair_views_push(r0, (a, b));
                        assert(sink.requirements@ == r0.push((a, b)));
                    } else {
                        lemma_pair_views_push(k0, (a, b));
                        assert(sink.conflicts@ == k0.push((a, b)));
                    }
                }
                if is_requires {
                    assert(views_i32(sink.clauses@) =~= s0.clauses + requires_clauses(ps1));
                    assert(pair_nat_views(sink.requirements@) =~= s0.requirements + ps1);
                } else {
                    assert(views_i32(sink.clauses@) =~= s0.clauses + conflict_clauses(ps1));
                    assert(pair_nat_views(sink.conflicts@) =~= s0.conflicts + ps1);
                }
            } else {
                assert(before + pair_row(a as nat, bv.take(j + 1)) =~= ps0);
            }
            j += 1;
        }
        assert(bv.take(bv.len() as int) =~= bv);
        assert(pairs_of(av.take(i + 1), bv) =~= before + pair_row(a as nat, bv));
        i += 1;
    }
    assert(av.take(av.len() as int) =~= av);
}

fn add_units(sink: &mut RuleSink, named: &Vec<usize>, negate: bool)
    requires
        forall|k: int| 0 <= k < named@.len() ==> named@[k] < i32::MAX - 1,
    ensures
        ({
            let ns = nat_views(named@);
            if negate {
                final(sink)@ == (RulesV {
                    clauses: old(sink)@.clauses + negated_unit_clauses(ns),
                    ..old(sink)@
                })
            } else {
                final(sink)@ == (RulesV {
                    clauses: old(sink)@.clauses + unit_clauses(ns),
                    ..old(sink)@
                })
            }
        }),
{
    let ghost ns = nat_views(named@);
    let ghost s0 = sink@;
    let mut k: usize = 0;
    assert(ns.take(0) =~= Seq::<nat>::empty());
    assert(s0.clauses + Seq::<Seq<i32>>::empty() =~= s0.clauses);
    while k < named.len()
        invariant
            k <= named@.len(),
            ns == nat_views(named@),
            forall|j: int| 0 <= j < named@.len() ==> named@[j] < i32::MAX - 1,
            sink@.requirements == s0.requirements,
            sink@.conflicts == s0.conflicts,
            negate ==> sink@.clauses == s0.clauses + negated_unit_clauses(ns.take(k as int)),
            !negate ==> sink@.clauses == s0.clauses + unit_clauses(ns.take(k as int)),
        decreases named@.len() - k,
    {
        let v = (named[k] + 1) as i32;
        let mut c: Vec<i32> = Vec::new();
        if negate {
            c.push(-v);
            assert(c@ =~= negated_unit_clause(ns[k as int]));
        } else {
            c.push(v);
            assert(c@ =~= unit_clause(ns[k as int]));
        }
        let ghost before = sink.clauses@;
        proof {
            lemma_views_i32_push(before, c);
        }
        sink.clauses.push(c);
        assert(ns.take(k + 1) =~= ns.take(k as int).push(ns[k as int]));
        proof {
            lemma_clause_lists_push(Seq::empty(), (0, 0), ns.take(k as int), ns[k as int]);
        }
        k += 1;
        if negate {
            assert(views_i32(sink.clauses@) =~= s0.clauses + negated_unit_clauses(ns.take(k as int)));
        } else {
            assert(views_i32(sink.clauses@) =~= s0.clauses + unit_clauses(ns.take(k as int)));
        }
    }
    assert(ns.take(ns.len() as int) =~= ns);
}

fn rule_line_exec(sink: &mut RuleSink, cands: &Vec<CandidateAction>, line: &[char])
    requires
        cands@.len() < i32::MAX - 1,
    ensures
        final(sink)@ == rule_line(old(sink)@, candidate_views(cands@), line@),
{
    let n = normalize_chars(line);
    if let Some((l, r)) = parse_requires_exec(&n) {
        let a = matching_candidates_exec(cands, &l);
        let b = matching_candidates_exec(cands, &r);
        add_pairs(sink, &a, &b, true);
        return ;
    }
    if let Some((l, r)) = parse_conflict_exec(&n) {
        let a = matching_candidates_exec(cands, &l);
        let b = matching_candidates_exec(cands, &r);
        add_pairs(sink, &a, &b, false);
        return ;
    }
    let stripped = strip_rule_prefix_exec(&n);
    let named = matching_candidates_exec(cands, &stripped);
    if starts_with_must_exec(&n) {
        add_units(sink, &named, false);
    }
    if starts_with_avoid_exec(&n) {
        add_units(sink, &named, true);
    }
}

/// Adds the rules of a section.
pub fn apply_section_rules(sink: &mut RuleSink, cands: &Vec<CandidateAction>, section: &Section)
    requires
        cands@.len() < i32::MAX - 1,
    ensures
        final(sink)@ == section_rules(old(sink)@, candidate_views(cands@), section@),
{
    if !is_planning_context_exec(section) {
        return ;
    }
    let ls = split_lines(&chars_of(section.content.as_str()));
    let ghost lv = views(ls@);
    let ghost cv = candidate_views(cands@);
    let ghost s0 = sink@;
    let mut i: usize = 0;
    assert(lv.take(0) =~= Seq::<Seq<char>>::empty());
    while i < ls.len()
        invariant
            i <= ls@.len(),
            lv == views(ls@),
            lv == lines(section@.content),
            cv == candidate_views(cands@),
            cands@.len() < i32::MAX - 1,
            sink@ == rule_lines(s0, cv, lv.take(i as int)),
        decreases ls@.len() - i,
    {
        assert(lv.take(i + 1).drop_last() =~= lv.take(i as int));
        assert(lv.take(i + 1).last() == ls@[i as int]@);
        let t = trimmed(&ls[i]);
        if t.len() > 0 {
            rule_line_exec(sink, cands, &t);
        }
        i += 1;
    }
    assert(lv.take(lv.len() as int) =~= lv);
}

} // verus!
