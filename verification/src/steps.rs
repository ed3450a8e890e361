//! From a solved planning problem to a plan: the internal solve, the
//! minimal selection, the order of the steps, and their text.
use vstd::prelude::*;
use crate::plan::{rule_clause_views, PlanningProblem, ProblemV, RuleClause};
use crate::planner::{candidate_views, CandidateAction, CandidateV, SatStatus};
use crate::problem::pair_nat_views;
use crate::sat::{
    all_sat, assignment_satisfies, clause_views, concretize, concretize_exec, dpll, extends, lemma_concretize_sat,
    lit_var, total_sat, vars_in_range,
};
use crate::text::{chars_of, decimal, i64_text, join, push_chars, signed_decimal, u64_text, views, split_words, words, string_of};
use crate::words::{normalize, normalize_chars};
use crate::time::{compact_stamp, compact_stamp_text, Timestamp};

verus! {

/// What a solver answered, with the assignment of variables 0..=n (entry 0
/// unused) and the solver's name.
#[derive(Debug, Clone)]
pub struct SolverResult {
    pub status: SatStatus,
    pub assignment: Vec<bool>,
    pub solver: String,
}

/// A step of a plan.
#[derive(Debug, Clone)]
pub struct PlanStep {
    pub order: usize,
    pub action: String,
    pub source: Option<String>,
    pub score: i64,
}

pub struct PlanStepV {
    pub order: usize,
    pub action: Seq<char>,
    pub source: Option<Seq<char>>,
    pub score: i64,
}

impl View for PlanStep {
    type V = PlanStepV;

    open spec fn view(&self) -> PlanStepV {
        PlanStepV {
            order: self.order,
            action: self.action@,
            source: match self.source {
                Some(s) => Some(s@),
                None => None,
            },
            score: self.score,
        }
    }
}

pub open spec fn step_views(v: Seq<PlanStep>) -> Seq<PlanStepV> {
    v.map_values(|s: PlanStep| s@)
}

/// The problem's clauses name only its candidates' variables.
pub open spec fn clauses_in_range(p: ProblemV) -> bool {
    vars_in_range(p.clauses, (p.candidates.len() + 1) as int)
}

/// Whether the problem's clauses name only its candidates' variables.
pub fn clauses_in_range_exec(problem: &PlanningProblem) -> (r: bool)
    ensures
        r == clauses_in_range(problem@),
{
    let n = problem.candidates.len();
    let ghost cs = rule_clause_views(problem.clauses@);
    let mut i: usize = 0;
    while i < problem.clauses.len()
        invariant
            i <= problem.clauses@.len(),
            n == problem.candidates@.len(),
            cs == rule_clause_views(problem.clauses@),
            forall|a: int, k: int| 0 <= a < i && 0 <= k < cs[a].len() ==> lit_var(#[trigger] cs[a][k]) < n + 1,
        decreases problem.clauses@.len() - i,
    {
        let c = &problem.clauses[i].clause;
        assert(cs[i as int] == c@);
        let mut k: usize = 0;
        while k < c.len()
            invariant
                k <= c@.len(),
                i < problem.clauses@.len(),
                n == problem.candidates@.len(),
                cs == rule_clause_views(problem.clauses@),
                cs[i as int] == c@,
                forall|j: int| 0 <= j < k ==> lit_var(#[trigger] c@[j]) < n + 1,
            decreases c@.len() - k,
        {
            let lit = c[k];
            let var: u64 = if lit < 0 {
                (0i64 - (lit as i64)) as u64
            } else {
                lit as u64
            };
            assert(var as int == lit_var(lit));
            if var > n as u64 {
                assert(!clauses_in_range(problem@)) by {
                    assert(lit_var(cs[i as int][k as int]) >= n + 1);
                }
                return false;
            }
            k += 1;
        }
        i += 1;
    }
    true
}

fn clause_vectors(problem: &PlanningProblem) -> (r: Vec<Vec<i32>>)
    ensures
        clause_views(r@) == problem@.clauses,
{
    let mut out: Vec<Vec<i32>> = Vec::new();
    let mut i: usize = 0;
    while i < problem.clauses.len()
        invariant
            i <= problem.clauses@.len(),
            clause_views(out@) == rule_clause_views(problem.clauses@).take(i as int),
        decreases problem.clauses@.len() - i,
    {
        let c = &problem.clauses[i].clause;
        let mut copy: Vec<i32> = Vec::new();
        let mut k: usize = 0;
        while k < c.len()
            invariant
                k <= c@.len(),
                copy@ == c@.take(k as int),
            decreases c@.len() - k,
        {
            copy.push(c[k]);
            k += 1;
            assert(copy@ =~= c@.take(k as int));
        }
        assert(c@.take(c@.len() as int) =~= c@);
        let ghost before = clause_views(out@);
        out.push(copy);
        assert(clause_views(out@) =~= before.push(c@));
        assert(rule_clause_views(problem.clauses@).take(i + 1) =~= rule_clause_views(problem.clauses@).take(i as int).push(c@));
        i += 1;
    }
    assert(rule_clause_views(problem.clauses@).take(problem.clauses@.len() as int) =~= rule_clause_views(problem.clauses@));
    out
}

/// DPLL on clauses over variables 1..=n from no assignment: whether they
/// are satisfiable, and a satisfying total assignment where they are (all
/// false where not).
fn solve_clauses(clauses: &Vec<Vec<i32>>, n: usize) -> (r: (bool, Vec<bool>))
    requires
        vars_in_range(clause_views(clauses@), n + 1),
    ensures
        r.1@.len() == n + 1,
        r.0 ==> total_sat(clause_views(clauses@), r.1@),
        !r.0 ==> forall|b: Seq<Option<bool>>| b.len() == n + 1 ==> !all_sat(clause_views(clauses@), b),
        !r.0 ==> forall|k: int| 0 <= k < r.1@.len() ==> !r.1@[k],
{
    let mut assignment: Vec<Option<bool>> = Vec::new();
    assignment.push(None);
    let mut i: usize = 0;
    while i < n
        invariant
            i <= n,
            assignment@.len() == i + 1,
            forall|k: int| 0 <= k <= i ==> (#[trigger] assignment@[k]) is None,
        decreases n - i,
    {
        assignment.push(None);
        i += 1;
    }
    let ghost start = assignment@;
    let status = dpll(clauses, &mut assignment);
    proof {
        assert forall|b: Seq<Option<bool>>| b.len() == n + 1 implies extends(start, b) by {}
        if status {
            lemma_concretize_sat(clause_views(clauses@), assignment@);
        }
    }
    if status {
        (true, concretize_exec(&assignment))
    } else {
        let mut falses: Vec<bool> = Vec::new();
        falses.push(false);
        let mut k: usize = 0;
        while k < n
            invariant
                k <= n,
                falses@.len() == k + 1,
                forall|j: int| 0 <= j <= k ==> !(#[trigger] falses@[j]),
            decreases n - k,
        {
            falses.push(false);
            k += 1;
        }
        (false, falses)
    }
}

/// The internal DPLL solve: satisfiable exactly when some
/// assignment satisfies every clause, and then the returned one does.
pub fn solve_internal(problem: &PlanningProblem) -> (r: SolverResult)
    requires
        clauses_in_range(problem@),
    ensures
        r.assignment@.len() == problem@.candidates.len() + 1,
        r.solver@ == "internal-dpll"@,
        r.status == SatStatus::Sat ==> total_sat(problem@.clauses, r.assignment@),
        r.status == SatStatus::Unsat ==> forall|b: Seq<Option<bool>>|
            b.len() == problem@.candidates.len() + 1 ==> !all_sat(problem@.clauses, b),
        r.status == SatStatus::Unsat ==> forall|k: int| 0 <= k < r.assignment@.len() ==> !r.assignment@[k],
{
    let clauses = clause_vectors(problem);
    let (status, assignment) = solve_clauses(&clauses, problem.candidates.len());
    SolverResult {
        status: if status {
            SatStatus::Sat
        } else {
            SatStatus::Unsat
        },
        assignment,
        solver: "internal-dpll".to_owned(),
    }
}

/// Whether some clause is empty.
pub fn contains_empty_clause(problem: &PlanningProblem) -> (r: bool)
    ensures
        r == exists|i: int| 0 <= i < problem@.clauses.len() && problem@.clauses[i].len() == 0,
{
    let mut i: usize = 0;
    while i < problem.clauses.len()
        invariant
            i <= problem.clauses@.len(),
            forall|j: int| 0 <= j < i ==> problem@.clauses[j].len() != 0,
        decreases problem.clauses@.len() - i,
    {
        assert(problem@.clauses[i as int] == problem.clauses@[i as int].clause@);
        if problem.clauses[i].clause.len() == 0 {
            return true;
        }
        i += 1;
    }
    false
}

// ---------------------------------------------------------------------------
// Selection
// ---------------------------------------------------------------------------

/// Where an entry goes in a list sorted by descending score, after the
/// entries with an equal score.
pub open spec fn score_pos(s: Seq<(nat, i64)>, x: (nat, i64)) -> int
    decreases s.len(),
{
    if s.len() == 0 {
        0
    } else if s[0].1 < x.1 {
        0
    } else {
        1 + score_pos(s.drop_first(), x)
    }
}

pub open spec fn sort_by_score(s: Seq<(nat, i64)>) -> Seq<(nat, i64)>
    decreases s.len(),
{
    if s.len() == 0 {
        s
    } else {
        let t = sort_by_score(s.drop_last());
        t.insert(score_pos(t, s.last()), s.last())
    }
}

/// The selected candidates with their scores, in index order.
pub open spec fn chosen(a: Seq<bool>, cs: Seq<CandidateV>) -> Seq<(nat, i64)>
    decreases cs.len(),
{
    if cs.len() == 0 {
        Seq::empty()
    } else {
        let prev = chosen(a, cs.drop_last());
        let i = cs.len() - 1;
        if i + 1 < a.len() && a[i + 1] {
            prev.push((i as nat, cs.last().score))
        } else {
            prev
        }
    }
}

/// The selected candidates, best score first, ties by index.
pub open spec fn selected(a: Seq<bool>, cs: Seq<CandidateV>) -> Seq<nat> {
    sort_by_score(chosen(a, cs)).map_values(|e: (nat, i64)| e.0)
}

pub proof fn lemma_score_pos_bounds(s: Seq<(nat, i64)>, x: (nat, i64))
    ensures
        0 <= score_pos(s, x) <= s.len(),
    decreases s.len(),
{
    if s.len() > 0 && !(s[0].1 < x.1) {
        lemma_score_pos_bounds(s.drop_first(), x);
    }
}

pub open spec fn scored_views(v: Seq<(usize, i64)>) -> Seq<(nat, i64)> {
    v.map_values(|p: (usize, i64)| (p.0 as nat, p.1))
}

pub open spec fn nat_views(v: Seq<usize>) -> Seq<nat> {
    v.map_values(|i: usize| i as nat)
}

fn score_pos_exec(v: &Vec<(usize, i64)>, x: (usize, i64)) -> (r: usize)
    ensures
        r as int == score_pos(scored_views(v@), (x.0 as nat, x.1)),
{
    let ghost sv = scored_views(v@);
    let ghost xv: (nat, i64) = (x.0 as nat, x.1);
    let mut pos: usize = 0;
    assert(sv.skip(0) =~= sv);
    while pos < v.len()
        invariant
            pos <= v@.len(),
            sv == scored_views(v@),
            xv == (x.0 as nat, x.1),
            score_pos(sv, xv) == pos + score_pos(sv.skip(pos as int), xv),
        decreases v@.len() - pos,
    {
        assert(sv.skip(pos as int)[0] == sv[pos as int]);
        assert(sv[pos as int] == (v@[pos as int].0 as nat, v@[pos as int].1));
        if v[pos].1 < x.1 {
            assert(score_pos(sv.skip(pos as int), xv) == 0);
            return pos;
        }
        assert(sv.skip(pos as int).drop_first() =~= sv.skip(pos + 1));
        pos += 1;
    }
    assert(sv.skip(pos as int).len() == 0);
    pos
}

pub fn selected_indices(assignment: &Vec<bool>, candidates: &Vec<CandidateAction>) -> (r: Vec<usize>)
    ensures
        nat_views(r@) == selected(assignment@, candidate_views(candidates@)),
{
    let ghost cv = candidate_views(candidates@);
    let mut sorted: Vec<(usize, i64)> = Vec::new();
    let mut i: usize = 0;
    assert(cv.take(0) =~= Seq::<CandidateV>::empty());
    assert(scored_views(sorted@) =~= Seq::<(nat, i64)>::empty());
    while i < candidates.len()
        invariant
            i <= candidates@.len(),
            cv == candidate_views(candidates@),
            scored_views(sorted@) == sort_by_score(chosen(assignment@, cv.take(i as int))),
        decreases candidates@.len() - i,
    {
        assert(cv.take(i + 1).drop_last() =~= cv.take(i as int));
        assert(cv.take(i + 1).last() == candidates@[i as int]@);
        let on = i + 1 < assignment.len() && assignment[i + 1];
        if on {
            let x = (i, candidates[i].score);
            let ghost sv = scored_views(sorted@);
            let ghost xv: (nat, i64) = (i as nat, candidates@[i as int].score);
            let pos = score_pos_exec(&sorted, x);
            proof {
                lemma_score_pos_bounds(sv, xv);
                let ch = chosen(assignment@, cv.take(i as int));
                assert(chosen(assignment@, cv.take(i + 1)) == ch.push(xv));
                assert(ch.push(xv).drop_last() =~= ch);
            }
            sorted.insert(pos, x);
            assert(scored_views(sorted@) =~= sv.insert(pos as int, xv));
        } else {
            assert(chosen(assignment@, cv.take(i + 1)) == chosen(assignment@, cv.take(i as int)));
        }
        i += 1;
    }
    assert(cv.take(cv.len() as int) =~= cv);
    let mut out: Vec<usize> = Vec::new();
    let mut k: usize = 0;
    let ghost t = scored_views(sorted@);
    while k < sorted.len()
        invariant
            k <= sorted@.len(),
            t == scored_views(sorted@),
            nat_views(out@) == t.take(k as int).map_values(|e: (nat, i64)| e.0),
        decreases sorted@.len() - k,
    {
        assert(t[k as int] == (sorted@[k as int].0 as nat, sorted@[k as int].1));
        let ghost before = out@;
        out.push(sorted[k].0);
        assert(nat_views(out@) =~= nat_views(before).push(sorted@[k as int].0 as nat));
        assert(t.take(k + 1) =~= t.take(k as int).push(t[k as int]));
        k += 1;
        assert(nat_views(out@) =~= t.take(k as int).map_values(|e: (nat, i64)| e.0));
    }
    assert(t.take(t.len() as int) =~= t);
    out
}


// ---------------------------------------------------------------------------
// Minimal selection
// ---------------------------------------------------------------------------

/// The selected variables (candidate index + 1) with their scores, in order.
pub open spec fn chosen_vars(a: Seq<bool>, cs: Seq<CandidateV>) -> Seq<(nat, i64)>
    decreases cs.len(),
{
    if cs.len() == 0 {
        Seq::empty()
    } else {
        let prev = chosen_vars(a, cs.drop_last());
        let v = cs.len() as nat;
        if v < a.len() && a[v as int] {
            prev.push((v, cs.last().score))
        } else {
            prev
        }
    }
}

/// Where an entry goes in a list sorted by ascending score, then variable.
pub open spec fn asc_pos(s: Seq<(nat, i64)>, x: (nat, i64)) -> int
    decreases s.len(),
{
    if s.len() == 0 {
        0
    } else if x.1 < s[0].1 || (x.1 == s[0].1 && x.0 < s[0].0) {
        0
    } else {
        1 + asc_pos(s.drop_first(), x)
    }
}

pub open spec fn sort_asc(s: Seq<(nat, i64)>) -> Seq<(nat, i64)>
    decreases s.len(),
{
    if s.len() == 0 {
        s
    } else {
        let t = sort_asc(s.drop_last());
        t.insert(asc_pos(t, s.last()), s.last())
    }
}

/// Each variable in turn switched off where the clauses stay satisfied.
pub open spec fn minimize_fold(cs: Seq<Seq<i32>>, a: Seq<bool>, order: Seq<(nat, i64)>) -> Seq<bool>
    decreases order.len(),
{
    if order.len() == 0 {
        a
    } else {
        let off = a.update(order[0].0 as int, false);
        let next = if total_sat(cs, off) {
            off
        } else {
            off.update(order[0].0 as int, true)
        };
        minimize_fold(cs, next, order.drop_first())
    }
}

/// The minimised assignment: the selected
/// variables, lowest score first, each dropped where the clauses allow.
pub open spec fn minimized(cs: Seq<Seq<i32>>, a: Seq<bool>, cands: Seq<CandidateV>) -> Seq<bool> {
    minimize_fold(cs, a, sort_asc(chosen_vars(a, cands)))
}

/// Minimising a satisfying assignment keeps it satisfying, and only
/// switches variables off.
pub proof fn lemma_minimize_keeps_sat(cs: Seq<Seq<i32>>, a: Seq<bool>, order: Seq<(nat, i64)>)
    requires
        total_sat(cs, a),
        forall|j: int| 0 <= j < order.len() ==> (#[trigger] order[j]).0 < a.len(),
    ensures
        total_sat(cs, minimize_fold(cs, a, order)),
        minimize_fold(cs, a, order).len() == a.len(),
        forall|k: int| 0 <= k < a.len() && (#[trigger] minimize_fold(cs, a, order)[k]) ==> a[k],
    decreases order.len(),
{
    if order.len() > 0 {
        let v = order[0].0 as int;
        let off = a.update(v, false);
        if !total_sat(cs, off) {
            if !a[v] {
                assert(off =~= a);
            }
            assert(off.update(v, true) =~= a);
        }
        let next = if total_sat(cs, off) {
            off
        } else {
            off.update(v, true)
        };
        assert forall|j: int| 0 <= j < order.drop_first().len() implies (#[trigger] order.drop_first()[j]).0 < next.len() by {
            assert(order.drop_first()[j] == order[j + 1]);
        }
        lemma_minimize_keeps_sat(cs, next, order.drop_first());
        assert forall|k: int| 0 <= k < a.len() && (#[trigger] minimize_fold(cs, a, order)[k]) implies a[k] by {
            assert(next[k]);
        }
    }
}

proof fn lemma_asc_pos_bounds(s: Seq<(nat, i64)>, x: (nat, i64))
    ensures
        0 <= asc_pos(s, x) <= s.len(),
    decreases s.len(),
{
    if s.len() > 0 && !(x.1 < s[0].1 || (x.1 == s[0].1 && x.0 < s[0].0)) {
        lemma_asc_pos_bounds(s.drop_first(), x);
    }
}

fn asc_pos_exec(v: &Vec<(usize, i64)>, x: (usize, i64)) -> (r: usize)
    ensures
        r as int == asc_pos(scored_views(v@), (x.0 as nat, x.1)),
{
    let ghost sv = scored_views(v@);
    let ghost xv: (nat, i64) = (x.0 as nat, x.1);
    let mut pos: usize = 0;
    assert(sv.skip(0) =~= sv);
    while pos < v.len()
        invariant
            pos <= v@.len(),
            sv == scored_views(v@),
            xv == (x.0 as nat, x.1),
            asc_pos(sv, xv) == pos + asc_pos(sv.skip(pos as int), xv),
        decreases v@.len() - pos,
    {
        assert(sv.skip(pos as int)[0] == sv[pos as int]);
        assert(sv[pos as int] == (v@[pos as int].0 as nat, v@[pos as int].1));
        if x.1 < v[pos].1 || (x.1 == v[pos].1 && x.0 < v[pos].0) {
            assert(asc_pos(sv.skip(pos as int), xv) == 0);
            return pos;
        }
        assert(sv.skip(pos as int).drop_first() =~= sv.skip(pos + 1));
        pos += 1;
    }
    assert(sv.skip(pos as int).len() == 0);
    pos
}

proof fn lemma_chosen_vars_range(a: Seq<bool>, cs: Seq<CandidateV>)
    ensures
        forall|k: int| 0 <= k < chosen_vars(a, cs).len() ==> (#[trigger] chosen_vars(a, cs)[k]).0 < a.len(),
    decreases cs.len(),
{
    if cs.len() > 0 {
        lemma_chosen_vars_range(a, cs.drop_last());
        let prev = chosen_vars(a, cs.drop_last());
        assert forall|k: int| 0 <= k < chosen_vars(a, cs).len() implies (#[trigger] chosen_vars(a, cs)[k]).0 < a.len() by {
            if k < prev.len() {
                assert(chosen_vars(a, cs)[k] == prev[k]);
            }
        }
    }
}

proof fn lemma_sort_asc_elems(s: Seq<(nat, i64)>)
    ensures
        sort_asc(s).len() == s.len(),
        forall|k: int| 0 <= k < sort_asc(s).len() ==> s.contains(#[trigger] sort_asc(s)[k]),
    decreases s.len(),
{
    if s.len() > 0 {
        lemma_sort_asc_elems(s.drop_last());
        let t = sort_asc(s.drop_last());
        lemma_asc_pos_bounds(t, s.last());
        let pos = asc_pos(t, s.last());
        assert forall|k: int| 0 <= k < sort_asc(s).len() implies s.contains(#[trigger] sort_asc(s)[k]) by {
            if k < pos {
                let j = choose|j: int| 0 <= j < s.drop_last().len() && s.drop_last()[j] == t[k];
                assert(s[j] == t[k]);
            } else if k == pos {
                assert(s[s.len() - 1] == s.last());
            } else {
                let j = choose|j: int| 0 <= j < s.drop_last().len() && s.drop_last()[j] == t[k - 1];
                assert(s[j] == t[k - 1]);
            }
        }
    }
}

/// Switches off the selected variables that the clauses do not need.
pub fn minimize_assignment(problem: &PlanningProblem, assignment: &mut Vec<bool>)
    ensures
        final(assignment)@ == minimized(problem@.clauses, old(assignment)@, problem@.candidates),
{
    let ghost cv = problem@.candidates;
    let ghost a0 = assignment@;
    let mut order: Vec<(usize, i64)> = Vec::new();
    let mut i: usize = 0;
    assert(cv.take(0) =~= Seq::<CandidateV>::empty());
    assert(scored_views(order@) =~= Seq::<(nat, i64)>::empty());
    while i < problem.candidates.len()
        invariant
            i <= problem.candidates@.len(),
            cv == problem@.candidates,
            cv == candidate_views(problem.candidates@),
            assignment@ == a0,
            scored_views(order@) == sort_asc(chosen_vars(a0, cv.take(i as int))),
        decreases problem.candidates@.len() - i,
    {
        assert(cv.take(i + 1).drop_last() =~= cv.take(i as int));
        assert(cv.take(i + 1).last() == problem.candidates@[i as int]@);
        let v = i + 1;
        if v < assignment.len() && assignment[v] {
            let x = (v, problem.candidates[i].score);
            let ghost sv = scored_views(order@);
            let ghost xv: (nat, i64) = (v as nat, problem.candidates@[i as int].score);
            let pos = asc_pos_exec(&order, x);
            proof {
                lemma_asc_pos_bounds(sv, xv);
                let ch = chosen_vars(a0, cv.take(i as int));
                assert(chosen_vars(a0, cv.take(i + 1)) == ch.push(xv));
                assert(ch.push(xv).drop_last() =~= ch);
            }
            order.insert(pos, x);
            assert(scored_views(order@) =~= sv.insert(pos as int, xv));
        } else {
            assert(chosen_vars(a0, cv.take(i + 1)) == chosen_vars(a0, cv.take(i as int)));
        }
        i += 1;
    }
    assert(cv.take(cv.len() as int) =~= cv);
    let clauses = clause_vectors(problem);
    let ghost ord = scored_views(order@);
    proof {
        lemma_chosen_vars_range(a0, cv);
        lemma_sort_asc_elems(chosen_vars(a0, cv));
    }
    let mut k: usize = 0;
    assert(ord.skip(0) =~= ord);
    while k < order.len()
        invariant
            k <= order@.len(),
            ord == scored_views(order@),
            ord == sort_asc(chosen_vars(a0, cv)),
            clause_views(clauses@) == problem@.clauses,
            assignment@.len() == a0.len(),
            forall|j: int| 0 <= j < ord.len() ==> (#[trigger] ord[j]).0 < a0.len(),
            minimize_fold(problem@.clauses, a0, ord) == minimize_fold(problem@.clauses, assignment@, ord.skip(k as int)),
        decreases order@.len() - k,
    {
        let var = order[k].0;
        assert(ord[k as int].0 == var as nat);
        assert(ord.skip(k as int)[0] == ord[k as int]);
        assert(ord.skip(k as int).drop_first() =~= ord.skip(k + 1));
        assignment.set(var, false);
        if !assignment_satisfies(&clauses, assignment) {
            assignment.set(var, true);
        }
        k += 1;
    }
    assert(ord.skip(k as int).len() == 0);
}


// ---------------------------------------------------------------------------
// Order of the steps
// ---------------------------------------------------------------------------

pub open spec fn step_of(c: CandidateV, order: int) -> PlanStepV {
    PlanStepV { order: order as usize, action: c.title, source: c.source_path, score: c.score }
}

pub open spec fn no_dup(s: Seq<usize>) -> bool {
    forall|i: int, j: int| 0 <= i < j < s.len() ==> s[i] != s[j]
}

pub open spec fn count_false(s: Seq<bool>) -> nat
    decreases s.len(),
{
    if s.len() == 0 {
        0
    } else {
        count_false(s.drop_last()) + if !s.last() {
            1nat
        } else {
            0nat
        }
    }
}

proof fn lemma_count_false_set(s: Seq<bool>, i: int)
    requires
        0 <= i < s.len(),
        !s[i],
    ensures
        count_false(s.update(i, true)) + 1 == count_false(s),
    decreases s.len(),
{
    if i == s.len() - 1 {
        assert(s.update(i, true).drop_last() =~= s.drop_last());
    } else {
        lemma_count_false_set(s.drop_last(), i);
        assert(s.update(i, true).drop_last() =~= s.drop_last().update(i, true));
    }
}

/// A requirement `(step, prerequisite)` whose two steps are both selected.
pub open spec fn req_active(e: (usize, usize), in_sel: Seq<bool>) -> bool {
    e.0 < in_sel.len() && e.1 < in_sel.len() && in_sel[e.0 as int] && in_sel[e.1 as int]
}

/// How many active requirements of `x` still wait for a prerequisite that is
/// not done.
pub open spec fn pend(reqs: Seq<(usize, usize)>, in_sel: Seq<bool>, done: Seq<bool>, x: usize) -> nat
    decreases reqs.len(),
{
    if reqs.len() == 0 {
        0
    } else {
        let e = reqs.last();
        pend(reqs.drop_last(), in_sel, done, x) + if req_active(e, in_sel) && e.0 == x && !done[e.1 as int] {
            1nat
        } else {
            0nat
        }
    }
}

/// How many active requirements say that `x` needs `b`.
pub open spec fn n_edges(reqs: Seq<(usize, usize)>, in_sel: Seq<bool>, x: usize, b: usize) -> nat
    decreases reqs.len(),
{
    if reqs.len() == 0 {
        0
    } else {
        let e = reqs.last();
        n_edges(reqs.drop_last(), in_sel, x, b) + if req_active(e, in_sel) && e.0 == x && e.1 == b {
            1nat
        } else {
            0nat
        }
    }
}

/// How often `x` occurs in `s`.
pub open spec fn occ(s: Seq<usize>, x: usize) -> nat
    decreases s.len(),
{
    if s.len() == 0 {
        0
    } else {
        occ(s.drop_first(), x) + if s[0] == x {
            1nat
        } else {
            0nat
        }
    }
}

proof fn lemma_occ_push(s: Seq<usize>, y: usize, x: usize)
    ensures
        occ(s.push(y), x) == occ(s, x) + if y == x { 1nat } else { 0nat },
    decreases s.len(),
{
    if s.len() > 0 {
        assert(s.push(y).drop_first() =~= s.drop_first().push(y));
        assert(s.push(y)[0] == s[0]);
        lemma_occ_push(s.drop_first(), y, x);
    } else {
        assert(s.push(y).drop_first() =~= Seq::<usize>::empty());
        assert(s.push(y)[0] == y);
        assert(occ(s.push(y).drop_first(), x) == 0);
    }
}

proof fn lemma_occ_empty(s: Seq<usize>, x: usize)
    requires
        s.len() == 0,
    ensures
        occ(s, x) == 0,
{
}

/// Marking `idx` done removes exactly the requirements of `x` on `idx`.
proof fn lemma_pend_done(reqs: Seq<(usize, usize)>, in_sel: Seq<bool>, done: Seq<bool>, idx: usize, x: usize)
    requires
        idx < done.len(),
        in_sel.len() == done.len(),
        !done[idx as int],
    ensures
        pend(reqs, in_sel, done, x) == pend(reqs, in_sel, done.update(idx as int, true), x) + n_edges(reqs, in_sel, x, idx),
    decreases reqs.len(),
{
    if reqs.len() > 0 {
        lemma_pend_done(reqs.drop_last(), in_sel, done, idx, x);
        let e = reqs.last();
        if req_active(e, in_sel) {
            assert(done.update(idx as int, true)[e.1 as int] == (e.1 == idx || done[e.1 as int]));
        }
    }
}

/// With nothing pending, every active prerequisite of `x` is done.
proof fn lemma_pend_zero(reqs: Seq<(usize, usize)>, in_sel: Seq<bool>, done: Seq<bool>, x: usize)
    requires
        pend(reqs, in_sel, done, x) == 0,
    ensures
        forall|k: int| 0 <= k < reqs.len() && req_active(#[trigger] reqs[k], in_sel) && reqs[k].0 == x ==> done[reqs[k].1 as int],
    decreases reqs.len(),
{
    if reqs.len() > 0 {
        lemma_pend_zero(reqs.drop_last(), in_sel, done, x);
        assert forall|k: int| 0 <= k < reqs.len() && req_active(#[trigger] reqs[k], in_sel) && reqs[k].0 == x implies done[reqs[k].1 as int] by {
            if k < reqs.len() - 1 {
                assert(reqs[k] == reqs.drop_last()[k]);
            }
        }
    }
}

/// Something pending means an active prerequisite of `x` is not done.
proof fn lemma_pend_pos(reqs: Seq<(usize, usize)>, in_sel: Seq<bool>, done: Seq<bool>, x: usize)
    requires
        pend(reqs, in_sel, done, x) > 0,
    ensures
        exists|k: int| 0 <= k < reqs.len() && req_active(#[trigger] reqs[k], in_sel) && reqs[k].0 == x && !done[reqs[k].1 as int],
    decreases reqs.len(),
{
    if reqs.len() > 0 {
        let e = reqs.last();
        if req_active(e, in_sel) && e.0 == x && !done[e.1 as int] {
            assert(reqs[reqs.len() - 1] == e);
        } else {
            lemma_pend_pos(reqs.drop_last(), in_sel, done, x);
            let k = choose|k: int| 0 <= k < reqs.drop_last().len() && req_active(#[trigger] reqs.drop_last()[k], in_sel) && reqs.drop_last()[k].0 == x && !done[reqs.drop_last()[k].1 as int];
            assert(reqs[k] == reqs.drop_last()[k]);
        }
    }
}

/// Every active prerequisite of a step in the order comes before it.
pub open spec fn prereqs_done(ordered: Seq<usize>, reqs: Seq<(usize, usize)>, in_sel: Seq<bool>) -> bool {
    forall|p: int, k: int|
        #![trigger ordered[p], reqs[k]]
        0 <= p < ordered.len() && 0 <= k < reqs.len() && req_active(reqs[k], in_sel) && reqs[k].0 == ordered[p]
            ==> exists|q: int| 0 <= q < p && ordered[q] == reqs[k].1
}

proof fn lemma_prereqs_done_push(before: Seq<usize>, reqs: Seq<(usize, usize)>, in_sel: Seq<bool>, done: Seq<bool>, index: usize)
    requires
        prereqs_done(before, reqs, in_sel),
        done.len() == in_sel.len(),
        forall|k: int| 0 <= k < reqs.len() && req_active(#[trigger] reqs[k], in_sel) && reqs[k].0 == index ==> done[reqs[k].1 as int],
        forall|x: usize| x < in_sel.len() ==> (done[x as int] <==> before.contains(x)),
    ensures
        prereqs_done(before.push(index), reqs, in_sel),
{
    let after = before.push(index);
    assert forall|p: int, k: int|
        #![trigger after[p], reqs[k]]
        0 <= p < after.len() && 0 <= k < reqs.len() && req_active(reqs[k], in_sel) && reqs[k].0 == after[p]
        implies exists|q: int| 0 <= q < p && after[q] == reqs[k].1 by {
        if p < before.len() {
            assert(after[p] == before[p]);
            let q = choose|q: int| 0 <= q < p && before[q] == reqs[k].1;
            assert(after[q] == before[q]);
        } else {
            let b = reqs[k].1;
            assert(done[b as int]);
            assert(before.contains(b));
            let q = choose|q: int| 0 <= q < before.len() && before[q] == b;
            assert(after[q] == before[q]);
        }
    }
}

/// The requirements among the selected steps can be ranked so that every
/// prerequisite ranks below the step that needs it; that is, they form no
/// cycle.
pub open spec fn requirements_ranked(reqs: Seq<(nat, nat)>, sel: Seq<nat>) -> bool {
    exists|rank: spec_fn(nat) -> int| #[trigger] ranks_requirements(rank, reqs, sel)
}

/// Every prerequisite between selected steps ranks below the step that
/// needs it.
pub open spec fn ranks_requirements(rank: spec_fn(nat) -> int, reqs: Seq<(nat, nat)>, sel: Seq<nat>) -> bool {
    forall|k: int|
        0 <= k < reqs.len() && sel.contains(reqs[k].0) && sel.contains(reqs[k].1) ==> rank(#[trigger] reqs[k].1) < rank(
            reqs[k].0,
        )
}

/// For every requirement `(step, prerequisite)` between selected steps, the
/// prerequisite comes before the step in the order.
pub open spec fn prerequisites_first(ix: Seq<usize>, reqs: Seq<(nat, nat)>, sel: Seq<nat>) -> bool {
    forall|p: int, k: int|
        #![trigger ix[p], reqs[k]]
        0 <= p < ix.len() && 0 <= k < reqs.len() && reqs[k].0 == ix[p] as nat && sel.contains(reqs[k].1)
            ==> exists|q: int| 0 <= q < p && ix[q] as nat == reqs[k].1
}

/// Among the entries of `s` that satisfy `bad`, one of least rank.
proof fn lemma_min_rank(s: Seq<usize>, bad: spec_fn(usize) -> bool, rank: spec_fn(nat) -> int) -> (m: int)
    requires
        exists|j: int| 0 <= j < s.len() && bad(#[trigger] s[j]),
    ensures
        0 <= m < s.len(),
        bad(s[m]),
        forall|j: int| 0 <= j < s.len() && bad(#[trigger] s[j]) ==> rank(s[m] as nat) <= rank(s[j] as nat),
    decreases s.len(),
{
    let t = s.drop_last();
    if exists|j: int| 0 <= j < t.len() && bad(#[trigger] t[j]) {
        let m0 = lemma_min_rank(t, bad, rank);
        assert(s[m0] == t[m0]);
        if bad(s.last()) && rank(s.last() as nat) < rank(s[m0] as nat) {
            let m = s.len() - 1;
            assert forall|j: int| 0 <= j < s.len() && bad(#[trigger] s[j]) implies rank(s[m] as nat) <= rank(s[j] as nat) by {
                if j < s.len() - 1 {
                    assert(s[j] == t[j]);
                }
            }
            m
        } else {
            assert forall|j: int| 0 <= j < s.len() && bad(#[trigger] s[j]) implies rank(s[m0] as nat) <= rank(s[j] as nat) by {
                if j < s.len() - 1 {
                    assert(s[j] == t[j]);
                }
            }
            m0
        }
    } else {
        let m = s.len() - 1;
        let w = choose|j: int| 0 <= j < s.len() && bad(#[trigger] s[j]);
        if w < s.len() - 1 {
            assert(t[w] == s[w]);
        }
        assert(bad(s[m]));
        assert forall|j: int| 0 <= j < s.len() && bad(#[trigger] s[j]) implies rank(s[m] as nat) <= rank(s[j] as nat) by {
            if j < s.len() - 1 {
                assert(s[j] == t[j]);
                assert(bad(t[j]));
            }
        }
        m
    }
}

/// When no selected step that is not done has nothing pending, and the
/// requirements can be ranked, every selected step is done.
proof fn lemma_ranked_all_done(
    reqs: Seq<(usize, usize)>,
    in_sel: Seq<bool>,
    done: Seq<bool>,
    sel: Seq<usize>,
)
    requires
        requirements_ranked(crate::problem::pair_nat_views(reqs), nat_views(sel)),
        in_sel.len() == done.len(),
        forall|j: int| 0 <= j < sel.len() ==> sel[j] < in_sel.len(),
        forall|x: usize| x < in_sel.len() ==> (in_sel[x as int] <==> sel.contains(x)),
        forall|x: usize| x < in_sel.len() && in_sel[x as int] && !done[x as int] ==> #[trigger] pend(reqs, in_sel, done, x) > 0,
    ensures
        forall|x: usize| x < in_sel.len() && in_sel[x as int] ==> done[x as int],
{
    let rv = crate::problem::pair_nat_views(reqs);
    let sv = nat_views(sel);
    let rank = choose|rank: spec_fn(nat) -> int| #[trigger] ranks_requirements(rank, rv, sv);
    let bad = |y: usize| y < in_sel.len() && !done[y as int];
    if exists|x: usize| x < in_sel.len() && in_sel[x as int] && !done[x as int] {
        let x = choose|x: usize| x < in_sel.len() && in_sel[x as int] && !done[x as int];
        assert(sel.contains(x));
        let j0 = choose|j: int| 0 <= j < sel.len() && sel[j] == x;
        assert(bad(sel[j0]));
        let m = lemma_min_rank(sel, bad, rank);
        let x0 = sel[m];
        assert(sel.contains(x0));
        assert(in_sel[x0 as int]);
        lemma_pend_pos(reqs, in_sel, done, x0);
        let k = choose|k: int| 0 <= k < reqs.len() && req_active(#[trigger] reqs[k], in_sel) && reqs[k].0 == x0 && !done[reqs[k].1 as int];
        let b = reqs[k].1;
        assert(sel.contains(b));
        let jb = choose|j: int| 0 <= j < sel.len() && sel[j] == b;
        assert(bad(sel[jb]));
        assert(rv[k] == (x0 as nat, b as nat));
        assert(sv[m] == x0 as nat);
        assert(sv[jb] == b as nat);
        assert(sv.contains(rv[k].0));
        assert(sv.contains(rv[k].1));
        assert(rank(b as nat) < rank(x0 as nat));
        assert(rank(x0 as nat) <= rank(sel[jb] as nat));
        assert(false);
    }
}

/// Step `x` goes before step `y` among steps that are ready: a higher
/// score, then a lower index.
pub open spec fn ready_first(c: Seq<CandidateV>, x: nat, y: nat) -> bool {
    c[x as int].score > c[y as int].score || (c[x as int].score == c[y as int].score && x < y)
}

/// A selected step none of whose prerequisites is selected.
pub open spec fn free_step(reqs: Seq<(nat, nat)>, sel: Seq<nat>, x: nat) -> bool {
    sel.contains(x) && forall|k: int| 0 <= k < reqs.len() && (#[trigger] reqs[k]).0 == x ==> !sel.contains(reqs[k].1)
}

/// A selected step is free of selected prerequisites exactly when nothing
/// is pending for it before any step is placed.
proof fn lemma_free_iff_pending(reqs: Seq<(usize, usize)>, in_sel: Seq<bool>, fresh: Seq<bool>, sel: Seq<usize>, x: usize)
    requires
        in_sel.len() == fresh.len(),
        x < in_sel.len(),
        in_sel[x as int],
        forall|y: int| 0 <= y < fresh.len() ==> !(#[trigger] fresh[y]),
        forall|j: int| 0 <= j < sel.len() ==> sel[j] < in_sel.len(),
        forall|y: usize| y < in_sel.len() ==> (in_sel[y as int] <==> sel.contains(y)),
    ensures
        free_step(crate::problem::pair_nat_views(reqs), nat_views(sel), x as nat) <==> pend(reqs, in_sel, fresh, x) == 0,
{
    let rv = crate::problem::pair_nat_views(reqs);
    let sv = nat_views(sel);
    assert(sel.contains(x));
    let jx = choose|j: int| 0 <= j < sel.len() && sel[j] == x;
    assert(sv[jx] == x as nat);
    assert(sv.contains(x as nat));
    if pend(reqs, in_sel, fresh, x) == 0 {
        lemma_pend_zero(reqs, in_sel, fresh, x);
        assert forall|k: int| 0 <= k < rv.len() && (#[trigger] rv[k]).0 == x as nat implies !sv.contains(rv[k].1) by {
            assert(rv[k] == (reqs[k].0 as nat, reqs[k].1 as nat));
            if sv.contains(rv[k].1) {
                let j = choose|j: int| 0 <= j < sv.len() && sv[j] == rv[k].1;
                assert(sel[j] == reqs[k].1);
                assert(sel.contains(reqs[k].1));
                assert(req_active(reqs[k], in_sel));
            }
        }
    } else {
        lemma_pend_pos(reqs, in_sel, fresh, x);
        let k = choose|k: int| 0 <= k < reqs.len() && req_active(#[trigger] reqs[k], in_sel) && reqs[k].0 == x && !fresh[reqs[k].1 as int];
        assert(rv[k] == (reqs[k].0 as nat, reqs[k].1 as nat));
        assert(sel.contains(reqs[k].1));
        let j = choose|j: int| 0 <= j < sel.len() && sel[j] == reqs[k].1;
        assert(sv[j] == rv[k].1);
        assert(sv.contains(rv[k].1));
    }
}

/// The first step placed is the free step that comes last among the free
/// steps in priority order.
proof fn lemma_first_step(
    reqs: Seq<(usize, usize)>,
    in_sel: Seq<bool>,
    fresh: Seq<bool>,
    ind0: Seq<usize>,
    first: Seq<usize>,
    sel: Seq<usize>,
    cands: Seq<CandidateV>,
    ix: Seq<usize>,
)
    requires
        in_sel.len() == fresh.len(),
        ind0.len() == in_sel.len(),
        forall|y: int| 0 <= y < fresh.len() ==> !(#[trigger] fresh[y]),
        forall|j: int| 0 <= j < sel.len() ==> sel[j] < in_sel.len(),
        forall|y: usize| y < in_sel.len() ==> (in_sel[y as int] <==> sel.contains(y)),
        forall|y: usize| y < in_sel.len() ==> ind0[y as int] == #[trigger] pend(reqs, in_sel, fresh, y),
        forall|j: int| 0 <= j < first.len() ==> (#[trigger] first[j]) < in_sel.len() && in_sel[first[j] as int],
        forall|j: int| 0 <= j < first.len() ==> ind0[#[trigger] first[j] as int] == 0,
        forall|y: usize| y < in_sel.len() && in_sel[y as int] && ind0[y as int] == 0 ==> #[trigger] first.contains(y),
        forall|i: int, j: int|
            0 <= i < j < first.len() ==> first[i] == first[j] || ready_first(cands, #[trigger] first[i] as nat, #[trigger] first[j] as nat),
        first.len() > 0 ==> ix.len() > 0 && ix[0] == first.last(),
    ensures
        (exists|x: nat| free_step(crate::problem::pair_nat_views(reqs), nat_views(sel), x)) ==> ix.len() > 0
            && free_step(crate::problem::pair_nat_views(reqs), nat_views(sel), ix[0] as nat) && forall|x: nat|
            free_step(crate::problem::pair_nat_views(reqs), nat_views(sel), x) ==> x == ix[0] as nat || ready_first(cands, x, ix[0] as nat),
{
    let rv = crate::problem::pair_nat_views(reqs);
    let sv = nat_views(sel);
    if exists|x: nat| free_step(rv, sv, x) {
        let x0 = choose|x: nat| free_step(rv, sv, x);
        let j0 = choose|j: int| 0 <= j < sv.len() && sv[j] == x0;
        let xu = sel[j0];
        assert(sv[j0] == xu as nat);
        assert(sel.contains(xu));
        lemma_free_iff_pending(reqs, in_sel, fresh, sel, xu);
        assert(first.contains(xu));
        let l = first.len() - 1;
        assert(ix[0] == first[l]);
        let f = first[l];
        lemma_free_iff_pending(reqs, in_sel, fresh, sel, f);
        assert forall|x: nat| free_step(rv, sv, x) implies x == ix[0] as nat || ready_first(cands, x, ix[0] as nat) by {
            let j = choose|j: int| 0 <= j < sv.len() && sv[j] == x;
            let y = sel[j];
            assert(sv[j] == y as nat);
            assert(sel.contains(y));
            lemma_free_iff_pending(reqs, in_sel, fresh, sel, y);
            assert(first.contains(y));
            let i = choose|i: int| 0 <= i < first.len() && first[i] == y;
            if i < l {
                assert(first[i] == first[l] || ready_first(cands, first[i] as nat, first[l] as nat));
            }
        }
    }
}

/// `ready` before `x` in priority: a higher score, then a lower index.
fn ready_before(problem: &PlanningProblem, x: usize, y: usize) -> (r: bool)
    requires
        x < problem.candidates@.len(),
        y < problem.candidates@.len(),
    ensures
        r == (problem@.candidates[x as int].score > problem@.candidates[y as int].score || (
        problem@.candidates[x as int].score == problem@.candidates[y as int].score && x < y)),
{
    let sx = problem.candidates[x].score;
    let sy = problem.candidates[y].score;
    sx > sy || (sx == sy && x < y)
}

/// The order of the selected steps: a topological order of the requirements
/// among them. Steps with no pending prerequisite wait on a stack that starts
/// sorted by descending score, then ascending index, and is taken from its
/// end; a step joins the stack when its last prerequisite is placed. Steps
/// left over (on a cycle, or after one) follow in the order of selection.
/// Each selected step appears exactly once, numbered from 1; the first step
/// is, among the steps with no selected prerequisite, the last in priority
/// order (lowest score, then highest index); and where the requirements form
/// no cycle every prerequisite comes before the step that needs it.
pub fn order_steps(problem: &PlanningProblem, selected: &Vec<usize>) -> (r: Vec<PlanStep>)
    requires
        forall|k: int| 0 <= k < selected@.len() ==> selected@[k] < problem@.candidates.len(),
    ensures
        exists|ix: Seq<usize>|
            #![trigger ix.len()]
            no_dup(ix) && ix.len() == r@.len() && (forall|x: usize| ix.contains(x) <==> selected@.contains(x)) && (
            forall|k: int|
                0 <= k < ix.len() ==> ix[k] < problem@.candidates.len() && (#[trigger] r@[k])@ == step_of(
                    problem@.candidates[ix[k] as int],
                    k + 1,
                )) && (requirements_ranked(problem@.requirements, nat_views(selected@)) ==> prerequisites_first(
                ix,
                problem@.requirements,
                nat_views(selected@),
            )) && ((exists|x: nat| free_step(problem@.requirements, nat_views(selected@), x)) ==> ix.len() > 0
                && free_step(problem@.requirements, nat_views(selected@), ix[0] as nat) && forall|x: nat|
                free_step(problem@.requirements, nat_views(selected@), x) ==> x == ix[0] as nat || ready_first(
                problem@.candidates,
                x,
                ix[0] as nat,
            )),
{
    let n = problem.candidates.len();
    let mut in_sel: Vec<bool> = Vec::new();
    let mut indegree: Vec<usize> = Vec::new();
    let mut outgoing: Vec<Vec<usize>> = Vec::new();
    let mut seen: Vec<bool> = Vec::new();
    let mut i: usize = 0;
    while i < n
        invariant
            i <= n,
            n == problem.candidates@.len(),
            in_sel@.len() == i,
            indegree@.len() == i,
            outgoing@.len() == i,
            seen@.len() == i,
            forall|x: int| 0 <= x < i ==> !(#[trigger] in_sel@[x]),
            forall|x: int| 0 <= x < i ==> !(#[trigger] seen@[x]),
            forall|x: int| 0 <= x < i ==> (#[trigger] indegree@[x]) == 0,
            forall|x: int| 0 <= x < i ==> (#[trigger] outgoing@[x])@.len() == 0,
        decreases n - i,
    {
        in_sel.push(false);
        indegree.push(0);
        outgoing.push(Vec::new());
        seen.push(false);
        i += 1;
    }
    let mut k: usize = 0;
    while k < selected.len()
        invariant
            k <= selected@.len(),
            n == problem.candidates@.len(),
            in_sel@.len() == n,
            forall|j: int| 0 <= j < selected@.len() ==> selected@[j] < n,
            forall|x: usize| x < n ==> (in_sel@[x as int] <==> exists|j: int| 0 <= j < k && selected@[j] == x),
            indegree@.len() == n,
            outgoing@.len() == n,
            seen@.len() == n,
            forall|x: int| 0 <= x < n ==> !(#[trigger] seen@[x]),
            forall|x: int| 0 <= x < n ==> (#[trigger] indegree@[x]) == 0,
            forall|x: int| 0 <= x < n ==> (#[trigger] outgoing@[x])@.len() == 0,
        decreases selected@.len() - k,
    {
        in_sel.set(selected[k], true);
        k += 1;
    }
    assert forall|x: usize| x < n implies (in_sel@[x as int] <==> selected@.contains(x)) by {
        if in_sel@[x as int] {
            let j = choose|j: int| 0 <= j < k && selected@[j] == x;
            assert(selected@[j] == x);
        }
    }
    let ghost reqs = problem.requirements@;
    let ghost fresh = seen@;
    let mut e: usize = 0;
    assert(reqs.take(0) =~= Seq::<(usize, usize)>::empty());
    while e < problem.requirements.len()
        invariant
            e <= problem.requirements@.len(),
            reqs == problem.requirements@,
            n == problem.candidates@.len(),
            in_sel@.len() == n,
            indegree@.len() == n,
            outgoing@.len() == n,
            seen@ == fresh,
            fresh.len() == n,
            forall|x: int| 0 <= x < n ==> !(#[trigger] fresh[x]),
            forall|x: int| 0 <= x < n ==> (#[trigger] indegree@[x]) <= e,
            forall|b: int, j: int|
                0 <= b < n && 0 <= j < outgoing@[b]@.len() ==> (#[trigger] outgoing@[b]@[j]) < n && in_sel@[outgoing@[b]@[j] as int],
            forall|x: usize| x < n ==> indegree@[x as int] == #[trigger] pend(reqs.take(e as int), in_sel@, seen@, x),
            forall|x: usize, b: usize| x < n && b < n ==> #[trigger] occ(outgoing@[b as int]@, x) == n_edges(reqs.take(e as int), in_sel@, x, b),
        decreases problem.requirements@.len() - e,
    {
        let (a, b) = problem.requirements[e];
        proof {
            assert(reqs.take(e + 1).drop_last() =~= reqs.take(e as int));
            assert(reqs.take(e + 1).last() == (a, b));
        }
        let ghost ind_before = indegree@;
        if a < n && b < n && in_sel[a] && in_sel[b] {
            let d = indegree[a];
            indegree.set(a, d + 1);
            let ghost ob = outgoing@[b as int]@;
            let mut list = Vec::new();
            std::mem::swap(&mut list, &mut outgoing[b]);
            list.push(a);
            let ghost before = outgoing@;
            outgoing.set(b, list);
            proof {
                assert(outgoing@[b as int]@ == ob.push(a));
                assert forall|x: usize, b2: usize| x < n && b2 < n implies #[trigger] occ(outgoing@[b2 as int]@, x) == n_edges(reqs.take(e + 1), in_sel@, x, b2) by {
                    if b2 == b {
                        lemma_occ_push(ob, a, x);
                    } else {
                        assert(outgoing@[b2 as int] == before[b2 as int]);
                    }
                }
                assert forall|b2: int, j: int|
                    0 <= b2 < n && 0 <= j < outgoing@[b2]@.len() implies (#[trigger] outgoing@[b2]@[j]) < n && in_sel@[outgoing@[b2]@[j] as int] by {
                    if b2 == b && j == ob.len() {
                    } else if b2 == b {
                        assert(outgoing@[b2]@[j] == ob[j]);
                    } else {
                        assert(outgoing@[b2] == before[b2]);
                    }
                }
            }
        }
        proof {
            assert forall|x: usize| x < n implies indegree@[x as int] == #[trigger] pend(reqs.take(e + 1), in_sel@, seen@, x) by {
                assert(pend(reqs.take(e + 1), in_sel@, seen@, x) == pend(reqs.take(e as int), in_sel@, seen@, x) + if req_active((a, b), in_sel@) && a == x && !seen@[b as int] { 1nat } else { 0nat });
                if req_active((a, b), in_sel@) {
                    assert(!fresh[b as int]);
                }
                if x != a || !req_active((a, b), in_sel@) {
                    assert(indegree@[x as int] == ind_before[x as int]);
                }
            }
        }
        e += 1;
    }
    assert(reqs.take(reqs.len() as int) =~= reqs);
    let ghost ind0 = indegree@;
    let ghost cands = problem@.candidates;
    let mut ready: Vec<usize> = Vec::new();
    let mut k: usize = 0;
    while k < selected.len()
        invariant
            indegree@ == ind0,
            cands == problem@.candidates,
            forall|i: int, j: int|
                0 <= i < j < ready@.len() ==> ready@[i] == ready@[j] || ready_first(cands, #[trigger] ready@[i] as nat, #[trigger] ready@[j] as nat),
            k <= selected@.len(),
            n == problem.candidates@.len(),
            in_sel@.len() == n,
            indegree@.len() == n,
            forall|j: int| 0 <= j < selected@.len() ==> selected@[j] < n,
            forall|x: usize| x < n ==> (in_sel@[x as int] <==> selected@.contains(x)),
            forall|j: int| 0 <= j < ready@.len() ==> (#[trigger] ready@[j]) < n && in_sel@[ready@[j] as int],
            forall|j: int| 0 <= j < ready@.len() ==> indegree@[#[trigger] ready@[j] as int] == 0,
            forall|j: int| 0 <= j < k && indegree@[selected@[j] as int] == 0 ==> ready@.contains(#[trigger] selected@[j]),
        decreases selected@.len() - k,
    {
        let x = selected[k];
        assert(selected@.contains(x));
        if indegree[x] == 0 {
            let mut pos: usize = 0;
            while pos < ready.len() && !ready_before(problem, x, ready[pos])
                invariant
                    pos <= ready@.len(),
                    cands == problem@.candidates,
                    forall|i: int| 0 <= i < pos ==> !ready_first(cands, x as nat, #[trigger] ready@[i] as nat),
                    x < n,
                    n == problem.candidates@.len(),
                    forall|j: int| 0 <= j < ready@.len() ==> (#[trigger] ready@[j]) < n && in_sel@[ready@[j] as int],
                decreases ready@.len() - pos,
            {
                pos += 1;
            }
            let ghost old_ready = ready@;
            proof {
                if pos < old_ready.len() {
                    assert(ready_first(cands, x as nat, old_ready[pos as int] as nat));
                }
            }
            ready.insert(pos, x);
            proof {
                assert forall|i: int, j: int|
                    0 <= i < j < ready@.len() implies ready@[i] == ready@[j] || ready_first(cands, #[trigger] ready@[i] as nat, #[trigger] ready@[j] as nat) by {
                    if j < pos {
                        assert(ready@[i] == old_ready[i] && ready@[j] == old_ready[j]);
                    } else if j == pos {
                        assert(ready@[i] == old_ready[i]);
                        assert(!ready_first(cands, x as nat, old_ready[i] as nat));
                    } else if i < pos {
                        assert(ready@[i] == old_ready[i] && ready@[j] == old_ready[j - 1]);
                    } else if i == pos {
                        assert(ready@[j] == old_ready[j - 1]);
                        if j - 1 > pos {
                            assert(old_ready[pos as int] == old_ready[j - 1] || ready_first(cands, old_ready[pos as int] as nat, old_ready[j - 1] as nat));
                        }
                    } else {
                        assert(ready@[i] == old_ready[i - 1] && ready@[j] == old_ready[j - 1]);
                    }
                }
                assert(ready@ == old_ready.insert(pos as int, x));
                assert forall|j: int| 0 <= j < old_ready.len() implies ready@.contains(#[trigger] old_ready[j]) by {
                    if j < pos {
                        assert(ready@[j] == old_ready[j]);
                    } else {
                        assert(ready@[j + 1] == old_ready[j]);
                    }
                }
                assert(ready@[pos as int] == x);
                assert forall|j: int| 0 <= j < ready@.len() implies indegree@[#[trigger] ready@[j] as int] == 0 by {
                    if j < pos {
                        assert(ready@[j] == old_ready[j]);
                    } else if j > pos {
                        assert(ready@[j] == old_ready[j - 1]);
                    }
                }
                assert forall|j: int| 0 <= j < ready@.len() implies (#[trigger] ready@[j]) < n && in_sel@[ready@[j] as int] by {
                    if j < pos {
                        assert(ready@[j] == old_ready[j]);
                    } else if j > pos {
                        assert(ready@[j] == old_ready[j - 1]);
                    }
                }
                assert forall|j: int| 0 <= j < k + 1 && indegree@[selected@[j] as int] == 0 implies ready@.contains(#[trigger] selected@[j]) by {
                    if j < k {
                        assert(old_ready.contains(selected@[j]));
                        let q = choose|q: int| 0 <= q < old_ready.len() && old_ready[q] == selected@[j];
                        assert(ready@.contains(old_ready[q]));
                    }
                }
            }
        }
        k += 1;
    }
    let ghost first_ready = ready@;
    let mut ordered: Vec<usize> = Vec::new();
    loop
        invariant
            ordered@.len() == 0 ==> ready@ == first_ready,
            ordered@.len() > 0 ==> first_ready.len() > 0 && ordered@[0] == first_ready.last(),
            n == problem.candidates@.len(),
            reqs == problem.requirements@,
            in_sel@.len() == n,
            indegree@.len() == n,
            outgoing@.len() == n,
            seen@.len() == n,
            forall|x: usize| x < n ==> (in_sel@[x as int] <==> selected@.contains(x)),
            forall|j: int| 0 <= j < ready@.len() ==> (#[trigger] ready@[j]) < n && in_sel@[ready@[j] as int],
            forall|b: int, j: int|
                0 <= b < n && 0 <= j < outgoing@[b]@.len() ==> (#[trigger] outgoing@[b]@[j]) < n && in_sel@[outgoing@[b]@[j] as int],
            no_dup(ordered@),
            forall|j: int| 0 <= j < ordered@.len() ==> (#[trigger] ordered@[j]) < n && in_sel@[ordered@[j] as int],
            forall|x: usize| x < n ==> (seen@[x as int] <==> ordered@.contains(x)),
            forall|x: usize| x < n ==> indegree@[x as int] == #[trigger] pend(reqs, in_sel@, seen@, x),
            forall|x: usize, b: usize| x < n && b < n ==> #[trigger] occ(outgoing@[b as int]@, x) == n_edges(reqs, in_sel@, x, b),
            forall|j: int| 0 <= j < ready@.len() ==> indegree@[#[trigger] ready@[j] as int] == 0,
            forall|x: usize| x < n && in_sel@[x as int] && !seen@[x as int] && indegree@[x as int] == 0 ==> #[trigger] ready@.contains(x),
            prereqs_done(ordered@, reqs, in_sel@),
        ensures
            ready@.len() == 0,
        decreases count_false(seen@), ready@.len(),
    {
        let ghost ready0 = ready@;
        let index = match ready.pop() {
            Some(x) => x,
            None => {
                break;
            },
        };
        proof {
            assert(ready0 == ready@.push(index));
            assert forall|j: int| 0 <= j < ready@.len() implies (#[trigger] ready@[j]) < n && in_sel@[ready@[j] as int]
                && indegree@[ready@[j] as int] == 0 by {
                assert(ready@[j] == ready0[j]);
            }
            assert(indegree@[index as int] == 0) by {
                assert(ready0[ready0.len() - 1] == index);
            }
        }
        if seen[index] {
            proof {
                assert forall|x: usize| x < n && in_sel@[x as int] && !seen@[x as int] && indegree@[x as int] == 0 implies #[trigger] ready@.contains(x) by {
                    assert(ready0.contains(x));
                    let q = choose|q: int| 0 <= q < ready0.len() && ready0[q] == x;
                    assert(q != ready0.len() - 1);
                    assert(ready@[q] == x);
                }
            }
            continue;
        }
        proof {
            lemma_count_false_set(seen@, index as int);
            assert(!ordered@.contains(index));
            lemma_pend_zero(reqs, in_sel@, seen@, index);
        }
        let ghost seen0 = seen@;
        seen.set(index, true);
        let ghost before = ordered@;
        ordered.push(index);
        proof {
            assert forall|x: usize| x < n implies (seen@[x as int] <==> ordered@.contains(x)) by {
                if x == index {
                    assert(ordered@[ordered@.len() - 1] == index);
                } else if ordered@.contains(x) {
                    let j = choose|j: int| 0 <= j < ordered@.len() && ordered@[j] == x;
                    assert(before[j] == x);
                } else if seen@[x as int] {
                    assert(before.contains(x));
                    let j = choose|j: int| 0 <= j < before.len() && before[j] == x;
                    assert(ordered@[j] == x);
                }
            }
            lemma_prereqs_done_push(before, reqs, in_sel@, seen0, index);
            assert forall|x: usize| x < n implies indegree@[x as int] == #[trigger] pend(reqs, in_sel@, seen@, x) + occ(outgoing@[index as int]@.skip(0), x) by {
                lemma_pend_done(reqs, in_sel@, seen0, index, x);
                assert(outgoing@[index as int]@.skip(0) =~= outgoing@[index as int]@);
            }
            assert forall|x: usize| x < n && in_sel@[x as int] && !seen@[x as int] && indegree@[x as int] == 0 implies #[trigger] ready@.contains(x) by {
                assert(!seen0[x as int]);
                assert(ready0.contains(x));
                let q = choose|q: int| 0 <= q < ready0.len() && ready0[q] == x;
                assert(q != ready0.len() - 1);
                assert(ready@[q] == x);
            }
        }
        let ghost out = outgoing@[index as int]@;
        let mut c: usize = 0;
        while c < outgoing[index].len()
            invariant
                c <= out.len(),
                out == outgoing@[index as int]@,
                index < n,
                n == problem.candidates@.len(),
                in_sel@.len() == n,
                indegree@.len() == n,
                outgoing@.len() == n,
                seen@.len() == n,
                forall|j: int| 0 <= j < ready@.len() ==> (#[trigger] ready@[j]) < n && in_sel@[ready@[j] as int],
                forall|b: int, j: int|
                    0 <= b < n && 0 <= j < outgoing@[b]@.len() ==> (#[trigger] outgoing@[b]@[j]) < n && in_sel@[outgoing@[b]@[j] as int],
                forall|x: usize| x < n ==> indegree@[x as int] == #[trigger] pend(reqs, in_sel@, seen@, x) + occ(out.skip(c as int), x),
                forall|j: int| 0 <= j < ready@.len() ==> indegree@[#[trigger] ready@[j] as int] == 0,
                forall|x: usize| x < n && in_sel@[x as int] && !seen@[x as int] && indegree@[x as int] == 0 ==> #[trigger] ready@.contains(x),
            decreases out.len() - c,
        {
            let child = outgoing[index][c];
            proof {
                assert(out.skip(c as int).drop_first() =~= out.skip(c + 1));
                assert(out.skip(c as int)[0] == child);
                assert(occ(out.skip(c as int), child) >= 1);
            }
            let d = indegree[child];
            let d2 = if d > 0 {
                d - 1
            } else {
                0
            };
            let ghost ind0 = indegree@;
            let ghost ready1 = ready@;
            indegree.set(child, d2);
            if d2 == 0 {
                ready.push(child);
            }
            proof {
                assert forall|j: int| 0 <= j < ready1.len() implies ready@[j] == ready1[j] by {}
                assert forall|x: usize| x < n implies indegree@[x as int] == #[trigger] pend(reqs, in_sel@, seen@, x) + occ(out.skip(c + 1), x) by {
                    if x != child {
                        assert(indegree@[x as int] == ind0[x as int]);
                    }
                }
                assert forall|j: int| 0 <= j < ready@.len() implies indegree@[#[trigger] ready@[j] as int] == 0 by {
                    if j < ready1.len() {
                        if ready1[j] == child {
                            assert(ind0[child as int] == 0);
                        }
                    }
                }
                assert forall|j: int| 0 <= j < ready@.len() implies (#[trigger] ready@[j]) < n && in_sel@[ready@[j] as int] by {
                    if j < ready1.len() {
                    } else {
                        assert(outgoing@[index as int]@[c as int] == child);
                    }
                }
                assert forall|x: usize| x < n && in_sel@[x as int] && !seen@[x as int] && indegree@[x as int] == 0 implies #[trigger] ready@.contains(x) by {
                    if x == child {
                        assert(ready@[ready@.len() - 1] == child);
                    } else {
                        assert(ready1.contains(x));
                        let q = choose|q: int| 0 <= q < ready1.len() && ready1[q] == x;
                        assert(ready@[q] == x);
                    }
                }
            }
            c += 1;
        }
        proof {
            assert forall|x: usize| x < n implies indegree@[x as int] == #[trigger] pend(reqs, in_sel@, seen@, x) by {
                assert(out.skip(c as int).len() == 0);
                lemma_occ_empty(out.skip(c as int), x);
            }
        }
    }
    assert(first_ready.len() > 0 ==> ordered@.len() > 0 && ordered@[0] == first_ready.last());
    let ghost ranked = requirements_ranked(problem@.requirements, nat_views(selected@));
    let ghost kahn = ordered@;
    proof {
        if ranked {
            assert forall|x: usize| x < n && in_sel@[x as int] && !seen@[x as int] implies #[trigger] pend(reqs, in_sel@, seen@, x) > 0 by {
                if indegree@[x as int] == 0 {
                    assert(ready@.contains(x));
                }
            }
            lemma_ranked_all_done(reqs, in_sel@, seen@, selected@);
        }
    }
    let mut k: usize = 0;
    while k < selected.len()
        invariant
            k <= selected@.len(),
            n == problem.candidates@.len(),
            in_sel@.len() == n,
            seen@.len() == n,
            forall|j: int| 0 <= j < selected@.len() ==> selected@[j] < n,
            forall|x: usize| x < n ==> (in_sel@[x as int] <==> selected@.contains(x)),
            no_dup(ordered@),
            forall|j: int| 0 <= j < ordered@.len() ==> (#[trigger] ordered@[j]) < n && in_sel@[ordered@[j] as int],
            forall|x: usize| x < n ==> (seen@[x as int] <==> ordered@.contains(x)),
            forall|j: int| 0 <= j < k ==> seen@[selected@[j] as int],
            ranked ==> ordered@ == kahn,
            ranked ==> forall|x: usize| x < n && in_sel@[x as int] ==> seen@[x as int],
            first_ready.len() > 0 ==> ordered@.len() > 0 && ordered@[0] == first_ready.last(),
        decreases selected@.len() - k,
    {
        let x = selected[k];
        proof {
            if ranked {
                assert(selected@.contains(x));
            }
        }
        if !seen[x] {
            seen.set(x, true);
            let ghost before = ordered@;
            ordered.push(x);
            proof {
                if before.len() > 0 {
                    assert(ordered@[0] == before[0]);
                }
                assert(!before.contains(x));
                assert forall|x2: usize| x2 < n implies (seen@[x2 as int] <==> ordered@.contains(x2)) by {
                    if x2 == x {
                        assert(ordered@[ordered@.len() - 1] == x);
                    } else if ordered@.contains(x2) {
                        let j = choose|j: int| 0 <= j < ordered@.len() && ordered@[j] == x2;
                        assert(before[j] == x2);
                    } else if seen@[x2 as int] {
                        let j = choose|j: int| 0 <= j < before.len() && before[j] == x2;
                        assert(ordered@[j] == x2);
                    }
                }
                assert(selected@.contains(x));
            }
        }
        k += 1;
    }
    let mut steps: Vec<PlanStep> = Vec::new();
    let mut j: usize = 0;
    while j < ordered.len()
        invariant
            j <= ordered@.len(),
            n == problem.candidates@.len(),
            forall|q: int| 0 <= q < ordered@.len() ==> (#[trigger] ordered@[q]) < n,
            steps@.len() == j,
            forall|q: int| 0 <= q < j ==> (#[trigger] steps@[q])@ == step_of(problem@.candidates[ordered@[q] as int], q + 1),
        decreases ordered@.len() - j,
    {
        let c = &problem.candidates[ordered[j]];
        assert(problem@.candidates[ordered@[j as int] as int] == c@);
        steps.push(
            PlanStep {
                order: j + 1,
                action: c.title.clone(),
                source: match &c.source_path {
                    Some(p) => Some(p.clone()),
                    None => None,
                },
                score: c.score,
            },
        );
        j += 1;
    }
    proof {
        let ix = ordered@;
        assert forall|x: usize| ix.contains(x) <==> selected@.contains(x) by {
            if ix.contains(x) {
                let q = choose|q: int| 0 <= q < ix.len() && ix[q] == x;
                assert(in_sel@[x as int]);
            }
            if selected@.contains(x) {
                let q = choose|q: int| 0 <= q < selected@.len() && selected@[q] == x;
                assert(seen@[x as int]);
            }
        }
        assert(ix.len() == steps@.len());
        lemma_first_step(reqs, in_sel@, fresh, ind0, first_ready, selected@, problem@.candidates, ix);
        if ranked {
            let rv = problem@.requirements;
            let sv = nat_views(selected@);
            assert(rv == crate::problem::pair_nat_views(reqs));
            assert(prereqs_done(ix, reqs, in_sel@));
            assert forall|p: int, k: int|
                #![trigger ix[p], rv[k]]
                0 <= p < ix.len() && 0 <= k < rv.len() && rv[k].0 == ix[p] as nat && sv.contains(rv[k].1)
                implies exists|q: int| 0 <= q < p && ix[q] as nat == rv[k].1 by {
                assert(rv[k] == (reqs[k].0 as nat, reqs[k].1 as nat));
                let j = choose|j: int| 0 <= j < sv.len() && sv[j] == rv[k].1;
                assert(sv[j] == selected@[j] as nat);
                assert(selected@[j] == reqs[k].1);
                assert(selected@.contains(reqs[k].1));
                assert(in_sel@[ix[p] as int]);
                assert(req_active(reqs[k], in_sel@));
                assert(reqs[k].0 == ix[p]);
                let q = choose|q: int| 0 <= q < p && ix[q] == reqs[k].1;
                assert(ix[q] as nat == rv[k].1);
            }
        }
    }
    steps
}


// ---------------------------------------------------------------------------
// Cube and conquer
// ---------------------------------------------------------------------------

pub open spec fn pw(i: nat) -> nat
    decreases i,
{
    if i == 0 {
        1
    } else {
        2 * pw((i - 1) as nat)
    }
}

/// Bit `i` of a cube's mask.
pub open spec fn mask_bit(mask: nat, i: nat) -> bool {
    (mask / pw(i)) % 2 == 1
}

/// The unit clauses that fix variables 1..=k as the mask's bits say.
pub open spec fn cube_clauses(mask: nat, k: nat) -> Seq<Seq<i32>>
    decreases k,
{
    if k == 0 {
        Seq::empty()
    } else {
        let i = (k - 1) as nat;
        cube_clauses(mask, i).push(
            seq![
                if mask_bit(mask, i) {
                    (i + 1) as i32
                } else {
                    -((i + 1) as int) as i32
                },
            ],
        )
    }
}

proof fn lemma_total_sat_prefix(cs: Seq<Seq<i32>>, extra: Seq<Seq<i32>>, a: Seq<bool>)
    requires
        total_sat(cs + extra, a),
    ensures
        total_sat(cs, a),
{
    assert forall|i: int| 0 <= i < cs.len() implies crate::sat::total_clause_sat(#[trigger] cs[i], a) by {
        assert((cs + extra)[i] == cs[i]);
    }
}

/// The unit clauses of a cube: variables `1..=k` fixed as the mask's bits say.
pub fn cube_clauses_exec(mask: usize, k: usize) -> (r: Vec<RuleClause>)
    requires
        mask < 8,
        k <= 3,
    ensures
        rule_clause_views(r@) == cube_clauses(mask as nat, k as nat),
{
    let mut out: Vec<RuleClause> = Vec::new();
    let mut index: usize = 0;
    let mut p: usize = 1;
    assert(rule_clause_views(out@) =~= cube_clauses(mask as nat, 0));
    while index < k
        invariant
            index <= k <= 3,
            p as nat == pw(index as nat),
            1 <= p <= 8,
            mask < 8,
            rule_clause_views(out@) == cube_clauses(mask as nat, index as nat),
        decreases k - index,
    {
        let var = (index + 1) as i32;
        let lit = if (mask / p) % 2 == 1 {
            var
        } else {
            -var
        };
        let mut unit: Vec<i32> = Vec::new();
        unit.push(lit);
        let ghost before = rule_clause_views(out@);
        out.push(RuleClause { clause: unit });
        assert(unit@ =~= seq![lit]);
        assert(rule_clause_views(out@) =~= before.push(seq![lit]));
        index += 1;
        assert(index <= 3 ==> pw(index as nat) <= 8) by {
            reveal_with_fuel(pw, 4);
        }
        p = p * 2;
    }
    out
}

/// Cube and conquer with the internal solver:
/// the first of up to three variables are fixed in each of their
/// combinations in turn, and each cube is solved; the plan is the first
/// satisfying one.
pub fn solve_cube_and_conquer_internal(problem: &PlanningProblem) -> (r: SolverResult)
    requires
        clauses_in_range(problem@),
    ensures
        r.assignment@.len() == problem@.candidates.len() + 1,
        r.status == SatStatus::Sat ==> total_sat(problem@.clauses, r.assignment@),
        r.status == SatStatus::Unsat ==> forall|b: Seq<Option<bool>>|
            b.len() == problem@.candidates.len() + 1 ==> !all_sat(problem@.clauses, b),
        r.status == SatStatus::Unsat ==> forall|k: int| 0 <= k < r.assignment@.len() ==> !r.assignment@[k],
        problem@.candidates.len() == 0 ==> r.solver@ == "internal-dpll"@,
        problem@.candidates.len() > 0 && r.status == SatStatus::Sat ==> r.solver@ == "cube-and-conquer+"@
            + "internal-dpll"@,
        problem@.candidates.len() > 0 && r.status == SatStatus::Unsat ==> r.solver@ == "cube-and-conquer+internal"@,
{
    let n = problem.candidates.len();
    let cube_vars: usize = if n < 3 {
        n
    } else {
        3
    };
    if cube_vars == 0 {
        return solve_internal(problem);
    }
    let base = clause_vectors(problem);
    let masks: usize = if cube_vars == 1 {
        2
    } else if cube_vars == 2 {
        4
    } else {
        8
    };
    assert(masks == pw(cube_vars as nat)) by {
        reveal_with_fuel(pw, 4);
    }
    let mut mask: usize = 0;
    while mask < masks
        invariant
            mask <= masks <= 8,
            1 <= cube_vars <= 3,
            cube_vars <= n,
            n == problem@.candidates.len(),
            clause_views(base@) == problem@.clauses,
            clauses_in_range(problem@),
            masks == pw(cube_vars as nat),
            forall|m: nat, b: Seq<Option<bool>>|
                m < mask && b.len() == n + 1 ==> !#[trigger] all_sat(problem@.clauses + cube_clauses(m, cube_vars as nat), b),
        decreases masks - mask,
    {
        let mut cubed: Vec<Vec<i32>> = Vec::new();
        let mut c: usize = 0;
        while c < base.len()
            invariant
                c <= base@.len(),
                clause_views(cubed@) == clause_views(base@).take(c as int),
            decreases base@.len() - c,
        {
            let mut copy: Vec<i32> = Vec::new();
            let mut q: usize = 0;
            while q < base[c].len()
                invariant
                    c < base@.len(),
                    q <= base@[c as int]@.len(),
                    copy@ == base@[c as int]@.take(q as int),
                decreases base@[c as int]@.len() - q,
            {
                copy.push(base[c][q]);
                q += 1;
                assert(copy@ =~= base@[c as int]@.take(q as int));
            }
            assert(base@[c as int]@.take(base@[c as int]@.len() as int) =~= base@[c as int]@);
            let ghost before = clause_views(cubed@);
            cubed.push(copy);
            assert(clause_views(cubed@) =~= before.push(base@[c as int]@));
            assert(clause_views(base@).take(c + 1) =~= clause_views(base@).take(c as int).push(base@[c as int]@));
            c += 1;
        }
        assert(clause_views(base@).take(base@.len() as int) =~= clause_views(base@));
        let mut index: usize = 0;
        let mut p: usize = 1;
        while index < cube_vars
            invariant
                index <= cube_vars <= 3,
                cube_vars <= n,
                p as nat == pw(index as nat),
                1 <= p <= 8,
                clause_views(cubed@) == problem@.clauses + cube_clauses(mask as nat, index as nat),
                mask < 8,
            decreases cube_vars - index,
        {
            let var = (index + 1) as i32;
            let lit = if (mask / p) % 2 == 1 {
                var
            } else {
                -var
            };
            let mut unit: Vec<i32> = Vec::new();
            unit.push(lit);
            let ghost before = clause_views(cubed@);
            cubed.push(unit);
            assert(clause_views(cubed@) =~= before.push(unit@));
            assert(unit@ =~= seq![lit]);
            assert(problem@.clauses + cube_clauses(mask as nat, (index + 1) as nat) =~= before.push(unit@));
            index += 1;
            assert(index <= 3 ==> pw(index as nat) <= 8) by {
                reveal_with_fuel(pw, 4);
            }
            p = p * 2;
        }
        proof {
            assert forall|i: int, j: int|
                0 <= i < clause_views(cubed@).len() && 0 <= j < clause_views(cubed@)[i].len() implies lit_var(
                #[trigger] clause_views(cubed@)[i][j],
            ) < n + 1 by {
                if i >= problem@.clauses.len() {
                    lemma_cube_lits(mask as nat, cube_vars as nat, i - problem@.clauses.len(), j);
                }
            }
        }
        let (sat, assignment) = solve_clauses(&cubed, n);
        if sat {
            proof {
                lemma_total_sat_prefix(problem@.clauses, cube_clauses(mask as nat, cube_vars as nat), assignment@);
            }
            let mut solver = "cube-and-conquer+".to_owned();
            solver.push_str("internal-dpll");
            return SolverResult { status: SatStatus::Sat, assignment, solver };
        }
        proof {
            assert(index == cube_vars);
            assert forall|m: nat, b: Seq<Option<bool>>|
                m < mask + 1 && b.len() == n + 1 implies !#[trigger] all_sat(problem@.clauses + cube_clauses(m, cube_vars as nat), b) by {
                if m == mask {
                    assert(clause_views(cubed@) == problem@.clauses + cube_clauses(m, cube_vars as nat));
                }
            }
        }
        mask += 1;
    }
    proof {
        assert forall|b: Seq<Option<bool>>| b.len() == n + 1 implies !all_sat(problem@.clauses, b) by {
            if all_sat(problem@.clauses, b) {
                let (m, b2) = lemma_cubes_cover(problem@.clauses, cube_vars as nat, b);
                assert(!all_sat(problem@.clauses + cube_clauses(m, cube_vars as nat), b2));
            }
        }
    }
    let mut falses: Vec<bool> = Vec::new();
    falses.push(false);
    let mut k: usize = 0;
    while k < n
        invariant
            k <= n,
            falses@.len() == k + 1,
            forall|j: int| 0 <= j <= k ==> !(#[trigger] falses@[j]),
        decreases n - k,
    {
        falses.push(false);
        k += 1;
    }
    SolverResult { status: SatStatus::Unsat, assignment: falses, solver: "cube-and-conquer+internal".to_owned() }
}

proof fn lemma_cube_lits(mask: nat, k: nat, i: int, j: int)
    requires
        k <= 3,
        0 <= i < cube_clauses(mask, k).len(),
        0 <= j < cube_clauses(mask, k)[i].len(),
    ensures
        1 <= lit_var(cube_clauses(mask, k)[i][j]) <= k,
        cube_clauses(mask, k).len() == k,
    decreases k,
{
    if k > 0 {
        let i2 = (k - 1) as nat;
        lemma_cube_clauses_len(mask, i2);
        if i < cube_clauses(mask, i2).len() {
            lemma_cube_lits(mask, i2, i, j);
        } else {
            let lit = cube_clauses(mask, k)[i][j];
            assert(lit == (if mask_bit(mask, i2) {
                (i2 + 1) as i32
            } else {
                -((i2 + 1) as int) as i32
            }));
            assert(lit_var(lit) == k);
        }
    }
}

proof fn lemma_cube_clauses_len(mask: nat, k: nat)
    ensures
        cube_clauses(mask, k).len() == k,
    decreases k,
{
    if k > 0 {
        lemma_cube_clauses_len(mask, (k - 1) as nat);
    }
}


/// A cube's clauses hold under an assignment that gives each of its
/// variables a value, true exactly where the mask's bit is set.
proof fn lemma_cube_sat(mask: nat, k: nat, b: Seq<Option<bool>>)
    requires
        k <= 3,
        b.len() > k,
        forall|i: int| 0 <= i < k ==> (#[trigger] b[i + 1]) is Some && (b[i + 1] == Some(true) <==> mask_bit(mask, i as nat)),
    ensures
        all_sat(cube_clauses(mask, k), b),
    decreases k,
{
    if k > 0 {
        let i2 = (k - 1) as nat;
        lemma_cube_sat(mask, i2, b);
        lemma_cube_clauses_len(mask, i2);
        let cs = cube_clauses(mask, k);
        let lit: i32 = if mask_bit(mask, i2) {
            (i2 + 1) as i32
        } else {
            -((i2 + 1) as int) as i32
        };
        assert(cs == cube_clauses(mask, i2).push(seq![lit]));
        assert(lit_var(lit) == k);
        assert(b[i2 + 1int] is Some);
        assert(crate::sat::lit_value(lit, b) == Some(true));
        assert(crate::sat::clause_sat(seq![lit], b)) by {
            assert(seq![lit][0] == lit);
        }
        assert forall|i: int| 0 <= i < cs.len() implies crate::sat::clause_sat(#[trigger] cs[i], b) by {
            if i < cs.len() - 1 {
                assert(cs[i] == cube_clauses(mask, i2)[i]);
            }
        }
    }
}

/// The bits of the masks below eight.
proof fn lemma_mask_bits(m: nat)
    requires
        m < 8,
    ensures
        mask_bit(m, 0) == (m % 2 == 1),
        mask_bit(m, 1) == ((m / 2) % 2 == 1),
        mask_bit(m, 2) == ((m / 4) % 2 == 1),
{
    reveal_with_fuel(pw, 4);
    assert(pw(0) == 1);
    assert(m / 1 == m) by (nonlinear_arith);
}

/// Every assignment that satisfies the clauses can be completed so that it
/// also satisfies the cube of one of the masks: the cubes cover every case.
proof fn lemma_cubes_cover(cs: Seq<Seq<i32>>, k: nat, b: Seq<Option<bool>>) -> (r: (nat, Seq<Option<bool>>))
    requires
        1 <= k <= 3,
        b.len() > k,
        all_sat(cs, b),
    ensures
        r.0 < pw(k),
        r.1.len() == b.len(),
        all_sat(cs + cube_clauses(r.0, k), r.1),
{
    let b2 = Seq::new(b.len(), |j: int| if 1 <= j <= k && b[j] is None { Some(false) } else { b[j] });
    assert(extends(b, b2));
    crate::sat::lemma_sat_monotone(cs, b, b2);
    let t1: nat = if b2[1] == Some(true) { 1 } else { 0 };
    let t2: nat = if k >= 2 && b2[2] == Some(true) { 2 } else { 0 };
    let t3: nat = if k >= 3 && b2[3] == Some(true) { 4 } else { 0 };
    let m: nat = t1 + t2 + t3;
    reveal_with_fuel(pw, 4);
    lemma_mask_bits(m);
    assert forall|i: int| 0 <= i < k implies (#[trigger] b2[i + 1]) is Some && (b2[i + 1] == Some(true) <==> mask_bit(m, i as nat)) by {
        assert(1 <= i + 1 <= k);
    }
    lemma_cube_sat(m, k, b2);
    let all = cs + cube_clauses(m, k);
    assert forall|i: int| 0 <= i < all.len() implies crate::sat::clause_sat(#[trigger] all[i], b2) by {
        if i < cs.len() {
            assert(all[i] == cs[i]);
        } else {
            assert(all[i] == cube_clauses(m, k)[i - cs.len()]);
        }
    }
    (m, b2)
}

// ---------------------------------------------------------------------------
// Text of a plan
// ---------------------------------------------------------------------------

/// One step as a list item, with its source where it has one.
pub open spec fn step_line(st: PlanStepV) -> Seq<char> {
    match st.source {
        Some(src) => "- "@ + decimal(st.order as nat) + ". "@ + st.action + " (source: "@ + src + ")"@,
        None => "- "@ + decimal(st.order as nat) + ". "@ + st.action,
    }
}

/// The steps of a plan as a list.
pub open spec fn render_steps(steps: Seq<PlanStepV>) -> Seq<char> {
    if steps.len() == 0 {
        "- No satisfying plan was found."@
    } else {
        join(steps.map_values(|st: PlanStepV| step_line(st)), "\n"@)
    }
}

pub fn render_steps_exec(steps: &Vec<PlanStep>) -> (r: String)
    ensures
        r@ == render_steps(step_views(steps@)),
{
    if steps.len() == 0 {
        return "- No satisfying plan was found.".to_owned();
    }
    let ghost sv = step_views(steps@);
    let mut out = String::new();
    let mut i: usize = 0;
    assert(sv.take(0).map_values(|st: PlanStepV| step_line(st)) =~= Seq::<Seq<char>>::empty());
    while i < steps.len()
        invariant
            i <= steps@.len(),
            sv == step_views(steps@),
            out@ == join(sv.take(i as int).map_values(|st: PlanStepV| step_line(st)), "\n"@),
        decreases steps@.len() - i,
    {
        let st = &steps[i];
        let ghost before = out@;
        if i > 0 {
            out.push_str("\n");
        }
        let ghost mid = out@;
        out.push_str("- ");
        let digits = u64_text(st.order as u64);
        push_chars(&mut out, &digits);
        out.push_str(". ");
        out.push_str(st.action.as_str());
        match &st.source {
            Some(src) => {
                out.push_str(" (source: ");
                out.push_str(src.as_str());
                out.push_str(")");
            },
            None => {},
        }
        assert(out@ =~= mid + step_line(sv[i as int]));
        let ghost ls = sv.take(i + 1).map_values(|st: PlanStepV| step_line(st));
        assert(ls.drop_last() =~= sv.take(i as int).map_values(|st: PlanStepV| step_line(st)));
        assert(ls.last() == step_line(sv[i as int]));
        i += 1;
        proof {
            if i == 1 {
                assert(out@ =~= ls[0]);
            } else {
                assert(out@ =~= join(ls.drop_last(), "\n"@) + "\n"@ + ls.last());
            }
        }
    }
    assert(sv.take(sv.len() as int) =~= sv);
    out
}

/// The literals of a clause, each followed by a space.
pub open spec fn lits_text(c: Seq<i32>) -> Seq<char>
    decreases c.len(),
{
    if c.len() == 0 {
        Seq::empty()
    } else {
        lits_text(c.drop_last()) + signed_decimal(c.last() as int) + " "@
    }
}

pub open spec fn clauses_text(cs: Seq<Seq<i32>>) -> Seq<char>
    decreases cs.len(),
{
    if cs.len() == 0 {
        Seq::empty()
    } else {
        clauses_text(cs.drop_last()) + lits_text(cs.last()) + "0\n"@
    }
}

/// The problem in DIMACS CNF form.
pub open spec fn dimacs(vars: nat, cs: Seq<Seq<i32>>) -> Seq<char> {
    "p cnf "@ + decimal(vars) + " "@ + decimal(cs.len()) + "\n"@ + clauses_text(cs)
}

pub fn dimacs_string(vars: usize, clauses: &Vec<RuleClause>) -> (r: String)
    ensures
        r@ == dimacs(vars as nat, rule_clause_views(clauses@)),
{
    let ghost cs = rule_clause_views(clauses@);
    let mut out = String::new();
    out.push_str("p cnf ");
    push_chars(&mut out, &u64_text(vars as u64));
    out.push_str(" ");
    push_chars(&mut out, &u64_text(clauses.len() as u64));
    out.push_str("\n");
    let ghost head = out@;
    let mut i: usize = 0;
    assert(cs.take(0) =~= Seq::<Seq<i32>>::empty());
    assert(head + Seq::<char>::empty() =~= head);
    while i < clauses.len()
        invariant
            i <= clauses@.len(),
            cs == rule_clause_views(clauses@),
            out@ == head + clauses_text(cs.take(i as int)),
        decreases clauses@.len() - i,
    {
        let c = &clauses[i].clause;
        assert(cs[i as int] == c@);
        let ghost start = out@;
        let mut k: usize = 0;
        assert(c@.take(0) =~= Seq::<i32>::empty());
        assert(start + Seq::<char>::empty() =~= start);
        while k < c.len()
            invariant
                k <= c@.len(),
                out@ == start + lits_text(c@.take(k as int)),
            decreases c@.len() - k,
        {
            push_chars(&mut out, &i64_text(c[k] as i64));
            out.push_str(" ");
            assert(c@.take(k + 1).drop_last() =~= c@.take(k as int));
            k += 1;
            assert(out@ =~= start + lits_text(c@.take(k as int)));
        }
        assert(c@.take(c@.len() as int) =~= c@);
        out.push_str("0\n");
        assert(cs.take(i + 1).drop_last() =~= cs.take(i as int));
        i += 1;
        assert(out@ =~= head + clauses_text(cs.take(i as int)));
    }
    assert(cs.take(cs.len() as int) =~= cs);
    assert(out@ =~= dimacs(vars as nat, cs));
    out
}

/// The first six words of the normalised goal joined by hyphens (`goal`
/// where there are none), then a hyphen and the time as digits.
pub open spec fn plan_slug(goal: Seq<char>, now: Timestamp) -> Seq<char> {
    let ws = words(normalize(goal));
    let k = if ws.len() < 6 {
        ws.len() as int
    } else {
        6
    };
    let base = join(ws.take(k), "-"@);
    (if base.len() == 0 {
        "goal"@
    } else {
        base
    }) + "-"@ + compact_stamp_text(now.secs, now.nanos)
}

pub fn plan_slug_exec(goal: &str, now: &Timestamp) -> (r: String)
    requires
        now.valid(),
    ensures
        r@ == plan_slug(goal@, *now),
{
    let ws = split_words(&normalize_chars(&chars_of(goal)));
    let ghost wv = views(ws@);
    let k = if ws.len() < 6 {
        ws.len()
    } else {
        6
    };
    let mut first: Vec<Vec<char>> = Vec::new();
    let mut i: usize = 0;
    while i < k
        invariant
            i <= k <= ws@.len(),
            wv == views(ws@),
            views(first@) == wv.take(i as int),
        decreases k - i,
    {
        let w = crate::text::copy_range(&ws[i], 0, ws[i].len());
        assert(w@ =~= wv[i as int]);
        let ghost before = views(first@);
        first.push(w);
        assert(views(first@) =~= before.push(wv[i as int]));
        assert(wv.take(i + 1) =~= wv.take(i as int).push(wv[i as int]));
        i += 1;
    }
    let base = crate::text::join_chars(&first, &chars_of("-"));
    let mut out = if base.len() == 0 {
        "goal".to_owned()
    } else {
        string_of(&base)
    };
    out.push_str("-");
    let stamp = compact_stamp(now);
    out.push_str(stamp.as_str());
    out
}

} // verus!
