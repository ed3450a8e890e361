//! The internal SAT solver of the planner: clauses over numbered variables,
//! partial assignments, clause evaluation, and DPLL with unit propagation.
//! Variable `v` is written as literal `v` (true) or `-v` (false); entry 0 of
//! an assignment is unused.
use vstd::prelude::*;

verus! {

pub open spec fn lit_var(l: i32) -> int {
    if l < 0 {
        -(l as int)
    } else {
        l as int
    }
}

/// The value a literal takes under a partial assignment, if its variable is
/// assigned.
pub open spec fn lit_value(l: i32, a: Seq<Option<bool>>) -> Option<bool> {
    if 0 <= lit_var(l) < a.len() {
        match a[lit_var(l)] {
            Some(v) => Some(v == (l > 0)),
            None => None,
        }
    } else {
        None
    }
}

pub open spec fn clause_sat(c: Seq<i32>, a: Seq<Option<bool>>) -> bool {
    exists|k: int| 0 <= k < c.len() && lit_value(c[k], a) == Some(true)
}

/// Two distinct literals of the clause are unassigned.
pub open spec fn two_open(c: Seq<i32>, a: Seq<Option<bool>>) -> bool {
    exists|j: int, k: int| 0 <= j < k < c.len() && lit_value(c[j], a) is None && lit_value(c[k], a) is None
}

/// A clause that unit propagation leaves alone: it is satisfied, or it still
/// has two unassigned literals.
pub open spec fn settled(c: Seq<i32>, a: Seq<Option<bool>>) -> bool {
    clause_sat(c, a) || two_open(c, a)
}

/// Every clause has a true literal.
pub open spec fn all_sat(cs: Seq<Seq<i32>>, a: Seq<Option<bool>>) -> bool {
    forall|i: int| 0 <= i < cs.len() ==> clause_sat(#[trigger] cs[i], a)
}

/// `b` keeps every value that `a` assigns.
pub open spec fn extends(a: Seq<Option<bool>>, b: Seq<Option<bool>>) -> bool {
    a.len() == b.len() && forall|i: int| 0 <= i < a.len() && (#[trigger] a[i]) is Some ==> b[i] == a[i]
}

/// Every literal names a variable of the assignment.
pub open spec fn vars_in_range(cs: Seq<Seq<i32>>, n: int) -> bool {
    forall|i: int, k: int| 0 <= i < cs.len() && 0 <= k < cs[i].len() ==> lit_var(#[trigger] cs[i][k]) < n
}

pub open spec fn count_none(a: Seq<Option<bool>>) -> nat
    decreases a.len(),
{
    if a.len() == 0 {
        0
    } else {
        count_none(a.drop_last()) + if a.last() is None {
            1nat
        } else {
            0nat
        }
    }
}

#[derive(Debug, Clone, Copy, PartialEq, Eq, Structural)]
pub enum ClauseEval {
    Satisfied,
    Conflict,
    Unit(i32),
    Open,
}

pub proof fn lemma_sat_monotone(cs: Seq<Seq<i32>>, a: Seq<Option<bool>>, b: Seq<Option<bool>>)
    requires
        extends(a, b),
        all_sat(cs, a),
    ensures
        all_sat(cs, b),
{
    assert forall|i: int| 0 <= i < cs.len() implies clause_sat(#[trigger] cs[i], b) by {
        let k = choose|k: int| 0 <= k < cs[i].len() && lit_value(cs[i][k], a) == Some(true);
        assert(a[lit_var(cs[i][k])] is Some);
        assert(lit_value(cs[i][k], b) == Some(true));
    }
}

pub proof fn lemma_count_none_update(a: Seq<Option<bool>>, i: int, v: bool)
    requires
        0 <= i < a.len(),
        a[i] is None,
    ensures
        count_none(a.update(i, Some(v))) + 1 == count_none(a),
    decreases a.len(),
{
    if i == a.len() - 1 {
        assert(a.update(i, Some(v)).drop_last() =~= a.drop_last());
    } else {
        lemma_count_none_update(a.drop_last(), i, v);
        assert(a.update(i, Some(v)).drop_last() =~= a.drop_last().update(i, Some(v)));
    }
}

pub proof fn lemma_count_none_zero(a: Seq<Option<bool>>, i: int)
    requires
        0 <= i < a.len(),
        a[i] is None,
    ensures
        count_none(a) > 0,
    decreases a.len(),
{
    if i < a.len() - 1 {
        lemma_count_none_zero(a.drop_last(), i);
    }
}

pub proof fn lemma_extends_trans(a: Seq<Option<bool>>, b: Seq<Option<bool>>, c: Seq<Option<bool>>)
    requires
        extends(a, b),
        extends(b, c),
    ensures
        extends(a, c),
{
    assert forall|i: int| 0 <= i < a.len() && (#[trigger] a[i]) is Some implies c[i] == a[i] by {
        assert(b[i] is Some);
    }
}

/// Evaluates a clause under a partial assignment.
pub fn eval_clause(clause: &Vec<i32>, assignment: &Vec<Option<bool>>) -> (r: ClauseEval)
    ensures
        r is Satisfied <==> clause_sat(clause@, assignment@),
        r is Conflict ==> forall|k: int| 0 <= k < clause@.len() ==> lit_value(#[trigger] clause@[k], assignment@) == Some(false),
        r matches ClauseEval::Unit(l) ==> exists|k: int|
            0 <= k < clause@.len() && clause@[k] == l && lit_value(l, assignment@) is None && forall|j: int|
                0 <= j < clause@.len() && j != k ==> lit_value(#[trigger] clause@[j], assignment@) == Some(false),
        r is Open ==> !clause_sat(clause@, assignment@) && two_open(clause@, assignment@),
{
    let mut unassigned: i32 = 0;
    let mut unassigned_at: usize = 0;
    let mut count: usize = 0;
    let mut i: usize = 0;
    while i < clause.len()
        invariant
            i <= clause@.len(),
            count <= i,
            forall|k: int| 0 <= k < i ==> lit_value(#[trigger] clause@[k], assignment@) != Some(true),
            count == 0 ==> forall|k: int| 0 <= k < i ==> lit_value(#[trigger] clause@[k], assignment@) == Some(false),
            count == 1 ==> unassigned_at < i && clause@[unassigned_at as int] == unassigned && lit_value(
                unassigned,
                assignment@,
            ) is None && forall|j: int|
                0 <= j < i && j != unassigned_at ==> lit_value(#[trigger] clause@[j], assignment@) == Some(false),
            count >= 2 ==> exists|j: int, k: int|
                0 <= j < k < i && lit_value(clause@[j], assignment@) is None && lit_value(clause@[k], assignment@) is None,
        decreases clause@.len() - i,
    {
        let lit = clause[i];
        let var: usize = if lit < 0 {
            (0i64 - (lit as i64)) as usize
        } else {
            lit as usize
        };
        assert(var as int == lit_var(lit));
        let value = if var < assignment.len() {
            assignment[var]
        } else {
            None
        };
        match value {
            Some(v) => {
                if v == (lit > 0) {
                    assert(lit_value(clause@[i as int], assignment@) == Some(true));
                    return ClauseEval::Satisfied;
                }
            },
            None => {
                unassigned = lit;
                unassigned_at = i;
                count = count + 1;
            },
        }
        i += 1;
    }
    if count == 0 {
        ClauseEval::Conflict
    } else if count == 1 {
        ClauseEval::Unit(unassigned)
    } else {
        ClauseEval::Open
    }
}

pub open spec fn clause_views(cs: Seq<Vec<i32>>) -> Seq<Seq<i32>> {
    cs.map_values(|c: Vec<i32>| c@)
}

/// Every clause evaluates to `Satisfied`.
fn all_satisfied(clauses: &Vec<Vec<i32>>, assignment: &Vec<Option<bool>>) -> (r: bool)
    ensures
        r == all_sat(clause_views(clauses@), assignment@),
{
    let mut i: usize = 0;
    while i < clauses.len()
        invariant
            i <= clauses@.len(),
            forall|j: int| 0 <= j < i ==> clause_sat(#[trigger] clause_views(clauses@)[j], assignment@),
        decreases clauses@.len() - i,
    {
        assert(clause_views(clauses@)[i as int] == clauses@[i as int]@);
        match eval_clause(&clauses[i], assignment) {
            ClauseEval::Satisfied => {},
            _ => {
                return false;
            },
        }
        i += 1;
    }
    true
}

/// The result of one round of unit propagation.
pub enum Propagation {
    Conflict,
    Progress,
    Stable,
}

/// One pass of unit propagation over the clauses: every clause with a
/// single unassigned literal and no true one makes that literal true.
fn propagate_once(clauses: &Vec<Vec<i32>>, assignment: &mut Vec<Option<bool>>) -> (r: Propagation)
    requires
        vars_in_range(clause_views(clauses@), old(assignment)@.len() as int),
    ensures
        extends(old(assignment)@, final(assignment)@),
        r is Progress ==> count_none(final(assignment)@) < count_none(old(assignment)@),
        r is Stable ==> final(assignment)@ == old(assignment)@,
        r is Stable ==> forall|j: int| 0 <= j < clauses@.len() ==> settled(#[trigger] clause_views(clauses@)[j], old(assignment)@),
        r is Conflict ==> forall|b: Seq<Option<bool>>|
            extends(old(assignment)@, b) ==> !all_sat(clause_views(clauses@), b),
        !(r is Conflict) ==> forall|b: Seq<Option<bool>>|
            extends(old(assignment)@, b) && all_sat(clause_views(clauses@), b) ==> extends(final(assignment)@, b),
{
    let ghost cs = clause_views(clauses@);
    let mut changed = false;
    let mut i: usize = 0;
    while i < clauses.len()
        invariant
            i <= clauses@.len(),
            cs == clause_views(clauses@),
            assignment@.len() == old(assignment)@.len(),
            vars_in_range(cs, assignment@.len() as int),
            extends(old(assignment)@, assignment@),
            changed ==> count_none(assignment@) < count_none(old(assignment)@),
            !changed ==> assignment@ == old(assignment)@,
            !changed ==> forall|j: int| 0 <= j < i ==> settled(#[trigger] cs[j], assignment@),
            forall|b: Seq<Option<bool>>|
                extends(old(assignment)@, b) && all_sat(cs, b) ==> extends(assignment@, b),
        decreases clauses@.len() - i,
    {
        assert(cs[i as int] == clauses@[i as int]@);
        match eval_clause(&clauses[i], assignment) {
            ClauseEval::Satisfied => {},
            ClauseEval::Conflict => {
                proof {
                    assert forall|b: Seq<Option<bool>>|
                        extends(old(assignment)@, b) implies !all_sat(cs, b) by {
                        if all_sat(cs, b) {
                            assert(extends(assignment@, b));
                            assert(clause_sat(cs[i as int], b));
                            let k = choose|k: int| 0 <= k < cs[i as int].len() && lit_value(cs[i as int][k], b) == Some(true);
                            assert(lit_value(clauses@[i as int]@[k], assignment@) == Some(false));
                            assert(assignment@[lit_var(cs[i as int][k])] is Some);
                        }
                    }
                }
                return Propagation::Conflict;
            },
            ClauseEval::Unit(lit) => {
                let ghost kk = choose|k: int|
                    0 <= k < clauses@[i as int]@.len() && clauses@[i as int]@[k] == lit && lit_value(lit, assignment@) is None
                        && forall|j: int|
                        0 <= j < clauses@[i as int]@.len() && j != k ==> lit_value(
                            #[trigger] clauses@[i as int]@[j],
                            assignment@,
                        ) == Some(false);
                assert(lit_var(cs[i as int][kk]) < assignment@.len());
                let var: usize = if lit < 0 {
                    (0i64 - (lit as i64)) as usize
                } else {
                    lit as usize
                };
                let value = lit > 0;
                let ghost before = assignment@;
                assert(before[var as int] is None);
                assignment.set(var, Some(value));
                proof {
                    lemma_count_none_update(before, var as int, value);
                    assert(extends(before, assignment@));
                    lemma_extends_trans(old(assignment)@, before, assignment@);
                    assert forall|b: Seq<Option<bool>>|
                        extends(old(assignment)@, b) && all_sat(cs, b) implies extends(assignment@, b) by {
                        assert(extends(before, b));
                        assert(clause_sat(cs[i as int], b));
                        let k = choose|k: int| 0 <= k < cs[i as int].len() && lit_value(cs[i as int][k], b) == Some(true);
                        if k != kk {
                            assert(lit_value(clauses@[i as int]@[k], before) == Some(false));
                            assert(before[lit_var(cs[i as int][k])] is Some);
                        }
                        assert(b[var as int] == Some(value));
                        assert forall|j: int| 0 <= j < assignment@.len() && (#[trigger] assignment@[j]) is Some implies b[j]
                            == assignment@[j] by {
                            if j != var {
                                assert(before[j] is Some);
                            }
                        }
                    }
                }
                changed = true;
            },
            ClauseEval::Open => {},
        }
        i += 1;
    }
    if changed {
        Propagation::Progress
    } else {
        Propagation::Stable
    }
}

fn first_unassigned(assignment: &Vec<Option<bool>>) -> (r: Option<usize>)
    ensures
        r matches Some(i) ==> i < assignment@.len() && assignment@[i as int] is None,
        r is None ==> forall|i: int| 0 <= i < assignment@.len() ==> (#[trigger] assignment@[i]) is Some,
{
    let mut i: usize = 0;
    while i < assignment.len()
        invariant
            i <= assignment@.len(),
            forall|j: int| 0 <= j < i ==> (#[trigger] assignment@[j]) is Some,
        decreases assignment@.len() - i,
    {
        if assignment[i].is_none() {
            return Some(i);
        }
        i += 1;
    }
    None
}

/// DPLL with unit propagation: on success the assignment, extended,
/// satisfies every clause; on failure no extension of the given assignment
/// does.
pub fn dpll(clauses: &Vec<Vec<i32>>, assignment: &mut Vec<Option<bool>>) -> (r: bool)
    requires
        vars_in_range(clause_views(clauses@), old(assignment)@.len() as int),
    ensures
        extends(old(assignment)@, final(assignment)@),
        r ==> all_sat(clause_views(clauses@), final(assignment)@),
        !r ==> forall|b: Seq<Option<bool>>|
            extends(old(assignment)@, b) ==> !all_sat(clause_views(clauses@), b),
    decreases count_none(old(assignment)@),
{
    let ghost cs = clause_views(clauses@);
    loop
        invariant
            cs == clause_views(clauses@),
            vars_in_range(cs, assignment@.len() as int),
            extends(old(assignment)@, assignment@),
            count_none(assignment@) <= count_none(old(assignment)@),
            forall|b: Seq<Option<bool>>|
                extends(old(assignment)@, b) && all_sat(cs, b) ==> extends(assignment@, b),
        decreases count_none(assignment@),
    {
        let ghost before = assignment@;
        match propagate_once(clauses, assignment) {
            Propagation::Conflict => {
                proof {
                    assert forall|b: Seq<Option<bool>>| extends(old(assignment)@, b) implies !all_sat(cs, b) by {
                        if all_sat(cs, b) {
                            assert(extends(before, b));
                        }
                    }
                }
                return false;
            },
            Propagation::Progress => {
                proof {
                    lemma_extends_trans(old(assignment)@, before, assignment@);
                    assert forall|b: Seq<Option<bool>>|
                        extends(old(assignment)@, b) && all_sat(cs, b) implies extends(assignment@, b) by {
                        assert(extends(before, b));
                    }
                }
            },
            Propagation::Stable => {
                break;
            },
        }
    }
    if all_satisfied(clauses, assignment) {
        return true;
    }
    let var = match first_unassigned(assignment) {
        Some(v) => v,
        None => {
            proof {
                assert forall|b: Seq<Option<bool>>| extends(old(assignment)@, b) implies !all_sat(cs, b) by {
                    if all_sat(cs, b) {
                        assert(extends(assignment@, b));
                        assert(b =~= assignment@);
                    }
                }
            }
            return false;
        },
    };
    proof {
        lemma_count_none_update(assignment@, var as int, true);
        lemma_count_none_update(assignment@, var as int, false);
    }
    let mut next = assignment.clone();
    assert(next@ == assignment@);
    next.set(var, Some(true));
    if dpll(clauses, &mut next) {
        let ghost mid = assignment@;
        proof {
            assert(extends(mid, mid.update(var as int, Some(true))));
            lemma_extends_trans(mid, mid.update(var as int, Some(true)), next@);
            lemma_extends_trans(old(assignment)@, mid, next@);
        }
        *assignment = next;
        return true;
    }
    let mut next = assignment.clone();
    assert(next@ == assignment@);
    next.set(var, Some(false));
    if dpll(clauses, &mut next) {
        let ghost mid = assignment@;
        proof {
            assert(extends(mid, mid.update(var as int, Some(false))));
            lemma_extends_trans(mid, mid.update(var as int, Some(false)), next@);
            lemma_extends_trans(old(assignment)@, mid, next@);
        }
        *assignment = next;
        return true;
    }
    proof {
        let a = assignment@;
        assert forall|b: Seq<Option<bool>>| extends(old(assignment)@, b) implies !all_sat(cs, b) by {
            if all_sat(cs, b) {
                assert(extends(a, b));
                let val = match b[var as int] {
                    Some(x) => x,
                    None => true,
                };
                let b2 = b.update(var as int, Some(val));
                assert(extends(b, b2));
                lemma_sat_monotone(cs, b, b2);
                assert(extends(a.update(var as int, Some(val)), b2));
            }
        }
    }
    false
}

/// The clauses satisfied by a total assignment:
/// each has a literal whose variable's value matches its sign, a variable
/// out of range counting as false.
pub open spec fn total_value(a: Seq<bool>, var: int) -> bool {
    if 0 <= var < a.len() {
        a[var]
    } else {
        false
    }
}

pub open spec fn total_clause_sat(c: Seq<i32>, a: Seq<bool>) -> bool {
    exists|k: int| 0 <= k < c.len() && total_value(a, lit_var(c[k])) == (c[k] > 0)
}

pub open spec fn total_sat(cs: Seq<Seq<i32>>, a: Seq<bool>) -> bool {
    forall|i: int| 0 <= i < cs.len() ==> total_clause_sat(#[trigger] cs[i], a)
}

pub fn assignment_satisfies(clauses: &Vec<Vec<i32>>, assignment: &Vec<bool>) -> (r: bool)
    ensures
        r == total_sat(clause_views(clauses@), assignment@),
{
    let ghost cs = clause_views(clauses@);
    let mut i: usize = 0;
    while i < clauses.len()
        invariant
            i <= clauses@.len(),
            cs == clause_views(clauses@),
            forall|j: int| 0 <= j < i ==> total_clause_sat(#[trigger] cs[j], assignment@),
        decreases clauses@.len() - i,
    {
        let clause = &clauses[i];
        assert(cs[i as int] == clause@);
        let mut found = false;
        let mut k: usize = 0;
        while k < clause.len()
            invariant
                k <= clause@.len(),
                !found ==> forall|j: int| 0 <= j < k ==> total_value(assignment@, lit_var(#[trigger] clause@[j])) != (clause@[j] > 0),
                found ==> total_clause_sat(clause@, assignment@),
            ensures
                found ==> total_clause_sat(clause@, assignment@),
                !found ==> forall|j: int| 0 <= j < clause@.len() ==> total_value(assignment@, lit_var(#[trigger] clause@[j])) != (clause@[j] > 0),
            decreases clause@.len() - k,
        {
            let lit = clause[k];
            let var: usize = if lit < 0 {
                (0i64 - (lit as i64)) as usize
            } else {
                lit as usize
            };
            let value = if var < assignment.len() {
                assignment[var]
            } else {
                false
            };
            if value == (lit > 0) {
                found = true;
                assert(total_value(assignment@, lit_var(clause@[k as int])) == (clause@[k as int] > 0));
                break;
            }
            k += 1;
        }
        if !found {
            return false;
        }
        i += 1;
    }
    true
}

/// The concrete assignment of a partial one: unassigned variables false.
pub open spec fn concretize(a: Seq<Option<bool>>) -> Seq<bool> {
    a.map_values(|v: Option<bool>| match v {
        Some(x) => x,
        None => false,
    })
}

pub proof fn lemma_concretize_sat(cs: Seq<Seq<i32>>, a: Seq<Option<bool>>)
    requires
        all_sat(cs, a),
    ensures
        total_sat(cs, concretize(a)),
{
    assert forall|i: int| 0 <= i < cs.len() implies total_clause_sat(#[trigger] cs[i], concretize(a)) by {
        let k = choose|k: int| 0 <= k < cs[i].len() && lit_value(cs[i][k], a) == Some(true);
        assert(total_value(concretize(a), lit_var(cs[i][k])) == (cs[i][k] > 0));
    }
}

pub fn concretize_exec(a: &Vec<Option<bool>>) -> (r: Vec<bool>)
    ensures
        r@ == concretize(a@),
{
    let mut r: Vec<bool> = Vec::new();
    let mut i: usize = 0;
    while i < a.len()
        invariant
            i <= a@.len(),
            r@ == concretize(a@.take(i as int)),
        decreases a@.len() - i,
    {
        r.push(
            match a[i] {
                Some(x) => x,
                None => false,
            },
        );
        i += 1;
        assert(r@ =~= concretize(a@.take(i as int)));
    }
    assert(a@.take(a@.len() as int) =~= a@);
    r
}

} // verus!
