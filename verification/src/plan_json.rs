//! The JSON records that a stored plan keeps: the SAT encoding and its
//! outcome, and the report on a requested proof.
use vstd::prelude::*;
use crate::json::{
    json_entry_views, json_number, json_pretty, json_u64, json_view, json_views, lemma_json_views_push, push_entry,
    pretty_json, JsonV, JsonValue,
};
use crate::plan::{PlanningProblem, ProblemV};
use crate::planner::SatStatus;
use crate::report::ProofReport;
use crate::steps::{step_views, PlanStep, PlanStepV, SolverResult};
use crate::text::{chars_of, contains, contains_chars};

verus! {

/// The name a SAT outcome is written under.
pub open spec fn status_name(status: SatStatus) -> Seq<char> {
    match status {
        SatStatus::Sat => "Sat"@,
        SatStatus::Unsat => "Unsat"@,
    }
}

/// A count as a JSON number.
pub open spec fn count_json(n: nat) -> JsonV {
    JsonV::Number(json_u64(n as u64))
}

/// The numbers of the steps, in order.
pub open spec fn step_orders(steps: Seq<PlanStepV>) -> Seq<JsonV> {
    steps.map_values(|s: PlanStepV| count_json(s.order as nat))
}

/// The record of a plan's SAT encoding and outcome: its schema, the status
/// and solver, the numbers of variables and clauses, whether cube and
/// conquer was used, the numbers of the steps, the numbers of conflicts and
/// requirements, and the DIMACS text.
pub open spec fn sat_record(p: ProblemV, status: SatStatus, solver: Seq<char>, steps: Seq<PlanStepV>, dimacs: Seq<char>) -> JsonV {
    JsonV::Object(
        seq![
            ("schema"@, JsonV::Str("rbmem.plan.sat.v1"@)),
            ("status"@, JsonV::Str(status_name(status))),
            ("solver"@, JsonV::Str(solver)),
            ("variables"@, count_json(p.candidates.len())),
            ("clauses"@, count_json(p.clauses.len())),
            ("cube_and_conquer"@, JsonV::Bool(contains(solver, "cube-and-conquer"@))),
            ("selected_variables"@, JsonV::Array(step_orders(steps))),
            ("conflicts"@, count_json(p.conflicts.len())),
            ("requires"@, count_json(p.requirements.len())),
            ("dimacs"@, JsonV::Str(dimacs)),
        ],
    )
}

/// The record of a proof report: whether a proof was requested, where it
/// was written (or null), whether it was generated and verified, by which
/// verifier, and a note.
pub open spec fn proof_record(proof: ProofReport) -> JsonV {
    JsonV::Object(
        seq![
            ("requested"@, JsonV::Bool(proof.requested)),
            ("path"@, match proof.path {
                Some(p) => JsonV::Str(p@),
                None => JsonV::Null,
            }),
            ("generated"@, JsonV::Bool(proof.generated)),
            ("verified"@, JsonV::Bool(proof.verified)),
            ("verifier"@, JsonV::Str(proof.verifier@)),
            ("note"@, JsonV::Str(proof.note@)),
        ],
    )
}

fn count_value(n: usize) -> (r: JsonValue)
    ensures
        json_view(r) == count_json(n as nat),
{
    JsonValue::Number(json_number(n as u64))
}

fn sat_value(problem: &PlanningProblem, solve: &SolverResult, steps: &Vec<PlanStep>, dimacs: &str) -> (r: JsonValue)
    ensures
        json_view(r) == sat_record(problem@, solve.status, solve.solver@, step_views(steps@), dimacs@),
{
    let mut orders: Vec<JsonValue> = Vec::new();
    let mut i: usize = 0;
    while i < steps.len()
        invariant
            i <= steps@.len(),
            json_views(orders@) == step_orders(step_views(steps@)).take(i as int),
        decreases steps@.len() - i,
    {
        let ghost before = orders@;
        let v = count_value(steps[i].order);
        orders.push(v);
        proof {
            lemma_json_views_push(before, v);
            assert(step_orders(step_views(steps@)).take(i + 1) =~= step_orders(step_views(steps@)).take(i as int).push(
                count_json(steps@[i as int].order as nat),
            ));
        }
        i += 1;
    }
    assert(step_orders(step_views(steps@)).take(steps@.len() as int) =~= step_orders(step_views(steps@)));
    let status = match solve.status {
        SatStatus::Sat => "Sat",
        SatStatus::Unsat => "Unsat",
    };
    let cube = contains_chars(&chars_of(solve.solver.as_str()), &chars_of("cube-and-conquer"));
    let mut e: Vec<(String, JsonValue)> = Vec::new();
    assert(json_entry_views(e@) =~= Seq::<(Seq<char>, JsonV)>::empty());
    push_entry(&mut e, "schema", JsonValue::Str("rbmem.plan.sat.v1".to_owned()));
    push_entry(&mut e, "status", JsonValue::Str(status.to_owned()));
    push_entry(&mut e, "solver", JsonValue::Str(solve.solver.clone()));
    push_entry(&mut e, "variables", count_value(problem.candidates.len()));
    push_entry(&mut e, "clauses", count_value(problem.clauses.len()));
    push_entry(&mut e, "cube_and_conquer", JsonValue::Bool(cube));
    push_entry(&mut e, "selected_variables", JsonValue::Array(orders));
    push_entry(&mut e, "conflicts", count_value(problem.conflicts.len()));
    push_entry(&mut e, "requires", count_value(problem.requirements.len()));
    push_entry(&mut e, "dimacs", JsonValue::Str(dimacs.to_owned()));
    let ghost want = sat_record(problem@, solve.status, solve.solver@, step_views(steps@), dimacs@);
    assert(json_entry_views(e@) =~= want->Object_0);
    let r = JsonValue::Object(e);
    assert(json_view(r) == sat_record(problem@, solve.status, solve.solver@, step_views(steps@), dimacs@));
    r
}

/// The SAT record of a plan as pretty-printed JSON text.
pub fn plan_sat_json(problem: &PlanningProblem, solve: &SolverResult, steps: &Vec<PlanStep>, dimacs: &str) -> (r: String)
    ensures
        r@ == pretty_json(sat_record(problem@, solve.status, solve.solver@, step_views(steps@), dimacs@)),
{
    json_pretty(&sat_value(problem, solve, steps, dimacs))
}

/// The proof record as pretty-printed JSON text.
pub fn proof_report_json(proof: &ProofReport) -> (r: String)
    ensures
        r@ == pretty_json(proof_record(*proof)),
{
    let mut e: Vec<(String, JsonValue)> = Vec::new();
    assert(json_entry_views(e@) =~= Seq::<(Seq<char>, JsonV)>::empty());
    push_entry(&mut e, "requested", JsonValue::Bool(proof.requested));
    let path = match &proof.path {
        Some(p) => JsonValue::Str(p.clone()),
        None => JsonValue::Null,
    };
    push_entry(&mut e, "path", path);
    push_entry(&mut e, "generated", JsonValue::Bool(proof.generated));
    push_entry(&mut e, "verified", JsonValue::Bool(proof.verified));
    push_entry(&mut e, "verifier", JsonValue::Str(proof.verifier.clone()));
    push_entry(&mut e, "note", JsonValue::Str(proof.note.clone()));
    assert(json_entry_views(e@) =~= proof_record(*proof)->Object_0);
    let r = JsonValue::Object(e);
    assert(json_view(r) == proof_record(*proof));
    json_pretty(&r)
}

} // verus!
