//! Storing a plan back into memory: its goal, steps, SAT encoding and proof
//! report as sections, linked to each other and to the sections the steps
//! came from, with a line on the timeline.
use vstd::prelude::*;
use crate::document::{
    DocumentV, GraphInfo, GraphInfoV, GraphRelation, GraphRelationV, MetaV, RbmemDocument, SectionType, SectionV,
    SourceInfo, SourceInfoV, Temporal, section_views,
};
use crate::planner::SatStatus;
use crate::plan::PlanningProblem;
use crate::plan_json::{plan_sat_json, proof_record, proof_report_json, sat_record};
use crate::json::pretty_json;
use crate::report::ProofReport;
use crate::steps::{render_steps, render_steps_exec, step_views, PlanStep, PlanStepV, SolverResult};
use crate::text::{decimal, push_chars, u64_text};
use crate::time::{expiry_fits, rfc3339, rfc3339_text, Timestamp};

verus! {

pub open spec fn planner_source() -> SourceInfoV {
    SourceInfoV { kind: "planner"@, path: None, actor: Some("rbmem plan"@), hash: None }
}

/// A relation that the planner records, valid from now.
pub open spec fn plan_relation(to: Seq<char>, relation_type: Seq<char>, now: Timestamp) -> GraphRelationV {
    GraphRelationV {
        to,
        relation_type,
        valid_from: Some(now),
        valid_until: None,
        inferred: false,
        confidence: None,
    }
}

/// `relation`.
pub fn relation(to: &str, relation_type: &str, now: Timestamp) -> (r: GraphRelation)
    ensures
        r@ == plan_relation(to@, relation_type@, now),
{
    GraphRelation {
        to: to.to_owned(),
        relation_type: relation_type.to_owned(),
        valid_from: Some(now),
        valid_until: None,
        inferred: false,
        confidence: None,
    }
}

/// The first section with this path marked as the planner's, with a node
/// type and relations, and updated now.
pub open spec fn spec_set_metadata(
    d: DocumentV,
    path: Seq<char>,
    node_type: Seq<char>,
    rels: Seq<GraphRelationV>,
    now: Timestamp,
) -> DocumentV {
    match d.first_index_of(path) {
        Some(i) => DocumentV {
            sections: d.sections.update(
                i,
                SectionV {
                    source: Some(planner_source()),
                    graph: Some(GraphInfoV { node_type: Some(node_type), relations: rels }),
                    temporal: Temporal { updated_at: now, ..d.sections[i].temporal },
                    ..d.sections[i]
                },
            ),
            ..d
        },
        None => d,
    }
}

pub fn set_planner_section_metadata(
    document: &mut RbmemDocument,
    path: &str,
    node_type: &str,
    relations: Vec<GraphRelation>,
    now: Timestamp,
)
    ensures
        final(document)@ == spec_set_metadata(
            old(document)@,
            path@,
            node_type@,
            crate::document::relation_views(relations@),
            now,
        ),
{
    match document.find_index(path) {
        Some(i) => {
            let mut section = document.sections[i].duplicate();
            section.source = Some(
                SourceInfo {
                    kind: "planner".to_owned(),
                    path: None,
                    actor: Some("rbmem plan".to_owned()),
                    hash: None,
                },
            );
            section.graph = Some(GraphInfo { node_type: Some(node_type.to_owned()), relations });
            section.temporal.updated_at = now;
            let ghost before = section_views(document.sections@);
            document.sections.set(i, section);
            assert(section_views(document.sections@) =~= before.update(i as int, section@));
        },
        None => {},
    }
}

pub open spec fn status_debug(s: SatStatus) -> Seq<char> {
    match s {
        SatStatus::Sat => "Sat"@,
        SatStatus::Unsat => "Unsat"@,
    }
}

/// The timeline line of a plan.
pub open spec fn timeline_entry(now: Timestamp, goal: Seq<char>, status: SatStatus, steps: nat) -> Seq<char> {
    rfc3339_text(now.secs, now.nanos) + ": SAT plan '"@ + goal + "' produced "@ + status_debug(status) + " with "@
        + decimal(steps) + " step(s)."@
}

pub open spec fn step_sources(steps: Seq<PlanStepV>, now: Timestamp) -> Seq<GraphRelationV>
    decreases steps.len(),
{
    if steps.len() == 0 {
        Seq::empty()
    } else {
        let prev = step_sources(steps.drop_last(), now);
        match steps.last().source {
            Some(s) => prev.push(plan_relation(s, "uses_context"@, now)),
            None => prev,
        }
    }
}

/// The document after a plan is stored in it.
pub open spec fn spec_record_plan(
    d: DocumentV,
    plan_path: Seq<char>,
    goal: Seq<char>,
    steps: Seq<PlanStepV>,
    status: SatStatus,
    sat_json: Seq<char>,
    proof_json: Seq<char>,
    now: Timestamp,
) -> DocumentV {
    let goal_path = plan_path + ".goal"@;
    let steps_path = plan_path + ".steps"@;
    let sat_path = plan_path + ".sat"@;
    let proof_path = plan_path + ".proof"@;
    let d1 = RbmemDocument::spec_upsert(d, goal_path, SectionType::Text, goal, now);
    let d2 = RbmemDocument::spec_upsert(d1, steps_path, SectionType::List, render_steps(steps), now);
    let d3 = RbmemDocument::spec_upsert(d2, sat_path, SectionType::Json, sat_json, now);
    let d4 = RbmemDocument::spec_upsert(d3, proof_path, SectionType::Json, proof_json, now);
    let d5 = RbmemDocument::spec_upsert(
        d4,
        "timeline"@,
        SectionType::Timeline,
        timeline_entry(now, goal, status, steps.len()),
        now,
    );
    let d6 = spec_set_metadata(
        d5,
        goal_path,
        "plan_goal"@,
        seq![plan_relation(steps_path, "has_steps"@, now), plan_relation(sat_path, "encoded_as"@, now)],
        now,
    );
    let d7 = spec_set_metadata(d6, steps_path, "plan_steps"@, step_sources(steps, now), now);
    let d8 = spec_set_metadata(
        d7,
        sat_path,
        "sat_problem"@,
        seq![plan_relation(goal_path, "solves"@, now), plan_relation(proof_path, "has_proof"@, now)],
        now,
    );
    spec_set_metadata(d8, proof_path, "sat_proof"@, seq![plan_relation(sat_path, "verifies"@, now)], now)
}

fn join_path(base: &str, suffix: &str) -> (r: String)
    ensures
        r@ == base@ + suffix@,
{
    let mut s = base.to_owned();
    s.push_str(suffix);
    s
}

/// Stores a plan in the document: sections for its goal, steps, SAT
/// encoding and proof report under `plan_path`, a timeline entry, and the
/// relations between them; writing the file is left to the caller. The
/// encoding and the proof report are stored as pretty-printed JSON records.
pub fn record_plan(
    document: &mut RbmemDocument,
    plan_path: &str,
    problem: &PlanningProblem,
    solve: &SolverResult,
    steps: &Vec<PlanStep>,
    proof: &ProofReport,
    dimacs: &str,
    now: Timestamp,
)
    requires
        now.valid(),
        expiry_fits(now, old(document)@.meta.default_expiry_days),
    ensures
        final(document)@ == spec_record_plan(
            old(document)@,
            plan_path@,
            problem@.goal,
            step_views(steps@),
            solve.status,
            pretty_json(sat_record(problem@, solve.status, solve.solver@, step_views(steps@), dimacs@)),
            pretty_json(proof_record(*proof)),
            now,
        ),
{
    let goal = problem.goal.as_str();
    let status = solve.status;
    let sat_json = plan_sat_json(problem, solve, steps, dimacs);
    let proof_json = proof_report_json(proof);
    let goal_path = join_path(plan_path, ".goal");
    let steps_path = join_path(plan_path, ".steps");
    let sat_path = join_path(plan_path, ".sat");
    let proof_path = join_path(plan_path, ".proof");
    document.upsert_section(goal_path.as_str(), SectionType::Text, goal.to_owned(), now);
    document.upsert_section(steps_path.as_str(), SectionType::List, render_steps_exec(steps), now);
    document.upsert_section(sat_path.as_str(), SectionType::Json, sat_json, now);
    document.upsert_section(proof_path.as_str(), SectionType::Json, proof_json, now);
    let mut entry = rfc3339(&now);
    entry.push_str(": SAT plan '");
    entry.push_str(goal);
    entry.push_str("' produced ");
    entry.push_str(
        match status {
            SatStatus::Sat => "Sat",
            SatStatus::Unsat => "Unsat",
        },
    );
    entry.push_str(" with ");
    push_chars(&mut entry, &u64_text(steps.len() as u64));
    entry.push_str(" step(s).");
    assert(entry@ =~= timeline_entry(now, goal@, status, steps@.len()));
    document.upsert_section("timeline", SectionType::Timeline, entry, now);
    let mut goal_rels: Vec<GraphRelation> = Vec::new();
    goal_rels.push(relation(steps_path.as_str(), "has_steps", now));
    goal_rels.push(relation(sat_path.as_str(), "encoded_as", now));
    assert(crate::document::relation_views(goal_rels@) =~= seq![
        plan_relation(steps_path@, "has_steps"@, now),
        plan_relation(sat_path@, "encoded_as"@, now),
    ]);
    set_planner_section_metadata(document, goal_path.as_str(), "plan_goal", goal_rels, now);
    let mut step_rels: Vec<GraphRelation> = Vec::new();
    let ghost sv = step_views(steps@);
    let mut i: usize = 0;
    assert(sv.take(0) =~= Seq::<PlanStepV>::empty());
    assert(crate::document::relation_views(step_rels@) =~= Seq::<GraphRelationV>::empty());
    while i < steps.len()
        invariant
            i <= steps@.len(),
            sv == step_views(steps@),
            crate::document::relation_views(step_rels@) == step_sources(sv.take(i as int), now),
        decreases steps@.len() - i,
    {
        assert(sv.take(i + 1).drop_last() =~= sv.take(i as int));
        assert(sv.take(i + 1).last() == steps@[i as int]@);
        match &steps[i].source {
            Some(src) => {
                let ghost before = crate::document::relation_views(step_rels@);
                let r = relation(src.as_str(), "uses_context", now);
                step_rels.push(r);
                assert(crate::document::relation_views(step_rels@) =~= before.push(r@));
            },
            None => {},
        }
        i += 1;
    }
    assert(sv.take(sv.len() as int) =~= sv);
    set_planner_section_metadata(document, steps_path.as_str(), "plan_steps", step_rels, now);
    let mut sat_rels: Vec<GraphRelation> = Vec::new();
    sat_rels.push(relation(goal_path.as_str(), "solves", now));
    sat_rels.push(relation(proof_path.as_str(), "has_proof", now));
    assert(crate::document::relation_views(sat_rels@) =~= seq![
        plan_relation(goal_path@, "solves"@, now),
        plan_relation(proof_path@, "has_proof"@, now),
    ]);
    set_planner_section_metadata(document, sat_path.as_str(), "sat_problem", sat_rels, now);
    let mut proof_rels: Vec<GraphRelation> = Vec::new();
    proof_rels.push(relation(sat_path.as_str(), "verifies", now));
    assert(crate::document::relation_views(proof_rels@) =~= seq![plan_relation(sat_path@, "verifies"@, now)]);
    set_planner_section_metadata(document, proof_path.as_str(), "sat_proof", proof_rels, now);
}

} // verus!
