use rbmem::plan::PlanningProblem;
use rbmem::planner::CandidateAction;
use rbmem::document::{RbmemDocument, SectionType};
use rbmem::plan::build_problem;
use rbmem::planner::SatStatus;
use rbmem::steps::{clauses_in_range_exec, order_steps, selected_indices, solve_internal};
use rbmem::time::read_time;
use rbmem::solver_text::read_solver_output;

#[test]
fn internal_solver_respects_requires_and_conflicts() {
    let now = read_time("2026-05-18T20:00:00Z").unwrap();
    let mut doc = RbmemDocument::new(now, "test");
    doc.upsert_section(
        "tasks",
        SectionType::List,
        "- Gather requirements\n- Run tests\n- Deploy release".to_string(),
        now,
    );
    doc.upsert_section(
        "rules",
        SectionType::List,
        "- deploy release requires run tests\n- gather requirements conflicts with deploy release".to_string(),
        now,
    );

    let problem = build_problem(&vec![doc], Some("deploy release"), false).unwrap();
    assert!(clauses_in_range_exec(&problem));
    let result = solve_internal(&problem);
    let selected = selected_indices(&result.assignment, &problem.candidates);
    let steps = order_steps(&problem, &selected);

    assert_eq!(result.status, SatStatus::Sat);
    assert!(steps.iter().any(|step| step.action.contains("Run tests")));
    assert!(steps.iter().any(|step| step.action.contains("Deploy release")));
    assert!(!steps.iter().any(|step| step.action.contains("Gather requirements")));
}

#[test]
fn solver_output_is_read_as_a_model() {
    let sat = read_solver_output("c comment\ns SATISFIABLE\nv 1 -2 +3 9 x 0\n", 4, "kissat").unwrap();
    assert_eq!(sat.status, SatStatus::Sat);
    assert_eq!(sat.assignment, vec![false, true, false, true]);
    assert_eq!(sat.solver, "kissat");
    let unsat = read_solver_output("s UNSATISFIABLE\n", 3, "cadical").unwrap();
    assert_eq!(unsat.status, SatStatus::Unsat);
    assert_eq!(unsat.assignment, vec![false, false, false]);
    assert!(read_solver_output("error: no input", 3, "kissat").is_none());
}

#[test]
fn required_step_comes_first_and_plan_records_are_json() {
    let now = read_time("2026-05-18T20:00:00Z").unwrap();
    let mut doc = RbmemDocument::new(now, "test");
    doc.upsert_section("tasks", SectionType::List, "- Gather requirements\n- Run tests\n- Deploy release".to_string(), now);
    doc.upsert_section(
        "rules",
        SectionType::List,
        "- deploy release requires run tests\n- gather requirements conflicts with deploy release".to_string(),
        now,
    );
    let problem = build_problem(&vec![doc], Some("deploy release"), false).unwrap();
    let result = solve_internal(&problem);
    let selected = selected_indices(&result.assignment, &problem.candidates);
    let steps = order_steps(&problem, &selected);
    assert_eq!(steps.len(), 2);
    assert_eq!(steps[0].order, 1);
    assert_eq!(steps[0].action, "Run tests");
    assert_eq!(steps[1].order, 2);
    assert_eq!(steps[1].action, "Deploy release");

    let text = rbmem::plan_json::plan_sat_json(&problem, &result, &steps, "p cnf 0 0\n");
    let value: serde_json::Value = serde_json::from_str(&text).unwrap();
    assert_eq!(value["schema"], "rbmem.plan.sat.v1");
    assert_eq!(value["status"], "Sat");
    assert_eq!(value["solver"], result.solver.as_str());
    assert_eq!(value["variables"], problem.candidates.len() as u64);
    assert_eq!(value["clauses"], problem.clauses.len() as u64);
    assert_eq!(value["cube_and_conquer"], false);
    let orders = value["selected_variables"].as_array().unwrap();
    assert_eq!(orders.len(), 2);
    assert_eq!(orders[0], 1);
    assert_eq!(orders[1], 2);
    assert_eq!(value["requires"], problem.requirements.len() as u64);
    assert_eq!(value["conflicts"], problem.conflicts.len() as u64);
    assert_eq!(value["dimacs"], "p cnf 0 0\n");
    assert_eq!(value.as_object().unwrap().len(), 10);

    let proof = rbmem::report::ProofReport {
        requested: true,
        path: None,
        generated: false,
        verified: false,
        verifier: "none".to_string(),
        note: "satisfiable".to_string(),
    };
    let p: serde_json::Value = serde_json::from_str(&rbmem::plan_json::proof_report_json(&proof)).unwrap();
    assert_eq!(p["requested"], true);
    assert!(p["path"].is_null());
    assert_eq!(p["verifier"], "none");
    assert_eq!(p["note"], "satisfiable");
    assert_eq!(p.as_object().unwrap().len(), 6);
}

#[test]
fn step_order_pops_lowest_priority_first_and_respects_requirements() {
    let cand = |title: &str, score: i64| CandidateAction {
        title: title.to_string(),
        text: title.to_string(),
        source_path: None,
        score,
    };
    let problem = PlanningProblem {
        goal: "g".to_string(),
        candidates: vec![cand("a", 5), cand("b", 1), cand("c", 3), cand("d", 9)],
        context_sections: vec![],
        clauses: vec![],
        requirements: vec![(3, 1)],
        conflicts: vec![],
    };
    let steps = order_steps(&problem, &vec![0, 1, 2, 3]);
    let titles: Vec<&str> = steps.iter().map(|s| s.action.as_str()).collect();
    assert_eq!(titles, vec!["b", "d", "c", "a"]);
    assert_eq!(steps.iter().map(|s| s.order).collect::<Vec<_>>(), vec![1, 2, 3, 4]);
}

#[test]
fn cube_clauses_fix_the_first_variables_by_the_mask() {
    let cubes = rbmem::steps::cube_clauses_exec(5, 3);
    let lits: Vec<Vec<i32>> = cubes.iter().map(|c| c.clause.clone()).collect();
    assert_eq!(lits, vec![vec![1], vec![-2], vec![3]]);
    assert!(rbmem::steps::cube_clauses_exec(0, 0).is_empty());
}

#[test]
fn cube_and_conquer_finds_plans_and_refuses_only_contradictions() {
    let cand = |title: &str| CandidateAction { title: title.to_string(), text: title.to_string(), source_path: None, score: 1 };
    let clause = |lits: Vec<i32>| rbmem::plan::RuleClause { clause: lits };
    let sat = PlanningProblem {
        goal: "g".to_string(),
        candidates: vec![cand("a"), cand("b"), cand("c"), cand("d")],
        context_sections: vec![],
        clauses: vec![clause(vec![4]), clause(vec![-1, 2]), clause(vec![1])],
        requirements: vec![],
        conflicts: vec![],
    };
    let r = rbmem::steps::solve_cube_and_conquer_internal(&sat);
    assert_eq!(r.status, SatStatus::Sat);
    assert!(r.assignment[1] && r.assignment[2] && r.assignment[4]);
    let unsat = PlanningProblem {
        goal: "g".to_string(),
        candidates: vec![cand("a"), cand("b")],
        context_sections: vec![],
        clauses: vec![clause(vec![2]), clause(vec![-2])],
        requirements: vec![],
        conflicts: vec![],
    };
    let u = rbmem::steps::solve_cube_and_conquer_internal(&unsat);
    assert_eq!(u.status, SatStatus::Unsat);
    assert_eq!(u.solver, "cube-and-conquer+internal");
}
