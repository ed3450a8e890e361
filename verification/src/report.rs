//! The plan report and its text form, and the file names that memories are
//! served from.
use vstd::prelude::*;
use crate::document::RbmemError;
use crate::planner::SatStatus;
use crate::steps::{step_views, PlanStep, PlanStepV};
use crate::text::{chars_of, decimal, ends_with_chars, push_chars, split_chars, string_of, trimmed, u64_text};

verus! {

/// What became of a requested proof of unsatisfiability.
#[derive(Debug, Clone)]
pub struct ProofReport {
    pub requested: bool,
    pub path: Option<String>,
    pub generated: bool,
    pub verified: bool,
    pub verifier: String,
    pub note: String,
}

/// The outcome of planning.
#[derive(Debug, Clone)]
pub struct PlanReport {
    pub schema: String,
    pub goal: String,
    pub memory_file: String,
    pub discovered_files: Vec<String>,
    pub plan_path: String,
    pub status: SatStatus,
    pub solver: String,
    pub cube_and_conquer: bool,
    pub variables: usize,
    pub clauses: usize,
    pub selected: usize,
    pub steps: Vec<PlanStep>,
    pub context_sections: Vec<String>,
    pub proof: ProofReport,
    pub dry_run: bool,
}

pub open spec fn bool_text(b: bool) -> Seq<char> {
    if b { "true"@ } else { "false"@ }
}

pub open spec fn status_text(s: SatStatus) -> Seq<char> {
    match s {
        SatStatus::Sat => "Sat"@,
        SatStatus::Unsat => "Unsat"@,
    }
}

/// One step: its number, its action and, where known, its source.
pub open spec fn step_line(s: PlanStepV) -> Seq<char> {
    decimal(s.order as nat) + ". "@ + s.action + match s.source {
        Some(src) => " ["@ + src + "]\n"@,
        None => "\n"@,
    }
}

pub open spec fn step_lines(ss: Seq<PlanStepV>) -> Seq<char>
    decreases ss.len(),
{
    if ss.len() == 0 {
        Seq::empty()
    } else {
        step_lines(ss.drop_last()) + step_line(ss.last())
    }
}

/// The head of the report: goal, status, solver, files and sizes, and the
/// dry-run and proof notes.
pub open spec fn report_head(
    goal: Seq<char>,
    status: SatStatus,
    solver: Seq<char>,
    memory_file: Seq<char>,
    plan_path: Seq<char>,
    variables: usize,
    clauses: usize,
    dry_run: bool,
    proof_requested: bool,
    proof_path: Option<Seq<char>>,
    verifier: Seq<char>,
    verified: bool,
) -> Seq<char> {
    "rbmem SAT plan\ngoal: "@ + goal + "\nstatus: "@ + status_text(status) + "\nsolver: "@ + solver + "\nmemory: "@
        + memory_file + "\nstored: "@ + plan_path + "\ncnf: "@ + decimal(variables as nat) + " variable(s), "@
        + decimal(clauses as nat) + " clause(s)\n"@ + (if dry_run { "dry-run: plan was not written\n"@ } else {
        Seq::empty()
    }) + if proof_requested {
        "proof: "@ + match proof_path {
            Some(p) => p,
            None => "not written"@,
        } + " ("@ + verifier + ", verified: "@ + bool_text(verified) + ")\n"@
    } else {
        Seq::empty()
    }
}

/// The report's text: the head, then the steps of a
/// satisfiable plan or the note that none was found.
pub open spec fn report_text(
    head: Seq<char>,
    status: SatStatus,
    steps: Seq<PlanStepV>,
) -> Seq<char> {
    head + match status {
        SatStatus::Sat => "\nsteps:\n"@ + if steps.len() == 0 {
            "- no concrete steps selected\n"@
        } else {
            step_lines(steps)
        },
        SatStatus::Unsat => "\nNo satisfying plan found. Review conflicting rules and constraints.\n"@,
    }
}

fn push_decimal(out: &mut String, n: usize)
    ensures
        final(out)@ == old(out)@ + decimal(n as nat),
{
    let d = u64_text(n as u64);
    push_chars(out, &d);
}

fn push_bool(out: &mut String, b: bool)
    ensures
        final(out)@ == old(out)@ + bool_text(b),
{
    if b {
        out.push_str("true");
    } else {
        out.push_str("false");
    }
}

fn push_status(out: &mut String, s: SatStatus)
    ensures
        final(out)@ == old(out)@ + status_text(s),
{
    match s {
        SatStatus::Sat => out.push_str("Sat"),
        SatStatus::Unsat => out.push_str("Unsat"),
    }
}

fn push_step(out: &mut String, s: &PlanStep)
    ensures
        final(out)@ == old(out)@ + step_line(s@),
{
    push_decimal(out, s.order);
    out.push_str(". ");
    out.push_str(s.action.as_str());
    match &s.source {
        Some(src) => {
            out.push_str(" [");
            out.push_str(src.as_str());
            out.push_str("]\n");
        },
        None => out.push_str("\n"),
    }
}

#[verifier::rlimit(100)]
#[verifier::spinoff_prover]
pub fn render_plan_report(report: &PlanReport) -> (r: String)
    ensures
        r@ == report_text(
            report_head(
                report.goal@,
                report.status,
                report.solver@,
                report.memory_file@,
                report.plan_path@,
                report.variables,
                report.clauses,
                report.dry_run,
                report.proof.requested,
                match report.proof.path {
                    Some(p) => Some(p@),
                    None => None,
                },
                report.proof.verifier@,
                report.proof.verified,
            ),
            report.status,
            step_views(report.steps@),
        ),
{
    let mut out = String::new();
    out.push_str("rbmem SAT plan\ngoal: ");
    out.push_str(report.goal.as_str());
    out.push_str("\nstatus: ");
    push_status(&mut out, report.status);
    out.push_str("\nsolver: ");
    out.push_str(report.solver.as_str());
    out.push_str("\nmemory: ");
    out.push_str(report.memory_file.as_str());
    out.push_str("\nstored: ");
    out.push_str(report.plan_path.as_str());
    out.push_str("\ncnf: ");
    push_decimal(&mut out, report.variables);
    out.push_str(" variable(s), ");
    push_decimal(&mut out, report.clauses);
    out.push_str(" clause(s)\n");
    if report.dry_run {
        out.push_str("dry-run: plan was not written\n");
    }
    if report.proof.requested {
        out.push_str("proof: ");
        match &report.proof.path {
            Some(p) => out.push_str(p.as_str()),
            None => out.push_str("not written"),
        }
        out.push_str(" (");
        out.push_str(report.proof.verifier.as_str());
        out.push_str(", verified: ");
        push_bool(&mut out, report.proof.verified);
        out.push_str(")\n");
    }
    match report.status {
        SatStatus::Sat => {
            out.push_str("\nsteps:\n");
            if report.steps.len() == 0 {
                out.push_str("- no concrete steps selected\n");
            } else {
                let ghost head = out@;
                let ghost ss = step_views(report.steps@);
                let mut i: usize = 0;
                assert(ss.take(0) =~= Seq::<PlanStepV>::empty());
                while i < report.steps.len()
                    invariant
                        ss == step_views(report.steps@),
                        i <= ss.len(),
                        out@ == head + step_lines(ss.take(i as int)),
                    decreases ss.len() - i,
                {
                    assert(ss.take(i + 1).drop_last() =~= ss.take(i as int));
                    assert(ss.take(i + 1).last() == report.steps@[i as int]@);
                    push_step(&mut out, &report.steps[i]);
                    i += 1;
                }
                assert(ss.take(ss.len() as int) =~= ss);
            }
        },
        SatStatus::Unsat => {
            out.push_str("\nNo satisfying plan found. Review conflicting rules and constraints.\n");
        },
    }
    out
}

// ---------------------------------------------------------------------------
// Memory file names
// ---------------------------------------------------------------------------

/// Whether a name is one plain file name: it holds no path separator
/// (`/` or `\\`) and is neither `.` nor `..`.
pub open spec fn single_file_name(name: Seq<char>) -> bool {
    &&& forall|i: int| 0 <= i < name.len() ==> name[i] != '/' && name[i] != '\\'
    &&& name != "."@
    &&& name != ".."@
}

/// The file a served memory is kept in: the trimmed name,
/// with `.rbmem` added where it is missing; an empty name or one that is
/// not a single file name is refused.
pub open spec fn memory_file(name: Seq<char>) -> Result<Seq<char>, Seq<char>> {
    let t = crate::text::trim(name);
    if t.len() == 0 {
        Err("memory name must not be empty"@)
    } else if !single_file_name(t) {
        Err("invalid memory name '"@ + name + "': must be a single filename without path separators"@)
    } else if ".rbmem"@.is_suffix_of(t) {
        Ok(t)
    } else {
        Ok(t + ".rbmem"@)
    }
}

pub fn memory_file_name(name: &str) -> (r: Result<String, RbmemError>)
    ensures
        match memory_file(name@) {
            Ok(f) => r matches Ok(s) && s@ == f,
            Err(m) => crate::commands::parse_err(r, m),
        },
{
    let v = chars_of(name);
    let t = trimmed(&v);
    if t.len() == 0 {
        return Err(RbmemError::Parse("memory name must not be empty".to_owned()));
    }
    let dot = chars_of(".");
    let dotdot = chars_of("..");
    let mut ok = !crate::text::chars_eq(&t, &dot) && !crate::text::chars_eq(&t, &dotdot);
    let mut i: usize = 0;
    while i < t.len()
        invariant
            i <= t@.len(),
            ok ==> t@ != "."@ && t@ != ".."@,
            ok ==> forall|k: int| 0 <= k < i ==> t@[k] != '/' && t@[k] != '\\',
            !ok ==> !single_file_name(t@),
        decreases t@.len() - i,
    {
        if t[i] == '/' || t[i] == '\\' {
            ok = false;
        }
        i += 1;
    }
    if !ok {
        let mut msg = String::new();
        msg.push_str("invalid memory name '");
        msg.push_str(name);
        msg.push_str("': must be a single filename without path separators");
        return Err(RbmemError::Parse(msg));
    }
    let suffix = chars_of(".rbmem");
    let mut file = string_of(&t);
    if !ends_with_chars(&t, &suffix) {
        file.push_str(".rbmem");
    }
    Ok(file)
}

} // verus!
