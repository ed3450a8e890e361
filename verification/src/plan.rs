//! The planning problem as a whole: the goal, the ranked
//! candidates, the clauses, and the planning context.
use vstd::prelude::*;
use crate::document::{section_views, RbmemDocument, RbmemError, Section, SectionV};
use crate::planner::{
    all_sections, candidate_views, document_views, extract_candidates, extract_candidates_exec, flatten_sections,
    is_planning_context, is_planning_context_exec, rank_candidates, ranked, CandidateAction, CandidateV,
};
use crate::problem::{
    apply_section_rules, goal_clause, goal_clause_exec, pair_nat_views, rules_fold, section_rules, views_i32,
    RuleSink, RulesV,
};
use crate::rules::{bullet_text, bullet_text_exec, first_sentence, first_sentence_exec};
use crate::text::{
    chars_eq, chars_lt, chars_of, contains, contains_chars, lex_lt, lines, split_lines, string_of, str_eq, trim,
    trimmed, views,
};

verus! {

/// A clause over the candidates, variable `i + 1` standing for candidate `i`.
#[derive(Debug, Clone)]
pub struct RuleClause {
    pub clause: Vec<i32>,
}

/// The planning problem: a goal, candidate actions, the clauses over them,
/// and the `requires` and conflict pairs the rules named.
#[derive(Debug, Clone)]
pub struct PlanningProblem {
    pub goal: String,
    pub candidates: Vec<CandidateAction>,
    pub context_sections: Vec<String>,
    pub clauses: Vec<RuleClause>,
    pub requirements: Vec<(usize, usize)>,
    pub conflicts: Vec<(usize, usize)>,
}

pub struct ProblemV {
    pub goal: Seq<char>,
    pub candidates: Seq<CandidateV>,
    pub context_sections: Seq<Seq<char>>,
    pub clauses: Seq<Seq<i32>>,
    pub requirements: Seq<(nat, nat)>,
    pub conflicts: Seq<(nat, nat)>,
}

pub open spec fn rule_clause_views(v: Seq<RuleClause>) -> Seq<Seq<i32>> {
    v.map_values(|c: RuleClause| c.clause@)
}

impl View for PlanningProblem {
    type V = ProblemV;

    open spec fn view(&self) -> ProblemV {
        ProblemV {
            goal: self.goal@,
            candidates: candidate_views(self.candidates@),
            context_sections: self.context_sections@.map_values(|s: String| s@),
            clauses: rule_clause_views(self.clauses@),
            requirements: pair_nat_views(self.requirements@),
            conflicts: pair_nat_views(self.conflicts@),
        }
    }
}

// ---------------------------------------------------------------------------
// The goal
// ---------------------------------------------------------------------------

/// The first non-empty bullet item among the lines.
pub open spec fn first_bullet(ls: Seq<Seq<char>>) -> Option<Seq<char>>
    decreases ls.len(),
{
    if ls.len() == 0 {
        None
    } else {
        match bullet_text(ls[0]) {
            Some(i) => if i.len() > 0 {
                Some(i)
            } else {
                first_bullet(ls.drop_first())
            },
            None => first_bullet(ls.drop_first()),
        }
    }
}

/// A goal read from memory: from the first
/// section whose path mentions a goal or task and has text, its first
/// bullet item or else its first sentence.
pub open spec fn derive_goal(ss: Seq<SectionV>) -> Option<Seq<char>>
    decreases ss.len(),
{
    if ss.len() == 0 {
        None
    } else {
        let s = ss[0];
        if !(contains(s.path, "goal"@) || contains(s.path, "task"@)) {
            derive_goal(ss.drop_first())
        } else {
            match first_bullet(lines(s.content)) {
                Some(i) => Some(i),
                None => if trim(s.content).len() > 0 {
                    Some(first_sentence(trim(s.content)))
                } else {
                    derive_goal(ss.drop_first())
                },
            }
        }
    }
}

/// The goal of a plan: the explicit one where it is not blank, else where
/// asked the one memory names.
pub open spec fn problem_goal(ss: Seq<SectionV>, explicit: Option<Seq<char>>, from_memory: bool) -> Option<
    Seq<char>,
> {
    let e = match explicit {
        Some(g) => if trim(g).len() > 0 {
            Some(trim(g))
        } else {
            None
        },
        None => None,
    };
    match e {
        Some(g) => Some(g),
        None => if from_memory {
            derive_goal(ss)
        } else {
            None
        },
    }
}

fn first_bullet_exec(ls: &Vec<Vec<char>>) -> (r: Option<Vec<char>>)
    ensures
        r matches Some(x) ==> first_bullet(views(ls@)) == Some(x@),
        r is None ==> first_bullet(views(ls@)) is None,
{
    let ghost lv = views(ls@);
    let mut i: usize = 0;
    assert(lv.skip(0) =~= lv);
    while i < ls.len()
        invariant
            i <= ls@.len(),
            lv == views(ls@),
            first_bullet(lv) == first_bullet(lv.skip(i as int)),
        decreases ls@.len() - i,
    {
        assert(lv.skip(i as int)[0] == ls@[i as int]@);
        assert(lv.skip(i as int).drop_first() =~= lv.skip(i + 1));
        match bullet_text_exec(&ls[i]) {
            Some(item) => {
                if item.len() > 0 {
                    return Some(item);
                }
            },
            None => {},
        }
        i += 1;
    }
    None
}

/// `derive_goal_from_memory`.
pub fn derive_goal_exec(sections: &Vec<Section>) -> (r: Option<String>)
    ensures
        r matches Some(g) ==> derive_goal(section_views(sections@)) == Some(g@),
        r is None ==> derive_goal(section_views(sections@)) is None,
{
    let ghost ss = section_views(sections@);
    let mut i: usize = 0;
    assert(ss.skip(0) =~= ss);
    while i < sections.len()
        invariant
            i <= sections@.len(),
            ss == section_views(sections@),
            derive_goal(ss) == derive_goal(ss.skip(i as int)),
        decreases sections@.len() - i,
    {
        let section = &sections[i];
        assert(ss.skip(i as int)[0] == section@);
        assert(ss.skip(i as int).drop_first() =~= ss.skip(i + 1));
        let path = chars_of(section.path.as_str());
        if contains_chars(&path, &chars_of("goal")) || contains_chars(&path, &chars_of("task")) {
            let content = chars_of(section.content.as_str());
            let ls = split_lines(&content);
            match first_bullet_exec(&ls) {
                Some(item) => {
                    return Some(string_of(&item));
                },
                None => {
                    let t = trimmed(&content);
                    if t.len() > 0 {
                        let s = first_sentence_exec(&t);
                        return Some(string_of(&s));
                    }
                },
            }
        }
        i += 1;
    }
    None
}

// ---------------------------------------------------------------------------
// Planning context
// ---------------------------------------------------------------------------

/// Where a path goes in a list sorted by `str` order.
pub open spec fn lex_pos(s: Seq<Seq<char>>, x: Seq<char>) -> int
    decreases s.len(),
{
    if s.len() == 0 {
        0
    } else if lex_lt(x, s[0]) {
        0
    } else {
        1 + lex_pos(s.drop_first(), x)
    }
}

/// A path added to a sorted set of paths.
pub open spec fn insert_sorted_unique(s: Seq<Seq<char>>, x: Seq<char>) -> Seq<Seq<char>> {
    if s.contains(x) {
        s
    } else {
        s.insert(lex_pos(s, x), x)
    }
}

/// The paths of the planning-context sections, sorted, each once.
pub open spec fn context_paths(ss: Seq<SectionV>) -> Seq<Seq<char>>
    decreases ss.len(),
{
    if ss.len() == 0 {
        Seq::empty()
    } else {
        let p = context_paths(ss.drop_last());
        if is_planning_context(ss.last()) {
            insert_sorted_unique(p, ss.last().path)
        } else {
            p
        }
    }
}

pub proof fn lemma_lex_pos_bounds(s: Seq<Seq<char>>, x: Seq<char>)
    ensures
        0 <= lex_pos(s, x) <= s.len(),
    decreases s.len(),
{
    if s.len() > 0 && !lex_lt(x, s[0]) {
        lemma_lex_pos_bounds(s.drop_first(), x);
    }
}

pub open spec fn string_views(v: Seq<String>) -> Seq<Seq<char>> {
    v.map_values(|s: String| s@)
}

fn context_paths_exec(sections: &Vec<Section>) -> (r: Vec<String>)
    ensures
        string_views(r@) == context_paths(section_views(sections@)),
{
    let ghost ss = section_views(sections@);
    let mut out: Vec<String> = Vec::new();
    let mut i: usize = 0;
    assert(ss.take(0) =~= Seq::<SectionV>::empty());
    assert(string_views(out@) =~= Seq::<Seq<char>>::empty());
    while i < sections.len()
        invariant
            i <= sections@.len(),
            ss == section_views(sections@),
            string_views(out@) == context_paths(ss.take(i as int)),
        decreases sections@.len() - i,
    {
        let section = &sections[i];
        assert(ss.take(i + 1).drop_last() =~= ss.take(i as int));
        assert(ss.take(i + 1).last() == section@);
        if is_planning_context_exec(section) {
            let ghost sv = string_views(out@);
            let path = section.path.as_str();
            let mut found = false;
            let mut pos: usize = 0;
            let mut k: usize = 0;
            assert(sv.skip(0) =~= sv);
            while k < out.len()
                invariant
                    k <= out@.len(),
                    sv == string_views(out@),
                    !found ==> forall|j: int| 0 <= j < k ==> sv[j] != path@,
                    found ==> sv.contains(path@),
                    !found ==> (pos == k || (pos < k && lex_pos(sv, path@) == pos)),
                    !found && pos == k ==> lex_pos(sv, path@) == k + lex_pos(sv.skip(k as int), path@),
                ensures
                    found ==> sv.contains(path@),
                    !found ==> k == out@.len() && (forall|j: int| 0 <= j < k ==> sv[j] != path@) && (pos == k
                        || (pos < k && lex_pos(sv, path@) == pos)) && (pos == k ==> lex_pos(sv, path@) == k + lex_pos(
                        sv.skip(k as int),
                        path@,
                    )),
                decreases out@.len() - k,
            {
                assert(sv[k as int] == out@[k as int]@);
                if str_eq(out[k].as_str(), path) {
                    found = true;
                    assert(sv[k as int] == path@);
                    break;
                }
                if pos == k {
                    assert(sv.skip(k as int)[0] == sv[k as int]);
                    assert(sv.skip(k as int).drop_first() =~= sv.skip(k + 1));
                    if !chars_lt(&chars_of(path), &chars_of(out[k].as_str())) {
                        pos = k + 1;
                    }
                }
                k += 1;
            }
            if !found {
                proof {
                    if pos == k {
                        assert(sv.skip(k as int).len() == 0);
                    }
                    lemma_lex_pos_bounds(sv, path@);
                    assert(!sv.contains(path@));
                }
                let ghost before = out@;
                out.insert(pos, section.path.clone());
                assert(string_views(out@) =~= sv.insert(pos as int, path@));
            }
        }
        i += 1;
    }
    assert(ss.take(ss.len() as int) =~= ss);
    out
}

// ---------------------------------------------------------------------------
// The problem
// ---------------------------------------------------------------------------

/// The ranked candidates of a plan for the goal.
pub open spec fn spec_candidates(ss: Seq<SectionV>, goal: Seq<char>) -> Seq<CandidateV> {
    let c = extract_candidates(ss, goal);
    let c1 = if c.len() == 0 {
        seq![CandidateV { title: "Work toward: "@ + goal, text: goal, source_path: None, score: 10 }]
    } else {
        c
    };
    c1.map_values(|x: CandidateV| ranked(x, goal))
}

/// The planning problem for a goal over the sections.
pub open spec fn spec_problem(ss: Seq<SectionV>, goal: Seq<char>) -> ProblemV {
    let cs = spec_candidates(ss, goal);
    let r = rules_fold(RulesV { clauses: goal_clause(cs, goal), requirements: Seq::empty(), conflicts: Seq::empty() }, cs, ss);
    ProblemV {
        goal,
        candidates: cs,
        context_sections: context_paths(ss),
        clauses: r.clauses,
        requirements: r.requirements,
        conflicts: r.conflicts,
    }
}

pub open spec fn missing_goal_message() -> Seq<char> {
    "missing goal; pass rbmem plan \"<goal>\" or --from-memory"@
}

pub open spec fn too_many_candidates_message() -> Seq<char> {
    "too many candidate actions for a plan"@
}

fn copy_i32s(v: &Vec<i32>) -> (r: Vec<i32>)
    ensures
        r@ == v@,
{
    let mut r: Vec<i32> = Vec::new();
    let mut i: usize = 0;
    while i < v.len()
        invariant
            i <= v@.len(),
            r@ == v@.take(i as int),
        decreases v@.len() - i,
    {
        r.push(v[i]);
        i += 1;
        assert(r@ =~= v@.take(i as int));
    }
    assert(v@.take(v@.len() as int) =~= v@);
    r
}

/// Builds the planning problem. Without a goal it fails;
/// a goal that yields more candidates than clause variables can number is
/// refused too.
pub fn build_problem(documents: &Vec<RbmemDocument>, explicit_goal: Option<&str>, from_memory: bool) -> (r: Result<
    PlanningProblem,
    RbmemError,
>)
    ensures
        ({
            let ss = all_sections(document_views(documents@));
            let explicit = match explicit_goal {
                Some(g) => Some(g@),
                None => None,
            };
            match problem_goal(ss, explicit, from_memory) {
                None => r matches Err(RbmemError::Parse(m)) && m@ == missing_goal_message(),
                Some(g) => if spec_candidates(ss, g).len() < i32::MAX - 1 {
                    r matches Ok(p) && p@ == spec_problem(ss, g)
                } else {
                    r matches Err(RbmemError::Parse(m)) && m@ == too_many_candidates_message()
                },
            }
        }),
{
    let sections = flatten_sections(documents);
    let ghost ss = section_views(sections@);
    let explicit = match explicit_goal {
        Some(g) => {
            let t = trimmed(&chars_of(g));
            if t.len() > 0 {
                Some(string_of(&t))
            } else {
                None
            }
        },
        None => None,
    };
    let goal = match explicit {
        Some(g) => g,
        None => {
            let derived = if from_memory {
                derive_goal_exec(&sections)
            } else {
                None
            };
            match derived {
                Some(g) => g,
                None => {
                    return Err(RbmemError::Parse("missing goal; pass rbmem plan \"<goal>\" or --from-memory".to_owned()));
                },
            }
        },
    };
    let mut candidates = extract_candidates_exec(&sections, goal.as_str());
    if candidates.len() == 0 {
        let mut title = "Work toward: ".to_owned();
        title.push_str(goal.as_str());
        let ghost before = candidate_views(candidates@);
        candidates.push(CandidateAction { title, text: goal.clone(), source_path: None, score: 10 });
        assert(candidate_views(candidates@) =~= before.push(
            CandidateV { title: "Work toward: "@ + goal@, text: goal@, source_path: None, score: 10 },
        ));
    }
    rank_candidates(&mut candidates, goal.as_str());
    assert(candidate_views(candidates@) =~= spec_candidates(ss, goal@));
    if candidates.len() >= 2147483646 {
        return Err(RbmemError::Parse("too many candidate actions for a plan".to_owned()));
    }
    let mut sink = RuleSink { clauses: goal_clause_exec(&candidates, goal.as_str()), requirements: Vec::new(), conflicts: Vec::new() };
    let ghost cv = candidate_views(candidates@);
    let ghost s0 = sink@;
    assert(s0.requirements =~= Seq::<(nat, nat)>::empty());
    assert(s0.conflicts =~= Seq::<(nat, nat)>::empty());
    let mut i: usize = 0;
    assert(ss.take(0) =~= Seq::<SectionV>::empty());
    while i < sections.len()
        invariant
            i <= sections@.len(),
            ss == section_views(sections@),
            cv == candidate_views(candidates@),
            candidates@.len() < i32::MAX - 1,
            sink@ == rules_fold(s0, cv, ss.take(i as int)),
        decreases sections@.len() - i,
    {
        assert(ss.take(i + 1).drop_last() =~= ss.take(i as int));
        assert(ss.take(i + 1).last() == sections@[i as int]@);
        apply_section_rules(&mut sink, &candidates, &sections[i]);
        i += 1;
    }
    assert(ss.take(ss.len() as int) =~= ss);
    let context_sections = context_paths_exec(&sections);
    let RuleSink { clauses, requirements, conflicts } = sink;
    let mut rule_clauses: Vec<RuleClause> = Vec::new();
    let mut k: usize = 0;
    while k < clauses.len()
        invariant
            k <= clauses@.len(),
            rule_clause_views(rule_clauses@) == views_i32(clauses@).take(k as int),
        decreases clauses@.len() - k,
    {
        let ghost before = rule_clause_views(rule_clauses@);
        let c = RuleClause { clause: copy_i32s(&clauses[k]) };
        assert(c.clause@ == views_i32(clauses@)[k as int]);
        rule_clauses.push(c);
        assert(rule_clause_views(rule_clauses@) =~= before.push(c.clause@));
        assert(views_i32(clauses@).take(k + 1) =~= views_i32(clauses@).take(k as int).push(views_i32(clauses@)[k as int]));
        k += 1;
        assert(rule_clause_views(rule_clauses@) =~= views_i32(clauses@).take(k as int));
    }
    assert(views_i32(clauses@).take(clauses@.len() as int) =~= views_i32(clauses@));
    let p = PlanningProblem { goal, candidates, context_sections, clauses: rule_clauses, requirements, conflicts };
    Ok(p)
}

} // verus!
