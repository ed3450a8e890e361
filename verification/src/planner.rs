//! The planning problem: candidate actions read from memory sections,
//! ranked against a goal, and the clauses that the goal and the planning
//! rules impose on them.
use vstd::prelude::*;
use crate::document::{section_views, DocumentV, RbmemDocument, RbmemError, Section, SectionType, SectionV};
use crate::rules::{
    bullet_text, bullet_text_exec, clean_rule_side, first_sentence, first_sentence_exec, parse_conflict,
    parse_conflict_exec, parse_requires, parse_requires_exec, starts_with_avoid, starts_with_avoid_exec,
    starts_with_must, starts_with_must_exec, strip_rule_prefix, strip_rule_prefix_exec,
};
use crate::text::{
    chars_eq, chars_of, contains, contains_chars, copy_range, lines, push_chars, split_lines, string_of, trim,
    trimmed, views, is_blank,
};
use crate::words::{
    normalize, normalize_chars, overlap, overlap_score, path_has_any, path_has_any_exec, phrase_threshold,
    phrase_threshold_exec, utf8_len, utf8_len_below,
};

verus! {

/// Which SAT solver the planner runs.
#[derive(Debug, Clone, Copy, PartialEq, Eq, Structural)]
pub enum SatBackend {
    Auto,
    Internal,
    Kissat,
    Cadical,
}

impl SatBackend {
    pub fn as_str(self) -> (r: &'static str)
        ensures
            r@ == match self {
                SatBackend::Auto => "auto"@,
                SatBackend::Internal => "internal"@,
                SatBackend::Kissat => "kissat"@,
                SatBackend::Cadical => "cadical"@,
            },
    {
        match self {
            SatBackend::Auto => "auto",
            SatBackend::Internal => "internal",
            SatBackend::Kissat => "kissat",
            SatBackend::Cadical => "cadical",
        }
    }
}

/// The answer of a solver.
#[derive(Debug, Clone, Copy, PartialEq, Eq, Structural)]
pub enum SatStatus {
    Sat,
    Unsat,
}

/// A possible action of a plan: its title, the text it was read from, the
/// section it came from, and its score.
#[derive(Debug, Clone)]
pub struct CandidateAction {
    pub title: String,
    pub text: String,
    pub source_path: Option<String>,
    pub score: i64,
}

pub struct CandidateV {
    pub title: Seq<char>,
    pub text: Seq<char>,
    pub source_path: Option<Seq<char>>,
    pub score: i64,
}

impl View for CandidateAction {
    type V = CandidateV;

    open spec fn view(&self) -> CandidateV {
        CandidateV {
            title: self.title@,
            text: self.text@,
            source_path: match self.source_path {
                Some(p) => Some(p@),
                None => None,
            },
            score: self.score,
        }
    }
}

pub open spec fn candidate_views(v: Seq<CandidateAction>) -> Seq<CandidateV> {
    v.map_values(|c: CandidateAction| c@)
}

/// The sections of several documents, in order.
pub open spec fn all_sections(docs: Seq<DocumentV>) -> Seq<SectionV>
    decreases docs.len(),
{
    if docs.len() == 0 {
        Seq::empty()
    } else {
        all_sections(docs.drop_last()) + docs.last().sections
    }
}

pub open spec fn document_views(v: Seq<RbmemDocument>) -> Seq<DocumentV> {
    v.map_values(|d: RbmemDocument| d@)
}

/// Copies of the sections of several documents, in order.
pub fn flatten_sections(docs: &Vec<RbmemDocument>) -> (r: Vec<Section>)
    ensures
        section_views(r@) == all_sections(document_views(docs@)),
{
    let ghost dv = document_views(docs@);
    let mut out: Vec<Section> = Vec::new();
    let mut i: usize = 0;
    assert(dv.take(0) =~= Seq::<DocumentV>::empty());
    while i < docs.len()
        invariant
            i <= docs@.len(),
            dv == document_views(docs@),
            section_views(out@) == all_sections(dv.take(i as int)),
        decreases docs@.len() - i,
    {
        let doc = &docs[i];
        let ghost start = section_views(out@);
        let mut j: usize = 0;
        assert(start + doc@.sections.take(0) =~= start);
        while j < doc.sections.len()
            invariant
                j <= doc.sections@.len(),
                section_views(out@) == start + doc@.sections.take(j as int),
            decreases doc.sections@.len() - j,
        {
            let ghost before = section_views(out@);
            assert(doc@.sections.take(j + 1) =~= doc@.sections.take(j as int).push(doc.sections@[j as int]@));
            out.push(doc.sections[j].duplicate());
            assert(section_views(out@) =~= before.push(doc.sections@[j as int]@));
            j += 1;
            assert(section_views(out@) =~= start + doc@.sections.take(j as int));
        }
        assert(doc@.sections.take(doc@.sections.len() as int) =~= doc@.sections);
        assert(dv.take(i + 1).drop_last() =~= dv.take(i as int));
        assert(dv.take(i + 1).last() == doc@);
        i += 1;
    }
    assert(dv.take(dv.len() as int) =~= dv);
    out
}

// ---------------------------------------------------------------------------
// Candidate actions
// ---------------------------------------------------------------------------

/// Path words that mark a section as a source of actions.
pub open spec fn action_words() -> Seq<Seq<char>> {
    seq!["action"@, "actions"@, "task"@, "tasks"@, "step"@, "steps"@, "goal"@, "plan"@]
}

/// Path words that mark a section as planning context.
pub open spec fn context_words() -> Seq<Seq<char>> {
    seq![
        "rule"@, "rules"@, "constraint"@, "constraints"@, "preference"@, "preferences"@, "guard"@,
        "guards"@, "task"@, "tasks"@, "goal"@, "goals"@, "plan"@, "plans"@, "context"@,
    ]
}

fn word_list(words: &[&str]) -> (r: Vec<Vec<char>>)
    ensures
        views(r@) == words@.map_values(|w: &str| w@),
{
    let mut out: Vec<Vec<char>> = Vec::new();
    let mut i: usize = 0;
    while i < words.len()
        invariant
            i <= words@.len(),
            views(out@) == words@.take(i as int).map_values(|w: &str| w@),
        decreases words@.len() - i,
    {
        let ghost before = views(out@);
        let w = chars_of(words[i]);
        assert(w@ == words@[i as int]@);
        out.push(w);
        assert(views(out@) =~= before.push(words@[i as int]@));
        assert(words@.take(i + 1) =~= words@.take(i as int).push(words@[i as int]));
        i += 1;
        assert(views(out@) =~= words@.take(i as int).map_values(|w: &str| w@));
    }
    assert(words@.take(words@.len() as int) =~= words@);
    out
}

fn action_word_list() -> (r: Vec<Vec<char>>)
    ensures
        views(r@) == action_words(),
{
    let a = ["action", "actions", "task", "tasks", "step", "steps", "goal", "plan"];
    let r = word_list(&a);
    assert(views(r@) =~= action_words());
    r
}

fn context_word_list() -> (r: Vec<Vec<char>>)
    ensures
        views(r@) == context_words(),
{
    let a = [
        "rule", "rules", "constraint", "constraints", "preference", "preferences", "guard",
        "guards", "task", "tasks", "goal", "goals", "plan", "plans", "context",
    ];
    let r = word_list(&a);
    assert(views(r@) =~= context_words());
    r
}

/// A section whose path names rules, constraints, preferences, guards,
/// tasks, goals, plans or context.
pub open spec fn is_planning_context(s: SectionV) -> bool {
    path_has_any(s.path, context_words())
}

pub fn is_planning_context_exec(section: &Section) -> (r: bool)
    ensures
        r == is_planning_context(section@),
{
    path_has_any_exec(&chars_of(section.path.as_str()), &context_word_list())
}

/// The candidates found so far, with the normalised titles seen.
pub open spec fn add_candidate(st: (Seq<Seq<char>>, Seq<CandidateV>), c: CandidateV) -> (
    Seq<Seq<char>>,
    Seq<CandidateV>,
) {
    let n = normalize(c.title);
    if st.0.contains(n) {
        st
    } else {
        (st.0.push(n), st.1.push(c))
    }
}

/// The bullet items of an action section, each a candidate with score 4.
pub open spec fn bullet_candidates(
    st: (Seq<Seq<char>>, Seq<CandidateV>),
    ls: Seq<Seq<char>>,
    s: SectionV,
) -> (Seq<Seq<char>>, Seq<CandidateV>)
    decreases ls.len(),
{
    if ls.len() == 0 {
        st
    } else {
        let prev = bullet_candidates(st, ls.drop_last(), s);
        match bullet_text(ls.last()) {
            Some(item) => if utf8_len(item) < 4 {
                prev
            } else {
                add_candidate(
                    prev,
                    CandidateV {
                        title: item,
                        text: s.path + "\n"@ + s.content,
                        source_path: Some(s.path),
                        score: 4,
                    },
                )
            },
            None => prev,
        }
    }
}

/// The candidates of one section: its bullet items, then its first
/// sentence with score 3; encrypted sections give none.
pub open spec fn section_candidates(st: (Seq<Seq<char>>, Seq<CandidateV>), s: SectionV) -> (
    Seq<Seq<char>>,
    Seq<CandidateV>,
) {
    if s.section_type == SectionType::Encrypted {
        st
    } else {
        let relevant = path_has_any(s.path, action_words());
        let st1 = if relevant {
            bullet_candidates(st, lines(s.content), s)
        } else {
            st
        };
        if relevant && trim(s.content).len() > 0 {
            add_candidate(
                st1,
                CandidateV {
                    title: first_sentence(s.content),
                    text: s.content,
                    source_path: Some(s.path),
                    score: 3,
                },
            )
        } else {
            st1
        }
    }
}

pub open spec fn candidates_fold(ss: Seq<SectionV>) -> (Seq<Seq<char>>, Seq<CandidateV>)
    decreases ss.len(),
{
    if ss.len() == 0 {
        (Seq::empty(), Seq::empty())
    } else {
        section_candidates(candidates_fold(ss.drop_last()), ss.last())
    }
}

/// The candidate actions of the sections, with one
/// that names the goal added where none shares a term with it.
pub open spec fn extract_candidates(ss: Seq<SectionV>, goal: Seq<char>) -> Seq<CandidateV> {
    let c = candidates_fold(ss).1;
    if exists|i: int| 0 <= i < c.len() && overlap(c[i].title, goal) > 0 {
        c
    } else {
        c.push(CandidateV { title: "Satisfy goal: "@ + goal, text: goal, source_path: None, score: 8 })
    }
}

fn seen_contains(seen: &Vec<Vec<char>>, n: &Vec<char>) -> (r: bool)
    ensures
        r == views(seen@).contains(n@),
{
    let mut i: usize = 0;
    while i < seen.len()
        invariant
            i <= seen@.len(),
            forall|j: int| 0 <= j < i ==> views(seen@)[j] != n@,
        decreases seen@.len() - i,
    {
        if chars_eq(&seen[i], n) {
            assert(views(seen@)[i as int] == n@);
            return true;
        }
        i += 1;
    }
    false
}

fn add_candidate_exec(seen: &mut Vec<Vec<char>>, list: &mut Vec<CandidateAction>, c: CandidateAction)
    ensures
        (views(final(seen)@), candidate_views(final(list)@)) == add_candidate(
            (views(old(seen)@), candidate_views(old(list)@)),
            c@,
        ),
{
    let n = normalize_chars(&chars_of(c.title.as_str()));
    if !seen_contains(seen, &n) {
        let ghost s0 = views(seen@);
        let ghost l0 = candidate_views(list@);
        seen.push(n);
        list.push(c);
        assert(views(seen@) =~= s0.push(normalize(c@.title)));
        assert(candidate_views(list@) =~= l0.push(c@));
    }
}

fn section_candidates_exec(seen: &mut Vec<Vec<char>>, list: &mut Vec<CandidateAction>, section: &Section)
    ensures
        (views(final(seen)@), candidate_views(final(list)@)) == section_candidates(
            (views(old(seen)@), candidate_views(old(list)@)),
            section@,
        ),
{
    if section.section_type == SectionType::Encrypted {
        return ;
    }
    let relevant = path_has_any_exec(&chars_of(section.path.as_str()), &action_word_list());
    let content = chars_of(section.content.as_str());
    if relevant {
        let ls = split_lines(&content);
        let ghost lv = views(ls@);
        let ghost st0 = (views(seen@), candidate_views(list@));
        let mut i: usize = 0;
        assert(lv.take(0) =~= Seq::<Seq<char>>::empty());
        while i < ls.len()
            invariant
                i <= ls@.len(),
                lv == views(ls@),
                lv == lines(section@.content),
                content@ == section@.content,
                (views(seen@), candidate_views(list@)) == bullet_candidates(st0, lv.take(i as int), section@),
            decreases ls@.len() - i,
        {
            assert(lv.take(i + 1).drop_last() =~= lv.take(i as int));
            assert(lv.take(i + 1).last() == ls@[i as int]@);
            match bullet_text_exec(&ls[i]) {
                Some(item) => {
                    if !utf8_len_below(&item, 4) {
                        let mut text = section.path.clone();
                        text.push_str("\n");
                        text.push_str(section.content.as_str());
                        let c = CandidateAction {
                            title: string_of(&item),
                            text,
                            source_path: Some(section.path.clone()),
                            score: 4,
                        };
                        add_candidate_exec(seen, list, c);
                    }
                },
                None => {},
            }
            i += 1;
        }
        assert(lv.take(lv.len() as int) =~= lv);
    }
    if relevant && !is_blank(&content) {
        let title = first_sentence_exec(&content);
        let c = CandidateAction {
            title: string_of(&title),
            text: section.content.clone(),
            source_path: Some(section.path.clone()),
            score: 3,
        };
        add_candidate_exec(seen, list, c);
    }
}

/// The candidate actions of the sections.
pub fn extract_candidates_exec(sections: &Vec<Section>, goal: &str) -> (r: Vec<CandidateAction>)
    ensures
        candidate_views(r@) == extract_candidates(section_views(sections@), goal@),
{
    let ghost ss = section_views(sections@);
    let mut seen: Vec<Vec<char>> = Vec::new();
    let mut list: Vec<CandidateAction> = Vec::new();
    let mut i: usize = 0;
    assert(ss.take(0) =~= Seq::<SectionV>::empty());
    assert(views(seen@) =~= Seq::<Seq<char>>::empty());
    assert(candidate_views(list@) =~= Seq::<CandidateV>::empty());
    while i < sections.len()
        invariant
            i <= sections@.len(),
            ss == section_views(sections@),
            (views(seen@), candidate_views(list@)) == candidates_fold(ss.take(i as int)),
        decreases sections@.len() - i,
    {
        assert(ss.take(i + 1).drop_last() =~= ss.take(i as int));
        assert(ss.take(i + 1).last() == sections@[i as int]@);
        section_candidates_exec(&mut seen, &mut list, &sections[i]);
        i += 1;
    }
    assert(ss.take(ss.len() as int) =~= ss);
    let g = chars_of(goal);
    let mut any = false;
    let mut k: usize = 0;
    while k < list.len()
        invariant
            k <= list@.len(),
            g@ == goal@,
            !any ==> forall|j: int| 0 <= j < k ==> overlap(candidate_views(list@)[j].title, goal@) == 0,
            any ==> exists|j: int| 0 <= j < list@.len() && overlap(candidate_views(list@)[j].title, goal@) > 0,
        decreases list@.len() - k,
    {
        assert(candidate_views(list@)[k as int] == list@[k as int]@);
        if overlap_score(&chars_of(list[k].title.as_str()), &g) > 0 {
            any = true;
        }
        k += 1;
    }
    if !any {
        let mut title = "Satisfy goal: ".to_owned();
        title.push_str(goal);
        let ghost before = candidate_views(list@);
        list.push(CandidateAction { title, text: goal.to_owned(), source_path: None, score: 8 });
        assert(candidate_views(list@) =~= before.push(
            CandidateV { title: "Satisfy goal: "@ + goal@, text: goal@, source_path: None, score: 8 },
        ));
    }
    list
}

/// A score raised by a non-negative amount, held at `i64::MAX`.
pub open spec fn add_capped(score: i64, x: int) -> i64 {
    if score + x > i64::MAX {
        i64::MAX
    } else {
        (score + x) as i64
    }
}

/// A candidate's score raised by four per term its title shares with the
/// goal and one per term its text shares.
pub open spec fn ranked(c: CandidateV, goal: Seq<char>) -> CandidateV {
    CandidateV { score: add_capped(c.score, (4 * overlap(c.title, goal) + overlap(c.text, goal)) as int), ..c }
}

pub fn rank_candidates(candidates: &mut Vec<CandidateAction>, goal: &str)
    ensures
        candidate_views(final(candidates)@) == candidate_views(old(candidates)@).map_values(
            |c: CandidateV| ranked(c, goal@),
        ),
{
    let g = chars_of(goal);
    let ghost orig = candidate_views(candidates@);
    let mut i: usize = 0;
    while i < candidates.len()
        invariant
            i <= candidates@.len(),
            g@ == goal@,
            orig.len() == candidates@.len(),
            forall|j: int| 0 <= j < i ==> (#[trigger] candidates@[j])@ == ranked(orig[j], goal@),
            forall|j: int| i <= j < candidates@.len() ==> (#[trigger] candidates@[j])@ == orig[j],
        decreases candidates@.len() - i,
    {
        let title_overlap = overlap_score(&chars_of(candidates[i].title.as_str()), &g) as i128;
        let text_overlap = overlap_score(&chars_of(candidates[i].text.as_str()), &g) as i128;
        let total: i128 = (candidates[i].score as i128) + 4 * title_overlap + text_overlap;
        let score: i64 = if total > 9_223_372_036_854_775_807 {
            9_223_372_036_854_775_807
        } else {
            total as i64
        };
        let c = CandidateAction {
            title: candidates[i].title.clone(),
            text: candidates[i].text.clone(),
            source_path: match &candidates[i].source_path {
                Some(p) => Some(p.clone()),
                None => None,
            },
            score,
        };
        candidates.set(i, c);
        i += 1;
    }
    assert(candidate_views(candidates@) =~= orig.map_values(|c: CandidateV| ranked(c, goal@)));
}

} // verus!
