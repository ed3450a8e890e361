//! Resolving sections against their parents: a child path inherits what its
//! parent sections hold, lists and memories appended, JSON merged.
use vstd::prelude::*;
use crate::document::{
    dup_opt_payload, dup_opt_source, dup_relations, parent_paths, relation_views, section_views, spec_append_memory_entries,
    append_memory_entries, EncryptedPayload, EncryptedPayloadV, GraphInfo, GraphInfoV, RbmemDocument, Section, SectionType,
    SectionV, SourceInfo, SourceInfoV, Temporal, opt_graph_view, opt_payload_view, opt_source_view,
};
use crate::json::{deep_merge_json_text, merged_json_text};
use crate::plan::string_views;
use crate::text::{chars_of, is_blank, join, join_chars, lines, split_lines, str_eq, string_of, trim, views};

verus! {

/// A section with what it inherits from its parents folded in.
#[derive(Debug, Clone)]
pub struct ResolvedSection {
    pub path: String,
    pub section_type: SectionType,
    pub temporal: Temporal,
    pub source: Option<SourceInfo>,
    pub graph: Option<GraphInfo>,
    pub encrypted: Option<EncryptedPayload>,
    pub content: String,
}

impl View for ResolvedSection {
    type V = SectionV;

    open spec fn view(&self) -> SectionV {
        SectionV {
            path: self.path@,
            section_type: self.section_type,
            temporal: self.temporal,
            source: opt_source_view(self.source),
            graph: opt_graph_view(self.graph),
            encrypted: opt_payload_view(self.encrypted),
            content: self.content@,
        }
    }
}

pub open spec fn resolved_views(v: Seq<ResolvedSection>) -> Seq<SectionV> {
    v.map_values(|s: ResolvedSection| s@)
}

/// Both graphs kept: the child's node type wins where it has one, and the
/// child's relations follow the parent's.
pub open spec fn merge_graph(parent: Option<GraphInfoV>, child: Option<GraphInfoV>) -> Option<GraphInfoV> {
    match (parent, child) {
        (None, None) => None,
        (Some(p), None) => Some(p),
        (None, Some(c)) => Some(c),
        (Some(p), Some(c)) => Some(GraphInfoV {
            node_type: if c.node_type is Some { c.node_type } else { p.node_type },
            relations: p.relations + c.relations,
        }),
    }
}

pub fn merge_graph_exec(parent: &Option<GraphInfo>, child: &Option<GraphInfo>) -> (r: Option<GraphInfo>)
    ensures
        opt_graph_view(r) == merge_graph(opt_graph_view(*parent), opt_graph_view(*child)),
{
    match (parent, child) {
        (None, None) => None,
        (Some(p), None) => Some(p.duplicate()),
        (None, Some(c)) => Some(c.duplicate()),
        (Some(p), Some(c)) => {
            let mut merged = p.duplicate();
            if c.node_type.is_some() {
                merged.node_type = crate::document::dup_opt_string(&c.node_type);
                assert(c@.node_type is Some);
            } else {
                assert(c@.node_type is None);
            }
            let extra = dup_relations(&c.relations);
            let ghost a = relation_views(merged.relations@);
            let ghost nt = merged@.node_type;
            let mut i: usize = 0;
            while i < extra.len()
                invariant
                    i <= extra@.len(),
                    merged@.node_type == nt,
                    relation_views(merged.relations@) == a + relation_views(extra@.take(i as int)),
                decreases extra@.len() - i,
            {
                let d = extra[i].duplicate();
                let ghost before = merged.relations@;
                merged.relations.push(d);
                assert(relation_views(merged.relations@) =~= relation_views(before).push(d@));
                assert(relation_views(extra@.take(i + 1)) =~= relation_views(extra@.take(i as int)).push(extra@[i as int]@));
                assert(relation_views(merged.relations@) =~= a + relation_views(extra@.take(i + 1)));
                i += 1;
            }
            assert(extra@.take(extra@.len() as int) =~= extra@);
            assert(merged@.relations == p@.relations + c@.relations);
            assert(merged@.node_type == (if c@.node_type is Some { c@.node_type } else { p@.node_type }));
            Some(merged)
        },
    }
}

/// The non-blank lines.
pub open spec fn nonblank_lines(ls: Seq<Seq<char>>) -> Seq<Seq<char>>
    decreases ls.len(),
{
    if ls.len() == 0 {
        ls
    } else {
        let prev = nonblank_lines(ls.drop_last());
        if trim(ls.last()).len() == 0 {
            prev
        } else {
            prev.push(ls.last())
        }
    }
}

/// The non-blank lines of both, the parent's first, joined with newlines.
pub open spec fn append_lists(parent: Seq<char>, child: Seq<char>) -> Seq<char> {
    join(nonblank_lines(lines(parent) + lines(child)), "\n"@)
}

pub fn append_lists_exec(parent: &str, child: &str) -> (r: String)
    ensures
        r@ == append_lists(parent@, child@),
{
    let mut all = split_lines(&chars_of(parent));
    let more = split_lines(&chars_of(child));
    let ghost a = views(all@);
    let mut i: usize = 0;
    while i < more.len()
        invariant
            i <= more@.len(),
            views(all@) == a + views(more@).take(i as int),
        decreases more@.len() - i,
    {
        let piece = crate::text::copy_range(&more[i], 0, more[i].len());
        assert(piece@ =~= more@[i as int]@);
        let ghost before = all@;
        all.push(piece);
        assert(views(all@) =~= views(before).push(piece@));
        assert(views(all@) =~= a + views(more@).take(i + 1));
        i += 1;
    }
    assert(views(more@).take(views(more@).len() as int) =~= views(more@));
    let ghost every = views(all@);
    let mut kept: Vec<Vec<char>> = Vec::new();
    let mut j: usize = 0;
    assert(every.take(0) =~= Seq::<Seq<char>>::empty());
    while j < all.len()
        invariant
            j <= all@.len(),
            every == views(all@),
            views(kept@) == nonblank_lines(every.take(j as int)),
        decreases all@.len() - j,
    {
        assert(every.take(j + 1).drop_last() =~= every.take(j as int));
        assert(every.take(j + 1).last() == all@[j as int]@);
        if !is_blank(&all[j]) {
            let ghost before = views(kept@);
            let piece = crate::text::copy_range(&all[j], 0, all[j].len());
            assert(piece@ =~= all@[j as int]@);
            let ghost raw = kept@;
            kept.push(piece);
            assert(views(kept@) =~= views(raw).push(piece@));
            assert(views(kept@) =~= before.push(all@[j as int]@));
        }
        j += 1;
    }
    assert(every.take(every.len() as int) =~= every);
    let sep = chars_of("\n");
    string_of(&join_chars(&kept, &sep))
}

/// A child's content over its parent's: a blank child keeps the parent's;
/// lists and memories append, JSON merges, and otherwise the child's wins.
pub open spec fn merge_content(parent_type: SectionType, parent: Seq<char>, child_type: SectionType, child: Seq<char>) -> Seq<char> {
    if trim(child).len() == 0 {
        parent
    } else {
        match (parent_type, child_type) {
            (SectionType::List, SectionType::List) => append_lists(parent, child),
            (SectionType::HermesMemory, SectionType::HermesMemory) => spec_append_memory_entries(parent, child),
            (SectionType::Json, SectionType::Json) => merged_json_text(parent, child),
            _ => child,
        }
    }
}

pub fn merge_content_exec(parent_type: SectionType, parent: &str, child_type: SectionType, child: &str) -> (r: String)
    ensures
        r@ == merge_content(parent_type, parent@, child_type, child@),
{
    if is_blank(&chars_of(child)) {
        return parent.to_owned();
    }
    match (parent_type, child_type) {
        (SectionType::List, SectionType::List) => append_lists_exec(parent, child),
        (SectionType::HermesMemory, SectionType::HermesMemory) => append_memory_entries(parent, child),
        (SectionType::Json, SectionType::Json) => deep_merge_json_text(parent, child),
        _ => child.to_owned(),
    }
}

/// One more section of the chain folded in: its path, type and timing
/// replace the running ones, its provenance replaces them where it has one,
/// graphs and contents merge, and the first section's payload stays.
pub open spec fn chain_step(r: SectionV, child: SectionV) -> SectionV {
    SectionV {
        path: child.path,
        section_type: child.section_type,
        temporal: child.temporal,
        source: if child.source is Some { child.source } else { r.source },
        graph: merge_graph(r.graph, child.graph),
        encrypted: r.encrypted,
        content: merge_content(r.section_type, r.content, child.section_type, child.content),
    }
}

/// A chain of sections, parents first, folded into one.
pub open spec fn merge_chain(chain: Seq<SectionV>) -> SectionV
    decreases chain.len(),
{
    if chain.len() <= 1 {
        chain[0]
    } else {
        chain_step(merge_chain(chain.drop_last()), chain.last())
    }
}

fn chain_step_exec(r: &ResolvedSection, child: &Section) -> (out: ResolvedSection)
    ensures
        out@ == chain_step(r@, child@),
{
    let content = merge_content_exec(r.section_type, r.content.as_str(), child.section_type, child.content.as_str());
    ResolvedSection {
        path: child.path.clone(),
        section_type: child.section_type,
        temporal: child.temporal,
        source: if child.source.is_some() { dup_opt_source(&child.source) } else { dup_opt_source(&r.source) },
        graph: merge_graph_exec(&r.graph, &child.graph),
        encrypted: dup_opt_payload(&r.encrypted),
        content,
    }
}

fn as_resolved(s: &Section) -> (r: ResolvedSection)
    ensures
        r@ == s@,
{
    ResolvedSection {
        path: s.path.clone(),
        section_type: s.section_type,
        temporal: s.temporal,
        source: dup_opt_source(&s.source),
        graph: crate::document::dup_opt_graph(&s.graph),
        encrypted: dup_opt_payload(&s.encrypted),
        content: s.content.clone(),
    }
}

/// The last section with the path.
pub open spec fn last_with_path(ss: Seq<SectionV>, p: Seq<char>) -> Option<SectionV>
    decreases ss.len(),
{
    if ss.len() == 0 {
        None
    } else if ss.last().path == p {
        Some(ss.last())
    } else {
        last_with_path(ss.drop_last(), p)
    }
}

/// The sections standing at the parent paths, shortest path first; parent
/// paths without a section are skipped.
pub open spec fn parent_chain(ss: Seq<SectionV>, parents: Seq<Seq<char>>) -> Seq<SectionV>
    decreases parents.len(),
{
    if parents.len() == 0 {
        Seq::empty()
    } else {
        let prev = parent_chain(ss, parents.drop_last());
        match last_with_path(ss, parents.last()) {
            Some(s) => prev.push(s),
            None => prev,
        }
    }
}

/// Each section resolved against the sections at its parent paths.
pub open spec fn resolved(ss: Seq<SectionV>) -> Seq<SectionV> {
    Seq::new(ss.len(), |i: int| merge_chain(parent_chain(ss, parent_paths(ss[i].path)).push(ss[i])))
}

fn last_index_with_path(sections: &Vec<Section>, p: &str) -> (r: Option<usize>)
    ensures
        match r {
            Some(j) => j < sections@.len() && last_with_path(section_views(sections@), p@) == Some(sections@[j as int]@),
            None => last_with_path(section_views(sections@), p@) is None,
        },
{
    let ghost ss = section_views(sections@);
    let mut j: usize = sections.len();
    assert(ss.take(j as int) =~= ss);
    while j > 0
        invariant
            j <= sections@.len(),
            ss == section_views(sections@),
            last_with_path(ss, p@) == last_with_path(ss.take(j as int), p@),
        decreases j,
    {
        assert(ss.take(j as int).last() == sections@[j - 1]@);
        if str_eq(sections[j - 1].path.as_str(), p) {
            return Some(j - 1);
        }
        assert(ss.take(j as int).drop_last() =~= ss.take(j - 1));
        j -= 1;
    }
    None
}

impl RbmemDocument {
    /// Every section resolved against the sections at its parent paths, in
    /// document order.
    pub fn resolved_sections(&self) -> (r: Vec<ResolvedSection>)
        ensures
            resolved_views(r@) == resolved(self@.sections),
    {
        let ghost ss = section_views(self.sections@);
        let mut out: Vec<ResolvedSection> = Vec::new();
        let mut i: usize = 0;
        while i < self.sections.len()
            invariant
                i <= self.sections@.len(),
                ss == section_views(self.sections@),
                ss == self@.sections,
                resolved_views(out@) == resolved(ss).take(i as int),
            decreases self.sections@.len() - i,
        {
            let section = &self.sections[i];
            let parents = section.parent_paths();
            let ghost pv = string_views(parents@);
            let mut current: Option<ResolvedSection> = None;
            let mut k: usize = 0;
            assert(pv.take(0) =~= Seq::<Seq<char>>::empty());
            while k < parents.len()
                invariant
                    k <= parents@.len(),
                    ss == section_views(self.sections@),
                    pv == string_views(parents@),
                    match current {
                        Some(c) => parent_chain(ss, pv.take(k as int)).len() > 0
                            && c@ == merge_chain(parent_chain(ss, pv.take(k as int))),
                        None => parent_chain(ss, pv.take(k as int)).len() == 0,
                    },
                decreases parents@.len() - k,
            {
                assert(pv.take(k + 1).drop_last() =~= pv.take(k as int));
                assert(pv.take(k + 1).last() == parents@[k as int]@);
                match last_index_with_path(&self.sections, parents[k].as_str()) {
                    Some(j) => {
                        let ghost chain = parent_chain(ss, pv.take(k as int));
                        let next = match &current {
                            Some(c) => chain_step_exec(c, &self.sections[j]),
                            None => as_resolved(&self.sections[j]),
                        };
                        proof {
                            let longer = chain.push(ss[j as int]);
                            assert(longer.drop_last() =~= chain);
                        }
                        current = Some(next);
                    },
                    None => {},
                }
                k += 1;
            }
            assert(pv.take(pv.len() as int) =~= pv);
            let ghost chain = parent_chain(ss, pv);
            let item = match &current {
                Some(c) => chain_step_exec(c, section),
                None => as_resolved(section),
            };
            proof {
                let longer = chain.push(ss[i as int]);
                assert(longer.drop_last() =~= chain);
                assert(item@ == resolved(ss)[i as int]);
            }
            let ghost before = resolved_views(out@);
            out.push(item);
            assert(resolved_views(out@) =~= before.push(item@));
            assert(resolved(ss).take(i + 1) =~= resolved(ss).take(i as int).push(resolved(ss)[i as int]));
            i += 1;
        }
        assert(resolved(ss).take(ss.len() as int) =~= resolved(ss));
        out
    }
}


/// The timestamps that the compact and minified forms write are in range.
pub open spec fn times_ok(s: SectionV) -> bool {
    &&& s.temporal.valid()
    &&& s.encrypted matches Some(p) ==> p.encrypted_at.valid()
}

proof fn lemma_merge_chain_times(chain: Seq<SectionV>)
    requires
        chain.len() >= 1,
        forall|i: int| 0 <= i < chain.len() ==> times_ok(#[trigger] chain[i]),
    ensures
        times_ok(merge_chain(chain)),
        merge_chain(chain).path == chain.last().path,
        merge_chain(chain).section_type == chain.last().section_type,
    decreases chain.len(),
{
    if chain.len() > 1 {
        assert forall|i: int| 0 <= i < chain.drop_last().len() implies times_ok(#[trigger] chain.drop_last()[i]) by {
            assert(chain.drop_last()[i] == chain[i]);
        }
        lemma_merge_chain_times(chain.drop_last());
        assert(times_ok(chain[chain.len() - 1]));
    }
}

pub(crate) proof fn lemma_last_with_path_in(ss: Seq<SectionV>, p: Seq<char>)
    ensures
        last_with_path(ss, p) matches Some(s) ==> exists|i: int| 0 <= i < ss.len() && ss[i] == s,
    decreases ss.len(),
{
    if ss.len() > 0 && ss.last().path != p {
        lemma_last_with_path_in(ss.drop_last(), p);
        if last_with_path(ss.drop_last(), p) is Some {
            let i = choose|i: int| 0 <= i < ss.drop_last().len() && ss.drop_last()[i] == last_with_path(ss.drop_last(), p)->0;
            assert(ss[i] == ss.drop_last()[i]);
        }
    } else if ss.len() > 0 {
        assert(ss[ss.len() - 1] == ss.last());
    }
}

proof fn lemma_parent_chain_times(ss: Seq<SectionV>, parents: Seq<Seq<char>>)
    requires
        forall|i: int| 0 <= i < ss.len() ==> times_ok(#[trigger] ss[i]),
    ensures
        forall|j: int| 0 <= j < parent_chain(ss, parents).len() ==> times_ok(#[trigger] parent_chain(ss, parents)[j]),
    decreases parents.len(),
{
    if parents.len() > 0 {
        lemma_parent_chain_times(ss, parents.drop_last());
        lemma_last_with_path_in(ss, parents.last());
        let prev = parent_chain(ss, parents.drop_last());
        match last_with_path(ss, parents.last()) {
            Some(s) => {
                let i = choose|i: int| 0 <= i < ss.len() && ss[i] == s;
                assert(times_ok(ss[i]));
                assert forall|j: int| 0 <= j < prev.push(s).len() implies times_ok(#[trigger] prev.push(s)[j]) by {
                    if j < prev.len() {
                        assert(prev.push(s)[j] == prev[j]);
                    }
                }
            },
            None => {},
        }
    }
}

/// Resolving keeps each section's path and type, and takes its timing from
/// the section itself and its payload from the first section of its chain:
/// all are in range when the document's are.
pub proof fn lemma_resolved_times(ss: Seq<SectionV>)
    requires
        forall|i: int| 0 <= i < ss.len() ==> times_ok(#[trigger] ss[i]),
    ensures
        resolved(ss).len() == ss.len(),
        forall|i: int| 0 <= i < ss.len() ==> times_ok(#[trigger] resolved(ss)[i]),
        forall|i: int| 0 <= i < ss.len() ==> (#[trigger] resolved(ss)[i]).path == ss[i].path
            && resolved(ss)[i].section_type == ss[i].section_type,
{
    assert forall|i: int| 0 <= i < ss.len() implies times_ok(#[trigger] resolved(ss)[i]) && resolved(ss)[i].path == ss[i].path
        && resolved(ss)[i].section_type == ss[i].section_type by {
        let parents = parent_paths(ss[i].path);
        lemma_parent_chain_times(ss, parents);
        let chain = parent_chain(ss, parents).push(ss[i]);
        assert forall|j: int| 0 <= j < chain.len() implies times_ok(#[trigger] chain[j]) by {
            if j < chain.len() - 1 {
                assert(chain[j] == parent_chain(ss, parents)[j]);
            }
        }
        lemma_merge_chain_times(chain);
    }
}


/// A child whose content is blank (white space only) takes its parent's
/// content unchanged, whatever the two types.
pub proof fn lemma_blank_child_keeps_parent(parent_type: SectionType, parent: Seq<char>, child_type: SectionType, child: Seq<char>)
    requires
        trim(child).len() == 0,
    ensures
        merge_content(parent_type, parent, child_type, child) == parent,
{
}

/// A section with blank content resolves to the content its parent
/// sections resolve to: where the sections at its parent paths are the
/// chain of some section `j` followed by `j` itself, section `i` resolves to
/// the same content as section `j`; where only one section stands at its
/// parent paths, it resolves to that section's content.
pub proof fn lemma_blank_section_inherits(ss: Seq<SectionV>, i: int, j: int)
    requires
        0 <= i < ss.len(),
        0 <= j < ss.len(),
        trim(ss[i].content).len() == 0,
        parent_chain(ss, parent_paths(ss[i].path)) == parent_chain(ss, parent_paths(ss[j].path)).push(ss[j]),
    ensures
        resolved(ss)[i].content == resolved(ss)[j].content,
        parent_chain(ss, parent_paths(ss[j].path)).len() == 0 ==> resolved(ss)[i].content == ss[j].content,
{
    let below = parent_chain(ss, parent_paths(ss[j].path)).push(ss[j]);
    let chain = below.push(ss[i]);
    assert(chain.drop_last() =~= below);
    assert(chain.last() == ss[i]);
    assert(chain.len() >= 2);
    assert(merge_chain(chain) == chain_step(merge_chain(below), ss[i]));
    assert(resolved(ss)[i] == merge_chain(chain));
    assert(resolved(ss)[j] == merge_chain(below));
    if parent_chain(ss, parent_paths(ss[j].path)).len() == 0 {
        assert(below.len() == 1);
        assert(below[0] == ss[j]);
    }
}


/// A section with blank content that has sections at some of its parent
/// paths resolves to the content those parent sections fold into.
pub proof fn lemma_blank_section_takes_parent_chain(ss: Seq<SectionV>, i: int)
    requires
        0 <= i < ss.len(),
        trim(ss[i].content).len() == 0,
        parent_chain(ss, parent_paths(ss[i].path)).len() > 0,
    ensures
        resolved(ss)[i].content == merge_chain(parent_chain(ss, parent_paths(ss[i].path))).content,
{
    let below = parent_chain(ss, parent_paths(ss[i].path));
    let chain = below.push(ss[i]);
    assert(chain.drop_last() =~= below);
    assert(chain.last() == ss[i]);
    assert(resolved(ss)[i] == merge_chain(chain));
}


/// A child with non-blank content replaces its parent's content, unless both
/// are lists, both `hermes:memory` sections, or both JSON, which combine.
pub proof fn lemma_plain_child_wins(parent_type: SectionType, parent: Seq<char>, child_type: SectionType, child: Seq<char>)
    requires
        trim(child).len() > 0,
        !(parent_type == SectionType::List && child_type == SectionType::List),
        !(parent_type == SectionType::HermesMemory && child_type == SectionType::HermesMemory),
        !(parent_type == SectionType::Json && child_type == SectionType::Json),
    ensures
        merge_content(parent_type, parent, child_type, child) == child,
{
}

} // verus!
