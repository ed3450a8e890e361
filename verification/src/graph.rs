//! The section graph of a document (implicit `contains` edges down each path
//! and the explicit relations), its DOT rendering, the timeline, and the
//! document's validation warnings.
use vstd::prelude::*;
use crate::contexts::insert_unique_exec;
use crate::document::{
    path_parts, relation_views, section_views, GraphRelationV, RbmemDocument, Section, SectionType, SectionV, DocumentV,
};
use crate::json::{json_error, json_error_text};
use crate::plan::{insert_sorted_unique, string_views};
use crate::text::{chars_of, join, push_chars, str_eq, string_of, trim, trimmed, views};
use crate::time::Timestamp;
use crate::version::{is_supported_format_version, supported_version};
use crate::writer::{confidence_text, escaped, push_escaped};

verus! {

/// An edge of the section graph. Confidence is in hundredths.
pub struct GraphEdge {
    pub from: String,
    pub to: String,
    pub edge_type: String,
    pub valid_from: Option<Timestamp>,
    pub valid_until: Option<Timestamp>,
    pub inferred: bool,
    pub confidence: Option<u32>,
}

pub struct GraphEdgeV {
    pub from: Seq<char>,
    pub to: Seq<char>,
    pub edge_type: Seq<char>,
    pub valid_from: Option<Timestamp>,
    pub valid_until: Option<Timestamp>,
    pub inferred: bool,
    pub confidence: Option<u32>,
}

impl View for GraphEdge {
    type V = GraphEdgeV;

    open spec fn view(&self) -> GraphEdgeV {
        GraphEdgeV {
            from: self.from@,
            to: self.to@,
            edge_type: self.edge_type@,
            valid_from: self.valid_from,
            valid_until: self.valid_until,
            inferred: self.inferred,
            confidence: self.confidence,
        }
    }
}

pub open spec fn edge_views(v: Seq<GraphEdge>) -> Seq<GraphEdgeV> {
    v.map_values(|e: GraphEdge| e@)
}

/// The nodes, sorted and each once, and the edges in the order found.
pub struct GraphView {
    pub nodes: Vec<String>,
    pub edges: Vec<GraphEdge>,
}

pub struct GraphViewV {
    pub nodes: Seq<Seq<char>>,
    pub edges: Seq<GraphEdgeV>,
}

impl View for GraphView {
    type V = GraphViewV;

    open spec fn view(&self) -> GraphViewV {
        GraphViewV { nodes: string_views(self.nodes@), edges: edge_views(self.edges@) }
    }
}

/// The `contains` edge from the path of the first `depth` parts to the path
/// of the first `depth + 1`, valid over the section's lifetime.
pub open spec fn contains_edge(s: SectionV, parts: Seq<Seq<char>>, depth: int) -> GraphEdgeV {
    GraphEdgeV {
        from: join(parts.take(depth), "."@),
        to: join(parts.take(depth + 1), "."@),
        edge_type: "contains"@,
        valid_from: Some(s.temporal.created_at),
        valid_until: s.temporal.expires_at,
        inferred: false,
        confidence: None,
    }
}

pub open spec fn relation_edge(s: SectionV, r: GraphRelationV) -> GraphEdgeV {
    GraphEdgeV {
        from: s.path,
        to: r.to,
        edge_type: r.relation_type,
        valid_from: r.valid_from,
        valid_until: r.valid_until,
        inferred: r.inferred,
        confidence: r.confidence,
    }
}

/// The `contains` edges for depths `1..n`.
pub open spec fn contains_edges(s: SectionV, parts: Seq<Seq<char>>, n: int) -> Seq<GraphEdgeV>
    decreases n,
{
    if n <= 1 {
        Seq::empty()
    } else {
        contains_edges(s, parts, n - 1).push(contains_edge(s, parts, n - 1))
    }
}

pub open spec fn relation_edges_of(s: SectionV, rs: Seq<GraphRelationV>) -> Seq<GraphEdgeV>
    decreases rs.len(),
{
    if rs.len() == 0 {
        Seq::empty()
    } else {
        relation_edges_of(s, rs.drop_last()).push(relation_edge(s, rs.last()))
    }
}

pub open spec fn section_relations(s: SectionV) -> Seq<GraphRelationV> {
    match s.graph {
        Some(g) => g.relations,
        None => Seq::empty(),
    }
}

/// A section's edges: down its path, then its relations.
pub open spec fn section_graph_edges(s: SectionV) -> Seq<GraphEdgeV> {
    let parts = path_parts(s.path);
    contains_edges(s, parts, parts.len() as int) + relation_edges_of(s, section_relations(s))
}

pub open spec fn graph_edges(ss: Seq<SectionV>) -> Seq<GraphEdgeV>
    decreases ss.len(),
{
    if ss.len() == 0 {
        Seq::empty()
    } else {
        graph_edges(ss.drop_last()) + section_graph_edges(ss.last())
    }
}

/// The node names a section brings, in the order they are met: its path,
/// both ends of each `contains` edge, the target of each relation.
pub open spec fn section_node_names(s: SectionV) -> Seq<Seq<char>> {
    let es = section_graph_edges(s);
    let parts = path_parts(s.path);
    let ce = contains_edges(s, parts, parts.len() as int);
    seq![s.path] + Seq::new(2 * ce.len(), |i: int| if i % 2 == 0 { ce[i / 2].from } else { ce[i / 2].to })
        + section_relations(s).map_values(|r: GraphRelationV| r.to)
}

/// A sorted set with names added.
pub open spec fn add_names(nodes: Seq<Seq<char>>, names: Seq<Seq<char>>) -> Seq<Seq<char>>
    decreases names.len(),
{
    if names.len() == 0 {
        nodes
    } else {
        insert_sorted_unique(add_names(nodes, names.drop_last()), names.last())
    }
}

pub open spec fn graph_nodes(ss: Seq<SectionV>) -> Seq<Seq<char>>
    decreases ss.len(),
{
    if ss.len() == 0 {
        Seq::empty()
    } else {
        add_names(graph_nodes(ss.drop_last()), section_node_names(ss.last()))
    }
}

/// The graph of a document.
pub open spec fn graph_of(ss: Seq<SectionV>) -> GraphViewV {
    GraphViewV { nodes: graph_nodes(ss), edges: graph_edges(ss) }
}

fn add_name(nodes: &mut Vec<String>, name: &str)
    ensures
        string_views(final(nodes)@) == insert_sorted_unique(string_views(old(nodes)@), name@),
{
    insert_unique_exec(nodes, chars_of(name));
}

fn add_section_to_graph(s: &Section, nodes: &mut Vec<String>, edges: &mut Vec<GraphEdge>)
    ensures
        string_views(final(nodes)@) == add_names(string_views(old(nodes)@), section_node_names(s@)),
        edge_views(final(edges)@) == edge_views(old(edges)@) + section_graph_edges(s@),
{
    let ghost sv = s@;
    let ghost names = section_node_names(sv);
    let parts = s.path_parts();
    let ghost pv = views(parts@);
    let ghost ce = contains_edges(sv, pv, pv.len() as int);
    let ghost n0 = string_views(nodes@);
    let ghost e0 = edge_views(edges@);
    add_name(nodes, s.path.as_str());
    assert(names.take(1) =~= seq![sv.path]);
    assert(add_names(n0, names.take(1)) == insert_sorted_unique(add_names(n0, names.take(1).drop_last()), sv.path));
    assert(names.take(1).drop_last() =~= Seq::<Seq<char>>::empty());
    let mut k: usize = 1;
    if parts.len() >= 1 {
        let mut prefix: Vec<char> = crate::text::copy_range(&parts[0], 0, parts[0].len());
        assert(pv.take(1) =~= seq![pv[0]]);
        assert(prefix@ == join(pv.take(1), "."@));
        while k < parts.len()
            invariant
                1 <= k <= parts@.len(),
                pv == views(parts@),
                sv == s@,
                pv == path_parts(sv.path),
                ce == contains_edges(sv, pv, pv.len() as int),
                names == section_node_names(sv),
                prefix@ == join(pv.take(k as int), "."@),
                string_views(nodes@) == add_names(n0, names.take(1 + 2 * (k - 1))),
                edge_views(edges@) == e0 + contains_edges(sv, pv, k as int),
            decreases parts@.len() - k,
        {
            let parent = string_of(&prefix);
            let mut child = crate::text::copy_range(&prefix, 0, prefix.len());
            child.push('.');
            push_vec(&mut child, &parts[k]);
            proof {
                reveal_strlit(".");
                assert(pv.take(k + 1).drop_last() =~= pv.take(k as int));
                assert(pv.take(k + 1).last() == pv[k as int]);
                assert(child@ =~= prefix@ + "."@ + pv[k as int]);
                assert(child@ == join(pv.take(k + 1), "."@));
            }
            let child_s = string_of(&child);
            let ghost before_nodes = string_views(nodes@);
            add_name(nodes, parent.as_str());
            add_name(nodes, child_s.as_str());
            proof {
                lemma_node_names(sv, k - 1, 0);
                lemma_add_names_step(n0, names, 1 + 2 * (k - 1));
                lemma_add_names_step(n0, names, 2 + 2 * (k - 1));
            }
            let edge = GraphEdge {
                from: parent,
                to: child_s,
                edge_type: "contains".to_owned(),
                valid_from: Some(s.temporal.created_at),
                valid_until: s.temporal.expires_at,
                inferred: false,
                confidence: None,
            };
            let ghost before_edges = edge_views(edges@);
            edges.push(edge);
            assert(edge_views(edges@) =~= before_edges.push(contains_edge(sv, pv, k as int)));
            prefix = child;
            k += 1;
        }
    }
    proof {
        lemma_contains_edges_len(sv, pv, pv.len() as int);
        if pv.len() == 0 {
            assert(contains_edges(sv, pv, 0) =~= Seq::<GraphEdgeV>::empty());
        }
        assert(edge_views(edges@) == e0 + ce);
    }
    let ghost mid = 1 + 2 * ce.len();
    let ghost rs = section_relations(sv);
    match &s.graph {
        Some(g) => {
            let mut j: usize = 0;
            assert(rs == relation_views(g.relations@));
            while j < g.relations.len()
                invariant
                    j <= g.relations@.len(),
                    rs == relation_views(g.relations@),
                    sv == s@,
                    names == section_node_names(sv),
                    mid == 1 + 2 * ce.len(),
                    ce == contains_edges(sv, path_parts(sv.path), path_parts(sv.path).len() as int),
                    rs == section_relations(sv),
                    string_views(nodes@) == add_names(n0, names.take(mid + j)),
                    edge_views(edges@) == e0 + ce + relation_edges_of(sv, rs.take(j as int)),
                decreases g.relations@.len() - j,
            {
                let r = &g.relations[j];
                assert(rs[j as int] == r@);
                add_name(nodes, r.to.as_str());
                proof {
                    lemma_node_names(sv, 0, j as int);
                    lemma_add_names_step(n0, names, mid + j);
                }
                let edge = GraphEdge {
                    from: s.path.clone(),
                    to: r.to.clone(),
                    edge_type: r.relation_type.clone(),
                    valid_from: r.valid_from,
                    valid_until: r.valid_until,
                    inferred: r.inferred,
                    confidence: r.confidence,
                };
                let ghost before_edges = edge_views(edges@);
                edges.push(edge);
                assert(rs.take(j + 1).drop_last() =~= rs.take(j as int));
                assert(edge_views(edges@) =~= before_edges.push(relation_edge(sv, rs[j as int])));
                j += 1;
            }
            assert(rs.take(rs.len() as int) =~= rs);
        },
        None => {
            assert(rs.take(0) =~= rs);
        },
    }
    assert(names.take(names.len() as int) =~= names);
    assert(edge_views(edges@) =~= e0 + section_graph_edges(sv));
}

fn push_vec(v: &mut Vec<char>, w: &Vec<char>)
    ensures
        final(v)@ == old(v)@ + w@,
{
    let mut i: usize = 0;
    while i < w.len()
        invariant
            i <= w@.len(),
            v@ == old(v)@ + w@.take(i as int),
        decreases w@.len() - i,
    {
        v.push(w[i]);
        i += 1;
        assert(v@ =~= old(v)@ + w@.take(i as int));
    }
    assert(w@.take(w@.len() as int) =~= w@);
}

proof fn lemma_contains_edges_len(s: SectionV, parts: Seq<Seq<char>>, n: int)
    ensures
        contains_edges(s, parts, n).len() == if n <= 1 { 0 } else { n - 1 },
    decreases n,
{
    if n > 1 {
        lemma_contains_edges_len(s, parts, n - 1);
    }
}

proof fn lemma_contains_edges_at(s: SectionV, parts: Seq<Seq<char>>, n: int, i: int)
    requires
        0 <= i < n - 1,
    ensures
        contains_edges(s, parts, n)[i] == contains_edge(s, parts, i + 1),
    decreases n,
{
    lemma_contains_edges_len(s, parts, n - 1);
    if i < n - 2 {
        lemma_contains_edges_at(s, parts, n - 1, i);
    }
}

impl RbmemDocument {
    /// The section graph: every path and relation target as a node, the
    /// `contains` edges down each path, and the relations.
    pub fn graph_view(&self) -> (r: GraphView)
        ensures
            r@ == graph_of(self@.sections),
    {
        let ghost ss = self@.sections;
        let mut nodes: Vec<String> = Vec::new();
        let mut edges: Vec<GraphEdge> = Vec::new();
        let mut i: usize = 0;
        assert(ss.take(0) =~= Seq::<SectionV>::empty());
        assert(string_views(nodes@) =~= Seq::<Seq<char>>::empty());
        assert(edge_views(edges@) =~= Seq::<GraphEdgeV>::empty());
        while i < self.sections.len()
            invariant
                i <= self.sections@.len(),
                ss == section_views(self.sections@),
                string_views(nodes@) == graph_nodes(ss.take(i as int)),
                edge_views(edges@) == graph_edges(ss.take(i as int)),
            decreases self.sections@.len() - i,
        {
            add_section_to_graph(&self.sections[i], &mut nodes, &mut edges);
            assert(ss.take(i + 1).drop_last() =~= ss.take(i as int));
            assert(ss.take(i + 1).last() == self.sections@[i as int]@);
            i += 1;
        }
        assert(ss.take(ss.len() as int) =~= ss);
        GraphView { nodes, edges }
    }
}

// ---------------------------------------------------------------------------
// DOT
// ---------------------------------------------------------------------------

/// The label of an edge: its type, marked when inferred, with the confidence
/// where there is one.
pub open spec fn edge_label(e: GraphEdgeV) -> Seq<char> {
    if e.inferred {
        match e.confidence {
            Some(c) => e.edge_type + " inferred "@ + confidence_text(c),
            None => e.edge_type + " inferred"@,
        }
    } else {
        e.edge_type
    }
}

pub fn edge_label_exec(e: &GraphEdge) -> (r: String)
    ensures
        r@ == edge_label(e@),
{
    let mut out = e.edge_type.clone();
    if e.inferred {
        match e.confidence {
            Some(c) => {
                out.push_str(" inferred ");
                crate::writer::push_confidence(&mut out, c);
            },
            None => {
                out.push_str(" inferred");
            },
        }
    }
    out
}

pub open spec fn dot_nodes(ns: Seq<Seq<char>>) -> Seq<char>
    decreases ns.len(),
{
    if ns.len() == 0 {
        Seq::empty()
    } else {
        dot_nodes(ns.drop_last()) + "  \""@ + escaped(ns.last()) + "\";\n"@
    }
}

pub open spec fn dot_edge(e: GraphEdgeV) -> Seq<char> {
    "  \""@ + escaped(e.from) + "\" -> \""@ + escaped(e.to) + "\" [label=\""@ + escaped(edge_label(e)) + "\"];\n"@
}

pub open spec fn dot_edges(es: Seq<GraphEdgeV>) -> Seq<char>
    decreases es.len(),
{
    if es.len() == 0 {
        Seq::empty()
    } else {
        dot_edges(es.drop_last()) + dot_edge(es.last())
    }
}

/// The graph in Graphviz DOT.
pub open spec fn dot_text(g: GraphViewV) -> Seq<char> {
    "digraph rbmem {\n"@ + dot_nodes(g.nodes) + dot_edges(g.edges) + "}\n"@
}

fn push_dot_edge(out: &mut String, e: &GraphEdge)
    ensures
        final(out)@ == old(out)@ + dot_edge(e@),
{
    out.push_str("  \"");
    push_escaped(out, e.from.as_str());
    out.push_str("\" -> \"");
    push_escaped(out, e.to.as_str());
    out.push_str("\" [label=\"");
    let label = edge_label_exec(e);
    push_escaped(out, label.as_str());
    out.push_str("\"];\n");
}

impl RbmemDocument {
    pub fn graph_as_dot(&self) -> (r: String)
        ensures
            r@ == dot_text(graph_of(self@.sections)),
    {
        let view = self.graph_view();
        let ghost g = view@;
        let mut out = String::new();
        out.push_str("digraph rbmem {\n");
        let ghost head = out@;
        let mut i: usize = 0;
        assert(g.nodes.take(0) =~= Seq::<Seq<char>>::empty());
        while i < view.nodes.len()
            invariant
                i <= view.nodes@.len(),
                g == view@,
                out@ == head + dot_nodes(g.nodes.take(i as int)),
            decreases view.nodes@.len() - i,
        {
            out.push_str("  \"");
            push_escaped(&mut out, view.nodes[i].as_str());
            out.push_str("\";\n");
            assert(g.nodes.take(i + 1).drop_last() =~= g.nodes.take(i as int));
            assert(g.nodes.take(i + 1).last() == view.nodes@[i as int]@);
            i += 1;
            assert(out@ =~= head + dot_nodes(g.nodes.take(i as int)));
        }
        assert(g.nodes.take(g.nodes.len() as int) =~= g.nodes);
        let ghost mid = out@;
        let mut j: usize = 0;
        assert(g.edges.take(0) =~= Seq::<GraphEdgeV>::empty());
        while j < view.edges.len()
            invariant
                j <= view.edges@.len(),
                g == view@,
                out@ == mid + dot_edges(g.edges.take(j as int)),
            decreases view.edges@.len() - j,
        {
            let e = &view.edges[j];
            push_dot_edge(&mut out, e);
            assert(g.edges.take(j + 1).drop_last() =~= g.edges.take(j as int));
            assert(g.edges.take(j + 1).last() == e@);
            j += 1;
            assert(out@ =~= mid + dot_edges(g.edges.take(j as int)));
        }
        assert(g.edges.take(g.edges.len() as int) =~= g.edges);
        out.push_str("}\n");
        assert(out@ =~= dot_text(g));
        out
    }
}

/// Where an edge comes from: the path itself, inference, or a hand-written
/// relation.
pub open spec fn edge_source(e: GraphEdgeV) -> Seq<char> {
    if e.edge_type == "contains"@ {
        "implicit"@
    } else if e.inferred {
        "inferred"@
    } else {
        "manual"@
    }
}

pub fn graph_edge_source(e: &GraphEdge) -> (r: &'static str)
    ensures
        r@ == edge_source(e@),
{
    if str_eq(e.edge_type.as_str(), "contains") {
        "implicit"
    } else if e.inferred {
        "inferred"
    } else {
        "manual"
    }
}


proof fn lemma_add_names_step(n0: Seq<Seq<char>>, names: Seq<Seq<char>>, m: int)
    requires
        0 <= m < names.len(),
    ensures
        add_names(n0, names.take(m + 1)) == insert_sorted_unique(add_names(n0, names.take(m)), names[m]),
{
    assert(names.take(m + 1).drop_last() =~= names.take(m));
    assert(names.take(m + 1).last() == names[m]);
}

/// Where each name stands among a section's node names.
proof fn lemma_node_names(s: SectionV, d: int, j: int)
    ensures
        ({
            let parts = path_parts(s.path);
            let ce = contains_edges(s, parts, parts.len() as int);
            let names = section_node_names(s);
            &&& ce.len() == if parts.len() <= 1 { 0 } else { parts.len() - 1 }
            &&& names.len() == 1 + 2 * ce.len() + section_relations(s).len()
            &&& names[0] == s.path
            &&& (0 <= d < ce.len() ==> names[1 + 2 * d] == ce[d].from && names[2 + 2 * d] == ce[d].to
                && ce[d] == contains_edge(s, parts, d + 1))
            &&& (0 <= j < section_relations(s).len() ==> names[1 + 2 * ce.len() + j] == section_relations(s)[j].to)
        }),
{
    let parts = path_parts(s.path);
    lemma_contains_edges_len(s, parts, parts.len() as int);
    if 0 <= d < contains_edges(s, parts, parts.len() as int).len() {
        lemma_contains_edges_at(s, parts, parts.len() as int, d);
    }
}


// ---------------------------------------------------------------------------
// Timeline
// ---------------------------------------------------------------------------

/// Where a section goes among sections sorted by creation time, after those
/// created at the same time or earlier.
pub open spec fn time_pos(t: Seq<SectionV>, x: SectionV) -> int
    decreases t.len(),
{
    if t.len() == 0 {
        0
    } else if x.temporal.created_at.lt(t[0].temporal.created_at) {
        0
    } else {
        1 + time_pos(t.drop_first(), x)
    }
}

/// The timeline sections in document order, sorted stably by creation time.
pub open spec fn timeline_of(ss: Seq<SectionV>) -> Seq<SectionV>
    decreases ss.len(),
{
    if ss.len() == 0 {
        Seq::empty()
    } else {
        let t = timeline_of(ss.drop_last());
        let x = ss.last();
        if x.section_type == SectionType::Timeline {
            t.insert(time_pos(t, x), x)
        } else {
            t
        }
    }
}

proof fn lemma_time_pos_bounds(t: Seq<SectionV>, x: SectionV)
    ensures
        0 <= time_pos(t, x) <= t.len(),
    decreases t.len(),
{
    if t.len() > 0 && !x.temporal.created_at.lt(t[0].temporal.created_at) {
        lemma_time_pos_bounds(t.drop_first(), x);
    }
}

impl RbmemDocument {
    pub fn timeline(&self) -> (r: Vec<Section>)
        ensures
            section_views(r@) == timeline_of(self@.sections),
    {
        let ghost ss = self@.sections;
        let mut out: Vec<Section> = Vec::new();
        let mut i: usize = 0;
        assert(ss.take(0) =~= Seq::<SectionV>::empty());
        while i < self.sections.len()
            invariant
                i <= self.sections@.len(),
                ss == section_views(self.sections@),
                section_views(out@) == timeline_of(ss.take(i as int)),
            decreases self.sections@.len() - i,
        {
            let x = &self.sections[i];
            assert(ss.take(i + 1).drop_last() =~= ss.take(i as int));
            assert(ss.take(i + 1).last() == x@);
            if matches!(x.section_type, SectionType::Timeline) {
                let ghost t = section_views(out@);
                let mut p: usize = 0;
                assert(t.skip(0) =~= t);
                while p < out.len()
                    invariant
                        p <= out@.len(),
                        t == section_views(out@),
                        time_pos(t, x@) == p + time_pos(t.skip(p as int), x@),
                    ensures
                        p <= out@.len(),
                        time_pos(t, x@) == p,
                    decreases out@.len() - p,
                {
                    assert(t.skip(p as int)[0] == out@[p as int]@);
                    if x.temporal.created_at.is_before(&out[p].temporal.created_at) {
                        assert(time_pos(t.skip(p as int), x@) == 0);
                        break;
                    }
                    assert(t.skip(p as int).drop_first() =~= t.skip(p + 1));
                    p += 1;
                }
                proof {
                    if p == out@.len() {
                        assert(t.skip(p as int).len() == 0);
                    }
                }
                out.insert(p, x.duplicate());
                assert(section_views(out@) =~= t.insert(p as int, x@));
            }
            i += 1;
        }
        assert(ss.take(ss.len() as int) =~= ss);
        out
    }
}

// ---------------------------------------------------------------------------
// Validation
// ---------------------------------------------------------------------------

/// The warnings about one section, given the sections before it: an empty
/// path, a path already used, JSON content that does not parse.
pub open spec fn section_warnings_at(prior: Seq<SectionV>, s: SectionV) -> Seq<Seq<char>> {
    (if trim(s.path).len() == 0 { seq!["section with empty path"@] } else { Seq::empty() })
        + (if prior.map_values(|p: SectionV| p.path).contains(s.path) {
            seq!["duplicate section path '"@ + s.path + "'"@]
        } else {
            Seq::empty()
        }) + (if s.section_type == SectionType::Json {
            match json_error_text(s.content) {
                Some(e) => seq!["section '"@ + s.path + "' is type json but content is not valid JSON: "@ + e],
                None => Seq::empty(),
            }
        } else {
            Seq::empty()
        })
}

pub open spec fn sections_warnings(ss: Seq<SectionV>) -> Seq<Seq<char>>
    decreases ss.len(),
{
    if ss.len() == 0 {
        Seq::empty()
    } else {
        sections_warnings(ss.drop_last()) + section_warnings_at(ss.drop_last(), ss.last())
    }
}

/// What `RbmemDocument::validate` reports: an unsupported version, then the
/// warnings about each section in order.
pub open spec fn validation_warnings(d: DocumentV) -> Seq<Seq<char>> {
    (if supported_version(d.meta.version) {
        Seq::empty()
    } else {
        seq!["expected RBMEM version 1.4.0, found "@ + d.meta.version]
    }) + sections_warnings(d.sections)
}

pub fn push_string(out: &mut Vec<String>, m: String)
    ensures
        string_views(final(out)@) == string_views(old(out)@).push(m@),
{
    let ghost before = out@;
    out.push(m);
    assert(string_views(out@) =~= string_views(before).push(m@));
}

impl RbmemDocument {
    /// The problems a reader should know of.
    pub fn validate(&self) -> (r: Vec<String>)
        ensures
            string_views(r@) == validation_warnings(self@),
    {
        let mut warnings: Vec<String> = Vec::new();
        if !is_supported_format_version(self.meta.version.as_str()) {
            let mut m = String::new();
            m.push_str("expected RBMEM version 1.4.0, found ");
            m.push_str(self.meta.version.as_str());
            push_string(&mut warnings, m);
        }
        let ghost head = string_views(warnings@);
        assert(head =~= (if supported_version(self@.meta.version) {
            Seq::<Seq<char>>::empty()
        } else {
            seq!["expected RBMEM version 1.4.0, found "@ + self@.meta.version]
        }));
        let ghost ss = self@.sections;
        let mut seen: Vec<String> = Vec::new();
        let mut i: usize = 0;
        assert(ss.take(0) =~= Seq::<SectionV>::empty());
        while i < self.sections.len()
            invariant
                i <= self.sections@.len(),
                ss == section_views(self.sections@),
                string_views(seen@) == ss.take(i as int).map_values(|p: SectionV| p.path),
                string_views(warnings@) == head + sections_warnings(ss.take(i as int)),
            decreases self.sections@.len() - i,
        {
            let s = &self.sections[i];
            let ghost w0 = string_views(warnings@);
            let ghost prior = ss.take(i as int);
            assert(ss.take(i + 1).drop_last() =~= prior);
            assert(ss.take(i + 1).last() == s@);
            if is_blank_str(s.path.as_str()) {
                push_string(&mut warnings, "section with empty path".to_owned());
            }
            let ghost w1 = string_views(warnings@);
            if crate::index::list_contains_str(&seen, s.path.as_str()) {
                let mut m = String::new();
                m.push_str("duplicate section path '");
                m.push_str(s.path.as_str());
                m.push_str("'");
                push_string(&mut warnings, m);
            }
            let ghost w2 = string_views(warnings@);
            if matches!(s.section_type, SectionType::Json) {
                match json_error(s.content.as_str()) {
                    Some(e) => {
                        let mut m = String::new();
                        m.push_str("section '");
                        m.push_str(s.path.as_str());
                        m.push_str("' is type json but content is not valid JSON: ");
                        m.push_str(e.as_str());
                        push_string(&mut warnings, m);
                    },
                    None => {},
                }
            }
            assert(string_views(warnings@) =~= w0 + section_warnings_at(prior, s@));
            let ghost seen0 = string_views(seen@);
            seen.push(s.path.clone());
            assert(string_views(seen@) =~= seen0.push(s@.path));
            assert(ss.take(i + 1).map_values(|p: SectionV| p.path) =~= prior.map_values(|p: SectionV| p.path).push(s@.path));
            i += 1;
        }
        assert(ss.take(ss.len() as int) =~= ss);
        warnings
    }
}

fn is_blank_str(s: &str) -> (r: bool)
    ensures
        r == (trim(s@).len() == 0),
{
    crate::text::is_blank(&chars_of(s))
}

} // verus!
