//! The section graph as a `petgraph` graph.
use vstd::prelude::*;
use crate::document::RbmemDocument;
use crate::graph::{graph_of, GraphEdgeV};
use crate::plan::string_views;
use crate::text::str_eq;
use petgraph::graph::{Graph, NodeIndex};

verus! {

#[verifier::external_type_specification]
#[verifier::external_body]
#[verifier::reject_recursive_types(N)]
#[verifier::reject_recursive_types(E)]
#[verifier::reject_recursive_types(Ty)]
#[verifier::reject_recursive_types(Ix)]
pub struct ExGraph<N, E, Ty, Ix>(petgraph::graph::Graph<N, E, Ty, Ix>);

#[verifier::external_type_specification]
#[verifier::external_body]
pub struct ExDirected(petgraph::Directed);

/// The node weights of a graph, in the order of their indices.
pub uninterp spec fn node_weights(g: Graph<String, String>) -> Seq<Seq<char>>;

/// The edges of a graph, in the order of their indices: source index,
/// target index, weight.
pub uninterp spec fn edge_list(g: Graph<String, String>) -> Seq<(int, int, Seq<char>)>;

/// Calls `petgraph::Graph::new`. Claimed: the graph has no nodes and no
/// edges.
#[verifier::external_body]
fn graph_new() -> (g: Graph<String, String>)
    ensures
        node_weights(g) == Seq::<Seq<char>>::empty(),
        edge_list(g) == Seq::<(int, int, Seq<char>)>::empty(),
{
    Graph::new()
}

/// Calls `petgraph::Graph::add_node`. Claimed, as its source shows: the
/// weight is pushed as the next node and its index returned; the edges stay.
/// It panics when the index would be `u32::MAX`, which `requires` leaves out.
#[verifier::external_body]
fn graph_add_node(g: &mut Graph<String, String>, weight: String) -> (i: usize)
    requires
        node_weights(*old(g)).len() < u32::MAX,
    ensures
        i == node_weights(*old(g)).len(),
        node_weights(*final(g)) == node_weights(*old(g)).push(weight@),
        edge_list(*final(g)) == edge_list(*old(g)),
{
    g.add_node(weight).index()
}

/// Calls `petgraph::Graph::add_edge`. Claimed, as its source shows: the edge
/// is pushed as the next edge; the nodes stay. It panics on an index out of
/// range or when the edge index would be `u32::MAX`, which `requires` leaves
/// out.
#[verifier::external_body]
fn graph_add_edge(g: &mut Graph<String, String>, from: usize, to: usize, weight: String)
    requires
        from < node_weights(*old(g)).len(),
        to < node_weights(*old(g)).len(),
        edge_list(*old(g)).len() < u32::MAX,
    ensures
        node_weights(*final(g)) == node_weights(*old(g)),
        edge_list(*final(g)) == edge_list(*old(g)).push((from as int, to as int, weight@)),
{
    g.add_edge(NodeIndex::new(from), NodeIndex::new(to), weight);
}

/// The index of the last node with this name (`BTreeMap::insert` keeps the
/// last).
pub open spec fn last_index(nodes: Seq<Seq<char>>, name: Seq<char>) -> Option<int>
    decreases nodes.len(),
{
    if nodes.len() == 0 {
        None
    } else if nodes.last() == name {
        Some(nodes.len() - 1)
    } else {
        last_index(nodes.drop_last(), name)
    }
}

proof fn lemma_last_index_bound(nodes: Seq<Seq<char>>, name: Seq<char>)
    ensures
        last_index(nodes, name) matches Some(i) ==> 0 <= i < nodes.len(),
    decreases nodes.len(),
{
    if nodes.len() > 0 && nodes.last() != name {
        lemma_last_index_bound(nodes.drop_last(), name);
    }
}

/// The edges between known nodes, by index, in order.
pub open spec fn indexed_edges(nodes: Seq<Seq<char>>, edges: Seq<GraphEdgeV>) -> Seq<(int, int, Seq<char>)>
    decreases edges.len(),
{
    if edges.len() == 0 {
        Seq::empty()
    } else {
        let prev = indexed_edges(nodes, edges.drop_last());
        let e = edges.last();
        match (last_index(nodes, e.from), last_index(nodes, e.to)) {
            (Some(a), Some(b)) => prev.push((a, b, e.edge_type)),
            _ => prev,
        }
    }
}

proof fn lemma_indexed_len(nodes: Seq<Seq<char>>, edges: Seq<GraphEdgeV>)
    ensures
        indexed_edges(nodes, edges).len() <= edges.len(),
    decreases edges.len(),
{
    if edges.len() > 0 {
        lemma_indexed_len(nodes, edges.drop_last());
    }
}

fn last_index_exec(nodes: &Vec<String>, name: &str) -> (r: Option<usize>)
    ensures
        match r {
            Some(i) => last_index(string_views(nodes@), name@) == Some(i as int),
            None => last_index(string_views(nodes@), name@) is None,
        },
{
    let ghost ns = string_views(nodes@);
    let mut i: usize = nodes.len();
    assert(ns.take(ns.len() as int) =~= ns);
    while i > 0
        invariant
            ns == string_views(nodes@),
            i <= ns.len(),
            last_index(ns, name@) == last_index(ns.take(i as int), name@),
        decreases i,
    {
        let ghost t = ns.take(i as int);
        assert(t.drop_last() =~= ns.take(i - 1));
        assert(t.last() == nodes@[i - 1]@);
        if str_eq(nodes[i - 1].as_str(), name) {
            return Some(i - 1);
        }
        i -= 1;
    }
    assert(ns.take(0) =~= Seq::<Seq<char>>::empty());
    None
}

impl RbmemDocument {
    /// The section graph as a directed `petgraph` graph: its nodes in order,
    /// and each edge whose ends are nodes, weighted with its type.
    pub fn petgraph(&self) -> (r: Graph<String, String>)
        requires
            graph_of(self@.sections).nodes.len() < u32::MAX,
            graph_of(self@.sections).edges.len() < u32::MAX,
        ensures
            node_weights(r) == graph_of(self@.sections).nodes,
            edge_list(r) == indexed_edges(graph_of(self@.sections).nodes, graph_of(self@.sections).edges),
    {
        let view = self.graph_view();
        let ghost g = view@;
        let mut graph = graph_new();
        let mut i: usize = 0;
        while i < view.nodes.len()
            invariant
                g == view@,
                g.nodes.len() < u32::MAX,
                i <= g.nodes.len(),
                node_weights(graph) == g.nodes.take(i as int),
                edge_list(graph) == Seq::<(int, int, Seq<char>)>::empty(),
            decreases g.nodes.len() - i,
        {
            graph_add_node(&mut graph, view.nodes[i].clone());
            assert(g.nodes.take(i + 1) =~= g.nodes.take(i as int).push(view.nodes@[i as int]@));
            i += 1;
        }
        assert(g.nodes.take(g.nodes.len() as int) =~= g.nodes);
        let mut j: usize = 0;
        assert(g.edges.take(0) =~= Seq::<GraphEdgeV>::empty());
        while j < view.edges.len()
            invariant
                g == view@,
                g.edges.len() < u32::MAX,
                j <= g.edges.len(),
                node_weights(graph) == g.nodes,
                edge_list(graph) == indexed_edges(g.nodes, g.edges.take(j as int)),
            decreases g.edges.len() - j,
        {
            assert(g.edges.take(j + 1).drop_last() =~= g.edges.take(j as int));
            assert(g.edges.take(j + 1).last() == view.edges@[j as int]@);
            proof {
                lemma_indexed_len(g.nodes, g.edges.take(j as int));
            }
            let e = &view.edges[j];
            let from = last_index_exec(&view.nodes, e.from.as_str());
            let to = last_index_exec(&view.nodes, e.to.as_str());
            proof {
                lemma_last_index_bound(g.nodes, e.from@);
                lemma_last_index_bound(g.nodes, e.to@);
            }
            match (from, to) {
                (Some(a), Some(b)) => {
                    graph_add_edge(&mut graph, a, b, e.edge_type.clone());
                },
                _ => {},
            }
            j += 1;
        }
        assert(g.edges.take(g.edges.len() as int) =~= g.edges);
        graph
    }
}

} // verus!
