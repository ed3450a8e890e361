//! The section graph written for other tools: Mermaid and GEXF.
use vstd::prelude::*;
use crate::document::RbmemDocument;
use crate::graph::{graph_of, GraphEdge, GraphEdgeV, GraphView, GraphViewV};
use crate::plan::string_views;
use crate::text::{chars_of, is_ascii_alnum, is_ascii_alnum_char, push_chars, str_eq, u64_text, decimal};

verus! {

/// The formats a graph is exported in.
#[derive(Debug, Clone, Copy, PartialEq, Eq, Structural)]
pub enum ExportFormat {
    Dot,
    Mermaid,
    Cytoscape,
    Gexf,
}

/// Every character that is no ASCII letter or digit replaced by `_`.
pub open spec fn stable(v: Seq<char>) -> Seq<char> {
    v.map_values(|c: char| if is_ascii_alnum(c) { c } else { '_' })
}

pub fn stable_id(value: &str) -> (r: String)
    ensures
        r@ == stable(value@),
{
    let v = chars_of(value);
    let mut out: Vec<char> = Vec::new();
    let mut i: usize = 0;
    while i < v.len()
        invariant
            v@ == value@,
            i <= v@.len(),
            out@ == stable(v@.take(i as int)),
        decreases v@.len() - i,
    {
        let c = v[i];
        out.push(if is_ascii_alnum_char(c) { c } else { '_' });
        assert(stable(v@.take(i + 1)) =~= stable(v@.take(i as int)).push(if is_ascii_alnum(c) { c } else { '_' }));
        i += 1;
    }
    assert(v@.take(v@.len() as int) =~= v@);
    crate::text::string_of(&out)
}

/// Each `"` replaced by `'`.
pub open spec fn mermaid_escaped(v: Seq<char>) -> Seq<char> {
    v.map_values(|c: char| if c == '"' { '\'' } else { c })
}

pub fn escape_mermaid(value: &str) -> (r: String)
    ensures
        r@ == mermaid_escaped(value@),
{
    let v = chars_of(value);
    let mut out: Vec<char> = Vec::new();
    let mut i: usize = 0;
    while i < v.len()
        invariant
            v@ == value@,
            i <= v@.len(),
            out@ == mermaid_escaped(v@.take(i as int)),
        decreases v@.len() - i,
    {
        let c = v[i];
        out.push(if c == '"' { '\'' } else { c });
        assert(mermaid_escaped(v@.take(i + 1)) =~= mermaid_escaped(v@.take(i as int)).push(
            if c == '"' { '\'' } else { c }));
        i += 1;
    }
    assert(v@.take(v@.len() as int) =~= v@);
    crate::text::string_of(&out)
}

/// The XML escape of one character.
pub open spec fn xml_char(c: char) -> Seq<char> {
    if c == '&' {
        "&amp;"@
    } else if c == '"' {
        "&quot;"@
    } else if c == '<' {
        "&lt;"@
    } else if c == '>' {
        "&gt;"@
    } else {
        seq![c]
    }
}

/// `&`, `"`, `<` and `>` escaped for XML.
pub open spec fn xml_escaped(v: Seq<char>) -> Seq<char>
    decreases v.len(),
{
    if v.len() == 0 {
        Seq::empty()
    } else {
        xml_escaped(v.drop_last()) + xml_char(v.last())
    }
}

pub fn escape_xml(value: &str) -> (r: String)
    ensures
        r@ == xml_escaped(value@),
{
    let v = chars_of(value);
    let mut out = String::new();
    let mut i: usize = 0;
    assert(v@.take(0) =~= Seq::<char>::empty());
    while i < v.len()
        invariant
            v@ == value@,
            i <= v@.len(),
            out@ == xml_escaped(v@.take(i as int)),
        decreases v@.len() - i,
    {
        assert(v@.take(i + 1).drop_last() =~= v@.take(i as int));
        assert(v@.take(i + 1).last() == v@[i as int]);
        let c = v[i];
        if c == '&' {
            out.push_str("&amp;");
        } else if c == '"' {
            out.push_str("&quot;");
        } else if c == '<' {
            out.push_str("&lt;");
        } else if c == '>' {
            out.push_str("&gt;");
        } else {
            let one = [c];
            push_chars(&mut out, &one);
            assert(one@ =~= seq![c]);
        }
        i += 1;
    }
    assert(v@.take(v@.len() as int) =~= v@);
    out
}

/// A Mermaid node: its stable id and its quoted label.
pub open spec fn mermaid_node(v: Seq<char>) -> Seq<char> {
    stable(v) + "[\""@ + mermaid_escaped(v) + "\"]"@
}

fn push_mermaid_node(out: &mut String, value: &str)
    ensures
        final(out)@ == old(out)@ + mermaid_node(value@),
{
    out.push_str(stable_id(value).as_str());
    out.push_str("[\"");
    out.push_str(escape_mermaid(value).as_str());
    out.push_str("\"]");
}

pub open spec fn mermaid_node_lines(nodes: Seq<Seq<char>>) -> Seq<char>
    decreases nodes.len(),
{
    if nodes.len() == 0 {
        Seq::empty()
    } else {
        mermaid_node_lines(nodes.drop_last()) + "  "@ + mermaid_node(nodes.last()) + "\n"@
    }
}

pub open spec fn mermaid_edge_lines(edges: Seq<GraphEdgeV>) -> Seq<char>
    decreases edges.len(),
{
    if edges.len() == 0 {
        Seq::empty()
    } else {
        let e = edges.last();
        mermaid_edge_lines(edges.drop_last()) + "  "@ + mermaid_node(e.from) + " -->|"@ + mermaid_escaped(e.edge_type)
            + "| "@ + mermaid_node(e.to) + "\n"@
    }
}

/// The graph as a Mermaid flowchart.
pub open spec fn mermaid_text(g: GraphViewV) -> Seq<char> {
    "graph TD\n"@ + mermaid_node_lines(g.nodes) + mermaid_edge_lines(g.edges)
}

pub fn export_mermaid(document: &RbmemDocument) -> (r: String)
    ensures
        r@ == mermaid_text(graph_of(document@.sections)),
{
    let view = document.graph_view();
    let ghost g = view@;
    let mut out = String::new();
    out.push_str("graph TD\n");
    let ghost head = out@;
    let mut i: usize = 0;
    assert(g.nodes.take(0) =~= Seq::<Seq<char>>::empty());
    while i < view.nodes.len()
        invariant
            g == view@,
            i <= g.nodes.len(),
            out@ == head + mermaid_node_lines(g.nodes.take(i as int)),
        decreases g.nodes.len() - i,
    {
        assert(g.nodes.take(i + 1).drop_last() =~= g.nodes.take(i as int));
        assert(g.nodes.take(i + 1).last() == view.nodes@[i as int]@);
        out.push_str("  ");
        push_mermaid_node(&mut out, view.nodes[i].as_str());
        out.push_str("\n");
        i += 1;
    }
    assert(g.nodes.take(g.nodes.len() as int) =~= g.nodes);
    let ghost mid = out@;
    let mut j: usize = 0;
    assert(g.edges.take(0) =~= Seq::<GraphEdgeV>::empty());
    while j < view.edges.len()
        invariant
            g == view@,
            j <= g.edges.len(),
            out@ == mid + mermaid_edge_lines(g.edges.take(j as int)),
        decreases g.edges.len() - j,
    {
        assert(g.edges.take(j + 1).drop_last() =~= g.edges.take(j as int));
        assert(g.edges.take(j + 1).last() == view.edges@[j as int]@);
        let e = &view.edges[j];
        out.push_str("  ");
        push_mermaid_node(&mut out, e.from.as_str());
        out.push_str(" -->|");
        out.push_str(escape_mermaid(e.edge_type.as_str()).as_str());
        out.push_str("| ");
        push_mermaid_node(&mut out, e.to.as_str());
        out.push_str("\n");
        j += 1;
    }
    assert(g.edges.take(g.edges.len() as int) =~= g.edges);
    out
}

/// The index of the first node with this name, 0 where there is none.
pub open spec fn node_position(nodes: Seq<Seq<char>>, name: Seq<char>) -> nat {
    if exists|i: int| 0 <= i < nodes.len() && nodes[i] == name {
        (choose|i: int| 0 <= i < nodes.len() && nodes[i] == name && forall|j: int| 0 <= j < i ==> nodes[j] != name) as nat
    } else {
        0
    }
}

fn node_position_exec(nodes: &Vec<String>, name: &str) -> (r: usize)
    ensures
        r == node_position(string_views(nodes@), name@),
{
    let ghost ns = string_views(nodes@);
    let mut i: usize = 0;
    while i < nodes.len()
        invariant
            ns == string_views(nodes@),
            i <= ns.len(),
            forall|j: int| 0 <= j < i ==> ns[j] != name@,
        decreases ns.len() - i,
    {
        if str_eq(nodes[i].as_str(), name) {
            assert(ns[i as int] == name@);
            let ghost k = choose|k: int| 0 <= k < ns.len() && ns[k] == name@ && forall|j: int| 0 <= j < k ==> ns[j] != name@;
            assert(k == i) by {
                if k > i {
                    assert(ns[i as int] != name@);
                }
            }
            return i;
        }
        i += 1;
    }
    0
}

pub open spec fn gexf_head() -> Seq<char> {
    "<?xml version=\"1.0\" encoding=\"UTF-8\"?>\n<gexf version=\"1.3\">\n  <graph mode=\"static\" defaultedgetype=\"directed\">\n    <nodes>\n"@
}

pub open spec fn gexf_node_lines(nodes: Seq<Seq<char>>) -> Seq<char>
    decreases nodes.len(),
{
    if nodes.len() == 0 {
        Seq::empty()
    } else {
        gexf_node_lines(nodes.drop_last()) + "      <node id=\""@ + decimal((nodes.len() - 1) as nat) + "\" label=\""@
            + xml_escaped(nodes.last()) + "\" />\n"@
    }
}

pub open spec fn gexf_edge_lines(nodes: Seq<Seq<char>>, edges: Seq<GraphEdgeV>) -> Seq<char>
    decreases edges.len(),
{
    if edges.len() == 0 {
        Seq::empty()
    } else {
        gexf_edge_lines(nodes, edges.drop_last()) + gexf_edge_line(nodes, (edges.len() - 1) as nat, edges.last())
    }
}

#[verifier::opaque]
pub open spec fn gexf_edge_line(nodes: Seq<Seq<char>>, index: nat, e: GraphEdgeV) -> Seq<char> {
    "      <edge id=\""@ + decimal(index) + "\" source=\""@ + decimal(node_position(nodes, e.from)) + "\" target=\""@
        + decimal(node_position(nodes, e.to)) + "\" label=\""@ + xml_escaped(e.edge_type) + "\" />\n"@
}

fn push_gexf_edge(out: &mut String, nodes: &Vec<String>, index: usize, e: &GraphEdge)
    ensures
        final(out)@ == old(out)@ + gexf_edge_line(string_views(nodes@), index as nat, e@),
{
    reveal(gexf_edge_line);
    let source = node_position_exec(nodes, e.from.as_str());
    let target = node_position_exec(nodes, e.to.as_str());
    out.push_str("      <edge id=\"");
    push_number(out, index);
    out.push_str("\" source=\"");
    push_number(out, source);
    out.push_str("\" target=\"");
    push_number(out, target);
    out.push_str("\" label=\"");
    out.push_str(escape_xml(e.edge_type.as_str()).as_str());
    out.push_str("\" />\n");
}

/// The graph as GEXF 1.3: nodes numbered in order, edges
/// pointing at the first node of each name.
pub open spec fn gexf_text(g: GraphViewV) -> Seq<char> {
    gexf_head() + gexf_node_lines(g.nodes) + "    </nodes>\n    <edges>\n"@ + gexf_edge_lines(g.nodes, g.edges)
        + "    </edges>\n  </graph>\n</gexf>\n"@
}

fn push_number(out: &mut String, n: usize)
    ensures
        final(out)@ == old(out)@ + decimal(n as nat),
{
    let digits = u64_text(n as u64);
    push_chars(out, &digits);
}

pub fn export_gexf(document: &RbmemDocument) -> (r: String)
    ensures
        r@ == gexf_text(graph_of(document@.sections)),
{
    let view = document.graph_view();
    let ghost g = view@;
    let mut out = String::new();
    out.push_str("<?xml version=\"1.0\" encoding=\"UTF-8\"?>\n<gexf version=\"1.3\">\n  <graph mode=\"static\" defaultedgetype=\"directed\">\n    <nodes>\n");
    let ghost head = out@;
    let mut i: usize = 0;
    assert(g.nodes.take(0) =~= Seq::<Seq<char>>::empty());
    while i < view.nodes.len()
        invariant
            g == view@,
            i <= g.nodes.len(),
            out@ == head + gexf_node_lines(g.nodes.take(i as int)),
        decreases g.nodes.len() - i,
    {
        assert(g.nodes.take(i + 1).drop_last() =~= g.nodes.take(i as int));
        assert(g.nodes.take(i + 1).last() == view.nodes@[i as int]@);
        out.push_str("      <node id=\"");
        push_number(&mut out, i);
        out.push_str("\" label=\"");
        out.push_str(escape_xml(view.nodes[i].as_str()).as_str());
        out.push_str("\" />\n");
        i += 1;
    }
    assert(g.nodes.take(g.nodes.len() as int) =~= g.nodes);
    out.push_str("    </nodes>\n    <edges>\n");
    let ghost mid = out@;
    let mut j: usize = 0;
    assert(g.edges.take(0) =~= Seq::<GraphEdgeV>::empty());
    while j < view.edges.len()
        invariant
            g == view@,
            j <= g.edges.len(),
            out@ == mid + gexf_edge_lines(g.nodes, g.edges.take(j as int)),
        decreases g.edges.len() - j,
    {
        assert(g.edges.take(j + 1).drop_last() =~= g.edges.take(j as int));
        assert(g.edges.take(j + 1).last() == view.edges@[j as int]@);
        let ghost before = out@;
        push_gexf_edge(&mut out, &view.nodes, j, &view.edges[j]);
        assert(gexf_edge_lines(g.nodes, g.edges.take(j + 1)) == gexf_edge_lines(g.nodes, g.edges.take(j as int))
            + gexf_edge_line(g.nodes, j as nat, g.edges[j as int]));
        j += 1;
    }
    assert(g.edges.take(g.edges.len() as int) =~= g.edges);
    out.push_str("    </edges>\n  </graph>\n</gexf>\n");
    out
}

} // verus!
