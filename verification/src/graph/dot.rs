//! Graphviz DOT text for program dependence graphs.

use vstd::prelude::*;
use crate::text::{decimal, decimal_string, string_views};
use crate::cfg::blocks::{BasicBlock, BlockKind};
use crate::cfg::dot::{kind_name, edge_name, block_line};
use crate::pdg::pdg_builder::{
    PdgEdge, PdgGraph, pdg_blocks, pdg_edges, pdg_node_count, pdg_edge_count, pdg_block_at, pdg_edge_at,
};

verus! {

/// The texts one after the other.
pub open spec fn concat(s: Seq<Seq<char>>) -> Seq<char>
    decreases s.len(),
{
    if s.len() == 0 {
        Seq::empty()
    } else {
        concat(s.drop_last()) + s.last()
    }
}

/// The fill colour of a block: green for the entry, red for the exit.
pub open spec fn fill_color(k: BlockKind) -> Seq<char> {
    match k {
        BlockKind::Entry => "green"@,
        BlockKind::Exit => "red"@,
        _ => "lightblue"@,
    }
}

/// The line of node `i` (its block `b`): `n<i>` labelled with the block's
/// lines and kind (a label without quotes).
pub open spec fn pdg_node_text(indent: Seq<char>, i: int, b: BasicBlock) -> Seq<char> {
    indent + "n"@ + decimal(i as nat) + " [label=\"L"@ + decimal(b.start_line as nat) + "-"@ + decimal(b.end_line as nat)
        + ":"@ + kind_name(b.kind) + "\" style=filled fillcolor="@ + fill_color(b.kind) + "];\n"@
}

/// The line style of a dependence edge.
pub open spec fn edge_style(e: PdgEdge) -> Seq<char> {
    match e {
        PdgEdge::Control => "dashed"@,
        PdgEdge::Data => "dotted"@,
        PdgEdge::Cfg(_) => "solid"@,
    }
}

/// The colour of a dependence edge.
pub open spec fn edge_color(e: PdgEdge) -> Seq<char> {
    match e {
        PdgEdge::Control => "red"@,
        PdgEdge::Data => "blue"@,
        PdgEdge::Cfg(_) => "black"@,
    }
}

/// The line of an edge between node indices.
pub open spec fn pdg_edge_text(indent: Seq<char>, e: (usize, usize, PdgEdge)) -> Seq<char> {
    indent + "n"@ + decimal(e.0 as nat) + " -> n"@ + decimal(e.1 as nat) + " [style="@ + edge_style(e.2) + " color="@
        + edge_color(e.2) + "];\n"@
}

/// The node lines, a blank line, and the edge lines of a dependence graph.
pub open spec fn nodes_edges_text(blocks: Seq<BasicBlock>, edges: Seq<(usize, usize, PdgEdge)>, indent: Seq<char>) -> Seq<
    char,
> {
    concat(Seq::new(blocks.len(), |i: int| pdg_node_text(indent, i, blocks[i]))) + "\n"@ + concat(
        edges.map_values(|e: (usize, usize, PdgEdge)| pdg_edge_text(indent, e)),
    )
}

/// The whole DOT text of a dependence graph, titled when `title` is not
/// empty.
pub open spec fn pdg_dot_text(blocks: Seq<BasicBlock>, edges: Seq<(usize, usize, PdgEdge)>, title: Seq<char>) -> Seq<char> {
    "digraph PDG {\n  rankdir=TB;\n  node [shape=box style=rounded];\n\n"@ + (if title.len() == 0 {
        Seq::empty()
    } else {
        "  label=\""@ + title + "\";\n  labelloc=t;\n\n"@
    }) + nodes_edges_text(blocks, edges, Seq::empty()) + "}\n"@
}

fn node_text_exec(indent: &str, i: usize, b: BasicBlock) -> (r: String)
    ensures
        r@ == pdg_node_text(indent@, i as int, b),
{
    let mut s = String::from_str(indent);
    s.append("n");
    let d = decimal_string(i);
    s.append(d.as_str());
    s.append(" [label=\"L");
    let a = decimal_string(b.start_line);
    s.append(a.as_str());
    s.append("-");
    let e = decimal_string(b.end_line);
    s.append(e.as_str());
    s.append(":");
    s.append(b.kind.name());
    s.append("\" style=filled fillcolor=");
    match b.kind {
        BlockKind::Entry => s.append("green"),
        BlockKind::Exit => s.append("red"),
        _ => s.append("lightblue"),
    }
    s.append("];\n");
    assert(s@ =~= pdg_node_text(indent@, i as int, b));
    s
}

fn edge_text_exec(indent: &str, e: (usize, usize, PdgEdge)) -> (r: String)
    ensures
        r@ == pdg_edge_text(indent@, e),
{
    let mut s = String::from_str(indent);
    s.append("n");
    let a = decimal_string(e.0);
    s.append(a.as_str());
    s.append(" -> n");
    let b = decimal_string(e.1);
    s.append(b.as_str());
    s.append(" [style=");
    match e.2 {
        PdgEdge::Control => s.append("dashed"),
        PdgEdge::Data => s.append("dotted"),
        PdgEdge::Cfg(_) => s.append("solid"),
    }
    s.append(" color=");
    match e.2 {
        PdgEdge::Control => s.append("red"),
        PdgEdge::Data => s.append("blue"),
        PdgEdge::Cfg(_) => s.append("black"),
    }
    s.append("];\n");
    assert(s@ =~= pdg_edge_text(indent@, e));
    s
}

/// Writes the node lines, a blank line and the edge lines of `pdg` after
/// what `dot` holds, each line after `indent`.
pub fn pdg_write_nodes_edges(pdg: &PdgGraph, dot: &mut String, indent: &str)
    ensures
        final(dot)@ == old(dot)@ + nodes_edges_text(pdg_blocks(*pdg), pdg_edges(*pdg), indent@),
{
    let ghost blocks = pdg_blocks(*pdg);
    let ghost edges = pdg_edges(*pdg);
    let ghost d0 = dot@;
    let ghost nodes = Seq::new(blocks.len(), |i: int| pdg_node_text(indent@, i, blocks[i]));
    let n = pdg_node_count(pdg);
    let mut i: usize = 0;
    while i < n
        invariant
            n == blocks.len(),
            blocks == pdg_blocks(*pdg),
            nodes == Seq::new(blocks.len(), |i: int| pdg_node_text(indent@, i, blocks[i])),
            i <= n,
            dot@ == d0 + concat(nodes.take(i as int)),
        decreases n - i,
    {
        let b = pdg_block_at(pdg, i);
        let t = node_text_exec(indent, i, b);
        dot.append(t.as_str());
        assert(nodes.take(i + 1).drop_last() =~= nodes.take(i as int));
        assert(nodes.take(i + 1).last() == nodes[i as int]);
        i = i + 1;
    }
    assert(nodes.take(n as int) =~= nodes);
    dot.append("\n");
    let ghost mid = dot@;
    let ghost texts = edges.map_values(|e: (usize, usize, PdgEdge)| pdg_edge_text(indent@, e));
    let m = pdg_edge_count(pdg);
    let mut k: usize = 0;
    while k < m
        invariant
            m == edges.len(),
            edges == pdg_edges(*pdg),
            texts == edges.map_values(|e: (usize, usize, PdgEdge)| pdg_edge_text(indent@, e)),
            k <= m,
            dot@ == mid + concat(texts.take(k as int)),
        decreases m - k,
    {
        let e = pdg_edge_at(pdg, k);
        let t = edge_text_exec(indent, e);
        dot.append(t.as_str());
        assert(texts.take(k + 1).drop_last() =~= texts.take(k as int));
        assert(texts.take(k + 1).last() == texts[k as int]);
        k = k + 1;
    }
    assert(texts.take(m as int) =~= texts);
    assert(dot@ =~= d0 + nodes_edges_text(blocks, edges, indent@));
}

/// The node lines, a blank line and the edge lines of `pdg`.
pub fn pdg_nodes_edges_to_dot(pdg: &PdgGraph, indent: &str) -> (r: String)
    ensures
        r@ == nodes_edges_text(pdg_blocks(*pdg), pdg_edges(*pdg), indent@),
{
    let mut dot = String::new();
    proof {
        reveal_strlit("");
    }
    pdg_write_nodes_edges(pdg, &mut dot, indent);
    assert(dot@ =~= nodes_edges_text(pdg_blocks(*pdg), pdg_edges(*pdg), indent@));
    dot
}

/// The DOT text of `pdg`, with a title line when `title` is not empty.
pub fn pdg_to_dot(pdg: &PdgGraph, title: &str) -> (r: String)
    ensures
        r@ == pdg_dot_text(pdg_blocks(*pdg), pdg_edges(*pdg), title@),
{
    let mut dot = String::from_str("digraph PDG {\n  rankdir=TB;\n  node [shape=box style=rounded];\n\n");
    if title.unicode_len() != 0 {
        dot.append("  label=\"");
        dot.append(title);
        dot.append("\";\n  labelloc=t;\n\n");
    }
    proof {
        reveal_strlit("");
        assert(""@ =~= Seq::<char>::empty());
    }
    let body = pdg_nodes_edges_to_dot(pdg, "");
    dot.append(body.as_str());
    dot.append("}\n");
    assert(dot@ =~= pdg_dot_text(pdg_blocks(*pdg), pdg_edges(*pdg), title@));
    dot
}

/// How a dependence edge is named: `control`, `data`, or `cfg(<Kind>)`.
pub open spec fn pdg_edge_name(e: PdgEdge) -> Seq<char> {
    match e {
        PdgEdge::Control => "control"@,
        PdgEdge::Data => "data"@,
        PdgEdge::Cfg(k) => "cfg("@ + edge_name(k) + ")"@,
    }
}

/// The line of a dependence edge, its ends named by their blocks' ids.
pub open spec fn pdg_edge_line(blocks: Seq<BasicBlock>, e: (usize, usize, PdgEdge)) -> Seq<char> {
    "  n"@ + decimal(blocks[e.0 as int].id as nat) + " -> n"@ + decimal(blocks[e.1 as int].id as nat) + " [label=\""@
        + pdg_edge_name(e.2) + "\"];"@
}

/// The DOT listing of the `pdg` command: header, a line per block, a line
/// per edge, `}`.
pub open spec fn pdg_lines(blocks: Seq<BasicBlock>, edges: Seq<(usize, usize, PdgEdge)>) -> Seq<Seq<char>> {
    seq!["digraph PDG {"@] + blocks.map_values(|b: BasicBlock| block_line(b)) + edges.map_values(
        |e: (usize, usize, PdgEdge)| pdg_edge_line(blocks, e),
    ) + seq!["}"@]
}

fn pdg_edge_line_exec(g: &PdgGraph, i: usize) -> (r: String)
    requires
        i < pdg_edges(*g).len(),
    ensures
        r@ == pdg_edge_line(pdg_blocks(*g), pdg_edges(*g)[i as int]),
{
    let (a, b, w) = pdg_edge_at(g, i);
    let ba = pdg_block_at(g, a);
    let bb = pdg_block_at(g, b);
    let mut line = String::from_str("  n");
    let da = decimal_string(ba.id);
    line.append(da.as_str());
    line.append(" -> n");
    let db = decimal_string(bb.id);
    line.append(db.as_str());
    line.append(" [label=\"");
    match w {
        PdgEdge::Control => line.append("control"),
        PdgEdge::Data => line.append("data"),
        PdgEdge::Cfg(k) => {
            line.append("cfg(");
            line.append(k.name());
            line.append(")");
        },
    }
    line.append("\"];");
    assert(line@ =~= pdg_edge_line(pdg_blocks(*g), pdg_edges(*g)[i as int]));
    line
}

/// The DOT listing of a dependence graph (see `pdg_lines`).
pub fn pdg_dot_lines(g: &PdgGraph) -> (r: Vec<String>)
    ensures
        string_views(r@) == pdg_lines(pdg_blocks(*g), pdg_edges(*g)),
{
    let ghost blocks = pdg_blocks(*g);
    let ghost edges = pdg_edges(*g);
    let mut lines: Vec<String> = Vec::new();
    lines.push(String::from_str("digraph PDG {"));
    let n = pdg_node_count(g);
    let mut i: usize = 0;
    while i < n
        invariant
            n == blocks.len(),
            blocks == pdg_blocks(*g),
            i <= n,
            string_views(lines@) == seq!["digraph PDG {"@] + blocks.take(i as int).map_values(
                |b: BasicBlock| block_line(b),
            ),
        decreases n - i,
    {
        let b = pdg_block_at(g, i);
        let line = crate::cfg::dot::block_line_exec(b);
        let ghost before = string_views(lines@);
        lines.push(line);
        proof {
            assert(string_views(lines@) =~= before.push(block_line(b)));
            assert(blocks.take(i + 1) =~= blocks.take(i as int).push(b));
            assert(string_views(lines@) =~= seq!["digraph PDG {"@] + blocks.take(i + 1).map_values(
                |b: BasicBlock| block_line(b),
            ));
        }
        i = i + 1;
    }
    assert(blocks.take(n as int) =~= blocks);
    let m = pdg_edge_count(g);
    let mut j: usize = 0;
    while j < m
        invariant
            m == edges.len(),
            blocks == pdg_blocks(*g),
            edges == pdg_edges(*g),
            j <= m,
            string_views(lines@) == seq!["digraph PDG {"@] + blocks.map_values(|b: BasicBlock| block_line(b))
                + edges.take(j as int).map_values(|e: (usize, usize, PdgEdge)| pdg_edge_line(blocks, e)),
        decreases m - j,
    {
        let line = pdg_edge_line_exec(g, j);
        let ghost before = string_views(lines@);
        lines.push(line);
        proof {
            assert(string_views(lines@) =~= before.push(pdg_edge_line(blocks, edges[j as int])));
            assert(edges.take(j + 1) =~= edges.take(j as int).push(edges[j as int]));
            assert(string_views(lines@) =~= seq!["digraph PDG {"@] + blocks.map_values(
                |b: BasicBlock| block_line(b),
            ) + edges.take(j + 1).map_values(|e: (usize, usize, PdgEdge)| pdg_edge_line(blocks, e)));
        }
        j = j + 1;
    }
    assert(edges.take(m as int) =~= edges);
    let ghost before = string_views(lines@);
    lines.push(String::from_str("}"));
    proof {
        assert(string_views(lines@) =~= before.push("}"@));
        assert(string_views(lines@) =~= pdg_lines(blocks, edges));
    }
    lines
}

/// The name of a dependence edge (see `pdg_edge_name`).
pub fn pdg_edge_label(e: PdgEdge) -> (r: String)
    ensures
        r@ == pdg_edge_name(e),
{
    match e {
        PdgEdge::Control => String::from_str("control"),
        PdgEdge::Data => String::from_str("data"),
        PdgEdge::Cfg(k) => {
            let mut s = String::from_str("cfg(");
            s.append(k.name());
            s.append(")");
            s
        },
    }
}

} // verus!
