//! The Graphviz DOT listing of a control flow graph: one line per block,
//! one line per edge, inside `digraph CFG { .. }`.

use vstd::prelude::*;
use crate::text::{decimal, decimal_string, string_views};
use crate::cfg::blocks::{
    BasicBlock, BlockEdge, BlockKind, CfgGraph, cfg_blocks, cfg_edges, cfg_node_count, cfg_edge_count,
    cfg_block_at, cfg_edge_at,
};

verus! {

/// The name of a block kind, as it is printed.
pub open spec fn kind_name(k: BlockKind) -> Seq<char> {
    match k {
        BlockKind::Entry => "Entry"@,
        BlockKind::Exit => "Exit"@,
        BlockKind::Statement => "Statement"@,
        BlockKind::Condition => "Condition"@,
        BlockKind::BranchTrue => "BranchTrue"@,
        BlockKind::BranchFalse => "BranchFalse"@,
        BlockKind::LoopHeader => "LoopHeader"@,
        BlockKind::LoopBody => "LoopBody"@,
        BlockKind::LoopExit => "LoopExit"@,
        BlockKind::Handler => "Handler"@,
        BlockKind::Finally => "Finally"@,
        BlockKind::Resume => "Resume"@,
        BlockKind::Unknown => "Unknown"@,
    }
}

/// The name of an edge kind, as it is printed (`Sequence` prints as `Seq`).
pub open spec fn edge_name(e: BlockEdge) -> Seq<char> {
    match e {
        BlockEdge::Sequence => "Seq"@,
        BlockEdge::CondTrue => "CondTrue"@,
        BlockEdge::CondFalse => "CondFalse"@,
        BlockEdge::LoopBack => "LoopBack"@,
        BlockEdge::LoopExit => "LoopExit"@,
        BlockEdge::Throw => "Throw"@,
        BlockEdge::Catch => "Catch"@,
        BlockEdge::Finally => "Finally"@,
        BlockEdge::Return => "Return"@,
        BlockEdge::Resume => "Resume"@,
    }
}

impl BlockKind {
    /// The kind's name.
    pub fn name(&self) -> (r: &'static str)
        ensures
            r@ == kind_name(*self),
    {
        match self {
            BlockKind::Entry => "Entry",
            BlockKind::Exit => "Exit",
            BlockKind::Statement => "Statement",
            BlockKind::Condition => "Condition",
            BlockKind::BranchTrue => "BranchTrue",
            BlockKind::BranchFalse => "BranchFalse",
            BlockKind::LoopHeader => "LoopHeader",
            BlockKind::LoopBody => "LoopBody",
            BlockKind::LoopExit => "LoopExit",
            BlockKind::Handler => "Handler",
            BlockKind::Finally => "Finally",
            BlockKind::Resume => "Resume",
            BlockKind::Unknown => "Unknown",
        }
    }
}

impl BlockEdge {
    /// The edge kind's name.
    pub fn name(&self) -> (r: &'static str)
        ensures
            r@ == edge_name(*self),
    {
        match self {
            BlockEdge::Sequence => "Seq",
            BlockEdge::CondTrue => "CondTrue",
            BlockEdge::CondFalse => "CondFalse",
            BlockEdge::LoopBack => "LoopBack",
            BlockEdge::LoopExit => "LoopExit",
            BlockEdge::Throw => "Throw",
            BlockEdge::Catch => "Catch",
            BlockEdge::Finally => "Finally",
            BlockEdge::Return => "Return",
            BlockEdge::Resume => "Resume",
        }
    }
}

/// `[id] Kind (Lstart-Lend)`: how a block is labelled.
pub open spec fn block_label(b: BasicBlock) -> Seq<char> {
    "["@ + decimal(b.id as nat) + "] "@ + kind_name(b.kind) + " (L"@ + decimal(b.start_line as nat) + "-L"@
        + decimal(b.end_line as nat) + ")"@
}

/// The line of a block: `  n<id> [label="<label>"];`.
pub open spec fn block_line(b: BasicBlock) -> Seq<char> {
    "  n"@ + decimal(b.id as nat) + " [label=\""@ + block_label(b) + "\"];"@
}

/// The line of an edge, its ends named by their blocks' ids:
/// `  n<a> -> n<b> [label="<Kind>"];`.
pub open spec fn edge_line(blocks: Seq<BasicBlock>, e: (usize, usize, BlockEdge)) -> Seq<char> {
    "  n"@ + decimal(blocks[e.0 as int].id as nat) + " -> n"@ + decimal(blocks[e.1 as int].id as nat)
        + " [label=\""@ + edge_name(e.2) + "\"];"@
}

/// The DOT listing of a graph with these blocks and edges.
pub open spec fn dot_lines(blocks: Seq<BasicBlock>, edges: Seq<(usize, usize, BlockEdge)>) -> Seq<Seq<char>> {
    seq!["digraph CFG {"@] + blocks.map_values(|b: BasicBlock| block_line(b)) + edges.map_values(
        |e: (usize, usize, BlockEdge)| edge_line(blocks, e),
    ) + seq!["}"@]
}

pub(crate) fn block_line_exec(b: BasicBlock) -> (r: String)
    ensures
        r@ == block_line(b),
{
    let id = decimal_string(b.id);
    let mut line = String::from_str("  n");
    line.append(id.as_str());
    line.append(" [label=\"");
    line.append("[");
    line.append(id.as_str());
    line.append("] ");
    line.append(b.kind.name());
    line.append(" (L");
    let s = decimal_string(b.start_line);
    line.append(s.as_str());
    line.append("-L");
    let e = decimal_string(b.end_line);
    line.append(e.as_str());
    line.append(")");
    line.append("\"];");
    proof {
        assert(line@ =~= block_line(b));
    }
    line
}

fn edge_line_exec(g: &CfgGraph, i: usize) -> (r: String)
    requires
        i < cfg_edges(*g).len(),
    ensures
        r@ == edge_line(cfg_blocks(*g), cfg_edges(*g)[i as int]),
{
    let (a, b, w) = cfg_edge_at(g, i);
    let ba = cfg_block_at(g, a);
    let bb = cfg_block_at(g, b);
    let mut line = String::from_str("  n");
    let da = decimal_string(ba.id);
    line.append(da.as_str());
    line.append(" -> n");
    let db = decimal_string(bb.id);
    line.append(db.as_str());
    line.append(" [label=\"");
    line.append(w.name());
    line.append("\"];");
    proof {
        assert(line@ =~= edge_line(cfg_blocks(*g), cfg_edges(*g)[i as int]));
    }
    line
}

/// The DOT listing of a control flow graph: the header line, a line per
/// block in index order, a line per edge in insertion order, and `}`.
pub fn cfg_dot_lines(g: &CfgGraph) -> (r: Vec<String>)
    ensures
        string_views(r@) == dot_lines(cfg_blocks(*g), cfg_edges(*g)),
{
    let ghost blocks = cfg_blocks(*g);
    let ghost edges = cfg_edges(*g);
    let mut lines: Vec<String> = Vec::new();
    lines.push(String::from_str("digraph CFG {"));
    let n = cfg_node_count(g);
    let mut i: usize = 0;
    while i < n
        invariant
            n == blocks.len(),
            blocks == cfg_blocks(*g),
            i <= n,
            string_views(lines@) == seq!["digraph CFG {"@] + blocks.take(i as int).map_values(
                |b: BasicBlock| block_line(b),
            ),
        decreases n - i,
    {
        let b = cfg_block_at(g, i);
        let line = block_line_exec(b);
        let ghost before = string_views(lines@);
        lines.push(line);
        proof {
            assert(string_views(lines@) =~= before.push(block_line(b)));
            assert(blocks.take(i + 1) =~= blocks.take(i as int).push(b));
            assert(string_views(lines@) =~= seq!["digraph CFG {"@] + blocks.take(i + 1).map_values(
                |b: BasicBlock| block_line(b),
            ));
        }
        i = i + 1;
    }
    assert(blocks.take(n as int) =~= blocks);
    let m = cfg_edge_count(g);
    let mut j: usize = 0;
    while j < m
        invariant
            m == edges.len(),
            blocks == cfg_blocks(*g),
            edges == cfg_edges(*g),
            j <= m,
            string_views(lines@) == seq!["digraph CFG {"@] + blocks.map_values(|b: BasicBlock| block_line(b))
                + edges.take(j as int).map_values(|e: (usize, usize, BlockEdge)| edge_line(blocks, e)),
        decreases m - j,
    {
        let line = edge_line_exec(g, j);
        let ghost before = string_views(lines@);
        lines.push(line);
        proof {
            assert(string_views(lines@) =~= before.push(edge_line(blocks, edges[j as int])));
            assert(edges.take(j + 1) =~= edges.take(j as int).push(edges[j as int]));
            assert(string_views(lines@) =~= seq!["digraph CFG {"@] + blocks.map_values(
                |b: BasicBlock| block_line(b),
            ) + edges.take(j + 1).map_values(|e: (usize, usize, BlockEdge)| edge_line(blocks, e)));
        }
        j = j + 1;
    }
    assert(edges.take(m as int) =~= edges);
    let ghost before = string_views(lines@);
    lines.push(String::from_str("}"));
    proof {
        assert(string_views(lines@) =~= before.push("}"@));
        assert(string_views(lines@) =~= dot_lines(blocks, edges));
    }
    lines
}

} // verus!
