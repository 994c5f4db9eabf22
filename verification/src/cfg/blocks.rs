//! Basic blocks, their edges, and the control flow graph that holds them
//! (a `petgraph` directed graph indexed by `usize`).

use vstd::prelude::*;

verus! {

/// What a basic block stands for.
#[derive(Debug, Clone, Copy, PartialEq, Eq, Structural)]
pub enum BlockKind {
    Entry,
    Exit,
    Statement,
    Condition,
    BranchTrue,
    BranchFalse,
    LoopHeader,
    LoopBody,
    LoopExit,
    Handler,
    Finally,
    Resume,
    Unknown,
}

/// How control passes from one block to the next (`Sequence`: on to the
/// next statement).
#[derive(Debug, Clone, Copy, PartialEq, Eq, Structural)]
pub enum BlockEdge {
    Sequence,
    CondTrue,
    CondFalse,
    LoopBack,
    LoopExit,
    Throw,
    Catch,
    Finally,
    Return,
    Resume,
}

/// A block of the graph: its position, the source lines it spans
/// (1-based) and its kind.
#[derive(Debug, Clone, Copy, PartialEq, Eq, Structural)]
pub struct BasicBlock {
    pub id: usize,
    pub start_line: usize,
    pub end_line: usize,
    pub kind: BlockKind,
}

#[verifier::external_type_specification]
#[verifier::external_body]
#[verifier::reject_recursive_types(N)]
#[verifier::reject_recursive_types(E)]
#[verifier::reject_recursive_types(Ty)]
#[verifier::reject_recursive_types(Ix)]
pub struct ExGraph<N, E, Ty, Ix>(petgraph::graph::Graph<N, E, Ty, Ix>);

#[verifier::external_type_specification]
#[verifier::external_body]
pub struct ExDirected(petgraph::Directed);

/// A control flow graph.
pub type CfgGraph = petgraph::graph::Graph<BasicBlock, BlockEdge, petgraph::Directed, usize>;

/// The blocks of a control flow graph, in the order they were added.
pub uninterp spec fn cfg_blocks(g: CfgGraph) -> Seq<BasicBlock>;

/// The edges of a control flow graph (source, target, kind), in the order
/// they were added.
pub uninterp spec fn cfg_edges(g: CfgGraph) -> Seq<(usize, usize, BlockEdge)>;

/// `petgraph::graph::Graph::new`: a graph with no nodes and no edges.
#[verifier::external_body]
pub(crate) fn cfg_new() -> (g: CfgGraph)
    ensures
        cfg_blocks(g) == Seq::<BasicBlock>::empty(),
        cfg_edges(g) == Seq::<(usize, usize, BlockEdge)>::empty(),
{
    petgraph::graph::Graph::default()
}

/// `petgraph::graph::Graph::add_node`: the block is added after the others
/// and its index (their number) returned; with `usize` indices it cannot
/// run out of them.
#[verifier::external_body]
pub(crate) fn cfg_add_node(g: &mut CfgGraph, b: BasicBlock) -> (r: usize)
    ensures
        r == cfg_blocks(*old(g)).len(),
        cfg_blocks(*final(g)) == cfg_blocks(*old(g)).push(b),
        cfg_edges(*final(g)) == cfg_edges(*old(g)),
{
    g.add_node(b).index()
}

/// `petgraph::graph::Graph::add_edge`: the edge is added after the others;
/// both ends must be nodes of the graph.
#[verifier::external_body]
pub(crate) fn cfg_add_edge(g: &mut CfgGraph, a: usize, b: usize, w: BlockEdge)
    requires
        a < cfg_blocks(*old(g)).len(),
        b < cfg_blocks(*old(g)).len(),
    ensures
        cfg_blocks(*final(g)) == cfg_blocks(*old(g)),
        cfg_edges(*final(g)) == cfg_edges(*old(g)).push((a, b, w)),
{
    g.add_edge(petgraph::graph::NodeIndex::new(a), petgraph::graph::NodeIndex::new(b), w);
}

/// `petgraph::graph::Graph::node_count`: the number of blocks.
#[verifier::external_body]
pub(crate) fn cfg_node_count(g: &CfgGraph) -> (r: usize)
    ensures
        r == cfg_blocks(*g).len(),
{
    g.node_count()
}

/// `petgraph::graph::Graph::edge_count`: the number of edges.
#[verifier::external_body]
pub(crate) fn cfg_edge_count(g: &CfgGraph) -> (r: usize)
    ensures
        r == cfg_edges(*g).len(),
{
    g.edge_count()
}

/// `petgraph::graph::Graph::raw_nodes`: the weight of the block at `i`.
#[verifier::external_body]
pub(crate) fn cfg_block_at(g: &CfgGraph, i: usize) -> (r: BasicBlock)
    requires
        i < cfg_blocks(*g).len(),
    ensures
        r == cfg_blocks(*g)[i as int],
{
    g.raw_nodes()[i].weight
}

/// `petgraph::graph::Graph::raw_edges`: the edge at `i` (source, target,
/// kind). Both ends are nodes of the graph: `add_edge` panics on any other
/// index and `remove_node` removes the edges of the node it removes.
#[verifier::external_body]
pub(crate) fn cfg_edge_at(g: &CfgGraph, i: usize) -> (r: (usize, usize, BlockEdge))
    requires
        i < cfg_edges(*g).len(),
    ensures
        r == cfg_edges(*g)[i as int],
        r.0 < cfg_blocks(*g).len(),
        r.1 < cfg_blocks(*g).len(),
{
    let e = &g.raw_edges()[i];
    (e.source().index(), e.target().index(), e.weight)
}

} // verus!
