//! The program dependence graph: the blocks and edges of the control flow
//! graph, then its control dependence edges, then its data dependence
//! edges.

use vstd::prelude::*;
use crate::cfg::blocks::{
    BasicBlock, BlockKind, BlockEdge, CfgGraph, cfg_blocks, cfg_edges, cfg_node_count, cfg_edge_count, cfg_block_at,
    cfg_edge_at,
};
use crate::cli::hammock_report::{first_block_of, first_block};
use crate::hammock::dominators::edge_pairs;
use crate::pdg::control_deps::{compute_control_deps, control_dep, pairs_sorted, pair_lt, pdoms_of};
use crate::pdg::data_deps::compute_data_deps;

verus! {

/// The kind of a dependence edge: control, data, or a control flow edge
/// with its kind.
#[derive(Debug, Clone, Copy, PartialEq, Eq, Structural)]
pub enum PdgEdge {
    Control,
    Data,
    Cfg(BlockEdge),
}

/// A program dependence graph.
pub type PdgGraph = petgraph::graph::Graph<BasicBlock, PdgEdge, petgraph::Directed, usize>;

/// The blocks of a program dependence graph, in the order they were added.
pub uninterp spec fn pdg_blocks(g: PdgGraph) -> Seq<BasicBlock>;

/// The edges of a program dependence graph (source, target, kind), in the
/// order they were added.
pub uninterp spec fn pdg_edges(g: PdgGraph) -> Seq<(usize, usize, PdgEdge)>;

/// `petgraph::graph::Graph::new`: a graph with no nodes and no edges.
#[verifier::external_body]
fn pdg_new() -> (g: PdgGraph)
    ensures
        pdg_blocks(g) == Seq::<BasicBlock>::empty(),
        pdg_edges(g) == Seq::<(usize, usize, PdgEdge)>::empty(),
{
    petgraph::graph::Graph::default()
}

/// `petgraph::graph::Graph::add_node`: the block is added after the others
/// and its index returned.
#[verifier::external_body]
fn pdg_add_node(g: &mut PdgGraph, b: BasicBlock) -> (r: usize)
    ensures
        r == pdg_blocks(*old(g)).len(),
        pdg_blocks(*final(g)) == pdg_blocks(*old(g)).push(b),
        pdg_edges(*final(g)) == pdg_edges(*old(g)),
{
    g.add_node(b).index()
}

/// `petgraph::graph::Graph::add_edge`: the edge is added after the others;
/// both ends must be nodes of the graph.
#[verifier::external_body]
fn pdg_add_edge(g: &mut PdgGraph, a: usize, b: usize, w: PdgEdge)
    requires
        a < pdg_blocks(*old(g)).len(),
        b < pdg_blocks(*old(g)).len(),
    ensures
        pdg_blocks(*final(g)) == pdg_blocks(*old(g)),
        pdg_edges(*final(g)) == pdg_edges(*old(g)).push((a, b, w)),
{
    g.add_edge(petgraph::graph::NodeIndex::new(a), petgraph::graph::NodeIndex::new(b), w);
}

/// `petgraph::graph::Graph::node_count`: the number of blocks.
#[verifier::external_body]
pub(crate) fn pdg_node_count(g: &PdgGraph) -> (r: usize)
    ensures
        r == pdg_blocks(*g).len(),
{
    g.node_count()
}

/// `petgraph::graph::Graph::edge_count`: the number of edges.
#[verifier::external_body]
pub(crate) fn pdg_edge_count(g: &PdgGraph) -> (r: usize)
    ensures
        r == pdg_edges(*g).len(),
{
    g.edge_count()
}

/// `petgraph::graph::Graph::raw_nodes`: the weight of the block at `i`.
#[verifier::external_body]
pub(crate) fn pdg_block_at(g: &PdgGraph, i: usize) -> (r: BasicBlock)
    requires
        i < pdg_blocks(*g).len(),
    ensures
        r == pdg_blocks(*g)[i as int],
{
    g.raw_nodes()[i].weight
}

/// `petgraph::graph::Graph::raw_edges`: the edge at `i` (source, target,
/// kind). Both ends are nodes of the graph: `add_edge` panics on any other
/// index and `remove_node` removes the edges of the node it removes.
#[verifier::external_body]
pub(crate) fn pdg_edge_at(g: &PdgGraph, i: usize) -> (r: (usize, usize, PdgEdge))
    requires
        i < pdg_edges(*g).len(),
    ensures
        r == pdg_edges(*g)[i as int],
        r.0 < pdg_blocks(*g).len(),
        r.1 < pdg_blocks(*g).len(),
{
    let e = &g.raw_edges()[i];
    (e.source().index(), e.target().index(), e.weight)
}

/// The control dependences of a graph in increasing order, none twice.
pub open spec fn control_deps_of(n: nat, edges: Seq<(usize, usize, BlockEdge)>, entry: int, exit: int) -> Seq<(usize, usize)> {
    choose|s: Seq<(usize, usize)>|
        pairs_sorted(s) && forall|p: (usize, usize)| #[trigger] s.contains(p) <==> (p.0 < n && control_dep(
            edge_pairs(edges),
            pdoms_of(n, edges, exit),
            entry,
            exit,
            p.0 as int,
            p.1 as int,
        ))
}

/// Two sorted lists of pairs with the same members are equal.
pub proof fn lemma_sorted_pairs_unique(a: Seq<(usize, usize)>, b: Seq<(usize, usize)>)
    requires
        pairs_sorted(a),
        pairs_sorted(b),
        forall|p: (usize, usize)| #[trigger] a.contains(p) <==> b.contains(p),
    ensures
        a == b,
    decreases a.len(),
{
    if a.len() == 0 {
        if b.len() > 0 {
            assert(b.contains(b[0]));
            assert(a.contains(b[0]));
        }
        assert(a =~= b);
    } else {
        assert(a.contains(a[0]));
        assert(b.contains(a[0]));
        assert(b.len() > 0);
        assert(b.contains(b[0]));
        assert(a.contains(b[0]));
        let ia = choose|i: int| 0 <= i < a.len() && a[i] == b[0];
        let ib = choose|i: int| 0 <= i < b.len() && b[i] == a[0];
        if ia > 0 {
            assert(pair_lt(a[0], a[ia]));
        }
        if ib > 0 {
            assert(pair_lt(b[0], b[ib]));
        }
        assert(a[0] == b[0]);
        let a1 = a.drop_first();
        let b1 = b.drop_first();
        assert forall|i: int, j: int| 0 <= i < j < a1.len() implies pair_lt(#[trigger] a1[i], #[trigger] a1[j]) by {
            assert(a1[i] == a[i + 1] && a1[j] == a[j + 1]);
        }
        assert forall|i: int, j: int| 0 <= i < j < b1.len() implies pair_lt(#[trigger] b1[i], #[trigger] b1[j]) by {
            assert(b1[i] == b[i + 1] && b1[j] == b[j + 1]);
        }
        assert forall|p: (usize, usize)| #[trigger] a1.contains(p) <==> b1.contains(p) by {
            if a1.contains(p) {
                let i = choose|i: int| 0 <= i < a1.len() && a1[i] == p;
                assert(a[i + 1] == p);
                assert(pair_lt(a[0], a[i + 1]));
                assert(a.contains(p));
                assert(b.contains(p));
                let k = choose|k: int| 0 <= k < b.len() && b[k] == p;
                assert(k != 0);
                assert(b1[k - 1] == p);
            }
            if b1.contains(p) {
                let i = choose|i: int| 0 <= i < b1.len() && b1[i] == p;
                assert(b[i + 1] == p);
                assert(pair_lt(b[0], b[i + 1]));
                assert(b.contains(p));
                assert(a.contains(p));
                let k = choose|k: int| 0 <= k < a.len() && a[k] == p;
                assert(k != 0);
                assert(a1[k - 1] == p);
            }
        }
        lemma_sorted_pairs_unique(a1, b1);
        assert(a =~= b) by {
            assert forall|i: int| 0 <= i < a.len() implies a[i] == b[i] by {
                if i > 0 {
                    assert(a[i] == a1[i - 1]);
                    assert(b[i] == b1[i - 1]);
                }
            }
        }
    }
}

/// The edges of the dependence graph of a control flow graph: its edges as
/// control flow edges, then its control dependences.
pub open spec fn pdg_edges_of(n: nat, edges: Seq<(usize, usize, BlockEdge)>, entry: int, exit: int) -> Seq<
    (usize, usize, PdgEdge),
> {
    edges.map_values(|e: (usize, usize, BlockEdge)| (e.0, e.1, PdgEdge::Cfg(e.2))) + control_deps_of(
        n,
        edges,
        entry,
        exit,
    ).map_values(|p: (usize, usize)| (p.0, p.1, PdgEdge::Control))
}

/// A control flow graph with an entry and an exit block.
pub open spec fn has_entry_exit(g: CfgGraph) -> bool {
    &&& first_block_of(cfg_blocks(g), BlockKind::Entry, cfg_blocks(g).len() as int) is Some
    &&& first_block_of(cfg_blocks(g), BlockKind::Exit, cfg_blocks(g).len() as int) is Some
}

/// The dependence graph of a control flow graph, which must have an entry
/// and an exit block: the same blocks; the control flow edges; the control
/// dependences from the first entry to the first exit; the data
/// dependences (none).
pub fn build_pdg(cfg: &CfgGraph) -> (r: Result<PdgGraph, String>)
    requires
        has_entry_exit(*cfg),
    ensures
        r matches Ok(p) && pdg_blocks(p) == cfg_blocks(*cfg) && pdg_edges(p) == pdg_edges_of(
            cfg_blocks(*cfg).len(),
            cfg_edges(*cfg),
            first_block_of(cfg_blocks(*cfg), BlockKind::Entry, cfg_blocks(*cfg).len() as int)->0,
            first_block_of(cfg_blocks(*cfg), BlockKind::Exit, cfg_blocks(*cfg).len() as int)->0,
        ),
{
    let ghost blocks = cfg_blocks(*cfg);
    let ghost edges = cfg_edges(*cfg);
    let entry = match first_block(cfg, BlockKind::Entry) {
        Some(e) => e,
        None => {
            proof {
                assert(false);
            }
            0
        },
    };
    let exit = match first_block(cfg, BlockKind::Exit) {
        Some(x) => x,
        None => {
            proof {
                assert(false);
            }
            0
        },
    };
    proof {
        crate::cli::hammock_report::lemma_first_block_bound(blocks, BlockKind::Entry, blocks.len() as int);
        crate::cli::hammock_report::lemma_first_block_bound(blocks, BlockKind::Exit, blocks.len() as int);
    }
    let mut pdg = pdg_new();
    let n = cfg_node_count(cfg);
    let mut i: usize = 0;
    while i < n
        invariant
            n == blocks.len(),
            blocks == cfg_blocks(*cfg),
            i <= n,
            pdg_blocks(pdg) == blocks.take(i as int),
            pdg_edges(pdg) == Seq::<(usize, usize, PdgEdge)>::empty(),
        decreases n - i,
    {
        let b = cfg_block_at(cfg, i);
        pdg_add_node(&mut pdg, b);
        assert(blocks.take(i + 1) =~= blocks.take(i as int).push(b));
        i = i + 1;
    }
    assert(blocks.take(n as int) =~= blocks);
    let ghost cfg_part = edges.map_values(|e: (usize, usize, BlockEdge)| (e.0, e.1, PdgEdge::Cfg(e.2)));
    let m = cfg_edge_count(cfg);
    let mut k: usize = 0;
    while k < m
        invariant
            n == blocks.len(),
            blocks == cfg_blocks(*cfg),
            edges == cfg_edges(*cfg),
            m == edges.len(),
            k <= m,
            pdg_blocks(pdg) == blocks,
            cfg_part == edges.map_values(|e: (usize, usize, BlockEdge)| (e.0, e.1, PdgEdge::Cfg(e.2))),
            pdg_edges(pdg) == cfg_part.take(k as int),
            forall|q: int| 0 <= q < k ==> (#[trigger] edge_pairs(edges)[q]).0 < n && edge_pairs(edges)[q].1 < n,
        decreases m - k,
    {
        let (a, b, w) = cfg_edge_at(cfg, k);
        assert(edge_pairs(edges)[k as int] == (a, b));
        pdg_add_edge(&mut pdg, a, b, PdgEdge::Cfg(w));
        assert(cfg_part.take(k + 1) =~= cfg_part.take(k as int).push((a, b, PdgEdge::Cfg(w))));
        k = k + 1;
    }
    assert(cfg_part.take(m as int) =~= cfg_part);
    assert(crate::hammock::dominators::pairs_in(edge_pairs(edges), n as nat));
    let cdeps = compute_control_deps(cfg, entry, exit);
    let ghost cd = control_deps_of(n as nat, edges, entry as int, exit as int);
    proof {
        assert(pairs_sorted(cdeps@) && forall|p: (usize, usize)| #[trigger] cdeps@.contains(p) <==> (p.0 < n && control_dep(
            edge_pairs(edges),
            pdoms_of(n as nat, edges, exit as int),
            entry as int,
            exit as int,
            p.0 as int,
            p.1 as int,
        )));
        lemma_sorted_pairs_unique(cdeps@, cd);
        assert forall|p: (usize, usize)| #[trigger] cdeps@.contains(p) implies p.0 < n && p.1 < n by {
            crate::pdg::control_deps::lemma_control_dep_in(
                n as nat,
                edges,
                entry as int,
                exit as int,
                p.0 as int,
                p.1 as int,
            );
        }
    }
    let ghost cpart = cd.map_values(|p: (usize, usize)| (p.0, p.1, PdgEdge::Control));
    let mut j: usize = 0;
    while j < cdeps.len()
        invariant
            n == blocks.len(),
            pdg_blocks(pdg) == blocks,
            cdeps@ == cd,
            cpart == cd.map_values(|p: (usize, usize)| (p.0, p.1, PdgEdge::Control)),
            forall|p: (usize, usize)| #[trigger] cdeps@.contains(p) ==> p.0 < n && p.1 < n,
            j <= cdeps@.len(),
            pdg_edges(pdg) == cfg_part + cpart.take(j as int),
        decreases cdeps.len() - j,
    {
        let (a, b) = cdeps[j];
        assert(cdeps@.contains(cdeps@[j as int]));
        pdg_add_edge(&mut pdg, a, b, PdgEdge::Control);
        assert(cpart.take(j + 1) =~= cpart.take(j as int).push((a, b, PdgEdge::Control)));
        assert(cfg_part + cpart.take(j + 1) =~= (cfg_part + cpart.take(j as int)).push((a, b, PdgEdge::Control)));
        j = j + 1;
    }
    assert(cpart.take(cdeps@.len() as int) =~= cpart);
    let ddeps = compute_data_deps(cfg);
    assert(ddeps@.len() == 0);
    Ok(pdg)
}

} // verus!
