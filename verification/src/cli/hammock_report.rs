//! The report of the `hammock` command: the hammock regions between the
//! first entry and the first exit block of a control flow graph.

use vstd::prelude::*;
use crate::text::{decimal, decimal_string, string_views};
use crate::cfg::blocks::{BasicBlock, BlockKind, CfgGraph, cfg_blocks, cfg_edges, cfg_node_count, cfg_block_at};
use crate::cfg::dot::kind_name;
use crate::hammock::builder::{Hammock, HammockView, find_hammocks, hammocks_of, hammock_views};

verus! {

/// The first block of kind `k` among the first `i` blocks.
pub open spec fn first_block_of(blocks: Seq<BasicBlock>, k: BlockKind, i: int) -> Option<int>
    decreases i,
{
    if i <= 0 {
        None
    } else {
        match first_block_of(blocks, k, i - 1) {
            Some(p) => Some(p),
            None => if blocks[i - 1].kind == k {
                Some(i - 1)
            } else {
                None
            },
        }
    }
}

/// The line of the `i`-th hammock (counted from 1).
pub open spec fn hammock_line(blocks: Seq<BasicBlock>, i: int, h: HammockView) -> Seq<char> {
    "  Hammock "@ + decimal((i + 1) as nat) + ": header=["@ + decimal(blocks[h.header as int].id as nat) + "] "@
        + kind_name(blocks[h.header as int].kind) + " body="@ + decimal(h.body.len()) + " nodes footer=["@
        + decimal(blocks[h.footer as int].id as nat) + "] "@ + kind_name(blocks[h.footer as int].kind)
}

/// The report for hammocks `hs` of a graph with these blocks.
pub open spec fn hammock_list_lines(blocks: Seq<BasicBlock>, hs: Seq<HammockView>) -> Seq<Seq<char>> {
    if hs.len() == 0 {
        seq!["No hammock regions found."@]
    } else {
        seq!["Found "@ + decimal(hs.len()) + " hammock region(s):"@] + Seq::new(
            hs.len(),
            |i: int| hammock_line(blocks, i, hs[i]),
        )
    }
}

/// The report of the `hammock` command for a graph.
pub open spec fn hammock_lines(blocks: Seq<BasicBlock>, edges: Seq<(usize, usize, crate::cfg::blocks::BlockEdge)>) -> Seq<
    Seq<char>,
> {
    match (first_block_of(blocks, BlockKind::Entry, blocks.len() as int), first_block_of(
        blocks,
        BlockKind::Exit,
        blocks.len() as int,
    )) {
        (Some(e), Some(x)) => hammock_list_lines(blocks, hammocks_of(blocks.len(), edges, e, x)),
        _ => seq!["Could not find entry/exit nodes in CFG."@],
    }
}

pub proof fn lemma_first_block_bound(blocks: Seq<BasicBlock>, k: BlockKind, i: int)
    ensures
        first_block_of(blocks, k, i) matches Some(p) ==> 0 <= p < i,
    decreases i,
{
    if i > 0 {
        lemma_first_block_bound(blocks, k, i - 1);
    }
}

/// The first block of kind `k`.
pub fn first_block(g: &CfgGraph, k: BlockKind) -> (r: Option<usize>)
    ensures
        match r {
            Some(p) => first_block_of(cfg_blocks(*g), k, cfg_blocks(*g).len() as int) == Some(p as int),
            None => first_block_of(cfg_blocks(*g), k, cfg_blocks(*g).len() as int) is None,
        },
{
    let n = cfg_node_count(g);
    let ghost blocks = cfg_blocks(*g);
    let mut i: usize = 0;
    while i < n
        invariant
            n == blocks.len(),
            blocks == cfg_blocks(*g),
            i <= n,
            first_block_of(blocks, k, i as int) is None,
        decreases n - i,
    {
        let b = cfg_block_at(g, i);
        if b.kind == k {
            assert(first_block_of(blocks, k, i + 1) == Some(i as int));
            proof {
                lemma_first_found(blocks, k, i as int + 1, n as int);
            }
            return Some(i);
        }
        i = i + 1;
    }
    None
}

proof fn lemma_first_found(blocks: Seq<BasicBlock>, k: BlockKind, i: int, m: int)
    requires
        0 <= i <= m,
        first_block_of(blocks, k, i) is Some,
    ensures
        first_block_of(blocks, k, m) == first_block_of(blocks, k, i),
    decreases m - i,
{
    if m > i {
        lemma_first_found(blocks, k, i, m - 1);
    }
}

fn hammock_line_exec(g: &CfgGraph, i: usize, h: &Hammock) -> (r: String)
    requires
        h.header < cfg_blocks(*g).len(),
        h.footer < cfg_blocks(*g).len(),
        i < usize::MAX,
    ensures
        r@ == hammock_line(cfg_blocks(*g), i as int, h@),
{
    let hb = cfg_block_at(g, h.header);
    let fb = cfg_block_at(g, h.footer);
    let mut l = String::from_str("  Hammock ");
    let num = decimal_string(i + 1);
    l.append(num.as_str());
    l.append(": header=[");
    let hid = decimal_string(hb.id);
    l.append(hid.as_str());
    l.append("] ");
    l.append(hb.kind.name());
    l.append(" body=");
    let bl = decimal_string(h.body.len());
    l.append(bl.as_str());
    l.append(" nodes footer=[");
    let fid = decimal_string(fb.id);
    l.append(fid.as_str());
    l.append("] ");
    l.append(fb.kind.name());
    assert(l@ =~= hammock_line(cfg_blocks(*g), i as int, h@));
    l
}

/// The report of the `hammock` command for a control flow graph.
pub fn hammock_report(g: &CfgGraph) -> (r: Vec<String>)
    ensures
        string_views(r@) == hammock_lines(cfg_blocks(*g), cfg_edges(*g)),
{
    let ghost blocks = cfg_blocks(*g);
    let n = cfg_node_count(g);
    let mut lines: Vec<String> = Vec::new();
    let entry = first_block(g, BlockKind::Entry);
    let exit = first_block(g, BlockKind::Exit);
    match (entry, exit) {
        (Some(e), Some(x)) => {
            proof {
                lemma_first_block_bound(blocks, BlockKind::Entry, blocks.len() as int);
                lemma_first_block_bound(blocks, BlockKind::Exit, blocks.len() as int);
            }
            let hs = find_hammocks(g, e, x);
            let ghost hv = hammock_views(hs@);
            if hs.len() == 0 {
                lines.push(String::from_str("No hammock regions found."));
                assert(string_views(lines@) =~= hammock_lines(blocks, cfg_edges(*g)));
            } else {
                let mut first = String::from_str("Found ");
                let c = decimal_string(hs.len());
                first.append(c.as_str());
                first.append(" hammock region(s):");
                lines.push(first);
                let ghost hl = Seq::new(hv.len(), |i: int| hammock_line(blocks, i, hv[i]));
                let mut i: usize = 0;
                while i < hs.len()
                    invariant
                        blocks == cfg_blocks(*g),
                        hv == hammock_views(hs@),
                        hv == hammocks_of(blocks.len(), cfg_edges(*g), e as int, x as int),
                        e < blocks.len(),
                        x < blocks.len(),
                        n == blocks.len(),
                        i <= hs@.len(),
                        hl.len() == hv.len(),
                        forall|j: int| 0 <= j < hl.len() ==> #[trigger] hl[j] == hammock_line(blocks, j, hv[j]),
                        string_views(lines@) == seq!["Found "@ + decimal(hv.len()) + " hammock region(s):"@]
                            + hl.take(i as int),
                    decreases hs.len() - i,
                {
                    assert(hv[i as int] == hs@[i as int]@);
                    proof {
                        crate::hammock::builder::lemma_hammock_nodes(blocks.len(), cfg_edges(*g), e as int, x as int, i as int);
                    }
                    let l = hammock_line_exec(g, i, &hs[i]);
                    let ghost before = string_views(lines@);
                    lines.push(l);
                    assert(string_views(lines@) =~= before.push(hl[i as int]));
                    assert(hl.take(i + 1) =~= hl.take(i as int).push(hl[i as int]));
                    i = i + 1;
                }
                assert(hl.take(hv.len() as int) =~= hl);
                assert(string_views(lines@) =~= hammock_lines(blocks, cfg_edges(*g)));
            }
        },
        _ => {
            lines.push(String::from_str("Could not find entry/exit nodes in CFG."));
            assert(string_views(lines@) =~= hammock_lines(blocks, cfg_edges(*g)));
        },
    }
    lines
}

} // verus!
