//! What the control flow graph of a syntax tree is: the blocks and edges
//! that building it adds, statement by statement.

use vstd::prelude::*;
use crate::parse::syntax::{SyntaxTree, field_child};
use crate::cfg::blocks::{BasicBlock, BlockKind, BlockEdge, CfgGraph, cfg_blocks, cfg_edges};

verus! {

/// A graph under construction: its blocks and edges.
pub struct CfgView {
    pub blocks: Seq<BasicBlock>,
    pub edges: Seq<(usize, usize, BlockEdge)>,
}

/// The blocks and edges of a graph.
pub open spec fn view_of(g: CfgGraph) -> CfgView {
    CfgView { blocks: cfg_blocks(g), edges: cfg_edges(g) }
}

/// The block numbered `id` for node `i` (its rows made 1-based).
pub open spec fn block_for(t: SyntaxTree, i: int, id: usize, kind: BlockKind) -> BasicBlock {
    BasicBlock {
        id,
        start_line: (t.nodes@[i].start_row + 1) as usize,
        end_line: (t.nodes@[i].end_row + 1) as usize,
        kind,
    }
}

/// `s` with a block of kind `kind` for node `i` added.
pub open spec fn with_block(s: CfgView, t: SyntaxTree, i: int, kind: BlockKind) -> CfgView {
    CfgView { blocks: s.blocks.push(block_for(t, i, s.blocks.len() as usize, kind)), edges: s.edges }
}

/// `s` with an edge from `a` to `b` added.
pub open spec fn with_edge(s: CfgView, a: usize, b: usize, w: BlockEdge) -> CfgView {
    CfgView { blocks: s.blocks, edges: s.edges.push((a, b, w)) }
}

/// The number the next block gets.
pub open spec fn next_id(s: CfgView) -> usize {
    s.blocks.len() as usize
}

/// Statements that make a single block.
pub open spec fn is_simple_stmt(k: Seq<char>) -> bool {
    k == "expression_statement"@ || k == "local_declaration_statement"@ || k == "fixed_statement"@ || k
        == "checked_statement"@ || k == "unchecked_statement"@ || k == "unsafe_statement"@ || k == "using_statement"@
        || k == "lock_statement"@ || k == "return_statement"@ || k == "throw_statement"@ || k == "break_statement"@
        || k == "continue_statement"@
}

/// Punctuation a block's statements are read past.
pub open spec fn is_punctuation(k: Seq<char>) -> bool {
    k == "{"@ || k == "}"@ || k == ";"@ || k == "("@ || k == ")"@
}

/// A statement after which control does not go on.
pub open spec fn ends_flow(k: Seq<char>) -> bool {
    k == "return_statement"@ || k == "throw_statement"@
}

/// The blocks and edges of statement `i` added to `s`, with its first and
/// last block when it has any.
pub open spec fn stmt_cfg(t: SyntaxTree, i: int, s: CfgView) -> (CfgView, Option<(usize, usize)>)
    decreases i, 5nat, 0nat,
    when 0 <= i
{
    let k = t.kind_of(i);
    if is_simple_stmt(k) {
        (with_block(s, t, i, BlockKind::Statement), Some((next_id(s), next_id(s))))
    } else if k == "block"@ {
        block_cfg(t, i, s)
    } else if k == "if_statement"@ {
        if_cfg(t, i, s)
    } else if k == "while_statement"@ {
        while_cfg(t, i, s)
    } else if k == "do_statement"@ {
        do_cfg(t, i, s)
    } else if k == "for_statement"@ {
        for_cfg(t, i, s)
    } else if k == "for_each_statement"@ {
        foreach_cfg(t, i, s)
    } else if k == "switch_statement"@ {
        switch_cfg(t, i, s)
    } else if k == "try_statement"@ {
        try_cfg(t, i, s)
    } else if k == "yield_statement"@ {
        (with_block(s, t, i, BlockKind::Resume), Some((next_id(s), next_id(s))))
    } else {
        (with_block(s, t, i, BlockKind::Unknown), Some((next_id(s), next_id(s))))
    }
}

/// A block node read as a block, any other as a statement.
pub open spec fn nested_cfg(t: SyntaxTree, c: int, s: CfgView) -> (CfgView, Option<(usize, usize)>)
    decreases c, 6nat, 0nat,
    when 0 <= c
{
    if t.kind_of(c) == "block"@ {
        block_cfg(t, c, s)
    } else {
        stmt_cfg(t, c, s)
    }
}

/// The statements of block node `i`, chained one after the other.
pub open spec fn block_cfg(t: SyntaxTree, i: int, s: CfgView) -> (CfgView, Option<(usize, usize)>)
    decreases i, 4nat, 0nat,
    when 0 <= i
{
    block_items(t, t.children_of(i), i, s, None, None)
}

/// The statements among the nodes `cs` (children of `bound`) chained after
/// those already chained, from `first` to `last`.
pub open spec fn block_items(
    t: SyntaxTree,
    cs: Seq<usize>,
    bound: int,
    s: CfgView,
    first: Option<usize>,
    last: Option<usize>,
) -> (CfgView, Option<(usize, usize)>)
    decreases bound, 0nat, cs.len(),
    when 0 <= bound
{
    if cs.len() == 0 {
        (
            s,
            match first {
                Some(f) => Some((f, last.unwrap())),
                None => None,
            },
        )
    } else {
        let c = cs[0] as int;
        if c < bound && t.nodes@[c].named && !is_punctuation(t.kind_of(c)) {
            let r = stmt_cfg(t, c, s);
            match r.1 {
                Some(fl) => match last {
                    Some(p) => block_items(t, cs.drop_first(), bound, with_edge(r.0, p, fl.0, BlockEdge::Sequence), first, Some(fl.1)),
                    None => block_items(t, cs.drop_first(), bound, r.0, Some(fl.0), Some(fl.1)),
                },
                None => block_items(t, cs.drop_first(), bound, r.0, first, last),
            }
        } else {
            block_items(t, cs.drop_first(), bound, s, first, last)
        }
    }
}

/// The branch in field `field` of node `i` from block `cond`, joining at
/// `merge` unless it returns or throws; a direct edge when it is absent or
/// empty.
pub open spec fn branch_cfg(
    t: SyntaxTree,
    i: int,
    field: Seq<char>,
    s: CfgView,
    cond: usize,
    merge: usize,
    w: BlockEdge,
) -> CfgView
    decreases i, 3nat, 0nat,
    when 0 <= i
{
    match field_child(t, i, field) {
        Some(c) => if (c as int) < i {
            let r = nested_cfg(t, c as int, s);
            match r.1 {
                Some(fl) => {
                    let s2 = with_edge(r.0, cond, fl.0, w);
                    if ends_flow(t.kind_of(c as int)) {
                        s2
                    } else {
                        with_edge(s2, fl.1, merge, BlockEdge::Sequence)
                    }
                },
                None => with_edge(r.0, cond, merge, w),
            }
        } else {
            with_edge(s, cond, merge, w)
        },
        None => with_edge(s, cond, merge, w),
    }
}

/// An `if`: a condition block, the two branches, a merge block.
pub open spec fn if_cfg(t: SyntaxTree, i: int, s: CfgView) -> (CfgView, Option<(usize, usize)>)
    decreases i, 4nat, 0nat,
    when 0 <= i
{
    let cond = next_id(s);
    let s1 = with_block(s, t, i, BlockKind::Condition);
    let merge = next_id(s1);
    let s2 = with_block(s1, t, i, BlockKind::Statement);
    let s3 = branch_cfg(t, i, "consequence"@, s2, cond, merge, BlockEdge::CondTrue);
    let s4 = branch_cfg(t, i, "alternative"@, s3, cond, merge, BlockEdge::CondFalse);
    (s4, Some((cond, merge)))
}

/// A `while`: a header, the body looping back to it, an exit.
pub open spec fn while_cfg(t: SyntaxTree, i: int, s: CfgView) -> (CfgView, Option<(usize, usize)>)
    decreases i, 4nat, 0nat,
    when 0 <= i
{
    let header = next_id(s);
    let s1 = with_block(s, t, i, BlockKind::LoopHeader);
    let exit = next_id(s1);
    let s2 = with_block(s1, t, i, BlockKind::LoopExit);
    let s3 = match field_child(t, i, "body"@) {
        Some(b) => if (b as int) < i {
            let r = nested_cfg(t, b as int, s2);
            match r.1 {
                Some(fl) => with_edge(with_edge(r.0, header, fl.0, BlockEdge::CondTrue), fl.1, header, BlockEdge::LoopBack),
                None => with_edge(r.0, header, exit, BlockEdge::CondTrue),
            }
        } else {
            s2
        },
        None => s2,
    };
    (with_edge(s3, header, exit, BlockEdge::CondFalse), Some((header, exit)))
}

/// A `do`: a header, the body, which loops back to the header or leaves to
/// the exit.
pub open spec fn do_cfg(t: SyntaxTree, i: int, s: CfgView) -> (CfgView, Option<(usize, usize)>)
    decreases i, 4nat, 0nat,
    when 0 <= i
{
    let header = next_id(s);
    let s1 = with_block(s, t, i, BlockKind::LoopHeader);
    let exit = next_id(s1);
    let s2 = with_block(s1, t, i, BlockKind::LoopExit);
    let s3 = match field_child(t, i, "body"@) {
        Some(b) => if (b as int) < i {
            let r = nested_cfg(t, b as int, s2);
            match r.1 {
                Some(fl) => with_edge(
                    with_edge(with_edge(r.0, header, fl.0, BlockEdge::Sequence), fl.1, exit, BlockEdge::CondFalse),
                    fl.1,
                    header,
                    BlockEdge::LoopBack,
                ),
                None => with_edge(r.0, header, exit, BlockEdge::Sequence),
            }
        } else {
            with_edge(s2, header, exit, BlockEdge::Sequence)
        },
        None => with_edge(s2, header, exit, BlockEdge::Sequence),
    };
    (s3, Some((header, exit)))
}

/// A `for`: the initializer leading to a header, the body, the increment
/// looping back to the header, an exit.
pub open spec fn for_cfg(t: SyntaxTree, i: int, s: CfgView) -> (CfgView, Option<(usize, usize)>)
    decreases i, 4nat, 0nat,
    when 0 <= i
{
    let header = next_id(s);
    let s1 = with_block(s, t, i, BlockKind::LoopHeader);
    let exit = next_id(s1);
    let s2 = with_block(s1, t, i, BlockKind::LoopExit);
    let s3 = match field_child(t, i, "initializer"@) {
        Some(init) => with_edge(with_block(s2, t, init as int, BlockKind::Statement), next_id(s2), header, BlockEdge::Sequence),
        None => s2,
    };
    let s4 = match field_child(t, i, "body"@) {
        Some(b) => if (b as int) < i {
            let r = nested_cfg(t, b as int, s3);
            match r.1 {
                Some(fl) => {
                    let s5 = with_edge(r.0, header, fl.0, BlockEdge::CondTrue);
                    match field_child(t, i, "increment"@) {
                        Some(inc) => {
                            let n = next_id(s5);
                            with_edge(
                                with_edge(with_block(s5, t, inc as int, BlockKind::Statement), fl.1, n, BlockEdge::Sequence),
                                n,
                                header,
                                BlockEdge::LoopBack,
                            )
                        },
                        None => with_edge(s5, fl.1, header, BlockEdge::LoopBack),
                    }
                },
                None => r.0,
            }
        } else {
            s3
        },
        None => s3,
    };
    (with_edge(s4, header, exit, BlockEdge::CondFalse), Some((header, exit)))
}

/// A `foreach`: a header, the body looping back to it, an exit.
pub open spec fn foreach_cfg(t: SyntaxTree, i: int, s: CfgView) -> (CfgView, Option<(usize, usize)>)
    decreases i, 4nat, 0nat,
    when 0 <= i
{
    let header = next_id(s);
    let s1 = with_block(s, t, i, BlockKind::LoopHeader);
    let exit = next_id(s1);
    let s2 = with_block(s1, t, i, BlockKind::LoopExit);
    let s3 = match field_child(t, i, "body"@) {
        Some(b) => if (b as int) < i {
            let r = nested_cfg(t, b as int, s2);
            match r.1 {
                Some(fl) => with_edge(with_edge(r.0, header, fl.0, BlockEdge::CondTrue), fl.1, header, BlockEdge::LoopBack),
                None => r.0,
            }
        } else {
            s2
        },
        None => s2,
    };
    (with_edge(s3, header, exit, BlockEdge::CondFalse), Some((header, exit)))
}

/// A `switch`: a header branching to each section, the sections joining
/// at a merge block.
pub open spec fn switch_cfg(t: SyntaxTree, i: int, s: CfgView) -> (CfgView, Option<(usize, usize)>)
    decreases i, 4nat, 0nat,
    when 0 <= i
{
    let header = next_id(s);
    let s1 = with_block(s, t, i, BlockKind::Condition);
    let merge = next_id(s1);
    let s2 = with_block(s1, t, i, BlockKind::Statement);
    let s3 = match field_child(t, i, "body"@) {
        Some(b) => if (b as int) < i {
            switch_sections(t, t.children_of(b as int), b as int, s2, header, merge)
        } else {
            s2
        },
        None => s2,
    };
    (with_edge(s3, header, merge, BlockEdge::CondFalse), Some((header, merge)))
}

/// The switch sections among the nodes `cs` (children of `bound`).
pub open spec fn switch_sections(
    t: SyntaxTree,
    cs: Seq<usize>,
    bound: int,
    s: CfgView,
    header: usize,
    merge: usize,
) -> CfgView
    decreases bound, 1nat, cs.len(),
    when 0 <= bound
{
    if cs.len() == 0 {
        s
    } else {
        let c = cs[0] as int;
        let s1 = if c < bound && t.nodes@[c].named && t.kind_of(c) == "switch_section"@ {
            section_items(t, t.children_of(c), c, s, header, merge, false)
        } else {
            s
        };
        switch_sections(t, cs.drop_first(), bound, s1, header, merge)
    }
}

/// The statements among the nodes `cs` of a switch section (children of
/// `bound`): each reached from the header and joining at the merge block;
/// a direct edge when the section has none.
pub open spec fn section_items(
    t: SyntaxTree,
    cs: Seq<usize>,
    bound: int,
    s: CfgView,
    header: usize,
    merge: usize,
    has_body: bool,
) -> CfgView
    decreases bound, 0nat, cs.len(),
    when 0 <= bound
{
    if cs.len() == 0 {
        if has_body {
            s
        } else {
            with_edge(s, header, merge, BlockEdge::CondTrue)
        }
    } else {
        let c = cs[0] as int;
        if c < bound && t.nodes@[c].named {
            if t.kind_of(c) == "break_statement"@ || t.kind_of(c) == "continue_statement"@ {
                let n = next_id(s);
                section_items(
                    t,
                    cs.drop_first(),
                    bound,
                    with_edge(with_block(s, t, c, BlockKind::Statement), header, n, BlockEdge::CondTrue),
                    header,
                    merge,
                    true,
                )
            } else {
                let r = nested_cfg(t, c, s);
                match r.1 {
                    Some(fl) => section_items(
                        t,
                        cs.drop_first(),
                        bound,
                        with_edge(with_edge(r.0, header, fl.0, BlockEdge::CondTrue), fl.1, merge, BlockEdge::Sequence),
                        header,
                        merge,
                        true,
                    ),
                    None => section_items(t, cs.drop_first(), bound, r.0, header, merge, has_body),
                }
            }
        } else {
            section_items(t, cs.drop_first(), bound, s, header, merge, has_body)
        }
    }
}

/// The first named node of kind `kind` among `cs`.
pub open spec fn first_named_of_kind(t: SyntaxTree, cs: Seq<usize>, kind: Seq<char>) -> Option<usize>
    decreases cs.len(),
{
    if cs.len() == 0 {
        None
    } else if t.nodes@[cs[0] as int].named && t.kind_of(cs[0] as int) == kind {
        Some(cs[0])
    } else {
        first_named_of_kind(t, cs.drop_first(), kind)
    }
}

/// The first named node among `cs`.
pub open spec fn first_named(t: SyntaxTree, cs: Seq<usize>) -> Option<usize>
    decreases cs.len(),
{
    if cs.len() == 0 {
        None
    } else if t.nodes@[cs[0] as int].named {
        Some(cs[0])
    } else {
        first_named(t, cs.drop_first())
    }
}

/// The catch clauses among the nodes `cs` (children of `bound`): the
/// blocks of their bodies, the first and last block of each non-empty one
/// added to `acc`.
pub open spec fn try_catches(t: SyntaxTree, cs: Seq<usize>, bound: int, s: CfgView, acc: Seq<(usize, usize)>) -> (
    CfgView,
    Seq<(usize, usize)>,
)
    decreases bound, 0nat, cs.len(),
    when 0 <= bound
{
    if cs.len() == 0 {
        (s, acc)
    } else {
        let c = cs[0] as int;
        if c < bound && t.nodes@[c].named && t.kind_of(c) == "catch_clause"@ {
            match field_child(t, c, "body"@) {
                Some(cb) => if (cb as int) < c {
                    let r = block_cfg(t, cb as int, s);
                    try_catches(
                        t,
                        cs.drop_first(),
                        bound,
                        r.0,
                        match r.1 {
                            Some(x) => acc.push(x),
                            None => acc,
                        },
                    )
                } else {
                    try_catches(t, cs.drop_first(), bound, s, acc)
                },
                None => try_catches(t, cs.drop_first(), bound, s, acc),
            }
        } else {
            try_catches(t, cs.drop_first(), bound, s, acc)
        }
    }
}

/// The edges from the end of a try body `bl` to each catch `cs`, and from
/// each catch to the finally block `fr` when there is one.
pub open spec fn catch_edges(s: CfgView, bl: usize, cs: Seq<(usize, usize)>, fr: Option<(usize, usize)>) -> CfgView
    decreases cs.len(),
{
    if cs.len() == 0 {
        s
    } else {
        let s1 = with_edge(s, bl, cs[0].0, BlockEdge::Throw);
        let s2 = match fr {
            Some(f) => with_edge(s1, cs[0].1, f.0, BlockEdge::Finally),
            None => s1,
        };
        catch_edges(s2, bl, cs.drop_first(), fr)
    }
}

/// The finally clause of try node `i`: the blocks of its block.
pub open spec fn finally_cfg(t: SyntaxTree, i: int, s: CfgView) -> (CfgView, Option<(usize, usize)>)
    decreases i, 3nat, 0nat,
    when 0 <= i
{
    match first_named_of_kind(t, t.children_of(i), "finally_clause"@) {
        Some(f) => match first_named(t, t.children_of(f as int)) {
            Some(fb) => if (fb as int) < i {
                block_cfg(t, fb as int, s)
            } else {
                (s, None)
            },
            None => (s, None),
        },
        None => (s, None),
    }
}

/// A `try`: the body, the catch clauses it may throw to, the finally
/// block everything ends in; nothing when the body is empty.
pub open spec fn try_cfg(t: SyntaxTree, i: int, s: CfgView) -> (CfgView, Option<(usize, usize)>)
    decreases i, 4nat, 0nat,
    when 0 <= i
{
    match field_child(t, i, "body"@) {
        Some(body) => if (body as int) < i {
            let b = block_cfg(t, body as int, s);
            let c = try_catches(t, t.children_of(i), i, b.0, Seq::empty());
            let f = finally_cfg(t, i, c.0);
            match b.1 {
                Some(bfl) => {
                    let last = match f.1 {
                        Some(ffl) => ffl.1,
                        None => if c.1.len() > 0 {
                            c.1.last().1
                        } else {
                            bfl.1
                        },
                    };
                    let s1 = catch_edges(f.0, bfl.1, c.1, f.1);
                    let s2 = match f.1 {
                        Some(ffl) => with_edge(s1, bfl.1, ffl.0, BlockEdge::Sequence),
                        None => s1,
                    };
                    (s2, Some((bfl.0, last)))
                },
                None => (f.0, None),
            }
        } else {
            (s, None)
        },
        None => (s, None),
    }
}

/// The graph of method node `m` added to `s`: an entry and an exit block,
/// its body between them; nothing when it has no block body.
pub open spec fn method_cfg(t: SyntaxTree, m: int, s: CfgView) -> CfgView {
    match field_child(t, m, "body"@) {
        Some(b) => if t.kind_of(b as int) == "block"@ && (b as int) < m {
            let entry = next_id(s);
            let s1 = with_block(s, t, m, BlockKind::Entry);
            let exit = next_id(s1);
            let s2 = with_block(s1, t, m, BlockKind::Exit);
            let r = block_cfg(t, b as int, s2);
            match r.1 {
                Some(fl) => with_edge(with_edge(r.0, entry, fl.0, BlockEdge::Sequence), fl.1, exit, BlockEdge::Sequence),
                None => with_edge(r.0, entry, exit, BlockEdge::Sequence),
            }
        } else {
            s
        },
        None => s,
    }
}

/// The graphs of the methods `ms`, one after the other.
pub open spec fn methods_cfg(t: SyntaxTree, ms: Seq<usize>, s: CfgView) -> CfgView
    decreases ms.len(),
{
    if ms.len() == 0 {
        s
    } else {
        methods_cfg(t, ms.drop_first(), method_cfg(t, ms[0] as int, s))
    }
}

/// The number of blocks of kind `k` in `bs`.
pub open spec fn kind_count(bs: Seq<BasicBlock>, k: BlockKind) -> nat
    decreases bs.len(),
{
    if bs.len() == 0 {
        0
    } else {
        kind_count(bs.drop_last(), k) + if bs.last().kind == k {
            1nat
        } else {
            0nat
        }
    }
}

/// `a` and `b` have as many entry blocks, and as many exit blocks.
pub open spec fn same_ends(a: CfgView, b: CfgView) -> bool {
    kind_count(a.blocks, BlockKind::Entry) == kind_count(b.blocks, BlockKind::Entry) && kind_count(
        a.blocks,
        BlockKind::Exit,
    ) == kind_count(b.blocks, BlockKind::Exit)
}

/// Method node `m` has a block for its body (so it gets a graph).
pub open spec fn method_has_body(t: SyntaxTree, m: int) -> bool {
    match field_child(t, m, "body"@) {
        Some(b) => t.kind_of(b as int) == "block"@ && (b as int) < m,
        None => false,
    }
}

/// How many of the methods `ms` have a block for their body.
pub open spec fn bodied_count(t: SyntaxTree, ms: Seq<usize>) -> nat
    decreases ms.len(),
{
    if ms.len() == 0 {
        0
    } else {
        (if method_has_body(t, ms[0] as int) {
            1nat
        } else {
            0nat
        }) + bodied_count(t, ms.drop_first())
    }
}

/// Each block's id is its position (as a `usize`).
pub open spec fn ids_match(s: CfgView) -> bool {
    forall|k: int| 0 <= k < s.blocks.len() ==> (#[trigger] s.blocks[k]).id == k as usize
}

/// The graph's block numbers all fit in a `usize`.
pub open spec fn fits(s: CfgView) -> bool {
    s.blocks.len() <= usize::MAX
}

/// The kinds of the blocks that statements make: all but entry and exit.
pub open spec fn inner_kind(k: BlockKind) -> bool {
    k != BlockKind::Entry && k != BlockKind::Exit
}

/// `lo <= x < hi`.
pub open spec fn in_span(x: usize, lo: int, hi: int) -> bool {
    lo <= x && x < hi
}

/// A first and last block, when there are any, both in `lo..hi`.
pub open spec fn ends_in(r: Option<(usize, usize)>, lo: int, hi: int) -> bool {
    match r {
        Some(fl) => in_span(fl.0, lo, hi) && in_span(fl.1, lo, hi),
        None => true,
    }
}

/// Pairs of blocks all in `lo..hi`.
pub open spec fn pairs_in(ps: Seq<(usize, usize)>, lo: int, hi: int) -> bool {
    forall|x: int| 0 <= x < ps.len() ==> in_span((#[trigger] ps[x]).0, lo, hi) && in_span(ps[x].1, lo, hi)
}

/// `r` is `a` with blocks and edges added after its own: the new blocks are
/// neither entry nor exit blocks, and the new edges join blocks numbered
/// from `base` on.
pub open spec fn grows(a: CfgView, r: CfgView, base: int) -> bool {
    &&& a.blocks.len() <= r.blocks.len()
    &&& a.edges.len() <= r.edges.len()
    &&& forall|k: int| 0 <= k < a.blocks.len() ==> #[trigger] r.blocks[k] == a.blocks[k]
    &&& forall|j: int| 0 <= j < a.edges.len() ==> #[trigger] r.edges[j] == a.edges[j]
    &&& forall|k: int| a.blocks.len() <= k < r.blocks.len() ==> inner_kind((#[trigger] r.blocks[k]).kind)
    &&& forall|j: int|
        a.edges.len() <= j < r.edges.len() ==> in_span((#[trigger] r.edges[j]).0, base, r.blocks.len() as int)
            && in_span(r.edges[j].1, base, r.blocks.len() as int)
}

proof fn lemma_grows_refl(s: CfgView, base: int)
    ensures
        grows(s, s, base),
{
}

proof fn lemma_grows_block(s: CfgView, t: SyntaxTree, i: int, kind: BlockKind, base: int)
    requires
        inner_kind(kind),
    ensures
        grows(s, with_block(s, t, i, kind), base),
{
    let s2 = with_block(s, t, i, kind);
    assert forall|k: int| s.blocks.len() <= k < s2.blocks.len() implies inner_kind((#[trigger] s2.blocks[k]).kind) by {
        assert(k == s.blocks.len());
    }
}

proof fn lemma_grows_edge(s: CfgView, a: usize, b: usize, w: BlockEdge, base: int)
    requires
        in_span(a, base, s.blocks.len() as int),
        in_span(b, base, s.blocks.len() as int),
    ensures
        grows(s, with_edge(s, a, b, w), base),
{
    let s2 = with_edge(s, a, b, w);
    assert forall|j: int| s.edges.len() <= j < s2.edges.len() implies in_span(
        (#[trigger] s2.edges[j]).0,
        base,
        s2.blocks.len() as int,
    ) && in_span(s2.edges[j].1, base, s2.blocks.len() as int) by {
        assert(j == s.edges.len());
    }
}

proof fn lemma_grows_trans(a: CfgView, b: CfgView, c: CfgView, base: int)
    requires
        grows(a, b, base),
        grows(b, c, base),
    ensures
        grows(a, c, base),
{
    assert forall|k: int| 0 <= k < a.blocks.len() implies #[trigger] c.blocks[k] == a.blocks[k] by {
        assert(c.blocks[k] == b.blocks[k]);
    }
    assert forall|j: int| 0 <= j < a.edges.len() implies #[trigger] c.edges[j] == a.edges[j] by {
        assert(c.edges[j] == b.edges[j]);
    }
    assert forall|k: int| a.blocks.len() <= k < c.blocks.len() implies inner_kind((#[trigger] c.blocks[k]).kind) by {
        if k < b.blocks.len() {
            assert(c.blocks[k] == b.blocks[k]);
        }
    }
    assert forall|j: int| a.edges.len() <= j < c.edges.len() implies in_span(
        (#[trigger] c.edges[j]).0,
        base,
        c.blocks.len() as int,
    ) && in_span(c.edges[j].1, base, c.blocks.len() as int) by {
        if j < b.edges.len() {
            assert(c.edges[j] == b.edges[j]);
        }
    }
}

proof fn lemma_grows_widen(a: CfgView, b: CfgView, lo: int, base: int)
    requires
        grows(a, b, base),
        lo <= base,
    ensures
        grows(a, b, lo),
{
    assert forall|j: int| a.edges.len() <= j < b.edges.len() implies in_span(
        (#[trigger] b.edges[j]).0,
        lo,
        b.blocks.len() as int,
    ) && in_span(b.edges[j].1, lo, b.blocks.len() as int) by {
        assert(in_span(b.edges[j].0, base, b.blocks.len() as int));
    }
}

proof fn lemma_block_shape(s: CfgView, t: SyntaxTree, i: int, kind: BlockKind)
    requires
        ids_match(s),
    ensures
        ids_match(with_block(s, t, i, kind)),
        kind_count(with_block(s, t, i, kind).blocks, BlockKind::Entry) == kind_count(s.blocks, BlockKind::Entry) + (
        if kind == BlockKind::Entry {
            1nat
        } else {
            0nat
        }),
        kind_count(with_block(s, t, i, kind).blocks, BlockKind::Exit) == kind_count(s.blocks, BlockKind::Exit) + (
        if kind == BlockKind::Exit {
            1nat
        } else {
            0nat
        }),
{
    let s2 = with_block(s, t, i, kind);
    assert(s2.blocks.drop_last() =~= s.blocks);
    assert forall|k: int| 0 <= k < s2.blocks.len() implies (#[trigger] s2.blocks[k]).id == k as usize by {
        if k < s.blocks.len() {
            assert(s2.blocks[k] == s.blocks[k]);
        }
    }
}

proof fn lemma_stmt_shape(t: SyntaxTree, i: int, s: CfgView)
    requires
        0 <= i,
        ids_match(s),
    ensures
        ids_match(stmt_cfg(t, i, s).0),
        same_ends(s, stmt_cfg(t, i, s).0),
        s.blocks.len() <= stmt_cfg(t, i, s).0.blocks.len(),
        fits(stmt_cfg(t, i, s).0) ==> grows(s, stmt_cfg(t, i, s).0, s.blocks.len() as int) && ends_in(
            stmt_cfg(t, i, s).1,
            s.blocks.len() as int,
            stmt_cfg(t, i, s).0.blocks.len() as int,
        ),
    decreases i, 5nat, 0nat,
{
    let k = t.kind_of(i);
    let base = s.blocks.len() as int;
    if is_simple_stmt(k) {
        lemma_block_shape(s, t, i, BlockKind::Statement);
        lemma_grows_block(s, t, i, BlockKind::Statement, base);
    } else if k == "block"@ {
        lemma_blk_shape(t, i, s);
    } else if k == "if_statement"@ {
        lemma_if_shape(t, i, s);
    } else if k == "while_statement"@ {
        lemma_while_shape(t, i, s);
    } else if k == "do_statement"@ {
        lemma_do_shape(t, i, s);
    } else if k == "for_statement"@ {
        lemma_for_shape(t, i, s);
    } else if k == "for_each_statement"@ {
        lemma_foreach_shape(t, i, s);
    } else if k == "switch_statement"@ {
        lemma_switch_shape(t, i, s);
    } else if k == "try_statement"@ {
        lemma_try_shape(t, i, s);
    } else if k == "yield_statement"@ {
        lemma_block_shape(s, t, i, BlockKind::Resume);
        lemma_grows_block(s, t, i, BlockKind::Resume, base);
    } else {
        lemma_block_shape(s, t, i, BlockKind::Unknown);
        lemma_grows_block(s, t, i, BlockKind::Unknown, base);
    }
}

proof fn lemma_nested_shape(t: SyntaxTree, c: int, s: CfgView)
    requires
        0 <= c,
        ids_match(s),
    ensures
        ids_match(nested_cfg(t, c, s).0),
        same_ends(s, nested_cfg(t, c, s).0),
        s.blocks.len() <= nested_cfg(t, c, s).0.blocks.len(),
        fits(nested_cfg(t, c, s).0) ==> grows(s, nested_cfg(t, c, s).0, s.blocks.len() as int) && ends_in(
            nested_cfg(t, c, s).1,
            s.blocks.len() as int,
            nested_cfg(t, c, s).0.blocks.len() as int,
        ),
    decreases c, 6nat, 0nat,
{
    if t.kind_of(c) == "block"@ {
        lemma_blk_shape(t, c, s);
    } else {
        lemma_stmt_shape(t, c, s);
    }
}

proof fn lemma_blk_shape(t: SyntaxTree, i: int, s: CfgView)
    requires
        0 <= i,
        ids_match(s),
    ensures
        ids_match(block_cfg(t, i, s).0),
        same_ends(s, block_cfg(t, i, s).0),
        s.blocks.len() <= block_cfg(t, i, s).0.blocks.len(),
        fits(block_cfg(t, i, s).0) ==> grows(s, block_cfg(t, i, s).0, s.blocks.len() as int) && ends_in(
            block_cfg(t, i, s).1,
            s.blocks.len() as int,
            block_cfg(t, i, s).0.blocks.len() as int,
        ),
    decreases i, 4nat, 0nat,
{
    lemma_items_shape(t, t.children_of(i), i, s, None, None, s.blocks.len() as int);
}

proof fn lemma_items_shape(
    t: SyntaxTree,
    cs: Seq<usize>,
    bound: int,
    s: CfgView,
    first: Option<usize>,
    last: Option<usize>,
    base: int,
)
    requires
        0 <= bound,
        ids_match(s),
        base <= s.blocks.len(),
        first is Some <==> last is Some,
        fits(s) ==> ends_in(
            match first {
                Some(f) => Some((f, last.unwrap())),
                None => None,
            },
            base,
            s.blocks.len() as int,
        ),
    ensures
        ids_match(block_items(t, cs, bound, s, first, last).0),
        same_ends(s, block_items(t, cs, bound, s, first, last).0),
        s.blocks.len() <= block_items(t, cs, bound, s, first, last).0.blocks.len(),
        fits(block_items(t, cs, bound, s, first, last).0) ==> grows(
            s,
            block_items(t, cs, bound, s, first, last).0,
            base,
        ) && ends_in(
            block_items(t, cs, bound, s, first, last).1,
            base,
            block_items(t, cs, bound, s, first, last).0.blocks.len() as int,
        ),
    decreases bound, 0nat, cs.len(),
{
    if cs.len() > 0 {
        let c = cs[0] as int;
        if c < bound && t.nodes@[c].named && !is_punctuation(t.kind_of(c)) {
            lemma_stmt_shape(t, c, s);
            let r = stmt_cfg(t, c, s);
            match r.1 {
                Some(fl) => match last {
                    Some(p) => {
                        let s2 = with_edge(r.0, p, fl.0, BlockEdge::Sequence);
                        lemma_items_shape(t, cs.drop_first(), bound, s2, first, Some(fl.1), base);
                        let rr = block_items(t, cs.drop_first(), bound, s2, first, Some(fl.1));
                        if fits(rr.0) {
                            lemma_grows_widen(s, r.0, base, s.blocks.len() as int);
                            lemma_grows_edge(r.0, p, fl.0, BlockEdge::Sequence, base);
                            lemma_grows_trans(s, r.0, s2, base);
                            lemma_grows_trans(s, s2, rr.0, base);
                        }
                    },
                    None => {
                        lemma_items_shape(t, cs.drop_first(), bound, r.0, Some(fl.0), Some(fl.1), base);
                        let rr = block_items(t, cs.drop_first(), bound, r.0, Some(fl.0), Some(fl.1));
                        if fits(rr.0) {
                            lemma_grows_widen(s, r.0, base, s.blocks.len() as int);
                            lemma_grows_trans(s, r.0, rr.0, base);
                        }
                    },
                },
                None => {
                    lemma_items_shape(t, cs.drop_first(), bound, r.0, first, last, base);
                    let rr = block_items(t, cs.drop_first(), bound, r.0, first, last);
                    if fits(rr.0) {
                        lemma_grows_widen(s, r.0, base, s.blocks.len() as int);
                        lemma_grows_trans(s, r.0, rr.0, base);
                    }
                },
            }
        } else {
            lemma_items_shape(t, cs.drop_first(), bound, s, first, last, base);
        }
    } else {
        lemma_grows_refl(s, base);
    }
}

proof fn lemma_branch_shape(
    t: SyntaxTree,
    i: int,
    field: Seq<char>,
    s: CfgView,
    cond: usize,
    merge: usize,
    w: BlockEdge,
    base: int,
)
    requires
        0 <= i,
        ids_match(s),
        base <= s.blocks.len(),
        fits(s) ==> in_span(cond, base, s.blocks.len() as int) && in_span(merge, base, s.blocks.len() as int),
    ensures
        ids_match(branch_cfg(t, i, field, s, cond, merge, w)),
        same_ends(s, branch_cfg(t, i, field, s, cond, merge, w)),
        s.blocks.len() <= branch_cfg(t, i, field, s, cond, merge, w).blocks.len(),
        fits(branch_cfg(t, i, field, s, cond, merge, w)) ==> grows(s, branch_cfg(t, i, field, s, cond, merge, w), base),
    decreases i, 3nat, 0nat,
{
    match field_child(t, i, field) {
        Some(c) => if (c as int) < i {
            lemma_nested_shape(t, c as int, s);
            let r = nested_cfg(t, c as int, s);
            if fits(r.0) {
                lemma_grows_widen(s, r.0, base, s.blocks.len() as int);
                match r.1 {
                    Some(fl) => {
                        let s2 = with_edge(r.0, cond, fl.0, w);
                        lemma_grows_edge(r.0, cond, fl.0, w, base);
                        lemma_grows_trans(s, r.0, s2, base);
                        if !ends_flow(t.kind_of(c as int)) {
                            lemma_grows_edge(s2, fl.1, merge, BlockEdge::Sequence, base);
                            lemma_grows_trans(s, s2, with_edge(s2, fl.1, merge, BlockEdge::Sequence), base);
                        }
                    },
                    None => {
                        lemma_grows_edge(r.0, cond, merge, w, base);
                        lemma_grows_trans(s, r.0, with_edge(r.0, cond, merge, w), base);
                    },
                }
            }
        } else {
            if fits(s) {
                lemma_grows_edge(s, cond, merge, w, base);
            }
        },
        None => {
            if fits(s) {
                lemma_grows_edge(s, cond, merge, w, base);
            }
        },
    }
}

proof fn lemma_if_shape(t: SyntaxTree, i: int, s: CfgView)
    requires
        0 <= i,
        ids_match(s),
    ensures
        ids_match(if_cfg(t, i, s).0),
        same_ends(s, if_cfg(t, i, s).0),
        s.blocks.len() <= if_cfg(t, i, s).0.blocks.len(),
        fits(if_cfg(t, i, s).0) ==> grows(s, if_cfg(t, i, s).0, s.blocks.len() as int) && ends_in(
            if_cfg(t, i, s).1,
            s.blocks.len() as int,
            if_cfg(t, i, s).0.blocks.len() as int,
        ),
    decreases i, 4nat, 0nat,
{
    let base = s.blocks.len() as int;
    let cond = next_id(s);
    lemma_block_shape(s, t, i, BlockKind::Condition);
    let s1 = with_block(s, t, i, BlockKind::Condition);
    let merge = next_id(s1);
    lemma_block_shape(s1, t, i, BlockKind::Statement);
    let s2 = with_block(s1, t, i, BlockKind::Statement);
    lemma_branch_shape(t, i, "consequence"@, s2, cond, merge, BlockEdge::CondTrue, base);
    let s3 = branch_cfg(t, i, "consequence"@, s2, cond, merge, BlockEdge::CondTrue);
    lemma_branch_shape(t, i, "alternative"@, s3, cond, merge, BlockEdge::CondFalse, base);
    let s4 = branch_cfg(t, i, "alternative"@, s3, cond, merge, BlockEdge::CondFalse);
    if fits(s4) {
        lemma_grows_block(s, t, i, BlockKind::Condition, base);
        lemma_grows_block(s1, t, i, BlockKind::Statement, base);
        lemma_grows_trans(s, s1, s2, base);
        lemma_grows_trans(s, s2, s3, base);
        lemma_grows_trans(s, s3, s4, base);
    }
}

proof fn lemma_loop_start_shape(t: SyntaxTree, i: int, s: CfgView)
    requires
        ids_match(s),
    ensures
        ids_match(with_block(with_block(s, t, i, BlockKind::LoopHeader), t, i, BlockKind::LoopExit)),
        same_ends(s, with_block(with_block(s, t, i, BlockKind::LoopHeader), t, i, BlockKind::LoopExit)),
        grows(
            s,
            with_block(with_block(s, t, i, BlockKind::LoopHeader), t, i, BlockKind::LoopExit),
            s.blocks.len() as int,
        ),
{
    let base = s.blocks.len() as int;
    lemma_block_shape(s, t, i, BlockKind::LoopHeader);
    let s1 = with_block(s, t, i, BlockKind::LoopHeader);
    lemma_block_shape(s1, t, i, BlockKind::LoopExit);
    lemma_grows_block(s, t, i, BlockKind::LoopHeader, base);
    lemma_grows_block(s1, t, i, BlockKind::LoopExit, base);
    lemma_grows_trans(s, s1, with_block(s1, t, i, BlockKind::LoopExit), base);
}

proof fn lemma_while_shape(t: SyntaxTree, i: int, s: CfgView)
    requires
        0 <= i,
        ids_match(s),
    ensures
        ids_match(while_cfg(t, i, s).0),
        same_ends(s, while_cfg(t, i, s).0),
        s.blocks.len() <= while_cfg(t, i, s).0.blocks.len(),
        fits(while_cfg(t, i, s).0) ==> grows(s, while_cfg(t, i, s).0, s.blocks.len() as int) && ends_in(
            while_cfg(t, i, s).1,
            s.blocks.len() as int,
            while_cfg(t, i, s).0.blocks.len() as int,
        ),
    decreases i, 4nat, 0nat,
{
    let base = s.blocks.len() as int;
    let header = next_id(s);
    lemma_loop_start_shape(t, i, s);
    let s1 = with_block(s, t, i, BlockKind::LoopHeader);
    let exit = next_id(s1);
    let s2 = with_block(s1, t, i, BlockKind::LoopExit);
    let s3 = match field_child(t, i, "body"@) {
        Some(b) => if (b as int) < i {
            let r = nested_cfg(t, b as int, s2);
            match r.1 {
                Some(fl) => with_edge(with_edge(r.0, header, fl.0, BlockEdge::CondTrue), fl.1, header, BlockEdge::LoopBack),
                None => with_edge(r.0, header, exit, BlockEdge::CondTrue),
            }
        } else {
            s2
        },
        None => s2,
    };
    let s4 = with_edge(s3, header, exit, BlockEdge::CondFalse);
    match field_child(t, i, "body"@) {
        Some(b) => if (b as int) < i {
            lemma_nested_shape(t, b as int, s2);
            let r = nested_cfg(t, b as int, s2);
            if fits(s4) {
                lemma_grows_widen(s2, r.0, base, s2.blocks.len() as int);
                lemma_grows_trans(s, s2, r.0, base);
                match r.1 {
                    Some(fl) => {
                        let e1 = with_edge(r.0, header, fl.0, BlockEdge::CondTrue);
                        lemma_grows_edge(r.0, header, fl.0, BlockEdge::CondTrue, base);
                        lemma_grows_trans(s, r.0, e1, base);
                        lemma_grows_edge(e1, fl.1, header, BlockEdge::LoopBack, base);
                        lemma_grows_trans(s, e1, s3, base);
                    },
                    None => {
                        lemma_grows_edge(r.0, header, exit, BlockEdge::CondTrue, base);
                        lemma_grows_trans(s, r.0, s3, base);
                    },
                }
            }
        },
        None => {},
    }
    if fits(s4) {
        lemma_grows_edge(s3, header, exit, BlockEdge::CondFalse, base);
        lemma_grows_trans(s, s3, s4, base);
    }
}

proof fn lemma_do_shape(t: SyntaxTree, i: int, s: CfgView)
    requires
        0 <= i,
        ids_match(s),
    ensures
        ids_match(do_cfg(t, i, s).0),
        same_ends(s, do_cfg(t, i, s).0),
        s.blocks.len() <= do_cfg(t, i, s).0.blocks.len(),
        fits(do_cfg(t, i, s).0) ==> grows(s, do_cfg(t, i, s).0, s.blocks.len() as int) && ends_in(
            do_cfg(t, i, s).1,
            s.blocks.len() as int,
            do_cfg(t, i, s).0.blocks.len() as int,
        ),
    decreases i, 4nat, 0nat,
{
    let base = s.blocks.len() as int;
    let header = next_id(s);
    lemma_loop_start_shape(t, i, s);
    let s1 = with_block(s, t, i, BlockKind::LoopHeader);
    let exit = next_id(s1);
    let s2 = with_block(s1, t, i, BlockKind::LoopExit);
    let s3 = do_cfg(t, i, s).0;
    match field_child(t, i, "body"@) {
        Some(b) => if (b as int) < i {
            lemma_nested_shape(t, b as int, s2);
            let r = nested_cfg(t, b as int, s2);
            if fits(s3) {
                lemma_grows_widen(s2, r.0, base, s2.blocks.len() as int);
                lemma_grows_trans(s, s2, r.0, base);
                match r.1 {
                    Some(fl) => {
                        let e1 = with_edge(r.0, header, fl.0, BlockEdge::Sequence);
                        lemma_grows_edge(r.0, header, fl.0, BlockEdge::Sequence, base);
                        lemma_grows_trans(s, r.0, e1, base);
                        let e2 = with_edge(e1, fl.1, exit, BlockEdge::CondFalse);
                        lemma_grows_edge(e1, fl.1, exit, BlockEdge::CondFalse, base);
                        lemma_grows_trans(s, e1, e2, base);
                        lemma_grows_edge(e2, fl.1, header, BlockEdge::LoopBack, base);
                        lemma_grows_trans(s, e2, s3, base);
                    },
                    None => {
                        lemma_grows_edge(r.0, header, exit, BlockEdge::Sequence, base);
                        lemma_grows_trans(s, r.0, s3, base);
                    },
                }
            }
        } else {
            if fits(s3) {
                lemma_grows_edge(s2, header, exit, BlockEdge::Sequence, base);
                lemma_grows_trans(s, s2, s3, base);
            }
        },
        None => {
            if fits(s3) {
                lemma_grows_edge(s2, header, exit, BlockEdge::Sequence, base);
                lemma_grows_trans(s, s2, s3, base);
            }
        },
    }
}

proof fn lemma_for_shape(t: SyntaxTree, i: int, s: CfgView)
    requires
        0 <= i,
        ids_match(s),
    ensures
        ids_match(for_cfg(t, i, s).0),
        same_ends(s, for_cfg(t, i, s).0),
        s.blocks.len() <= for_cfg(t, i, s).0.blocks.len(),
        fits(for_cfg(t, i, s).0) ==> grows(s, for_cfg(t, i, s).0, s.blocks.len() as int) && ends_in(
            for_cfg(t, i, s).1,
            s.blocks.len() as int,
            for_cfg(t, i, s).0.blocks.len() as int,
        ),
    decreases i, 4nat, 0nat,
{
    let base = s.blocks.len() as int;
    let header = next_id(s);
    lemma_loop_start_shape(t, i, s);
    let s1 = with_block(s, t, i, BlockKind::LoopHeader);
    let exit = next_id(s1);
    let s2 = with_block(s1, t, i, BlockKind::LoopExit);
    let s3 = match field_child(t, i, "initializer"@) {
        Some(init) => {
            lemma_block_shape(s2, t, init as int, BlockKind::Statement);
            with_edge(with_block(s2, t, init as int, BlockKind::Statement), next_id(s2), header, BlockEdge::Sequence)
        },
        None => s2,
    };
    assert(s3 == match field_child(t, i, "initializer"@) {
        Some(init) => with_edge(with_block(s2, t, init as int, BlockKind::Statement), next_id(s2), header, BlockEdge::Sequence),
        None => s2,
    });
    let s4 = match field_child(t, i, "body"@) {
        Some(b) => if (b as int) < i {
            let r = nested_cfg(t, b as int, s3);
            match r.1 {
                Some(fl) => {
                    let s5 = with_edge(r.0, header, fl.0, BlockEdge::CondTrue);
                    match field_child(t, i, "increment"@) {
                        Some(inc) => {
                            let n = next_id(s5);
                            with_edge(
                                with_edge(with_block(s5, t, inc as int, BlockKind::Statement), fl.1, n, BlockEdge::Sequence),
                                n,
                                header,
                                BlockEdge::LoopBack,
                            )
                        },
                        None => with_edge(s5, fl.1, header, BlockEdge::LoopBack),
                    }
                },
                None => r.0,
            }
        } else {
            s3
        },
        None => s3,
    };
    let s6 = with_edge(s4, header, exit, BlockEdge::CondFalse);
    assert(s6 == for_cfg(t, i, s).0);
    match field_child(t, i, "body"@) {
        Some(b) => if (b as int) < i {
            lemma_nested_shape(t, b as int, s3);
            let r = nested_cfg(t, b as int, s3);
            match r.1 {
                Some(fl) => {
                    let s5 = with_edge(r.0, header, fl.0, BlockEdge::CondTrue);
                    match field_child(t, i, "increment"@) {
                        Some(inc) => {
                            lemma_block_shape(s5, t, inc as int, BlockKind::Statement);
                            if fits(s6) {
                                lemma_grows_widen(s3, r.0, base, s3.blocks.len() as int);
                                lemma_grows_trans(s, s3, r.0, base);
                                lemma_grows_edge(r.0, header, fl.0, BlockEdge::CondTrue, base);
                                lemma_grows_trans(s, r.0, s5, base);
                                let n = next_id(s5);
                                let b2 = with_block(s5, t, inc as int, BlockKind::Statement);
                                lemma_grows_block(s5, t, inc as int, BlockKind::Statement, base);
                                lemma_grows_trans(s, s5, b2, base);
                                let e2 = with_edge(b2, fl.1, n, BlockEdge::Sequence);
                                lemma_grows_edge(b2, fl.1, n, BlockEdge::Sequence, base);
                                lemma_grows_trans(s, b2, e2, base);
                                lemma_grows_edge(e2, n, header, BlockEdge::LoopBack, base);
                                lemma_grows_trans(s, e2, s4, base);
                            }
                        },
                        None => {
                            if fits(s6) {
                                lemma_grows_widen(s3, r.0, base, s3.blocks.len() as int);
                                lemma_grows_trans(s, s3, r.0, base);
                                lemma_grows_edge(r.0, header, fl.0, BlockEdge::CondTrue, base);
                                lemma_grows_trans(s, r.0, s5, base);
                                lemma_grows_edge(s5, fl.1, header, BlockEdge::LoopBack, base);
                                lemma_grows_trans(s, s5, s4, base);
                            }
                        },
                    }
                },
                None => {
                    if fits(s6) {
                        lemma_grows_widen(s3, r.0, base, s3.blocks.len() as int);
                        lemma_grows_trans(s, s3, r.0, base);
                    }
                },
            }
        },
        None => {},
    }
    if fits(s6) {
        match field_child(t, i, "initializer"@) {
            Some(init) => {
                let b1 = with_block(s2, t, init as int, BlockKind::Statement);
                lemma_grows_block(s2, t, init as int, BlockKind::Statement, base);
                lemma_grows_trans(s, s2, b1, base);
                lemma_grows_edge(b1, next_id(s2), header, BlockEdge::Sequence, base);
                lemma_grows_trans(s, b1, s3, base);
            },
            None => {},
        }
    }
    if fits(s6) {
        lemma_grows_edge(s4, header, exit, BlockEdge::CondFalse, base);
        lemma_grows_trans(s, s4, s6, base);
    }
}

proof fn lemma_foreach_shape(t: SyntaxTree, i: int, s: CfgView)
    requires
        0 <= i,
        ids_match(s),
    ensures
        ids_match(foreach_cfg(t, i, s).0),
        same_ends(s, foreach_cfg(t, i, s).0),
        s.blocks.len() <= foreach_cfg(t, i, s).0.blocks.len(),
        fits(foreach_cfg(t, i, s).0) ==> grows(s, foreach_cfg(t, i, s).0, s.blocks.len() as int) && ends_in(
            foreach_cfg(t, i, s).1,
            s.blocks.len() as int,
            foreach_cfg(t, i, s).0.blocks.len() as int,
        ),
    decreases i, 4nat, 0nat,
{
    let base = s.blocks.len() as int;
    let header = next_id(s);
    lemma_loop_start_shape(t, i, s);
    let s1 = with_block(s, t, i, BlockKind::LoopHeader);
    let exit = next_id(s1);
    let s2 = with_block(s1, t, i, BlockKind::LoopExit);
    let s3 = match field_child(t, i, "body"@) {
        Some(b) => if (b as int) < i {
            let r = nested_cfg(t, b as int, s2);
            match r.1 {
                Some(fl) => with_edge(with_edge(r.0, header, fl.0, BlockEdge::CondTrue), fl.1, header, BlockEdge::LoopBack),
                None => r.0,
            }
        } else {
            s2
        },
        None => s2,
    };
    let s4 = with_edge(s3, header, exit, BlockEdge::CondFalse);
    match field_child(t, i, "body"@) {
        Some(b) => if (b as int) < i {
            lemma_nested_shape(t, b as int, s2);
            let r = nested_cfg(t, b as int, s2);
            if fits(s4) {
                lemma_grows_widen(s2, r.0, base, s2.blocks.len() as int);
                lemma_grows_trans(s, s2, r.0, base);
                match r.1 {
                    Some(fl) => {
                        let e1 = with_edge(r.0, header, fl.0, BlockEdge::CondTrue);
                        lemma_grows_edge(r.0, header, fl.0, BlockEdge::CondTrue, base);
                        lemma_grows_trans(s, r.0, e1, base);
                        lemma_grows_edge(e1, fl.1, header, BlockEdge::LoopBack, base);
                        lemma_grows_trans(s, e1, s3, base);
                    },
                    None => {},
                }
            }
        },
        None => {},
    }
    if fits(s4) {
        lemma_grows_edge(s3, header, exit, BlockEdge::CondFalse, base);
        lemma_grows_trans(s, s3, s4, base);
    }
}

proof fn lemma_switch_shape(t: SyntaxTree, i: int, s: CfgView)
    requires
        0 <= i,
        ids_match(s),
    ensures
        ids_match(switch_cfg(t, i, s).0),
        same_ends(s, switch_cfg(t, i, s).0),
        s.blocks.len() <= switch_cfg(t, i, s).0.blocks.len(),
        fits(switch_cfg(t, i, s).0) ==> grows(s, switch_cfg(t, i, s).0, s.blocks.len() as int) && ends_in(
            switch_cfg(t, i, s).1,
            s.blocks.len() as int,
            switch_cfg(t, i, s).0.blocks.len() as int,
        ),
    decreases i, 4nat, 0nat,
{
    let base = s.blocks.len() as int;
    let header = next_id(s);
    lemma_block_shape(s, t, i, BlockKind::Condition);
    let s1 = with_block(s, t, i, BlockKind::Condition);
    let merge = next_id(s1);
    lemma_block_shape(s1, t, i, BlockKind::Statement);
    let s2 = with_block(s1, t, i, BlockKind::Statement);
    let s3 = match field_child(t, i, "body"@) {
        Some(b) => if (b as int) < i {
            switch_sections(t, t.children_of(b as int), b as int, s2, header, merge)
        } else {
            s2
        },
        None => s2,
    };
    let s4 = with_edge(s3, header, merge, BlockEdge::CondFalse);
    match field_child(t, i, "body"@) {
        Some(b) => if (b as int) < i {
            lemma_sections_shape(t, t.children_of(b as int), b as int, s2, header, merge, base);
        },
        None => {},
    }
    if fits(s4) {
        lemma_grows_block(s, t, i, BlockKind::Condition, base);
        lemma_grows_block(s1, t, i, BlockKind::Statement, base);
        lemma_grows_trans(s, s1, s2, base);
        lemma_grows_trans(s, s2, s3, base);
        lemma_grows_edge(s3, header, merge, BlockEdge::CondFalse, base);
        lemma_grows_trans(s, s3, s4, base);
    }
}

proof fn lemma_sections_shape(
    t: SyntaxTree,
    cs: Seq<usize>,
    bound: int,
    s: CfgView,
    header: usize,
    merge: usize,
    base: int,
)
    requires
        0 <= bound,
        ids_match(s),
        base <= s.blocks.len(),
        fits(s) ==> in_span(header, base, s.blocks.len() as int) && in_span(merge, base, s.blocks.len() as int),
    ensures
        ids_match(switch_sections(t, cs, bound, s, header, merge)),
        same_ends(s, switch_sections(t, cs, bound, s, header, merge)),
        s.blocks.len() <= switch_sections(t, cs, bound, s, header, merge).blocks.len(),
        fits(switch_sections(t, cs, bound, s, header, merge)) ==> grows(
            s,
            switch_sections(t, cs, bound, s, header, merge),
            base,
        ),
    decreases bound, 1nat, cs.len(),
{
    if cs.len() > 0 {
        let c = cs[0] as int;
        if c < bound && t.nodes@[c].named && t.kind_of(c) == "switch_section"@ {
            lemma_section_shape(t, t.children_of(c), c, s, header, merge, false, base);
            let s1 = section_items(t, t.children_of(c), c, s, header, merge, false);
            lemma_sections_shape(t, cs.drop_first(), bound, s1, header, merge, base);
            let s2 = switch_sections(t, cs.drop_first(), bound, s1, header, merge);
            if fits(s2) {
                lemma_grows_trans(s, s1, s2, base);
            }
        } else {
            lemma_sections_shape(t, cs.drop_first(), bound, s, header, merge, base);
        }
    } else {
        lemma_grows_refl(s, base);
    }
}

proof fn lemma_section_shape(
    t: SyntaxTree,
    cs: Seq<usize>,
    bound: int,
    s: CfgView,
    header: usize,
    merge: usize,
    has_body: bool,
    base: int,
)
    requires
        0 <= bound,
        ids_match(s),
        base <= s.blocks.len(),
        fits(s) ==> in_span(header, base, s.blocks.len() as int) && in_span(merge, base, s.blocks.len() as int),
    ensures
        ids_match(section_items(t, cs, bound, s, header, merge, has_body)),
        same_ends(s, section_items(t, cs, bound, s, header, merge, has_body)),
        s.blocks.len() <= section_items(t, cs, bound, s, header, merge, has_body).blocks.len(),
        fits(section_items(t, cs, bound, s, header, merge, has_body)) ==> grows(
            s,
            section_items(t, cs, bound, s, header, merge, has_body),
            base,
        ),
    decreases bound, 0nat, cs.len(),
{
    if cs.len() > 0 {
        let c = cs[0] as int;
        if c < bound && t.nodes@[c].named {
            if t.kind_of(c) == "break_statement"@ || t.kind_of(c) == "continue_statement"@ {
                let n = next_id(s);
                lemma_block_shape(s, t, c, BlockKind::Statement);
                let s1 = with_block(s, t, c, BlockKind::Statement);
                let s2 = with_edge(s1, header, n, BlockEdge::CondTrue);
                lemma_section_shape(t, cs.drop_first(), bound, s2, header, merge, true, base);
                let s3 = section_items(t, cs.drop_first(), bound, s2, header, merge, true);
                if fits(s3) {
                    lemma_grows_block(s, t, c, BlockKind::Statement, base);
                    lemma_grows_edge(s1, header, n, BlockEdge::CondTrue, base);
                    lemma_grows_trans(s, s1, s2, base);
                    lemma_grows_trans(s, s2, s3, base);
                }
            } else {
                lemma_nested_shape(t, c, s);
                let r = nested_cfg(t, c, s);
                match r.1 {
                    Some(fl) => {
                        let e1 = with_edge(r.0, header, fl.0, BlockEdge::CondTrue);
                        let s2 = with_edge(e1, fl.1, merge, BlockEdge::Sequence);
                        lemma_section_shape(t, cs.drop_first(), bound, s2, header, merge, true, base);
                        let s3 = section_items(t, cs.drop_first(), bound, s2, header, merge, true);
                        if fits(s3) {
                            lemma_grows_widen(s, r.0, base, s.blocks.len() as int);
                            lemma_grows_edge(r.0, header, fl.0, BlockEdge::CondTrue, base);
                            lemma_grows_trans(s, r.0, e1, base);
                            lemma_grows_edge(e1, fl.1, merge, BlockEdge::Sequence, base);
                            lemma_grows_trans(s, e1, s2, base);
                            lemma_grows_trans(s, s2, s3, base);
                        }
                    },
                    None => {
                        lemma_section_shape(t, cs.drop_first(), bound, r.0, header, merge, has_body, base);
                        let s3 = section_items(t, cs.drop_first(), bound, r.0, header, merge, has_body);
                        if fits(s3) {
                            lemma_grows_widen(s, r.0, base, s.blocks.len() as int);
                            lemma_grows_trans(s, r.0, s3, base);
                        }
                    },
                }
            }
        } else {
            lemma_section_shape(t, cs.drop_first(), bound, s, header, merge, has_body, base);
        }
    } else {
        if has_body {
            lemma_grows_refl(s, base);
        } else if fits(s) {
            lemma_grows_edge(s, header, merge, BlockEdge::CondTrue, base);
        }
    }
}

proof fn lemma_catches_shape(
    t: SyntaxTree,
    cs: Seq<usize>,
    bound: int,
    s: CfgView,
    acc: Seq<(usize, usize)>,
    base: int,
)
    requires
        0 <= bound,
        ids_match(s),
        base <= s.blocks.len(),
        fits(s) ==> pairs_in(acc, base, s.blocks.len() as int),
    ensures
        ids_match(try_catches(t, cs, bound, s, acc).0),
        same_ends(s, try_catches(t, cs, bound, s, acc).0),
        s.blocks.len() <= try_catches(t, cs, bound, s, acc).0.blocks.len(),
        fits(try_catches(t, cs, bound, s, acc).0) ==> grows(s, try_catches(t, cs, bound, s, acc).0, base) && pairs_in(
            try_catches(t, cs, bound, s, acc).1,
            base,
            try_catches(t, cs, bound, s, acc).0.blocks.len() as int,
        ),
    decreases bound, 0nat, cs.len(),
{
    if cs.len() > 0 {
        let c = cs[0] as int;
        if c < bound && t.nodes@[c].named && t.kind_of(c) == "catch_clause"@ {
            match field_child(t, c, "body"@) {
                Some(cb) => if (cb as int) < c {
                    lemma_blk_shape(t, cb as int, s);
                    let r = block_cfg(t, cb as int, s);
                    let acc2 = match r.1 {
                        Some(x) => acc.push(x),
                        None => acc,
                    };
                    assert(fits(r.0) ==> pairs_in(acc2, base, r.0.blocks.len() as int)) by {
                        if fits(r.0) {
                            assert forall|x: int| 0 <= x < acc2.len() implies in_span(
                                (#[trigger] acc2[x]).0,
                                base,
                                r.0.blocks.len() as int,
                            ) && in_span(acc2[x].1, base, r.0.blocks.len() as int) by {
                                if x < acc.len() {
                                    assert(acc2[x] == acc[x]);
                                    assert(in_span(acc[x].0, base, s.blocks.len() as int));
                                }
                            }
                        }
                    }
                    lemma_catches_shape(t, cs.drop_first(), bound, r.0, acc2, base);
                    let rr = try_catches(t, cs.drop_first(), bound, r.0, acc2);
                    if fits(rr.0) {
                        lemma_grows_widen(s, r.0, base, s.blocks.len() as int);
                        lemma_grows_trans(s, r.0, rr.0, base);
                    }
                } else {
                    lemma_catches_shape(t, cs.drop_first(), bound, s, acc, base);
                },
                None => lemma_catches_shape(t, cs.drop_first(), bound, s, acc, base),
            }
        } else {
            lemma_catches_shape(t, cs.drop_first(), bound, s, acc, base);
        }
    } else {
        lemma_grows_refl(s, base);
    }
}

proof fn lemma_catch_edges_shape(s: CfgView, bl: usize, cs: Seq<(usize, usize)>, fr: Option<(usize, usize)>, base: int)
    requires
        ids_match(s),
        base <= s.blocks.len(),
        fits(s) ==> in_span(bl, base, s.blocks.len() as int) && pairs_in(cs, base, s.blocks.len() as int) && ends_in(
            fr,
            base,
            s.blocks.len() as int,
        ),
    ensures
        ids_match(catch_edges(s, bl, cs, fr)),
        same_ends(s, catch_edges(s, bl, cs, fr)),
        catch_edges(s, bl, cs, fr).blocks == s.blocks,
        fits(catch_edges(s, bl, cs, fr)) ==> grows(s, catch_edges(s, bl, cs, fr), base),
    decreases cs.len(),
{
    if cs.len() > 0 {
        let s1 = with_edge(s, bl, cs[0].0, BlockEdge::Throw);
        let s2 = match fr {
            Some(f) => with_edge(s1, cs[0].1, f.0, BlockEdge::Finally),
            None => s1,
        };
        assert(fits(s2) ==> pairs_in(cs.drop_first(), base, s2.blocks.len() as int)) by {
            if fits(s2) {
                assert forall|x: int| 0 <= x < cs.drop_first().len() implies in_span(
                    (#[trigger] cs.drop_first()[x]).0,
                    base,
                    s2.blocks.len() as int,
                ) && in_span(cs.drop_first()[x].1, base, s2.blocks.len() as int) by {
                    assert(cs.drop_first()[x] == cs[x + 1]);
                    assert(in_span(cs[x + 1].0, base, s.blocks.len() as int));
                }
            }
        }
        lemma_catch_edges_shape(s2, bl, cs.drop_first(), fr, base);
        let s3 = catch_edges(s2, bl, cs.drop_first(), fr);
        if fits(s3) {
            assert(in_span(cs[0].0, base, s.blocks.len() as int));
            lemma_grows_edge(s, bl, cs[0].0, BlockEdge::Throw, base);
            match fr {
                Some(f) => {
                    lemma_grows_edge(s1, cs[0].1, f.0, BlockEdge::Finally, base);
                    lemma_grows_trans(s, s1, s2, base);
                },
                None => {},
            }
            lemma_grows_trans(s, s2, s3, base);
        }
    } else {
        lemma_grows_refl(s, base);
    }
}

proof fn lemma_finally_shape(t: SyntaxTree, i: int, s: CfgView)
    requires
        0 <= i,
        ids_match(s),
    ensures
        ids_match(finally_cfg(t, i, s).0),
        same_ends(s, finally_cfg(t, i, s).0),
        s.blocks.len() <= finally_cfg(t, i, s).0.blocks.len(),
        fits(finally_cfg(t, i, s).0) ==> grows(s, finally_cfg(t, i, s).0, s.blocks.len() as int) && ends_in(
            finally_cfg(t, i, s).1,
            s.blocks.len() as int,
            finally_cfg(t, i, s).0.blocks.len() as int,
        ),
    decreases i, 3nat, 0nat,
{
    lemma_grows_refl(s, s.blocks.len() as int);
    match first_named_of_kind(t, t.children_of(i), "finally_clause"@) {
        Some(f) => match first_named(t, t.children_of(f as int)) {
            Some(fb) => if (fb as int) < i {
                lemma_blk_shape(t, fb as int, s);
            },
            None => {},
        },
        None => {},
    }
}

proof fn lemma_try_shape(t: SyntaxTree, i: int, s: CfgView)
    requires
        0 <= i,
        ids_match(s),
    ensures
        ids_match(try_cfg(t, i, s).0),
        same_ends(s, try_cfg(t, i, s).0),
        s.blocks.len() <= try_cfg(t, i, s).0.blocks.len(),
        fits(try_cfg(t, i, s).0) ==> grows(s, try_cfg(t, i, s).0, s.blocks.len() as int) && ends_in(
            try_cfg(t, i, s).1,
            s.blocks.len() as int,
            try_cfg(t, i, s).0.blocks.len() as int,
        ),
    decreases i, 4nat, 0nat,
{
    let base = s.blocks.len() as int;
    lemma_grows_refl(s, base);
    match field_child(t, i, "body"@) {
        Some(body) => if (body as int) < i {
            lemma_blk_shape(t, body as int, s);
            let b = block_cfg(t, body as int, s);
            lemma_catches_shape(t, t.children_of(i), i, b.0, Seq::empty(), base);
            let c = try_catches(t, t.children_of(i), i, b.0, Seq::empty());
            lemma_finally_shape(t, i, c.0);
            let f = finally_cfg(t, i, c.0);
            if fits(f.0) {
                lemma_grows_widen(c.0, f.0, base, c.0.blocks.len() as int);
                lemma_grows_trans(b.0, c.0, f.0, base);
                lemma_grows_trans(s, b.0, f.0, base);
            }
            match b.1 {
                Some(bfl) => {
                    assert(fits(f.0) ==> pairs_in(c.1, base, f.0.blocks.len() as int)) by {
                        if fits(f.0) {
                            assert forall|x: int| 0 <= x < c.1.len() implies in_span(
                                (#[trigger] c.1[x]).0,
                                base,
                                f.0.blocks.len() as int,
                            ) && in_span(c.1[x].1, base, f.0.blocks.len() as int) by {
                                assert(in_span(c.1[x].0, base, c.0.blocks.len() as int));
                            }
                        }
                    }
                    lemma_catch_edges_shape(f.0, bfl.1, c.1, f.1, base);
                    let s1 = catch_edges(f.0, bfl.1, c.1, f.1);
                    if fits(s1) {
                        lemma_grows_trans(s, f.0, s1, base);
                        if c.1.len() > 0 {
                            assert(in_span(c.1[c.1.len() - 1].1, base, f.0.blocks.len() as int));
                        }
                        match f.1 {
                            Some(ffl) => {
                                lemma_grows_edge(s1, bfl.1, ffl.0, BlockEdge::Sequence, base);
                                lemma_grows_trans(s, s1, with_edge(s1, bfl.1, ffl.0, BlockEdge::Sequence), base);
                            },
                            None => {},
                        }
                    }
                },
                None => {},
            }
        },
        None => {},
    }
}

/// No edge starts or ends at entry block `k` but one `Sequence` edge from it.
pub open spec fn entry_wired(v: CfgView, k: int) -> bool {
    &&& forall|j: int| 0 <= j < v.edges.len() ==> (#[trigger] v.edges[j]).1 as int != k
    &&& exists|j: int|
        #![trigger v.edges[j]]
        0 <= j < v.edges.len() && v.edges[j].0 as int == k && v.edges[j].2 == BlockEdge::Sequence && forall|j2: int|
            0 <= j2 < v.edges.len() && (#[trigger] v.edges[j2]).0 as int == k ==> j2 == j
}

/// No edge starts at exit block `k`, and one `Sequence` edge ends at it.
pub open spec fn exit_wired(v: CfgView, k: int) -> bool {
    &&& forall|j: int| 0 <= j < v.edges.len() ==> (#[trigger] v.edges[j]).0 as int != k
    &&& exists|j: int|
        #![trigger v.edges[j]]
        0 <= j < v.edges.len() && v.edges[j].1 as int == k && v.edges[j].2 == BlockEdge::Sequence && forall|j2: int|
            0 <= j2 < v.edges.len() && (#[trigger] v.edges[j2]).1 as int == k ==> j2 == j
}

/// Every entry block has no edge in and one `Sequence` edge out; every exit
/// block has no edge out and one `Sequence` edge in.
pub open spec fn ends_wired(v: CfgView) -> bool {
    &&& forall|k: int| 0 <= k < v.blocks.len() && (#[trigger] v.blocks[k]).kind == BlockKind::Entry ==> entry_wired(v, k)
    &&& forall|k: int| 0 <= k < v.blocks.len() && (#[trigger] v.blocks[k]).kind == BlockKind::Exit ==> exit_wired(v, k)
}

/// Every edge joins two blocks of the graph.
pub open spec fn edges_closed(v: CfgView) -> bool {
    forall|j: int|
        0 <= j < v.edges.len() ==> (#[trigger] v.edges[j]).0 < v.blocks.len() && v.edges[j].1 < v.blocks.len()
}

proof fn lemma_method_shape(t: SyntaxTree, m: int, s: CfgView)
    requires
        ids_match(s),
    ensures
        ids_match(method_cfg(t, m, s)),
        kind_count(method_cfg(t, m, s).blocks, BlockKind::Entry) == kind_count(s.blocks, BlockKind::Entry) + (
        if method_has_body(t, m) {
            1nat
        } else {
            0nat
        }),
        kind_count(method_cfg(t, m, s).blocks, BlockKind::Exit) == kind_count(s.blocks, BlockKind::Exit) + (
        if method_has_body(t, m) {
            1nat
        } else {
            0nat
        }),
        s.blocks.len() <= method_cfg(t, m, s).blocks.len(),
        fits(method_cfg(t, m, s)) && ends_wired(s) && edges_closed(s) ==> ends_wired(method_cfg(t, m, s))
            && edges_closed(method_cfg(t, m, s)),
{
    match field_child(t, m, "body"@) {
        Some(b) => if t.kind_of(b as int) == "block"@ && (b as int) < m {
            lemma_block_shape(s, t, m, BlockKind::Entry);
            let s1 = with_block(s, t, m, BlockKind::Entry);
            lemma_block_shape(s1, t, m, BlockKind::Exit);
            let s2 = with_block(s1, t, m, BlockKind::Exit);
            lemma_blk_shape(t, b as int, s2);
            let r = block_cfg(t, b as int, s2);
            let fin = method_cfg(t, m, s);
            if fits(fin) && ends_wired(s) && edges_closed(s) {
                lemma_method_wired(s, s2, r.0, r.1, fin);
            }
        },
        None => {},
    }
}

/// The wiring of one method's entry `e` and exit `e + 1` around its body.
proof fn lemma_method_wired(s: CfgView, s2: CfgView, body: CfgView, fl: Option<(usize, usize)>, fin: CfgView)
    requires
        ends_wired(s),
        edges_closed(s),
        s2.edges == s.edges,
        s2.blocks.len() == s.blocks.len() + 2,
        forall|k: int| 0 <= k < s.blocks.len() ==> #[trigger] s2.blocks[k] == s.blocks[k],
        s2.blocks[s.blocks.len() as int].kind == BlockKind::Entry,
        s2.blocks[s.blocks.len() + 1int].kind == BlockKind::Exit,
        fits(body),
        grows(s2, body, s2.blocks.len() as int),
        ends_in(fl, s2.blocks.len() as int, body.blocks.len() as int),
        fin == match fl {
            Some(x) => with_edge(
                with_edge(body, s.blocks.len() as usize, x.0, BlockEdge::Sequence),
                x.1,
                (s.blocks.len() + 1) as usize,
                BlockEdge::Sequence,
            ),
            None => with_edge(body, s.blocks.len() as usize, (s.blocks.len() + 1) as usize, BlockEdge::Sequence),
        },
    ensures
        ends_wired(fin),
        edges_closed(fin),
{
    let e = s.blocks.len() as int;
    let x = e + 1;
    let n = body.edges.len() as int;
    assert(fin.blocks == body.blocks);
    assert(fin.edges.len() == n + if fl is Some { 2int } else { 1int });
    assert(fin.edges[n] == (e as usize, match fl { Some(p) => p.0, None => x as usize }, BlockEdge::Sequence));
    assert(fl is Some ==> fin.edges[n + 1] == (fl.unwrap().1, x as usize, BlockEdge::Sequence));
    assert forall|j: int| 0 <= j < n implies #[trigger] fin.edges[j] == body.edges[j] by {}
    // Where each edge of the final graph lies.
    assert forall|j: int| 0 <= j < fin.edges.len() implies (#[trigger] fin.edges[j]).0 < fin.blocks.len()
        && fin.edges[j].1 < fin.blocks.len() && (j < s.edges.len() ==> fin.edges[j].0 < e && fin.edges[j].1 < e) && (
    s.edges.len() <= j < n ==> fin.edges[j].0 > x && fin.edges[j].1 > x) && (j == n ==> fin.edges[j].0 == e
        && fin.edges[j].1 >= x) && (j == n + 1 ==> fin.edges[j].0 > x && fin.edges[j].1 == x) && (j == n && fl is Some
        ==> fin.edges[j].1 > x) && (j == n && fl is None ==> fin.edges[j].1 == x) by {
        if j < s.edges.len() {
            assert(fin.edges[j] == body.edges[j]);
            assert(body.edges[j] == s2.edges[j]);
            assert(s2.edges[j] == s.edges[j]);
        } else if j < n {
            assert(fin.edges[j] == body.edges[j]);
            assert(in_span(body.edges[j].0, s2.blocks.len() as int, body.blocks.len() as int));
        }
    }
    assert forall|k: int| 0 <= k < fin.blocks.len() && (#[trigger] fin.blocks[k]).kind == BlockKind::Entry implies entry_wired(fin, k) by {
        if k < e {
            assert(body.blocks[k] == s2.blocks[k]);
            assert(s.blocks[k] == s2.blocks[k]);
            assert(entry_wired(s, k));
            let j = choose|j: int|
                #![trigger s.edges[j]]
                0 <= j < s.edges.len() && s.edges[j].0 as int == k && s.edges[j].2 == BlockEdge::Sequence && forall|j2: int|
                    0 <= j2 < s.edges.len() && (#[trigger] s.edges[j2]).0 as int == k ==> j2 == j;
            assert(fin.edges[j] == s.edges[j]);
            assert forall|j2: int| 0 <= j2 < fin.edges.len() && (#[trigger] fin.edges[j2]).0 as int == k implies j2 == j by {
                if j2 < s.edges.len() {
                    assert(fin.edges[j2] == s.edges[j2]);
                }
            }
            assert forall|j2: int| 0 <= j2 < fin.edges.len() implies (#[trigger] fin.edges[j2]).1 as int != k by {
                if j2 < s.edges.len() {
                    assert(fin.edges[j2] == s.edges[j2]);
                    assert(s.edges[j2].1 as int != k);
                }
            }
        } else if k == e {
            assert forall|j2: int| 0 <= j2 < fin.edges.len() && (#[trigger] fin.edges[j2]).0 as int == k implies j2 == n by {}
            assert(fin.edges[n].0 as int == k);
        } else if k == x {
            assert(false);
        } else {
            assert(fin.blocks[k] == body.blocks[k]);
            assert(inner_kind(body.blocks[k].kind));
        }
    }
    assert forall|k: int| 0 <= k < fin.blocks.len() && (#[trigger] fin.blocks[k]).kind == BlockKind::Exit implies exit_wired(fin, k) by {
        if k < e {
            assert(body.blocks[k] == s2.blocks[k]);
            assert(s.blocks[k] == s2.blocks[k]);
            assert(exit_wired(s, k));
            let j = choose|j: int|
                #![trigger s.edges[j]]
                0 <= j < s.edges.len() && s.edges[j].1 as int == k && s.edges[j].2 == BlockEdge::Sequence && forall|j2: int|
                    0 <= j2 < s.edges.len() && (#[trigger] s.edges[j2]).1 as int == k ==> j2 == j;
            assert(fin.edges[j] == s.edges[j]);
            assert forall|j2: int| 0 <= j2 < fin.edges.len() && (#[trigger] fin.edges[j2]).1 as int == k implies j2 == j by {
                if j2 < s.edges.len() {
                    assert(fin.edges[j2] == s.edges[j2]);
                }
            }
            assert forall|j2: int| 0 <= j2 < fin.edges.len() implies (#[trigger] fin.edges[j2]).0 as int != k by {
                if j2 < s.edges.len() {
                    assert(fin.edges[j2] == s.edges[j2]);
                    assert(s.edges[j2].0 as int != k);
                }
            }
        } else if k == e {
            assert(false);
        } else if k == x {
            let last = if fl is Some { n + 1 } else { n };
            assert forall|j2: int| 0 <= j2 < fin.edges.len() && (#[trigger] fin.edges[j2]).1 as int == k implies j2 == last by {}
            assert(fin.edges[last].1 as int == k);
        } else {
            assert(fin.blocks[k] == body.blocks[k]);
            assert(inner_kind(body.blocks[k].kind));
        }
    }
}

pub(crate) proof fn lemma_methods_shape(t: SyntaxTree, ms: Seq<usize>, s: CfgView)
    requires
        ids_match(s),
    ensures
        ids_match(methods_cfg(t, ms, s)),
        kind_count(methods_cfg(t, ms, s).blocks, BlockKind::Entry) == kind_count(s.blocks, BlockKind::Entry)
            + bodied_count(t, ms),
        kind_count(methods_cfg(t, ms, s).blocks, BlockKind::Exit) == kind_count(s.blocks, BlockKind::Exit)
            + bodied_count(t, ms),
        s.blocks.len() <= methods_cfg(t, ms, s).blocks.len(),
        fits(methods_cfg(t, ms, s)) && ends_wired(s) && edges_closed(s) ==> ends_wired(methods_cfg(t, ms, s))
            && edges_closed(methods_cfg(t, ms, s)),
    decreases ms.len(),
{
    if ms.len() > 0 {
        lemma_method_shape(t, ms[0] as int, s);
        lemma_methods_shape(t, ms.drop_first(), method_cfg(t, ms[0] as int, s));
    }
}

} // verus!
