//! Building the control flow graph of the methods of a syntax tree.

use vstd::prelude::*;
use crate::text::str_eq;
use crate::parse::syntax::{SyntaxTree, SyntaxNode, field_child, child_by_field};
use crate::parse::visitor::MAX_AST_DEPTH;
use crate::parse::parser::{parse_source, parsed_from, ParseError};
use crate::cfg::blocks::{
    BasicBlock, BlockKind, BlockEdge, CfgGraph, cfg_blocks, cfg_edges, cfg_new, cfg_add_node, cfg_add_edge,
    cfg_node_count,
};
use crate::cfg::model::{
    CfgView, view_of, with_block, with_edge, next_id, stmt_cfg, nested_cfg, block_cfg, block_items, branch_cfg, if_cfg,
    while_cfg, do_cfg, for_cfg, foreach_cfg, switch_cfg, switch_sections, section_items, first_named_of_kind,
    first_named, try_catches, catch_edges, finally_cfg, try_cfg, method_cfg, methods_cfg, lemma_methods_shape, kind_count, bodied_count, ends_wired, edges_closed,
};

verus! {

/// Every node's rows can be made 1-based.
pub open spec fn rows_fit(t: SyntaxTree) -> bool {
    forall|i: int|
        0 <= i < t.nodes@.len() ==> (#[trigger] t.nodes@[i]).start_row < usize::MAX && t.nodes@[i].end_row
            < usize::MAX
}

/// Whether every node's rows can be made 1-based.
pub fn rows_fit_exec(t: &SyntaxTree) -> (r: bool)
    ensures
        r == rows_fit(*t),
{
    let mut i: usize = 0;
    while i < t.nodes.len()
        invariant
            i <= t.nodes@.len(),
            forall|j: int|
                0 <= j < i ==> (#[trigger] t.nodes@[j]).start_row < usize::MAX && t.nodes@[j].end_row < usize::MAX,
        decreases t.nodes.len() - i,
    {
        if t.nodes[i].start_row == usize::MAX || t.nodes[i].end_row == usize::MAX {
            return false;
        }
        i = i + 1;
    }
    true
}

/// The blocks of `g` only grow, and `r` (when there is one) names two of
/// them.
pub open spec fn grew(old_g: CfgGraph, new_g: CfgGraph, r: Option<(usize, usize)>) -> bool {
    &&& cfg_blocks(new_g).len() >= cfg_blocks(old_g).len()
    &&& r matches Some(fl) ==> fl.0 < cfg_blocks(new_g).len() && fl.1 < cfg_blocks(new_g).len()
}

/// Adds a block of kind `kind` for node `i`; returns its number.
fn add_block(g: &mut CfgGraph, t: &SyntaxTree, i: usize, kind: BlockKind) -> (r: usize)
    requires
        rows_fit(*t),
        i < t.nodes@.len(),
    ensures
        r == next_id(view_of(*old(g))),
        r < cfg_blocks(*final(g)).len(),
        view_of(*final(g)) == with_block(view_of(*old(g)), *t, i as int, kind),
{
    assert(t.nodes@[i as int].start_row < usize::MAX);
    let b = BasicBlock {
        id: cfg_node_count(g),
        start_line: t.nodes[i].start_row + 1,
        end_line: t.nodes[i].end_row + 1,
        kind,
    };
    cfg_add_node(g, b)
}

/// Adds an edge between two blocks.
fn add_edge(g: &mut CfgGraph, a: usize, b: usize, w: BlockEdge)
    requires
        a < cfg_blocks(*old(g)).len(),
        b < cfg_blocks(*old(g)).len(),
    ensures
        view_of(*final(g)) == with_edge(view_of(*old(g)), a, b, w),
{
    cfg_add_edge(g, a, b, w);
}

/// A child of node `i` is below `i` in the arena.
proof fn lemma_child_lt(t: SyntaxTree, i: int, k: int)
    requires
        t.wf(),
        0 <= i < t.nodes@.len(),
        0 <= k < t.children_of(i).len(),
    ensures
        t.children_of(i)[k] < i,
{
    assert(t.nodes@[i].children@[k] < i);
}

/// Adds the blocks and edges of statement `i`.
fn build_stmt(t: &SyntaxTree, i: usize, g: &mut CfgGraph) -> (r: Option<(usize, usize)>)
    requires
        t.wf(),
        rows_fit(*t),
        i < t.nodes@.len(),
    ensures
        (view_of(*final(g)), r) == stmt_cfg(*t, i as int, view_of(*old(g))),
        grew(*old(g), *final(g), r),
    decreases i, 5nat,
{
    let k = t.nodes[i].kind.as_str();
    if str_eq(k, "expression_statement") || str_eq(k, "local_declaration_statement") || str_eq(k, "fixed_statement")
        || str_eq(k, "checked_statement") || str_eq(k, "unchecked_statement") || str_eq(k, "unsafe_statement")
        || str_eq(k, "using_statement") || str_eq(k, "lock_statement") || str_eq(k, "return_statement") || str_eq(
        k,
        "throw_statement",
    ) || str_eq(k, "break_statement") || str_eq(k, "continue_statement") {
        let n = add_block(g, t, i, BlockKind::Statement);
        Some((n, n))
    } else if str_eq(k, "block") {
        build_block(t, i, g)
    } else if str_eq(k, "if_statement") {
        build_if(t, i, g)
    } else if str_eq(k, "while_statement") {
        build_while(t, i, g)
    } else if str_eq(k, "do_statement") {
        build_do_while(t, i, g)
    } else if str_eq(k, "for_statement") {
        build_for(t, i, g)
    } else if str_eq(k, "for_each_statement") {
        build_foreach(t, i, g)
    } else if str_eq(k, "switch_statement") {
        build_switch(t, i, g)
    } else if str_eq(k, "try_statement") {
        build_try(t, i, g)
    } else if str_eq(k, "yield_statement") {
        let n = add_block(g, t, i, BlockKind::Resume);
        Some((n, n))
    } else {
        let n = add_block(g, t, i, BlockKind::Unknown);
        Some((n, n))
    }
}

/// Adds the blocks and edges of node `c`, as a block or as a statement.
fn build_block_or_stmt(t: &SyntaxTree, c: usize, g: &mut CfgGraph) -> (r: Option<(usize, usize)>)
    requires
        t.wf(),
        rows_fit(*t),
        c < t.nodes@.len(),
    ensures
        (view_of(*final(g)), r) == nested_cfg(*t, c as int, view_of(*old(g))),
        grew(*old(g), *final(g), r),
    decreases c, 6nat,
{
    if str_eq(t.nodes[c].kind.as_str(), "block") {
        build_block(t, c, g)
    } else {
        build_stmt(t, c, g)
    }
}

/// Adds the statements of block node `i`, chained one after the other.
fn build_block(t: &SyntaxTree, i: usize, g: &mut CfgGraph) -> (r: Option<(usize, usize)>)
    requires
        t.wf(),
        rows_fit(*t),
        i < t.nodes@.len(),
    ensures
        (view_of(*final(g)), r) == block_cfg(*t, i as int, view_of(*old(g))),
        grew(*old(g), *final(g), r),
    decreases i, 4nat,
{
    let ghost g0 = *g;
    let cs = &t.nodes[i].children;
    let mut first: Option<usize> = None;
    let mut last: Option<usize> = None;
    let mut k: usize = 0;
    assert(cs@.subrange(0, cs@.len() as int) =~= cs@);
    while k < cs.len()
        invariant
            t.wf(),
            rows_fit(*t),
            i < t.nodes@.len(),
            cs@ == t.children_of(i as int),
            k <= cs@.len(),
            block_cfg(*t, i as int, view_of(g0)) == block_items(
                *t,
                cs@.subrange(k as int, cs@.len() as int),
                i as int,
                view_of(*g),
                first,
                last,
            ),
            cfg_blocks(*g).len() >= cfg_blocks(g0).len(),
            first is Some <==> last is Some,
            first matches Some(f) ==> f < cfg_blocks(*g).len(),
            last matches Some(l) ==> l < cfg_blocks(*g).len(),
        decreases cs.len() - k,
    {
        let ghost rest = cs@.subrange(k as int, cs@.len() as int);
        assert(rest[0] == cs@[k as int]);
        assert(rest.drop_first() =~= cs@.subrange(k + 1, cs@.len() as int));
        proof {
            lemma_child_lt(*t, i as int, k as int);
        }
        let c = cs[k];
        let ck = t.nodes[c].kind.as_str();
        if t.nodes[c].named && !(str_eq(ck, "{") || str_eq(ck, "}") || str_eq(ck, ";") || str_eq(ck, "(") || str_eq(
            ck,
            ")",
        )) {
            match build_stmt(t, c, g) {
                Some((f, l)) => {
                    match last {
                        Some(p) => {
                            add_edge(g, p, f, BlockEdge::Sequence);
                        },
                        None => {
                            first = Some(f);
                        },
                    }
                    last = Some(l);
                },
                None => {},
            }
        }
        k = k + 1;
    }
    match first {
        Some(f) => Some((f, last.unwrap())),
        None => None,
    }
}

/// Adds the branch in field `field` of node `i` from `cond` to `merge`.
fn build_branch(
    t: &SyntaxTree,
    i: usize,
    field: &str,
    g: &mut CfgGraph,
    cond: usize,
    merge: usize,
    w: BlockEdge,
)
    requires
        t.wf(),
        rows_fit(*t),
        i < t.nodes@.len(),
        cond < cfg_blocks(*old(g)).len(),
        merge < cfg_blocks(*old(g)).len(),
    ensures
        view_of(*final(g)) == branch_cfg(*t, i as int, field@, view_of(*old(g)), cond, merge, w),
        cfg_blocks(*final(g)).len() >= cfg_blocks(*old(g)).len(),
    decreases i, 3nat,
{
    match child_by_field(t, i, field) {
        Some(c) => {
            match build_block_or_stmt(t, c, g) {
                Some((f, l)) => {
                    add_edge(g, cond, f, w);
                    let ck = t.nodes[c].kind.as_str();
                    if !(str_eq(ck, "return_statement") || str_eq(ck, "throw_statement")) {
                        add_edge(g, l, merge, BlockEdge::Sequence);
                    }
                },
                None => {
                    add_edge(g, cond, merge, w);
                },
            }
        },
        None => {
            add_edge(g, cond, merge, w);
        },
    }
}

/// Adds an `if`.
fn build_if(t: &SyntaxTree, i: usize, g: &mut CfgGraph) -> (r: Option<(usize, usize)>)
    requires
        t.wf(),
        rows_fit(*t),
        i < t.nodes@.len(),
    ensures
        (view_of(*final(g)), r) == if_cfg(*t, i as int, view_of(*old(g))),
        grew(*old(g), *final(g), r),
    decreases i, 4nat,
{
    let cond = add_block(g, t, i, BlockKind::Condition);
    let merge = add_block(g, t, i, BlockKind::Statement);
    build_branch(t, i, "consequence", g, cond, merge, BlockEdge::CondTrue);
    build_branch(t, i, "alternative", g, cond, merge, BlockEdge::CondFalse);
    Some((cond, merge))
}

/// Adds a `while`.
fn build_while(t: &SyntaxTree, i: usize, g: &mut CfgGraph) -> (r: Option<(usize, usize)>)
    requires
        t.wf(),
        rows_fit(*t),
        i < t.nodes@.len(),
    ensures
        (view_of(*final(g)), r) == while_cfg(*t, i as int, view_of(*old(g))),
        grew(*old(g), *final(g), r),
    decreases i, 4nat,
{
    let header = add_block(g, t, i, BlockKind::LoopHeader);
    let exit = add_block(g, t, i, BlockKind::LoopExit);
    match child_by_field(t, i, "body") {
        Some(b) => match build_block_or_stmt(t, b, g) {
            Some((f, l)) => {
                add_edge(g, header, f, BlockEdge::CondTrue);
                add_edge(g, l, header, BlockEdge::LoopBack);
            },
            None => {
                add_edge(g, header, exit, BlockEdge::CondTrue);
            },
        },
        None => {},
    }
    add_edge(g, header, exit, BlockEdge::CondFalse);
    Some((header, exit))
}

/// Adds a `do`.
fn build_do_while(t: &SyntaxTree, i: usize, g: &mut CfgGraph) -> (r: Option<(usize, usize)>)
    requires
        t.wf(),
        rows_fit(*t),
        i < t.nodes@.len(),
    ensures
        (view_of(*final(g)), r) == do_cfg(*t, i as int, view_of(*old(g))),
        grew(*old(g), *final(g), r),
    decreases i, 4nat,
{
    let header = add_block(g, t, i, BlockKind::LoopHeader);
    let exit = add_block(g, t, i, BlockKind::LoopExit);
    match child_by_field(t, i, "body") {
        Some(b) => match build_block_or_stmt(t, b, g) {
            Some((f, l)) => {
                add_edge(g, header, f, BlockEdge::Sequence);
                add_edge(g, l, exit, BlockEdge::CondFalse);
                add_edge(g, l, header, BlockEdge::LoopBack);
            },
            None => {
                add_edge(g, header, exit, BlockEdge::Sequence);
            },
        },
        None => {
            add_edge(g, header, exit, BlockEdge::Sequence);
        },
    }
    Some((header, exit))
}

/// Adds a `for`.
fn build_for(t: &SyntaxTree, i: usize, g: &mut CfgGraph) -> (r: Option<(usize, usize)>)
    requires
        t.wf(),
        rows_fit(*t),
        i < t.nodes@.len(),
    ensures
        (view_of(*final(g)), r) == for_cfg(*t, i as int, view_of(*old(g))),
        grew(*old(g), *final(g), r),
    decreases i, 4nat,
{
    let header = add_block(g, t, i, BlockKind::LoopHeader);
    let exit = add_block(g, t, i, BlockKind::LoopExit);
    match child_by_field(t, i, "initializer") {
        Some(init) => {
            let n = add_block(g, t, init, BlockKind::Statement);
            add_edge(g, n, header, BlockEdge::Sequence);
        },
        None => {},
    }
    match child_by_field(t, i, "body") {
        Some(b) => match build_block_or_stmt(t, b, g) {
            Some((f, l)) => {
                add_edge(g, header, f, BlockEdge::CondTrue);
                match child_by_field(t, i, "increment") {
                    Some(inc) => {
                        let n = add_block(g, t, inc, BlockKind::Statement);
                        add_edge(g, l, n, BlockEdge::Sequence);
                        add_edge(g, n, header, BlockEdge::LoopBack);
                    },
                    None => {
                        add_edge(g, l, header, BlockEdge::LoopBack);
                    },
                }
            },
            None => {},
        },
        None => {},
    }
    add_edge(g, header, exit, BlockEdge::CondFalse);
    Some((header, exit))
}

/// Adds a `foreach`.
fn build_foreach(t: &SyntaxTree, i: usize, g: &mut CfgGraph) -> (r: Option<(usize, usize)>)
    requires
        t.wf(),
        rows_fit(*t),
        i < t.nodes@.len(),
    ensures
        (view_of(*final(g)), r) == foreach_cfg(*t, i as int, view_of(*old(g))),
        grew(*old(g), *final(g), r),
    decreases i, 4nat,
{
    let header = add_block(g, t, i, BlockKind::LoopHeader);
    let exit = add_block(g, t, i, BlockKind::LoopExit);
    match child_by_field(t, i, "body") {
        Some(b) => match build_block_or_stmt(t, b, g) {
            Some((f, l)) => {
                add_edge(g, header, f, BlockEdge::CondTrue);
                add_edge(g, l, header, BlockEdge::LoopBack);
            },
            None => {},
        },
        None => {},
    }
    add_edge(g, header, exit, BlockEdge::CondFalse);
    Some((header, exit))
}

/// Adds the statements of switch section node `c`.
fn build_section(t: &SyntaxTree, c: usize, g: &mut CfgGraph, header: usize, merge: usize)
    requires
        t.wf(),
        rows_fit(*t),
        c < t.nodes@.len(),
        header < cfg_blocks(*old(g)).len(),
        merge < cfg_blocks(*old(g)).len(),
    ensures
        view_of(*final(g)) == section_items(*t, t.children_of(c as int), c as int, view_of(*old(g)), header, merge, false),
        cfg_blocks(*final(g)).len() >= cfg_blocks(*old(g)).len(),
    decreases c, 1nat,
{
    let ghost g0 = *g;
    let cs = &t.nodes[c].children;
    let mut has_body = false;
    let mut k: usize = 0;
    assert(cs@.subrange(0, cs@.len() as int) =~= cs@);
    while k < cs.len()
        invariant
            t.wf(),
            rows_fit(*t),
            c < t.nodes@.len(),
            cs@ == t.children_of(c as int),
            k <= cs@.len(),
            header < cfg_blocks(*g).len(),
            merge < cfg_blocks(*g).len(),
            cfg_blocks(*g).len() >= cfg_blocks(g0).len(),
            section_items(*t, cs@, c as int, view_of(g0), header, merge, false) == section_items(
                *t,
                cs@.subrange(k as int, cs@.len() as int),
                c as int,
                view_of(*g),
                header,
                merge,
                has_body,
            ),
        decreases cs.len() - k,
    {
        let ghost rest = cs@.subrange(k as int, cs@.len() as int);
        assert(rest[0] == cs@[k as int]);
        assert(rest.drop_first() =~= cs@.subrange(k + 1, cs@.len() as int));
        proof {
            lemma_child_lt(*t, c as int, k as int);
        }
        let d = cs[k];
        if t.nodes[d].named {
            let dk = t.nodes[d].kind.as_str();
            if str_eq(dk, "break_statement") || str_eq(dk, "continue_statement") {
                let n = add_block(g, t, d, BlockKind::Statement);
                add_edge(g, header, n, BlockEdge::CondTrue);
                has_body = true;
            } else {
                match build_block_or_stmt(t, d, g) {
                    Some((f, l)) => {
                        add_edge(g, header, f, BlockEdge::CondTrue);
                        add_edge(g, l, merge, BlockEdge::Sequence);
                        has_body = true;
                    },
                    None => {},
                }
            }
        }
        k = k + 1;
    }
    if !has_body {
        add_edge(g, header, merge, BlockEdge::CondTrue);
    }
}

/// Adds a `switch`.
fn build_switch(t: &SyntaxTree, i: usize, g: &mut CfgGraph) -> (r: Option<(usize, usize)>)
    requires
        t.wf(),
        rows_fit(*t),
        i < t.nodes@.len(),
    ensures
        (view_of(*final(g)), r) == switch_cfg(*t, i as int, view_of(*old(g))),
        grew(*old(g), *final(g), r),
    decreases i, 4nat,
{
    let header = add_block(g, t, i, BlockKind::Condition);
    let merge = add_block(g, t, i, BlockKind::Statement);
    match child_by_field(t, i, "body") {
        Some(b) => {
            let ghost g2 = *g;
            let cs = &t.nodes[b].children;
            let mut k: usize = 0;
            assert(cs@.subrange(0, cs@.len() as int) =~= cs@);
            while k < cs.len()
                invariant
                    t.wf(),
                    rows_fit(*t),
                    b < i,
                    i < t.nodes@.len(),
                    cs@ == t.children_of(b as int),
                    k <= cs@.len(),
                    header < cfg_blocks(*g).len(),
                    merge < cfg_blocks(*g).len(),
                    cfg_blocks(*g).len() >= cfg_blocks(g2).len(),
                    switch_sections(*t, cs@, b as int, view_of(g2), header, merge) == switch_sections(
                        *t,
                        cs@.subrange(k as int, cs@.len() as int),
                        b as int,
                        view_of(*g),
                        header,
                        merge,
                    ),
                decreases cs.len() - k,
            {
                let ghost rest = cs@.subrange(k as int, cs@.len() as int);
                assert(rest[0] == cs@[k as int]);
                assert(rest.drop_first() =~= cs@.subrange(k + 1, cs@.len() as int));
                proof {
                    lemma_child_lt(*t, b as int, k as int);
                }
                let c = cs[k];
                if t.nodes[c].named && str_eq(t.nodes[c].kind.as_str(), "switch_section") {
                    build_section(t, c, g, header, merge);
                }
                k = k + 1;
            }
        },
        None => {},
    }
    add_edge(g, header, merge, BlockEdge::CondFalse);
    Some((header, merge))
}

/// The first named child of node `i` of kind `kind`.
fn first_named_of_kind_exec(t: &SyntaxTree, i: usize, kind: &str) -> (r: Option<usize>)
    requires
        t.wf(),
        i < t.nodes@.len(),
    ensures
        r == first_named_of_kind(*t, t.children_of(i as int), kind@),
        r matches Some(c) ==> c < i,
{
    let cs = &t.nodes[i].children;
    let mut k: usize = 0;
    assert(cs@.subrange(0, cs@.len() as int) =~= cs@);
    while k < cs.len()
        invariant
            t.wf(),
            i < t.nodes@.len(),
            cs@ == t.children_of(i as int),
            k <= cs@.len(),
            first_named_of_kind(*t, cs@, kind@) == first_named_of_kind(*t, cs@.subrange(k as int, cs@.len() as int), kind@),
        decreases cs.len() - k,
    {
        let ghost rest = cs@.subrange(k as int, cs@.len() as int);
        assert(rest[0] == cs@[k as int]);
        assert(rest.drop_first() =~= cs@.subrange(k + 1, cs@.len() as int));
        proof {
            lemma_child_lt(*t, i as int, k as int);
        }
        let c = cs[k];
        if t.nodes[c].named && str_eq(t.nodes[c].kind.as_str(), kind) {
            return Some(c);
        }
        k = k + 1;
    }
    None
}

/// The first named child of node `i`.
fn first_named_exec(t: &SyntaxTree, i: usize) -> (r: Option<usize>)
    requires
        t.wf(),
        i < t.nodes@.len(),
    ensures
        r == first_named(*t, t.children_of(i as int)),
        r matches Some(c) ==> c < i,
{
    let cs = &t.nodes[i].children;
    let mut k: usize = 0;
    assert(cs@.subrange(0, cs@.len() as int) =~= cs@);
    while k < cs.len()
        invariant
            t.wf(),
            i < t.nodes@.len(),
            cs@ == t.children_of(i as int),
            k <= cs@.len(),
            first_named(*t, cs@) == first_named(*t, cs@.subrange(k as int, cs@.len() as int)),
        decreases cs.len() - k,
    {
        let ghost rest = cs@.subrange(k as int, cs@.len() as int);
        assert(rest[0] == cs@[k as int]);
        assert(rest.drop_first() =~= cs@.subrange(k + 1, cs@.len() as int));
        proof {
            lemma_child_lt(*t, i as int, k as int);
        }
        let c = cs[k];
        if t.nodes[c].named {
            return Some(c);
        }
        k = k + 1;
    }
    None
}

/// Adds a `try`.
fn build_try(t: &SyntaxTree, i: usize, g: &mut CfgGraph) -> (r: Option<(usize, usize)>)
    requires
        t.wf(),
        rows_fit(*t),
        i < t.nodes@.len(),
    ensures
        (view_of(*final(g)), r) == try_cfg(*t, i as int, view_of(*old(g))),
        grew(*old(g), *final(g), r),
    decreases i, 4nat,
{
    let ghost g0 = *g;
    let body = match child_by_field(t, i, "body") {
        Some(b) => b,
        None => return None,
    };
    let body_result = build_block(t, body, g);
    let ghost g1 = *g;
    let cs = &t.nodes[i].children;
    let mut catches: Vec<(usize, usize)> = Vec::new();
    let mut k: usize = 0;
    assert(cs@.subrange(0, cs@.len() as int) =~= cs@);
    while k < cs.len()
        invariant
            t.wf(),
            rows_fit(*t),
            i < t.nodes@.len(),
            cs@ == t.children_of(i as int),
            k <= cs@.len(),
            cfg_blocks(*g).len() >= cfg_blocks(g1).len(),
            forall|j: int| 0 <= j < catches@.len() ==> (#[trigger] catches@[j]).0 < cfg_blocks(*g).len()
                && catches@[j].1 < cfg_blocks(*g).len(),
            try_catches(*t, cs@, i as int, view_of(g1), Seq::empty()) == try_catches(
                *t,
                cs@.subrange(k as int, cs@.len() as int),
                i as int,
                view_of(*g),
                catches@,
            ),
        decreases cs.len() - k,
    {
        let ghost rest = cs@.subrange(k as int, cs@.len() as int);
        assert(rest[0] == cs@[k as int]);
        assert(rest.drop_first() =~= cs@.subrange(k + 1, cs@.len() as int));
        proof {
            lemma_child_lt(*t, i as int, k as int);
        }
        let c = cs[k];
        if t.nodes[c].named && str_eq(t.nodes[c].kind.as_str(), "catch_clause") {
            match child_by_field(t, c, "body") {
                Some(cb) => {
                    match build_block(t, cb, g) {
                        Some(x) => {
                            catches.push(x);
                        },
                        None => {},
                    }
                },
                None => {},
            }
        }
        k = k + 1;
    }
    let ghost g2 = *g;
    let finally_result = match first_named_of_kind_exec(t, i, "finally_clause") {
        Some(f) => match first_named_exec(t, f) {
            Some(fb) => build_block(t, fb, g),
            None => None,
        },
        None => None,
    };
    assert((view_of(*g), finally_result) == finally_cfg(*t, i as int, view_of(g2)));
    let (bf, bl) = match body_result {
        Some(x) => x,
        None => return None,
    };
    let last = match finally_result {
        Some((_, fl)) => fl,
        None => if catches.len() > 0 {
            catches[catches.len() - 1].1
        } else {
            bl
        },
    };
    let ghost g3 = *g;
    let mut j: usize = 0;
    assert(catches@.subrange(0, catches@.len() as int) =~= catches@);
    while j < catches.len()
        invariant
            j <= catches@.len(),
            bl < cfg_blocks(*g).len(),
            cfg_blocks(*g).len() == cfg_blocks(g3).len(),
            forall|x: int| 0 <= x < catches@.len() ==> (#[trigger] catches@[x]).0 < cfg_blocks(*g).len()
                && catches@[x].1 < cfg_blocks(*g).len(),
            finally_result matches Some(ff) ==> ff.0 < cfg_blocks(*g).len(),
            catch_edges(view_of(g3), bl, catches@, finally_result) == catch_edges(
                view_of(*g),
                bl,
                catches@.subrange(j as int, catches@.len() as int),
                finally_result,
            ),
        decreases catches.len() - j,
    {
        let ghost rest = catches@.subrange(j as int, catches@.len() as int);
        assert(rest[0] == catches@[j as int]);
        assert(rest.drop_first() =~= catches@.subrange(j + 1, catches@.len() as int));
        let (cf, cl) = catches[j];
        add_edge(g, bl, cf, BlockEdge::Throw);
        match finally_result {
            Some((ff, _)) => {
                add_edge(g, cl, ff, BlockEdge::Finally);
            },
            None => {},
        }
        j = j + 1;
    }
    match finally_result {
        Some((ff, _)) => {
            add_edge(g, bl, ff, BlockEdge::Sequence);
        },
        None => {},
    }
    Some((bf, last))
}

/// Adds the graph of method node `m`.
fn build_method(t: &SyntaxTree, m: usize, g: &mut CfgGraph)
    requires
        t.wf(),
        rows_fit(*t),
        m < t.nodes@.len(),
    ensures
        view_of(*final(g)) == method_cfg(*t, m as int, view_of(*old(g))),
{
    match child_by_field(t, m, "body") {
        Some(b) => {
            if str_eq(t.nodes[b].kind.as_str(), "block") {
                let entry = add_block(g, t, m, BlockKind::Entry);
                let exit = add_block(g, t, m, BlockKind::Exit);
                match build_block(t, b, g) {
                    Some((f, l)) => {
                        add_edge(g, entry, f, BlockEdge::Sequence);
                        add_edge(g, l, exit, BlockEdge::Sequence);
                    },
                    None => {
                        add_edge(g, entry, exit, BlockEdge::Sequence);
                    },
                }
            }
        },
        None => {},
    }
}

/// Method and constructor declarations.
pub open spec fn is_cfg_method_kind(k: Seq<char>) -> bool {
    k == "method_declaration"@ || k == "constructor_declaration"@
}

/// The method and constructor declarations of the subtree at `i`, in
/// source order (a node before its descendants), descending only from
/// nodes less than `MAX_AST_DEPTH` deep.
pub open spec fn cfg_methods_at(nodes: Seq<SyntaxNode>, i: int) -> Seq<usize>
    decreases i, 1nat, 0nat,
{
    if 0 <= i < nodes.len() {
        (if is_cfg_method_kind(nodes[i].kind@) {
            seq![i as usize]
        } else {
            Seq::empty()
        }) + if nodes[i].depth < MAX_AST_DEPTH {
            cfg_methods_in(nodes, nodes[i].children@, i)
        } else {
            Seq::empty()
        }
    } else {
        Seq::empty()
    }
}

/// The method and constructor declarations of the subtrees at `cs`, all
/// below `bound`.
pub open spec fn cfg_methods_in(nodes: Seq<SyntaxNode>, cs: Seq<usize>, bound: int) -> Seq<usize>
    decreases bound, 0nat, cs.len(),
{
    if cs.len() == 0 || bound < 0 {
        Seq::empty()
    } else if cs[0] < bound {
        cfg_methods_at(nodes, cs[0] as int) + cfg_methods_in(nodes, cs.drop_first(), bound)
    } else {
        Seq::empty()
    }
}

fn collect_cfg_methods(t: &SyntaxTree, i: usize, out: &mut Vec<usize>)
    requires
        t.wf(),
        i < t.nodes@.len(),
    ensures
        final(out)@ == old(out)@ + cfg_methods_at(t.nodes@, i as int),
        forall|j: int| 0 <= j < final(out)@.len() && !(0 <= j < old(out)@.len()) ==> #[trigger] final(out)@[j] < t.nodes@.len(),
    decreases i,
{
    let ghost o = out@;
    let k = t.nodes[i].kind.as_str();
    if str_eq(k, "method_declaration") || str_eq(k, "constructor_declaration") {
        out.push(i);
    }
    let ghost o1 = out@;
    if t.nodes[i].depth < MAX_AST_DEPTH {
        let cs = &t.nodes[i].children;
        let mut j: usize = 0;
        assert(cs@.subrange(0, cs@.len() as int) =~= cs@);
        while j < cs.len()
            invariant
                t.wf(),
                i < t.nodes@.len(),
                cs@ == t.nodes@[i as int].children@,
                j <= cs@.len(),
                o1.len() >= o.len(),
                o1.subrange(0, o.len() as int) == o,
                out@.len() >= o1.len(),
                out@.subrange(0, o1.len() as int) == o1,
                forall|x: int| o.len() <= x < out@.len() ==> #[trigger] out@[x] < t.nodes@.len(),
                out@ + cfg_methods_in(t.nodes@, cs@.subrange(j as int, cs@.len() as int), i as int) == o1
                    + cfg_methods_in(t.nodes@, cs@, i as int),
            decreases cs.len() - j,
        {
            let ghost rest = cs@.subrange(j as int, cs@.len() as int);
            assert(rest[0] == cs@[j as int]);
            assert(rest.drop_first() =~= cs@.subrange(j + 1, cs@.len() as int));
            proof {
                lemma_child_lt(*t, i as int, j as int);
            }
            let c = cs[j];
            let ghost before = out@;
            collect_cfg_methods(t, c, out);
            assert(out@ + cfg_methods_in(t.nodes@, rest.drop_first(), i as int) =~= before + cfg_methods_in(
                t.nodes@,
                rest,
                i as int,
            ));
            assert(out@.subrange(0, o1.len() as int) =~= o1) by {
                assert(out@.subrange(0, before.len() as int) =~= before);
                assert forall|x: int| 0 <= x < o1.len() implies out@[x] == o1[x] by {
                    assert(out@[x] == before[x]);
                    assert(before[x] == o1[x]);
                }
            }
            j = j + 1;
        }
        assert(out@ =~= o1 + cfg_methods_in(t.nodes@, cs@, i as int));
    }
    assert(out@ =~= o + cfg_methods_at(t.nodes@, i as int));
}

/// The control flow graph of the methods of `t`: for each method or
/// constructor with a block body, in source order, an entry and an exit
/// block with the body's blocks between them.
pub fn cfg_of_tree(t: &SyntaxTree) -> (g: CfgGraph)
    requires
        t.wf(),
        rows_fit(*t),
    ensures
        view_of(g) == methods_cfg(
            *t,
            cfg_methods_at(t.nodes@, t.root as int),
            CfgView { blocks: Seq::empty(), edges: Seq::empty() },
        ),
{
    let mut ms: Vec<usize> = Vec::new();
    collect_cfg_methods(t, t.root, &mut ms);
    assert(ms@ =~= cfg_methods_at(t.nodes@, t.root as int));
    let mut g = cfg_new();
    let ghost g0 = g;
    assert(view_of(g0) == CfgView { blocks: Seq::<BasicBlock>::empty(), edges: Seq::<(usize, usize, BlockEdge)>::empty() });
    let mut k: usize = 0;
    assert(ms@.subrange(0, ms@.len() as int) =~= ms@);
    while k < ms.len()
        invariant
            t.wf(),
            rows_fit(*t),
            k <= ms@.len(),
            forall|x: int| 0 <= x < ms@.len() ==> #[trigger] ms@[x] < t.nodes@.len(),
            methods_cfg(*t, ms@, view_of(g0)) == methods_cfg(*t, ms@.subrange(k as int, ms@.len() as int), view_of(g)),
        decreases ms.len() - k,
    {
        let ghost rest = ms@.subrange(k as int, ms@.len() as int);
        assert(rest[0] == ms@[k as int]);
        assert(rest.drop_first() =~= ms@.subrange(k + 1, ms@.len() as int));
        build_method(t, ms[k], &mut g);
        k = k + 1;
    }
    g
}

/// Why no control flow graph was built.
#[derive(Debug)]
pub enum CfgError {
    /// The source did not parse
    Parse(ParseError),
    /// A node's line cannot be numbered
    LineOverflow,
}

/// The control flow graph of the methods of a source file.
pub fn build_cfg(source: &str) -> (r: Result<CfgGraph, CfgError>)
    ensures
        match r {
            Ok(g) => exists|t: SyntaxTree|
                t.wf() && parsed_from(t, source@) && rows_fit(t) && view_of(g) == methods_cfg(
                    t,
                    cfg_methods_at(t.nodes@, t.root as int),
                    CfgView { blocks: Seq::empty(), edges: Seq::empty() },
                ),
            Err(e) => e is LineOverflow && exists|t: SyntaxTree| t.wf() && parsed_from(t, source@) && !rows_fit(t),
        },
{
    match parse_source(source) {
        Ok(t) => {
            if !rows_fit_exec(&t) {
                return Err(CfgError::LineOverflow);
            }
            let g = cfg_of_tree(&t);
            Ok(g)
        },
        Err(e) => Err(CfgError::Parse(e)),
    }
}

/// Block ids are positions: in the control flow graph of a tree's methods,
/// the block at index `k` has id `k`.
pub proof fn law_block_ids(t: SyntaxTree, g: CfgGraph)
    requires
        view_of(g) == methods_cfg(
            t,
            cfg_methods_at(t.nodes@, t.root as int),
            CfgView { blocks: Seq::empty(), edges: Seq::empty() },
        ),
    ensures
        forall|k: int| 0 <= k < cfg_blocks(g).len() ==> (#[trigger] cfg_blocks(g)[k]).id == k as usize,
{
    let empty = CfgView { blocks: Seq::empty(), edges: Seq::empty() };
    lemma_methods_shape(t, cfg_methods_at(t.nodes@, t.root as int), empty);
}

/// One entry and one exit block per method: the graph of a tree's methods
/// has as many entry blocks, and as many exit blocks, as the tree has methods
/// and constructors with a block for their body.
pub proof fn law_entry_exit_counts(t: SyntaxTree, g: CfgGraph)
    requires
        view_of(g) == methods_cfg(
            t,
            cfg_methods_at(t.nodes@, t.root as int),
            CfgView { blocks: Seq::empty(), edges: Seq::empty() },
        ),
    ensures
        kind_count(cfg_blocks(g), BlockKind::Entry) == bodied_count(t, cfg_methods_at(t.nodes@, t.root as int)),
        kind_count(cfg_blocks(g), BlockKind::Exit) == bodied_count(t, cfg_methods_at(t.nodes@, t.root as int)),
{
    let empty = CfgView { blocks: Seq::empty(), edges: Seq::empty() };
    lemma_methods_shape(t, cfg_methods_at(t.nodes@, t.root as int), empty);
}

/// How entry and exit blocks are joined: in the graph of a tree's methods
/// no edge enters an entry block and exactly one edge, a `Sequence` edge,
/// leaves it; no edge leaves an exit block and exactly one edge, a
/// `Sequence` edge, enters it. Every edge joins two blocks of the graph.
pub proof fn law_entry_exit_edges(t: SyntaxTree, g: CfgGraph)
    requires
        view_of(g) == methods_cfg(
            t,
            cfg_methods_at(t.nodes@, t.root as int),
            CfgView { blocks: Seq::empty(), edges: Seq::empty() },
        ),
        cfg_blocks(g).len() <= usize::MAX,
    ensures
        ends_wired(view_of(g)),
        edges_closed(view_of(g)),
{
    let empty = CfgView { blocks: Seq::empty(), edges: Seq::empty() };
    lemma_methods_shape(t, cfg_methods_at(t.nodes@, t.root as int), empty);
}

} // verus!
