//! Statement kinds and method discovery over a syntax tree.

use vstd::prelude::*;
use crate::text::str_eq;
use crate::parse::syntax::{SyntaxNode, SyntaxTree, arena_wf};

verus! {

/// How deep a walk of the syntax tree descends.
pub const MAX_AST_DEPTH: usize = 500;

/// C# statement kinds.
#[derive(Debug, PartialEq, Eq)]
pub enum StmtKind {
    If,
    Else,
    For,
    ForEach,
    While,
    DoWhile,
    Switch,
    Try,
    Catch,
    Finally,
    Using,
    Lock,
    Return,
    Throw,
    Break,
    Continue,
    Expression,
    Declaration,
    Block,
    Unsafe,
    Fixed,
    Checked,
    Unchecked,
    YieldReturn,
    YieldBreak,
    Goto,
    Labeled,
    LocalFunction,
    Unknown(String),
}

/// The statement kind of a node of kind `k`: the known statement kinds by
/// name, anything else `Unknown` with the name.
pub open spec fn stmt_kind_is(r: StmtKind, k: Seq<char>) -> bool {
    if k == "if_statement"@ {
        r is If
    } else if k == "else_clause"@ {
        r is Else
    } else if k == "for_statement"@ {
        r is For
    } else if k == "for_each_statement"@ {
        r is ForEach
    } else if k == "while_statement"@ {
        r is While
    } else if k == "do_statement"@ {
        r is DoWhile
    } else if k == "switch_statement"@ {
        r is Switch
    } else if k == "try_statement"@ {
        r is Try
    } else if k == "catch_clause"@ {
        r is Catch
    } else if k == "finally_clause"@ {
        r is Finally
    } else if k == "using_statement"@ {
        r is Using
    } else if k == "lock_statement"@ {
        r is Lock
    } else if k == "return_statement"@ {
        r is Return
    } else if k == "throw_statement"@ {
        r is Throw
    } else if k == "break_statement"@ {
        r is Break
    } else if k == "continue_statement"@ {
        r is Continue
    } else if k == "expression_statement"@ {
        r is Expression
    } else if k == "local_declaration_statement"@ {
        r is Declaration
    } else if k == "block"@ {
        r is Block
    } else {
        r matches StmtKind::Unknown(s) && s@ == k
    }
}

impl StmtKind {
    /// The statement kind of a node.
    pub fn from_node(node: &SyntaxNode) -> (r: StmtKind)
        ensures
            stmt_kind_is(r, node.kind@),
    {
        let k = node.kind.as_str();
        if str_eq(k, "if_statement") {
            StmtKind::If
        } else if str_eq(k, "else_clause") {
            StmtKind::Else
        } else if str_eq(k, "for_statement") {
            StmtKind::For
        } else if str_eq(k, "for_each_statement") {
            StmtKind::ForEach
        } else if str_eq(k, "while_statement") {
            StmtKind::While
        } else if str_eq(k, "do_statement") {
            StmtKind::DoWhile
        } else if str_eq(k, "switch_statement") {
            StmtKind::Switch
        } else if str_eq(k, "try_statement") {
            StmtKind::Try
        } else if str_eq(k, "catch_clause") {
            StmtKind::Catch
        } else if str_eq(k, "finally_clause") {
            StmtKind::Finally
        } else if str_eq(k, "using_statement") {
            StmtKind::Using
        } else if str_eq(k, "lock_statement") {
            StmtKind::Lock
        } else if str_eq(k, "return_statement") {
            StmtKind::Return
        } else if str_eq(k, "throw_statement") {
            StmtKind::Throw
        } else if str_eq(k, "break_statement") {
            StmtKind::Break
        } else if str_eq(k, "continue_statement") {
            StmtKind::Continue
        } else if str_eq(k, "expression_statement") {
            StmtKind::Expression
        } else if str_eq(k, "local_declaration_statement") {
            StmtKind::Declaration
        } else if str_eq(k, "block") {
            StmtKind::Block
        } else {
            StmtKind::Unknown(String::from_str(k))
        }
    }
}

/// Kinds of method-like declarations.
pub open spec fn is_method_kind(k: Seq<char>) -> bool {
    k == "method_declaration"@ || k == "constructor_declaration"@ || k == "local_function_statement"@
}

/// The method-like declarations of the subtree at `i`, in source order
/// (a node before its descendants), descending only from nodes less than
/// `MAX_AST_DEPTH` deep.
pub open spec fn methods_at(nodes: Seq<SyntaxNode>, i: int) -> Seq<usize>
    decreases i, 1nat, 0nat,
{
    if 0 <= i < nodes.len() {
        (if is_method_kind(nodes[i].kind@) {
            seq![i as usize]
        } else {
            Seq::empty()
        }) + if nodes[i].depth < MAX_AST_DEPTH {
            methods_in(nodes, nodes[i].children@, i)
        } else {
            Seq::empty()
        }
    } else {
        Seq::empty()
    }
}

/// The method-like declarations of the subtrees at `cs`, all below `bound`.
pub open spec fn methods_in(nodes: Seq<SyntaxNode>, cs: Seq<usize>, bound: int) -> Seq<usize>
    decreases bound, 0nat, cs.len(),
{
    if cs.len() == 0 || bound < 0 {
        Seq::empty()
    } else if cs[0] < bound {
        methods_at(nodes, cs[0] as int) + methods_in(nodes, cs.drop_first(), bound)
    } else {
        Seq::empty()
    }
}

fn collect_methods_at(t: &SyntaxTree, i: usize, out: &mut Vec<usize>)
    requires
        t.wf(),
        i < t.nodes@.len(),
    ensures
        final(out)@ == old(out)@ + methods_at(t.nodes@, i as int),
    decreases i, 1nat,
{
    let ghost o = out@;
    let k = t.nodes[i].kind.as_str();
    if str_eq(k, "method_declaration") || str_eq(k, "constructor_declaration") || str_eq(k, "local_function_statement") {
        out.push(i);
    }
    let ghost o1 = out@;
    if t.nodes[i].depth < MAX_AST_DEPTH {
        let cs = &t.nodes[i].children;
        let mut j: usize = 0;
        assert(cs@.subrange(0, cs@.len() as int) =~= cs@);
        while j < cs.len()
            invariant
                t.wf(),
                i < t.nodes@.len(),
                cs@ == t.nodes@[i as int].children@,
                j <= cs@.len(),
                out@ + methods_in(t.nodes@, cs@.subrange(j as int, cs@.len() as int), i as int) == o1
                    + methods_in(t.nodes@, cs@, i as int),
            decreases cs.len() - j,
        {
            let ghost rest = cs@.subrange(j as int, cs@.len() as int);
            assert(rest[0] == cs@[j as int]);
            assert(rest.drop_first() =~= cs@.subrange(j + 1, cs@.len() as int));
            let c = cs[j];
            assert(c < i) by {
                assert(t.nodes@[i as int].children@[j as int] == c);
            }
            let ghost before = out@;
            collect_methods_at(t, c, out);
            assert(out@ + methods_in(t.nodes@, rest.drop_first(), i as int) =~= before + methods_in(
                t.nodes@,
                rest,
                i as int,
            ));
            j = j + 1;
        }
        assert(out@ =~= o1 + methods_in(t.nodes@, cs@, i as int));
    }
    assert(out@ =~= o + methods_at(t.nodes@, i as int));
}

/// All method, constructor and local function declarations of the tree,
/// in source order.
pub fn find_methods(t: &SyntaxTree) -> (r: Vec<usize>)
    requires
        t.wf(),
    ensures
        r@ == methods_at(t.nodes@, t.root as int),
{
    let mut out: Vec<usize> = Vec::new();
    collect_methods_at(t, t.root, &mut out);
    assert(out@ =~= methods_at(t.nodes@, t.root as int));
    out
}

} // verus!
