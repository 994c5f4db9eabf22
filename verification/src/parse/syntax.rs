//! A C# syntax tree held as plain values: an arena of nodes in post-order
//! (every node after its children), each with its kind, the field name it
//! has under its parent, its source text and its rows.

use vstd::prelude::*;
use crate::text::str_eq;

verus! {

/// One node of a syntax tree.
#[derive(Debug)]
pub struct SyntaxNode {
    /// The grammar kind, e.g. `class_declaration`
    pub kind: String,
    /// The field name this node has under its parent, if any
    pub field: Option<String>,
    /// Whether the node is named in the grammar (not an anonymous token)
    pub named: bool,
    /// The source text the node spans (absent when it is not valid UTF-8)
    pub text: Option<String>,
    /// First row (0-based)
    pub start_row: usize,
    /// Last row (0-based)
    pub end_row: usize,
    /// Distance from the root
    pub depth: usize,
    /// Positions of the children in the arena, in source order
    pub children: Vec<usize>,
}

/// A syntax tree: the nodes in post-order and the root's position.
#[derive(Debug)]
pub struct SyntaxTree {
    pub nodes: Vec<SyntaxNode>,
    pub root: usize,
}

/// Every child comes before its parent and is one level deeper.
pub open spec fn arena_wf(nodes: Seq<SyntaxNode>) -> bool {
    forall|i: int, k: int|
        #![trigger nodes[i].children@[k]]
        0 <= i < nodes.len() && 0 <= k < nodes[i].children@.len() ==> nodes[i].children@[k] < i
            && nodes[nodes[i].children@[k] as int].depth == nodes[i].depth + 1
}

impl SyntaxTree {
    /// The arena is well formed and the root is in it.
    pub open spec fn wf(self) -> bool {
        &&& arena_wf(self.nodes@)
        &&& self.root < self.nodes@.len()
    }

    /// The node at position `i`.
    pub open spec fn node(self, i: int) -> SyntaxNode {
        self.nodes@[i]
    }

    /// The kind of node `i`.
    pub open spec fn kind_of(self, i: int) -> Seq<char> {
        self.nodes@[i].kind@
    }

    /// The children of node `i`.
    pub open spec fn children_of(self, i: int) -> Seq<usize> {
        self.nodes@[i].children@
    }
}

/// The view of an optional text.
pub open spec fn text_view(t: Option<String>) -> Option<Seq<char>> {
    match t {
        Some(s) => Some(s@),
        None => None,
    }
}

/// A syntax node as plain values.
pub struct NodeView {
    pub kind: Seq<char>,
    pub field: Option<Seq<char>>,
    pub named: bool,
    pub text: Option<Seq<char>>,
    pub start_row: usize,
    pub end_row: usize,
    pub depth: usize,
    pub children: Seq<usize>,
}

/// The plain values of a node.
pub open spec fn node_view(n: SyntaxNode) -> NodeView {
    NodeView {
        kind: n.kind@,
        field: text_view(n.field),
        named: n.named,
        text: text_view(n.text),
        start_row: n.start_row,
        end_row: n.end_row,
        depth: n.depth,
        children: n.children@,
    }
}

/// The plain values of an arena of nodes.
pub open spec fn node_views(s: Seq<SyntaxNode>) -> Seq<NodeView> {
    s.map_values(|n: SyntaxNode| node_view(n))
}

/// The first child of `i` whose field name is `field`.
pub open spec fn field_child(t: SyntaxTree, i: int, field: Seq<char>) -> Option<usize> {
    first_with_field(t.nodes@, t.children_of(i), field)
}

/// The first of `cs` whose field name is `field`.
pub open spec fn first_with_field(nodes: Seq<SyntaxNode>, cs: Seq<usize>, field: Seq<char>) -> Option<usize>
    decreases cs.len(),
{
    if cs.len() == 0 {
        None
    } else if text_view(nodes[cs[0] as int].field) == Some(field) {
        Some(cs[0])
    } else {
        first_with_field(nodes, cs.drop_first(), field)
    }
}

/// The text of the first child of `i` with field name `field`.
pub open spec fn field_text(t: SyntaxTree, i: int, field: Seq<char>) -> Option<Seq<char>> {
    match field_child(t, i, field) {
        Some(c) => text_view(t.nodes@[c as int].text),
        None => None,
    }
}

/// The first child of node `i` with field name `field`.
pub fn child_by_field(t: &SyntaxTree, i: usize, field: &str) -> (r: Option<usize>)
    requires
        t.wf(),
        i < t.nodes@.len(),
    ensures
        r == field_child(*t, i as int, field@),
        r matches Some(c) ==> c < i,
{
    let cs = &t.nodes[i].children;
    let mut k: usize = 0;
    assert(cs@.subrange(0, cs@.len() as int) =~= cs@);
    while k < cs.len()
        invariant
            t.wf(),
            i < t.nodes@.len(),
            cs@ == t.children_of(i as int),
            k <= cs@.len(),
            field_child(*t, i as int, field@) == first_with_field(
                t.nodes@,
                cs@.subrange(k as int, cs@.len() as int),
                field@,
            ),
        decreases cs.len() - k,
    {
        let ghost rest = cs@.subrange(k as int, cs@.len() as int);
        assert(rest[0] == cs@[k as int]);
        assert(rest.drop_first() =~= cs@.subrange(k + 1, cs@.len() as int));
        let c = cs[k];
        assert(c < i) by {
            assert(t.nodes@[i as int].children@[k as int] == c);
        }
        match &t.nodes[c].field {
            Some(f) => {
                if str_eq(f.as_str(), field) {
                    return Some(c);
                }
            },
            None => {},
        }
        k = k + 1;
    }
    None
}

/// The text of the first child of node `i` with field name `field`.
pub fn field_text_of(t: &SyntaxTree, i: usize, field: &str) -> (r: Option<String>)
    requires
        t.wf(),
        i < t.nodes@.len(),
    ensures
        text_view(r) == field_text(*t, i as int, field@),
{
    match child_by_field(t, i, field) {
        Some(c) => match &t.nodes[c].text {
            Some(s) => Some(s.clone()),
            None => None,
        },
        None => None,
    }
}

/// Whether the kind of node `i` is `kind`.
pub fn is_kind(t: &SyntaxTree, i: usize, kind: &str) -> (r: bool)
    requires
        i < t.nodes@.len(),
    ensures
        r == (t.kind_of(i as int) == kind@),
{
    str_eq(t.nodes[i].kind.as_str(), kind)
}

} // verus!
