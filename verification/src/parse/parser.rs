//! Parsing C# source with tree-sitter into a `SyntaxTree`.

use vstd::prelude::*;
use crate::parse::syntax::{SyntaxNode, SyntaxTree, NodeView, arena_wf, node_view, node_views, text_view};

verus! {

#[verifier::external_type_specification]
#[verifier::external_body]
pub struct ExParser(tree_sitter::Parser);

#[verifier::external_type_specification]
#[verifier::external_body]
pub struct ExTree(tree_sitter::Tree);

#[verifier::external_type_specification]
#[verifier::external_body]
pub struct ExNode<'tree>(tree_sitter::Node<'tree>);

/// The text a tree-sitter tree was parsed from.
pub uninterp spec fn parsed_text(t: tree_sitter::Tree) -> Seq<char>;

/// Where a tree-sitter node stands: the text its tree was parsed from and
/// the child positions that lead to it from the root.
pub uninterp spec fn node_place(n: tree_sitter::Node<'_>) -> (Seq<char>, Seq<usize>);

/// The number of nodes of the subtree at `path` in the parse of `src`.
pub uninterp spec fn subtree_size(src: Seq<char>, path: Seq<usize>) -> nat;

/// The number of children of the node at `path` in the parse of `src`.
pub uninterp spec fn child_count_at(src: Seq<char>, path: Seq<usize>) -> usize;

/// The kind of the node at `path` in the parse of `src`.
pub uninterp spec fn kind_at(src: Seq<char>, path: Seq<usize>) -> Seq<char>;

/// The field name the node at `path` has under its parent, in the parse of
/// `src`.
pub uninterp spec fn field_at(src: Seq<char>, path: Seq<usize>) -> Option<Seq<char>>;

/// The text of `src` that the node at `path` spans, when it can be cut out.
pub uninterp spec fn text_at(src: Seq<char>, path: Seq<usize>) -> Option<Seq<char>>;

/// Whether the node at `path` in the parse of `src` is named.
pub uninterp spec fn named_at(src: Seq<char>, path: Seq<usize>) -> bool;

/// The first row of the node at `path` in the parse of `src`.
pub uninterp spec fn start_row_at(src: Seq<char>, path: Seq<usize>) -> usize;

/// The last row of the node at `path` in the parse of `src`.
pub uninterp spec fn end_row_at(src: Seq<char>, path: Seq<usize>) -> usize;

/// Parses `source` with a new `tree_sitter::Parser` set to the C# grammar of
/// `tree_sitter_c_sharp` (`Parser::new`, `Parser::set_language`,
/// `Parser::parse` with no earlier tree). The contract claims that a tree
/// comes back, and names it as the parse of `source`: `set_language`
/// refuses a grammar only when its ABI version lies outside 13 to 15, and
/// the C# grammar has version 15; `parse` gives no tree only without a
/// language, or when a timeout or a cancellation flag was set, and a new
/// parser has neither. The tree depends on the text alone.
#[verifier::external_body]
fn parse_csharp(source: &str) -> (r: Option<tree_sitter::Tree>)
    ensures
        r is Some,
        parsed_text(r.unwrap()) == source@,
{
    let mut p = tree_sitter::Parser::new();
    match p.set_language(&tree_sitter_c_sharp::LANGUAGE.into()) {
        Ok(()) => p.parse(source, None),
        Err(_) => None,
    }
}

/// `tree_sitter::Tree::root_node`: the node at the empty path of the
/// tree's text. Tree-sitter counts a node's descendants in a `u32`, so the
/// tree has at most `u32::MAX` nodes.
#[verifier::external_body]
fn root_of<'a>(t: &'a tree_sitter::Tree) -> (r: tree_sitter::Node<'a>)
    ensures
        node_place(r) == (parsed_text(*t), Seq::<usize>::empty()),
        subtree_size(node_place(r).0, node_place(r).1) <= u32::MAX,
{
    t.root_node()
}

/// `tree_sitter::Node::kind`, as an owned string.
#[verifier::external_body]
fn kind_of<'a>(n: &tree_sitter::Node<'a>) -> (r: String)
    ensures
        r@ == kind_at(node_place(*n).0, node_place(*n).1),
{
    n.kind().to_string()
}

/// `tree_sitter::Node::child_count` (a `u32` in tree-sitter).
#[verifier::external_body]
fn child_count_of<'a>(n: &tree_sitter::Node<'a>) -> (r: usize)
    ensures
        r == child_count_at(node_place(*n).0, node_place(*n).1),
        r <= u32::MAX,
{
    n.child_count()
}

/// `tree_sitter::Node::child` at a position below the child count: the
/// child there, one position further down, with a smaller subtree.
#[verifier::external_body]
fn child_of<'a>(n: &tree_sitter::Node<'a>, i: usize) -> (r: Option<tree_sitter::Node<'a>>)
    requires
        i < child_count_at(node_place(*n).0, node_place(*n).1),
    ensures
        r is Some,
        node_place(r.unwrap()) == (node_place(*n).0, node_place(*n).1.push(i)),
        subtree_size(node_place(r.unwrap()).0, node_place(r.unwrap()).1) < subtree_size(
            node_place(*n).0,
            node_place(*n).1,
        ),
{
    n.child(i)
}

/// `tree_sitter::Node::field_name_for_child` at a position below the
/// child count (which fits in a `u32`), as an owned string.
#[verifier::external_body]
fn field_name_of<'a>(n: &tree_sitter::Node<'a>, i: usize) -> (r: Option<String>)
    requires
        i < child_count_at(node_place(*n).0, node_place(*n).1),
        i <= u32::MAX,
    ensures
        text_view(r) == field_at(node_place(*n).0, node_place(*n).1.push(i)),
{
    match n.field_name_for_child(i as u32) {
        Some(s) => Some(s.to_string()),
        None => None,
    }
}

/// The text of `source`, the text the node's tree was parsed from, between
/// `tree_sitter::Node::start_byte` and `tree_sitter::Node::end_byte`, read
/// with `str::get`: `None` when that range is not within `source` or does
/// not fall on character boundaries.
#[verifier::external_body]
fn text_of<'a>(n: &tree_sitter::Node<'a>, source: &str) -> (r: Option<String>)
    requires
        source@ == node_place(*n).0,
    ensures
        text_view(r) == text_at(node_place(*n).0, node_place(*n).1),
{
    match source.get(n.start_byte()..n.end_byte()) {
        Some(s) => Some(s.to_string()),
        None => None,
    }
}

/// `tree_sitter::Node::is_named`.
#[verifier::external_body]
fn is_named_of<'a>(n: &tree_sitter::Node<'a>) -> (r: bool)
    ensures
        r == named_at(node_place(*n).0, node_place(*n).1),
{
    n.is_named()
}

/// `tree_sitter::Node::start_position`, its row.
#[verifier::external_body]
fn start_row_of<'a>(n: &tree_sitter::Node<'a>) -> (r: usize)
    ensures
        r == start_row_at(node_place(*n).0, node_place(*n).1),
{
    n.start_position().row
}

/// `tree_sitter::Node::end_position`, its row.
#[verifier::external_body]
fn end_row_of<'a>(n: &tree_sitter::Node<'a>) -> (r: usize)
    ensures
        r == end_row_at(node_place(*n).0, node_place(*n).1),
{
    n.end_position().row
}

/// The nodes of the subtree at `path` of the parse of `src`, appended to
/// `a` children first (each child's subtree in order, then the node), with
/// `field` as the node's field name and `depth` as its depth; `fuel` bounds
/// the recursion (enough when it exceeds the subtree's size).
pub open spec fn conv_node(
    src: Seq<char>,
    path: Seq<usize>,
    field: Option<Seq<char>>,
    depth: usize,
    a: Seq<NodeView>,
    fuel: nat,
) -> Seq<NodeView>
    decreases fuel, 0nat, 0nat,
{
    if fuel == 0 {
        a
    } else {
        let (a2, kids) = conv_kids(src, path, depth, 0, a, Seq::empty(), (fuel - 1) as nat);
        a2.push(
            NodeView {
                kind: kind_at(src, path),
                field,
                named: named_at(src, path),
                text: text_at(src, path),
                start_row: start_row_at(src, path),
                end_row: end_row_at(src, path),
                depth,
                children: kids,
            },
        )
    }
}

/// The children of the node at `path` from position `i` on, appended to
/// `a`, their positions appended to `kids`.
pub open spec fn conv_kids(
    src: Seq<char>,
    path: Seq<usize>,
    depth: usize,
    i: nat,
    a: Seq<NodeView>,
    kids: Seq<usize>,
    fuel: nat,
) -> (Seq<NodeView>, Seq<usize>)
    decreases fuel, 1nat, child_count_at(src, path) - i,
{
    if i >= child_count_at(src, path) {
        (a, kids)
    } else {
        let a2 = conv_node(
            src,
            path.push(i as usize),
            field_at(src, path.push(i as usize)),
            (depth + 1) as usize,
            a,
            fuel,
        );
        conv_kids(src, path, depth, i + 1, a2, kids.push((a2.len() - 1) as usize), fuel)
    }
}

/// The nodes of the parse of `source`, children first.
pub open spec fn csharp_nodes(source: Seq<char>) -> Seq<NodeView> {
    conv_node(source, Seq::empty(), None, 0, Seq::empty(), subtree_size(source, Seq::empty()) + 1)
}

/// `t` is the syntax tree of the parse of `source`.
pub open spec fn parsed_from(t: SyntaxTree, source: Seq<char>) -> bool {
    &&& node_views(t.nodes@) == csharp_nodes(source)
    &&& t.root + 1 == csharp_nodes(source).len()
}

/// Why a source could not be parsed.
#[derive(Debug)]
pub enum ParseError {
    /// The parser gave up
    Failed,
}

/// Copies the subtree of `n` into `arena`, children first. Returns the
/// node's position.
fn convert_node<'a>(
    n: &tree_sitter::Node<'a>,
    field: Option<String>,
    source: &str,
    depth: usize,
    arena: &mut Vec<SyntaxNode>,
    Ghost(fuel): Ghost<nat>,
) -> (r: usize)
    requires
        arena_wf(old(arena)@),
        source@ == node_place(*n).0,
        fuel > subtree_size(node_place(*n).0, node_place(*n).1),
        depth + subtree_size(node_place(*n).0, node_place(*n).1) <= u32::MAX,
    ensures
        arena_wf(final(arena)@),
        old(arena)@.len() <= r,
        r == final(arena)@.len() - 1,
        final(arena)@[r as int].depth == depth,
        forall|i: int| 0 <= i < old(arena)@.len() ==> #[trigger] final(arena)@[i] == old(arena)@[i],
        node_views(final(arena)@) == conv_node(
            node_place(*n).0,
            node_place(*n).1,
            text_view(field),
            depth,
            node_views(old(arena)@),
            fuel,
        ),
    decreases subtree_size(node_place(*n).0, node_place(*n).1),
{
    let ghost a0 = arena@;
    let ghost src = node_place(*n).0;
    let ghost path = node_place(*n).1;
    let mut children: Vec<usize> = Vec::new();
    let count = child_count_of(n);
    let mut i: usize = 0;
    assert(children@ =~= Seq::<usize>::empty());
    while i < count
        invariant
            arena_wf(arena@),
            a0.len() <= arena@.len(),
            source@ == src,
            src == node_place(*n).0,
            path == node_place(*n).1,
            count == child_count_at(src, path),
            count <= u32::MAX,
            i <= count,
            fuel > subtree_size(src, path),
            depth + subtree_size(src, path) <= u32::MAX,
            forall|j: int| 0 <= j < a0.len() ==> #[trigger] arena@[j] == a0[j],
            forall|k: int|
                0 <= k < children@.len() ==> (#[trigger] children@[k]) < arena@.len()
                    && arena@[children@[k] as int].depth == depth + 1,
            conv_kids(src, path, depth, 0, node_views(a0), Seq::empty(), (fuel - 1) as nat) == conv_kids(
                src,
                path,
                depth,
                i as nat,
                node_views(arena@),
                children@,
                (fuel - 1) as nat,
            ),
        decreases count - i,
    {
        let c = match child_of(n, i) {
            Some(c) => c,
            None => {
                proof {
                    assert(false);
                }
                return 0;
            },
        };
        let f = field_name_of(n, i);
        let ghost before = arena@;
        let ghost kids0 = children@;
        let ghost fv = text_view(f);
        let ci = convert_node(&c, f, source, depth + 1, arena, Ghost((fuel - 1) as nat));
        proof {
            assert forall|k: int| 0 <= k < children@.len() implies (#[trigger] children@[k]) < arena@.len()
                && arena@[children@[k] as int].depth == depth + 1 by {
                assert(arena@[children@[k] as int] == before[children@[k] as int]);
            }
            assert forall|j: int| 0 <= j < a0.len() implies #[trigger] arena@[j] == a0[j] by {
                assert(arena@[j] == before[j]);
            }
        }
        children.push(ci);
        proof {
            assert(node_views(arena@).len() == arena@.len());
            assert(conv_kids(src, path, depth, i as nat, node_views(before), kids0, (fuel - 1) as nat)
                == conv_kids(src, path, depth, (i + 1) as nat, node_views(arena@), children@, (fuel - 1) as nat));
        }
        i = i + 1;
    }
    proof {
        assert(conv_kids(src, path, depth, i as nat, node_views(arena@), children@, (fuel - 1) as nat) == (
        node_views(arena@), children@));
    }
    let ghost fv = text_view(field);
    let node = SyntaxNode {
        kind: kind_of(n),
        field,
        named: is_named_of(n),
        text: text_of(n, source),
        start_row: start_row_of(n),
        end_row: end_row_of(n),
        depth,
        children,
    };
    let ghost before = arena@;
    let ghost nv = node_view(node);
    arena.push(node);
    proof {
        assert forall|i: int, k: int|
            #![trigger arena@[i].children@[k]]
            0 <= i < arena@.len() && 0 <= k < arena@[i].children@.len() implies arena@[i].children@[k] < i
                && arena@[arena@[i].children@[k] as int].depth == arena@[i].depth + 1 by {
            if i < before.len() {
                assert(arena@[i] == before[i]);
                assert(arena@[before[i].children@[k] as int] == before[before[i].children@[k] as int]);
            } else {
                assert(arena@[arena@[i].children@[k] as int] == before[arena@[i].children@[k] as int]);
            }
        }
        assert(node_views(arena@) =~= node_views(before).push(nv));
        assert(nv == NodeView {
            kind: kind_at(src, path),
            field: fv,
            named: named_at(src, path),
            text: text_at(src, path),
            start_row: start_row_at(src, path),
            end_row: end_row_at(src, path),
            depth,
            children: children@,
        });
        assert(node_views(arena@) == conv_node(src, path, fv, depth, node_views(a0), fuel));
    }
    arena.len() - 1
}

/// Parses C# source into a well-formed syntax tree: the tree of its parse.
pub fn parse_source(source: &str) -> (r: Result<SyntaxTree, ParseError>)
    ensures
        r matches Ok(t) && t.wf() && parsed_from(t, source@),
{
    match parse_csharp(source) {
        Some(tree) => {
            let root = root_of(&tree);
            let mut nodes: Vec<SyntaxNode> = Vec::new();
            proof {
                assert(node_views(nodes@) =~= Seq::<NodeView>::empty());
            }
            let r = convert_node(
                &root,
                None,
                source,
                0,
                &mut nodes,
                Ghost(subtree_size(source@, Seq::empty()) + 1),
            );
            Ok(SyntaxTree { nodes, root: r })
        },
        None => Err(ParseError::Failed),
    }
}

} // verus!
