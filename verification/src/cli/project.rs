//! One source file's share of a project: its types and its calls.

use vstd::prelude::*;
use crate::resolve::types::{TypeGraph, class_views, interface_views};
use crate::resolve::symbols::{SymbolTable, SymbolsView, resolve_spec, visit_spec, decls_at};
use crate::analysis::callgraph::{CallGraph, CallGraphBuilder, state_of, outside_scope, build_at, initial_state};
use crate::parse::syntax::SyntaxTree;
use crate::parse::parser::{parse_source, parsed_from};

verus! {

/// The symbols of a syntax tree.
pub open spec fn symbols_of(t: SyntaxTree) -> SymbolsView {
    resolve_spec(visit_spec(SymbolTable::new_view(), t, decls_at(t, t.root as int)))
}

/// `tg` holds the types of the tree `t` and `cg` its calls.
pub open spec fn unit_of(t: SyntaxTree, tg: TypeGraph, cg: CallGraph) -> bool {
    &&& class_views(tg.classes@) == symbols_of(t).classes
    &&& interface_views(tg.interfaces@) == symbols_of(t).interfaces
    &&& state_of(Seq::empty(), Seq::empty(), cg) == outside_scope(build_at(initial_state(), t, t.root as int, tg))
}

/// The types and calls of a syntax tree.
pub fn analyze_tree(t: &SyntaxTree) -> (r: (TypeGraph, CallGraph))
    requires
        t.wf(),
    ensures
        unit_of(*t, r.0, r.1),
{
    let st = SymbolTable::from_ast(t);
    let tg = st.type_graph;
    let cg = CallGraphBuilder::build(t, &tg);
    (tg, cg)
}

/// The types and calls of a source file (always found: every source
/// parses).
pub fn analyze_source(source: &str) -> (r: Option<(TypeGraph, CallGraph)>)
    ensures
        r matches Some(u) && exists|t: SyntaxTree| t.wf() && parsed_from(t, source@) && unit_of(t, u.0, u.1),
{
    match parse_source(source) {
        Ok(t) => {
            let u = analyze_tree(&t);
            Some(u)
        },
        Err(_) => None,
    }
}

} // verus!
