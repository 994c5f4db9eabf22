use tiny_pdg_cs::analysis::callgraph::{CallGraph, CallGraphBuilder};
use tiny_pdg_cs::parse::parser::parse_source;
use tiny_pdg_cs::parse::syntax::SyntaxTree;
use tiny_pdg_cs::parse::visitor::{find_methods, StmtKind};
use tiny_pdg_cs::resolve::symbols::SymbolTable;

fn graph_of(src: &str) -> (SymbolTable, CallGraph) {
    let tree = parse_source(src).unwrap();
    let st = SymbolTable::from_ast(&tree);
    let cg = CallGraphBuilder::build(&tree, &st.type_graph);
    (st, cg)
}

fn root_children(t: &SyntaxTree) -> Vec<usize> {
    t.nodes[t.root].children.clone()
}

#[test]
fn test_parse_empty_class() {
    let source = "class Foo { }";
    let tree = parse_source(source).unwrap();
    assert!(root_children(&tree).len() > 0);
}

#[test]
fn test_parse_method() {
    let source = "class Foo { void Bar() { int x = 1; } }";
    let tree = parse_source(source).unwrap();
    let class = root_children(&tree)[0];
    assert_eq!(tree.nodes[class].kind, "class_declaration");
}

#[test]
fn test_find_methods() {
    let source = "class Foo { void A() { } int B() => 1; }";
    let tree = parse_source(source).unwrap();
    let methods = find_methods(&tree);
    assert_eq!(methods.len(), 2);
}

#[test]
fn test_stmt_kind_from_node() {
    let source = "class Foo { void A() { if (x) { return; } } }";
    let tree = parse_source(source).unwrap();
    let mut seen_if = false;
    let mut seen_return = false;
    for n in &tree.nodes {
        match StmtKind::from_node(n) {
            StmtKind::If => seen_if = true,
            StmtKind::Return => seen_return = true,
            _ => {}
        }
    }
    assert!(seen_if && seen_return);
    let class = root_children(&tree)[0];
    assert_eq!(StmtKind::from_node(&tree.nodes[class]), StmtKind::Unknown("class_declaration".to_string()));
}

#[test]
fn test_syntax_tree_children_come_first() {
    let tree = parse_source("class C { void M() { a.b(c); } }").unwrap();
    for (i, n) in tree.nodes.iter().enumerate() {
        for &c in &n.children {
            assert!(c < i);
            assert_eq!(tree.nodes[c].depth, n.depth + 1);
        }
    }
    assert_eq!(tree.root, tree.nodes.len() - 1);
}

#[test]
fn test_callgraph_empty() {
    let cg = CallGraph::new();
    assert!(cg.calls.is_empty());
}

#[test]
fn test_callgraph_self_call() {
    let src = "class C { void A() { this.B(); } void B() { } }";
    let (_st, cg) = graph_of(src);
    assert!(cg.class_calls_method("C", "B"));
    assert_eq!(cg.calls.len(), 1);
    assert!(cg.calls[0].is_self_call);
}

#[test]
fn test_callgraph_creation() {
    let src = "class C { void M() { var x = new Foo(); } }";
    let (_st, cg) = graph_of(src);
    assert!(cg.class_creates_type("C", "Foo"));
    assert_eq!(cg.created_types("C"), vec!["Foo"]);
}

#[test]
fn test_callgraph_static_call() {
    let src = "class C { void M() { Singleton.GetInstance(); } }";
    let (_st, cg) = graph_of(src);
    assert!(cg.class_calls_method("C", "GetInstance"));
}

#[test]
fn test_callgraph_method_calls_per_method() {
    let src = "class C { void A() { B(); C(); } void B() { } void C() { } }";
    let (_st, cg) = graph_of(src);
    let key = "C.A";
    let calls = cg.method_calls.get(key).cloned().unwrap_or_default();
    assert!(calls.contains(&"B".to_string()));
    assert!(calls.contains(&"C".to_string()));
}

#[test]
fn test_null_conditional_call() {
    let src = "class C { void M() { x?.Foo(1); } }";
    let (_st, cg) = graph_of(src);
    assert!(cg.class_calls_method("C", "Foo"));
    let site = cg.calls.iter().find(|c| c.callee == "Foo").unwrap();
    assert_eq!(site.callee_class, "");
    assert_eq!(site.target_expr, "x");
}

#[test]
fn test_self_call_callee_class() {
    let src = "class C { void A() { this.B(); } void B() { } }";
    let (_st, cg) = graph_of(src);
    let site = cg.calls.iter().find(|c| c.callee == "B").unwrap();
    assert_eq!(site.callee_class, "C");
}

#[test]
fn test_static_call_callee_class() {
    let src = "class C { void M() { Singleton.GetInstance(); } } class Singleton { public static Singleton GetInstance() { return null; } }";
    let (_st, cg) = graph_of(src);
    let site = cg.calls.iter().find(|c| c.callee == "GetInstance").unwrap();
    assert_eq!(site.callee_class, "Singleton");
}

#[test]
fn test_implicit_call_callee_class() {
    let src = "class C { void A() { B(); } void B() { } }";
    let (_st, cg) = graph_of(src);
    let site = cg.calls.iter().find(|c| c.callee == "B").unwrap();
    assert_eq!(site.callee_class, "C");
}

#[test]
fn test_call_line_and_delegates() {
    let src = "class C {\n void A() {\n  Run(\"/x\", B);\n }\n void B() { }\n void Run(string p, object d) { }\n}";
    let (_st, cg) = graph_of(src);
    let site = cg.calls.iter().find(|c| c.callee == "Run").unwrap();
    assert_eq!(site.line, 3);
    assert_eq!(site.delegates, vec!["B".to_string()]);
    assert_eq!(site.caller_method, "A");
}

#[test]
fn test_symbol_table_empty() {
    let st = SymbolTable::new();
    assert_eq!(st.type_graph.classes.len(), 0);
}

#[test]
fn test_symbol_table_from_simple_class() {
    let src = "class Foo { void Bar() { } }";
    let tree = parse_source(src).unwrap();
    let st = SymbolTable::from_ast(&tree);
    assert!(st.type_graph.contains_class("Foo"));
    if let Some(cls) = st.type_graph.get_class("Foo") {
        assert_eq!(cls.methods.len(), 1);
        assert_eq!(cls.methods[0].method, "Bar");
    }
}

#[test]
fn test_symbol_table_detects_virtual() {
    let src = "class Base { virtual void Foo() { } }";
    let tree = parse_source(src).unwrap();
    let st = SymbolTable::from_ast(&tree);
    if let Some(cls) = st.type_graph.get_class("Base") {
        assert!(cls.methods[0].is_virtual);
    }
}

#[test]
fn test_symbol_table_interface_implementation() {
    let src = "interface IFoo { void Bar(); } class Foo : IFoo { public void Bar() { } }";
    let tree = parse_source(src).unwrap();
    let st = SymbolTable::from_ast(&tree);
    assert!(st.type_graph.contains_interface("IFoo"));
    if let Some(cls) = st.type_graph.get_class("Foo") {
        assert_eq!(cls.interfaces, vec!["IFoo"]);
    }
}

#[test]
fn test_symbol_table_multiple_interfaces() {
    let src = "interface IA { void A(); } interface IB { void B(); } class Foo : IA, IB { public void A() { } public void B() { } }";
    let tree = parse_source(src).unwrap();
    let st = SymbolTable::from_ast(&tree);
    if let Some(cls) = st.type_graph.get_class("Foo") {
        assert!(cls.interfaces.contains(&"IA".to_string()));
        assert!(cls.interfaces.contains(&"IB".to_string()));
    }
}

#[test]
fn test_symbol_table_base_class_and_interfaces() {
    let src = "interface IFoo { void Bar(); } class Base { } class Derived : Base, IFoo { public void Bar() { } }";
    let tree = parse_source(src).unwrap();
    let st = SymbolTable::from_ast(&tree);
    if let Some(cls) = st.type_graph.get_class("Derived") {
        assert_eq!(cls.base_class, Some("Base".to_string()));
        assert_eq!(cls.interfaces, vec!["IFoo"]);
    }
}

#[test]
fn test_symbol_table_signature_and_lines() {
    let src = "class Foo {\n  public static int Add(int a, string b) { return 0; }\n}";
    let tree = parse_source(src).unwrap();
    let st = SymbolTable::from_ast(&tree);
    let cls = st.type_graph.get_class("Foo").unwrap();
    let m = &cls.methods[0];
    assert_eq!(m.signature, "int Add(int, string)");
    assert!(m.is_static);
    assert_eq!(m.line_start, 2);
    assert_eq!(m.line_end, 2);
    assert!(st.base_types.is_empty());
}

#[test]
fn test_symbol_table_merges_partial_classes() {
    let src = "partial class P { void A() { } } partial class P { void B() { } }";
    let tree = parse_source(src).unwrap();
    let st = SymbolTable::from_ast(&tree);
    assert_eq!(st.type_graph.classes.len(), 1);
    let cls = st.type_graph.get_class("P").unwrap();
    assert_eq!(cls.methods.len(), 2);
}

#[test]
fn test_symbol_table_modifiers() {
    let src = "public abstract class A { } sealed class S { } static class U { }";
    let tree = parse_source(src).unwrap();
    let st = SymbolTable::from_ast(&tree);
    assert!(st.type_graph.get_class("A").unwrap().is_abstract);
    assert!(st.type_graph.get_class("S").unwrap().is_sealed);
    assert!(st.type_graph.get_class("U").unwrap().is_static);
    assert!(!st.type_graph.get_class("S").unwrap().is_abstract);
}

#[test]
fn creation_count_counts_new_expressions() {
    let src = "class C { void M() { var x = new Foo(); var y = new Foo(); var z = new Bar(); } } class D { void N() { new Foo().Run(); } }";
    let (_st, cg) = graph_of(src);
    assert_eq!(cg.creation_count("C", "Foo"), 2);
    assert_eq!(cg.creation_count("C", "Bar"), 1);
    assert_eq!(cg.creation_count("C", "Baz"), 0);
    assert_eq!(cg.creation_count("D", "Foo"), 1);
    assert_eq!(cg.created_types("C"), vec!["Foo", "Bar"]);
}

#[test]
fn merged_graphs_keep_per_method_lists() {
    let (_a, mut cg) = graph_of("class C { void M() { A(); B(); } }");
    let (_b, other) = graph_of("class C { void M() { C(); } void N() { new Foo(); } }");
    cg.absorb(other);
    assert_eq!(
        cg.method_calls.get("C.M").unwrap(),
        &vec!["A".to_string(), "B".to_string(), "C".to_string()]
    );
    assert_eq!(cg.creation_count("C", "Foo"), 1);
}

#[test]
fn impact_of_a_recursive_method_is_a_graph() {
    let (_st, cg) = graph_of("class C { void M() { M(); } void N() { M(); } }");
    let g = tiny_pdg_cs::analysis::impact::impact_of(&cg, "C", "M").unwrap();
    let ids: Vec<&str> = g.nodes.iter().map(|n| n.0.as_str()).collect();
    assert_eq!(ids, vec!["C.M", "C.N"]);
    assert_eq!(g.nodes[0].1 .0, 2);
    assert_eq!(g.target, "C.M");
    assert!(g.edges.contains(&("C.M".to_string(), "C.M".to_string())));
    assert!(g.edges.contains(&("C.N".to_string(), "C.M".to_string())));
}
