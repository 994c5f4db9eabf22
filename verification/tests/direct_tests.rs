use tiny_pdg_cs::parse::parser::parse_source;
use tiny_pdg_cs::parse::syntax::SyntaxTree;
use tiny_pdg_cs::parse::visitor::find_methods;
use tiny_pdg_cs::resolve::direct::{classify_call, resolve_direct};
use tiny_pdg_cs::resolve::di::classify_di_call;
use tiny_pdg_cs::resolve::dynamic::is_dynamic_call;
use tiny_pdg_cs::resolve::reflection::classify_reflection;
use tiny_pdg_cs::resolve::symbols::SymbolTable;
use tiny_pdg_cs::resolve::types::{CallTarget, Confidence};

fn first_of_kind(t: &SyntaxTree, kind: &str) -> Option<usize> {
    (0..t.nodes.len()).find(|&i| t.nodes[i].kind == kind)
}

#[test]
fn test_classify_static_call() {
    let src = "class C { void M() { Foo.Bar(); } }";
    let tree = parse_source(src).unwrap();
    let methods = find_methods(&tree);
    assert!(!methods.is_empty());
    let node = first_of_kind(&tree, "invocation_expression").expect("No invocation found");
    let target = classify_call(&tree, node);
    assert!(target.is_some());
    assert!(matches!(target.unwrap(), CallTarget::Static { class, method }
        if class == "Foo" && method == "Bar"
    ));
}

#[test]
fn test_classify_instance_call() {
    let src = "class C { void M() { this.Foo(); } }";
    let tree = parse_source(src).unwrap();
    let methods = find_methods(&tree);
    assert!(!methods.is_empty());
    let node = first_of_kind(&tree, "invocation_expression").expect("No invocation found");
    let target = classify_call(&tree, node);
    assert!(target.is_some());
    assert!(matches!(target.unwrap(), CallTarget::Instance { method }
        if method == "Foo"
    ));
}

#[test]
fn lowercase_receiver_is_an_instance_call() {
    let src = "class C { void M() { foo.Bar(); } }";
    let tree = parse_source(src).unwrap();
    let node = first_of_kind(&tree, "invocation_expression").unwrap();
    assert!(matches!(classify_call(&tree, node), Some(CallTarget::Instance { method }) if method == "Bar"));
}

#[test]
fn object_creation_is_a_constructor_call() {
    let src = "class C { void M() { var x = new Widget(); } }";
    let tree = parse_source(src).unwrap();
    let node = first_of_kind(&tree, "object_creation_expression").unwrap();
    assert!(matches!(classify_call(&tree, node), Some(CallTarget::Static { class, method })
        if class == "Widget" && method == ".ctor"));
}

#[test]
fn resolve_direct_static_site() {
    let src = "class C { void M() { Foo.Bar(); } }";
    let tree = parse_source(src).unwrap();
    let st = SymbolTable::from_ast(&tree);
    let node = first_of_kind(&tree, "invocation_expression").unwrap();
    let site = resolve_direct(&tree, node, "C.M", &st).unwrap();
    assert_eq!(site.caller, "C.M");
    assert_eq!(site.confidence, Confidence::Direct);
    assert_eq!(site.resolved.len(), 1);
    assert_eq!(site.resolved[0].class, "Foo");
    assert_eq!(site.resolved[0].method, "Bar");
    assert!(site.resolved[0].is_static);
}

#[test]
fn resolve_direct_instance_site_has_empty_class() {
    let src = "class C { void M() { Run(); } }";
    let tree = parse_source(src).unwrap();
    let st = SymbolTable::from_ast(&tree);
    let node = first_of_kind(&tree, "invocation_expression").unwrap();
    let site = resolve_direct(&tree, node, "C.M", &st).unwrap();
    assert_eq!(site.resolved[0].class, "");
    assert_eq!(site.resolved[0].method, "Run");
    assert!(!site.resolved[0].is_static);
}

#[test]
fn resolve_direct_ignores_other_nodes() {
    let src = "class C { void M() { } }";
    let tree = parse_source(src).unwrap();
    let st = SymbolTable::from_ast(&tree);
    assert!(resolve_direct(&tree, tree.root, "C.M", &st).is_none());
}

#[test]
fn test_classify_typeof_getmethod() {
    let src = "class C { void M() { typeof(Foo).GetMethod(\"Bar\"); } }";
    let tree = parse_source(src).unwrap();
    let found = (0..tree.nodes.len())
        .filter(|&i| tree.nodes[i].kind == "invocation_expression")
        .find_map(|i| match classify_reflection(&tree, i) {
            Some(CallTarget::Static { class, method }) => Some((class, method)),
            _ => None,
        });
    let (class, method) = found.expect("Expected to find typeof(Foo).GetMethod(\"Bar\") pattern");
    assert_eq!(class, "Foo");
    assert_eq!(method, "GetMethod");
}

#[test]
fn plain_call_is_no_reflection() {
    let src = "class C { void M() { Foo.Bar(); } }";
    let tree = parse_source(src).unwrap();
    let node = first_of_kind(&tree, "invocation_expression").unwrap();
    assert!(classify_reflection(&tree, node).is_none());
}

#[test]
fn di_call_needs_type_arguments_on_the_invocation() {
    let src = "class C { void M() { services.AddScoped<IFoo, Foo>(); provider.GetService<IFoo>(); } }";
    let tree = parse_source(src).unwrap();
    for i in 0..tree.nodes.len() {
        if tree.nodes[i].kind == "invocation_expression" {
            assert!(classify_di_call(&tree, i).is_none());
        }
    }
    assert!(classify_di_call(&tree, tree.root).is_none());
}

#[test]
fn dynamic_receiver_is_a_dynamic_call() {
    let src = "class C { void M() { dynamic.Invoke(); } }";
    let tree = parse_source(src).unwrap();
    let node = first_of_kind(&tree, "invocation_expression").unwrap();
    assert!(is_dynamic_call(&tree, node));
    assert!(!is_dynamic_call(&tree, tree.root));
}

#[test]
fn plain_call_is_not_dynamic() {
    let src = "class C { void M() { Foo(); obj.Bar(); } }";
    let tree = parse_source(src).unwrap();
    for i in 0..tree.nodes.len() {
        if tree.nodes[i].kind == "invocation_expression" {
            assert!(!is_dynamic_call(&tree, i));
        }
    }
}
