use tiny_pdg_cs::analysis::callgraph::CallGraphBuilder;
use tiny_pdg_cs::detect::behavioral::detect_behavioral;
use tiny_pdg_cs::detect::creational::detect_creational;
use tiny_pdg_cs::detect::structural::detect_structural;
use tiny_pdg_cs::detect::types::{DetectionContext, PatternKind, PatternMatch};
use tiny_pdg_cs::parse::parser::parse_source;
use tiny_pdg_cs::resolve::symbols::SymbolTable;
use tiny_pdg_cs::resolve::types::{ClassInfo, InterfaceInfo, MethodDescriptor, TypeGraph};

fn md(class: &str, method: &str, sig: &str, is_static: bool, is_virtual: bool, is_abstract: bool) -> MethodDescriptor {
    MethodDescriptor {
        class: class.into(),
        method: method.into(),
        signature: sig.into(),
        is_static,
        is_virtual,
        is_abstract,
        file: String::new(),
        line_start: 0,
        line_end: 0,
    }
}

fn plain(class: &str, method: &str, sig: &str) -> MethodDescriptor {
    md(class, method, sig, false, false, false)
}

fn class(name: &str, base: Option<&str>, ifaces: &[&str], methods: Vec<MethodDescriptor>, is_abstract: bool) -> ClassInfo {
    ClassInfo {
        name: name.into(),
        base_class: base.map(|b| b.to_string()),
        interfaces: ifaces.iter().map(|s| s.to_string()).collect(),
        methods,
        fields: vec![],
        is_abstract,
        is_sealed: false,
        is_static: false,
    }
}

fn iface(name: &str, methods: Vec<MethodDescriptor>) -> InterfaceInfo {
    InterfaceInfo { name: name.into(), methods }
}

fn has(r: &[PatternMatch], k: PatternKind) -> bool {
    r.iter().any(|m| m.pattern == k)
}

#[test]
fn test_pattern_kind_display() {
    assert_eq!(PatternKind::Singleton.to_string(), "Singleton");
    assert_eq!(PatternKind::Strategy.to_string(), "Strategy");
    assert_eq!(PatternKind::DotnetMediator.to_string(), "DotnetMediator");
    assert_eq!(PatternKind::ControllerApi.to_string(), "ControllerApi");
    assert_eq!(PatternKind::MinimalApi.to_string(), "MinimalApi");
}

#[test]
fn test_singleton_instance_returns_self() {
    let mut tg = TypeGraph::new();
    tg.insert_class(class("Config", None, &[], vec![md("Config", "get_Instance", "Config get_Instance", true, false, false)], false));
    let ctx = DetectionContext::new(&tg, "");
    let r = detect_creational(&ctx);
    assert!(has(&r, PatternKind::Singleton));
}

#[test]
fn test_factory_method_returns_interface() {
    let mut tg = TypeGraph::new();
    tg.insert_interface(iface("IService", vec![]));
    tg.insert_class(class("Factory", None, &[], vec![plain("Factory", "Make", "IService Make")], false));
    let ctx = DetectionContext::new(&tg, "");
    let r = detect_creational(&ctx);
    assert!(has(&r, PatternKind::FactoryMethod));
}

#[test]
fn test_abstract_factory_interface() {
    let mut tg = TypeGraph::new();
    tg.insert_interface(iface(
        "IWidgetFactory",
        vec![
            plain("IWidgetFactory", "MakeButton", "IButton MakeButton"),
            plain("IWidgetFactory", "MakeDialog", "IDialog MakeDialog"),
        ],
    ));
    tg.insert_interface(iface("IButton", vec![]));
    tg.insert_interface(iface("IDialog", vec![]));
    let ctx = DetectionContext::new(&tg, "");
    let r = detect_creational(&ctx);
    assert!(has(&r, PatternKind::AbstractFactory));
}

#[test]
fn test_builder_fluent_methods() {
    let mut tg = TypeGraph::new();
    tg.insert_class(class(
        "HtmlBuilder",
        None,
        &[],
        vec![
            plain("HtmlBuilder", "SetTitle", "HtmlBuilder SetTitle"),
            plain("HtmlBuilder", "SetBody", "HtmlBuilder SetBody"),
            plain("HtmlBuilder", "Build", "string Build"),
        ],
        false,
    ));
    let ctx = DetectionContext::new(&tg, "");
    let r = detect_creational(&ctx);
    assert!(has(&r, PatternKind::Builder));
}

#[test]
fn test_prototype_icloneable() {
    let mut tg = TypeGraph::new();
    tg.insert_class(class("Entity", None, &["ICloneable"], vec![], false));
    let ctx = DetectionContext::new(&tg, "");
    let r = detect_creational(&ctx);
    assert!(has(&r, PatternKind::Prototype));
}

#[test]
fn test_composite_with_add_and_implementors() {
    let mut tg = TypeGraph::new();
    tg.insert_interface(iface(
        "IComponent",
        vec![plain("IComponent", "Add", "IComponent Add"), plain("IComponent", "Render", "void Render")],
    ));
    tg.insert_class(class("Leaf", None, &["IComponent"], vec![plain("Leaf", "Render", "void Render")], false));
    tg.insert_class(class(
        "Composite",
        None,
        &["IComponent"],
        vec![plain("Composite", "Add", "void Add"), plain("Composite", "Render", "void Render")],
        false,
    ));
    let ctx = DetectionContext::new(&tg, "");
    let r = detect_structural(&ctx);
    assert!(has(&r, PatternKind::Composite));
}

#[test]
fn test_facade_many_methods_no_interfaces() {
    let mut tg = TypeGraph::new();
    let methods: Vec<MethodDescriptor> = (0..5)
        .map(|i| plain("OrderService", &format!("Method{}", i), &format!("void Method{}", i)))
        .collect();
    tg.insert_class(class("OrderService", None, &[], methods, false));
    let ctx = DetectionContext::new(&tg, "");
    let r = detect_structural(&ctx);
    assert!(has(&r, PatternKind::Facade));
}

#[test]
fn test_bridge_abstract_with_subclasses() {
    let mut tg = TypeGraph::new();
    tg.insert_interface(iface("IDraw", vec![]));
    tg.insert_class(class("Shape", None, &["IDraw"], vec![md("Shape", "Draw", "void Draw", false, true, false)], true));
    tg.insert_class(class("Circle", Some("Shape"), &[], vec![plain("Circle", "Draw", "void Draw")], false));
    tg.insert_class(class("Square", Some("Shape"), &[], vec![plain("Square", "Draw", "void Draw")], false));
    let ctx = DetectionContext::new(&tg, "");
    let r = detect_structural(&ctx);
    assert!(has(&r, PatternKind::Bridge));
}

#[test]
fn test_command_single_method_interface() {
    let mut tg = TypeGraph::new();
    tg.insert_interface(iface("ICommand", vec![plain("ICommand", "Run", "void Run")]));
    tg.insert_class(class("SaveCmd", None, &["ICommand"], vec![plain("SaveCmd", "Run", "void Run")], false));
    tg.insert_class(class("DeleteCmd", None, &["ICommand"], vec![plain("DeleteCmd", "Run", "void Run")], false));
    let ctx = DetectionContext::new(&tg, "");
    let r = detect_behavioral(&ctx);
    assert!(has(&r, PatternKind::Command));
}

#[test]
fn test_state_self_call() {
    let mut tg = TypeGraph::new();
    tg.insert_interface(iface("IState", vec![plain("IState", "Handle", "void Handle")]));
    tg.insert_class(class("ConcreteStateA", None, &["IState"], vec![plain("ConcreteStateA", "Handle", "void Handle")], false));
    tg.insert_class(class("ConcreteStateB", None, &["IState"], vec![plain("ConcreteStateB", "Handle", "void Handle")], false));
    let src = "class ConcreteStateA : IState { void Handle() { this.Handle(); } }";
    let tree = parse_source(src).unwrap();
    let st = SymbolTable::from_ast(&tree);
    let cg = CallGraphBuilder::build(&tree, &st.type_graph);
    for c in &st.type_graph.classes {
        if !tg.contains_class(&c.name) {
            tg.insert_class(class(&c.name, None, &[], vec![], false));
        }
    }
    let ctx = DetectionContext::with_callgraph(&tg, &cg, "");
    let r = detect_behavioral(&ctx);
    assert!(has(&r, PatternKind::State));
}

#[test]
fn test_template_method_abstract_with_concrete_methods() {
    let mut tg = TypeGraph::new();
    tg.insert_class(class(
        "DataProcessor",
        None,
        &[],
        vec![
            plain("DataProcessor", "Process", "void Process"),
            md("DataProcessor", "ReadData", "string ReadData", false, false, true),
            md("DataProcessor", "WriteData", "void WriteData", false, false, true),
        ],
        true,
    ));
    let ctx = DetectionContext::new(&tg, "");
    let r = detect_behavioral(&ctx);
    assert!(has(&r, PatternKind::TemplateMethod));
}

#[test]
fn test_visitor_accept_pattern() {
    let mut tg = TypeGraph::new();
    tg.insert_interface(iface("IElement", vec![plain("IElement", "Accept", "void Accept")]));
    tg.insert_interface(iface(
        "IVisitor",
        vec![plain("IVisitor", "VisitA", "void VisitA"), plain("IVisitor", "VisitB", "void VisitB")],
    ));
    tg.insert_class(class("ElemA", None, &["IElement"], vec![plain("ElemA", "Accept", "void Accept")], false));
    tg.insert_class(class("ElemB", None, &["IElement"], vec![plain("ElemB", "Accept", "void Accept")], false));
    let ctx = DetectionContext::new(&tg, "");
    let r = detect_behavioral(&ctx);
    assert!(has(&r, PatternKind::Visitor));
}

#[test]
fn test_iterator_enumerable() {
    let mut tg = TypeGraph::new();
    tg.insert_class(class(
        "MyList",
        None,
        &["IEnumerable"],
        vec![plain("MyList", "GetEnumerator", "IEnumerator GetEnumerator")],
        false,
    ));
    let ctx = DetectionContext::new(&tg, "");
    let r = detect_behavioral(&ctx);
    assert!(has(&r, PatternKind::Iterator));
}

#[test]
fn test_observer_observable() {
    let mut tg = TypeGraph::new();
    tg.insert_class(class(
        "StockTicker",
        None,
        &["IObservable"],
        vec![plain("StockTicker", "Subscribe", "void Subscribe")],
        false,
    ));
    let ctx = DetectionContext::new(&tg, "");
    let r = detect_behavioral(&ctx);
    assert!(has(&r, PatternKind::Observer));
}

#[test]
fn test_chain_of_responsibility() {
    let mut tg = TypeGraph::new();
    tg.insert_interface(iface(
        "IHandler",
        vec![plain("IHandler", "Process", "void Process"), plain("IHandler", "SetNext", "void SetNext")],
    ));
    for name in ["AuthHandler", "LogHandler"] {
        tg.insert_class(class(
            name,
            None,
            &["IHandler"],
            vec![plain(name, "Process", "void Process"), plain(name, "SetNext", "void SetNext")],
            false,
        ));
    }
    let ctx = DetectionContext::new(&tg, "");
    let r = detect_behavioral(&ctx);
    assert!(has(&r, PatternKind::ChainOfResponsibility));
}

#[test]
fn test_interpreter_expression_hierarchy() {
    let mut tg = TypeGraph::new();
    tg.insert_interface(iface("IExpression", vec![plain("IExpression", "Eval", "int Eval")]));
    tg.insert_class(class("NumberExpr", None, &["IExpression"], vec![plain("NumberExpr", "Eval", "int Eval")], false));
    tg.insert_class(class("AddExpr", None, &["IExpression"], vec![plain("AddExpr", "Eval", "int Eval")], false));
    let ctx = DetectionContext::new(&tg, "");
    let r = detect_behavioral(&ctx);
    assert!(has(&r, PatternKind::Interpreter));
}

#[test]
fn prototype_match_is_exact() {
    let mut tg = TypeGraph::new();
    tg.insert_class(class("Entity", None, &["ICloneable"], vec![], false));
    let ctx = DetectionContext::new(&tg, "");
    let r = detect_creational(&ctx);
    let m = r.iter().find(|m| m.pattern == PatternKind::Prototype).unwrap();
    assert_eq!(m.class, "Entity");
    assert_eq!(m.description, "'Entity' implements ICloneable — prototype");
    assert_eq!(m.confidence, 95);
    assert_eq!(m.participants, vec!["Entity".to_string()]);
    assert_eq!(m.evidence, vec!["ICloneable".to_string()]);
}

#[test]
fn empty_graph_detects_nothing() {
    let tg = TypeGraph::new();
    let ctx = DetectionContext::new(&tg, "");
    assert!(detect_creational(&ctx).is_empty());
    assert!(detect_structural(&ctx).is_empty());
    assert!(detect_behavioral(&ctx).is_empty());
}
