use tiny_pdg_cs::resolve::types::{
    CallSite, CallTarget, ClassInfo, Confidence, DiLifetime, DiRegistration, InterfaceInfo,
    MethodDescriptor, ResolutionSet, TypeGraph,
};
use tiny_pdg_cs::resolve::abstract_resolve::resolve_abstract;
use tiny_pdg_cs::resolve::di::{resolve_di, scan_di_registrations, DiContainer};
use tiny_pdg_cs::resolve::dynamic::resolve_dynamic;
use tiny_pdg_cs::resolve::factory::{detect_factories, resolve_factory};
use tiny_pdg_cs::resolve::interface_resolve::resolve_interface;
use tiny_pdg_cs::resolve::reflection::{is_compile_time_string, resolve_reflection, scan_reflection};
use tiny_pdg_cs::resolve::virtual_table::{resolve_cha, resolve_rta};

fn md(class: &str, method: &str, sig: &str, is_virtual: bool, is_abstract: bool) -> MethodDescriptor {
    MethodDescriptor {
        class: class.into(),
        method: method.into(),
        signature: sig.into(),
        is_static: false,
        is_virtual,
        is_abstract,
        file: String::new(),
        line_start: 0,
        line_end: 0,
    }
}

fn class(name: &str, base: Option<&str>, ifaces: &[&str], methods: Vec<MethodDescriptor>, is_abstract: bool) -> ClassInfo {
    ClassInfo {
        name: name.into(),
        base_class: base.map(|b| b.to_string()),
        interfaces: ifaces.iter().map(|s| s.to_string()).collect(),
        methods,
        fields: vec![],
        is_abstract,
        is_sealed: false,
        is_static: false,
    }
}

#[test]
fn test_type_graph_empty() {
    let tg = TypeGraph::new();
    assert_eq!(tg.concrete_subclasses("IFoo").len(), 0);
}

#[test]
fn test_concrete_subclass() {
    let mut tg = TypeGraph::new();
    tg.insert_class(class("Base", None, &[], vec![], false));
    tg.insert_class(class("Derived", Some("Base"), &[], vec![], false));
    let subs = tg.concrete_subclasses("Base");
    assert_eq!(subs.len(), 2); // Base + Derived
}

#[test]
fn test_confidence_scoring() {
    assert!(Confidence::Direct.score() > Confidence::RTA.score());
    assert!(Confidence::Reflection.score() > Confidence::Unknown.score());
}

#[test]
fn test_resolution_set_best() {
    let low = CallSite {
        caller: "Test".into(),
        target: CallTarget::Instance { method: "Foo".into() },
        confidence: Confidence::CHA,
        resolved: vec![],
    };
    let high = CallSite {
        caller: "Test".into(),
        target: CallTarget::Instance { method: "Foo".into() },
        confidence: Confidence::Direct,
        resolved: vec![],
    };
    let mut rs = ResolutionSet::new(low.clone());
    rs.add(high.clone());
    assert_eq!(rs.best().confidence, Confidence::Direct);
}

#[test]
fn test_implementors_of() {
    let mut tg = TypeGraph::new();
    tg.insert_interface(InterfaceInfo { name: "IFoo".into(), methods: vec![] });
    tg.insert_class(class("Foo", None, &["IFoo"], vec![], false));
    let impls = tg.implementors_of("IFoo");
    assert_eq!(impls.len(), 1);
    assert_eq!(impls[0].name, "Foo");
}

fn make_abstract_graph() -> TypeGraph {
    let mut tg = TypeGraph::new();
    tg.insert_class(class("AbstractBase", None, &[], vec![md("AbstractBase", "DoWork", "void DoWork", false, true)], true));
    tg.insert_class(class("Concrete", Some("AbstractBase"), &[], vec![md("Concrete", "DoWork", "void DoWork", false, false)], false));
    tg
}

#[test]
fn test_abstract_resolve_finds_concrete() {
    let tg = make_abstract_graph();
    let target = CallTarget::Abstract { interface: "AbstractBase".into(), method: "DoWork".into() };
    let sites = resolve_abstract(&target, "Test", &tg);
    assert_eq!(sites.len(), 1);
    assert_eq!(sites[0].resolved.len(), 1);
    assert_eq!(sites[0].resolved[0].class, "Concrete");
}

#[test]
fn abstract_resolution_scores_within_its_range() {
    let tg = make_abstract_graph();
    let target = CallTarget::Abstract { interface: "AbstractBase".into(), method: "DoWork".into() };
    let sites = resolve_abstract(&target, "Test", &tg);
    let score = sites[0].confidence.score();
    assert!(60 <= score && score <= 90);
    assert_eq!(sites[0].confidence, Confidence::CHA);
}

#[test]
fn test_abstract_with_no_impl_returns_empty() {
    let tg = TypeGraph::new();
    let target = CallTarget::Abstract { interface: "IMissing".into(), method: "Foo".into() };
    let sites = resolve_abstract(&target, "Test", &tg);
    assert!(sites.is_empty());
}

#[test]
fn test_di_container_empty() {
    let container = DiContainer::new();
    assert!(container.resolve("IFoo").is_empty());
}

#[test]
fn test_di_register_and_resolve() {
    let mut container = DiContainer::new();
    container.register(DiRegistration {
        interface_type: "IFoo".into(),
        implementation_type: "Foo".into(),
        lifetime: DiLifetime::Scoped,
        confidence: Confidence::DiRegistration,
    });
    let regs = container.resolve("IFoo");
    assert_eq!(regs.len(), 1);
    assert_eq!(regs[0].implementation_type, "Foo");
}

#[test]
fn test_di_resolve_call() {
    let mut container = DiContainer::new();
    container.register(DiRegistration {
        interface_type: "IFoo".into(),
        implementation_type: "Foo".into(),
        lifetime: DiLifetime::Scoped,
        confidence: Confidence::DiRegistration,
    });
    let mut tg = TypeGraph::new();
    tg.insert_class(class("Foo", None, &["IFoo"], vec![], false));
    let target = CallTarget::DiResolved { interface: "IFoo".into(), method: "GetService".into() };
    let sites = resolve_di(&target, "Test", &container, &tg);
    assert_eq!(sites.len(), 1);
}

#[test]
fn test_dynamic_call_returns_unknown() {
    let target = CallTarget::Instance { method: "Foo".into() };
    let sites = resolve_dynamic(&target, "Test");
    assert_eq!(sites.len(), 1);
    assert_eq!(sites[0].confidence, Confidence::Unknown);
}

#[test]
fn test_factory_detect_empty() {
    let tg = TypeGraph::new();
    let factories = detect_factories(&tg);
    assert!(factories.is_empty());
}

#[test]
fn test_factory_resolve_known_names() {
    let tg = TypeGraph::new();
    let factories = vec![];
    let target = CallTarget::Static { class: "Factory".into(), method: "Create".into() };
    let sites = resolve_factory(&target, "Test", &tg, &factories);
    assert_eq!(sites.len(), 1);
    assert_eq!(sites[0].confidence, Confidence::RTA);
}

#[test]
fn test_factory_resolve_ignores_non_factory() {
    let tg = TypeGraph::new();
    let factories = vec![];
    let target = CallTarget::Instance { method: "ToString".into() };
    let sites = resolve_factory(&target, "Test", &tg, &factories);
    assert!(sites.is_empty());
}

fn make_interface_graph() -> TypeGraph {
    let mut tg = TypeGraph::new();
    tg.insert_interface(InterfaceInfo { name: "IFoo".into(), methods: vec![md("IFoo", "Bar", "void Bar", false, false)] });
    tg.insert_class(class("FooImpl", None, &["IFoo"], vec![md("FooImpl", "Bar", "void Bar", false, false)], false));
    tg
}

#[test]
fn test_single_impl_returns_explicit() {
    let tg = make_interface_graph();
    let target = CallTarget::Abstract { interface: "IFoo".into(), method: "Bar".into() };
    let sites = resolve_interface(&target, "Test", &tg);
    assert_eq!(sites.len(), 1);
    assert_eq!(sites[0].confidence, Confidence::ExplicitImpl);
    assert_eq!(sites[0].resolved.len(), 1);
    assert_eq!(sites[0].resolved[0].class, "FooImpl");
}

#[test]
fn test_multi_impl_returns_multi_impl_confidence() {
    let mut tg = make_interface_graph();
    tg.insert_class(class("AnotherImpl", None, &["IFoo"], vec![md("AnotherImpl", "Bar", "void Bar", false, false)], false));
    let target = CallTarget::Abstract { interface: "IFoo".into(), method: "Bar".into() };
    let sites = resolve_interface(&target, "Test", &tg);
    assert_eq!(sites.len(), 1);
    assert_eq!(sites[0].confidence, Confidence::MultiImpl);
    assert_eq!(sites[0].resolved.len(), 2);
}

#[test]
fn test_no_implementors_returns_empty() {
    let tg = TypeGraph::new();
    let target = CallTarget::Abstract { interface: "IMissing".into(), method: "Bar".into() };
    let sites = resolve_interface(&target, "Test", &tg);
    assert!(sites.is_empty());
}

#[test]
fn test_reflection_empty_patterns() {
    let tg = TypeGraph::new();
    let patterns = scan_reflection("", &tg);
    assert!(patterns.is_empty());
}

#[test]
fn test_reflection_getmethod_resolves() {
    let tg = TypeGraph::new();
    let patterns = vec![];
    let target = CallTarget::Static { class: "Foo".into(), method: "GetMethod".into() };
    let sites = resolve_reflection(&target, "Test", &tg, &patterns);
    assert_eq!(sites.len(), 1);
    // Without pattern info, we default to DynamicString
    assert_eq!(sites[0].confidence, Confidence::DynamicString);
}

#[test]
fn test_reflection_non_reflection_target() {
    let tg = TypeGraph::new();
    let patterns = vec![];
    let target = CallTarget::Instance { method: "NormalMethod".into() };
    let sites = resolve_reflection(&target, "Test", &tg, &patterns);
    assert!(sites.is_empty());
}

fn make_type_graph() -> TypeGraph {
    let mut tg = TypeGraph::new();
    tg.insert_class(class("Base", None, &[], vec![md("Base", "Foo", "void Foo", true, false)], false));
    tg.insert_class(class("Derived", Some("Base"), &[], vec![md("Derived", "Foo", "void Foo", false, false)], false));
    tg
}

#[test]
fn test_cha_finds_overrides() {
    let tg = make_type_graph();
    let target = CallTarget::Virtual { class: Some("Base".into()), method: "Foo".into() };
    let sites = resolve_cha(&target, "Test", &tg);
    assert_eq!(sites.len(), 1);
    assert_eq!(sites[0].resolved.len(), 2); // Base + Derived
}

#[test]
fn test_rta_filters_by_instantiation() {
    let tg = make_type_graph();
    let target = CallTarget::Virtual { class: Some("Base".into()), method: "Foo".into() };
    let instantiated = vec!["Derived".to_string()];
    let sites = resolve_rta(&target, "Test", &tg, &instantiated);
    assert_eq!(sites.len(), 1);
    assert_eq!(sites[0].resolved.len(), 1);
    assert_eq!(sites[0].resolved[0].class, "Derived");
}

// ---- further cases ----

#[test]
fn compile_time_string_forms() {
    assert!(is_compile_time_string(Some("\"Bar\"")));
    assert!(is_compile_time_string(Some("nameof")));
    assert!(!is_compile_time_string(Some("name")));
    assert!(!is_compile_time_string(None));
}

#[test]
fn well_formed_rejects_cyclic_hierarchy() {
    let mut tg = TypeGraph::new();
    tg.insert_class(class("A", Some("B"), &[], vec![], false));
    tg.insert_class(class("B", Some("A"), &[], vec![], false));
    assert!(!tg.is_well_formed());
    assert!(make_type_graph().is_well_formed());
}

#[test]
fn insert_class_replaces_same_name() {
    let mut tg = TypeGraph::new();
    tg.insert_class(class("A", None, &[], vec![], false));
    tg.insert_class(class("A", None, &[], vec![], true));
    assert_eq!(tg.classes.len(), 1);
    assert!(tg.get_class("A").unwrap().is_abstract);
}

#[test]
fn inherited_interface_counts_for_implementors() {
    let mut tg = TypeGraph::new();
    tg.insert_interface(InterfaceInfo { name: "IFoo".into(), methods: vec![] });
    tg.insert_class(class("Base", None, &["IFoo"], vec![], true));
    tg.insert_class(class("Leaf", Some("Base"), &[], vec![], false));
    let impls = tg.implementors_of("IFoo");
    assert_eq!(impls.len(), 1);
    assert_eq!(impls[0].name, "Leaf");
}

#[test]
fn di_confidence_takes_last_best() {
    let mut container = DiContainer::new();
    container.register(DiRegistration { interface_type: "IFoo".into(), implementation_type: "Foo".into(), lifetime: DiLifetime::Scoped, confidence: Confidence::CHA });
    container.register(DiRegistration { interface_type: "IFoo".into(), implementation_type: "Bar".into(), lifetime: DiLifetime::Singleton, confidence: Confidence::DiRegistration });
    let mut tg = TypeGraph::new();
    tg.insert_class(class("Foo", None, &["IFoo"], vec![], false));
    let target = CallTarget::Abstract { interface: "IFoo".into(), method: "Run".into() };
    let sites = resolve_di(&target, "Test", &container, &tg);
    assert_eq!(sites.len(), 1);
    assert_eq!(sites[0].confidence, Confidence::DiRegistration);
    assert_eq!(sites[0].resolved.len(), 1);
    assert_eq!(sites[0].resolved[0].class, "Foo");
}

#[test]
fn resolution_set_keeps_first_on_tie() {
    let a = CallSite { caller: "A".into(), target: CallTarget::Instance { method: "M".into() }, confidence: Confidence::ExplicitImpl, resolved: vec![] };
    let b = CallSite { caller: "B".into(), target: CallTarget::Instance { method: "M".into() }, confidence: Confidence::DiRegistration, resolved: vec![] };
    let mut rs = ResolutionSet::new(a);
    rs.add(b);
    assert_eq!(rs.callsite.caller, "A");
    assert_eq!(rs.best().caller, "B");
    assert_eq!(rs.alternatives.len(), 2);
}

#[test]
fn annotate_fills_only_missing_files() {
    let mut tg = TypeGraph::new();
    let mut m2 = md("C", "N", "void N", false, false);
    m2.file = "other.cs".into();
    tg.insert_class(class("C", None, &[], vec![md("C", "M", "void M", false, false), m2], false));
    tg.annotate_method_files("a.cs");
    assert_eq!(tg.classes[0].methods[0].file, "a.cs");
    assert_eq!(tg.classes[0].methods[1].file, "other.cs");
}

#[test]
fn di_scan_reads_generic_registrations() {
    let tg = TypeGraph::new();
    let source = "class S { void C(IServiceCollection services) { services.AddScoped<IFoo, Foo>(); services.AddSingleton<IBar, Bar>(); services.AddTransient<IFoo, Foo2>(); services.Add<IBaz, Baz>(); } }";
    let c = scan_di_registrations(source, &tg);
    let regs: Vec<(&str, &str, DiLifetime, Confidence)> = c
        .registrations
        .iter()
        .map(|r| (r.interface_type.as_str(), r.implementation_type.as_str(), r.lifetime, r.confidence))
        .collect();
    assert_eq!(
        regs,
        vec![
            ("IFoo", "Foo", DiLifetime::Scoped, Confidence::DiRegistration),
            ("IBar", "Bar", DiLifetime::Singleton, Confidence::DiRegistration),
            ("IFoo", "Foo2", DiLifetime::Transient, Confidence::DiRegistration),
        ]
    );
    let foo: Vec<&str> = c.resolve("IFoo").iter().map(|r| r.implementation_type.as_str()).collect();
    assert_eq!(foo, vec!["Foo", "Foo2"]);
    assert!(scan_di_registrations("class S { }", &tg).registrations.is_empty());
}

#[test]
fn factories_are_named_builders_returning_abstractions() {
    let mut tg = TypeGraph::new();
    tg.insert_interface(InterfaceInfo { name: "IService".into(), methods: vec![] });
    tg.insert_class(class("Shape", None, &[], vec![], true));
    tg.insert_class(class(
        "Factory",
        None,
        &[],
        vec![
            md("Factory", "Create", "IService Create()", false, false),
            md("Factory", "Build", "Shape Build()", false, false),
            md("Factory", "Make", "Factory Make()", false, false),
            md("Factory", "Get", "IService Get()", false, false),
        ],
        false,
    ));
    let found = detect_factories(&tg);
    let fs: Vec<(&str, &str, bool)> = found
        .iter()
        .map(|f| (f.factory_method.as_str(), f.return_type.as_str(), f.conditional))
        .collect();
    assert_eq!(fs, vec![("Create", "IService", false), ("Build", "Shape", false)]);
}

#[test]
fn reflection_scan_finds_typeof_get_method() {
    let tg = TypeGraph::new();
    let ps = scan_reflection(r#"class C { void M() { typeof(Foo).GetMethod("Bar"); typeof(Baz).GetProperty(name); } }"#, &tg);
    let got: Vec<(&str, &str, bool)> =
        ps.iter().map(|p| (p.target_type.as_str(), p.method_name.as_str(), p.is_static_string)).collect();
    assert_eq!(got, vec![("Foo", "Bar", true), ("Baz", "name", false)]);
}
