use tiny_pdg_cs::analysis::pdg_context::PdgContext;
use tiny_pdg_cs::resolve::types::{ClassInfo, MethodDescriptor, TypeGraph};

const SOURCE: &str = "class C {\n    void M(int x) {\n        int y = x;\n        if (x > 0) {\n            Use(y,3,x.Len,z);\n        }\n    }\n}\n";

fn context() -> PdgContext {
    let mut ctx = PdgContext::empty();
    ctx.add_file("src/C.cs", SOURCE.to_string());
    ctx
}

#[test]
fn data_context_names_where_arguments_were_defined() {
    let ctx = context();
    assert_eq!(ctx.get_data_context("src/C.cs", 5), Some(vec!["y from L3".to_string()]));
}

#[test]
fn data_context_ignores_definitions_on_later_lines() {
    let ctx = context();
    assert_eq!(ctx.get_data_context("src/C.cs", 3), None);
}

#[test]
fn lines_outside_every_block_have_no_context() {
    let ctx = context();
    assert_eq!(ctx.get_data_context("src/C.cs", 1), None);
    assert_eq!(ctx.get_control_context("src/C.cs", 1), None);
    assert_eq!(ctx.get_control_context("src/C.cs", 40), None);
}

#[test]
fn a_line_inside_a_method_falls_in_its_entry_block() {
    // The method's entry block spans the whole method and comes first, and
    // nothing leads into it: no condition is found above it.
    let ctx = context();
    assert_eq!(ctx.get_control_context("src/C.cs", 5), None);
}

#[test]
fn unknown_files_have_no_context() {
    let ctx = context();
    assert_eq!(ctx.get_control_context("src/D.cs", 5), None);
    assert_eq!(ctx.get_data_context("src/D.cs", 5), None);
    let empty = PdgContext::empty();
    assert_eq!(empty.get_data_context("src/C.cs", 5), None);
}

#[test]
fn adding_a_file_again_replaces_its_text() {
    let mut ctx = context();
    ctx.add_file("src/C.cs", "class C {\n    void M() {\n        var a = 1;\n        F(a);\n    }\n}\n".to_string());
    assert_eq!(ctx.files.len(), 1);
    assert_eq!(ctx.get_data_context("src/C.cs", 4), Some(vec!["a from L3".to_string()]));
    ctx.add_file("src/B.cs", String::new());
    assert_eq!(ctx.files.len(), 2);
    assert_eq!(ctx.get_data_context("src/C.cs", 4), Some(vec!["a from L3".to_string()]));
}

fn method(name: &str, file: &str) -> MethodDescriptor {
    MethodDescriptor {
        class: "C".into(),
        method: name.into(),
        signature: format!("void {}()", name),
        is_static: false,
        is_virtual: false,
        is_abstract: false,
        file: file.into(),
        line_start: 1,
        line_end: 2,
    }
}

#[test]
fn method_file_is_known_only_when_recorded() {
    let mut tg = TypeGraph::new();
    tg.insert_class(ClassInfo {
        name: "C".into(),
        base_class: None,
        interfaces: vec![],
        methods: vec![method("M", "src/C.cs"), method("N", "")],
        fields: vec![],
        is_abstract: false,
        is_sealed: false,
        is_static: false,
    });
    assert_eq!(PdgContext::get_method_file("C", "M", &tg), Some("src/C.cs".to_string()));
    assert_eq!(PdgContext::get_method_file("C", "N", &tg), None);
    assert_eq!(PdgContext::get_method_file("C", "O", &tg), None);
    assert_eq!(PdgContext::get_method_file("D", "M", &tg), None);
}
