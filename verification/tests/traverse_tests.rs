use tiny_pdg_cs::analysis::callgraph::{CallGraph, CallSite};
use tiny_pdg_cs::cli::graph_report::{graph_format, GraphFormat};
use tiny_pdg_cs::resolve::types::{ClassInfo, MethodDescriptor, TypeGraph};
use tiny_pdg_cs::traverse::actions::{parse_action, Action};
use tiny_pdg_cs::traverse::code::{code_listing, code_source, CodeSource};
use tiny_pdg_cs::traverse::display::{print_header, print_history, print_nav};
use tiny_pdg_cs::traverse::engine::{apply_action, complete_with_evidence, handle_traverse, Step};
use tiny_pdg_cs::traverse::state::Judgment;

fn method(class: &str, name: &str, file: &str, start: usize, end: usize) -> MethodDescriptor {
    MethodDescriptor {
        class: class.into(),
        method: name.into(),
        signature: format!("void {}()", name),
        is_static: false,
        is_virtual: false,
        is_abstract: false,
        file: file.into(),
        line_start: start,
        line_end: end,
    }
}

fn class(name: &str, methods: Vec<MethodDescriptor>) -> ClassInfo {
    ClassInfo {
        name: name.into(),
        base_class: None,
        interfaces: vec![],
        methods,
        fields: vec![],
        is_abstract: false,
        is_sealed: false,
        is_static: false,
    }
}

fn call(caller_class: &str, caller_method: &str, callee: &str, target: &str) -> CallSite {
    CallSite {
        caller_class: caller_class.into(),
        caller_method: caller_method.into(),
        callee: callee.into(),
        callee_class: String::new(),
        target_expr: target.into(),
        is_self_call: target.is_empty(),
        is_creation: false,
        created_type: None,
        line: 1,
        delegates: vec![],
    }
}

/// OrderService.Place calls Repo.Save and its own Log; Repo is placed in
/// a file, OrderService is not.
fn project() -> (TypeGraph, CallGraph) {
    let mut tg = TypeGraph::new();
    tg.insert_class(class(
        "OrderService",
        vec![
            method("OrderService", "OrderService", "", 0, 0),
            method("OrderService", "Place", "", 0, 0),
            method("OrderService", "get_Total", "", 0, 0),
            method("OrderService", "Log", "", 0, 0),
        ],
    ));
    tg.insert_class(class("Repo", vec![method("Repo", "Save", "Repo.cs", 3, 5)]));
    let mut cg = CallGraph::new();
    cg.calls.push(call("OrderService", "Place", "Save", "Repo"));
    cg.calls.push(call("OrderService", "Place", "Log", ""));
    cg.calls.push(call("OrderService", "Place", "Send", "Mailer"));
    (tg, cg)
}

#[test]
fn parse_action_reads_every_command() {
    assert_eq!(parse_action("  Q "), Action::Quit);
    assert_eq!(parse_action("history"), Action::History);
    assert_eq!(parse_action("disc"), Action::Discard);
    assert_eq!(parse_action("c p"), Action::Complete(Judgment::Primary));
    assert_eq!(parse_action("CSymptom"), Action::Complete(Judgment::Symptom));
    assert_eq!(parse_action("cu"), Action::Complete(Judgment::Unrelated));
    assert_eq!(parse_action("cx"), Action::Unknown);
    assert_eq!(parse_action("12"), Action::Down(12));
    assert_eq!(parse_action("3b"), Action::DownDispatch(3, 1));
    assert_eq!(parse_action("3 c"), Action::DownDispatch(3, 2));
    assert_eq!(parse_action("u2"), Action::Up(2));
    assert_eq!(parse_action("u 4a"), Action::UpDispatch(4, 0));
    assert_eq!(parse_action("up"), Action::Unknown);
    assert_eq!(parse_action(""), Action::Unknown);
}

#[test]
fn graph_format_defaults_to_dot_and_refuses_others() {
    assert_eq!(graph_format(None), Ok(GraphFormat::Dot));
    assert_eq!(graph_format(Some("dot")), Ok(GraphFormat::Dot));
    assert_eq!(graph_format(Some("json")), Ok(GraphFormat::Json));
    assert_eq!(graph_format(Some("svg")), Err("Unsupported format: svg. Use 'dot' or 'json'.".to_string()));
}

#[test]
fn traversal_starts_at_the_first_method_worth_visiting() {
    let (tg, cg) = project();
    let st = handle_traverse(&tg, &cg, "orderservice", Some("timeout")).unwrap();
    assert_eq!(st.current.class, "OrderService");
    assert_eq!(st.current.method, "Place");
    let queued: Vec<&str> = st.queue.iter().map(|n| n.method.as_str()).collect();
    assert_eq!(queued, vec!["Log"]);
    assert_eq!(st.incident_context, Some("timeout".to_string()));
    let callees: Vec<(usize, &str, &str, &str)> = st
        .down
        .iter()
        .map(|e| (e.idx, e.callee.as_str(), e.via.as_str(), e.target.class.as_str()))
        .collect();
    assert_eq!(
        callees,
        vec![(1, "Log", "", "OrderService"), (2, "Save", "Repo", "Repo"), (3, "Send", "Mailer", "OrderService")]
    );
    assert!(st.up.is_empty());
}

#[test]
fn traversal_of_unknown_class_is_refused() {
    let (tg, cg) = project();
    let r = handle_traverse(&tg, &cg, "Billing", None);
    assert_eq!(r.err(), Some("Class 'Billing' not found or has no methods".to_string()));
}

#[test]
fn header_and_navigation_lines() {
    let (tg, cg) = project();
    let st = handle_traverse(&tg, &cg, "OrderService", None).unwrap();
    let rule = "═".repeat(70);
    assert_eq!(
        print_header(&st),
        vec![
            rule.clone(),
            "  Entity: OrderService.Place".to_string(),
            "  Queue: 1 remaining | History: 0 steps".to_string(),
            rule,
            String::new(),
        ]
    );
    assert_eq!(
        print_nav(&st.down, "CALLS"),
        vec![
            "    [1] Log via  OrderService".to_string(),
            "    [2] Save via Repo".to_string(),
            "    [3] Send via Mailer OrderService".to_string(),
            String::new(),
        ]
    );
    assert_eq!(print_nav(&st.up, "CALLERS"), vec!["  CALLERS (none)".to_string()]);
}

#[test]
fn a_session_records_its_steps_and_judgments() {
    let (tg, cg) = project();
    let mut st = handle_traverse(&tg, &cg, "OrderService", None).unwrap();

    assert_eq!(apply_action(&mut st, Action::Down(2), &tg, &cg), Step::Continue);
    assert_eq!(st.current.class, "Repo");
    assert_eq!(st.current.method, "Save");
    assert_eq!(st.history.len(), 1);
    assert_eq!(st.history[0].action, "↓2");
    assert_eq!(st.up.len(), 1);
    assert_eq!(st.up[0].callee, "Place");
    assert_eq!(st.up[0].target.class, "OrderService");

    // A number that names no entry leaves the state as it was.
    assert_eq!(apply_action(&mut st, Action::Down(9), &tg, &cg), Step::Continue);
    assert_eq!(st.history.len(), 1);

    assert_eq!(
        apply_action(&mut st, Action::Complete(Judgment::Primary), &tg, &cg),
        Step::AskEvidence(Judgment::Primary)
    );
    assert_eq!(st.history.len(), 1);
    assert_eq!(
        complete_with_evidence(&mut st, Judgment::Primary, "null ref".to_string(), &tg, &cg),
        Step::Continue
    );
    assert_eq!(st.current.method, "Log");
    assert!(st.queue.is_empty());
    assert_eq!(apply_action(&mut st, Action::History, &tg, &cg), Step::ShowHistory);
    assert_eq!(apply_action(&mut st, Action::Unknown, &tg, &cg), Step::Unknown);
    assert_eq!(apply_action(&mut st, Action::Discard, &tg, &cg), Step::Finished);

    let rule = "─".repeat(50);
    assert_eq!(
        print_history(&st),
        vec![
            rule.clone(),
            "  TRAVERSAL HISTORY".to_string(),
            rule,
            "  1: OrderService.Place  →  ↓2".to_string(),
            "  2: Repo.Save  →  c Primary".to_string(),
            "  3: OrderService.Log  →  d".to_string(),
            String::new(),
            "  JUDGMENTS:".to_string(),
            "    Repo → PRIMARY FAILURE: null ref".to_string(),
            String::new(),
        ]
    );
}

#[test]
fn judging_a_class_again_replaces_its_verdict() {
    let (tg, cg) = project();
    let mut st = handle_traverse(&tg, &cg, "OrderService", None).unwrap();
    complete_with_evidence(&mut st, Judgment::Symptom, "slow".to_string(), &tg, &cg);
    complete_with_evidence(&mut st, Judgment::Unrelated, "fine".to_string(), &tg, &cg);
    assert_eq!(st.judgments, vec![("OrderService".to_string(), Judgment::Unrelated)]);
    assert_eq!(st.evidence, vec![("OrderService".to_string(), "fine".to_string())]);
    assert_eq!(st.history.len(), 2);
}

#[test]
fn quitting_ends_without_changing_the_state() {
    let (tg, cg) = project();
    let mut st = handle_traverse(&tg, &cg, "OrderService", None).unwrap();
    assert_eq!(apply_action(&mut st, Action::Quit, &tg, &cg), Step::Finished);
    assert_eq!(st.current.method, "Place");
    assert!(st.history.is_empty());
}

#[test]
fn code_is_read_from_the_method_or_its_caller() {
    let (tg, cg) = project();
    let mut st = handle_traverse(&tg, &cg, "OrderService", None).unwrap();
    assert!(matches!(code_source(&st, &tg, &cg), CodeSource::Unavailable));
    apply_action(&mut st, Action::Down(2), &tg, &cg);
    match code_source(&st, &tg, &cg) {
        CodeSource::Local { file, start, end } => {
            assert_eq!(file, "Repo.cs");
            assert_eq!((start, end), (3, 5));
        },
        other => panic!("unexpected {:?}", other),
    }
    let mut st = handle_traverse(&tg, &cg, "OrderService", None).unwrap();
    apply_action(&mut st, Action::Down(3), &tg, &cg);
    // Send is reached through Mailer, which the project does not hold, but
    // the target resolves to the caller's class, which it does.
    assert_eq!(st.current.class, "OrderService");
    assert!(matches!(code_source(&st, &tg, &cg), CodeSource::Unavailable));
}

#[test]
fn listing_numbers_lines_right_aligned() {
    let lines: Vec<String> = vec!["a".into(), "b".into(), "c".into()];
    assert_eq!(code_listing(&lines, 2, 9), vec!["  │    2 b".to_string(), "  │    3 c".to_string()]);
    assert_eq!(code_listing(&lines, 1, 1), vec!["  │    1 a".to_string()]);
    assert!(code_listing(&lines, 4, 9).is_empty());
}
