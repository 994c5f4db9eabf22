use tiny_pdg_cs::cfg::blocks::{BlockKind, CfgGraph};
use tiny_pdg_cs::cfg::builder::build_cfg;
use tiny_pdg_cs::cfg::dot::cfg_dot_lines;
use tiny_pdg_cs::graph::dot::{pdg_dot_lines, pdg_nodes_edges_to_dot, pdg_to_dot};
use tiny_pdg_cs::pdg::control_deps::compute_control_deps;
use tiny_pdg_cs::pdg::data_deps::compute_data_deps;
use tiny_pdg_cs::pdg::pdg_builder::{build_pdg, PdgEdge};

fn first(cfg: &CfgGraph, k: BlockKind) -> usize {
    cfg.raw_nodes().iter().position(|n| n.weight.kind == k).unwrap()
}

#[test]
fn test_sequential_no_control_deps() {
    let cfg = build_cfg("class C { void M() { int a = 1; int b = 2; } }").unwrap();
    let entry = first(&cfg, BlockKind::Entry);
    let exit = first(&cfg, BlockKind::Exit);
    let deps = compute_control_deps(&cfg, entry, exit);
    assert_eq!(deps.len(), 0);
}

#[test]
fn test_if_has_control_deps() {
    let cfg = build_cfg("class C { void M() { if (true) { foo(); } else { bar(); } } }").unwrap();
    let entry = first(&cfg, BlockKind::Entry);
    let exit = first(&cfg, BlockKind::Exit);
    let deps = compute_control_deps(&cfg, entry, exit);
    assert!(deps.len() > 0);
}

#[test]
fn test_data_deps_empty() {
    let cfg = build_cfg("class C { void M() { } }").unwrap();
    let deps = compute_data_deps(&cfg);
    assert_eq!(deps.len(), 0);
}

#[test]
fn test_empty_method_pdg() {
    let cfg = build_cfg("class C { void M() { } }").unwrap();
    let pdg = build_pdg(&cfg).unwrap();
    assert_eq!(pdg.node_count(), cfg.node_count());
}

#[test]
fn test_if_pdg() {
    let cfg = build_cfg("class C { void M() { if (true) { foo(); } else { bar(); } } }").unwrap();
    let pdg = build_pdg(&cfg).unwrap();
    assert!(pdg.edge_count() >= cfg.edge_count());
}

#[test]
fn test_pdg_has_control_edges() {
    let cfg = build_cfg("class C { void M() { if (true) { foo(); } else { bar(); } } }").unwrap();
    let pdg = build_pdg(&cfg).unwrap();
    let control_edges = pdg.raw_edges().iter().filter(|e| e.weight == PdgEdge::Control).count();
    assert!(control_edges > 0);
}

#[test]
fn control_deps_are_sorted_without_repeats() {
    let cfg = build_cfg("class C { void M() { if (a) { if (b) { foo(); } else { bar(); } } else { baz(); } } }").unwrap();
    let deps = compute_control_deps(&cfg, 0, 1);
    for w in deps.windows(2) {
        assert!(w[0] < w[1]);
    }
}

#[test]
fn pdg_starts_with_the_cfg_edges() {
    let cfg = build_cfg("class C { void M() { if (true) { foo(); } else { bar(); } } }").unwrap();
    let pdg = build_pdg(&cfg).unwrap();
    for (i, e) in cfg.raw_edges().iter().enumerate() {
        let p = &pdg.raw_edges()[i];
        assert_eq!(p.source(), e.source());
        assert_eq!(p.target(), e.target());
        assert_eq!(p.weight, PdgEdge::Cfg(e.weight));
    }
    let deps = compute_control_deps(&cfg, 0, 1);
    assert_eq!(pdg.edge_count(), cfg.edge_count() + deps.len());
}

#[test]
fn empty_method_dot_texts() {
    let cfg = build_cfg("class C { void M() { } }").unwrap();
    assert_eq!(
        cfg_dot_lines(&cfg),
        vec![
            "digraph CFG {".to_string(),
            "  n0 [label=\"[0] Entry (L1-L1)\"];".to_string(),
            "  n1 [label=\"[1] Exit (L1-L1)\"];".to_string(),
            "  n0 -> n1 [label=\"Seq\"];".to_string(),
            "}".to_string(),
        ]
    );
    let pdg = build_pdg(&cfg).unwrap();
    assert_eq!(
        pdg_dot_lines(&pdg),
        vec![
            "digraph PDG {".to_string(),
            "  n0 [label=\"[0] Entry (L1-L1)\"];".to_string(),
            "  n1 [label=\"[1] Exit (L1-L1)\"];".to_string(),
            "  n0 -> n1 [label=\"cfg(Seq)\"];".to_string(),
            "}".to_string(),
        ]
    );
    assert_eq!(
        pdg_nodes_edges_to_dot(&pdg, "  "),
        "  n0 [label=\"L1-1:Entry\" style=filled fillcolor=green];\n  n1 [label=\"L1-1:Exit\" style=filled fillcolor=red];\n\n  n0 -> n1 [style=solid color=black];\n"
    );
    let text = pdg_to_dot(&pdg, "M");
    assert!(text.starts_with("digraph PDG {\n  rankdir=TB;\n  node [shape=box style=rounded];\n\n  label=\"M\";\n  labelloc=t;\n\n"));
    assert!(text.ends_with("}\n"));
}
