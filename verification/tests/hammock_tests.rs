use tiny_pdg_cs::cfg::blocks::{BlockKind, CfgGraph};
use tiny_pdg_cs::cfg::builder::build_cfg;
use tiny_pdg_cs::cli::hammock_report::hammock_report;
use tiny_pdg_cs::hammock::builder::find_hammocks;
use tiny_pdg_cs::hammock::dominators::Dominators;

fn first(cfg: &CfgGraph, k: BlockKind) -> Option<usize> {
    cfg.raw_nodes().iter().position(|n| n.weight.kind == k)
}

#[test]
fn test_dominators_empty_method() {
    let cfg = build_cfg("class C { void M() { } }").unwrap();
    let entry = first(&cfg, BlockKind::Entry).unwrap();
    let exit = first(&cfg, BlockKind::Exit).unwrap();
    let dom = Dominators::compute(&cfg, entry);
    assert!(dom.dominates(entry, exit));
}

#[test]
fn test_hammocks_if_else() {
    let cfg = build_cfg("class C { void M() { if (true) { foo(); } else { bar(); } } }").unwrap();
    let entry = first(&cfg, BlockKind::Entry).unwrap();
    let exit = first(&cfg, BlockKind::Exit).unwrap();
    let hammocks = find_hammocks(&cfg, entry, exit);
    assert!(!hammocks.is_empty(), "Expected hammocks, found none");
}

#[test]
fn test_hammocks_sequential_no_hammocks() {
    let cfg = build_cfg("class C { void M() { int a = 1; int b = 2; } }").unwrap();
    let entry = first(&cfg, BlockKind::Entry).unwrap();
    let exit = first(&cfg, BlockKind::Exit).unwrap();
    let hammocks = find_hammocks(&cfg, entry, exit);
    assert!(hammocks.is_empty());
}

#[test]
fn test_hammocks_loop() {
    let cfg = build_cfg("class C { void M() { for (;;) { foo(); } } }").unwrap();
    let entry = first(&cfg, BlockKind::Entry).unwrap();
    let exit = first(&cfg, BlockKind::Exit).unwrap();
    let hammocks = find_hammocks(&cfg, entry, exit);
    assert!(!hammocks.is_empty());
}

#[test]
fn test_hammock_footer_post_dominates_header() {
    let cfg = build_cfg("class C { void M() { if (true) { foo(); } else { bar(); } } }").unwrap();
    let entry = first(&cfg, BlockKind::Entry).unwrap();
    let exit = first(&cfg, BlockKind::Exit).unwrap();
    let pdom = Dominators::compute_reverse(&cfg, exit);
    let hammocks = find_hammocks(&cfg, entry, exit);
    for h in &hammocks {
        assert!(pdom.dominates(h.footer, h.header), "footer must post-dominate header");
    }
}

#[test]
fn entry_dominates_every_block_of_its_method() {
    let cfg = build_cfg("class C { void M() { if (a) { foo(); } else { bar(); } baz(); } }").unwrap();
    let dom = Dominators::compute(&cfg, 0);
    for v in 0..cfg.node_count() {
        assert!(dom.dominates(0, v));
    }
    assert_eq!(dom.idom(0), Some(0));
}

#[test]
fn hammocks_come_smallest_first() {
    let cfg = build_cfg("class C { void M() { if (a) { if (b) { foo(); } else { bar(); } } else { baz(); } } }").unwrap();
    let hs = find_hammocks(&cfg, 0, 1);
    for w in hs.windows(2) {
        assert!(w[0].body.len() <= w[1].body.len());
    }
}

#[test]
fn hammock_report_without_blocks() {
    let cfg = build_cfg("class C { }").unwrap();
    assert_eq!(hammock_report(&cfg), vec!["Could not find entry/exit nodes in CFG.".to_string()]);
}

#[test]
fn hammock_report_sequential() {
    let cfg = build_cfg("class C { void M() { int a = 1; int b = 2; } }").unwrap();
    assert_eq!(hammock_report(&cfg), vec!["No hammock regions found.".to_string()]);
}

#[test]
fn hammock_report_lists_regions() {
    let cfg = build_cfg("class C { void M() { if (true) { foo(); } else { bar(); } } }").unwrap();
    let lines = hammock_report(&cfg);
    assert!(lines[0].starts_with("Found "));
    assert!(lines[0].ends_with(" hammock region(s):"));
    assert!(lines[1].starts_with("  Hammock 1: header=["));
    assert_eq!(lines.len(), find_hammocks(&cfg, 0, 1).len() + 1);
}
