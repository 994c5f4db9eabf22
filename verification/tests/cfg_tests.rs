use tiny_pdg_cs::cfg::blocks::{BlockEdge, BlockKind};
use tiny_pdg_cs::cfg::builder::build_cfg;

#[test]
fn test_empty_method() {
    let g = build_cfg("class C { void M() { } }").unwrap();
    assert_eq!(g.node_count(), 2);
}

#[test]
fn test_sequential() {
    let g = build_cfg("class C { void M() { int a = 1; int b = 2; } }").unwrap();
    assert_eq!(g.node_count(), 4);
}

#[test]
fn test_if() {
    let g = build_cfg("class C { void M() { if (true) { foo(); } } }").unwrap();
    assert!(g.node_count() >= 4);
}

#[test]
fn test_if_else() {
    let g = build_cfg("class C { void M() { if (true) { foo(); } else { bar(); } } }").unwrap();
    assert!(g.node_count() >= 5);
}

#[test]
fn test_while() {
    let g = build_cfg("class C { void M() { while (true) { foo(); } } }").unwrap();
    assert!(g.node_count() >= 4);
}

#[test]
fn test_for() {
    let g = build_cfg("class C { void M() { for (int i = 0; i < 10; i++) { foo(); } } }").unwrap();
    assert!(g.node_count() >= 5);
}

#[test]
fn test_switch() {
    let g = build_cfg("class C { void M(int x) { switch (x) { case 1: foo(); break; case 2: bar(); break; } } }").unwrap();
    assert!(g.node_count() >= 5);
}

#[test]
fn test_try_catch() {
    let g = build_cfg("class C { void M() { try { foo(); } catch { bar(); } } }").unwrap();
    assert!(g.node_count() >= 4);
}

#[test]
fn test_try_finally() {
    let g = build_cfg("class C { void M() { try { foo(); } finally { bar(); } } }").unwrap();
    assert!(g.node_count() >= 4);
}

#[test]
fn test_try_catch_finally() {
    let g = build_cfg("class C { void M() { try { foo(); } catch { bar(); } finally { baz(); } } }").unwrap();
    assert!(g.node_count() >= 5);
}

#[test]
fn test_nested_if() {
    let g = build_cfg("class C { void M() { if (a) { if (b) { foo(); } } } }").unwrap();
    assert!(g.node_count() >= 5);
}

#[test]
fn sequential_blocks_are_chained_in_order() {
    let g = build_cfg("class C { void M() { int a = 1; int b = 2; } }").unwrap();
    let kinds: Vec<BlockKind> = g.raw_nodes().iter().map(|n| n.weight.kind).collect();
    assert_eq!(kinds, vec![BlockKind::Entry, BlockKind::Exit, BlockKind::Statement, BlockKind::Statement]);
    let edges: Vec<(usize, usize, BlockEdge)> =
        g.raw_edges().iter().map(|e| (e.source().index(), e.target().index(), e.weight)).collect();
    assert_eq!(
        edges,
        vec![(2, 3, BlockEdge::Sequence), (0, 2, BlockEdge::Sequence), (3, 1, BlockEdge::Sequence)]
    );
}

#[test]
fn empty_source_has_no_blocks() {
    let g = build_cfg("").unwrap();
    assert_eq!(g.node_count(), 0);
}

#[test]
fn block_ids_entries_and_exits_follow_the_methods() {
    let g = build_cfg(
        "class C { C() { } void M() { if (a) { foo(); } while (b) { bar(); } } int P => 1; void N() { return; } }",
    )
    .unwrap();
    let blocks: Vec<(usize, BlockKind)> = g.raw_nodes().iter().map(|n| (n.weight.id, n.weight.kind)).collect();
    for (k, b) in blocks.iter().enumerate() {
        assert_eq!(b.0, k);
    }
    let entries: Vec<usize> = (0..blocks.len()).filter(|&k| blocks[k].1 == BlockKind::Entry).collect();
    let exits: Vec<usize> = (0..blocks.len()).filter(|&k| blocks[k].1 == BlockKind::Exit).collect();
    assert_eq!(entries.len(), 3);
    assert_eq!(exits.len(), 3);
    let edges: Vec<(usize, usize, BlockEdge)> =
        g.raw_edges().iter().map(|e| (e.source().index(), e.target().index(), e.weight)).collect();
    for &e in &entries {
        assert!(edges.iter().all(|x| x.1 != e));
        let out: Vec<&(usize, usize, BlockEdge)> = edges.iter().filter(|x| x.0 == e).collect();
        assert_eq!(out.len(), 1);
        assert_eq!(out[0].2, BlockEdge::Sequence);
    }
    for &x in &exits {
        assert!(edges.iter().all(|y| y.0 != x));
        let inc: Vec<&(usize, usize, BlockEdge)> = edges.iter().filter(|y| y.1 == x).collect();
        assert_eq!(inc.len(), 1);
        assert_eq!(inc[0].2, BlockEdge::Sequence);
    }
}
