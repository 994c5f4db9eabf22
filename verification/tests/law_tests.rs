use tiny_pdg_cs::analysis::namemap::NameMap;
use tiny_pdg_cs::cli::tally::{rank_by_count, tally_names};
use tiny_pdg_cs::pdg::paths::all_paths_to_exit;
use tiny_pdg_cs::resolve::types::{ClassInfo, InterfaceInfo, TypeGraph};

fn class(name: &str, base: Option<&str>) -> ClassInfo {
    ClassInfo {
        name: name.into(),
        base_class: base.map(|b| b.to_string()),
        interfaces: vec![],
        methods: vec![],
        fields: vec![],
        is_abstract: false,
        is_sealed: false,
        is_static: false,
    }
}

#[test]
fn absorbing_keeps_the_receivers_class_and_adds_new_ones() {
    let mut a = TypeGraph::new();
    a.insert_class(class("Order", None));
    let mut b = TypeGraph::new();
    b.insert_class(class("Order", Some("Entity")));
    b.insert_class(class("Line", Some("Entity")));
    a.absorb(b);
    assert_eq!(a.get_class("Order").unwrap().base_class, None);
    assert_eq!(a.get_class("Line").unwrap().base_class, Some("Entity".to_string()));
    assert!(a.get_class("Entity").is_none());
    assert_eq!(a.classes.len(), 2);
}

#[test]
fn absorbing_keeps_the_receivers_interface_and_adds_new_ones() {
    let mut a = TypeGraph::new();
    a.insert_interface(InterfaceInfo { name: "IRepo".into(), methods: vec![] });
    let mut b = TypeGraph::new();
    b.insert_interface(InterfaceInfo { name: "ILog".into(), methods: vec![] });
    b.insert_interface(InterfaceInfo { name: "IRepo".into(), methods: vec![] });
    a.absorb(b);
    let names: Vec<&str> = a.interfaces.iter().map(|i| i.name.as_str()).collect();
    assert_eq!(names, vec!["IRepo", "ILog"]);
    assert!(a.get_interface("ILog").is_some());
}

#[test]
fn absorbing_name_maps_unites_the_names_under_each_key() {
    let mut a = NameMap::new();
    a.insert("Order", "Save");
    a.insert("Order", "Load");
    let mut b = NameMap::new();
    b.insert("Order", "Load");
    b.insert("Order", "Delete");
    b.insert("Line", "Total");
    a.absorb(&b);
    assert_eq!(
        a.get("Order").unwrap(),
        &vec!["Save".to_string(), "Load".to_string(), "Delete".to_string()]
    );
    assert!(a.contains("Line", "Total"));
    assert!(!a.contains("Line", "Save"));
}

#[test]
fn ranking_orders_by_count_keeping_first_appearance_on_ties() {
    let names: Vec<String> = vec!["b", "a", "c", "a", "c", "d"].into_iter().map(String::from).collect();
    let counts = tally_names(&names);
    assert_eq!(
        counts,
        vec![("b".to_string(), 1), ("a".to_string(), 2), ("c".to_string(), 2), ("d".to_string(), 1)]
    );
    assert_eq!(
        rank_by_count(&counts),
        vec![("a".to_string(), 2), ("c".to_string(), 2), ("b".to_string(), 1), ("d".to_string(), 1)]
    );
}

#[test]
fn paths_to_exit_are_simple_and_bounded() {
    // 0 -> 1 -> 3, 0 -> 2 -> 3, and a back edge 3 -> 0.
    let pairs = vec![(0, 1), (1, 3), (0, 2), (2, 3), (3, 0)];
    let mut paths = all_paths_to_exit(4, &pairs, 0, 3, 100);
    paths.sort();
    assert_eq!(paths, vec![vec![0, 1, 3], vec![0, 2, 3]]);
    assert_eq!(all_paths_to_exit(4, &pairs, 0, 3, 1).len(), 1);
    assert_eq!(all_paths_to_exit(4, &pairs, 3, 3, 100), vec![vec![3]]);
}
