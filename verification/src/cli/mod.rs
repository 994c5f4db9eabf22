pub mod tally;
pub mod project;
pub mod resolve_report;
pub mod detect_report;
pub mod call_tree;
pub mod callgraph_report;
pub mod graph_report;
pub mod hammock_report;
