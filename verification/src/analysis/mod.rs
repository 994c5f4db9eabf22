pub mod namemap;
pub mod callgraph;
pub mod impact;
pub mod pdg_context;
pub mod diffimpact;
