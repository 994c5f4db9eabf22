pub mod text;
pub mod order;
pub mod scan;
pub mod resolve;
pub mod analysis;
pub mod parse;
pub mod detect;
pub mod cli;
pub mod route;
pub mod traverse;
pub mod cfg;
pub mod hammock;
pub mod pdg;
pub mod graph;
