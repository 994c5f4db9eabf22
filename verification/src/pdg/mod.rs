pub mod paths;
pub mod control_deps;
pub mod data_deps;
pub mod pdg_builder;
