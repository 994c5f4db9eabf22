pub mod dominators;
pub mod builder;
