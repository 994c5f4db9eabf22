pub mod blocks;
pub mod model;
pub mod builder;
pub mod dot;
