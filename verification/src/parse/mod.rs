pub mod syntax;
pub mod parser;
pub mod visitor;
