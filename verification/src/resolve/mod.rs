pub mod types;
pub mod direct;
pub mod virtual_table;
pub mod abstract_resolve;
pub mod interface_resolve;
pub mod di;
pub mod factory;
pub mod reflection;
pub mod dynamic;
pub mod symbols;
