pub mod nav;
pub mod state;
pub mod actions;
pub mod display;
pub mod engine;
pub mod code;
