pub mod dot;
