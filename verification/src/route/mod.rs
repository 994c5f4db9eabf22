pub mod paths;
pub mod attributes;
pub mod extractor;
