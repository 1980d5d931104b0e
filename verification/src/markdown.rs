pub mod attributes;
pub mod highlighter;
pub mod parser;
