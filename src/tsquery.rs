pub mod basic;
pub mod parser;
pub mod render;
