pub mod tsgrammar;
pub mod tsquery;
