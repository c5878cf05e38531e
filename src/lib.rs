//! A small rule-expression engine: rule text is parsed into an expression
//! tree, which is then evaluated against a context of named values.

pub mod ast;
pub mod context;
pub mod eval;
pub mod parse;
pub mod text;
