pub mod builtin;
pub mod engine;
pub mod expr;
pub mod grammar;
pub mod laws;
pub mod main_expr;
pub mod parse;
pub mod pexpr;
pub mod symbols;
pub mod tree;
