use vstd::prelude::*;

verus! {

/// A raw expression tree whose operator names are fixed at compile time.
#[derive(Debug)]
pub enum Expr {
    Num(i64),
    Func(&'static str, Vec<Expr>),
}

} // verus!
