use vstd::prelude::*;

verus! {

/// A raw expression tree as a parser hands it over: literals and named
/// applications, with no operator attributes yet.
#[derive(Debug)]
pub enum PExpr {
    Num(i64),
    Func(String, Vec<PExpr>),
}

} // verus!
