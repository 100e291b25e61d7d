//! Operator kinds for the expression trees a parser builds from the token
//! stream. The tree nodes themselves live with the parser; only the closed
//! sets of operators are fixed here.
use vstd::prelude::*;

verus! {

/// A unary operator: sign applied to one operand.
#[derive(Debug, Clone, Copy, PartialEq, Eq, Structural)]
pub enum UnOp {
    Plus,
    Minus,
}

/// A binary arithmetic operator.
#[derive(Debug, Clone, Copy, PartialEq, Eq, Structural)]
pub enum BinOp {
    Add,
    Sub,
    Mul,
    Div,
    Mod,
}

} // verus!
