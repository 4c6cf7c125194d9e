//! Scalar expressions carried by plan operators.

use vstd::prelude::*;

verus! {

/// Binary operators of scalar expressions.
#[derive(Clone, Copy, Debug, PartialEq, Eq)]
pub enum BinaryOp {
    And,
    Or,
    Eq,
    Lt,
    Gt,
    Plus,
    Minus,
}

/// A resolved scalar expression: column references are positions in the
/// input row.
#[derive(Debug, PartialEq, Eq)]
pub enum Expr {
    Column(usize),
    Literal(i64),
    Binary { op: BinaryOp, left: Box<Expr>, right: Box<Expr> },
}

impl Clone for Expr {
    /// A copy of the whole expression.
    fn clone(&self) -> (result: Expr)
        ensures
            result == *self,
        decreases self,
    {
        match self {
            Expr::Column(index) => Expr::Column(*index),
            Expr::Literal(value) => Expr::Literal(*value),
            Expr::Binary { op, left, right } => Expr::Binary {
                op: *op,
                left: Box::new((**left).clone()),
                right: Box::new((**right).clone()),
            },
        }
    }
}

impl Expr {
    /// The conjunction `left AND right`, as a value of the model.
    pub open spec fn conjunction(left: Expr, right: Expr) -> Expr {
        Expr::Binary { op: BinaryOp::And, left: Box::new(left), right: Box::new(right) }
    }

    /// Builds the conjunction `left AND right`.
    pub fn and(left: Expr, right: Expr) -> (result: Expr)
        ensures
            result == Expr::conjunction(left, right),
    {
        Expr::Binary { op: BinaryOp::And, left: Box::new(left), right: Box::new(right) }
    }
}

} // verus!
