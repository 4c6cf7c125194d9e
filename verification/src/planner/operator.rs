//! Logical operators: what a plan node computes.

use vstd::prelude::*;
use crate::planner::expr::Expr;

verus! {

/// How the two inputs of a join are combined.
#[derive(Clone, Copy, Debug, PartialEq, Eq)]
pub enum JoinType {
    Inner,
    Left,
    Right,
    Full,
    Cross,
}

/// A column of a table definition.
#[derive(Clone, Debug, PartialEq, Eq)]
pub struct ColumnDef {
    pub name: String,
    pub nullable: bool,
}

/// The operator of a logical plan node, with the parameters it needs.
#[derive(Clone, Debug, PartialEq, Eq)]
pub enum LogicalOperator {
    Dummy,
    CreateTable { table_name: String, schema: Vec<ColumnDef> },
    Insert { table_name: String, columns: Vec<String> },
    Values { columns: Vec<String>, tuples: Vec<Vec<Expr>> },
    Project { expressions: Vec<Expr> },
    Filter { predicate: Expr },
    Scan { table_oid: u32, columns: Vec<String> },
    Limit { limit: Option<usize>, offset: usize },
    Join { join_type: JoinType, condition: Expr },
    /// Ordering of the input rows; no execution strategy exists for it yet.
    Sort { keys: Vec<Expr> },
}

impl LogicalOperator {
    /// Whether a node with this operator may have `n` children. `Insert`
    /// takes its rows from one child, or from none when the rows come with
    /// the statement.
    pub open spec fn accepts_arity(self, n: nat) -> bool {
        match self {
            LogicalOperator::Dummy
            | LogicalOperator::CreateTable { .. }
            | LogicalOperator::Values { .. }
            | LogicalOperator::Scan { .. } => n == 0,
            LogicalOperator::Insert { .. } => n <= 1,
            LogicalOperator::Project { .. }
            | LogicalOperator::Filter { .. }
            | LogicalOperator::Limit { .. }
            | LogicalOperator::Sort { .. } => n == 1,
            LogicalOperator::Join { .. } => n == 2,
        }
    }

    /// Executable form of [`LogicalOperator::accepts_arity`].
    pub fn has_arity(&self, n: usize) -> (result: bool)
        ensures
            result == self.accepts_arity(n as nat),
    {
        match self {
            LogicalOperator::Dummy
            | LogicalOperator::CreateTable { .. }
            | LogicalOperator::Values { .. }
            | LogicalOperator::Scan { .. } => n == 0,
            LogicalOperator::Insert { .. } => n <= 1,
            LogicalOperator::Project { .. }
            | LogicalOperator::Filter { .. }
            | LogicalOperator::Limit { .. }
            | LogicalOperator::Sort { .. } => n == 1,
            LogicalOperator::Join { .. } => n == 2,
        }
    }
}

} // verus!
