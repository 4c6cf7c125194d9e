//! Physical operators: how a plan node is executed.

use vstd::prelude::*;
use crate::planner::expr::Expr;
use crate::planner::operator::{ColumnDef, JoinType};

verus! {

/// The operator of a physical plan node. Each names one execution strategy
/// and carries the parameters of the logical operator it stands for.
#[derive(Clone, Debug, PartialEq, Eq)]
pub enum PhysicalOperator {
    Dummy,
    CreateTable { table_name: String, schema: Vec<ColumnDef> },
    Insert { table_name: String, columns: Vec<String> },
    Values { columns: Vec<String>, tuples: Vec<Vec<Expr>> },
    Project { expressions: Vec<Expr> },
    Filter { predicate: Expr },
    TableScan { table_oid: u32, columns: Vec<String> },
    Limit { limit: Option<usize>, offset: usize },
    NestedLoopJoin { join_type: JoinType, condition: Expr },
}

impl PhysicalOperator {
    /// Whether a node with this operator may have `n` children.
    pub open spec fn accepts_arity(self, n: nat) -> bool {
        match self {
            PhysicalOperator::Dummy
            | PhysicalOperator::CreateTable { .. }
            | PhysicalOperator::Values { .. }
            | PhysicalOperator::TableScan { .. } => n == 0,
            PhysicalOperator::Insert { .. } => n <= 1,
            PhysicalOperator::Project { .. }
            | PhysicalOperator::Filter { .. }
            | PhysicalOperator::Limit { .. } => n == 1,
            PhysicalOperator::NestedLoopJoin { .. } => n == 2,
        }
    }
}

} // verus!
