//! Rule-driven query optimization: a logical plan is rewritten by a bounded
//! heuristic engine and then lowered, node for node, into a physical plan.

pub mod planner;
pub mod optimizer;
