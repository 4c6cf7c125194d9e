//! The logical side of planning: expressions, operators and plan trees.

pub mod expr;
pub mod operator;
pub mod logical_plan;
