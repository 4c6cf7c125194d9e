//! The optimizer: heuristic rewriting followed by lowering.

use vstd::prelude::*;
use crate::optimizer::error::{Failure, OptimizeError};
use crate::optimizer::heuristic::{HepOptimizer, HepOutcome};
use crate::optimizer::physical_optimizer::{outcome, PhysicalOptimizer};
use crate::optimizer::physical_plan::{PhysicalPlan, PhysicalTree};
use crate::planner::logical_plan::{LogicalPlan, LogicalTree};

pub mod operator;
pub mod physical_plan;
pub mod error;
pub mod physical_optimizer;
pub mod rule;
pub mod heuristic;
pub mod convergence;

verus! {

/// The optimizer: a heuristic engine and a lowering engine, run one after
/// the other. It keeps nothing between calls.
#[derive(Debug, PartialEq, Eq)]
pub struct Optimizer {
    pub hep_optimizer: HepOptimizer,
    pub physical_optimizer: PhysicalOptimizer,
}

/// What the optimizer made of a plan, and how the rewriting ended.
#[derive(Debug, PartialEq, Eq)]
pub struct Optimization {
    /// The physical plan, or why there is none.
    pub plan: Result<PhysicalPlan, OptimizeError>,
    /// Whether the last rewriting pass applied no rule.
    pub converged: bool,
    /// How many rewriting passes ran.
    pub passes: usize,
}

impl Optimizer {
    /// An optimizer with the standard rules.
    pub fn new() -> (result: Optimizer)
        ensures
            result.hep_optimizer.max_passes == crate::optimizer::heuristic::DEFAULT_MAX_PASSES,
            result.hep_optimizer.batches@.len() == 1,
            result.hep_optimizer.batches@[0]@ == seq![
                crate::optimizer::rule::Rule::MergeFilters,
                crate::optimizer::rule::Rule::MergeLimits,
            ],
    {
        Optimizer {
            hep_optimizer: HepOptimizer::default(),
            physical_optimizer: PhysicalOptimizer {  },
        }
    }

    /// An optimizer that rewrites with the given engine.
    pub fn with_heuristic(hep_optimizer: HepOptimizer) -> (result: Optimizer)
        ensures
            result.hep_optimizer == hep_optimizer,
    {
        Optimizer { hep_optimizer, physical_optimizer: PhysicalOptimizer {  } }
    }

    /// The logical tree that is lowered: `tree` after heuristic rewriting.
    pub open spec fn rewritten(self, tree: LogicalTree) -> LogicalTree {
        self.hep_optimizer.optimized(tree).tree
    }

    /// What optimizing `tree` gives: the rewritten tree, lowered.
    pub open spec fn planned(self, tree: LogicalTree) -> Result<PhysicalTree, Failure> {
        self.rewritten(tree).lower()
    }

    /// Rewrites `logical_plan` with the heuristic engine, to its end, and
    /// lowers the result; says too how the rewriting ended. Reaching the
    /// bound on passes fails nothing: the plan of the last pass is lowered.
    pub fn optimize(&self, logical_plan: LogicalPlan) -> (result: Optimization)
        ensures
            outcome(result.plan) == self.planned(logical_plan@),
            result.converged == self.hep_optimizer.optimized(logical_plan@).converged,
            result.passes == self.hep_optimizer.optimized(logical_plan@).passes,
            result.passes <= self.hep_optimizer.max_passes,
            result.plan is Ok <==> logical_plan@.supported() && logical_plan@.well_formed(),
            result.plan is Ok ==> result.plan->Ok_0@.well_formed() && self.rewritten(
                logical_plan@,
            ).mirrored_by(result.plan->Ok_0@),
            result.plan is Err ==> self.rewritten(logical_plan@).is_failure_of(
                result.plan->Err_0@,
            ),
    {
        proof {
            self.hep_optimizer.lemma_rewriting_keeps_validity(logical_plan@);
        }
        let HepOutcome { plan, converged, passes } = self.hep_optimizer.optimize(logical_plan);
        Optimization { plan: self.physical_optimizer.find_best(plan), converged, passes }
    }

    /// The physical plan for `logical_plan`: heuristic rewriting to its end,
    /// then lowering. A physical plan comes back exactly where every
    /// operator of `logical_plan` has a strategy and every node of it the
    /// number of children its operator takes; that physical plan has the
    /// shape of the rewritten plan, and every node of it the number of
    /// children its own operator takes. Else the first failure met in the
    /// rewritten plan comes back, and no plan.
    pub fn find_best(&self, logical_plan: LogicalPlan) -> (result: Result<
        PhysicalPlan,
        OptimizeError,
    >)
        ensures
            outcome(result) == self.planned(logical_plan@),
            result is Ok <==> logical_plan@.supported() && logical_plan@.well_formed(),
            result is Ok ==> result->Ok_0@.well_formed() && self.rewritten(
                logical_plan@,
            ).mirrored_by(result->Ok_0@),
            result is Err ==> self.rewritten(logical_plan@).is_failure_of(result->Err_0@),
    {
        proof {
            self.hep_optimizer.lemma_rewriting_keeps_validity(logical_plan@);
        }
        let optimized_logical_plan = self.hep_optimizer.find_best(logical_plan);
        self.physical_optimizer.find_best(optimized_logical_plan)
    }
}

} // verus!
