//! Rewrite rules: each recognises a pattern at the root of a plan and
//! replaces it by an equivalent plan.

use vstd::prelude::*;
use crate::planner::expr::Expr;
use crate::planner::logical_plan::{LogicalPlan, LogicalTree};
use crate::planner::operator::LogicalOperator;

verus! {

/// The rows that a limit lets through: it skips `offset` of them and keeps
/// at most `limit` of the rest; `None` is no bound.
pub open spec fn limited<A>(rows: Seq<A>, limit: Option<usize>, offset: usize) -> Seq<A> {
    let start = if offset <= rows.len() {
        offset as int
    } else {
        rows.len() as int
    };
    let end = match limit {
        Some(count) if start + count <= rows.len() => start + count,
        _ => rows.len() as int,
    };
    rows.subrange(start, end)
}

/// The limit of two stacked limits taken as one. The inner limit lets `inner`
/// rows through, of which the outer one skips `skip` and keeps at most
/// `outer`; `None` is no bound.
pub open spec fn merged_limit(outer: Option<usize>, skip: usize, inner: Option<usize>) -> Option<
    usize,
> {
    match inner {
        None => outer,
        Some(available) => {
            let rest = if available >= skip {
                (available - skip) as usize
            } else {
                0usize
            };
            match outer {
                None => Some(rest),
                Some(wanted) => Some(if wanted <= rest { wanted } else { rest }),
            }
        },
    }
}

/// Computes [`merged_limit`].
pub fn merge_limit(outer: Option<usize>, skip: usize, inner: Option<usize>) -> (result: Option<
    usize,
>)
    ensures
        result == merged_limit(outer, skip, inner),
{
    match inner {
        None => outer,
        Some(available) => {
            let rest: usize = if available >= skip { available - skip } else { 0 };
            match outer {
                None => Some(rest),
                Some(wanted) => Some(if wanted <= rest { wanted } else { rest }),
            }
        },
    }
}

/// Two stacked limits let through the rows that the merged limit lets
/// through, with the two offsets added: whatever the rows, the limit with
/// `outer` and `skip` over the limit with `inner` and `below` selects what one
/// limit with [`merged_limit`] and both offsets selects.
pub proof fn lemma_merged_limit_selects_same_rows<A>(
    rows: Seq<A>,
    outer: Option<usize>,
    skip: usize,
    inner: Option<usize>,
    below: usize,
)
    requires
        skip + below <= usize::MAX,
    ensures
        limited(limited(rows, inner, below), outer, skip) == limited(
            rows,
            merged_limit(outer, skip, inner),
            (skip + below) as usize,
        ),
{
    assert(limited(limited(rows, inner, below), outer, skip) =~= limited(
        rows,
        merged_limit(outer, skip, inner),
        (skip + below) as usize,
    ));
}

/// Two stacked filters let through the rows that one filter on both
/// predicates lets through. `holds` says on which rows a predicate holds; the
/// law is stated for every such reading under which a conjunction holds
/// exactly where both of its sides hold.
pub proof fn lemma_merged_filter_selects_same_rows<A>(
    rows: Seq<A>,
    holds: spec_fn(Expr, A) -> bool,
    outer: Expr,
    inner: Expr,
)
    requires
        forall|left: Expr, right: Expr, row: A| #[trigger]
            holds(Expr::conjunction(left, right), row) == (holds(left, row) && holds(right, row)),
    ensures
        rows.filter(|row: A| holds(inner, row)).filter(|row: A| holds(outer, row)) == rows.filter(
            |row: A| holds(Expr::conjunction(inner, outer), row),
        ),
    decreases rows.len(),
{
    reveal(Seq::filter);
    let first = |row: A| holds(inner, row);
    let second = |row: A| holds(outer, row);
    let both = |row: A| holds(Expr::conjunction(inner, outer), row);
    if rows.len() > 0 {
        let front = rows.drop_last();
        lemma_merged_filter_selects_same_rows(front, holds, outer, inner);
        if first(rows.last()) {
            let kept = front.filter(first).push(rows.last());
            assert(kept.drop_last() =~= front.filter(first));
            assert(rows.filter(first) == kept);
        }
        assert(rows.filter(first).filter(second) == rows.filter(both));
    } else {
        assert(rows.filter(first).filter(second) == rows.filter(both));
    }
}

/// A limit selects the same rows above a projection as below it: to project
/// every row and then limit is to limit and then project what is left.
pub proof fn lemma_limit_commutes_with_projection<A, B>(
    rows: Seq<A>,
    project: spec_fn(A) -> B,
    limit: Option<usize>,
    offset: usize,
)
    ensures
        limited(rows.map_values(project), limit, offset) == limited(
            rows,
            limit,
            offset,
        ).map_values(project),
{
    assert(limited(rows.map_values(project), limit, offset) =~= limited(
        rows,
        limit,
        offset,
    ).map_values(project));
}

/// A rewrite rule. Every rule looks at a node with a single child that has a
/// single child itself, and at the operators of the two.
#[derive(Clone, Copy, Debug, PartialEq, Eq, Structural)]
pub enum Rule {
    /// A filter over a filter becomes one filter on both predicates, the
    /// inner predicate first.
    MergeFilters,
    /// A limit over a limit becomes one limit, unless the two offsets
    /// together exceed what an offset can hold.
    MergeLimits,
    /// A limit over a projection moves below it, where fewer rows are
    /// projected and another limit may be met.
    PushLimitThroughProject,
}

impl Rule {
    /// Whether the rule replaces two operators by one, rather than
    /// reordering them.
    pub open spec fn folds(self) -> bool {
        self != Rule::PushLimitThroughProject
    }

    /// Whether the rule rewrites `outer` standing over `inner`.
    pub open spec fn mergeable(self, outer: LogicalOperator, inner: LogicalOperator) -> bool {
        match (self, outer, inner) {
            (
                Rule::MergeFilters,
                LogicalOperator::Filter { .. },
                LogicalOperator::Filter { .. },
            ) => true,
            (
                Rule::MergeLimits,
                LogicalOperator::Limit { offset: above, .. },
                LogicalOperator::Limit { offset: below, .. },
            ) => above + below <= usize::MAX,
            (
                Rule::PushLimitThroughProject,
                LogicalOperator::Limit { .. },
                LogicalOperator::Project { .. },
            ) => true,
            _ => false,
        }
    }

    /// The operator that stands for `outer` over `inner`; `outer` itself
    /// where the rule does not fold the two.
    pub open spec fn merged(
        self,
        outer: LogicalOperator,
        inner: LogicalOperator,
    ) -> LogicalOperator {
        match (self, outer, inner) {
            (
                Rule::MergeFilters,
                LogicalOperator::Filter { predicate: second },
                LogicalOperator::Filter { predicate: first },
            ) => LogicalOperator::Filter { predicate: Expr::conjunction(first, second) },
            (
                Rule::MergeLimits,
                LogicalOperator::Limit { limit: wanted, offset: above },
                LogicalOperator::Limit { limit: available, offset: below },
            ) => if above + below <= usize::MAX {
                LogicalOperator::Limit {
                    limit: merged_limit(wanted, above, available),
                    offset: (above + below) as usize,
                }
            } else {
                outer
            },
            _ => outer,
        }
    }

    /// Whether the rule applies at the root of `tree`.
    pub open spec fn matches_tree(self, tree: LogicalTree) -> bool {
        &&& tree.children.len() == 1
        &&& tree.children[0].children.len() == 1
        &&& self.mergeable(tree.operator, tree.children[0].operator)
    }

    /// The tree after the rule was applied at its root: unchanged where the
    /// rule does not apply; else the folded operator over the grandchild,
    /// or, for a rule that reorders, the child's operator over the node's
    /// operator over the grandchild.
    pub open spec fn rewrite(self, tree: LogicalTree) -> LogicalTree {
        if !self.matches_tree(tree) {
            tree
        } else if self.folds() {
            LogicalTree {
                operator: self.merged(tree.operator, tree.children[0].operator),
                children: tree.children[0].children,
            }
        } else {
            LogicalTree {
                operator: tree.children[0].operator,
                children: seq![
                    LogicalTree { operator: tree.operator, children: tree.children[0].children },
                ],
            }
        }
    }

    /// Executable form of [`Rule::mergeable`].
    pub fn can_merge(&self, outer: &LogicalOperator, inner: &LogicalOperator) -> (result: bool)
        ensures
            result == self.mergeable(*outer, *inner),
    {
        match (self, outer, inner) {
            (
                Rule::MergeFilters,
                LogicalOperator::Filter { .. },
                LogicalOperator::Filter { .. },
            ) => true,
            (
                Rule::MergeLimits,
                LogicalOperator::Limit { offset: above, .. },
                LogicalOperator::Limit { offset: below, .. },
            ) => *below <= usize::MAX - *above,
            (
                Rule::PushLimitThroughProject,
                LogicalOperator::Limit { .. },
                LogicalOperator::Project { .. },
            ) => true,
            _ => false,
        }
    }

    /// Executable form of [`Rule::merged`].
    pub fn merge(&self, outer: LogicalOperator, inner: LogicalOperator) -> (result: LogicalOperator)
        ensures
            result == self.merged(outer, inner),
    {
        match (self, outer, inner) {
            (
                Rule::MergeFilters,
                LogicalOperator::Filter { predicate: second },
                LogicalOperator::Filter { predicate: first },
            ) => LogicalOperator::Filter { predicate: Expr::and(first, second) },
            (
                Rule::MergeLimits,
                LogicalOperator::Limit { limit: wanted, offset: above },
                LogicalOperator::Limit { limit: available, offset: below },
            ) => if below <= usize::MAX - above {
                LogicalOperator::Limit {
                    limit: merge_limit(wanted, above, available),
                    offset: above + below,
                }
            } else {
                LogicalOperator::Limit { limit: wanted, offset: above }
            },
            (_, outer, _) => outer,
        }
    }

    /// Whether the rule applies at the root of `plan`.
    pub fn matches(&self, plan: &LogicalPlan) -> (result: bool)
        ensures
            result == self.matches_tree(plan@),
    {
        proof {
            plan.lemma_view();
        }
        if plan.children.len() != 1 {
            return false;
        }
        let child = &plan.children[0];
        proof {
            child.lemma_view();
        }
        child.children.len() == 1 && self.can_merge(&plan.operator, &child.operator)
    }

    /// Applies the rule at the root of `plan`; a plan that the rule does not
    /// match comes back as it was.
    pub fn apply(&self, plan: LogicalPlan) -> (result: LogicalPlan)
        ensures
            result@ == self.rewrite(plan@),
    {
        if !self.matches(&plan) {
            return plan;
        }
        proof {
            plan.lemma_view();
            plan.children[0].lemma_view();
        }
        let LogicalPlan { operator, mut children } = plan;
        match children.pop() {
            Some(child) => {
                let LogicalPlan { operator: inner, children: below } = child;
                match self {
                    Rule::PushLimitThroughProject => {
                        let pushed = LogicalPlan { operator, children: below };
                        let mut above: Vec<LogicalPlan> = Vec::new();
                        above.push(pushed);
                        let result = LogicalPlan { operator: inner, children: above };
                        proof {
                            pushed.lemma_view();
                            result.lemma_view();
                            assert(pushed@.children =~= plan@.children[0].children);
                            assert(result@.children =~= seq![pushed@]);
                        }
                        result
                    },
                    _ => {
                        let result = LogicalPlan {
                            operator: self.merge(operator, inner),
                            children: below,
                        };
                        proof {
                            result.lemma_view();
                            assert(result@.children =~= plan@.children[0].children);
                        }
                        result
                    },
                }
            },
            None => LogicalPlan { operator, children },
        }
    }
}

} // verus!
