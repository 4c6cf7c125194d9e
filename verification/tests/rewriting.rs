use plan_optimizer::optimizer::heuristic::{HepOptimizer, DEFAULT_MAX_PASSES};
use plan_optimizer::optimizer::operator::PhysicalOperator;
use plan_optimizer::optimizer::rule::{merge_limit, Rule};
use plan_optimizer::optimizer::Optimizer;
use plan_optimizer::planner::expr::{BinaryOp, Expr};
use plan_optimizer::planner::logical_plan::LogicalPlan;
use plan_optimizer::planner::operator::LogicalOperator;

fn scan() -> LogicalPlan {
    LogicalPlan::leaf(LogicalOperator::Scan { table_oid: 1, columns: vec!["a".to_string()] })
}

fn filter(column: usize, child: LogicalPlan) -> LogicalPlan {
    LogicalPlan::new(LogicalOperator::Filter { predicate: Expr::Column(column) }, vec![child])
}

fn limit(limit: Option<usize>, offset: usize, child: LogicalPlan) -> LogicalPlan {
    LogicalPlan::new(LogicalOperator::Limit { limit, offset }, vec![child])
}

fn project(column: usize, child: LogicalPlan) -> LogicalPlan {
    LogicalPlan::new(
        LogicalOperator::Project { expressions: vec![Expr::Column(column)] },
        vec![child],
    )
}

fn both(left: Expr, right: Expr) -> Expr {
    Expr::Binary { op: BinaryOp::And, left: Box::new(left), right: Box::new(right) }
}

#[test]
fn conjunction_keeps_both_sides_in_order() {
    assert_eq!(
        Expr::and(Expr::Column(1), Expr::Literal(4)),
        both(Expr::Column(1), Expr::Literal(4))
    );
}

#[test]
fn stacked_limits_merge_to_the_rows_both_let_through() {
    assert_eq!(merge_limit(Some(10), 2, Some(5)), Some(3));
    assert_eq!(merge_limit(Some(2), 2, Some(5)), Some(2));
    assert_eq!(merge_limit(Some(10), 7, Some(5)), Some(0));
    assert_eq!(merge_limit(None, 1, Some(5)), Some(4));
    assert_eq!(merge_limit(Some(10), 3, None), Some(10));
    assert_eq!(merge_limit(None, 3, None), None);
}

#[test]
fn merge_filters_puts_inner_predicate_first() {
    let plan = filter(1, filter(2, scan()));
    assert!(Rule::MergeFilters.matches(&plan));
    assert!(!Rule::MergeLimits.matches(&plan));
    let merged = Rule::MergeFilters.apply(plan);
    assert_eq!(
        merged,
        LogicalPlan::new(
            LogicalOperator::Filter { predicate: both(Expr::Column(2), Expr::Column(1)) },
            vec![scan()],
        )
    );
}

#[test]
fn merge_limits_adds_offsets() {
    let plan = limit(Some(10), 2, limit(Some(5), 3, scan()));
    assert!(Rule::MergeLimits.matches(&plan));
    assert_eq!(Rule::MergeLimits.apply(plan), limit(Some(3), 5, scan()));
}

#[test]
fn merge_limits_leaves_offsets_that_do_not_fit() {
    let plan = limit(Some(1), usize::MAX, limit(Some(5), 1, scan()));
    assert!(!Rule::MergeLimits.matches(&plan));
    assert_eq!(
        Rule::MergeLimits.apply(plan),
        limit(Some(1), usize::MAX, limit(Some(5), 1, scan()))
    );
    let fits = limit(None, usize::MAX - 1, limit(None, 1, scan()));
    assert_eq!(Rule::MergeLimits.apply(fits), limit(None, usize::MAX, scan()));
}

#[test]
fn rule_leaves_other_plans_alone() {
    assert!(!Rule::MergeFilters.matches(&scan()));
    assert_eq!(Rule::MergeFilters.apply(filter(1, scan())), filter(1, scan()));
    assert_eq!(
        Rule::MergeFilters.apply(filter(1, limit(None, 0, scan()))),
        filter(1, limit(None, 0, scan()))
    );
    let no_grandchild = filter(1, LogicalPlan::new(
        LogicalOperator::Filter { predicate: Expr::Column(2) },
        vec![],
    ));
    assert!(!Rule::MergeFilters.matches(&no_grandchild));
}

#[test]
fn operators_merge_only_under_their_rule() {
    let outer = LogicalOperator::Filter { predicate: Expr::Column(1) };
    let inner = LogicalOperator::Filter { predicate: Expr::Column(2) };
    assert!(Rule::MergeFilters.can_merge(&outer, &inner));
    assert!(!Rule::MergeLimits.can_merge(&outer, &inner));
    assert_eq!(
        Rule::MergeLimits.merge(outer, inner),
        LogicalOperator::Filter { predicate: Expr::Column(1) }
    );
}

#[test]
fn rules_apply_in_order_at_the_root() {
    let rules = vec![Rule::MergeLimits, Rule::MergeFilters];
    let (plan, changed) = HepOptimizer::apply_rules(&rules, filter(1, filter(2, scan())));
    assert!(changed);
    assert_eq!(
        plan,
        LogicalPlan::new(
            LogicalOperator::Filter { predicate: both(Expr::Column(2), Expr::Column(1)) },
            vec![scan()],
        )
    );
    let (plan, changed) = HepOptimizer::apply_rules(&rules, scan());
    assert!(!changed);
    assert_eq!(plan, scan());
}

#[test]
fn sweep_rewrites_children_before_parents() {
    let rules = vec![Rule::MergeFilters];
    let (plan, changed) =
        HepOptimizer::sweep_plan(&rules, filter(1, filter(2, filter(3, scan()))));
    assert!(changed);
    assert_eq!(
        plan,
        LogicalPlan::new(
            LogicalOperator::Filter {
                predicate: both(both(Expr::Column(3), Expr::Column(2)), Expr::Column(1)),
            },
            vec![scan()],
        )
    );
}

#[test]
fn engine_converges_and_counts_passes() {
    let engine = HepOptimizer::default();
    assert_eq!(engine.max_passes, DEFAULT_MAX_PASSES);
    assert_eq!(engine.batches, vec![vec![Rule::MergeFilters, Rule::MergeLimits]]);
    let plan = limit(Some(4), 1, limit(Some(9), 2, filter(1, filter(2, scan()))));
    let outcome = engine.optimize(plan);
    assert!(outcome.converged);
    assert_eq!(outcome.passes, 2);
    assert_eq!(
        outcome.plan,
        limit(
            Some(4),
            3,
            LogicalPlan::new(
                LogicalOperator::Filter { predicate: both(Expr::Column(2), Expr::Column(1)) },
                vec![scan()],
            ),
        )
    );
}

#[test]
fn engine_without_work_converges_in_one_pass() {
    let outcome = HepOptimizer::default().optimize(filter(1, scan()));
    assert!(outcome.converged);
    assert_eq!(outcome.passes, 1);
    assert_eq!(outcome.plan, filter(1, scan()));
}

#[test]
fn engine_reports_when_the_bound_is_reached() {
    let engine = HepOptimizer::new(vec![vec![Rule::MergeFilters]], 1);
    let outcome = engine.optimize(filter(1, filter(2, scan())));
    assert!(!outcome.converged);
    assert_eq!(outcome.passes, 1);
    assert_eq!(
        outcome.plan,
        LogicalPlan::new(
            LogicalOperator::Filter { predicate: both(Expr::Column(2), Expr::Column(1)) },
            vec![scan()],
        )
    );
}

#[test]
fn engine_with_no_pass_allowed_returns_its_input() {
    let engine = HepOptimizer::new(vec![vec![Rule::MergeFilters]], 0);
    let outcome = engine.optimize(filter(1, filter(2, scan())));
    assert!(!outcome.converged);
    assert_eq!(outcome.passes, 0);
    assert_eq!(outcome.plan, filter(1, filter(2, scan())));
}

#[test]
fn batches_run_in_order_within_a_pass() {
    let engine = HepOptimizer::new(vec![vec![Rule::MergeLimits], vec![Rule::MergeFilters]], 8);
    let (plan, changed) = engine.pass(filter(1, filter(2, limit(None, 1, limit(None, 2, scan())))));
    assert!(changed);
    assert_eq!(
        plan,
        LogicalPlan::new(
            LogicalOperator::Filter { predicate: both(Expr::Column(2), Expr::Column(1)) },
            vec![limit(None, 3, scan())],
        )
    );
}

#[test]
fn second_run_on_a_converged_plan_changes_nothing() {
    let engine = HepOptimizer::default();
    let first = engine.optimize(filter(1, filter(2, filter(3, scan()))));
    assert!(first.converged);
    let expected = LogicalPlan::new(
        LogicalOperator::Filter {
            predicate: both(both(Expr::Column(3), Expr::Column(2)), Expr::Column(1)),
        },
        vec![scan()],
    );
    assert_eq!(first.plan, expected);
    let second = engine.optimize(first.plan);
    assert!(second.converged);
    assert_eq!(second.passes, 1);
    assert_eq!(second.plan, expected);
    assert_eq!(engine.find_best(second.plan), expected);
}

#[test]
fn optimizer_rewrites_before_it_lowers() {
    let physical = Optimizer::new().find_best(filter(1, filter(2, scan()))).unwrap();
    assert_eq!(
        physical.operator,
        PhysicalOperator::Filter { predicate: both(Expr::Column(2), Expr::Column(1)) }
    );
    assert_eq!(physical.children.len(), 1);
    assert_eq!(
        physical.children[0].operator,
        PhysicalOperator::TableScan { table_oid: 1, columns: vec!["a".to_string()] }
    );
    assert!(physical.children[0].children.is_empty());
}

#[test]
fn limit_moves_below_projection() {
    let plan = limit(Some(3), 1, project(0, scan()));
    assert!(Rule::PushLimitThroughProject.matches(&plan));
    assert!(!Rule::MergeLimits.matches(&plan));
    assert_eq!(
        Rule::PushLimitThroughProject.apply(plan),
        project(0, limit(Some(3), 1, scan()))
    );
    assert!(!Rule::PushLimitThroughProject.matches(&project(0, limit(None, 0, scan()))));
    assert_eq!(
        Rule::PushLimitThroughProject.apply(limit(None, 0, filter(1, scan()))),
        limit(None, 0, filter(1, scan()))
    );
}

#[test]
fn standard_rules_keep_limit_above_projection() {
    let outcome = HepOptimizer::default().optimize(limit(Some(3), 1, project(0, scan())));
    assert!(outcome.converged);
    assert_eq!(outcome.passes, 1);
    assert_eq!(outcome.plan, limit(Some(3), 1, project(0, scan())));
}

#[test]
fn pushed_limit_meets_another_in_the_next_pass() {
    let rules = vec![vec![Rule::MergeLimits, Rule::PushLimitThroughProject]];
    let engine = HepOptimizer::new(rules, 8);
    let outcome = engine.optimize(limit(Some(4), 1, project(0, limit(Some(9), 2, scan()))));
    assert!(outcome.converged);
    assert_eq!(outcome.passes, 3);
    assert_eq!(outcome.plan, project(0, limit(Some(4), 3, scan())));
    let again = engine.optimize(outcome.plan);
    assert!(again.converged);
    assert_eq!(again.passes, 1);
    assert_eq!(again.plan, project(0, limit(Some(4), 3, scan())));
}

#[test]
fn second_run_goes_on_where_the_bound_stopped_the_first() {
    let rules = vec![vec![Rule::MergeLimits, Rule::PushLimitThroughProject]];
    let engine = HepOptimizer::new(rules, 1);
    let first = engine.optimize(limit(Some(4), 1, project(0, limit(Some(9), 2, scan()))));
    assert!(!first.converged);
    assert_eq!(first.passes, 1);
    assert_eq!(first.plan, project(0, limit(Some(4), 1, limit(Some(9), 2, scan()))));
    let second = engine.optimize(first.plan);
    assert!(!second.converged);
    assert_eq!(second.plan, project(0, limit(Some(4), 3, scan())));
}

#[test]
fn optimizer_reports_how_rewriting_ended() {
    let report = Optimizer::new().optimize(filter(1, filter(2, scan())));
    assert!(report.converged);
    assert_eq!(report.passes, 2);
    let physical = report.plan.unwrap();
    assert_eq!(
        physical.operator,
        PhysicalOperator::Filter { predicate: both(Expr::Column(2), Expr::Column(1)) }
    );
    let bounded = Optimizer::with_heuristic(HepOptimizer::new(vec![vec![Rule::MergeFilters]], 1));
    let report = bounded.optimize(filter(1, filter(2, scan())));
    assert!(!report.converged);
    assert_eq!(report.passes, 1);
    assert_eq!(report.plan.unwrap().children.len(), 1);
}

#[test]
fn rewriting_keeps_the_number_of_children_right() {
    let rules = vec![vec![Rule::MergeFilters, Rule::MergeLimits, Rule::PushLimitThroughProject]];
    let optimizer = Optimizer::with_heuristic(HepOptimizer::new(rules, 8));
    let plan = limit(Some(5), 0, project(0, filter(1, filter(2, limit(None, 4, scan())))));
    let physical = optimizer.find_best(plan).unwrap();
    assert_eq!(
        physical.operator,
        PhysicalOperator::Project { expressions: vec![Expr::Column(0)] }
    );
    assert_eq!(physical.children.len(), 1);
    let limit_node = &physical.children[0];
    assert_eq!(limit_node.operator, PhysicalOperator::Limit { limit: Some(5), offset: 0 });
    assert_eq!(limit_node.children.len(), 1);
    let filter_node = &limit_node.children[0];
    assert_eq!(
        filter_node.operator,
        PhysicalOperator::Filter { predicate: both(Expr::Column(2), Expr::Column(1)) }
    );
    assert_eq!(filter_node.children.len(), 1);
    assert_eq!(
        filter_node.children[0].operator,
        PhysicalOperator::Limit { limit: None, offset: 4 }
    );
}

#[test]
fn expression_clone_is_deep() {
    let expr = both(both(Expr::Column(3), Expr::Literal(-2)), Expr::Column(1));
    assert_eq!(expr.clone(), both(both(Expr::Column(3), Expr::Literal(-2)), Expr::Column(1)));
}

#[test]
fn optimizer_starts_with_the_standard_rules() {
    let optimizer = Optimizer::new();
    assert_eq!(optimizer.hep_optimizer, HepOptimizer::default());
    assert_eq!(
        optimizer.hep_optimizer,
        HepOptimizer::new(vec![vec![Rule::MergeFilters, Rule::MergeLimits]], DEFAULT_MAX_PASSES)
    );
    let custom = Optimizer::with_heuristic(HepOptimizer::new(vec![], 0));
    assert_eq!(custom.hep_optimizer.max_passes, 0);
    assert!(custom.hep_optimizer.batches.is_empty());
    assert_eq!(custom.find_best(filter(1, filter(2, scan()))).unwrap().children.len(), 1);
}

#[test]
fn folding_rules_converge_within_as_many_passes_as_nodes() {
    let engine = HepOptimizer::new(vec![vec![Rule::MergeFilters], vec![Rule::MergeLimits]], 2);
    let outcome = engine.optimize(filter(1, scan()));
    assert!(outcome.converged);
    let engine = HepOptimizer::new(vec![vec![Rule::MergeFilters], vec![Rule::MergeLimits]], 4);
    let outcome = engine.optimize(filter(1, filter(2, limit(None, 0, scan()))));
    assert!(outcome.converged);
    assert!(outcome.passes <= 4);
    assert_eq!(
        outcome.plan,
        LogicalPlan::new(
            LogicalOperator::Filter { predicate: both(Expr::Column(2), Expr::Column(1)) },
            vec![limit(None, 0, scan())],
        )
    );
}
