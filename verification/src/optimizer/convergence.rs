//! When the heuristic engine is sure to converge: rules that fold two nodes
//! into one make a tree smaller each time they apply, so on a tree of `n`
//! nodes fewer than `n` passes can change anything.

use vstd::prelude::*;
use crate::optimizer::heuristic::{
    apply_first,
    iterate,
    pass_first,
    sweep,
    sweep_first,
    HepOptimizer,
};
use crate::optimizer::rule::Rule;
use crate::planner::logical_plan::LogicalTree;

verus! {

/// Every rule of the list folds two operators into one.
pub open spec fn all_fold(rules: Seq<Rule>) -> bool {
    forall|i: int| 0 <= i < rules.len() ==> (#[trigger] rules[i]).folds()
}

/// Every rule of every batch folds two operators into one.
pub open spec fn folding(batches: Seq<Vec<Rule>>) -> bool {
    forall|j: int| 0 <= j < batches.len() ==> all_fold((#[trigger] batches[j])@)
}

/// A node with a single child has one node more than the child.
pub proof fn lemma_size_over_single_child(tree: LogicalTree)
    requires
        tree.children.len() == 1,
    ensures
        tree.size() == 1 + tree.children[0].size(),
{
    assert(tree.size_of_first(0) == 0);
    assert(tree.size_of_first(1) == tree.size_of_first(0) + tree.children[0].size());
}

/// No rule makes a tree larger, and a rule that folds makes the tree it
/// applies to smaller.
pub proof fn lemma_rule_never_grows(rule: Rule, tree: LogicalTree)
    ensures
        rule.rewrite(tree).size() <= tree.size(),
        rule.folds() && rule.matches_tree(tree) ==> rule.rewrite(tree).size() < tree.size(),
{
    if rule.matches_tree(tree) {
        let result = rule.rewrite(tree);
        lemma_size_over_single_child(tree);
        lemma_size_over_single_child(tree.children[0]);
        lemma_size_over_single_child(result);
        if !rule.folds() {
            lemma_size_over_single_child(result.children[0]);
        }
    }
}

/// Folding rules tried at a node make the tree smaller if any applied, and
/// leave its size else.
pub proof fn lemma_root_shrinks(rules: Seq<Rule>, k: nat, tree: LogicalTree)
    requires
        all_fold(rules),
    ensures
        apply_first(rules, k, tree).tree.size() <= tree.size(),
        apply_first(rules, k, tree).changed ==> apply_first(rules, k, tree).tree.size()
            < tree.size(),
    decreases k,
{
    if 0 < k <= rules.len() {
        lemma_root_shrinks(rules, (k - 1) as nat, tree);
        lemma_rule_never_grows(rules[k - 1], apply_first(rules, (k - 1) as nat, tree).tree);
    }
}

/// The first `k` children after a sweep are the children, each swept, and
/// a rule applied among them exactly if it applied in one of them.
pub proof fn lemma_swept_children(rules: Seq<Rule>, tree: LogicalTree, k: nat)
    requires
        k <= tree.children.len(),
    ensures
        sweep_first(rules, tree, k).trees.len() == k,
        forall|i: int|
            0 <= i < k ==> #[trigger] sweep_first(rules, tree, k).trees[i] == sweep(
                rules,
                tree.children[i],
            ).tree,
        sweep_first(rules, tree, k).changed <==> exists|i: int|
            0 <= i < k && (#[trigger] sweep(rules, tree.children[i])).changed,
    decreases k,
{
    if k > 0 {
        lemma_swept_children(rules, tree, (k - 1) as nat);
        if sweep_first(rules, tree, k).changed {
            if sweep(rules, tree.children[k - 1]).changed {
            } else {
                let i = choose|i: int|
                    0 <= i < k - 1 && (#[trigger] sweep(rules, tree.children[i])).changed;
                assert(sweep(rules, tree.children[i]).changed);
            }
        }
    }
}

/// A node whose first `k` children are each no larger than those of
/// another has no more nodes in them, and fewer if one child is smaller.
pub proof fn lemma_sizes_compare(small: LogicalTree, large: LogicalTree, k: nat)
    requires
        k <= small.children.len() == large.children.len(),
        forall|i: int|
            0 <= i < k ==> (#[trigger] small.children[i]).size() <= large.children[i].size(),
    ensures
        small.size_of_first(k) <= large.size_of_first(k),
        (exists|i: int|
            0 <= i < k && (#[trigger] small.children[i]).size() < large.children[i].size())
            ==> small.size_of_first(k) < large.size_of_first(k),
    decreases k,
{
    if k > 0 {
        lemma_sizes_compare(small, large, (k - 1) as nat);
        assert(small.children[k - 1].size() <= large.children[k - 1].size());
        if exists|i: int|
            0 <= i < k && (#[trigger] small.children[i]).size() < large.children[i].size() {
            let i = choose|i: int|
                0 <= i < k && (#[trigger] small.children[i]).size() < large.children[i].size();
            if i < k - 1 {
                assert(small.children[i].size() < large.children[i].size());
            }
        }
    }
}

/// A sweep of folding rules makes the tree smaller if any rule applied, and
/// leaves its size else.
pub proof fn lemma_sweep_shrinks(rules: Seq<Rule>, tree: LogicalTree)
    requires
        all_fold(rules),
    ensures
        sweep(rules, tree).tree.size() <= tree.size(),
        sweep(rules, tree).changed ==> sweep(rules, tree).tree.size() < tree.size(),
    decreases tree,
{
    let count = tree.children.len();
    let below = sweep_first(rules, tree, count);
    let node = LogicalTree { operator: tree.operator, children: below.trees };
    lemma_swept_children(rules, tree, count);
    assert forall|i: int| 0 <= i < count implies (#[trigger] node.children[i]).size()
        <= tree.children[i].size() by {
        lemma_sweep_shrinks(rules, tree.children[i]);
    }
    if below.changed {
        let i = choose|i: int|
            0 <= i < count && (#[trigger] sweep(rules, tree.children[i])).changed;
        lemma_sweep_shrinks(rules, tree.children[i]);
        assert(node.children[i].size() < tree.children[i].size());
    }
    lemma_sizes_compare(node, tree, count);
    lemma_root_shrinks(rules, rules.len(), node);
}

/// A pass of folding batches makes the tree smaller if any rule applied.
pub proof fn lemma_pass_shrinks(batches: Seq<Vec<Rule>>, k: nat, tree: LogicalTree)
    requires
        folding(batches),
    ensures
        pass_first(batches, k, tree).tree.size() <= tree.size(),
        pass_first(batches, k, tree).changed ==> pass_first(batches, k, tree).tree.size()
            < tree.size(),
    decreases k,
{
    if 0 < k <= batches.len() {
        lemma_pass_shrinks(batches, (k - 1) as nat, tree);
        lemma_sweep_shrinks(batches[k - 1]@, pass_first(batches, (k - 1) as nat, tree).tree);
    }
}

/// With folding batches and as many passes allowed as the tree has nodes,
/// a run converges.
pub proof fn lemma_run_converges(batches: Seq<Vec<Rule>>, remaining: nat, tree: LogicalTree)
    requires
        folding(batches),
        remaining >= tree.size(),
    ensures
        iterate(batches, remaining, tree).converged,
    decreases remaining,
{
    let pass = pass_first(batches, batches.len(), tree);
    lemma_pass_shrinks(batches, batches.len(), tree);
    if pass.changed {
        lemma_run_converges(batches, (remaining - 1) as nat, pass.tree);
    }
}

impl HepOptimizer {
    /// An engine whose rules all fold converges on every plan that has no
    /// more nodes than the engine may make passes.
    pub proof fn lemma_folding_engine_converges(self, tree: LogicalTree)
        requires
            folding(self.batches@),
            self.max_passes >= tree.size(),
        ensures
            self.optimized(tree).converged,
    {
        lemma_run_converges(self.batches@, self.max_passes as nat, tree);
    }
}

} // verus!
