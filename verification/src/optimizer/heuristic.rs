//! The heuristic engine: rule batches applied bottom-up, pass after pass,
//! until a pass changes nothing or the bound on passes is reached.

use vstd::prelude::*;
use crate::optimizer::physical_optimizer::physical_operator;
use crate::optimizer::rule::Rule;
use crate::planner::logical_plan::{LogicalPlan, LogicalTree};

verus! {

/// A tree after rewriting, and whether any rule applied on the way.
pub struct Rewritten {
    pub tree: LogicalTree,
    pub changed: bool,
}

/// The children of a node after rewriting, and whether any rule applied in
/// any of them.
pub struct RewrittenChildren {
    pub trees: Seq<LogicalTree>,
    pub changed: bool,
}

/// What a run of the engine ends with.
pub struct Optimized {
    /// The tree after the last pass that ran.
    pub tree: LogicalTree,
    /// Whether the last pass that ran applied no rule.
    pub converged: bool,
    /// How many passes ran.
    pub passes: nat,
}

/// The first `k` rules of `rules`, tried in order at the root of `tree`,
/// each on what the rules before it left.
pub open spec fn apply_first(rules: Seq<Rule>, k: nat, tree: LogicalTree) -> Rewritten
    decreases k,
{
    if k == 0 || k > rules.len() {
        Rewritten { tree, changed: false }
    } else {
        let before = apply_first(rules, (k - 1) as nat, tree);
        if rules[k - 1].matches_tree(before.tree) {
            Rewritten { tree: rules[k - 1].rewrite(before.tree), changed: true }
        } else {
            before
        }
    }
}

/// One traversal of `tree` with the rules of one batch: the children are
/// rewritten first, from left to right, then the rules are tried at the
/// node over the rewritten children.
pub open spec fn sweep(rules: Seq<Rule>, tree: LogicalTree) -> Rewritten
    decreases tree, tree.children.len() + 1,
{
    let below = sweep_first(rules, tree, tree.children.len());
    let here = apply_first(
        rules,
        rules.len(),
        LogicalTree { operator: tree.operator, children: below.trees },
    );
    Rewritten { tree: here.tree, changed: below.changed || here.changed }
}

/// The first `k` children of `tree` after [`sweep`].
pub open spec fn sweep_first(rules: Seq<Rule>, tree: LogicalTree, k: nat) -> RewrittenChildren
    decreases tree, k,
{
    if k == 0 || k > tree.children.len() {
        RewrittenChildren { trees: Seq::empty(), changed: false }
    } else {
        let before = sweep_first(rules, tree, (k - 1) as nat);
        let child = sweep(rules, tree.children[k - 1]);
        RewrittenChildren {
            trees: before.trees.push(child.tree),
            changed: before.changed || child.changed,
        }
    }
}

/// The first `k` batches, each swept once over what the batches before it
/// left.
pub open spec fn pass_first(batches: Seq<Vec<Rule>>, k: nat, tree: LogicalTree) -> Rewritten
    decreases k,
{
    if k == 0 || k > batches.len() {
        Rewritten { tree, changed: false }
    } else {
        let before = pass_first(batches, (k - 1) as nat, tree);
        let swept = sweep(batches[k - 1]@, before.tree);
        Rewritten { tree: swept.tree, changed: before.changed || swept.changed }
    }
}

/// Passes over `tree`, at most `remaining` of them, up to and including the
/// first that applies no rule.
pub open spec fn iterate(batches: Seq<Vec<Rule>>, remaining: nat, tree: LogicalTree) -> Optimized
    decreases remaining,
{
    if remaining == 0 {
        Optimized { tree, converged: false, passes: 0 }
    } else {
        let pass = pass_first(batches, batches.len(), tree);
        if !pass.changed {
            Optimized { tree: pass.tree, converged: true, passes: 1 }
        } else {
            let rest = iterate(batches, (remaining - 1) as nat, pass.tree);
            Optimized { tree: rest.tree, converged: rest.converged, passes: rest.passes + 1 }
        }
    }
}

/// A plan as the engine left it.
#[derive(Debug, PartialEq, Eq)]
pub struct HepOutcome {
    pub plan: LogicalPlan,
    /// Whether the last pass applied no rule. Where it is `false` the bound
    /// on passes was reached first, and the plan is that of the last pass.
    pub converged: bool,
    /// How many passes ran.
    pub passes: usize,
}

/// The heuristic engine: batches of rules in the order in which they run,
/// and the greatest number of passes over a plan.
#[derive(Debug, PartialEq, Eq)]
pub struct HepOptimizer {
    pub batches: Vec<Vec<Rule>>,
    pub max_passes: usize,
}

/// The bound on passes of the standard configuration.
pub const DEFAULT_MAX_PASSES: usize = 16;

impl Default for HepOptimizer {
    /// The standard configuration: one batch that merges filters, then
    /// limits. It reorders nothing.
    fn default() -> (result: HepOptimizer)
        ensures
            result.max_passes == DEFAULT_MAX_PASSES,
            result.batches@.len() == 1,
            result.batches@[0]@ == seq![Rule::MergeFilters, Rule::MergeLimits],
    {
        let mut rules: Vec<Rule> = Vec::new();
        rules.push(Rule::MergeFilters);
        rules.push(Rule::MergeLimits);
        assert(rules@ =~= seq![Rule::MergeFilters, Rule::MergeLimits]);
        let mut batches: Vec<Vec<Rule>> = Vec::new();
        batches.push(rules);
        HepOptimizer { batches, max_passes: DEFAULT_MAX_PASSES }
    }
}

impl HepOptimizer {
    /// An engine with the given batches and bound on passes.
    pub fn new(batches: Vec<Vec<Rule>>, max_passes: usize) -> (result: HepOptimizer)
        ensures
            result.batches == batches,
            result.max_passes == max_passes,
    {
        HepOptimizer { batches, max_passes }
    }

    /// What a run of this engine on `tree` ends with.
    pub open spec fn optimized(self, tree: LogicalTree) -> Optimized {
        iterate(self.batches@, self.max_passes as nat, tree)
    }

    /// Tries the rules in order at the root of `plan`.
    pub fn apply_rules(rules: &Vec<Rule>, plan: LogicalPlan) -> (result: (LogicalPlan, bool))
        ensures
            result.0@ == apply_first(rules@, rules@.len(), plan@).tree,
            result.1 == apply_first(rules@, rules@.len(), plan@).changed,
    {
        let mut current = plan;
        let mut changed = false;
        let mut index: usize = 0;
        while index < rules.len()
            invariant
                index <= rules@.len(),
                apply_first(rules@, index as nat, plan@) == (Rewritten {
                    tree: current@,
                    changed,
                }),
            decreases rules@.len() - index,
        {
            let rule = rules[index];
            if rule.matches(&current) {
                current = rule.apply(current);
                changed = true;
            }
            index = index + 1;
        }
        (current, changed)
    }

    /// Sweeps the rules once over `plan`, children before parents.
    pub fn sweep_plan(rules: &Vec<Rule>, plan: LogicalPlan) -> (result: (LogicalPlan, bool))
        ensures
            result.0@ == sweep(rules@, plan@).tree,
            result.1 == sweep(rules@, plan@).changed,
        decreases plan,
    {
        let ghost tree = plan@;
        let ghost whole = plan;
        proof {
            whole.lemma_view();
        }
        let LogicalPlan { operator, children } = plan;
        let count = children.len();
        let ghost kids = children@;
        let mut rewritten: Vec<LogicalPlan> = Vec::new();
        let mut changed = false;
        assert(rewritten@.map_values(|p: LogicalPlan| p@) =~= Seq::empty());
        for child in it: children
            invariant
                it.seq() == kids,
                kids == whole.children@,
                whole == plan,
                tree == whole@,
                kids.len() == count,
                tree.children.len() == count,
                forall|i: int| 0 <= i < count ==> #[trigger] tree.children[i] == kids[i]@,
                sweep_first(rules@, tree, it.index() as nat) == (RewrittenChildren {
                    trees: rewritten@.map_values(|p: LogicalPlan| p@),
                    changed,
                }),
        {
            assert(decreases_to!(whole.children => whole.children[it.index() as int]));
            assert(child@ == tree.children[it.index() as int]);
            let (next, moved) = Self::sweep_plan(rules, child);
            let ghost before = rewritten@.map_values(|p: LogicalPlan| p@);
            rewritten.push(next);
            assert(rewritten@.map_values(|p: LogicalPlan| p@) =~= before.push(next@));
            changed = changed || moved;
        }
        let node = LogicalPlan::new(operator, rewritten);
        let (node, here) = Self::apply_rules(rules, node);
        (node, changed || here)
    }

    /// One pass: every batch, in order, swept once over the plan.
    pub fn pass(&self, plan: LogicalPlan) -> (result: (LogicalPlan, bool))
        ensures
            result.0@ == pass_first(self.batches@, self.batches@.len(), plan@).tree,
            result.1 == pass_first(self.batches@, self.batches@.len(), plan@).changed,
    {
        let mut current = plan;
        let mut changed = false;
        let mut index: usize = 0;
        while index < self.batches.len()
            invariant
                index <= self.batches@.len(),
                pass_first(self.batches@, index as nat, plan@) == (Rewritten {
                    tree: current@,
                    changed,
                }),
            decreases self.batches@.len() - index,
        {
            let (next, moved) = Self::sweep_plan(&self.batches[index], current);
            current = next;
            changed = changed || moved;
            index = index + 1;
        }
        (current, changed)
    }

    /// Runs passes until one applies no rule, or `max_passes` of them ran,
    /// and says which of the two ended the run.
    pub fn optimize(&self, plan: LogicalPlan) -> (result: HepOutcome)
        ensures
            result.plan@ == self.optimized(plan@).tree,
            result.converged == self.optimized(plan@).converged,
            result.passes == self.optimized(plan@).passes,
    {
        let mut current = plan;
        let mut passes: usize = 0;
        while passes < self.max_passes
            invariant
                passes <= self.max_passes,
                self.optimized(plan@) == ({
                    let rest = iterate(
                        self.batches@,
                        (self.max_passes - passes) as nat,
                        current@,
                    );
                    Optimized {
                        tree: rest.tree,
                        converged: rest.converged,
                        passes: rest.passes + passes as nat,
                    }
                }),
            decreases self.max_passes - passes,
        {
            let (next, changed) = self.pass(current);
            passes = passes + 1;
            if !changed {
                return HepOutcome { plan: next, converged: true, passes };
            }
            current = next;
        }
        HepOutcome { plan: current, converged: false, passes }
    }

    /// The plan after heuristic rewriting. Reaching the bound on passes is
    /// no failure: the plan of the last pass is returned.
    pub fn find_best(&self, logical_plan: LogicalPlan) -> (result: LogicalPlan)
        ensures
            result@ == self.optimized(logical_plan@).tree,
    {
        self.optimize(logical_plan).plan
    }
}

/// Rules that did not apply at a node left it as it was.
pub proof fn lemma_unchanged_root(rules: Seq<Rule>, k: nat, tree: LogicalTree)
    ensures
        !apply_first(rules, k, tree).changed ==> apply_first(rules, k, tree).tree == tree,
    decreases k,
{
    if 0 < k <= rules.len() {
        lemma_unchanged_root(rules, (k - 1) as nat, tree);
    }
}

/// A sweep in which no rule applied left the tree as it was.
pub proof fn lemma_unchanged_sweep(rules: Seq<Rule>, tree: LogicalTree)
    ensures
        !sweep(rules, tree).changed ==> sweep(rules, tree).tree == tree,
    decreases tree, tree.children.len() + 1,
{
    let below = sweep_first(rules, tree, tree.children.len());
    lemma_unchanged_children(rules, tree, tree.children.len());
    if !below.changed {
        assert(below.trees =~= tree.children);
        lemma_unchanged_root(rules, rules.len(), tree);
    }
}

/// A sweep in which no rule applied in the first `k` children left them as
/// they were.
pub proof fn lemma_unchanged_children(rules: Seq<Rule>, tree: LogicalTree, k: nat)
    requires
        k <= tree.children.len(),
    ensures
        sweep_first(rules, tree, k).trees.len() == k,
        !sweep_first(rules, tree, k).changed ==> sweep_first(rules, tree, k).trees
            == tree.children.take(k as int),
    decreases tree, k,
{
    if k > 0 {
        lemma_unchanged_children(rules, tree, (k - 1) as nat);
        lemma_unchanged_sweep(rules, tree.children[k - 1]);
        if !sweep_first(rules, tree, k).changed {
            assert(sweep_first(rules, tree, k).trees =~= tree.children.take(k as int));
        }
    } else {
        assert(sweep_first(rules, tree, k).trees =~= tree.children.take(k as int));
    }
}

/// Batches of which no rule applied left the tree as it was.
pub proof fn lemma_unchanged_pass(batches: Seq<Vec<Rule>>, k: nat, tree: LogicalTree)
    ensures
        !pass_first(batches, k, tree).changed ==> pass_first(batches, k, tree).tree == tree,
    decreases k,
{
    if 0 < k <= batches.len() {
        lemma_unchanged_pass(batches, (k - 1) as nat, tree);
        lemma_unchanged_sweep(batches[k - 1]@, pass_first(batches, (k - 1) as nat, tree).tree);
    }
}

/// A run that converged ends with a tree on which a further pass applies no
/// rule.
pub proof fn lemma_converged_is_fixpoint(
    batches: Seq<Vec<Rule>>,
    remaining: nat,
    tree: LogicalTree,
)
    requires
        iterate(batches, remaining, tree).converged,
    ensures
        pass_first(batches, batches.len(), iterate(batches, remaining, tree).tree) == (Rewritten {
            tree: iterate(batches, remaining, tree).tree,
            changed: false,
        }),
    decreases remaining,
{
    if remaining > 0 {
        let pass = pass_first(batches, batches.len(), tree);
        if !pass.changed {
            lemma_unchanged_pass(batches, batches.len(), tree);
        } else {
            lemma_converged_is_fixpoint(batches, (remaining - 1) as nat, pass.tree);
        }
    }
}

/// What validity means for a node with a single child.
pub proof fn lemma_single_child(tree: LogicalTree)
    requires
        tree.children.len() == 1,
    ensures
        tree.well_formed() <==> tree.operator.accepts_arity(1) && tree.children[0].well_formed(),
        tree.supported() <==> physical_operator(tree.operator) is Some
            && tree.children[0].supported(),
{
    if tree.well_formed() {
        assert(tree.children[0].well_formed());
    }
    if tree.supported() {
        assert(tree.children[0].supported());
    }
}

/// A rule neither mends nor breaks a tree: after it, every node has the
/// number of children that its operator takes exactly if that was so before,
/// and every operator has an execution strategy exactly if that was so
/// before.
pub proof fn lemma_rule_keeps_validity(rule: Rule, tree: LogicalTree)
    ensures
        rule.rewrite(tree).well_formed() <==> tree.well_formed(),
        rule.rewrite(tree).supported() <==> tree.supported(),
{
    if rule.matches_tree(tree) {
        let result = rule.rewrite(tree);
        lemma_single_child(tree);
        lemma_single_child(tree.children[0]);
        lemma_single_child(result);
        if !rule.folds() {
            lemma_single_child(result.children[0]);
        }
    }
}

/// Rules tried in order at a node neither mend nor break the tree.
pub proof fn lemma_root_keeps_validity(rules: Seq<Rule>, k: nat, tree: LogicalTree)
    ensures
        apply_first(rules, k, tree).tree.well_formed() <==> tree.well_formed(),
        apply_first(rules, k, tree).tree.supported() <==> tree.supported(),
    decreases k,
{
    if 0 < k <= rules.len() {
        lemma_root_keeps_validity(rules, (k - 1) as nat, tree);
        lemma_rule_keeps_validity(rules[k - 1], apply_first(rules, (k - 1) as nat, tree).tree);
    }
}

/// A sweep neither mends nor breaks the tree.
pub proof fn lemma_sweep_keeps_validity(rules: Seq<Rule>, tree: LogicalTree)
    ensures
        sweep(rules, tree).tree.well_formed() <==> tree.well_formed(),
        sweep(rules, tree).tree.supported() <==> tree.supported(),
    decreases tree, tree.children.len() + 1,
{
    let below = sweep_first(rules, tree, tree.children.len());
    lemma_children_keep_validity(rules, tree, tree.children.len());
    let node = LogicalTree { operator: tree.operator, children: below.trees };
    assert(node.well_formed() <==> tree.well_formed()) by {
        if node.well_formed() {
            assert forall|i: int| 0 <= i < tree.children.len() implies (
            #[trigger] tree.children[i]).well_formed() by {
                assert(node.children[i].well_formed());
            }
        }
        if tree.well_formed() {
            assert forall|i: int| 0 <= i < node.children.len() implies (
            #[trigger] node.children[i]).well_formed() by {
                assert(tree.children[i].well_formed());
            }
        }
    }
    assert(node.supported() <==> tree.supported()) by {
        if node.supported() {
            assert forall|i: int| 0 <= i < tree.children.len() implies (
            #[trigger] tree.children[i]).supported() by {
                assert(node.children[i].supported());
            }
        }
        if tree.supported() {
            assert forall|i: int| 0 <= i < node.children.len() implies (
            #[trigger] node.children[i]).supported() by {
                assert(tree.children[i].supported());
            }
        }
    }
    lemma_root_keeps_validity(rules, rules.len(), node);
}

/// A sweep neither mends nor breaks any of the first `k` children of a
/// node.
pub proof fn lemma_children_keep_validity(rules: Seq<Rule>, tree: LogicalTree, k: nat)
    requires
        k <= tree.children.len(),
    ensures
        sweep_first(rules, tree, k).trees.len() == k,
        forall|i: int|
            0 <= i < k ==> ((#[trigger] sweep_first(rules, tree, k).trees[i]).well_formed()
                <==> tree.children[i].well_formed()),
        forall|i: int|
            0 <= i < k ==> ((#[trigger] sweep_first(rules, tree, k).trees[i]).supported()
                <==> tree.children[i].supported()),
    decreases tree, k,
{
    if k > 0 {
        lemma_children_keep_validity(rules, tree, (k - 1) as nat);
        lemma_sweep_keeps_validity(rules, tree.children[k - 1]);
    }
}

/// A pass neither mends nor breaks the tree.
pub proof fn lemma_pass_keeps_validity(batches: Seq<Vec<Rule>>, k: nat, tree: LogicalTree)
    ensures
        pass_first(batches, k, tree).tree.well_formed() <==> tree.well_formed(),
        pass_first(batches, k, tree).tree.supported() <==> tree.supported(),
    decreases k,
{
    if 0 < k <= batches.len() {
        lemma_pass_keeps_validity(batches, (k - 1) as nat, tree);
        lemma_sweep_keeps_validity(
            batches[k - 1]@,
            pass_first(batches, (k - 1) as nat, tree).tree,
        );
    }
}

/// A run of passes neither mends nor breaks the tree, and keeps to its
/// bound.
pub proof fn lemma_run_keeps_validity(batches: Seq<Vec<Rule>>, remaining: nat, tree: LogicalTree)
    ensures
        iterate(batches, remaining, tree).tree.well_formed() <==> tree.well_formed(),
        iterate(batches, remaining, tree).tree.supported() <==> tree.supported(),
        iterate(batches, remaining, tree).passes <= remaining,
    decreases remaining,
{
    if remaining > 0 {
        lemma_pass_keeps_validity(batches, batches.len(), tree);
        lemma_run_keeps_validity(
            batches,
            (remaining - 1) as nat,
            pass_first(batches, batches.len(), tree).tree,
        );
    }
}

/// A rule leaves the rows of a tree as wide as they were.
pub proof fn lemma_rule_keeps_width(rule: Rule, tree: LogicalTree)
    ensures
        rule.rewrite(tree).width() == tree.width(),
{
    if rule.matches_tree(tree) {
        let below = tree.children[0].children[0];
        if rule.folds() {
            assert(tree.children[0].width() == below.width());
        } else {
            assert(tree.children[0].width() == rule.rewrite(tree).width());
        }
    }
}

/// Rules tried in order at a node leave its rows as wide as they were.
pub proof fn lemma_root_keeps_width(rules: Seq<Rule>, k: nat, tree: LogicalTree)
    ensures
        apply_first(rules, k, tree).tree.width() == tree.width(),
    decreases k,
{
    if 0 < k <= rules.len() {
        lemma_root_keeps_width(rules, (k - 1) as nat, tree);
        lemma_rule_keeps_width(rules[k - 1], apply_first(rules, (k - 1) as nat, tree).tree);
    }
}

/// A sweep leaves the rows of a tree as wide as they were.
pub proof fn lemma_sweep_keeps_width(rules: Seq<Rule>, tree: LogicalTree)
    ensures
        sweep(rules, tree).tree.width() == tree.width(),
    decreases tree, tree.children.len() + 1,
{
    let below = sweep_first(rules, tree, tree.children.len());
    lemma_children_keep_width(rules, tree, tree.children.len());
    let node = LogicalTree { operator: tree.operator, children: below.trees };
    assert(node.width() == tree.width());
    lemma_root_keeps_width(rules, rules.len(), node);
}

/// A sweep leaves the rows of each of the first `k` children as wide as
/// they were.
pub proof fn lemma_children_keep_width(rules: Seq<Rule>, tree: LogicalTree, k: nat)
    requires
        k <= tree.children.len(),
    ensures
        sweep_first(rules, tree, k).trees.len() == k,
        forall|i: int|
            0 <= i < k ==> (#[trigger] sweep_first(rules, tree, k).trees[i]).width()
                == tree.children[i].width(),
    decreases tree, k,
{
    if k > 0 {
        lemma_children_keep_width(rules, tree, (k - 1) as nat);
        lemma_sweep_keeps_width(rules, tree.children[k - 1]);
    }
}

/// A pass leaves the rows of a tree as wide as they were.
pub proof fn lemma_pass_keeps_width(batches: Seq<Vec<Rule>>, k: nat, tree: LogicalTree)
    ensures
        pass_first(batches, k, tree).tree.width() == tree.width(),
    decreases k,
{
    if 0 < k <= batches.len() {
        lemma_pass_keeps_width(batches, (k - 1) as nat, tree);
        lemma_sweep_keeps_width(batches[k - 1]@, pass_first(batches, (k - 1) as nat, tree).tree);
    }
}

/// A run of passes leaves the rows of a tree as wide as they were.
pub proof fn lemma_run_keeps_width(batches: Seq<Vec<Rule>>, remaining: nat, tree: LogicalTree)
    ensures
        iterate(batches, remaining, tree).tree.width() == tree.width(),
    decreases remaining,
{
    if remaining > 0 {
        lemma_pass_keeps_width(batches, batches.len(), tree);
        lemma_run_keeps_width(
            batches,
            (remaining - 1) as nat,
            pass_first(batches, batches.len(), tree).tree,
        );
    }
}

impl HepOptimizer {
    /// Whether a pass of this engine over `tree` applies no rule.
    pub open spec fn settled(self, tree: LogicalTree) -> bool {
        !pass_first(self.batches@, self.batches@.len(), tree).changed
    }

    /// Running the engine on what a converged run returned changes nothing:
    /// the second run converges in its first pass, on the same tree.
    pub proof fn lemma_second_run_changes_nothing(self, tree: LogicalTree)
        requires
            self.optimized(tree).converged,
        ensures
            self.settled(self.optimized(tree).tree),
            self.optimized(self.optimized(tree).tree) == (Optimized {
                tree: self.optimized(tree).tree,
                converged: true,
                passes: 1,
            }),
    {
        lemma_converged_is_fixpoint(self.batches@, self.max_passes as nat, tree);
    }

    /// Rewriting neither mends nor breaks a plan: it ends with every node
    /// having the number of children that its operator takes exactly if it
    /// began so, and with a strategy for every operator exactly if it began
    /// so. No run takes more passes than the bound.
    pub proof fn lemma_rewriting_keeps_validity(self, tree: LogicalTree)
        ensures
            self.optimized(tree).tree.well_formed() <==> tree.well_formed(),
            self.optimized(tree).tree.supported() <==> tree.supported(),
            self.optimized(tree).passes <= self.max_passes,
    {
        lemma_run_keeps_validity(self.batches@, self.max_passes as nat, tree);
    }

    /// Rewriting leaves the rows that a plan yields as wide as they were.
    pub proof fn lemma_rewriting_keeps_width(self, tree: LogicalTree)
        ensures
            self.optimized(tree).tree.width() == tree.width(),
    {
        lemma_run_keeps_width(self.batches@, self.max_passes as nat, tree);
    }

    /// Running the engine twice gives the tree of the first run wherever
    /// that tree is settled, whether or not the first run found that out
    /// before it reached its bound; and wherever the bound allows no pass.
    pub proof fn lemma_settled_tree_is_kept(self, tree: LogicalTree)
        requires
            self.max_passes == 0 || self.settled(self.optimized(tree).tree),
        ensures
            self.optimized(self.optimized(tree).tree).tree == self.optimized(tree).tree,
    {
        if self.max_passes > 0 {
            lemma_unchanged_pass(self.batches@, self.batches@.len(), self.optimized(tree).tree);
        }
    }
}

} // verus!
