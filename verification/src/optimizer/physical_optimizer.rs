//! Lowering: a logical plan becomes, node for node, a physical plan of the
//! same shape.

use vstd::prelude::*;
use crate::optimizer::error::{ErrorKind, Failure, OptimizeError};
use crate::optimizer::operator::PhysicalOperator;
use crate::optimizer::physical_plan::{PhysicalPlan, PhysicalTree};
use crate::planner::logical_plan::{LogicalPlan, LogicalTree};
use crate::planner::operator::LogicalOperator;

verus! {

/// The execution strategy of a logical operator, where there is one. Joins
/// always run as nested loops.
pub open spec fn physical_operator(operator: LogicalOperator) -> Option<PhysicalOperator> {
    match operator {
        LogicalOperator::Dummy => Some(PhysicalOperator::Dummy),
        LogicalOperator::CreateTable { table_name, schema } => Some(
            PhysicalOperator::CreateTable { table_name, schema },
        ),
        LogicalOperator::Insert { table_name, columns } => Some(
            PhysicalOperator::Insert { table_name, columns },
        ),
        LogicalOperator::Values { columns, tuples } => Some(
            PhysicalOperator::Values { columns, tuples },
        ),
        LogicalOperator::Project { expressions } => Some(PhysicalOperator::Project { expressions }),
        LogicalOperator::Filter { predicate } => Some(PhysicalOperator::Filter { predicate }),
        LogicalOperator::Scan { table_oid, columns } => Some(
            PhysicalOperator::TableScan { table_oid, columns },
        ),
        LogicalOperator::Limit { limit, offset } => Some(PhysicalOperator::Limit { limit, offset }),
        LogicalOperator::Join { join_type, condition } => Some(
            PhysicalOperator::NestedLoopJoin { join_type, condition },
        ),
        LogicalOperator::Sort { .. } => None,
    }
}

impl LogicalTree {
    /// The physical tree that this tree lowers to, or the first failure met.
    /// A node is examined before its children, and children from left to
    /// right: an operator without a strategy is reported before a wrong
    /// number of children, and either before any failure further down.
    pub open spec fn lower(self) -> Result<PhysicalTree, Failure>
        decreases self, self.children.len() + 1,
    {
        match physical_operator(self.operator) {
            None => Err(Failure { kind: ErrorKind::UnsupportedOperator, path: Seq::empty() }),
            Some(operator) => if !self.operator.accepts_arity(self.children.len()) {
                Err(Failure { kind: ErrorKind::MalformedInput, path: Seq::empty() })
            } else {
                match self.lower_first(self.children.len()) {
                    Err(failure) => Err(failure),
                    Ok(children) => Ok(PhysicalTree { operator, children }),
                }
            },
        }
    }

    /// The lowered first `k` children, or the failure of the leftmost of
    /// them that fails, seen from this node.
    pub open spec fn lower_first(self, k: nat) -> Result<Seq<PhysicalTree>, Failure>
        decreases self, k,
    {
        if k == 0 || k > self.children.len() {
            Ok(Seq::empty())
        } else {
            match self.lower_first((k - 1) as nat) {
                Err(failure) => Err(failure),
                Ok(lowered) => match self.children[k - 1].lower() {
                    Err(failure) => Err(failure.below(k - 1)),
                    Ok(child) => Ok(lowered.push(child)),
                },
            }
        }
    }
}

/// The model of what lowering returns.
pub open spec fn outcome(result: Result<PhysicalPlan, OptimizeError>) -> Result<
    PhysicalTree,
    Failure,
> {
    match result {
        Ok(plan) => Ok(plan@),
        Err(error) => Err(error@),
    }
}

/// The lowering engine. It holds no state: one strategy per operator.
#[derive(Clone, Copy, Debug, PartialEq, Eq)]
pub struct PhysicalOptimizer {}

impl PhysicalOptimizer {
    /// Lowers `logical_plan` to the physical plan of the same shape, or
    /// reports the first node that cannot be lowered.
    pub fn find_best(&self, logical_plan: LogicalPlan) -> (result: Result<
        PhysicalPlan,
        OptimizeError,
    >)
        ensures
            outcome(result) == logical_plan@.lower(),
            result is Ok <==> logical_plan@.supported() && logical_plan@.well_formed(),
            result is Ok ==> result->Ok_0@.well_formed() && logical_plan@.mirrored_by(
                result->Ok_0@,
            ),
            result is Err ==> logical_plan@.is_failure_of(result->Err_0@),
    {
        proof {
            lemma_lowering_preserves_shape(logical_plan@);
            lemma_failure_names_node(logical_plan@);
        }
        Self::build_physical_plan(logical_plan)
    }

    /// Lowers a plan in one traversal: the node is checked, its children are
    /// lowered from left to right, and the physical node is put over them.
    pub fn build_physical_plan(logical_plan: LogicalPlan) -> (result: Result<
        PhysicalPlan,
        OptimizeError,
    >)
        ensures
            outcome(result) == logical_plan@.lower(),
        decreases logical_plan,
    {
        let ghost tree = logical_plan@;
        let ghost whole = logical_plan;
        proof {
            whole.lemma_view();
        }
        let LogicalPlan { operator, children } = logical_plan;
        let count = children.len();
        let arity_fits = operator.has_arity(count);
        let operator = match Self::build_physical_node(operator) {
            None => {
                return Err(OptimizeError::at_root(ErrorKind::UnsupportedOperator));
            },
            Some(operator) => operator,
        };
        if !arity_fits {
            return Err(OptimizeError::at_root(ErrorKind::MalformedInput));
        }
        let ghost kids = children@;
        let mut lowered: Vec<PhysicalPlan> = Vec::new();
        let mut index: usize = 0;
        assert(lowered@.map_values(|p: PhysicalPlan| p@) =~= Seq::empty());
        for child in it: children
            invariant
                it.seq() == kids,
                kids == whole.children@,
                whole == logical_plan,
                kids.len() == count,
                tree.children.len() == count,
                physical_operator(tree.operator) is Some,
                tree.operator.accepts_arity(count as nat),
                forall|i: int| 0 <= i < count ==> #[trigger] tree.children[i] == kids[i]@,
                tree == whole@,
                index == it.index(),
                tree.lower_first(index as nat) == Ok::<Seq<PhysicalTree>, Failure>(
                    lowered@.map_values(|p: PhysicalPlan| p@),
                ),
        {
            assert(decreases_to!(whole.children => whole.children[index as int]));
            assert(child@ == tree.children[index as int]);
            match Self::build_physical_plan(child) {
                Err(error) => {
                    let error = error.below(index);
                    proof {
                        lemma_failure_stays(tree, (index + 1) as nat, kids.len());
                    }
                    return Err(error);
                },
                Ok(plan) => {
                    let ghost before = lowered@.map_values(|p: PhysicalPlan| p@);
                    lowered.push(plan);
                    assert(lowered@.map_values(|p: PhysicalPlan| p@) =~= before.push(plan@));
                },
            }
            index = index + 1;
        }
        Ok(PhysicalPlan::new(operator, lowered))
    }

    /// The physical operator that stands for a logical one, with the same
    /// parameters, or `None` where no strategy exists.
    pub fn build_physical_node(operator: LogicalOperator) -> (result: Option<PhysicalOperator>)
        ensures
            result == physical_operator(operator),
    {
        match operator {
            LogicalOperator::Dummy => Some(PhysicalOperator::Dummy),
            LogicalOperator::CreateTable { table_name, schema } => Some(
                PhysicalOperator::CreateTable { table_name, schema },
            ),
            LogicalOperator::Insert { table_name, columns } => Some(
                PhysicalOperator::Insert { table_name, columns },
            ),
            LogicalOperator::Values { columns, tuples } => Some(
                PhysicalOperator::Values { columns, tuples },
            ),
            LogicalOperator::Project { expressions } => Some(
                PhysicalOperator::Project { expressions },
            ),
            LogicalOperator::Filter { predicate } => Some(PhysicalOperator::Filter { predicate }),
            LogicalOperator::Scan { table_oid, columns } => Some(
                PhysicalOperator::TableScan { table_oid, columns },
            ),
            LogicalOperator::Limit { limit, offset } => Some(
                PhysicalOperator::Limit { limit, offset },
            ),
            LogicalOperator::Join { join_type, condition } => Some(
                PhysicalOperator::NestedLoopJoin { join_type, condition },
            ),
            LogicalOperator::Sort { .. } => None,
        }
    }
}

impl LogicalTree {
    /// Every operator in the tree has an execution strategy.
    pub open spec fn supported(self) -> bool
        decreases self,
    {
        &&& physical_operator(self.operator) is Some
        &&& forall|i: int|
            0 <= i < self.children.len() ==> (#[trigger] self.children[i]).supported()
    }

    /// The physical tree has this tree's shape, and at each node the
    /// strategy of the operator that stands there.
    pub open spec fn mirrored_by(self, physical: PhysicalTree) -> bool
        decreases self,
    {
        &&& physical_operator(self.operator) == Some(physical.operator)
        &&& physical.children.len() == self.children.len()
        &&& forall|i: int|
            0 <= i < self.children.len() ==> (#[trigger] self.children[i]).mirrored_by(
                physical.children[i],
            )
    }

    /// Whether `failure` names a node of this tree that cannot be lowered,
    /// and says rightly why.
    pub open spec fn is_failure_of(self, failure: Failure) -> bool {
        match self.subtree(failure.path) {
            None => false,
            Some(node) => match failure.kind {
                ErrorKind::UnsupportedOperator => physical_operator(node.operator) is None,
                ErrorKind::MalformedInput => {
                    &&& physical_operator(node.operator) is Some
                    &&& !node.operator.accepts_arity(node.children.len())
                },
            },
        }
    }
}

/// Once the first `k` children hold a failure, taking more of them changes
/// nothing.
pub proof fn lemma_failure_stays(tree: LogicalTree, k: nat, n: nat)
    requires
        k <= n <= tree.children.len(),
        tree.lower_first(k) is Err,
    ensures
        tree.lower_first(n) == tree.lower_first(k),
    decreases n,
{
    if k < n {
        lemma_failure_stays(tree, k, (n - 1) as nat);
    }
}

/// Lowering succeeds exactly on the trees in which every operator has a
/// strategy and every node the number of children that its operator takes.
/// The physical tree then has the shape of the logical one, node for node
/// and with the same number of nodes, each node carries the strategy of the
/// operator it stands for, and has the number of children that its own
/// operator takes.
pub proof fn lemma_lowering_preserves_shape(tree: LogicalTree)
    ensures
        tree.lower() is Ok <==> tree.supported() && tree.well_formed(),
        tree.lower() is Ok ==> {
            let physical = tree.lower()->Ok_0;
            &&& tree.mirrored_by(physical)
            &&& physical.well_formed()
            &&& physical.size() == tree.size()
        },
    decreases tree, tree.children.len() + 1,
{
    if physical_operator(tree.operator) is Some && tree.operator.accepts_arity(
        tree.children.len(),
    ) {
        lemma_lowered_children(tree, tree.children.len());
        if tree.lower() is Ok {
            let physical = tree.lower()->Ok_0;
            lemma_sizes_agree(tree, physical, tree.children.len());
            assert(physical.operator.accepts_arity(physical.children.len()));
            assert forall|i: int| 0 <= i < physical.children.len() implies (
            #[trigger] physical.children[i]).well_formed() by {
                assert(tree.children[i].mirrored_by(physical.children[i]));
            }
        }
    }
}

/// The law of [`lemma_lowering_preserves_shape`] for the first `k` children
/// of a node.
pub proof fn lemma_lowered_children(tree: LogicalTree, k: nat)
    requires
        k <= tree.children.len(),
    ensures
        tree.lower_first(k) is Ok <==> forall|i: int|
            0 <= i < k ==> (#[trigger] tree.children[i]).supported()
                && tree.children[i].well_formed(),
        tree.lower_first(k) is Ok ==> {
            let lowered = tree.lower_first(k)->Ok_0;
            &&& lowered.len() == k
            &&& forall|i: int|
                0 <= i < k ==> {
                    &&& (#[trigger] tree.children[i]).lower() == Ok::<PhysicalTree, Failure>(
                        lowered[i],
                    )
                    &&& tree.children[i].mirrored_by(lowered[i])
                    &&& lowered[i].well_formed()
                    &&& lowered[i].size() == tree.children[i].size()
                }
        },
    decreases tree, k,
{
    if k > 0 {
        lemma_lowered_children(tree, (k - 1) as nat);
        lemma_lowering_preserves_shape(tree.children[k - 1]);
    }
}

/// Trees that agree in size child by child agree in the size of their
/// first `k` children together.
pub proof fn lemma_sizes_agree(tree: LogicalTree, physical: PhysicalTree, k: nat)
    requires
        k <= tree.children.len() == physical.children.len(),
        forall|i: int|
            0 <= i < k ==> (#[trigger] physical.children[i]).size() == tree.children[i].size(),
    ensures
        physical.size_of_first(k) == tree.size_of_first(k),
    decreases k,
{
    if k > 0 {
        lemma_sizes_agree(tree, physical, (k - 1) as nat);
    }
}

/// Where lowering fails, the failure leads to a node of the tree: one whose
/// operator has no strategy, or one with a strategy and a number of children
/// that its operator does not take.
pub proof fn lemma_failure_names_node(tree: LogicalTree)
    ensures
        tree.lower() is Err ==> tree.is_failure_of(tree.lower()->Err_0),
    decreases tree, tree.children.len() + 1,
{
    if tree.lower() is Err {
        let failure = tree.lower()->Err_0;
        if physical_operator(tree.operator) is Some && tree.operator.accepts_arity(
            tree.children.len(),
        ) {
            lemma_failure_in_children(tree, tree.children.len());
        } else {
            assert(tree.subtree(failure.path) == Some(tree));
        }
    }
}

/// The law of [`lemma_failure_names_node`] for the first `k` children of a
/// node.
pub proof fn lemma_failure_in_children(tree: LogicalTree, k: nat)
    requires
        k <= tree.children.len(),
    ensures
        tree.lower_first(k) is Err ==> tree.is_failure_of(tree.lower_first(k)->Err_0),
    decreases tree, k,
{
    if k > 0 {
        lemma_failure_in_children(tree, (k - 1) as nat);
        if tree.lower_first((k - 1) as nat) is Ok && tree.children[k - 1].lower() is Err {
            let child = tree.children[k - 1];
            let inner = child.lower()->Err_0;
            lemma_failure_names_node(child);
            let outer = inner.below(k - 1);
            assert(outer.path[0] == k - 1);
            assert(outer.path.drop_first() =~= inner.path);
            assert(tree.subtree(outer.path) == child.subtree(inner.path));
        }
    }
}

/// A tree in which some operator has no strategy is not lowered, and the
/// failure leads to a node that cannot be lowered. Where every node of the
/// tree has the number of children that its operator takes, the failure is
/// an unsupported operator, at a node with such an operator.
pub proof fn lemma_unsupported_is_reported(tree: LogicalTree)
    requires
        !tree.supported(),
    ensures
        tree.lower() is Err,
        tree.is_failure_of(tree.lower()->Err_0),
        tree.well_formed() ==> tree.lower()->Err_0.kind == ErrorKind::UnsupportedOperator,
{
    lemma_lowering_preserves_shape(tree);
    lemma_failure_names_node(tree);
    let failure = tree.lower()->Err_0;
    if tree.well_formed() && failure.kind == ErrorKind::MalformedInput {
        lemma_subtree_well_formed(tree, failure.path);
    }
}

/// Every node of a well-formed tree is the root of a well-formed tree.
pub proof fn lemma_subtree_well_formed(tree: LogicalTree, path: Seq<int>)
    requires
        tree.well_formed(),
    ensures
        tree.subtree(path) is Some ==> tree.subtree(path)->Some_0.well_formed(),
    decreases path.len(),
{
    if path.len() > 0 && 0 <= path[0] < tree.children.len() {
        lemma_subtree_well_formed(tree.children[path[0]], path.drop_first());
    }
}

} // verus!
