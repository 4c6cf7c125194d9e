//! Physical plan trees and their mathematical model.

use vstd::prelude::*;
use crate::optimizer::operator::PhysicalOperator;

verus! {

/// A node of a physical plan: an operator and the subplans that feed it.
#[derive(Debug, PartialEq, Eq)]
pub struct PhysicalPlan {
    pub operator: PhysicalOperator,
    pub children: Vec<PhysicalPlan>,
}

/// The model of a physical plan: the same tree over a mathematical sequence.
pub struct PhysicalTree {
    pub operator: PhysicalOperator,
    pub children: Seq<PhysicalTree>,
}

impl PhysicalPlan {
    /// The model of the plan: the operator, over the models of the children.
    pub open spec fn tree(self) -> PhysicalTree
        decreases self,
    {
        PhysicalTree {
            operator: self.operator,
            children: Seq::new(
                self.children@.len(),
                |i: int|
                    if 0 <= i < self.children@.len() {
                        self.children@[i].tree()
                    } else {
                        arbitrary()
                    },
            ),
        }
    }
}

impl View for PhysicalPlan {
    type V = PhysicalTree;

    open spec fn view(&self) -> PhysicalTree {
        self.tree()
    }
}

impl PhysicalTree {
    /// Every node has as many children as its operator takes.
    pub open spec fn well_formed(self) -> bool
        decreases self,
    {
        &&& self.operator.accepts_arity(self.children.len())
        &&& forall|i: int|
            0 <= i < self.children.len() ==> (#[trigger] self.children[i]).well_formed()
    }

    /// Number of nodes of the tree.
    pub open spec fn size(self) -> nat
        decreases self, self.children.len() + 1,
    {
        1 + self.size_of_first(self.children.len())
    }

    /// Number of nodes in the subtrees of the first `k` children.
    pub open spec fn size_of_first(self, k: nat) -> nat
        decreases self, k,
    {
        if k == 0 || k > self.children.len() {
            0
        } else {
            self.size_of_first((k - 1) as nat) + self.children[k - 1].size()
        }
    }
}

impl PhysicalPlan {
    /// The model of a plan, one level down: its operator, and the models of
    /// its children in order.
    pub proof fn lemma_view(self)
        ensures
            self@.operator == self.operator,
            self@.children.len() == self.children@.len(),
            forall|i: int|
                0 <= i < self.children@.len() ==> #[trigger] self@.children[i]
                    == self.children@[i]@,
    {
        assert forall|i: int| 0 <= i < self.children@.len() implies #[trigger] self@.children[i]
            == self.children@[i]@ by {
            assert(decreases_to!(self.children => self.children[i]));
        }
    }

    /// A plan node over subplans that are already complete.
    pub fn new(operator: PhysicalOperator, children: Vec<PhysicalPlan>) -> (result: PhysicalPlan)
        ensures
            result.operator == operator,
            result.children == children,
            result@ == (PhysicalTree {
                operator,
                children: children@.map_values(|child: PhysicalPlan| child@),
            }),
    {
        let result = PhysicalPlan { operator, children };
        proof {
            result.lemma_view();
            assert(result@.children =~= children@.map_values(|child: PhysicalPlan| child@));
        }
        result
    }

    /// A node that does nothing.
    pub fn dummy() -> (result: PhysicalPlan)
        ensures
            result@ == (PhysicalTree { operator: PhysicalOperator::Dummy, children: Seq::empty() }),
    {
        let result = PhysicalPlan { operator: PhysicalOperator::Dummy, children: Vec::new() };
        assert(result@.children =~= Seq::empty());
        result
    }
}

} // verus!
