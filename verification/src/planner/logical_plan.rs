//! Logical plan trees and their mathematical model.

use vstd::prelude::*;
use crate::planner::operator::LogicalOperator;

verus! {

/// A node of a logical plan: an operator and the plans that feed it.
#[derive(Debug, PartialEq, Eq)]
pub struct LogicalPlan {
    pub operator: LogicalOperator,
    pub children: Vec<LogicalPlan>,
}

/// The model of a logical plan: the same tree over a mathematical sequence.
pub struct LogicalTree {
    pub operator: LogicalOperator,
    pub children: Seq<LogicalTree>,
}

impl LogicalTree {
    /// Every node has as many children as its operator takes.
    pub open spec fn well_formed(self) -> bool
        decreases self,
    {
        &&& self.operator.accepts_arity(self.children.len())
        &&& forall|i: int|
            0 <= i < self.children.len() ==> (#[trigger] self.children[i]).well_formed()
    }

    /// Number of nodes of the tree.
    pub open spec fn size(self) -> nat
        decreases self, self.children.len() + 1,
    {
        1 + self.size_of_first(self.children.len())
    }

    /// Number of nodes in the subtrees of the first `k` children.
    pub open spec fn size_of_first(self, k: nat) -> nat
        decreases self, k,
    {
        if k == 0 || k > self.children.len() {
            0
        } else {
            self.size_of_first((k - 1) as nat) + self.children[k - 1].size()
        }
    }

    /// How many columns the rows that the tree yields have. Statements
    /// that define or fill a table yield no rows, and a node that lacks the
    /// child it reads from yields none either.
    pub open spec fn width(self) -> nat
        decreases self,
    {
        match self.operator {
            LogicalOperator::Scan { columns, .. } => columns@.len(),
            LogicalOperator::Values { columns, .. } => columns@.len(),
            LogicalOperator::Project { expressions } => expressions@.len(),
            LogicalOperator::Filter { .. }
            | LogicalOperator::Limit { .. }
            | LogicalOperator::Sort { .. } => if self.children.len() >= 1 {
                self.children[0].width()
            } else {
                0
            },
            LogicalOperator::Join { .. } => if self.children.len() >= 2 {
                self.children[0].width() + self.children[1].width()
            } else {
                0
            },
            LogicalOperator::Dummy
            | LogicalOperator::CreateTable { .. }
            | LogicalOperator::Insert { .. } => 0,
        }
    }

    /// The node that `path` leads to, each entry of the path being an index
    /// into the children of the node reached so far.
    pub open spec fn subtree(self, path: Seq<int>) -> Option<LogicalTree>
        decreases path.len(),
    {
        if path.len() == 0 {
            Some(self)
        } else if 0 <= path[0] < self.children.len() {
            self.children[path[0]].subtree(path.drop_first())
        } else {
            None
        }
    }
}

impl LogicalPlan {
    /// The model of the plan: the operator, over the models of the children.
    pub open spec fn tree(self) -> LogicalTree
        decreases self,
    {
        LogicalTree {
            operator: self.operator,
            children: Seq::new(
                self.children@.len(),
                |i: int|
                    if 0 <= i < self.children@.len() {
                        self.children@[i].tree()
                    } else {
                        arbitrary()
                    },
            ),
        }
    }
}

impl View for LogicalPlan {
    type V = LogicalTree;

    open spec fn view(&self) -> LogicalTree {
        self.tree()
    }
}

impl LogicalPlan {
    /// The model of a plan, one level down: its operator, and the models of
    /// its children in order.
    pub proof fn lemma_view(self)
        ensures
            self@.operator == self.operator,
            self@.children.len() == self.children@.len(),
            forall|i: int|
                0 <= i < self.children@.len() ==> #[trigger] self@.children[i]
                    == self.children@[i]@,
    {
        assert forall|i: int| 0 <= i < self.children@.len() implies #[trigger] self@.children[i]
            == self.children@[i]@ by {
            assert(decreases_to!(self.children => self.children[i]));
        }
    }

    /// A plan without children.
    pub fn leaf(operator: LogicalOperator) -> (result: LogicalPlan)
        ensures
            result@ == (LogicalTree { operator, children: Seq::empty() }),
    {
        let result = LogicalPlan { operator, children: Vec::new() };
        assert(result@.children =~= Seq::empty());
        result
    }

    /// A plan with the given children, in order.
    pub fn new(operator: LogicalOperator, children: Vec<LogicalPlan>) -> (result: LogicalPlan)
        ensures
            result.operator == operator,
            result.children == children,
            result@ == (LogicalTree {
                operator,
                children: children@.map_values(|child: LogicalPlan| child@),
            }),
    {
        let result = LogicalPlan { operator, children };
        proof {
            result.lemma_view();
            assert(result@.children =~= children@.map_values(|child: LogicalPlan| child@));
        }
        result
    }
}

} // verus!
