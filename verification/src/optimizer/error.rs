//! Failures of lowering, and where in the plan they arose.

use vstd::prelude::*;

verus! {

/// Why a logical plan could not be lowered.
#[derive(Clone, Copy, Debug, PartialEq, Eq, Structural)]
pub enum ErrorKind {
    /// The operator of the node has no execution strategy.
    UnsupportedOperator,
    /// The node has a number of children that its operator does not take.
    MalformedInput,
}

/// A lowering failure. `path` leads from the root of the plan to the
/// offending node: each entry is an index into the children of the node
/// reached so far, and the empty path is the root itself.
#[derive(Clone, Debug, PartialEq, Eq)]
pub struct OptimizeError {
    pub kind: ErrorKind,
    pub path: Vec<usize>,
}

/// The model of an [`OptimizeError`].
pub struct Failure {
    pub kind: ErrorKind,
    pub path: Seq<int>,
}

impl Failure {
    /// The same failure seen from the parent whose child `index` it arose in.
    pub open spec fn below(self, index: int) -> Failure {
        Failure { kind: self.kind, path: self.path.insert(0, index) }
    }
}

impl View for OptimizeError {
    type V = Failure;

    open spec fn view(&self) -> Failure {
        Failure { kind: self.kind, path: self.path@.map_values(|i: usize| i as int) }
    }
}

impl OptimizeError {
    /// A failure at the root of the plan at hand.
    pub fn at_root(kind: ErrorKind) -> (result: OptimizeError)
        ensures
            result@ == (Failure { kind, path: Seq::empty() }),
    {
        let result = OptimizeError { kind, path: Vec::new() };
        assert(result@.path =~= Seq::empty());
        result
    }

    /// Moves the failure one level up: it arose in child `index` of the
    /// node that is now the root.
    pub fn below(self, index: usize) -> (result: OptimizeError)
        ensures
            result@ == self@.below(index as int),
    {
        let OptimizeError { kind, mut path } = self;
        path.insert(0, index);
        let result = OptimizeError { kind, path };
        assert(result@.path =~= self@.path.insert(0, index as int));
        result
    }

    /// A short description of the failure.
    pub fn message(&self) -> (result: &'static str)
        ensures
            result@ == match self.kind {
                ErrorKind::UnsupportedOperator => "unsupported operator"@,
                ErrorKind::MalformedInput => "malformed input"@,
            },
    {
        match self.kind {
            ErrorKind::UnsupportedOperator => "unsupported operator",
            ErrorKind::MalformedInput => "malformed input",
        }
    }
}

} // verus!
