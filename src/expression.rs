use vstd::prelude::*;

verus! {

/// An arithmetic expression over leaves of type `N`.
#[derive(Debug, PartialEq)]
pub enum Expression<N> {
    /// The sum of the children; zero when there are none.
    Add(Vec<Expression<N>>),
    /// The product of the children; one when there are none.
    Multiply(Vec<Expression<N>>),
    /// The first child minus each following child, left to right; needs at
    /// least one child.
    Subtract(Vec<Expression<N>>),
    /// A name looked up in an environment.
    Variable(String),
    /// A literal leaf value.
    Number(N),
}

impl<N> Expression<N> {
    /// `self` and `other` are the same tree: the same kinds of node, with the
    /// same names and leaves, in the same places.
    pub open spec fn same_as(&self, other: &Expression<N>) -> bool
        decreases self,
    {
        match self {
            Expression::Add(cs) => other matches Expression::Add(ds) && same_all(cs@, ds@),
            Expression::Multiply(cs) => other matches Expression::Multiply(ds) && same_all(cs@, ds@),
            Expression::Subtract(cs) => other matches Expression::Subtract(ds) && same_all(cs@, ds@),
            Expression::Variable(name) => other matches Expression::Variable(n) && n@ == name@,
            Expression::Number(v) => other == Expression::Number(*v),
        }
    }
}

/// The trees of `cs` and `ds` are pairwise the same.
pub open spec fn same_all<N>(cs: Seq<Expression<N>>, ds: Seq<Expression<N>>) -> bool
    decreases cs,
{
    &&& cs.len() == ds.len()
    &&& forall|i: int| 0 <= i < cs.len() ==> (#[trigger] cs[i]).same_as(&ds[i])
}

/// Copies each tree of `cs`.
fn clone_all<N: Copy>(cs: &Vec<Expression<N>>) -> (r: Vec<Expression<N>>)
    ensures
        same_all(r@, cs@),
    decreases *cs, 0nat,
{
    let mut r: Vec<Expression<N>> = Vec::new();
    let mut i: usize = 0;
    while i < cs.len()
        invariant
            i <= cs@.len(),
            r@.len() == i,
            forall|j: int| 0 <= j < i ==> (#[trigger] r@[j]).same_as(&cs@[j]),
        decreases cs@.len() - i,
    {
        r.push(cs[i].clone());
        i = i + 1;
    }
    r
}

impl<N: Copy> Clone for Expression<N> {
    fn clone(&self) -> (r: Self)
        ensures
            r.same_as(self),
        decreases *self, 1nat,
    {
        match self {
            Expression::Add(cs) => Expression::Add(clone_all(cs)),
            Expression::Multiply(cs) => Expression::Multiply(clone_all(cs)),
            Expression::Subtract(cs) => Expression::Subtract(clone_all(cs)),
            Expression::Variable(name) => Expression::Variable(name.clone()),
            Expression::Number(v) => Expression::Number(*v),
        }
    }
}

/// Why an expression could not be evaluated.
#[derive(Clone, Copy, Debug, PartialEq, Eq)]
pub enum EvalError {
    /// A structural precondition was violated: a subtraction without
    /// operands, or an operation asked of an expression of another kind.
    MalformedExpression,
    /// A variable has no binding in the environment.
    UndefinedVariable,
    /// Variable lookups nested deeper than the environment has bindings:
    /// some name is bound, directly or through others, to itself.
    ResolutionCycle,
}

/// An expression with every variable replaced by its binding. A subtraction
/// holds its first operand apart from the operands subtracted from it.
#[derive(Debug, PartialEq)]
pub enum Resolved<N> {
    Add(Vec<Resolved<N>>),
    Multiply(Vec<Resolved<N>>),
    Subtract(Box<Resolved<N>>, Vec<Resolved<N>>),
    Number(N),
}

} // verus!
