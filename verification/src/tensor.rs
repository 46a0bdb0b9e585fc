use std::rc::Rc;
use vstd::prelude::*;

use crate::operator::OperatorKind;

verus! {

/// The value type that flows through a graph.
///
/// The engine treats tensors as opaque: it adds them, asks for an all-ones
/// tensor shaped like a given one, and nothing else. Each executable method is
/// paired with a `spec` function that names its result, so an implementation
/// promises exactly one thing: that the method is a function of its
/// arguments. Nothing is assumed about what the sum or the all-ones tensor
/// actually contains; in particular sums need not be associative, as those of
/// floating-point arrays are not.
///
/// Verus checks the engine against this contract. It cannot check an
/// implementation written in plain Rust, which is where array libraries
/// live: such an implementation is trusted to compute, in each executable
/// method, what its `spec` twin says.
pub trait Tensor: Sized {
    /// Whether `rhs` can be added to `self` (for arrays: whether the two
    /// shapes agree or broadcast).
    spec fn can_add(&self, rhs: &Self) -> bool;

    /// The element-wise sum of `self` and `rhs`.
    spec fn sum(&self, rhs: &Self) -> Self;

    /// The tensor shaped like `self` whose elements are all one.
    spec fn ones(&self) -> Self;

    /// Decides [`Tensor::can_add`].
    fn addable(&self, rhs: &Self) -> (ok: bool)
        ensures
            ok == self.can_add(rhs),
    ;

    /// Computes [`Tensor::sum`] as a fresh value; neither operand changes.
    fn add(&self, rhs: &Self) -> (out: Self)
        requires
            self.can_add(rhs),
        ensures
            out == self.sum(rhs),
    ;

    /// Computes [`Tensor::ones`] as a fresh value.
    fn ones_like(&self) -> (out: Self)
        ensures
            out == self.ones(),
    ;
}

/// An integer is a tensor of dimension zero. Its sums are exact but bounded:
/// two integers can be added when their sum is an `i64` again.
impl Tensor for i64 {
    open spec fn can_add(&self, rhs: &Self) -> bool {
        i64::MIN <= *self + *rhs <= i64::MAX
    }

    open spec fn sum(&self, rhs: &Self) -> Self {
        (*self + *rhs) as i64
    }

    open spec fn ones(&self) -> Self {
        1
    }

    fn addable(&self, rhs: &Self) -> (ok: bool) {
        self.checked_add(*rhs).is_some()
    }

    fn add(&self, rhs: &Self) -> (out: Self) {
        *self + *rhs
    }

    fn ones_like(&self) -> (out: Self) {
        1
    }
}

/// Handle of a node. Handles are dense indices in creation order and mean
/// something only to the graph that issued them.
#[derive(Clone, Copy, Debug, Hash, PartialEq, Eq)]
pub struct TensorId(pub usize);

/// What the graph records about one node.
///
/// * no operator, not differentiable: a placeholder, fed from outside;
/// * no operator, differentiable: a variable, which keeps its value;
/// * an operator: a computed node, derived from `inputs`.
pub struct TensorInternal {
    pub operator: Option<OperatorKind>,
    pub inputs: Vec<TensorId>,
    pub is_differentiable: bool,
}

/// `Rc::clone` of the standard library: the new handle points at the same
/// allocation, so it denotes the same value. No tensor is copied.
#[verifier::external_body]
pub(crate) fn share<T>(value: &Rc<T>) -> (out: Rc<T>)
    ensures
        out == *value,
{
    Rc::clone(value)
}

} // verus!
