use vstd::prelude::*;

use crate::tensor::TensorId;

verus! {

/// What can go wrong while building or running a graph. Every variant names
/// the handle at which the problem was detected.
#[derive(Clone, Copy, Debug, PartialEq, Eq)]
pub enum GraphError {
    /// The handle was never registered with this graph.
    NodeNotFound(TensorId),
    /// A forward pass reached a placeholder or variable that holds no value.
    UnfedPlaceholder(TensorId),
    /// A value or gradient was asked for before the pass that produces it.
    NotEvaluated(TensorId),
    /// The tensors meeting at this handle cannot be combined: its operator
    /// does not accept its input values, or a gradient cannot be added to
    /// what the handle has already accumulated.
    Incompatible(TensorId),
}

} // verus!
