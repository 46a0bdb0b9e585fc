use std::rc::Rc;
use vstd::prelude::*;

use crate::error::GraphError;
use crate::traversal::{first_missing, gathered};
use crate::graph::{lemma_reaches_input, reaches, well_formed};
use crate::operator::Operator;
use crate::tensor::{Tensor, TensorId, TensorInternal};

verus! {

/// The gradients before anything is propagated: the target alone has one, the
/// all-ones tensor shaped like its value.
pub open spec fn seeded<T: Tensor>(values: Map<usize, Rc<T>>, target: usize) -> Map<usize, Rc<T>> {
    Map::<usize, Rc<T>>::empty().insert(target, Rc::new(values[target].ones()))
}

/// Adding `grad` to what node `id` has accumulated: the first gradient to
/// arrive is taken as it is, a later one is added to the sum so far, and one
/// that cannot be added is a failure at `id`.
pub open spec fn deposit<T: Tensor>(grads: Map<usize, Rc<T>>, id: usize, grad: Rc<T>) -> Result<
    Map<usize, Rc<T>>,
    GraphError,
> {
    if !grads.contains_key(id) {
        Ok(grads.insert(id, grad))
    } else if grads[id].can_add(&*grad) {
        Ok(grads.insert(id, Rc::new(grads[id].sum(&*grad))))
    } else {
        Err(GraphError::Incompatible(TensorId(id)))
    }
}

/// Handing `input_grads` to `inputs`, position by position from `from` on.
/// An input that is not differentiable is passed over: it never receives a
/// gradient.
pub open spec fn distribute<T: Tensor>(
    nodes: Seq<TensorInternal>,
    grads: Map<usize, Rc<T>>,
    inputs: Seq<TensorId>,
    input_grads: Seq<Rc<T>>,
    from: nat,
) -> Result<Map<usize, Rc<T>>, GraphError>
    decreases inputs.len() - from,
{
    if from >= inputs.len() {
        Ok(grads)
    } else if !nodes[inputs[from as int].0 as int].is_differentiable {
        distribute(nodes, grads, inputs, input_grads, from + 1)
    } else {
        match deposit(grads, inputs[from as int].0, input_grads[from as int]) {
            Err(failure) => Err(failure),
            Ok(next) => distribute(nodes, next, inputs, input_grads, from + 1),
        }
    }
}

/// The backward step of node `id`. Only a differentiable computed node that
/// has received a gradient does anything: its operator turns that gradient
/// and the stored values of its inputs into one gradient per input, and these
/// are handed out.
pub open spec fn propagate<T: Tensor>(
    nodes: Seq<TensorInternal>,
    values: Map<usize, Rc<T>>,
    grads: Map<usize, Rc<T>>,
    id: usize,
) -> Result<Map<usize, Rc<T>>, GraphError> {
    let node = nodes[id as int];
    if !grads.contains_key(id) || !node.is_differentiable {
        Ok(grads)
    } else {
        match node.operator {
            None => Ok(grads),
            Some(operator) => match first_missing(node.inputs@, values, 0) {
                Some(input) => Err(GraphError::NotEvaluated(input)),
                None => {
                    let inputs = gathered(node.inputs@, values);
                    if operator.accepts(inputs) {
                        distribute(
                            nodes,
                            grads,
                            node.inputs@,
                            operator.input_grads(grads[id], inputs),
                            0,
                        )
                    } else {
                        Err(GraphError::Incompatible(TensorId(id)))
                    }
                },
            },
        }
    }
}

/// The backward steps of the first `count` nodes, from the last of them down
/// to the first. A node's consumers all come after it in creation order, so
/// by the time a node takes its step it has received every gradient it will
/// get.
pub open spec fn sweep<T: Tensor>(
    nodes: Seq<TensorInternal>,
    values: Map<usize, Rc<T>>,
    grads: Map<usize, Rc<T>>,
    count: nat,
) -> Result<Map<usize, Rc<T>>, GraphError>
    decreases count,
{
    if count == 0 {
        Ok(grads)
    } else {
        match propagate(nodes, values, grads, (count - 1) as usize) {
            Err(failure) => Err(failure),
            Ok(next) => sweep(nodes, values, next, (count - 1) as nat),
        }
    }
}

/// The gradients that a backward pass on `target` leaves, or the failure
/// that stops it.
pub open spec fn backpropagated<T: Tensor>(
    nodes: Seq<TensorInternal>,
    values: Map<usize, Rc<T>>,
    target: usize,
) -> Result<Map<usize, Rc<T>>, GraphError> {
    if target >= nodes.len() {
        Err(GraphError::NodeNotFound(TensorId(target)))
    } else if !values.contains_key(target) {
        Err(GraphError::NotEvaluated(TensorId(target)))
    } else {
        sweep(nodes, values, seeded(values, target), (target + 1) as nat)
    }
}


/// What holds of the gradients at every moment of a backward pass on
/// `target`: the target has its seed, and whatever else has a gradient is a
/// differentiable node that was registered before the target and that the
/// target reaches.
pub open spec fn confined<T: Tensor>(
    nodes: Seq<TensorInternal>,
    values: Map<usize, Rc<T>>,
    grads: Map<usize, Rc<T>>,
    target: usize,
) -> bool {
    &&& grads.contains_key(target)
    &&& grads[target] == Rc::new(values[target].ones())
    &&& forall|n: usize| #[trigger]
        grads.contains_key(n) && n != target ==> n < target && nodes[n as int].is_differentiable
            && reaches(nodes, target, n)
}

/// Handing gradients to the inputs of a node that the target reaches keeps
/// the gradients confined.
pub(crate) proof fn lemma_distribute_confined<T: Tensor>(
    nodes: Seq<TensorInternal>,
    values: Map<usize, Rc<T>>,
    grads: Map<usize, Rc<T>>,
    target: usize,
    id: usize,
    input_grads: Seq<Rc<T>>,
    from: nat,
)
    requires
        well_formed(nodes),
        target < nodes.len(),
        id <= target,
        reaches(nodes, target, id),
        confined(nodes, values, grads, target),
        distribute(nodes, grads, nodes[id as int].inputs@, input_grads, from) is Ok,
    ensures
        confined(
            nodes,
            values,
            distribute(nodes, grads, nodes[id as int].inputs@, input_grads, from)->Ok_0,
            target,
        ),
    decreases nodes[id as int].inputs@.len() - from,
{
    let inputs = nodes[id as int].inputs@;
    if from < inputs.len() {
        let input = inputs[from as int].0;
        assert(input < id);
        if !nodes[input as int].is_differentiable {
            lemma_distribute_confined(nodes, values, grads, target, id, input_grads, from + 1);
        } else {
            let next = deposit(grads, input, input_grads[from as int])->Ok_0;
            lemma_reaches_input(nodes, target, id, from as int);
            assert(confined(nodes, values, next, target));
            lemma_distribute_confined(nodes, values, next, target, id, input_grads, from + 1);
        }
    }
}

/// The backward steps of the nodes below the target keep the gradients
/// confined.
pub(crate) proof fn lemma_sweep_confined<T: Tensor>(
    nodes: Seq<TensorInternal>,
    values: Map<usize, Rc<T>>,
    grads: Map<usize, Rc<T>>,
    target: usize,
    count: nat,
)
    requires
        well_formed(nodes),
        target < nodes.len(),
        count <= target + 1,
        confined(nodes, values, grads, target),
        sweep(nodes, values, grads, count) is Ok,
    ensures
        confined(nodes, values, sweep(nodes, values, grads, count)->Ok_0, target),
    decreases count,
{
    if count > 0 {
        let id = (count - 1) as usize;
        let node = nodes[id as int];
        let next = propagate(nodes, values, grads, id)->Ok_0;
        if grads.contains_key(id) && node.is_differentiable && node.operator is Some {
            let inputs = gathered(node.inputs@, values);
            assert(reaches(nodes, target, id)) by {
                if id == target {
                    assert(reaches(nodes, target, target));
                }
            }
            lemma_distribute_confined(
                nodes,
                values,
                grads,
                target,
                id,
                node.operator->0.input_grads(grads[id], inputs),
                0,
            );
        }
        lemma_sweep_confined(nodes, values, next, target, (count - 1) as nat);
    }
}

/// After a backward pass that succeeded, the target holds the all-ones
/// gradient it was seeded with, and no node that is not differentiable holds
/// a gradient, the target itself aside: placeholders never receive one. What
/// holds a gradient is reached by the target.
pub proof fn lemma_backward_confined<T: Tensor>(
    nodes: Seq<TensorInternal>,
    values: Map<usize, Rc<T>>,
    target: usize,
)
    requires
        well_formed(nodes),
        backpropagated(nodes, values, target) is Ok,
    ensures
        confined(nodes, values, backpropagated(nodes, values, target)->Ok_0, target),
{
    let seed = seeded(values, target);
    assert(confined(nodes, values, seed, target));
    lemma_sweep_confined(nodes, values, seed, target, (target + 1) as nat);
}

} // verus!
