use std::rc::Rc;
use vstd::prelude::*;

use crate::backward::{backpropagated, deposit, distribute, propagate, seeded, sweep};
use crate::traversal::gathered;
use crate::graph::well_formed;
use crate::operator::Operator;
use crate::tensor::{Tensor, TensorId, TensorInternal};

verus! {

/// A sum so far, with one more gradient added to it.
pub open spec fn accumulated<T: Tensor>(sum: Option<Rc<T>>, grad: Rc<T>) -> Option<Rc<T>> {
    match sum {
        None => Some(grad),
        Some(so_far) => Some(Rc::new(so_far.sum(&*grad))),
    }
}

/// What node `n` holds after a consumer with inputs `inputs` has handed out
/// the first `count` of `input_grads`, if it held `start` before: every
/// position at which `n` is the input adds that position's gradient, in
/// position order. A node that is not differentiable is handed nothing.
pub open spec fn handed<T: Tensor>(
    nodes: Seq<TensorInternal>,
    inputs: Seq<TensorId>,
    input_grads: Seq<Rc<T>>,
    n: usize,
    count: nat,
    start: Option<Rc<T>>,
) -> Option<Rc<T>>
    decreases count,
{
    if count == 0 {
        start
    } else {
        let before = handed(nodes, inputs, input_grads, n, (count - 1) as nat, start);
        if inputs[count - 1].0 == n && nodes[n as int].is_differentiable {
            accumulated(before, input_grads[count - 1])
        } else {
            before
        }
    }
}

/// The gradient that node `n` has once every node from `target` down to
/// `low` has taken its backward step.
///
/// Before any step the target holds the all-ones tensor shaped like its
/// value and nothing else holds anything. The step of a node `c` adds to
/// `n`, for each position at which `n` is an input of `c`, the gradient that
/// the operator of `c` derives for that position from the final gradient of
/// `c` itself; it adds nothing unless `c` is a differentiable computed node
/// that has a gradient. So the gradient of a node is the sum of what its
/// consumers contribute, later consumers first, and a node consumed twice
/// receives both contributions.
pub open spec fn collected<T: Tensor>(
    nodes: Seq<TensorInternal>,
    values: Map<usize, Rc<T>>,
    target: usize,
    n: usize,
    low: nat,
) -> Option<Rc<T>>
    decreases target - n, target + 1 - low,
{
    if low > target {
        if n == target {
            Some(Rc::new(values[target].ones()))
        } else {
            None
        }
    } else {
        let before = collected(nodes, values, target, n, low + 1);
        let consumer = nodes[low as int];
        if n < low && consumer.is_differentiable && consumer.operator is Some && collected(
            nodes,
            values,
            target,
            low as usize,
            0,
        ) is Some {
            handed(
                nodes,
                consumer.inputs@,
                consumer.operator->0.input_grads(
                    collected(nodes, values, target, low as usize, 0)->0,
                    gathered(consumer.inputs@, values),
                ),
                n,
                consumer.inputs@.len(),
                before,
            )
        } else {
            before
        }
    }
}

/// The gradient of `target` with respect to node `n`, as a backward pass on
/// `target` accumulates it; `None` where no gradient arrives.
pub open spec fn gradient<T: Tensor>(
    nodes: Seq<TensorInternal>,
    values: Map<usize, Rc<T>>,
    target: usize,
    n: usize,
) -> Option<Rc<T>> {
    collected(nodes, values, target, n, 0)
}

/// A node that is none of the inputs is handed nothing.
pub(crate) proof fn lemma_handed_nothing<T: Tensor>(
    nodes: Seq<TensorInternal>,
    inputs: Seq<TensorId>,
    input_grads: Seq<Rc<T>>,
    n: usize,
    count: nat,
    start: Option<Rc<T>>,
)
    requires
        count <= inputs.len(),
        forall|k: int| 0 <= k < inputs.len() ==> (#[trigger] inputs[k]).0 != n,
    ensures
        handed(nodes, inputs, input_grads, n, count, start) == start,
    decreases count,
{
    if count > 0 {
        lemma_handed_nothing(nodes, inputs, input_grads, n, (count - 1) as nat, start);
    }
}

/// The steps of a node and of the nodes before it add nothing to it: its
/// gradient is final once its consumers are done.
pub(crate) proof fn lemma_collected_settled<T: Tensor>(
    nodes: Seq<TensorInternal>,
    values: Map<usize, Rc<T>>,
    target: usize,
    n: usize,
    low: nat,
)
    requires
        low <= n + 1,
    ensures
        collected(nodes, values, target, n, low) == collected(
            nodes,
            values,
            target,
            n,
            (n + 1) as nat,
        ),
    decreases n + 1 - low,
{
    if low <= n {
        lemma_collected_settled(nodes, values, target, n, low + 1);
        if low > target {
            assert(collected(nodes, values, target, n, low + 1) == collected(
                nodes,
                values,
                target,
                n,
                low,
            ));
        }
    }
}

/// Handing out gradients position by position leaves every node with what
/// [`handed`] says.
pub(crate) proof fn lemma_distribute_handed<T: Tensor>(
    nodes: Seq<TensorInternal>,
    grads: Map<usize, Rc<T>>,
    inputs: Seq<TensorId>,
    input_grads: Seq<Rc<T>>,
    from: nat,
    start: Map<usize, Rc<T>>,
)
    requires
        from <= inputs.len(),
        distribute(nodes, grads, inputs, input_grads, from) is Ok,
        forall|n: usize|
            grads.get(n) == #[trigger] handed(nodes, inputs, input_grads, n, from, start.get(n)),
    ensures
        forall|n: usize|
            distribute(nodes, grads, inputs, input_grads, from)->Ok_0.get(n) == #[trigger] handed(
                nodes,
                inputs,
                input_grads,
                n,
                inputs.len(),
                start.get(n),
            ),
    decreases inputs.len() - from,
{
    if from < inputs.len() {
        let input = inputs[from as int].0;
        let next = if nodes[input as int].is_differentiable {
            deposit(grads, input, input_grads[from as int])->Ok_0
        } else {
            grads
        };
        assert forall|n: usize|
            next.get(n) == #[trigger] handed(
                nodes,
                inputs,
                input_grads,
                n,
                from + 1,
                start.get(n),
            ) by {
            let _ = handed(nodes, inputs, input_grads, n, from, start.get(n));
        }
        lemma_distribute_handed(nodes, next, inputs, input_grads, from + 1, start);
    }
}

/// After the steps of the nodes from the target down to `count`, every node
/// holds what [`collected`] says.
pub(crate) proof fn lemma_sweep_collected<T: Tensor>(
    nodes: Seq<TensorInternal>,
    values: Map<usize, Rc<T>>,
    grads: Map<usize, Rc<T>>,
    target: usize,
    count: nat,
)
    requires
        well_formed(nodes),
        target < nodes.len(),
        count <= target + 1,
        sweep(nodes, values, grads, count) is Ok,
        forall|n: usize| grads.get(n) == #[trigger] collected(nodes, values, target, n, count),
    ensures
        forall|n: usize|
            sweep(nodes, values, grads, count)->Ok_0.get(n) == #[trigger] gradient(
                nodes,
                values,
                target,
                n,
            ),
    decreases count,
{
    if count > 0 {
        let id = (count - 1) as usize;
        let node = nodes[id as int];
        let next = propagate(nodes, values, grads, id)->Ok_0;
        lemma_collected_settled(nodes, values, target, id, 0);
        assert(grads.get(id) == collected(nodes, values, target, id, count));
        assert(collected(nodes, values, target, id, 0) == grads.get(id));
        if grads.contains_key(id) && node.is_differentiable && node.operator is Some {
            let input_grads = node.operator->0.input_grads(
                grads[id],
                gathered(node.inputs@, values),
            );
            assert forall|n: usize|
                grads.get(n) == #[trigger] handed(
                    nodes,
                    node.inputs@,
                    input_grads,
                    n,
                    0,
                    grads.get(n),
                ) by {}
            lemma_distribute_handed(nodes, grads, node.inputs@, input_grads, 0, grads);
            assert forall|n: usize|
                next.get(n) == #[trigger] collected(nodes, values, target, n, id as nat) by {
                let _ = handed(
                    nodes,
                    node.inputs@,
                    input_grads,
                    n,
                    node.inputs@.len(),
                    grads.get(n),
                );
                let _ = collected(nodes, values, target, n, count);
                if n >= id {
                    lemma_handed_nothing(
                        nodes,
                        node.inputs@,
                        input_grads,
                        n,
                        node.inputs@.len(),
                        grads.get(n),
                    );
                }
            }
        } else {
            assert forall|n: usize|
                next.get(n) == #[trigger] collected(nodes, values, target, n, id as nat) by {
                let _ = collected(nodes, values, target, n, count);
            }
        }
        lemma_sweep_collected(nodes, values, next, target, id as nat);
    }
}

/// The gradients that a backward pass leaves are, node by node, the sums of
/// what the node's consumers contribute: the target holds its seed, and every
/// other node holds the contributions of all its consumers that carry a
/// gradient, added in the order from the latest consumer to the earliest.
pub proof fn lemma_backward_gradient<T: Tensor>(
    nodes: Seq<TensorInternal>,
    values: Map<usize, Rc<T>>,
    target: usize,
)
    requires
        well_formed(nodes),
        backpropagated(nodes, values, target) is Ok,
    ensures
        forall|n: usize|
            backpropagated(nodes, values, target)->Ok_0.get(n) == #[trigger] gradient(
                nodes,
                values,
                target,
                n,
            ),
{
    let seed = seeded(values, target);
    assert forall|n: usize|
        seed.get(n) == #[trigger] collected(nodes, values, target, n, (target + 1) as nat) by {}
    lemma_sweep_collected(nodes, values, seed, target, (target + 1) as nat);
}

} // verus!
