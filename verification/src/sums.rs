use std::rc::Rc;
use vstd::prelude::*;

use crate::error::GraphError;
use crate::forward::{inputs_failure, input_values, outcome};
use crate::graph::well_formed;
use crate::operator::{Addition, OperatorKind};
use crate::tensor::{Tensor, TensorInternal};

verus! {

/// The leaves below node `id`, from left to right, each as often as there
/// are paths to it.
pub open spec fn leaves_below(nodes: Seq<TensorInternal>, id: usize) -> Seq<usize>
    decreases id, nodes[id as int].inputs@.len() + 1,
{
    if nodes[id as int].operator is None {
        seq![id]
    } else {
        leaves_below_inputs(nodes, id, nodes[id as int].inputs@.len())
    }
}

/// The leaves below the first `count` inputs of node `id`, from left to
/// right.
pub open spec fn leaves_below_inputs(nodes: Seq<TensorInternal>, id: usize, count: nat) -> Seq<
    usize,
>
    decreases id, count,
{
    let inputs = nodes[id as int].inputs@;
    if count == 0 || count > inputs.len() || inputs[count - 1].0 >= id {
        Seq::empty()
    } else {
        leaves_below_inputs(nodes, id, (count - 1) as nat) + leaves_below(
            nodes,
            inputs[count - 1].0,
        )
    }
}

/// The values of `leaves` added up from left to right.
pub open spec fn total<T: Tensor>(values: Map<usize, Rc<T>>, leaves: Seq<usize>) -> Rc<T>
    decreases leaves.len(),
{
    if leaves.len() <= 1 {
        values[leaves[0]]
    } else {
        Rc::new(total(values, leaves.drop_last()).sum(&*values[leaves.last()]))
    }
}

/// Whether every computed node that `id` reaches, `id` included, is an
/// addition.
pub open spec fn only_additions(nodes: Seq<TensorInternal>, id: usize) -> bool
    decreases id,
{
    let node = nodes[id as int];
    node.operator is None || (node.operator == Some(OperatorKind::Addition(Addition))
        && forall|k: int|
        0 <= k < node.inputs@.len() && (#[trigger] node.inputs@[k]).0 < id ==> only_additions(
            nodes,
            node.inputs@[k].0,
        ))
}

/// Whether sums of `T` can be regrouped.
pub open spec fn sums_associate<T: Tensor>() -> bool {
    forall|a: T, b: T, c: T| #[trigger] a.sum(&b).sum(&c) == a.sum(&b.sum(&c))
}

/// Where sums can be regrouped, the total of two runs of leaves is the sum
/// of their totals.
pub proof fn lemma_total_concat<T: Tensor>(
    values: Map<usize, Rc<T>>,
    left: Seq<usize>,
    right: Seq<usize>,
)
    requires
        sums_associate::<T>(),
        left.len() > 0,
        right.len() > 0,
    ensures
        total(values, left + right) == Rc::new(
            total(values, left).sum(&*total(values, right)),
        ),
    decreases right.len(),
{
    let both = left + right;
    assert(both.last() == right.last());
    if right.len() == 1 {
        assert(both.drop_last() =~= left);
    } else {
        assert(both.drop_last() =~= left + right.drop_last());
        lemma_total_concat(values, left, right.drop_last());
        let a = *total(values, left);
        let b = *total(values, right.drop_last());
        let c = *values[right.last()];
        assert(a.sum(&b).sum(&c) == a.sum(&b.sum(&c)));
    }
}

/// Where sums can be regrouped, a graph of additions evaluates to the total
/// of its leaves, taken from left to right and once for every path that
/// leads to them. So all that matters of such a graph is the run of its
/// leaves, not the shape of the tree above them.
///
/// Sums of floating-point arrays cannot be regrouped, which is why this is
/// stated for those tensors only whose sums can.
pub proof fn lemma_additions_total<T: Tensor>(
    nodes: Seq<TensorInternal>,
    values: Map<usize, Rc<T>>,
    id: usize,
)
    requires
        well_formed(nodes),
        id < nodes.len(),
        sums_associate::<T>(),
        only_additions(nodes, id),
        outcome(nodes, values, id) is Ok,
    ensures
        leaves_below(nodes, id).len() > 0,
        outcome(nodes, values, id) == Ok::<Rc<T>, GraphError>(
            total(values, leaves_below(nodes, id)),
        ),
    decreases id,
{
    let node = nodes[id as int];
    let inputs = node.inputs@;
    if node.operator is Some {
        assert(inputs[0].0 < id && inputs[1].0 < id);
        assert(inputs_failure(nodes, values, id, 2) is None);
        assert(inputs_failure(nodes, values, id, 1) is None);
        let lhs = inputs[0].0;
        let rhs = inputs[1].0;
        lemma_additions_total(nodes, values, lhs);
        lemma_additions_total(nodes, values, rhs);
        assert(leaves_below_inputs(nodes, id, 0) =~= Seq::<usize>::empty());
        assert(leaves_below_inputs(nodes, id, 1) =~= leaves_below(nodes, lhs));
        assert(leaves_below(nodes, id) =~= leaves_below(nodes, lhs) + leaves_below(nodes, rhs));
        lemma_total_concat(values, leaves_below(nodes, lhs), leaves_below(nodes, rhs));
        assert(input_values(nodes, values, id)[0] == total(values, leaves_below(nodes, lhs)));
        assert(input_values(nodes, values, id)[1] == total(values, leaves_below(nodes, rhs)));
    }
}

/// Where sums can be regrouped, two graphs of additions over the same run of
/// leaves evaluate to the same value, however differently they group the
/// additions.
pub proof fn lemma_tree_shape<T: Tensor>(
    values: Map<usize, Rc<T>>,
    nodes: Seq<TensorInternal>,
    id: usize,
    other_nodes: Seq<TensorInternal>,
    other_id: usize,
)
    requires
        sums_associate::<T>(),
        well_formed(nodes),
        id < nodes.len(),
        only_additions(nodes, id),
        outcome(nodes, values, id) is Ok,
        well_formed(other_nodes),
        other_id < other_nodes.len(),
        only_additions(other_nodes, other_id),
        outcome(other_nodes, values, other_id) is Ok,
        leaves_below(nodes, id) == leaves_below(other_nodes, other_id),
    ensures
        outcome(nodes, values, id) == outcome(other_nodes, values, other_id),
{
    lemma_additions_total(nodes, values, id);
    lemma_additions_total(other_nodes, values, other_id);
}

} // verus!
