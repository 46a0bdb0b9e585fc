use std::rc::Rc;
use vstd::prelude::*;

use crate::error::GraphError;
use crate::graph::{lemma_reaches_earlier, reaches, well_formed};
use crate::operator::{Addition, Operator, OperatorKind};
use crate::tensor::{Tensor, TensorId, TensorInternal};
use crate::traversal::{lemma_visit, visit};

verus! {

/// What a forward pass makes of node `id`, given the values the leaves hold:
/// its value, or the first failure met on the way.
///
/// The inputs of a node are evaluated from the last to the first, and the
/// node itself after them. A leaf yields the value it holds and fails as
/// unfed when it holds none; a computed node yields its operator's output on
/// the values of its inputs and fails as incompatible when the operator does
/// not accept them. Values stored for computed nodes play no part.
pub open spec fn outcome<T: Tensor>(
    nodes: Seq<TensorInternal>,
    values: Map<usize, Rc<T>>,
    id: usize,
) -> Result<Rc<T>, GraphError>
    decreases id, nodes[id as int].inputs@.len() + 1,
{
    let node = nodes[id as int];
    match inputs_failure(nodes, values, id, node.inputs@.len()) {
        Some(failure) => Err(failure),
        None => match node.operator {
            None => if values.contains_key(id) {
                Ok(values[id])
            } else {
                Err(GraphError::UnfedPlaceholder(TensorId(id)))
            },
            Some(operator) => {
                let inputs = input_values(nodes, values, id);
                if operator.accepts(inputs) {
                    Ok(operator.output(inputs))
                } else {
                    Err(GraphError::Incompatible(TensorId(id)))
                }
            },
        },
    }
}

/// The first failure met when the first `count` inputs of node `id` are
/// evaluated from the last of them down to the first.
pub open spec fn inputs_failure<T: Tensor>(
    nodes: Seq<TensorInternal>,
    values: Map<usize, Rc<T>>,
    id: usize,
    count: nat,
) -> Option<GraphError>
    decreases id, count,
{
    let inputs = nodes[id as int].inputs@;
    if count == 0 || count > inputs.len() || inputs[count - 1].0 >= id {
        None
    } else {
        match outcome(nodes, values, inputs[count - 1].0) {
            Err(failure) => Some(failure),
            Ok(_) => inputs_failure(nodes, values, id, (count - 1) as nat),
        }
    }
}

/// The values of the inputs of node `id`, in input order, where each of them
/// has one.
pub open spec fn input_values<T: Tensor>(
    nodes: Seq<TensorInternal>,
    values: Map<usize, Rc<T>>,
    id: usize,
) -> Seq<Rc<T>>
    decreases id, 0nat,
{
    let inputs = nodes[id as int].inputs@;
    Seq::new(
        inputs.len(),
        |k: int|
            if 0 <= k < inputs.len() && inputs[k].0 < id {
                outcome(nodes, values, inputs[k].0)->Ok_0
            } else {
                arbitrary()
            },
    )
}

/// The stored values after a forward pass on `target` that succeeded: every
/// node that `target` reaches holds its fresh value, every other entry is as
/// before.
pub open spec fn forwarded<T: Tensor>(
    nodes: Seq<TensorInternal>,
    values: Map<usize, Rc<T>>,
    target: usize,
) -> Map<usize, Rc<T>> {
    Map::new(
        |n: usize| reaches(nodes, target, n) || values.contains_key(n),
        |n: usize|
            if reaches(nodes, target, n) {
                outcome(nodes, values, n)->Ok_0
            } else {
                values[n]
            },
    )
}

/// How a pass may have changed the stored values, whether it succeeded or
/// not: an entry is either untouched, or it belongs to a computed node and
/// holds that node's fresh value. Leaves keep what they were fed.
pub open spec fn refreshed<T: Tensor>(
    nodes: Seq<TensorInternal>,
    before: Map<usize, Rc<T>>,
    after: Map<usize, Rc<T>>,
) -> bool {
    forall|n: usize|
        #![trigger after.get(n)]
        #![trigger before.get(n)]
        after.get(n) == before.get(n) || (n < nodes.len() && nodes[n as int].operator is Some
            && outcome(nodes, before, n) is Ok && after.get(n) == Some(
            outcome(nodes, before, n)->Ok_0,
        ))
}

/// Whether two value maps hold the same for every leaf of the graph.
pub open spec fn same_leaves<T: Tensor>(
    nodes: Seq<TensorInternal>,
    a: Map<usize, Rc<T>>,
    b: Map<usize, Rc<T>>,
) -> bool {
    forall|n: usize|
        n < nodes.len() && (#[trigger] nodes[n as int]).operator is None ==> a.get(n) == b.get(n)
}

/// What a forward pass makes of a node depends on the values of the leaves
/// alone: values stored for computed nodes are never read back.
pub proof fn lemma_outcome_reads_leaves<T: Tensor>(
    nodes: Seq<TensorInternal>,
    a: Map<usize, Rc<T>>,
    b: Map<usize, Rc<T>>,
    id: usize,
)
    requires
        well_formed(nodes),
        id < nodes.len(),
        same_leaves(nodes, a, b),
    ensures
        outcome(nodes, a, id) == outcome(nodes, b, id),
        input_values(nodes, a, id) == input_values(nodes, b, id),
    decreases id, nodes[id as int].inputs@.len() + 1,
{
    let node = nodes[id as int];
    let inputs = node.inputs@;
    lemma_inputs_failure_reads_leaves(nodes, a, b, id, inputs.len());
    assert forall|k: int| 0 <= k < inputs.len() implies #[trigger] input_values(nodes, a, id)[k]
        == input_values(nodes, b, id)[k] by {
        assert(inputs[k].0 < id);
        lemma_outcome_reads_leaves(nodes, a, b, inputs[k].0);
    }
    assert(input_values(nodes, a, id) =~= input_values(nodes, b, id));
    if node.operator is None {
        assert(a.get(id) == b.get(id));
    }
}

/// The companion of [`lemma_outcome_reads_leaves`] for the inputs of a node.
pub(crate) proof fn lemma_inputs_failure_reads_leaves<T: Tensor>(
    nodes: Seq<TensorInternal>,
    a: Map<usize, Rc<T>>,
    b: Map<usize, Rc<T>>,
    id: usize,
    count: nat,
)
    requires
        well_formed(nodes),
        id < nodes.len(),
        same_leaves(nodes, a, b),
    ensures
        inputs_failure(nodes, a, id, count) == inputs_failure(nodes, b, id, count),
    decreases id, count,
{
    let inputs = nodes[id as int].inputs@;
    if !(count == 0 || count > inputs.len() || inputs[count - 1].0 >= id) {
        lemma_outcome_reads_leaves(nodes, a, b, inputs[count - 1].0);
        lemma_inputs_failure_reads_leaves(nodes, a, b, id, (count - 1) as nat);
    }
}

/// A pass that only refreshes computed nodes leaves the leaves as they were.
pub(crate) proof fn lemma_refreshed_keeps_leaves<T: Tensor>(
    nodes: Seq<TensorInternal>,
    before: Map<usize, Rc<T>>,
    after: Map<usize, Rc<T>>,
)
    requires
        refreshed(nodes, before, after),
    ensures
        same_leaves(nodes, before, after),
{
    assert forall|n: usize| n < nodes.len() && (#[trigger] nodes[n as int]).operator is None implies before.get(
        n,
    ) == after.get(n) by {
        let _ = after.get(n);
    }
}

/// Refreshing twice is refreshing once.
pub(crate) proof fn lemma_refreshed_twice<T: Tensor>(
    nodes: Seq<TensorInternal>,
    a: Map<usize, Rc<T>>,
    b: Map<usize, Rc<T>>,
    c: Map<usize, Rc<T>>,
)
    requires
        well_formed(nodes),
        refreshed(nodes, a, b),
        refreshed(nodes, b, c),
    ensures
        refreshed(nodes, a, c),
{
    lemma_refreshed_keeps_leaves(nodes, a, b);
    assert forall|n: usize|
        #![trigger c.get(n)]
        #![trigger a.get(n)]
        c.get(n) == a.get(n) || (n < nodes.len() && nodes[n as int].operator is Some && outcome(
            nodes,
            a,
            n,
        ) is Ok && c.get(n) == Some(outcome(nodes, a, n)->Ok_0)) by {
        let _ = b.get(n);
        if n < nodes.len() {
            lemma_outcome_reads_leaves(nodes, a, b, n);
        }
    }
}

/// Where a node can be evaluated, so can every node it reaches.
pub proof fn lemma_reached_outcome<T: Tensor>(
    nodes: Seq<TensorInternal>,
    values: Map<usize, Rc<T>>,
    from: usize,
    to: usize,
)
    requires
        well_formed(nodes),
        from < nodes.len(),
        outcome(nodes, values, from) is Ok,
        reaches(nodes, from, to),
    ensures
        outcome(nodes, values, to) is Ok,
    decreases from,
{
    if from != to {
        let inputs = nodes[from as int].inputs@;
        let k = choose|k: int|
            0 <= k < inputs.len() && (#[trigger] inputs[k]).0 < from && reaches(
                nodes,
                inputs[k].0,
                to,
            );
        lemma_inputs_succeed(nodes, values, from, inputs.len(), k);
        lemma_reached_outcome(nodes, values, inputs[k].0, to);
    }
}

/// Where the first `count` inputs of a node meet no failure, each of them
/// can be evaluated.
pub(crate) proof fn lemma_inputs_succeed<T: Tensor>(
    nodes: Seq<TensorInternal>,
    values: Map<usize, Rc<T>>,
    id: usize,
    count: nat,
    k: int,
)
    requires
        well_formed(nodes),
        id < nodes.len(),
        count <= nodes[id as int].inputs@.len(),
        inputs_failure(nodes, values, id, count) is None,
        0 <= k < count,
    ensures
        outcome(nodes, values, nodes[id as int].inputs@[k].0) is Ok,
    decreases count,
{
    let inputs = nodes[id as int].inputs@;
    assert(inputs[count - 1].0 < id);
    if k < count - 1 {
        lemma_inputs_succeed(nodes, values, id, (count - 1) as nat, k);
    }
}

/// A leaf that has just been fed evaluates to what it was fed, whatever it
/// held before.
pub proof fn lemma_fed_leaf_outcome<T: Tensor>(
    nodes: Seq<TensorInternal>,
    values: Map<usize, Rc<T>>,
    id: usize,
    value: Rc<T>,
)
    requires
        well_formed(nodes),
        id < nodes.len(),
        nodes[id as int].operator is None,
    ensures
        outcome(nodes, values.insert(id, value), id) == Ok::<Rc<T>, GraphError>(value),
{
}

/// The value of an addition node is the sum of the values of its two
/// operands, where these can be added, and the node is incompatible where
/// they cannot.
pub proof fn lemma_addition_outcome<T: Tensor>(
    nodes: Seq<TensorInternal>,
    values: Map<usize, Rc<T>>,
    id: usize,
)
    requires
        well_formed(nodes),
        id < nodes.len(),
        nodes[id as int].operator == Some(OperatorKind::Addition(Addition)),
        nodes[id as int].inputs@.len() == 2,
        outcome(nodes, values, nodes[id as int].inputs@[0].0) is Ok,
        outcome(nodes, values, nodes[id as int].inputs@[1].0) is Ok,
    ensures
        ({
            let lhs = outcome(nodes, values, nodes[id as int].inputs@[0].0)->Ok_0;
            let rhs = outcome(nodes, values, nodes[id as int].inputs@[1].0)->Ok_0;
            outcome(nodes, values, id) == if lhs.can_add(&*rhs) {
                Ok::<Rc<T>, GraphError>(Rc::new(lhs.sum(&*rhs)))
            } else {
                Err(GraphError::Incompatible(TensorId(id)))
            }
        }),
{
    let inputs = nodes[id as int].inputs@;
    assert(inputs[0].0 < id && inputs[1].0 < id);
    assert(inputs_failure(nodes, values, id, 0) is None);
    assert(inputs_failure(nodes, values, id, 1) is None);
    assert(inputs_failure(nodes, values, id, 2) is None);
}

/// An unfed placeholder named by a forward pass is a leaf that the target
/// reaches and that holds no value.
pub proof fn lemma_unfed_is_reached<T: Tensor>(
    nodes: Seq<TensorInternal>,
    values: Map<usize, Rc<T>>,
    id: usize,
    unfed: TensorId,
)
    requires
        well_formed(nodes),
        id < nodes.len(),
        outcome(nodes, values, id) == Err::<Rc<T>, GraphError>(GraphError::UnfedPlaceholder(unfed)),
    ensures
        reaches(nodes, id, unfed.0),
        nodes[unfed.0 as int].operator is None,
        !values.contains_key(unfed.0),
    decreases id, nodes[id as int].inputs@.len() + 1,
{
    let inputs = nodes[id as int].inputs@;
    if inputs_failure(nodes, values, id, inputs.len()) is Some {
        lemma_unfed_among_inputs(nodes, values, id, inputs.len(), unfed);
    }
}

/// The companion of [`lemma_unfed_is_reached`] for the inputs of a node.
pub(crate) proof fn lemma_unfed_among_inputs<T: Tensor>(
    nodes: Seq<TensorInternal>,
    values: Map<usize, Rc<T>>,
    id: usize,
    count: nat,
    unfed: TensorId,
)
    requires
        well_formed(nodes),
        id < nodes.len(),
        count <= nodes[id as int].inputs@.len(),
        inputs_failure(nodes, values, id, count) == Some(GraphError::UnfedPlaceholder(unfed)),
    ensures
        reaches(nodes, id, unfed.0),
        nodes[unfed.0 as int].operator is None,
        !values.contains_key(unfed.0),
    decreases id, count,
{
    let inputs = nodes[id as int].inputs@;
    let input = inputs[count - 1].0;
    assert(input < id);
    if outcome(nodes, values, input) is Err {
        lemma_unfed_is_reached(nodes, values, input, unfed);
        assert(reaches(nodes, inputs[count - 1].0, unfed.0));
    } else {
        lemma_unfed_among_inputs(nodes, values, id, (count - 1) as nat, unfed);
    }
}

/// A forward pass fails whenever its target reaches a leaf that holds no
/// value.
pub proof fn lemma_unfed_leaf_fails<T: Tensor>(
    nodes: Seq<TensorInternal>,
    values: Map<usize, Rc<T>>,
    target: usize,
    leaf: usize,
)
    requires
        well_formed(nodes),
        target < nodes.len(),
        reaches(nodes, target, leaf),
        nodes[leaf as int].operator is None,
        !values.contains_key(leaf),
    ensures
        outcome(nodes, values, target) is Err,
{
    if outcome(nodes, values, target) is Ok {
        lemma_reaches_earlier(nodes, target, leaf);
        lemma_reached_outcome(nodes, values, target, leaf);
    }
}

/// A forward pass can be repeated: on the values it left, whether it
/// succeeded or not, the same target evaluates to the same value or fails
/// with the same failure; and a pass that succeeded leaves the same values
/// when it is run again.
pub proof fn lemma_forward_again<T: Tensor>(
    nodes: Seq<TensorInternal>,
    values: Map<usize, Rc<T>>,
    target: usize,
)
    requires
        well_formed(nodes),
        target < nodes.len(),
    ensures
        outcome(nodes, visit(nodes, values, target).values, target) == outcome(
            nodes,
            values,
            target,
        ),
        outcome(nodes, values, target) is Ok ==> visit(
            nodes,
            visit(nodes, values, target).values,
            target,
        ) == visit(nodes, values, target),
{
    let after = visit(nodes, values, target).values;
    lemma_visit(nodes, values, target);
    lemma_refreshed_keeps_leaves(nodes, values, after);
    lemma_outcome_reads_leaves(nodes, values, after, target);
    if outcome(nodes, values, target) is Ok {
        lemma_visit(nodes, after, target);
        assert forall|n: usize| reaches(nodes, target, n) implies outcome(nodes, after, n)
            == outcome(nodes, values, n) by {
            lemma_reaches_earlier(nodes, target, n);
            lemma_outcome_reads_leaves(nodes, values, after, n);
        }
        assert(forwarded(nodes, after, target) =~= after);
    }
}

/// Nothing of an earlier pass goes stale. Feed a leaf after a forward pass,
/// whether that pass succeeded or not, and every node evaluates as it would
/// have if the leaf had been fed before the pass.
pub proof fn lemma_refeed_after_forward<T: Tensor>(
    nodes: Seq<TensorInternal>,
    values: Map<usize, Rc<T>>,
    earlier: usize,
    leaf: usize,
    value: Rc<T>,
    target: usize,
)
    requires
        well_formed(nodes),
        earlier < nodes.len(),
        leaf < nodes.len(),
        target < nodes.len(),
        nodes[leaf as int].operator is None,
    ensures
        outcome(nodes, visit(nodes, values, earlier).values.insert(leaf, value), target)
            == outcome(nodes, values.insert(leaf, value), target),
{
    let after = visit(nodes, values, earlier).values;
    lemma_visit(nodes, values, earlier);
    lemma_refreshed_keeps_leaves(nodes, values, after);
    assert forall|n: usize|
        n < nodes.len() && (#[trigger] nodes[n as int]).operator is None implies values.insert(
        leaf,
        value,
    ).get(n) == after.insert(leaf, value).get(n) by {
        assert(values.get(n) == after.get(n));
    }
    lemma_outcome_reads_leaves(
        nodes,
        values.insert(leaf, value),
        after.insert(leaf, value),
        target,
    );
}

} // verus!
