use std::rc::Rc;
use vstd::prelude::*;

use crate::error::GraphError;
use crate::forward::{
    forwarded, input_values, inputs_failure, lemma_inputs_failure_reads_leaves,
    lemma_outcome_reads_leaves, lemma_reached_outcome, lemma_refreshed_keeps_leaves,
    lemma_refreshed_twice, outcome, refreshed,
};
use crate::graph::{
    lemma_reaches_earlier, lemma_reaches_unfold, reaches, reaches_through, well_formed,
};
use crate::operator::Operator;
use crate::tensor::{Tensor, TensorId, TensorInternal};

verus! {

/// The first of `inputs`, from position `from` on, that has no stored value.
pub open spec fn first_missing<T>(
    inputs: Seq<TensorId>,
    values: Map<usize, Rc<T>>,
    from: nat,
) -> Option<TensorId>
    decreases inputs.len() - from,
{
    if from >= inputs.len() {
        None
    } else if !values.contains_key(inputs[from as int].0) {
        Some(inputs[from as int])
    } else {
        first_missing(inputs, values, from + 1)
    }
}

/// The stored values of `inputs`, in the same order.
pub open spec fn gathered<T>(inputs: Seq<TensorId>, values: Map<usize, Rc<T>>) -> Seq<Rc<T>> {
    Seq::new(inputs.len(), |k: int| values[inputs[k].0])
}

/// The state of a pass: the stored values, and the failure that stopped it.
pub ghost struct Pass<T> {
    pub values: Map<usize, Rc<T>>,
    pub failure: Option<GraphError>,
}

/// Evaluating node `id` once its inputs are done: a leaf must hold a value, a
/// computed node stores its operator's output on the stored values of its
/// inputs.
pub open spec fn finish<T: Tensor>(
    nodes: Seq<TensorInternal>,
    values: Map<usize, Rc<T>>,
    id: usize,
) -> Pass<T> {
    let node = nodes[id as int];
    match node.operator {
        None => Pass {
            values,
            failure: if values.contains_key(id) {
                None
            } else {
                Some(GraphError::UnfedPlaceholder(TensorId(id)))
            },
        },
        Some(operator) => match first_missing(node.inputs@, values, 0) {
            Some(input) => Pass { values, failure: Some(GraphError::NotEvaluated(input)) },
            None => {
                let inputs = gathered(node.inputs@, values);
                if operator.accepts(inputs) {
                    Pass { values: values.insert(id, operator.output(inputs)), failure: None }
                } else {
                    Pass { values, failure: Some(GraphError::Incompatible(TensorId(id))) }
                }
            },
        },
    }
}

/// The postorder visit of node `id`: its inputs from the last to the first,
/// then the node itself.
pub open spec fn visit<T: Tensor>(
    nodes: Seq<TensorInternal>,
    values: Map<usize, Rc<T>>,
    id: usize,
) -> Pass<T>
    decreases id, nodes[id as int].inputs@.len() + 1,
{
    let below = visit_inputs(nodes, values, id, nodes[id as int].inputs@.len());
    if below.failure is Some {
        below
    } else {
        finish(nodes, below.values, id)
    }
}

/// The visit of the first `count` inputs of node `id`, the last of them
/// first.
pub open spec fn visit_inputs<T: Tensor>(
    nodes: Seq<TensorInternal>,
    values: Map<usize, Rc<T>>,
    id: usize,
    count: nat,
) -> Pass<T>
    decreases id, count,
{
    let inputs = nodes[id as int].inputs@;
    if count == 0 || count > inputs.len() || inputs[count - 1].0 >= id {
        Pass { values, failure: None }
    } else {
        let last = visit(nodes, values, inputs[count - 1].0);
        if last.failure is Some {
            last
        } else {
            visit_inputs(nodes, last.values, id, (count - 1) as nat)
        }
    }
}

/// What is left to do when the work stack holds `stack`: entries are taken
/// from the end; one marked `true` has had its inputs visited and is
/// finished, one marked `false` is visited in full.
pub open spec fn drain<T: Tensor>(
    nodes: Seq<TensorInternal>,
    values: Map<usize, Rc<T>>,
    stack: Seq<(TensorId, bool)>,
) -> Pass<T>
    decreases stack.len(),
{
    if stack.len() == 0 {
        Pass { values, failure: None }
    } else {
        let (id, inputs_evaluated) = stack.last();
        let step = if inputs_evaluated {
            finish(nodes, values, id.0)
        } else {
            visit(nodes, values, id.0)
        };
        if step.failure is Some {
            step
        } else {
            drain(nodes, step.values, stack.drop_last())
        }
    }
}

/// The first `count` of `inputs` as stack entries still to be visited.
pub open spec fn pending(inputs: Seq<TensorId>, count: nat) -> Seq<(TensorId, bool)> {
    Seq::new(count, |k: int| (inputs[k], false))
}

/// The number of loop iterations that visiting node `id` takes.
pub open spec fn visit_cost(nodes: Seq<TensorInternal>, id: usize) -> nat
    decreases id, nodes[id as int].inputs@.len() + 1,
{
    2 + inputs_cost(nodes, id, nodes[id as int].inputs@.len())
}

/// The number of loop iterations that visiting the first `count` inputs of
/// node `id` takes.
pub open spec fn inputs_cost(nodes: Seq<TensorInternal>, id: usize, count: nat) -> nat
    decreases id, count,
{
    let inputs = nodes[id as int].inputs@;
    if count == 0 || count > inputs.len() || inputs[count - 1].0 >= id {
        0
    } else {
        visit_cost(nodes, inputs[count - 1].0) + inputs_cost(nodes, id, (count - 1) as nat)
    }
}

/// The number of loop iterations left when the work stack holds `stack`.
pub open spec fn drain_cost(
    nodes: Seq<TensorInternal>,
    stack: Seq<(TensorId, bool)>,
) -> nat
    decreases stack.len(),
{
    if stack.len() == 0 {
        0
    } else {
        let (id, inputs_evaluated) = stack.last();
        (if inputs_evaluated {
            1
        } else {
            visit_cost(nodes, id.0)
        }) + drain_cost(nodes, stack.drop_last())
    }
}

/// The stored values after the first `count` inputs of node `id` have been
/// visited with success.
pub open spec fn forwarded_through<T: Tensor>(
    nodes: Seq<TensorInternal>,
    values: Map<usize, Rc<T>>,
    id: usize,
    count: nat,
) -> Map<usize, Rc<T>> {
    Map::new(
        |n: usize| reaches_through(nodes, id, count, n) || values.contains_key(n),
        |n: usize|
            if reaches_through(nodes, id, count, n) {
                outcome(nodes, values, n)->Ok_0
            } else {
                values[n]
            },
    )
}

/// The postorder visit does what [`outcome`] says: it fails exactly when the
/// node cannot be evaluated, with the same failure, and otherwise leaves every
/// node it reaches with its fresh value. Either way it has only refreshed
/// computed nodes.
pub proof fn lemma_visit<T: Tensor>(
    nodes: Seq<TensorInternal>,
    values: Map<usize, Rc<T>>,
    id: usize,
)
    requires
        well_formed(nodes),
        id < nodes.len(),
    ensures
        refreshed(nodes, values, visit(nodes, values, id).values),
        match outcome(nodes, values, id) {
            Ok(_) => visit(nodes, values, id) == (Pass {
                values: forwarded(nodes, values, id),
                failure: None,
            }),
            Err(failure) => visit(nodes, values, id).failure == Some(failure),
        },
    decreases id, nodes[id as int].inputs@.len() + 1,
{
    let node = nodes[id as int];
    let inputs = node.inputs@;
    let below = visit_inputs(nodes, values, id, inputs.len());
    lemma_visit_inputs(nodes, values, id, inputs.len());
    if below.failure is None {
        let done = finish(nodes, below.values, id);
        assert forall|n: usize| reaches(nodes, id, n) <==> n == id || reaches_through(
            nodes,
            id,
            inputs.len(),
            n,
        ) by {
            lemma_reaches_unfold(nodes, id, n);
        }
        match node.operator {
            None => {
                assert(!reaches_through(nodes, id, 0, id));
                assert(below.values =~= values);
                if values.contains_key(id) {
                    assert(forwarded(nodes, values, id) =~= values);
                }
            },
            Some(operator) => {
                assert forall|k: int| 0 <= k < inputs.len() implies below.values.contains_key(
                    (#[trigger] inputs[k]).0,
                ) && below.values[inputs[k].0] == outcome(nodes, values, inputs[k].0)->Ok_0 by {
                    assert(reaches(nodes, inputs[k].0, inputs[k].0));
                    assert(reaches_through(nodes, id, inputs.len(), inputs[k].0));
                }
                lemma_none_missing(inputs, below.values, 0);
                assert(gathered(inputs, below.values) =~= input_values(nodes, values, id));
                assert(!reaches_through(nodes, id, inputs.len(), id)) by {
                    if reaches_through(nodes, id, inputs.len(), id) {
                        let k = choose|k: int|
                            0 <= k < inputs.len() && k < inputs.len() && reaches(
                                nodes,
                                (#[trigger] inputs[k]).0,
                                id,
                            );
                        lemma_reaches_earlier(nodes, inputs[k].0, id);
                    }
                }
                if operator.accepts(input_values(nodes, values, id)) {
                    assert(done.values =~= forwarded(nodes, values, id));
                    assert forall|n: usize|
                        #![trigger done.values.get(n)]
                        #![trigger values.get(n)]
                        done.values.get(n) == values.get(n) || (n < nodes.len()
                            && nodes[n as int].operator is Some && outcome(nodes, values, n) is Ok
                            && done.values.get(n) == Some(outcome(nodes, values, n)->Ok_0)) by {
                        let _ = below.values.get(n);
                    }
                }
            },
        }
    }
}

/// The companion of [`lemma_visit`] for the inputs of a node.
pub(crate) proof fn lemma_visit_inputs<T: Tensor>(
    nodes: Seq<TensorInternal>,
    values: Map<usize, Rc<T>>,
    id: usize,
    count: nat,
)
    requires
        well_formed(nodes),
        id < nodes.len(),
        count <= nodes[id as int].inputs@.len(),
    ensures
        refreshed(nodes, values, visit_inputs(nodes, values, id, count).values),
        visit_inputs(nodes, values, id, count).failure == inputs_failure(nodes, values, id, count),
        inputs_failure(nodes, values, id, count) is None ==> {
            &&& visit_inputs(nodes, values, id, count).values == forwarded_through(
                nodes,
                values,
                id,
                count,
            )
            &&& forall|n: usize|
                reaches_through(nodes, id, count, n) ==> n < id && #[trigger] outcome(
                    nodes,
                    values,
                    n,
                ) is Ok
        },
    decreases id, count,
{
    let inputs = nodes[id as int].inputs@;
    if count == 0 {
        assert(forwarded_through(nodes, values, id, count) =~= values);
    } else {
        let input = inputs[count - 1].0;
        assert(input < id);
        let last = visit(nodes, values, input);
        lemma_visit(nodes, values, input);
        if last.failure is None {
            let rest = visit_inputs(nodes, last.values, id, (count - 1) as nat);
            lemma_visit_inputs(nodes, last.values, id, (count - 1) as nat);
            lemma_refreshed_keeps_leaves(nodes, values, last.values);
            lemma_inputs_failure_reads_leaves(nodes, values, last.values, id, (count - 1) as nat);
            lemma_refreshed_twice(nodes, values, last.values, rest.values);
            if rest.failure is None {
                assert forall|n: usize|
                    reaches_through(nodes, id, count, n) <==> reaches(nodes, input, n)
                        || reaches_through(nodes, id, (count - 1) as nat, n) by {
                    if reaches_through(nodes, id, count, n) {
                        let k = choose|k: int|
                            0 <= k < count && k < inputs.len() && reaches(
                                nodes,
                                (#[trigger] inputs[k]).0,
                                n,
                            );
                        if k < count - 1 {
                            assert(reaches_through(nodes, id, (count - 1) as nat, n));
                        }
                    }
                    if reaches(nodes, input, n) {
                        assert(reaches(nodes, inputs[count - 1].0, n));
                    }
                    if reaches_through(nodes, id, (count - 1) as nat, n) {
                        let k = choose|k: int|
                            0 <= k < count - 1 && k < inputs.len() && reaches(
                                nodes,
                                (#[trigger] inputs[k]).0,
                                n,
                            );
                        assert(0 <= k < count && reaches(nodes, inputs[k].0, n));
                    }
                }
                assert forall|n: usize| reaches_through(nodes, id, count, n) implies n < id
                    && #[trigger] outcome(nodes, values, n) is Ok by {
                    if reaches_through(nodes, id, (count - 1) as nat, n) {
                        assert(outcome(nodes, last.values, n) is Ok);
                        lemma_outcome_reads_leaves(nodes, values, last.values, n);
                    } else {
                        lemma_reaches_earlier(nodes, input, n);
                        lemma_reached_outcome(nodes, values, input, n);
                    }
                }
                assert forall|n: usize|
                    reaches_through(nodes, id, (count - 1) as nat, n) implies outcome(
                    nodes,
                    last.values,
                    n,
                ) == outcome(nodes, values, n) by {
                    assert(outcome(nodes, last.values, n) is Ok);
                    lemma_outcome_reads_leaves(nodes, values, last.values, n);
                }
                assert(rest.values =~= forwarded_through(nodes, values, id, count));
            }
        }
    }
}

/// Where every one of `inputs` from `from` on has a stored value, none is
/// missing.
pub(crate) proof fn lemma_none_missing<T>(inputs: Seq<TensorId>, values: Map<usize, Rc<T>>, from: nat)
    requires
        forall|k: int| from <= k < inputs.len() ==> values.contains_key((#[trigger] inputs[k]).0),
    ensures
        first_missing(inputs, values, from) is None,
    decreases inputs.len() - from,
{
    if from < inputs.len() {
        lemma_none_missing(inputs, values, from + 1);
    }
}

/// Draining a stack whose top entries are the first `count` inputs of node
/// `id`, still to be visited, is visiting those inputs and then draining what
/// lies beneath them.
pub(crate) proof fn lemma_drain_pending<T: Tensor>(
    nodes: Seq<TensorInternal>,
    values: Map<usize, Rc<T>>,
    base: Seq<(TensorId, bool)>,
    id: usize,
    count: nat,
)
    requires
        well_formed(nodes),
        id < nodes.len(),
        count <= nodes[id as int].inputs@.len(),
    ensures
        drain(nodes, values, base + pending(nodes[id as int].inputs@, count)) == ({
            let below = visit_inputs(nodes, values, id, count);
            if below.failure is Some {
                below
            } else {
                drain(nodes, below.values, base)
            }
        }),
        drain_cost(nodes, base + pending(nodes[id as int].inputs@, count)) == drain_cost(
            nodes,
            base,
        ) + inputs_cost(nodes, id, count),
    decreases count,
{
    let inputs = nodes[id as int].inputs@;
    let stack = base + pending(inputs, count);
    if count == 0 {
        assert(stack =~= base);
    } else {
        assert(inputs[count - 1].0 < id);
        assert(stack.last() == (inputs[count - 1], false));
        assert(stack.drop_last() =~= base + pending(inputs, (count - 1) as nat));
        let last = visit(nodes, values, inputs[count - 1].0);
        lemma_drain_pending(nodes, last.values, base, id, (count - 1) as nat);
    }
}

/// Replacing an unvisited entry on top of the stack by the same entry marked
/// as visited, with all its inputs above it, changes nothing of what draining
/// the stack does, and leaves one iteration less to go.
pub(crate) proof fn lemma_drain_expand<T: Tensor>(
    nodes: Seq<TensorInternal>,
    values: Map<usize, Rc<T>>,
    rest: Seq<(TensorId, bool)>,
    id: TensorId,
)
    requires
        well_formed(nodes),
        id.0 < nodes.len(),
    ensures
        drain(
            nodes,
            values,
            rest.push((id, true)) + pending(
                nodes[id.0 as int].inputs@,
                nodes[id.0 as int].inputs@.len(),
            ),
        ) == drain(nodes, values, rest.push((id, false))),
        drain_cost(
            nodes,
            rest.push((id, true)) + pending(
                nodes[id.0 as int].inputs@,
                nodes[id.0 as int].inputs@.len(),
            ),
        ) + 1 == drain_cost(nodes, rest.push((id, false))),
{
    let inputs = nodes[id.0 as int].inputs@;
    lemma_drain_pending(nodes, values, rest.push((id, true)), id.0, inputs.len());
    let below = visit_inputs(nodes, values, id.0, inputs.len());
    assert(rest.push((id, true)).last() == (id, true));
    assert(rest.push((id, true)).drop_last() =~= rest);
    assert(rest.push((id, false)).last() == (id, false));
    assert(rest.push((id, false)).drop_last() =~= rest);
}

} // verus!
