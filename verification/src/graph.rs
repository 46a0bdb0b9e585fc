use vstd::prelude::*;

use crate::tensor::TensorInternal;

verus! {

/// The structural invariant of a graph, over its nodes in creation order:
/// every input of a node was registered before the node itself, and a node
/// without an operator has no inputs. Handles being indices, the first part
/// rules out cycles and forward references.
pub open spec fn well_formed(nodes: Seq<TensorInternal>) -> bool {
    &&& forall|id: int, k: int|
        0 <= id < nodes.len() && 0 <= k < nodes[id].inputs@.len() ==> (#[trigger] nodes[id].inputs@[k]).0
            < id
    &&& forall|id: int|
        0 <= id < nodes.len() && (#[trigger] nodes[id]).operator is None ==> nodes[id].inputs@.len()
            == 0
}

/// Whether `to` is `from` itself or one of the nodes that `from` depends on,
/// directly or through other nodes.
pub open spec fn reaches(nodes: Seq<TensorInternal>, from: usize, to: usize) -> bool
    decreases from,
{
    from == to || exists|k: int|
        0 <= k < nodes[from as int].inputs@.len() && (#[trigger] nodes[from as int].inputs@[k]).0
            < from && reaches(nodes, nodes[from as int].inputs@[k].0, to)
}

/// Whether `to` is reached from one of the first `count` inputs of `from`.
pub open spec fn reaches_through(
    nodes: Seq<TensorInternal>,
    from: usize,
    count: nat,
    to: usize,
) -> bool {
    exists|k: int|
        0 <= k < count && k < nodes[from as int].inputs@.len() && reaches(
            nodes,
            (#[trigger] nodes[from as int].inputs@[k]).0,
            to,
        )
}

/// A node reaches only itself and nodes registered before it.
pub proof fn lemma_reaches_earlier(
    nodes: Seq<TensorInternal>,
    from: usize,
    to: usize,
)
    requires
        reaches(nodes, from, to),
    ensures
        to <= from,
    decreases from,
{
    if from != to {
        let k = choose|k: int|
            0 <= k < nodes[from as int].inputs@.len() && (#[trigger] nodes[from as int].inputs@[k]).0
                < from && reaches(nodes, nodes[from as int].inputs@[k].0, to);
        lemma_reaches_earlier(nodes, nodes[from as int].inputs@[k].0, to);
    }
}

/// In a well-formed graph, what a node reaches besides itself is what its
/// inputs reach.
pub(crate) proof fn lemma_reaches_unfold(
    nodes: Seq<TensorInternal>,
    from: usize,
    to: usize,
)
    requires
        well_formed(nodes),
        from < nodes.len(),
    ensures
        reaches(nodes, from, to) <==> from == to || reaches_through(
            nodes,
            from,
            nodes[from as int].inputs@.len(),
            to,
        ),
{
    let inputs = nodes[from as int].inputs@;
    if reaches(nodes, from, to) && from != to {
        let k = choose|k: int|
            0 <= k < inputs.len() && (#[trigger] inputs[k]).0 < from && reaches(
                nodes,
                inputs[k].0,
                to,
            );
        assert(0 <= k < inputs.len() && k < inputs.len() && reaches(nodes, inputs[k].0, to));
    }
    if reaches_through(nodes, from, inputs.len(), to) {
        let k = choose|k: int|
            0 <= k < inputs.len() && k < inputs.len() && reaches(nodes, (#[trigger] inputs[k]).0, to);
        assert(inputs[k].0 < from);
    }
}


/// What a node reaches, it reaches together with the inputs of that node.
pub(crate) proof fn lemma_reaches_input(nodes: Seq<TensorInternal>, from: usize, via: usize, k: int)
    requires
        well_formed(nodes),
        from < nodes.len(),
        reaches(nodes, from, via),
        0 <= k < nodes[via as int].inputs@.len(),
    ensures
        reaches(nodes, from, nodes[via as int].inputs@[k].0),
    decreases from,
{
    let to = nodes[via as int].inputs@[k].0;
    if from == via {
        assert(nodes[from as int].inputs@[k].0 < from);
        assert(reaches(nodes, to, to));
    } else {
        let inputs = nodes[from as int].inputs@;
        let j = choose|j: int|
            0 <= j < inputs.len() && (#[trigger] inputs[j]).0 < from && reaches(
                nodes,
                inputs[j].0,
                via,
            );
        lemma_reaches_input(nodes, inputs[j].0, via, k);
    }
}

} // verus!
