use std::rc::Rc;
use vstd::prelude::*;

use crate::error::GraphError;
use crate::forward::{forwarded, outcome, refreshed};
use crate::traversal::{
    drain, drain_cost, finish, first_missing, gathered, lemma_drain_expand, lemma_visit, pending,
    visit, visit_cost, Pass,
};
use crate::graph::well_formed;
use crate::backward::{
    backpropagated, confined, distribute, lemma_backward_confined, propagate, seeded, sweep,
};
use crate::gradient::{gradient, lemma_backward_gradient};
use crate::operator::{Addition, BackwardContext, ForwardContext, Operator, OperatorKind};
use crate::storage::TensorStorage;
use crate::tensor::{share, Tensor, TensorId, TensorInternal};

verus! {

/// The value that the first entry of `feeds` for `key`, from position `from`
/// on, supplies.
spec fn fed<T>(feeds: Seq<(TensorId, Rc<T>)>, key: usize, from: nat) -> Option<Rc<T>>
    decreases feeds.len() - from,
{
    if from >= feeds.len() {
        None
    } else if feeds[from as int].0.0 == key {
        Some(feeds[from as int].1)
    } else {
        fed(feeds, key, from + 1)
    }
}

/// Values supplied from outside, by handle. There are few of them at a time,
/// so they are kept in the order they first arrived and found by scanning.
pub struct Feeder<T> {
    feeds: Vec<(TensorId, Rc<T>)>,
}

impl<T> View for Feeder<T> {
    type V = Map<usize, Rc<T>>;

    /// The value supplied for each handle index.
    closed spec fn view(&self) -> Map<usize, Rc<T>> {
        Map::new(
            |key: usize| fed(self.feeds@, key, 0) is Some,
            |key: usize| fed(self.feeds@, key, 0)->0,
        )
    }
}

/// Replacing the value of the first entry for a key changes what is fed for
/// that key and for no other.
proof fn lemma_fed_update<T>(
    feeds: Seq<(TensorId, Rc<T>)>,
    at: int,
    id: TensorId,
    value: Rc<T>,
    key: usize,
    from: nat,
)
    requires
        0 <= at < feeds.len(),
        feeds[at].0 == id,
        forall|j: int| 0 <= j < at ==> (#[trigger] feeds[j]).0.0 != id.0,
        from <= at,
    ensures
        fed(feeds.update(at, (id, value)), key, from) == if key == id.0 {
            Some(value)
        } else {
            fed(feeds, key, from)
        },
    decreases feeds.len() - from,
{
    let after = feeds.update(at, (id, value));
    if from < at {
        assert(feeds[from as int].0.0 != id.0);
        lemma_fed_update(feeds, at, id, value, key, from + 1);
    } else if key != id.0 {
        lemma_fed_suffix(feeds, after, key, from + 1);
    }
}

/// What is fed from a position on depends on the entries from there on
/// alone.
proof fn lemma_fed_suffix<T>(
    a: Seq<(TensorId, Rc<T>)>,
    b: Seq<(TensorId, Rc<T>)>,
    key: usize,
    from: nat,
)
    requires
        a.len() == b.len(),
        forall|j: int| from <= j < a.len() ==> a[j] == b[j],
    ensures
        fed(a, key, from) == fed(b, key, from),
    decreases a.len() - from,
{
    if from < a.len() {
        lemma_fed_suffix(a, b, key, from + 1);
    }
}

/// Appending an entry for a key that has none feeds that key and changes no
/// other.
proof fn lemma_fed_push<T>(
    feeds: Seq<(TensorId, Rc<T>)>,
    id: TensorId,
    value: Rc<T>,
    key: usize,
    from: nat,
)
    requires
        forall|j: int| 0 <= j < feeds.len() ==> (#[trigger] feeds[j]).0.0 != id.0,
        from <= feeds.len(),
    ensures
        fed(feeds.push((id, value)), key, from) == if key == id.0 {
            Some(value)
        } else {
            fed(feeds, key, from)
        },
    decreases feeds.len() - from,
{
    let after = feeds.push((id, value));
    if from < feeds.len() {
        assert(feeds[from as int].0.0 != id.0);
        assert(after[from as int] == feeds[from as int]);
        lemma_fed_push(feeds, id, value, key, from + 1);
    } else {
        assert(fed(after, key, from + 1) is None);
    }
}

impl<T> Feeder<T> {
    /// A feeder that supplies nothing.
    pub fn new() -> (feeder: Self)
        ensures
            feeder@ == Map::<usize, Rc<T>>::empty(),
    {
        let feeder = Self { feeds: Vec::new() };
        proof {
            assert(feeder@ =~= Map::<usize, Rc<T>>::empty());
        }
        feeder
    }

    /// Supplies `view` for `id`. A handle has one value at a time: feeding
    /// it again replaces the value it had.
    pub fn feed(&mut self, id: TensorId, view: Rc<T>)
        ensures
            final(self)@ == old(self)@.insert(id.0, view),
    {
        let mut at: usize = 0;
        while at < self.feeds.len()
            invariant
                at <= self.feeds@.len(),
                self.feeds@ == old(self).feeds@,
                forall|j: int| 0 <= j < at ==> (#[trigger] self.feeds@[j]).0.0 != id.0,
            decreases self.feeds@.len() - at,
        {
            if self.feeds[at].0.0 == id.0 {
                self.feeds.set(at, (id, view));
                proof {
                    assert forall|key: usize| #[trigger]
                        fed(self.feeds@, key, 0) == if key == id.0 {
                            Some(view)
                        } else {
                            fed(old(self).feeds@, key, 0)
                        } by {
                        lemma_fed_update(old(self).feeds@, at as int, id, view, key, 0);
                    }
                    assert(self@ =~= old(self)@.insert(id.0, view));
                }
                return ;
            }
            at = at + 1;
        }
        self.feeds.push((id, view));
        proof {
            assert forall|key: usize| #[trigger]
                fed(self.feeds@, key, 0) == if key == id.0 {
                    Some(view)
                } else {
                    fed(old(self).feeds@, key, 0)
                } by {
                lemma_fed_push(old(self).feeds@, id, view, key, 0);
            }
            assert(self@ =~= old(self)@.insert(id.0, view));
        }
    }

    /// The value supplied for `id`. Fails with `UnfedPlaceholder` exactly
    /// when none was.
    pub fn get(&self, id: TensorId) -> (value: Result<Rc<T>, GraphError>)
        ensures
            value == (match self@.get(id.0) {
                Some(found) => Ok::<Rc<T>, GraphError>(found),
                None => Err(GraphError::UnfedPlaceholder(id)),
            }),
    {
        let mut at: usize = 0;
        while at < self.feeds.len()
            invariant
                at <= self.feeds@.len(),
                fed(self.feeds@, id.0, 0) == fed(self.feeds@, id.0, at as nat),
            decreases self.feeds@.len() - at,
        {
            if self.feeds[at].0.0 == id.0 {
                return Ok(share(&self.feeds[at].1));
            }
            at = at + 1;
        }
        Err(GraphError::UnfedPlaceholder(id))
    }
}

/// A computation graph together with the values and gradients of its nodes.
///
/// Nodes are only ever appended, so a handle stays valid for the life of the
/// network that issued it.
pub struct Network<T: Tensor> {
    tensor_info: Vec<TensorInternal>,
    tensors: TensorStorage<T>,
    grads: TensorStorage<T>,
}

/// Collects the stored values of `inputs`, in order. Fails with the first
/// input that has none.
fn gather<T>(storage: &TensorStorage<T>, inputs: &Vec<TensorId>) -> (found: Result<
    Vec<Rc<T>>,
    TensorId,
>)
    ensures
        match found {
            Ok(values) => first_missing(inputs@, storage@, 0) is None && values@ == gathered(
                inputs@,
                storage@,
            ),
            Err(input) => first_missing(inputs@, storage@, 0) == Some(input),
        },
{
    let mut values: Vec<Rc<T>> = Vec::new();
    let mut k: usize = 0;
    while k < inputs.len()
        invariant
            k <= inputs.len(),
            values@.len() == k,
            first_missing(inputs@, storage@, 0) == first_missing(inputs@, storage@, k as nat),
            forall|j: int| 0 <= j < k ==> values@[j] == storage@[(#[trigger] inputs@[j]).0],
        decreases inputs.len() - k,
    {
        match storage.get(&inputs[k]) {
            Some(value) => {
                values.push(value);
            },
            None => {
                return Err(inputs[k]);
            },
        }
        k = k + 1;
    }
    proof {
        assert(values@ =~= gathered(inputs@, storage@));
    }
    Ok(values)
}

impl<T: Tensor> Network<T> {
    /// The nodes, in creation order: the node of handle `TensorId(i)` is at
    /// position `i`.
    pub closed spec fn nodes(&self) -> Seq<TensorInternal> {
        self.tensor_info@
    }

    /// The forward values currently stored, keyed by handle index.
    pub closed spec fn values(&self) -> Map<usize, Rc<T>> {
        self.tensors@
    }

    /// The gradients left by the last backward pass that succeeded, keyed by
    /// handle index.
    pub closed spec fn gradients(&self) -> Map<usize, Rc<T>> {
        self.grads@
    }

    /// The invariant every network keeps: its graph is well formed.
    pub open spec fn wf(&self) -> bool {
        well_formed(self.nodes())
    }

    /// Whether `id` was issued by this network.
    pub open spec fn contains(&self, id: TensorId) -> bool {
        id.0 < self.nodes().len()
    }

    /// What [`Network::forward`] returns for `target`.
    pub open spec fn forward_result(&self, target: TensorId) -> Result<Rc<T>, GraphError> {
        if self.contains(target) {
            outcome(self.nodes(), self.values(), target.0)
        } else {
            Err(GraphError::NodeNotFound(target))
        }
    }

    /// A network without nodes.
    pub fn new() -> (network: Self)
        ensures
            network.wf(),
            network.nodes().len() == 0,
            network.values() == Map::<usize, Rc<T>>::empty(),
            network.gradients() == Map::<usize, Rc<T>>::empty(),
    {
        Self { tensor_info: Vec::new(), tensors: TensorStorage::new(), grads: TensorStorage::new() }
    }

    /// Appends a node and issues its handle, the next index.
    pub(crate) fn register_tensor(&mut self, tensor: TensorInternal) -> (id: TensorId)
        requires
            old(self).wf(),
            tensor.operator is None ==> tensor.inputs@.len() == 0,
            forall|k: int|
                0 <= k < tensor.inputs@.len() ==> old(self).contains(#[trigger] tensor.inputs@[k]),
        ensures
            final(self).wf(),
            final(self).nodes() == old(self).nodes().push(tensor),
            final(self).values() == old(self).values(),
            final(self).gradients() == old(self).gradients(),
            id.0 == old(self).nodes().len(),
    {
        let id = TensorId(self.tensor_info.len());
        self.tensor_info.push(tensor);
        id
    }

    /// The node behind `id`. Fails with `NodeNotFound` exactly when this
    /// network never issued `id`.
    pub fn access_tensor(&self, id: TensorId) -> (node: Result<
        &TensorInternal,
        GraphError,
    >)
        ensures
            match node {
                Ok(found) => self.contains(id) && *found == self.nodes()[id.0 as int],
                Err(failure) => !self.contains(id) && failure == GraphError::NodeNotFound(id),
            },
    {
        if id.0 < self.tensor_info.len() {
            Ok(&self.tensor_info[id.0])
        } else {
            Err(GraphError::NodeNotFound(id))
        }
    }

    /// The gradient accumulated at `id`. Fails with `NotEvaluated` exactly
    /// when no backward pass has left one there.
    pub fn get_grad(&self, id: TensorId) -> (grad: Result<Rc<T>, GraphError>)
        ensures
            grad == (match self.gradients().get(id.0) {
                Some(found) => Ok::<Rc<T>, GraphError>(found),
                None => Err(GraphError::NotEvaluated(id)),
            }),
    {
        match self.grads.get(&id) {
            Some(found) => Ok(found),
            None => Err(GraphError::NotEvaluated(id)),
        }
    }

    /// Registers an input slot without a value: a leaf that is not
    /// differentiable.
    pub fn placeholder(&mut self) -> (id: TensorId)
        requires
            old(self).wf(),
        ensures
            final(self).wf(),
            id.0 == old(self).nodes().len(),
            final(self).nodes().len() == old(self).nodes().len() + 1,
            final(self).nodes().take(id.0 as int) == old(self).nodes(),
            final(self).nodes()[id.0 as int].operator is None,
            final(self).nodes()[id.0 as int].inputs@.len() == 0,
            !final(self).nodes()[id.0 as int].is_differentiable,
            final(self).values() == old(self).values(),
            final(self).gradients() == old(self).gradients(),
    {
        let tensor = TensorInternal { operator: None, inputs: Vec::new(), is_differentiable: false };
        let id = self.register_tensor(tensor);
        proof {
            assert(self.nodes().take(id.0 as int) =~= old(self).nodes());
        }
        id
    }

    /// Registers a differentiable leaf that holds `array` from the start.
    pub fn variable(&mut self, array: Rc<T>) -> (id: TensorId)
        requires
            old(self).wf(),
        ensures
            final(self).wf(),
            id.0 == old(self).nodes().len(),
            final(self).nodes().len() == old(self).nodes().len() + 1,
            final(self).nodes().take(id.0 as int) == old(self).nodes(),
            final(self).nodes()[id.0 as int].operator is None,
            final(self).nodes()[id.0 as int].inputs@.len() == 0,
            final(self).nodes()[id.0 as int].is_differentiable,
            final(self).values() == old(self).values().insert(id.0, array),
            final(self).gradients() == old(self).gradients(),
    {
        let tensor = TensorInternal { operator: None, inputs: Vec::new(), is_differentiable: true };
        let id = self.register_tensor(tensor);
        self.tensors.insert(id, array);
        proof {
            assert(self.nodes().take(id.0 as int) =~= old(self).nodes());
        }
        id
    }

    /// Supplies the value of `id`, replacing the one it held. The network
    /// itself is handed back, so that a pass can follow in the same
    /// expression.
    pub fn feed(&mut self, id: TensorId, array: Rc<T>) -> (network: &mut Self)
        requires
            old(self).wf(),
        ensures
            network.wf(),
            network.nodes() == old(self).nodes(),
            network.values() == old(self).values().insert(id.0, array),
            network.gradients() == old(self).gradients(),
            *final(self) == *final(network),
    {
        self.tensors.insert(id, array);
        self
    }

    /// Registers the node that adds `lhs` and `rhs`. Fails with
    /// `NodeNotFound` exactly when one of them was not issued by this
    /// network, naming `lhs` if both were not; the network is then unchanged.
    pub fn add(&mut self, lhs: TensorId, rhs: TensorId) -> (result: Result<TensorId, GraphError>)
        requires
            old(self).wf(),
        ensures
            final(self).wf(),
            final(self).values() == old(self).values(),
            final(self).gradients() == old(self).gradients(),
            match result {
                Ok(id) => {
                    &&& old(self).contains(lhs)
                    &&& old(self).contains(rhs)
                    &&& id.0 == old(self).nodes().len()
                    &&& final(self).nodes().len() == old(self).nodes().len() + 1
                    &&& final(self).nodes().take(id.0 as int) == old(self).nodes()
                    &&& final(self).nodes()[id.0 as int].operator == Some(
                        OperatorKind::Addition(Addition),
                    )
                    &&& final(self).nodes()[id.0 as int].inputs@ == seq![lhs, rhs]
                    &&& final(self).nodes()[id.0 as int].is_differentiable
                },
                Err(failure) => {
                    &&& final(self).nodes() == old(self).nodes()
                    &&& failure == GraphError::NodeNotFound(
                        if old(self).contains(lhs) {
                            rhs
                        } else {
                            lhs
                        },
                    )
                    &&& !(old(self).contains(lhs) && old(self).contains(rhs))
                },
            },
    {
        if lhs.0 >= self.tensor_info.len() {
            return Err(GraphError::NodeNotFound(lhs));
        }
        if rhs.0 >= self.tensor_info.len() {
            return Err(GraphError::NodeNotFound(rhs));
        }
        let mut inputs: Vec<TensorId> = Vec::new();
        inputs.push(lhs);
        inputs.push(rhs);
        proof {
            assert(inputs@ =~= seq![lhs, rhs]);
        }
        let tensor = TensorInternal {
            operator: Some(OperatorKind::Addition(Addition)),
            inputs,
            is_differentiable: true,
        };
        let id = self.register_tensor(tensor);
        proof {
            assert(self.nodes().take(id.0 as int) =~= old(self).nodes());
        }
        Ok(id)
    }

    /// Evaluates `tensor`: its inputs first, from the last to the first, then
    /// the node itself, all the way down to the leaves, and stores every
    /// value computed on the way.
    ///
    /// Nothing is reused from earlier passes. The pass fails with
    /// `NodeNotFound` for a handle of another graph, with `UnfedPlaceholder`
    /// at the first leaf met that holds no value, and with `Incompatible` at
    /// the first node met whose operator does not accept its inputs. A pass
    /// that fails stops where it is: the computed nodes it had finished keep
    /// their fresh values, and no leaf is touched.
    pub fn forward(&mut self, tensor: TensorId) -> (result: Result<Rc<T>, GraphError>)
        requires
            old(self).wf(),
        ensures
            final(self).wf(),
            final(self).nodes() == old(self).nodes(),
            final(self).gradients() == old(self).gradients(),
            result == old(self).forward_result(tensor),
            result is Ok ==> final(self).values() == forwarded(
                old(self).nodes(),
                old(self).values(),
                tensor.0,
            ),
            final(self).values() == if old(self).contains(tensor) {
                visit(old(self).nodes(), old(self).values(), tensor.0).values
            } else {
                old(self).values()
            },
            refreshed(old(self).nodes(), old(self).values(), final(self).values()),
    {
        if tensor.0 >= self.tensor_info.len() {
            return Err(GraphError::NodeNotFound(tensor));
        }
        let ghost nodes = self.nodes();
        let ghost start = self.values();
        let ghost goal = visit(nodes, start, tensor.0);
        proof {
            lemma_visit(nodes, start, tensor.0);
            let only = seq![(tensor, false)];
            assert(only.last() == (tensor, false));
            assert(only.drop_last() =~= Seq::<(TensorId, bool)>::empty());
            assert(drain(nodes, goal.values, only.drop_last()) == Pass {
                values: goal.values,
                failure: None,
            });
            assert(drain(nodes, start, only) == goal);
        }
        // (handle, whether its inputs have been evaluated)
        let mut dfs_stack: Vec<(TensorId, bool)> = Vec::new();
        dfs_stack.push((tensor, false));
        while dfs_stack.len() > 0
            invariant
                self.nodes() == nodes,
                nodes == old(self).nodes(),
                start == old(self).values(),
                goal == visit(nodes, start, tensor.0),
                tensor.0 < nodes.len(),
                well_formed(nodes),
                self.gradients() == old(self).gradients(),
                forall|p: int| 0 <= p < dfs_stack@.len() ==> (#[trigger] dfs_stack@[p]).0.0 < nodes.len(),
                drain(nodes, self.values(), dfs_stack@) == goal,
            decreases drain_cost(nodes, dfs_stack@),
        {
            let ghost before = dfs_stack@;
            let (id, has_input_evaled) = dfs_stack.pop().unwrap();
            proof {
                assert(before.last() == (id, has_input_evaled));
                assert(before.drop_last() =~= dfs_stack@);
                assert(before[before.len() - 1].0.0 < nodes.len());
                lemma_visit(nodes, start, tensor.0);
            }
            let ghost current = self.values();
            let ghost step = if has_input_evaled {
                finish(nodes, current, id.0)
            } else {
                visit(nodes, current, id.0)
            };
            assert(drain(nodes, current, before) == if step.failure is Some {
                step
            } else {
                drain(nodes, step.values, before.drop_last())
            });
            assert(drain_cost(nodes, before) == (if has_input_evaled {
                1
            } else {
                visit_cost(nodes, id.0)
            }) + drain_cost(nodes, before.drop_last()));
            let node = &self.tensor_info[id.0];
            if has_input_evaled {
                match &node.operator {
                    None => {
                        if self.tensors.get(&id).is_none() {
                            return Err(GraphError::UnfedPlaceholder(id));
                        }
                    },
                    Some(operator) => {
                        match gather(&self.tensors, &node.inputs) {
                            Err(input) => {
                                return Err(GraphError::NotEvaluated(input));
                            },
                            Ok(inputs) => {
                                let ctx = ForwardContext::new(inputs);
                                if !operator.applicable(&ctx) {
                                    return Err(GraphError::Incompatible(id));
                                }
                                let value = operator.forward(&ctx);
                                self.tensors.insert(id, value);
                            },
                        }
                    },
                }
            } else {
                let ghost rest = dfs_stack@;
                let ghost inputs = node.inputs@;
                proof {
                    lemma_drain_expand(nodes, self.values(), rest, id);
                    assert(before =~= rest.push((id, false)));
                }
                dfs_stack.push((id, true));
                let mut k: usize = 0;
                while k < node.inputs.len()
                    invariant
                        k <= node.inputs.len(),
                        node.inputs@ == inputs,
                        inputs == nodes[id.0 as int].inputs@,
                        id.0 < nodes.len(),
                        well_formed(nodes),
                        dfs_stack@ == rest.push((id, true)) + pending(inputs, k as nat),
                        forall|p: int| 0 <= p < rest.len() ==> (#[trigger] rest[p]).0.0 < nodes.len(),
                    decreases node.inputs.len() - k,
                {
                    dfs_stack.push((node.inputs[k], false));
                    proof {
                        assert(dfs_stack@ =~= rest.push((id, true)) + pending(inputs, (k + 1) as nat));
                    }
                    k = k + 1;
                }
                proof {
                    assert forall|p: int| 0 <= p < dfs_stack@.len() implies (
                    #[trigger] dfs_stack@[p]).0.0 < nodes.len() by {
                        if p > rest.len() {
                            assert(dfs_stack@[p] == (inputs[p - rest.len() - 1], false));
                        }
                    }
                }
            }
        }
        match self.tensors.get(&tensor) {
            Some(value) => Ok(value),
            None => Err(GraphError::NotEvaluated(tensor)),
        }
    }

    /// What [`Network::backward`] leaves as gradients for `target`, or the
    /// failure it returns.
    pub open spec fn backward_result(&self, target: TensorId) -> Result<
        Map<usize, Rc<T>>,
        GraphError,
    > {
        backpropagated(self.nodes(), self.values(), target.0)
    }

    /// Accumulates the gradient of `tensor` with respect to every
    /// differentiable node it reaches.
    ///
    /// The gradients of earlier passes are discarded. `tensor` is seeded with
    /// the all-ones tensor shaped like its value; then the nodes take their
    /// backward step from `tensor` down to the first node, so that each has
    /// its whole gradient before it hands anything on.
    ///
    /// The pass fails with `NodeNotFound` for a handle of another graph, with
    /// `NotEvaluated` where `tensor`, or an input that is needed, holds no
    /// value, and with `Incompatible` where an operator does not accept its
    /// inputs or a gradient cannot be added to the sum so far. A pass that
    /// fails leaves the gradients of the last pass that succeeded.
    pub fn backward(&mut self, tensor: TensorId) -> (result: Result<(), GraphError>)
        requires
            old(self).wf(),
        ensures
            final(self).wf(),
            final(self).nodes() == old(self).nodes(),
            final(self).values() == old(self).values(),
            match old(self).backward_result(tensor) {
                Ok(grads) => result is Ok && final(self).gradients() == grads,
                Err(failure) => result == Err::<(), GraphError>(failure) && final(self).gradients()
                    == old(self).gradients(),
            },
            result is Ok ==> confined(
                old(self).nodes(),
                old(self).values(),
                final(self).gradients(),
                tensor.0,
            ),
            result is Ok ==> forall|n: usize|
                final(self).gradients().get(n) == #[trigger] gradient(
                    old(self).nodes(),
                    old(self).values(),
                    tensor.0,
                    n,
                ),
    {
        if tensor.0 >= self.tensor_info.len() {
            return Err(GraphError::NodeNotFound(tensor));
        }
        let output = match self.tensors.get(&tensor) {
            Some(value) => value,
            None => {
                return Err(GraphError::NotEvaluated(tensor));
            },
        };
        let mut grads: TensorStorage<T> = TensorStorage::new();
        grads.insert(tensor, Rc::new(output.ones_like()));
        let ghost nodes = self.nodes();
        let ghost values = self.values();
        let ghost goal = sweep(nodes, values, grads@, (tensor.0 + 1) as nat);
        proof {
            assert(grads@ =~= seeded(values, tensor.0));
        }
        let mut count: usize = tensor.0 + 1;
        while count > 0
            invariant
                *self == *old(self),
                goal == old(self).backward_result(tensor),
                nodes == self.nodes(),
                values == self.values(),
                well_formed(nodes),
                count <= nodes.len(),
                sweep(nodes, values, grads@, count as nat) == goal,
            decreases count,
        {
            count = count - 1;
            let id = TensorId(count);
            let node = &self.tensor_info[count];
            let ghost step = propagate(nodes, values, grads@, count);
            proof {
                assert(goal == match step {
                    Err(failure) => Err(failure),
                    Ok(next) => sweep(nodes, values, next, count as nat),
                });
            }
            if node.is_differentiable {
                if let Some(operator) = &node.operator {
                    if let Some(grad) = grads.get(&id) {
                        let inputs = match gather(&self.tensors, &node.inputs) {
                            Ok(inputs) => inputs,
                            Err(input) => {
                                return Err(GraphError::NotEvaluated(input));
                            },
                        };
                        let ctx = ForwardContext::new(inputs);
                        if !operator.applicable(&ctx) {
                            return Err(GraphError::Incompatible(id));
                        }
                        let ctx = operator.backward(BackwardContext::new(grad, ctx.into_inputs()));
                        let ghost input_grads = ctx@.input_grads;
                        proof {
                            assert(input_grads =~= operator.input_grads(
                                grad,
                                gathered(node.inputs@, values),
                            ));
                        }
                        let mut k: usize = 0;
                        while k < node.inputs.len()
                            invariant
                                *self == *old(self),
                                nodes == self.nodes(),
                                well_formed(nodes),
                                count < nodes.len(),
                                *node == nodes[count as int],
                                k <= node.inputs@.len(),
                                ctx@.input_grads == input_grads,
                                input_grads.len() == node.inputs@.len(),
                                distribute(nodes, grads@, node.inputs@, input_grads, k as nat)
                                    == step,
                                step is Err ==> goal == step,
                                goal == old(self).backward_result(tensor),
                            decreases node.inputs@.len() - k,
                        {
                            let input = node.inputs[k];
                            if self.tensor_info[input.0].is_differentiable {
                                let grad = ctx.input_grad(k);
                                match grads.get(&input) {
                                    None => {
                                        grads.insert(input, grad);
                                    },
                                    Some(sum) => {
                                        if !sum.addable(&*grad) {
                                            return Err(GraphError::Incompatible(input));
                                        }
                                        grads.insert(input, Rc::new(sum.add(&*grad)));
                                    },
                                }
                            }
                            k = k + 1;
                        }
                    }
                }
            }
        }
        proof {
            lemma_backward_confined(nodes, values, tensor.0);
            lemma_backward_gradient(nodes, values, tensor.0);
        }
        self.grads = grads;
        Ok(())
    }
}

impl<T: Tensor> Default for Network<T> {
    fn default() -> (network: Self)
        ensures
            network.wf(),
            network.nodes().len() == 0,
            network.values() == Map::<usize, Rc<T>>::empty(),
            network.gradients() == Map::<usize, Rc<T>>::empty(),
    {
        Self::new()
    }
}

} // verus!
