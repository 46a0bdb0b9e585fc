use std::collections::HashMap;
use std::rc::Rc;
use vstd::prelude::*;

use crate::tensor::{share, TensorId};

verus! {

/// Tensor values keyed by node handle. One instance holds the forward values
/// of a graph, another its gradients.
pub struct TensorStorage<T> {
    values: HashMap<usize, Rc<T>>,
}

impl<T> View for TensorStorage<T> {
    type V = Map<usize, Rc<T>>;

    /// The stored values, keyed by the index of their handle.
    closed spec fn view(&self) -> Map<usize, Rc<T>> {
        self.values@
    }
}

impl<T> TensorStorage<T> {
    /// An empty storage.
    pub fn new() -> (storage: Self)
        ensures
            storage@ == Map::<usize, Rc<T>>::empty(),
    {
        Self { values: HashMap::new() }
    }

    /// Registers `value` under `id`, replacing what was there.
    pub fn insert(&mut self, id: TensorId, value: Rc<T>)
        ensures
            final(self)@ == old(self)@.insert(id.0, value),
    {
        self.values.insert(id.0, value);
    }

    /// The value registered under `id`, shared rather than copied.
    pub fn get(&self, id: &TensorId) -> (value: Option<Rc<T>>)
        ensures
            value == self@.get(id.0),
    {
        match self.values.get(&id.0) {
            Some(found) => Some(share(found)),
            None => None,
        }
    }
}

impl<T> Default for TensorStorage<T> {
    fn default() -> (storage: Self)
        ensures
            storage@ == Map::<usize, Rc<T>>::empty(),
    {
        Self::new()
    }
}

} // verus!
