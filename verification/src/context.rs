use std::collections::HashMap;
use vstd::prelude::*;

use crate::tensor::TensorId;

verus! {

/// The way a tensor is kept in a [`TensorStorage`].
#[derive(Copy, Clone, PartialEq, Eq)]
pub enum StorageType {
    View,
}

/// Where a tensor lies inside a [`TensorStorage`]: the kind of slot and its
/// position among the slots of that kind. The position alone does not
/// identify a tensor.
#[derive(Copy, Clone, PartialEq, Eq)]
pub struct StorageId {
    pub ty: StorageType,
    pub id: usize,
}

impl StorageId {
    /// The slot at position `id` among the slots of kind `ty`.
    pub fn new(ty: StorageType, id: usize) -> (storage_id: Self)
        ensures
            storage_id == (StorageId { ty, id }),
    {
        Self { ty, id }
    }
}

/// An arena of tensor views with a table from node handles to slots. A view
/// is pushed once and found again by the handle it was pushed for.
pub struct TensorStorage<V> {
    views: Vec<V>,
    lookup_table: HashMap<usize, StorageId>,
}

impl<V> View for TensorStorage<V> {
    type V = Map<usize, V>;

    /// The view registered for each handle index, which is the one pushed
    /// last for it.
    closed spec fn view(&self) -> Map<usize, V> {
        Map::new(
            |key: usize| self.lookup_table@.contains_key(key),
            |key: usize| self.views@[self.lookup_table@[key].id as int],
        )
    }
}

impl<V> TensorStorage<V> {
    /// The invariant of the arena: every slot in the table exists.
    pub closed spec fn wf(&self) -> bool {
        forall|key: usize| #[trigger]
            self.lookup_table@.contains_key(key) ==> self.lookup_table@[key].id < self.views@.len()
    }

    /// An empty arena.
    pub fn new() -> (storage: Self)
        ensures
            storage.wf(),
            storage@ == Map::<usize, V>::empty(),
    {
        let storage = Self { views: Vec::new(), lookup_table: HashMap::new() };
        proof {
            assert(storage@ =~= Map::<usize, V>::empty());
        }
        storage
    }

    /// Appends `view` to the arena and points `tensor_id` at it.
    pub fn push_view(&mut self, tensor_id: TensorId, view: V)
        requires
            old(self).wf(),
        ensures
            final(self).wf(),
            final(self)@ == old(self)@.insert(tensor_id.0, view),
    {
        let id = StorageId::new(StorageType::View, self.views.len());
        self.views.push(view);
        self.lookup_table.insert(tensor_id.0, id);
        proof {
            assert(self@ =~= old(self)@.insert(tensor_id.0, view));
        }
    }

    /// The view registered for `id`.
    pub fn get(&self, id: TensorId) -> (view: Option<&V>)
        requires
            self.wf(),
        ensures
            match view {
                Some(found) => self@.contains_key(id.0) && *found == self@[id.0],
                None => !self@.contains_key(id.0),
            },
    {
        match self.lookup_table.get(&id.0) {
            Some(storage_id) => match storage_id.ty {
                StorageType::View => Some(&self.views[storage_id.id]),
            },
            None => None,
        }
    }
}

impl<V> Default for TensorStorage<V> {
    fn default() -> (storage: Self)
        ensures
            storage.wf(),
            storage@ == Map::<usize, V>::empty(),
    {
        Self::new()
    }
}

/// What an evaluation works on: the arena of the tensors it can see.
pub struct Context<V> {
    pub storage: TensorStorage<V>,
}

} // verus!
