//! Fixed size memory pool over slots that the caller supplies. An element
//! leaves the pool only through [`Pool::dealloc`]: a handle that is dropped
//! leaves its element in place, and the slot stays taken.
use crate::model::{allocate_result, PoolModel};
use crate::store::{usable, Slot, SlotStore};
use vstd::prelude::*;

verus! {

/// A value allocated on a [`Pool`]: the index of its slot, and nothing else.
pub struct Box {
    index: u8,
}

impl View for Box {
    type V = u8;

    closed spec fn view(&self) -> u8 {
        self.index
    }
}

impl Box {
    /// Index of the slot that holds the value.
    pub fn index(&self) -> (index: u8)
        ensures
            index == self@,
    {
        self.index
    }
}

/// What an allocation returned, with the handle read as its slot index.
pub open spec fn slot_of<T>(r: Result<Box, T>) -> Result<u8, T> {
    match r {
        Ok(handle) => Ok(handle@),
        Err(value) => Err(value),
    }
}

/// A fixed-size memory pool backed by the slots it was made with.
pub struct Pool<T> {
    store: SlotStore<T>,
}

impl<T> View for Pool<T> {
    type V = PoolModel<T>;

    closed spec fn view(&self) -> PoolModel<T> {
        self.store@
    }
}

impl<T> Pool<T> {
    /// The pool is in a consistent state.
    pub closed spec fn wf(&self) -> bool {
        self.store.wf()
    }

    /// A consistent pool keeps the model's invariant, and its elements have a
    /// size.
    pub proof fn lemma_wf_model(&self)
        requires
            self.wf(),
        ensures
            self@.wf(),
            vstd::layout::size_of::<T>() > 0,
    {
        self.store.lemma_wf_model();
    }

    /// Creates a memory pool that allocates on the given `memory`, whatever its
    /// slots hold. The pool uses 255 slots at most, also where `memory` has
    /// more. An element type without a size is not supported.
    pub fn new(memory: Vec<Slot<T>>) -> (pool: Self)
        requires
            vstd::layout::size_of::<T>() > 0,
        ensures
            pool.wf(),
            pool@ == PoolModel::<T>::fresh(usable(memory@.len())),
    {
        Pool { store: SlotStore::new(memory) }
    }

    /// Creates a memory pool on the given `memory` where the elements have a
    /// size, as [`Pool::new`] does; where they have none, no pool is made and
    /// `memory` comes back.
    pub fn try_new(memory: Vec<Slot<T>>) -> (r: Result<Self, Vec<Slot<T>>>)
        ensures
            r is Ok <==> vstd::layout::size_of::<T>() > 0,
            r is Ok ==> r->Ok_0.wf() && r->Ok_0@ == PoolModel::<T>::fresh(usable(memory@.len())),
            r is Err ==> r->Err_0 == memory,
    {
        if core::mem::size_of::<T>() > 0 {
            Ok(Pool::new(memory))
        } else {
            Err(memory)
        }
    }

    /// Allocates the given `value` on the memory pool. If the pool is exhausted,
    /// `value` is returned as the error and the pool stays as it is.
    pub fn allocate(&mut self, value: T) -> (r: Result<Box, T>)
        requires
            old(self).wf(),
        ensures
            final(self).wf(),
            final(self)@ == old(self)@.allocate(value),
            slot_of(r) == allocate_result(old(self)@, value),
            r is Ok <==> old(self)@.values.dom().len() < old(self)@.capacity,
    {
        match self.store.allocate(value) {
            Ok(index) => Ok(Box { index }),
            Err(value) => Err(value),
        }
    }

    /// Deallocates the given `value` and returns its slot to the pool. The
    /// element is dropped.
    pub fn dealloc(&mut self, value: Box)
        requires
            old(self).wf(),
            old(self)@.live(value@),
        ensures
            final(self).wf(),
            final(self)@ == old(self)@.release(value@),
    {
        self.store.release(value.index)
    }

    /// Whether slot `index` holds a live element.
    pub fn is_live(&self, index: u8) -> (live: bool)
        requires
            self.wf(),
        ensures
            live == self@.live(index),
    {
        self.store.is_live(index)
    }

    /// The element behind `handle`.
    pub fn get(&self, handle: &Box) -> (value: &T)
        requires
            self.wf(),
            self@.live(handle@),
        ensures
            *value == self@.values[handle@],
    {
        self.store.get(handle.index)
    }

    /// The element behind `handle`, to be changed in place.
    pub fn get_mut(&mut self, handle: &Box) -> (value: &mut T)
        requires
            old(self).wf(),
            old(self)@.live(handle@),
        ensures
            *value == old(self)@.values[handle@],
            final(self).wf(),
            final(self)@ == old(self)@.overwrite(handle@, *final(value)),
    {
        self.store.get_mut(handle.index)
    }

    /// Puts `value` in place of the element behind `handle`, which is dropped.
    pub fn set(&mut self, handle: &Box, value: T)
        requires
            old(self).wf(),
            old(self)@.live(handle@),
        ensures
            final(self).wf(),
            final(self)@ == old(self)@.overwrite(handle@, value),
    {
        self.store.set(handle.index, value)
    }

    /// Number of slots that the pool uses.
    pub fn capacity(&self) -> (n: u8)
        ensures
            n == self@.capacity,
    {
        self.store.capacity()
    }

    /// Number of free slots.
    pub fn free(&self) -> (n: u8)
        requires
            self.wf(),
        ensures
            n == self@.free_list.len(),
    {
        self.store.free()
    }

    /// Index of the first free slot; the capacity when there is none.
    pub fn head(&self) -> (index: u8)
        requires
            self.wf(),
        ensures
            index == self@.head(),
    {
        self.store.head()
    }

    /// Number of slots that were touched so far.
    pub fn initialized(&self) -> (n: u8)
        ensures
            n == self@.frontier,
    {
        self.store.initialized()
    }

    /// The link stored in slot `index`, if it is a free slot that holds one.
    pub fn link(&self, index: u8) -> (r: Option<u8>)
        requires
            self.wf(),
        ensures
            r == self@.link(index),
    {
        self.store.link(index)
    }
}

} // verus!
