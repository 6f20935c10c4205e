//! Fixed size memory pool whose handles give their slot back when they end.
//!
//! A handle of this pool is meant to release its slot by itself at the end of
//! its life. The pool's side of that is [`Dealloc`]: it takes the index that
//! the handle carried and returns the slot to the free list.
use crate::model::{allocate_result, PoolModel};
use crate::store::SlotStore;
use vstd::prelude::*;

verus! {

/// A value allocated on a [`Pool`]: the index of its slot, and nothing else.
pub struct Box {
    index: u8,
}

impl View for Box {
    type V = u8;

    closed spec fn view(&self) -> u8 {
        self.index
    }
}

/// What an allocation returned, with the handle read as its slot index.
pub open spec fn slot_of<T>(r: Result<Box, T>) -> Result<u8, T> {
    match r {
        Ok(handle) => Ok(handle@),
        Err(value) => Err(value),
    }
}

impl Box {
    /// Allocates the given `value` on the pool. If the pool is exhausted, `value`
    /// is returned as the error and the pool stays as it is.
    pub fn new<T, const N: u8>(pool: &mut Pool<T, N>, value: T) -> (r: Result<Box, T>)
        requires
            old(pool).wf(),
        ensures
            final(pool).wf(),
            final(pool)@ == old(pool)@.allocate(value),
            slot_of(r) == allocate_result(old(pool)@, value),
            r is Ok <==> old(pool)@.values.dom().len() < N,
    {
        match pool.store.allocate(value) {
            Ok(index) => Ok(Box { index }),
            Err(value) => Err(value),
        }
    }

    /// Ends the handle and gives the index of its slot, which is then due to
    /// the pool's [`Dealloc::dealloc`].
    pub fn into_index(self) -> (index: u8)
        ensures
            index == self@,
    {
        self.index
    }

    /// Index of the slot that holds the value.
    pub fn index(&self) -> (index: u8)
        ensures
            index == self@,
    {
        self.index
    }
}

/// A pool that takes a slot back by its index.
pub trait Dealloc {
    /// Type of the pool's elements.
    type Element;

    /// The pool, as its model.
    spec fn model(&self) -> PoolModel<Self::Element>;

    /// The pool is in a consistent state.
    spec fn consistent(&self) -> bool;

    /// Releases the live slot `index`: drops its element and puts the slot at
    /// the front of the free list.
    fn dealloc(&mut self, index: u8)
        requires
            old(self).consistent(),
            old(self).model().live(index),
        ensures
            final(self).consistent(),
            final(self).model() == old(self).model().release(index),
    ;
}

/// A fixed-size memory pool of `N` slots.
pub struct Pool<T, const N: u8> {
    store: SlotStore<T>,
}

impl<T, const N: u8> View for Pool<T, N> {
    type V = PoolModel<T>;

    closed spec fn view(&self) -> PoolModel<T> {
        self.store@
    }
}

impl<T, const N: u8> Dealloc for Pool<T, N> {
    type Element = T;

    open spec fn model(&self) -> PoolModel<T> {
        self@
    }

    open spec fn consistent(&self) -> bool {
        self.wf()
    }

    fn dealloc(&mut self, index: u8) {
        self.store.release(index)
    }
}

impl<T, const N: u8> Pool<T, N> {
    /// The pool is in a consistent state, and has `N` slots.
    pub closed spec fn wf(&self) -> bool {
        self.store.wf() && self.store@.capacity == N
    }

    /// A consistent pool keeps the model's invariant, has the capacity of its
    /// type, and its elements have a size.
    pub proof fn lemma_wf_model(&self)
        requires
            self.wf(),
        ensures
            self@.wf(),
            self@.capacity == N,
            vstd::layout::size_of::<T>() > 0,
    {
        self.store.lemma_wf_model();
    }

    /// Creates a new memory pool, with every slot free and none written yet. An
    /// element type without a size is not supported.
    pub fn new() -> (pool: Self)
        requires
            vstd::layout::size_of::<T>() > 0,
        ensures
            pool.wf(),
            pool@ == PoolModel::<T>::fresh(N as nat),
    {
        Pool { store: SlotStore::with_capacity(N) }
    }

    /// Creates a new memory pool where the elements have a size, as
    /// [`Pool::new`] does; where they have none, no pool is made.
    pub fn try_new() -> (r: Option<Self>)
        ensures
            r is Some <==> vstd::layout::size_of::<T>() > 0,
            r is Some ==> r->Some_0.wf() && r->Some_0@ == PoolModel::<T>::fresh(N as nat),
    {
        if core::mem::size_of::<T>() > 0 {
            Some(Pool::new())
        } else {
            None
        }
    }

    /// Whether slot `index` holds a live element.
    pub fn is_live(&self, index: u8) -> (live: bool)
        requires
            self.wf(),
        ensures
            live == self@.live(index),
    {
        self.store.is_live(index)
    }

    /// The element behind `handle`.
    pub fn get(&self, handle: &Box) -> (value: &T)
        requires
            self.wf(),
            self@.live(handle@),
        ensures
            *value == self@.values[handle@],
    {
        self.store.get(handle.index)
    }

    /// The element behind `handle`, to be changed in place.
    pub fn get_mut(&mut self, handle: &Box) -> (value: &mut T)
        requires
            old(self).wf(),
            old(self)@.live(handle@),
        ensures
            *value == old(self)@.values[handle@],
            final(self).wf(),
            final(self)@ == old(self)@.overwrite(handle@, *final(value)),
    {
        self.store.get_mut(handle.index)
    }

    /// Puts `value` in place of the element behind `handle`, which is dropped.
    pub fn set(&mut self, handle: &Box, value: T)
        requires
            old(self).wf(),
            old(self)@.live(handle@),
        ensures
            final(self).wf(),
            final(self)@ == old(self)@.overwrite(handle@, value),
    {
        self.store.set(handle.index, value)
    }

    /// Number of free slots.
    pub fn free(&self) -> (n: u8)
        requires
            self.wf(),
        ensures
            n == self@.free_list.len(),
    {
        self.store.free()
    }

    /// Index of the first free slot; the capacity when there is none.
    pub fn head(&self) -> (index: u8)
        requires
            self.wf(),
        ensures
            index == self@.head(),
    {
        self.store.head()
    }

    /// Number of slots that were touched so far.
    pub fn initialized(&self) -> (n: u8)
        ensures
            n == self@.frontier,
    {
        self.store.initialized()
    }

    /// The link stored in slot `index`, if it is a free slot that holds one.
    pub fn link(&self, index: u8) -> (r: Option<u8>)
        requires
            self.wf(),
        ensures
            r == self@.link(index),
    {
        self.store.link(index)
    }
}

} // verus!
