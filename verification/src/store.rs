//! The slot store and the allocation algorithm.
//!
//! A store is a run of slots and three counters. Its free slots form a list
//! that starts at `head` and runs through the links kept in the free slots
//! themselves. A slot at or above the frontier has no link yet: the slot that
//! follows it is the next one up, and the link is written when an allocation
//! reaches the frontier. So making a store touches no slot, and a store that
//! was made without memory gets each slot when the frontier reaches it.
use crate::model::{allocate_result, PoolModel};
use std::mem::ManuallyDrop;
use std::ops::Deref;
use vstd::prelude::*;

verus! {

/// One slot of a pool's backing store. Dropping a slot drops no element: what
/// is still in a pool when the pool ends is left as it is.
pub enum Slot<T> {
    /// Nothing is kept here.
    Vacant,
    /// A free slot: the index of the free slot that follows it.
    Link(u8),
    /// An element. The slot does not drop it: the pool does, when the element
    /// is released or written over.
    Value(ManuallyDrop<T>),
}

impl<T> Slot<T> {
    /// A slot that holds `value`.
    pub fn holding(value: T) -> (slot: Self)
        ensures
            slot is Value,
            slot->Value_0@ == value,
    {
        Slot::Value(ManuallyDrop::new(value))
    }

    /// Ends the slot, and with it the element in it, if it holds one.
    fn discard(self) {
        match self {
            Slot::Value(element) => {
                let _element = ManuallyDrop::into_inner(element);
            },
            _ => {},
        }
    }
}

/// The most slots a store can use: an index is one byte, and the index one past
/// the last slot has to fit as well.
pub const MAX_CAPACITY: usize = 255;

/// Number of slots that a store of `len` slots can use.
pub open spec fn usable(len: nat) -> nat {
    if len > MAX_CAPACITY {
        MAX_CAPACITY as nat
    } else {
        len
    }
}

/// Calls `as_slice::AsSlice::as_slice` on a slice of slots. For a slice that
/// method hands back the slice itself, so the result holds the same slots in
/// the same order.
#[verifier::external_body]
fn as_slots<T>(memory: &[Slot<T>]) -> (slots: &[Slot<T>])
    ensures
        slots@ == memory@,
{
    as_slice::AsSlice::as_slice(memory)
}

/// Calls `deref_mut` of `std::mem::ManuallyDrop`, which gives the element
/// inside, to be changed in place: the result points at the element that
/// `element` holds, and what is written through it is what `element` holds
/// afterwards.
#[verifier::external_body]
fn element_mut<T>(element: &mut ManuallyDrop<T>) -> (value: &mut T)
    ensures
        *value == old(element)@,
        final(element)@ == *final(value),
{
    std::ops::DerefMut::deref_mut(element)
}

/// The element of a slot that holds one, to be changed in place.
fn slot_element_mut<T>(slot: &mut Slot<T>) -> (value: &mut T)
    requires
        *old(slot) is Value,
    ensures
        *final(slot) is Value,
        *value == (*old(slot))->Value_0@,
        (*final(slot))->Value_0@ == *final(value),
{
    match slot {
        Slot::Value(element) => element_mut(element),
        _ => unreached(),
    }
}

/// The element of slot `i` of `memory`, to be changed in place; the other slots
/// stay as they are.
fn element_at_mut<T>(memory: &mut Vec<Slot<T>>, i: usize) -> (value: &mut T)
    requires
        i < old(memory)@.len(),
        old(memory)@[i as int] is Value,
    ensures
        final(memory)@.len() == old(memory)@.len(),
        final(memory)@[i as int] is Value,
        *value == old(memory)@[i as int]->Value_0@,
        final(memory)@[i as int]->Value_0@ == *final(value),
        forall|j: int|
            0 <= j < old(memory)@.len() && j != i ==> final(memory)@[j] == old(memory)@[j],
{
    slot_element_mut(&mut memory[i])
}

/// Slots and counters of one pool.
pub struct SlotStore<T> {
    capacity: u8,
    free: u8,
    head: u8,
    initialized: u8,
    memory: Vec<Slot<T>>,
    chain: Ghost<Seq<u8>>,
}

impl<T> View for SlotStore<T> {
    type V = PoolModel<T>;

    closed spec fn view(&self) -> PoolModel<T> {
        PoolModel {
            capacity: self.capacity as nat,
            frontier: self.initialized as nat,
            free_list: self.chain@,
            values: Map::new(
                |i: u8| i < self.capacity && !self.chain@.contains(i),
                |i: u8| self.memory@[i as int]->Value_0@,
            ),
        }
    }
}

impl<T> SlotStore<T> {
    /// The store is consistent: its counters and links spell out a free list
    /// that meets the model's invariant, and every other slot holds an element.
    pub closed spec fn wf(&self) -> bool {
        &&& vstd::layout::size_of::<T>() > 0
        &&& self@.wf()
        &&& self.initialized <= self.memory@.len()
        &&& self.free == self.chain@.len()
        &&& self.head == self@.head()
        &&& forall|k: int|
            0 <= k < self@.recycled() ==> self.memory@[(#[trigger] self.chain@[k]) as int]
                == Slot::<T>::Link(self@.successor(k))
        &&& forall|i: u8| #[trigger] self@.live(i) ==> self.memory@[i as int] is Value
    }

    /// A store in a consistent state keeps the model's invariant.
    pub proof fn lemma_wf_model(&self)
        requires
            self.wf(),
        ensures
            self@.wf(),
            vstd::layout::size_of::<T>() > 0,
    {
    }

    /// Makes a store over `memory`, whatever its slots hold: all of them are
    /// free, and none is touched until an allocation reaches it. What a slot
    /// holds then is dropped. The store uses 255 slots at most, also where
    /// `memory` has more. An element type without a size is not supported.
    pub fn new(memory: Vec<Slot<T>>) -> (store: Self)
        requires
            vstd::layout::size_of::<T>() > 0,
        ensures
            store.wf(),
            store@ == PoolModel::<T>::fresh(usable(memory@.len())),
    {
        let len = as_slots(memory.as_slice()).len();
        let free: u8 = if len > MAX_CAPACITY {
            u8::MAX
        } else {
            len as u8
        };
        let ghost chain = Seq::new(free as nat, |k: int| k as u8);
        let store = SlotStore {
            capacity: free,
            free,
            head: 0,
            initialized: 0,
            memory,
            chain: Ghost(chain),
        };
        proof {
            PoolModel::<T>::lemma_fresh_wf(free as nat);
            assert(store@.values =~= Map::<u8, T>::empty()) by {
                assert forall|i: u8| i < free implies chain.contains(i) by {
                    assert(chain[i as int] == i);
                }
            }
            assert(store@ == PoolModel::<T>::fresh(free as nat));
        }
        store
    }

    /// Makes a store over `memory` where the elements have a size, as
    /// [`SlotStore::new`] does; where they have none, no store is made and
    /// `memory` comes back.
    pub fn try_new(memory: Vec<Slot<T>>) -> (r: Result<Self, Vec<Slot<T>>>)
        ensures
            r is Ok <==> vstd::layout::size_of::<T>() > 0,
            r is Ok ==> r->Ok_0.wf() && r->Ok_0@ == PoolModel::<T>::fresh(usable(memory@.len())),
            r is Err ==> r->Err_0 == memory,
    {
        if core::mem::size_of::<T>() > 0 {
            Ok(SlotStore::new(memory))
        } else {
            Err(memory)
        }
    }

    /// Makes a store of `capacity` slots with memory of its own. No slot is
    /// written before an allocation reaches it. An element type without a size
    /// is not supported.
    pub fn with_capacity(capacity: u8) -> (store: Self)
        requires
            vstd::layout::size_of::<T>() > 0,
        ensures
            store.wf(),
            store@ == PoolModel::<T>::fresh(capacity as nat),
    {
        let ghost chain = Seq::new(capacity as nat, |k: int| k as u8);
        let store = SlotStore {
            capacity,
            free: capacity,
            head: 0,
            initialized: 0,
            memory: Vec::with_capacity(capacity as usize),
            chain: Ghost(chain),
        };
        proof {
            PoolModel::<T>::lemma_fresh_wf(capacity as nat);
            assert(store@.values =~= Map::<u8, T>::empty()) by {
                assert forall|i: u8| i < capacity implies chain.contains(i) by {
                    assert(chain[i as int] == i);
                }
            }
            assert(store@ == PoolModel::<T>::fresh(capacity as nat));
        }
        store
    }

    /// Number of slots that the pool uses.
    pub fn capacity(&self) -> (n: u8)
        ensures
            n == self@.capacity,
    {
        self.capacity
    }

    /// Number of free slots.
    pub fn free(&self) -> (n: u8)
        requires
            self.wf(),
        ensures
            n == self@.free_list.len(),
    {
        self.free
    }

    /// Index of the first free slot; the capacity when there is none.
    pub fn head(&self) -> (index: u8)
        requires
            self.wf(),
        ensures
            index == self@.head(),
    {
        self.head
    }

    /// Number of slots that were touched so far.
    pub fn initialized(&self) -> (n: u8)
        ensures
            n == self@.frontier,
    {
        self.initialized
    }

    /// The link stored in slot `index`: `Some` for a free slot below the
    /// frontier, which then holds the index of the free slot that follows it.
    pub fn link(&self, index: u8) -> (r: Option<u8>)
        requires
            self.wf(),
        ensures
            r == self@.link(index),
    {
        proof {
            self@.lemma_links(index);
            if self@.link(index) is Some {
                assert(self.chain@[self.chain@.index_of(index)] == index);
            } else if index < self.initialized {
                assert(self@.live(index));
            }
        }
        if index < self.initialized {
            match &self.memory[index as usize] {
                Slot::Link(next) => Some(*next),
                _ => None,
            }
        } else {
            None
        }
    }

    /// Whether slot `index` holds a live element.
    pub fn is_live(&self, index: u8) -> (live: bool)
        requires
            self.wf(),
        ensures
            live == self@.live(index),
    {
        proof {
            self@.lemma_links(index);
            if self@.live(index) {
                self@.lemma_live_below_frontier(index);
            } else if index < self.initialized {
                assert(self.chain@[self.chain@.index_of(index)] == index);
            }
        }
        if index < self.initialized {
            match &self.memory[index as usize] {
                Slot::Value(_) => true,
                _ => false,
            }
        } else {
            false
        }
    }

    /// The element in the live slot `index`.
    pub fn get(&self, index: u8) -> (value: &T)
        requires
            self.wf(),
            self@.live(index),
        ensures
            *value == self@.values[index],
    {
        proof {
            self@.lemma_live_slots_touched();
        }
        match &self.memory[index as usize] {
            Slot::Value(value) => value.deref(),
            _ => unreached(),
        }
    }

    /// `after` is this store with another element in slot `index`, and is
    /// otherwise the same.
    closed spec fn rewritten(&self, after: &Self, index: u8) -> bool {
        &&& after.capacity == self.capacity
        &&& after.free == self.free
        &&& after.head == self.head
        &&& after.initialized == self.initialized
        &&& after.chain@ == self.chain@
        &&& after.memory@.len() == self.memory@.len()
        &&& after.memory@[index as int] is Value
        &&& forall|j: int|
            0 <= j < self.memory@.len() && j != index ==> after.memory@[j] == self.memory@[j]
    }

    /// A store stays consistent when a live element is changed in place, and
    /// its model changes in that element only.
    proof fn lemma_rewritten(&self, after: &Self, index: u8)
        requires
            self.wf(),
            self@.live(index),
            self.rewritten(after, index),
        ensures
            after.wf(),
            after@ == self@.overwrite(index, after.memory@[index as int]->Value_0@),
    {
        let written = after.memory@[index as int]->Value_0@;
        self@.lemma_live_slots_touched();
        self@.lemma_overwrite_wf(index, written);
        assert(after@.values =~= self@.values.insert(index, written));
        assert(after@ == self@.overwrite(index, written));
        assert forall|k: int| 0 <= k < after@.recycled() implies after.memory@[(
        #[trigger] after.chain@[k]) as int] == Slot::<T>::Link(after@.successor(k)) by {
            assert(self@.free_list.contains(self@.free_list[k]));
            assert(self@.free_list[k] < self@.capacity) by {
                crate::laws::lemma_live_or_free(self@);
            }
        }
        assert forall|i: u8| #[trigger] after@.live(i) implies after.memory@[i as int] is Value by {
            assert(self@.live(i));
        }
    }

    /// The element in the live slot `index`, to be changed in place.
    pub fn get_mut(&mut self, index: u8) -> (value: &mut T)
        requires
            old(self).wf(),
            old(self)@.live(index),
        ensures
            *value == old(self)@.values[index],
            final(self).wf(),
            final(self)@ == old(self)@.overwrite(index, *final(value)),
    {
        proof {
            self@.lemma_live_slots_touched();
            assert forall|after: Self| old(self).rewritten(&after, index) implies #[trigger] after.wf()
                && after@ == old(self)@.overwrite(
                index,
                after.memory@[index as int]->Value_0@,
            ) by {
                old(self).lemma_rewritten(&after, index);
            }
        }
        element_at_mut(&mut self.memory, index as usize)
    }

    /// Puts `value` in the live slot `index`, in place of the element there,
    /// which is dropped.
    pub fn set(&mut self, index: u8, value: T)
        requires
            old(self).wf(),
            old(self)@.live(index),
        ensures
            final(self).wf(),
            final(self)@ == old(self)@.overwrite(index, value),
    {
        let ghost before = self@;
        proof {
            before.lemma_live_slots_touched();
            before.lemma_overwrite_wf(index, value);
        }
        let mut slot = Slot::holding(value);
        self.memory.set_and_swap(index as usize, &mut slot);
        slot.discard();
        proof {
            assert(self@.values =~= before.values.insert(index, value));
            assert(self@ == before.overwrite(index, value));
            assert forall|k: int| 0 <= k < self@.recycled() implies self.memory@[(
            #[trigger] self.chain@[k]) as int] == Slot::<T>::Link(self@.successor(k)) by {
                assert(before.free_list.contains(before.free_list[k]));
            }
            assert forall|i: u8| #[trigger] self@.live(i) implies self.memory@[i as int] is Value by {
                assert(before.live(i));
            }
        }
    }

    /// Writes the link of the slot at the frontier, if a slot is left there.
    fn touch(&mut self)
        requires
            old(self).wf(),
        ensures
            final(self).wf(),
            final(self)@ == old(self)@.touch(),
    {
        if self.initialized < self.capacity {
            let index = self.initialized;
            proof {
                self@.lemma_live_slots_touched();
                self@.lemma_touch_wf();
                assert(self.chain@.contains(index)) by {
                    assert(self.chain@[self@.recycled()] == index);
                }
            }
            if (index as usize) < self.memory.len() {
                let mut slot = Slot::Link(index + 1);
                self.memory.set_and_swap(index as usize, &mut slot);
                slot.discard();
            } else {
                self.memory.push(Slot::Link(index + 1));
            }
            self.initialized = index + 1;
            proof {
                let before = old(self)@;
                assert(self@.values =~= before.values);
                assert(self@ == before.touch());
                assert forall|k: int| 0 <= k < self@.recycled() implies self.memory@[(
                #[trigger] self.chain@[k]) as int] == Slot::<T>::Link(self@.successor(k)) by {
                    if k < before.recycled() {
                        assert(before.free_list[k] < before.frontier);
                        assert(before.successor(k) == self@.successor(k));
                    }
                }
                assert forall|i: u8| #[trigger] self@.live(i) implies self.memory@[i as int] is Value by {
                    assert(before.live(i));
                }
            }
        } else {
            assert(self@ == old(self)@.touch());
        }
    }

    /// Allocates `value`: takes the first free slot for it and returns the
    /// slot's index. Where no slot is free, the store stays as it is and the
    /// value comes back.
    pub fn allocate(&mut self, value: T) -> (r: Result<u8, T>)
        requires
            old(self).wf(),
        ensures
            final(self).wf(),
            final(self)@ == old(self)@.allocate(value),
            r == allocate_result(old(self)@, value),
            r is Ok <==> old(self)@.values.dom().len() < old(self)@.capacity,
    {
        self.touch();
        if self.free != 0 {
            let index = self.head;
            let ghost touched = self@;
            proof {
                old(self)@.lemma_touch_wf();
                touched.lemma_live_slots_touched();
                touched.lemma_take_wf(value);
                assert(touched.free_list[0] == index);
            }
            let next = match &self.memory[index as usize] {
                Slot::Link(next) => *next,
                _ => unreached(),
            };
            self.head = next;
            self.free = self.free - 1;
            self.memory.set(index as usize, Slot::holding(value));
            self.chain = Ghost(self.chain@.drop_first());
            proof {
                assert(self@.values =~= touched.values.insert(index, value)) by {
                    assert forall|i: u8|
                        self@.values.dom().contains(i) <==> touched.values.insert(
                            index,
                            value,
                        ).dom().contains(i) by {
                        assert(touched.take(value).live(i) <==> i < touched.capacity
                            && !self.chain@.contains(i));
                    }
                }
                assert(self@ == touched.take(value));
                assert forall|k: int| 0 <= k < self@.recycled() implies self.memory@[(
                #[trigger] self.chain@[k]) as int] == Slot::<T>::Link(self@.successor(k)) by {
                    assert(touched.free_list[k + 1] == self.chain@[k]);
                    assert(touched.successor(k + 1) == self@.successor(k));
                }
                assert forall|i: u8| #[trigger] self@.live(i) implies self.memory@[i as int] is Value by {
                    if i != index {
                        assert(touched.live(i));
                    }
                }
            }
            Ok(index)
        } else {
            Err(value)
        }
    }

    /// Releases the element in slot `index`: drops it and puts the slot at the
    /// front of the free list.
    pub fn release(&mut self, index: u8)
        requires
            old(self).wf(),
            old(self)@.live(index),
        ensures
            final(self).wf(),
            final(self)@ == old(self)@.release(index),
    {
        let ghost before = self@;
        proof {
            before.lemma_release_wf(index);
            before.lemma_live_below_frontier(index);
            before.lemma_live_slots_touched();
        }
        let mut slot = Slot::Link(self.head);
        self.memory.set_and_swap(index as usize, &mut slot);
        slot.discard();
        self.free = self.free + 1;
        self.head = index;
        self.chain = Ghost(seq![index] + self.chain@);
        proof {
            assert(self@.values =~= before.values.remove(index)) by {
                assert forall|i: u8|
                    self@.values.dom().contains(i) <==> before.values.remove(
                        index,
                    ).dom().contains(i) by {
                    assert(before.release(index).live(i) <==> i < before.capacity
                        && !self.chain@.contains(i));
                }
            }
            assert(self@ == before.release(index));
            assert forall|k: int| 0 <= k < self@.recycled() implies self.memory@[(
            #[trigger] self.chain@[k]) as int] == Slot::<T>::Link(self@.successor(k)) by {
                if k > 0 {
                    assert(before.free_list[k - 1] == self.chain@[k]);
                    assert(before.free_list.contains(before.free_list[k - 1]));
                    assert(before.successor(k - 1) == self@.successor(k));
                }
            }
            assert forall|i: u8| #[trigger] self@.live(i) implies self.memory@[i as int] is Value by {
                assert(before.live(i));
            }
        }
    }
}

} // verus!
