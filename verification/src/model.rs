//! The mathematical model of a pool.
use vstd::prelude::*;

verus! {

/// What a pool is, apart from how it is stored.
pub struct PoolModel<T> {
    /// Number of usable slots.
    pub capacity: nat,
    /// Number of the lowest slots whose link has ever been written.
    pub frontier: nat,
    /// The free slots, in the order in which allocation will hand them out.
    pub free_list: Seq<u8>,
    /// The live elements, by slot index.
    pub values: Map<u8, T>,
}

/// What one allocation returns on a pool in state `pool`.
pub open spec fn allocate_result<T>(pool: PoolModel<T>, value: T) -> Result<u8, T> {
    if pool.exhausted() {
        Err(value)
    } else {
        Ok(pool.free_list[0])
    }
}

impl<T> PoolModel<T> {
    /// A pool on which nothing has happened yet: every slot free, none touched.
    pub open spec fn fresh(capacity: nat) -> Self {
        PoolModel {
            capacity,
            frontier: 0,
            free_list: Seq::new(capacity, |k: int| k as u8),
            values: Map::empty(),
        }
    }

    /// Number of free slots that have been touched: they come first in the free
    /// list, and the untouched slots follow in ascending order.
    pub open spec fn recycled(self) -> int {
        self.free_list.len() - (self.capacity - self.frontier)
    }

    /// The index that follows position `k` of the free list; past its end, the
    /// capacity. Position `-1` stands for the pool's head.
    pub open spec fn successor(self, k: int) -> u8 {
        if k + 1 < self.free_list.len() {
            self.free_list[k + 1]
        } else {
            self.capacity as u8
        }
    }

    /// Index of the first free slot; the capacity when there is none.
    pub open spec fn head(self) -> u8 {
        self.successor(-1)
    }

    /// The link stored in slot `index`: `Some` exactly for a free slot below the
    /// frontier, and then the index that follows it in the free list.
    pub open spec fn link(self, index: u8) -> Option<u8> {
        if self.free_list.contains(index) && index < self.frontier {
            Some(self.successor(self.free_list.index_of(index)))
        } else {
            None
        }
    }

    /// Slot `index` holds a live element.
    pub open spec fn live(self, index: u8) -> bool {
        self.values.dom().contains(index)
    }

    /// No slot is free.
    pub open spec fn exhausted(self) -> bool {
        self.free_list.len() == 0
    }

    /// The invariant of every pool.
    pub open spec fn wf(self) -> bool {
        &&& self.capacity <= 255
        &&& self.frontier <= self.capacity
        &&& self.recycled() >= 0
        &&& self.free_list.no_duplicates()
        &&& forall|k: int| 0 <= k < self.recycled() ==> (#[trigger] self.free_list[k]) < self.frontier
        &&& forall|k: int|
            self.recycled() <= k < self.free_list.len() ==> (#[trigger] self.free_list[k])
                == self.frontier + (k - self.recycled())
        &&& forall|i: u8| #[trigger]
            self.live(i) <==> i < self.capacity && !self.free_list.contains(i)
        &&& self.values.dom().finite()
        &&& self.values.dom().len() + self.free_list.len() == self.capacity
    }

    /// The pool after the slot at the frontier, if there is one, got its link.
    pub open spec fn touch(self) -> Self {
        PoolModel {
            frontier: if self.frontier < self.capacity {
                self.frontier + 1
            } else {
                self.frontier
            },
            ..self
        }
    }

    /// The pool after the first free slot was taken for `value`.
    pub open spec fn take(self, value: T) -> Self {
        PoolModel {
            free_list: self.free_list.drop_first(),
            values: self.values.insert(self.free_list[0], value),
            ..self
        }
    }

    /// The pool after one allocation of `value`: unchanged when no slot is free.
    pub open spec fn allocate(self, value: T) -> Self {
        if self.exhausted() {
            self
        } else {
            self.touch().take(value)
        }
    }

    /// The pool after the live slot `index` was released.
    pub open spec fn release(self, index: u8) -> Self {
        PoolModel {
            free_list: seq![index] + self.free_list,
            values: self.values.remove(index),
            ..self
        }
    }

    /// The pool after the element in the live slot `index` was replaced by
    /// `value`.
    pub open spec fn overwrite(self, index: u8, value: T) -> Self {
        PoolModel { values: self.values.insert(index, value), ..self }
    }

    /// The pool after `values` were allocated one after the other.
    pub open spec fn fill(self, values: Seq<T>) -> Self
        decreases values.len(),
    {
        if values.len() == 0 {
            self
        } else {
            self.fill(values.drop_last()).allocate(values.last())
        }
    }

    /// A fresh pool meets the invariant.
    pub proof fn lemma_fresh_wf(capacity: nat)
        requires
            capacity <= 255,
        ensures
            Self::fresh(capacity).wf(),
            Self::fresh(capacity).free_list.len() == capacity,
            forall|i: u8| !Self::fresh(capacity).live(i),
    {
        let p = Self::fresh(capacity);
        assert(p.values.dom() =~= Set::<u8>::empty());
        assert forall|i: u8| #[trigger]
            p.live(i) <==> i < p.capacity && !p.free_list.contains(i) by {
            if i < p.capacity {
                assert(p.free_list[i as int] == i);
            }
        }
    }

    /// A slot that is not free lies below the frontier.
    pub proof fn lemma_live_below_frontier(self, index: u8)
        requires
            self.wf(),
            self.live(index),
        ensures
            index < self.frontier,
            self.free_list.len() < self.capacity,
    {
        if index >= self.frontier {
            let k = self.recycled() + (index - self.frontier);
            assert(self.free_list[k] == index);
        }
        assert(self.values.dom().len() > 0) by {
            if self.values.dom().len() == 0 {
                assert(self.values.dom() =~= Set::<u8>::empty());
            }
        }
    }

    /// Every live slot lies below the frontier.
    pub proof fn lemma_live_slots_touched(self)
        requires
            self.wf(),
        ensures
            forall|i: u8|
                #![trigger self.live(i)]
                #![trigger self.values.dom().contains(i)]
                self.live(i) ==> i < self.frontier,
    {
        assert forall|i: u8| self.live(i) implies i < self.frontier by {
            self.lemma_live_below_frontier(i);
        }
    }

    /// Where slot `index` holds a link, it stands in the free list at a position
    /// below the recycled count, and nowhere else.
    pub proof fn lemma_links(self, index: u8)
        requires
            self.wf(),
        ensures
            self.link(index) is Some ==> 0 <= self.free_list.index_of(index) < self.recycled(),
            self.link(index) is None && index < self.frontier ==> self.live(index),
    {
        if self.link(index) is Some {
            let k = self.free_list.index_of(index);
            assert(0 <= k < self.free_list.len() && self.free_list[k] == index);
        }
    }

    /// Replacing a live element keeps the invariant.
    pub proof fn lemma_overwrite_wf(self, index: u8, value: T)
        requires
            self.wf(),
            self.live(index),
        ensures
            self.overwrite(index, value).wf(),
    {
        let r = self.overwrite(index, value);
        assert(r.values.dom() =~= self.values.dom());
        assert forall|i: u8| #[trigger]
            r.live(i) <==> i < r.capacity && !r.free_list.contains(i) by {
            assert(self.live(i) <==> i < self.capacity && !self.free_list.contains(i));
        }
    }

    /// Touching the frontier keeps the invariant, the free list and the elements.
    pub proof fn lemma_touch_wf(self)
        requires
            self.wf(),
        ensures
            self.touch().wf(),
            self.frontier < self.capacity ==> self.touch().recycled() == self.recycled() + 1,
            self.frontier < self.capacity ==> self.free_list[self.recycled()] == self.frontier,
    {
        let t = self.touch();
        assert forall|i: u8| #[trigger]
            t.live(i) <==> i < t.capacity && !t.free_list.contains(i) by {
            assert(self.live(i) <==> i < self.capacity && !self.free_list.contains(i));
        }
        if self.frontier < self.capacity {
            assert(self.free_list[self.recycled()] == self.frontier);
            assert forall|k: int| 0 <= k < t.recycled() implies (#[trigger] t.free_list[k])
                < t.frontier by {
                if k < self.recycled() {
                    assert(self.free_list[k] < self.frontier);
                }
            }
            assert forall|k: int| t.recycled() <= k < t.free_list.len() implies (
            #[trigger] t.free_list[k]) == t.frontier + (k - t.recycled()) by {
                assert(self.free_list[k] == self.frontier + (k - self.recycled()));
            }
        } else {
            assert(t == self);
        }
    }

    /// Taking the first free slot keeps the invariant, once the frontier was
    /// touched.
    pub proof fn lemma_take_wf(self, value: T)
        requires
            self.wf(),
            !self.exhausted(),
            self.recycled() > 0,
        ensures
            self.take(value).wf(),
            !self.live(self.free_list[0]),
            self.take(value).recycled() == self.recycled() - 1,
    {
        let t = self.take(value);
        let first = self.free_list[0];
        assert(self.free_list.contains(first));
        assert(!self.live(first));
        assert(t.values.dom() =~= self.values.dom().insert(first));
        assert(t.values.dom().len() == self.values.dom().len() + 1);
        assert(t.free_list.len() == self.free_list.len() - 1);
        assert forall|k: int| 0 <= k < t.free_list.len() implies t.free_list[k]
            == self.free_list[k + 1] by {}
        assert forall|i: u8| #[trigger]
            t.live(i) <==> i < t.capacity && !t.free_list.contains(i) by {
            assert(self.live(i) <==> i < self.capacity && !self.free_list.contains(i));
            if i == first {
                if t.free_list.contains(i) {
                    let k = choose|k: int| 0 <= k < t.free_list.len() && t.free_list[k] == i;
                    assert(self.free_list[k + 1] == i);
                }
            } else {
                if self.free_list.contains(i) {
                    let k = choose|k: int| 0 <= k < self.free_list.len() && self.free_list[k] == i;
                    assert(t.free_list[k - 1] == i);
                }
                if t.free_list.contains(i) {
                    let k = choose|k: int| 0 <= k < t.free_list.len() && t.free_list[k] == i;
                    assert(self.free_list[k + 1] == i);
                }
            }
        }
        assert forall|k: int| 0 <= k < t.recycled() implies (#[trigger] t.free_list[k])
            < t.frontier by {
            assert(self.free_list[k + 1] < self.frontier);
        }
        assert forall|k: int| t.recycled() <= k < t.free_list.len() implies (
        #[trigger] t.free_list[k]) == t.frontier + (k - t.recycled()) by {
            assert(self.free_list[k + 1] == self.frontier + (k + 1 - self.recycled()));
        }
    }

    /// One allocation keeps the invariant.
    pub proof fn lemma_allocate_wf(self, value: T)
        requires
            self.wf(),
        ensures
            self.allocate(value).wf(),
    {
        if !self.exhausted() {
            self.lemma_touch_wf();
            self.touch().lemma_take_wf(value);
        }
    }

    /// Releasing a live slot keeps the invariant.
    pub proof fn lemma_release_wf(self, index: u8)
        requires
            self.wf(),
            self.live(index),
        ensures
            self.release(index).wf(),
            self.release(index).recycled() == self.recycled() + 1,
    {
        let r = self.release(index);
        self.lemma_live_below_frontier(index);
        assert forall|k: int| 1 <= k < r.free_list.len() implies r.free_list[k]
            == self.free_list[k - 1] by {}
        assert(r.free_list[0] == index);
        assert(r.values.dom() =~= self.values.dom().remove(index));
        assert forall|i: u8| #[trigger]
            r.live(i) <==> i < r.capacity && !r.free_list.contains(i) by {
            assert(self.live(i) <==> i < self.capacity && !self.free_list.contains(i));
            if self.free_list.contains(i) {
                let k = choose|k: int| 0 <= k < self.free_list.len() && self.free_list[k] == i;
                assert(r.free_list[k + 1] == i);
            }
            if r.free_list.contains(i) && i != index {
                let k = choose|k: int| 0 <= k < r.free_list.len() && r.free_list[k] == i;
                assert(self.free_list[k - 1] == i);
            }
        }
        assert forall|k: int| 0 <= k < r.recycled() implies (#[trigger] r.free_list[k])
            < r.frontier by {
            if k > 0 {
                assert(self.free_list[k - 1] < self.frontier);
            }
        }
        assert forall|k: int| r.recycled() <= k < r.free_list.len() implies (
        #[trigger] r.free_list[k]) == r.frontier + (k - r.recycled()) by {
            assert(self.free_list[k - 1] == self.frontier + (k - 1 - self.recycled()));
        }
        assert(r.free_list.no_duplicates()) by {
            assert forall|a: int, b: int|
                0 <= a < r.free_list.len() && 0 <= b < r.free_list.len() && a != b implies r.free_list[a]
                != r.free_list[b] by {
                if a > 0 && b > 0 {
                    assert(self.free_list[a - 1] != self.free_list[b - 1]);
                } else if a == 0 {
                    assert(self.free_list.contains(self.free_list[b - 1]));
                } else {
                    assert(self.free_list.contains(self.free_list[a - 1]));
                }
            }
        }
    }
}

} // verus!
