//! Laws of the pool model: what holds of every pool, whatever was done to it.
use crate::model::{allocate_result, PoolModel};
use vstd::prelude::*;

verus! {

/// The free slots of a fresh pool of `capacity` slots on which `count`
/// allocations were made: the slots from `count` up, in ascending order.
pub open spec fn ascending_from(count: nat, capacity: nat) -> Seq<u8> {
    Seq::new((capacity - count) as nat, |j: int| (count + j) as u8)
}

/// A fresh pool that was filled with `values` and nothing else holds them in
/// the slots `0, 1, 2, ..` in order, and its free slots are the rest, in
/// ascending order.
pub proof fn lemma_fill_fresh<T>(capacity: nat, values: Seq<T>)
    requires
        capacity <= 255,
        values.len() <= capacity,
    ensures
        PoolModel::<T>::fresh(capacity).fill(values).wf(),
        PoolModel::<T>::fresh(capacity).fill(values).capacity == capacity,
        PoolModel::<T>::fresh(capacity).fill(values).frontier == values.len(),
        PoolModel::<T>::fresh(capacity).fill(values).free_list == ascending_from(
            values.len(),
            capacity,
        ),
        PoolModel::<T>::fresh(capacity).fill(values).values.dom().len() == values.len(),
        forall|k: int|
            0 <= k < values.len() ==> {
                &&& PoolModel::<T>::fresh(capacity).fill(values).live(k as u8)
                &&& #[trigger] PoolModel::<T>::fresh(capacity).fill(values).values[k as u8]
                    == values[k]
            },
    decreases values.len(),
{
    let fresh = PoolModel::<T>::fresh(capacity);
    if values.len() == 0 {
        PoolModel::<T>::lemma_fresh_wf(capacity);
        assert(fresh.free_list =~= ascending_from(0, capacity));
        assert(fresh.values.dom() =~= Set::<u8>::empty());
    } else {
        let front = values.drop_last();
        let before = fresh.fill(front);
        let after = fresh.fill(values);
        lemma_fill_fresh(capacity, front);
        before.lemma_allocate_wf(values.last());
        before.lemma_touch_wf();
        before.touch().lemma_take_wf(values.last());
        assert(before.free_list[0] == front.len() as u8);
        assert(after.free_list =~= ascending_from(values.len(), capacity));
        assert(after.values.dom() =~= before.values.dom().insert(front.len() as u8));
        assert forall|k: int| 0 <= k < values.len() implies {
            &&& after.live(k as u8)
            &&& #[trigger] after.values[k as u8] == values[k]
        } by {
            if k < front.len() {
                assert(before.values[k as u8] == front[k]);
            }
        }
    }
}

/// A pool of `capacity` slots takes exactly `capacity` elements: filling a fresh
/// pool, the allocation number `k` succeeds and returns slot `k` for every `k`
/// below the capacity, and the one after the last is turned down.
pub proof fn lemma_capacity<T>(capacity: nat, values: Seq<T>, extra: T)
    requires
        capacity <= 255,
        values.len() == capacity,
    ensures
        forall|k: int|
            0 <= k < capacity ==> #[trigger] allocate_result(
                PoolModel::<T>::fresh(capacity).fill(values.take(k)),
                values[k],
            ) == Ok::<u8, T>(k as u8),
        allocate_result(PoolModel::<T>::fresh(capacity).fill(values), extra) == Err::<u8, T>(
            extra,
        ),
{
    let fresh = PoolModel::<T>::fresh(capacity);
    assert forall|k: int| 0 <= k < capacity implies #[trigger] allocate_result(
        fresh.fill(values.take(k)),
        values[k],
    ) == Ok::<u8, T>(k as u8) by {
        lemma_fill_fresh(capacity, values.take(k));
        assert(ascending_from(k as nat, capacity)[0] == k as u8);
    }
    lemma_fill_fresh(capacity, values);
}

/// In every pool each slot is either live or free, the live slots and the free
/// slots together are as many as the capacity, and a slot is free exactly when
/// fewer elements are live than the pool has slots.
pub proof fn lemma_live_or_free<T>(pool: PoolModel<T>)
    requires
        pool.wf(),
    ensures
        forall|i: u8| i < pool.capacity ==> (#[trigger] pool.live(i) <==> !pool.free_list.contains(i)),
        forall|i: u8| #[trigger] pool.free_list.contains(i) ==> i < pool.capacity,
        pool.values.dom().len() + pool.free_list.len() == pool.capacity,
        pool.exhausted() <==> pool.values.dom().len() == pool.capacity,
{
    assert forall|i: u8| #[trigger] pool.free_list.contains(i) implies i < pool.capacity by {
        let k = choose|k: int| 0 <= k < pool.free_list.len() && pool.free_list[k] == i;
        if k < pool.recycled() {
            assert(pool.free_list[k] < pool.frontier);
        }
    }
}

/// Where a slot is free, the head is a slot of the pool at or below the
/// frontier; where none is, every slot was touched and the head is the capacity.
pub proof fn lemma_head_bounds<T>(pool: PoolModel<T>)
    requires
        pool.wf(),
    ensures
        !pool.exhausted() ==> pool.head() < pool.capacity && pool.head() <= pool.frontier,
        pool.exhausted() ==> pool.head() == pool.capacity && pool.frontier == pool.capacity,
{
    if !pool.exhausted() {
        if pool.recycled() > 0 {
            assert(pool.free_list[0] < pool.frontier);
        } else {
            assert(pool.free_list[0] == pool.frontier);
        }
    }
}

/// Each slot of a pool is in one of three states, and in one only: live, below
/// the frontier; free with a link, below the frontier; or untouched, at or
/// above the frontier, free and without a link.
pub proof fn lemma_slot_states<T>(pool: PoolModel<T>, index: u8)
    requires
        pool.wf(),
        index < pool.capacity,
    ensures
        pool.live(index) ==> index < pool.frontier && pool.link(index) is None,
        index < pool.frontier && !pool.live(index) ==> pool.link(index) is Some,
        index >= pool.frontier ==> !pool.live(index) && pool.link(index) is None
            && pool.free_list.contains(index),
{
    if pool.live(index) {
        pool.lemma_live_below_frontier(index);
    }
}

/// An exhausted pool turns an allocation down: the value comes back as it was
/// offered, and the pool stays as it is.
pub proof fn lemma_exhausted_rejects<T>(pool: PoolModel<T>, value: T)
    requires
        pool.exhausted(),
    ensures
        allocate_result(pool, value) == Err::<u8, T>(value),
        pool.allocate(value) == pool,
{
}

/// The slot released last is the slot allocated next, and that allocation
/// leaves the free list as it was before the release.
pub proof fn lemma_lifo<T>(pool: PoolModel<T>, index: u8, value: T)
    requires
        pool.wf(),
        pool.live(index),
    ensures
        allocate_result(pool.release(index), value) == Ok::<u8, T>(index),
        pool.release(index).allocate(value).free_list == pool.free_list,
        pool.release(index).allocate(value).values == pool.values.insert(index, value),
{
    let released = pool.release(index);
    assert(released.free_list[0] == index);
    assert(released.allocate(value).free_list =~= pool.free_list);
    assert(released.allocate(value).values =~= pool.values.insert(index, value));
}

/// Of two slots released one after the other, the second comes back first.
pub proof fn lemma_lifo_pair<T>(pool: PoolModel<T>, first: u8, second: u8, v: T, w: T)
    requires
        pool.wf(),
        pool.live(first),
        pool.live(second),
        first != second,
    ensures
        allocate_result(pool.release(first).release(second), v) == Ok::<u8, T>(second),
        allocate_result(pool.release(first).release(second).allocate(v), w) == Ok::<u8, T>(
            first,
        ),
{
    let one = pool.release(first);
    let two = one.release(second);
    assert(two.free_list[0] == second);
    assert(two.free_list[1] == first);
    assert(two.allocate(v).free_list[0] == first);
}

/// No slot stands twice in the free list, and the list can be walked from the
/// head: it starts at the head, a free slot below the frontier holds the index
/// of the slot that follows it, and a free slot at or above the frontier, which
/// holds no link yet, is followed by the next slot up.
pub proof fn lemma_free_list_walk<T>(pool: PoolModel<T>, k: int)
    requires
        pool.wf(),
        0 <= k < pool.free_list.len(),
    ensures
        pool.free_list.no_duplicates(),
        pool.free_list[0] == pool.head(),
        pool.free_list[k] < pool.frontier ==> pool.link(pool.free_list[k]) == Some(
            pool.successor(k),
        ),
        pool.free_list[k] >= pool.frontier ==> pool.link(pool.free_list[k]) is None
            && pool.successor(k) == pool.free_list[k] + 1,
{
    let index = pool.free_list[k];
    assert(pool.free_list.contains(index));
    let found = pool.free_list.index_of(index);
    assert(0 <= found < pool.free_list.len() && pool.free_list[found] == index);
    assert(found == k);
    if index >= pool.frontier {
        if k + 1 < pool.free_list.len() {
            assert(pool.free_list[k + 1] == pool.frontier + (k + 1 - pool.recycled()));
        }
    }
}

/// Once every slot was touched, every slot that is not live is reached from
/// the head by following the links: it stands in the free list, once, and it is
/// the head or the link of the slot before it.
pub proof fn lemma_every_free_slot_reached<T>(pool: PoolModel<T>, index: u8)
    requires
        pool.wf(),
        pool.frontier == pool.capacity,
        index < pool.capacity,
        !pool.live(index),
    ensures
        pool.free_list.no_duplicates(),
        pool.free_list.contains(index),
        pool.link(index) is Some,
        pool.free_list.index_of(index) == 0 ==> pool.head() == index,
        pool.free_list.index_of(index) > 0 ==> pool.link(
            pool.free_list[pool.free_list.index_of(index) - 1],
        ) == Some(index),
{
    let k = pool.free_list.index_of(index);
    assert(0 <= k < pool.free_list.len() && pool.free_list[k] == index);
    if k > 0 {
        lemma_live_or_free(pool);
        assert(pool.free_list.contains(pool.free_list[k - 1]));
        lemma_free_list_walk(pool, k - 1);
    }
}

} // verus!
