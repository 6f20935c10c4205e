use std::cell::Cell;
use std::rc::Rc;

use alloc_singleton::stable::pool::Pool;
use alloc_singleton::store::Slot;

struct A {
    count: Rc<Cell<usize>>,
}

impl A {
    fn new(count: &Rc<Cell<usize>>) -> Self {
        count.set(count.get() + 1);
        A { count: count.clone() }
    }

    fn preset(count: &Rc<Cell<usize>>) -> Self {
        A { count: count.clone() }
    }
}

impl Drop for A {
    fn drop(&mut self) {
        self.count.set(self.count.get() - 1);
    }
}

fn zeroed(len: usize) -> Vec<Slot<i8>> {
    let mut memory = Vec::new();
    for _ in 0..len {
        memory.push(Slot::holding(0));
    }
    memory
}

#[test]
fn sanity() {
    let mut pool = Pool::new(zeroed(4));

    let _0 = pool.allocate(-1).ok().unwrap();
    assert_eq!(*pool.get(&_0), -1);
    assert_eq!(_0.index(), 0);
    assert_eq!(pool.head(), 1);
    assert_eq!(pool.free(), 3);
    assert_eq!(pool.initialized(), 1);

    let _1 = pool.allocate(-2).ok().unwrap();
    assert_eq!(*pool.get(&_1), -2);
    assert_eq!(_1.index(), 1);
    assert_eq!(pool.head(), 2);
    assert_eq!(pool.free(), 2);
    assert_eq!(pool.initialized(), 2);

    let _2 = pool.allocate(-3).ok().unwrap();
    assert_eq!(*pool.get(&_2), -3);
    assert_eq!(_2.index(), 2);
    assert_eq!(pool.head(), 3);
    assert_eq!(pool.free(), 1);
    assert_eq!(pool.initialized(), 3);

    pool.dealloc(_0);
    assert_eq!(pool.head(), 0);
    assert_eq!(pool.free(), 2);
    assert_eq!(pool.initialized(), 3);
    assert_eq!(pool.link(0), Some(3));

    pool.dealloc(_2);
    assert_eq!(pool.head(), 2);
    assert_eq!(pool.free(), 3);
    assert_eq!(pool.initialized(), 3);
    assert_eq!(pool.link(2), Some(0));

    let _2 = pool.allocate(-4).ok().unwrap();
    assert_eq!(*pool.get(&_2), -4);
    assert_eq!(_2.index(), 2);
    assert_eq!(pool.head(), 0);
    assert_eq!(pool.free(), 2);
    assert_eq!(pool.initialized(), 4);
    assert_eq!(pool.link(3), Some(4));
}

// deallocated values are dropped
#[test]
fn destructor() {
    let count = Rc::new(Cell::new(1usize));
    let memory = vec![
        Slot::holding(A::preset(&count)),
        Slot::holding(A::preset(&count)),
        Slot::holding(A::preset(&count)),
        Slot::holding(A::preset(&count)),
    ];

    {
        let mut pool = Pool::new(memory);

        let _0 = pool.allocate(A::new(&count)).ok().unwrap();
        assert_eq!(count.get(), 1);

        // deallocating the `Box` runs `A`'s destructor
        pool.dealloc(_0);
        assert_eq!(count.get(), 0);
    }

    assert_eq!(count.get(), 0);
}

// values that are not explicitly deallocated are leaked
#[test]
fn leak() {
    let count = Rc::new(Cell::new(1usize));
    let memory = vec![
        Slot::holding(A::preset(&count)),
        Slot::holding(A::preset(&count)),
        Slot::holding(A::preset(&count)),
        Slot::holding(A::preset(&count)),
    ];

    {
        let mut pool = Pool::new(memory);

        let _0 = pool.allocate(A::new(&count)).ok().unwrap();
        assert_eq!(count.get(), 1);

        // destroying the handle does NOT invoke `A`'s destructor
        drop(_0);

        assert_eq!(count.get(), 1);

        let _1 = pool.allocate(A::new(&count)).ok().unwrap();
        assert_eq!(count.get(), 1);

        drop(_1);

        assert_eq!(count.get(), 1);

        // destroying the pool does NOT invoke `A`'s destructor
        drop(pool);
    }

    assert_eq!(count.get(), 1);
}

// exhausting the pool and then deallocating works
#[test]
fn empty() {
    let mut pool = Pool::new(zeroed(4));

    let _0 = pool.allocate(-1).ok().unwrap();
    let _1 = pool.allocate(-1).ok().unwrap();
    let _2 = pool.allocate(-1).ok().unwrap();
    let _3 = pool.allocate(-1).ok().unwrap();

    assert!(pool.allocate(-1).is_err());

    pool.dealloc(_0);
    pool.dealloc(_2);

    let _2 = pool.allocate(-1).ok().unwrap();
    assert_eq!(_2.index(), 2);

    let _0 = pool.allocate(-1).ok().unwrap();
    assert_eq!(_0.index(), 0);
}

#[test]
fn max_capacity() {
    let mut pool = Pool::new(zeroed(256));

    for _ in 0..255 {
        assert!(pool.allocate(-1).is_ok());
    }

    assert!(pool.allocate(-1).is_err());
}

#[test]
fn stable_capacity_is_capped_at_255() {
    assert_eq!(Pool::new(zeroed(0)).capacity(), 0);
    assert_eq!(Pool::new(zeroed(7)).capacity(), 7);
    assert_eq!(Pool::new(zeroed(255)).capacity(), 255);
    assert_eq!(Pool::new(zeroed(256)).capacity(), 255);
    assert_eq!(Pool::new(zeroed(1000)).capacity(), 255);
    assert_eq!(Pool::new(zeroed(1000)).free(), 255);
}

#[test]
fn stable_large_memory_hands_out_distinct_slots() {
    let mut pool = Pool::new(zeroed(300));
    for expected in 0..255u8 {
        let handle = pool.allocate(expected as i8).ok().unwrap();
        assert_eq!(handle.index(), expected);
    }
    assert_eq!(pool.head(), 255);
    assert_eq!(pool.free(), 0);
    assert_eq!(pool.initialized(), 255);
}

#[test]
fn stable_rejection_hands_the_value_back() {
    let mut pool = Pool::new(vec![Slot::holding(String::new())]);
    let first = pool.allocate(String::from("kept")).ok().unwrap();
    let rejected = pool.allocate(String::from("offered"));
    assert_eq!(rejected.err(), Some(String::from("offered")));
    assert_eq!(pool.get(&first).as_str(), "kept");
    assert_eq!(pool.free(), 0);
    assert_eq!(pool.head(), 1);
    assert_eq!(pool.initialized(), 1);
}

#[test]
fn stable_empty_memory_rejects_at_once() {
    let mut pool: Pool<u32> = Pool::new(Vec::new());
    assert_eq!(pool.allocate(5).err(), Some(5));
    assert_eq!(pool.free(), 0);
    assert_eq!(pool.head(), 0);
}

#[test]
fn stable_memory_may_start_in_any_state() {
    let memory = vec![Slot::Link(200), Slot::Vacant, Slot::holding(9u16), Slot::Link(0)];
    let mut pool = Pool::new(memory);
    assert_eq!(pool.link(0), None);
    for expected in 0..4u8 {
        assert_eq!(pool.allocate(7).ok().unwrap().index(), expected);
    }
    assert!(pool.allocate(7).is_err());
}

#[test]
fn stable_set_replaces_and_drops_the_element() {
    let count = Rc::new(Cell::new(0usize));
    let mut pool = Pool::new(vec![Slot::Vacant, Slot::Vacant]);
    let handle = pool.allocate(A::new(&count)).ok().unwrap();
    assert_eq!(count.get(), 1);
    pool.set(&handle, A::new(&count));
    assert_eq!(count.get(), 1);
    pool.dealloc(handle);
    assert_eq!(count.get(), 0);
}

#[test]
fn stable_touching_a_slot_drops_what_it_held() {
    let count = Rc::new(Cell::new(2usize));
    let memory = vec![Slot::holding(A::preset(&count)), Slot::holding(A::preset(&count))];
    let mut pool = Pool::new(memory);
    assert_eq!(count.get(), 2);
    let _0 = pool.allocate(A::new(&count)).ok().unwrap();
    assert_eq!(count.get(), 2);
    let _1 = pool.allocate(A::new(&count)).ok().unwrap();
    assert_eq!(count.get(), 2);
    assert!(pool.allocate(A::preset(&count)).is_err());
    assert_eq!(count.get(), 1);
}

#[test]
fn stable_get_mut_changes_the_element_in_place() {
    let mut pool = Pool::new(zeroed(2));
    let handle = pool.allocate(41).ok().unwrap();
    *pool.get_mut(&handle) += 1;
    assert_eq!(*pool.get(&handle), 42);
    assert!(pool.is_live(handle.index()));
    assert!(!pool.is_live(1));
    pool.dealloc(handle);
    assert!(!pool.is_live(0));
}

#[test]
fn stable_pool_of_elements_without_a_size_is_not_made() {
    let memory: Vec<Slot<()>> = vec![Slot::Vacant, Slot::Vacant];
    match Pool::try_new(memory) {
        Ok(_) => panic!("a pool of elements without a size"),
        Err(memory) => assert_eq!(memory.len(), 2),
    }
    let mut pool = Pool::try_new(zeroed(2)).ok().unwrap();
    assert_eq!(pool.allocate(1).ok().unwrap().index(), 0);
    assert_eq!(pool.free(), 1);
}
