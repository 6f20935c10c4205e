use std::cell::Cell;
use std::rc::Rc;

use alloc_singleton::nightly::pool::{Box, Pool};

struct A {
    count: Rc<Cell<usize>>,
}

impl A {
    fn new(count: &Rc<Cell<usize>>) -> Self {
        count.set(count.get() + 1);
        A { count: count.clone() }
    }
}

impl Drop for A {
    fn drop(&mut self) {
        self.count.set(self.count.get() - 1);
    }
}

#[test]
fn pool_sanity() {
    let mut p: Pool<i8, 4> = Pool::new();
    let pool = &mut p;

    let _0 = Box::new(pool, -1).ok().unwrap();
    assert_eq!(*pool.get(&_0), -1);
    assert_eq!(_0.index(), 0);
    assert_eq!(pool.head(), 1);
    assert_eq!(pool.free(), 3);
    assert_eq!(pool.initialized(), 1);

    let _1 = Box::new(pool, -2).ok().unwrap();
    assert_eq!(*pool.get(&_1), -2);
    assert_eq!(_1.index(), 1);
    assert_eq!(pool.head(), 2);
    assert_eq!(pool.free(), 2);
    assert_eq!(pool.initialized(), 2);

    let _2 = Box::new(pool, -3).ok().unwrap();
    assert_eq!(*pool.get(&_2), -3);
    assert_eq!(_2.index(), 2);
    assert_eq!(pool.head(), 3);
    assert_eq!(pool.free(), 1);
    assert_eq!(pool.initialized(), 3);

    Box::free(_0, pool);
    assert_eq!(pool.head(), 0);
    assert_eq!(pool.free(), 2);
    assert_eq!(pool.initialized(), 3);
    assert_eq!(pool.link(0), Some(3));

    Box::free(_2, pool);
    assert_eq!(pool.head(), 2);
    assert_eq!(pool.free(), 3);
    assert_eq!(pool.initialized(), 3);
    assert_eq!(pool.link(2), Some(0));

    let _2 = Box::new(pool, -4).ok().unwrap();
    assert_eq!(*pool.get(&_2), -4);
    assert_eq!(_2.index(), 2);
    assert_eq!(pool.head(), 0);
    assert_eq!(pool.free(), 2);
    assert_eq!(pool.initialized(), 4);
    assert_eq!(pool.link(3), Some(4));
}

#[test]
fn pool_destructor() {
    let count = Rc::new(Cell::new(0usize));

    let mut pool: Pool<A, 4> = Pool::new();

    let _0 = Box::new(&mut pool, A::new(&count)).ok().unwrap();
    assert_eq!(count.get(), 1);

    let _1 = Box::new(&mut pool, A::new(&count)).ok().unwrap();
    assert_eq!(count.get(), 2);

    // freeing the `Box` runs `A`'s destructor
    Box::free(_0, &mut pool);
    assert_eq!(count.get(), 1);

    // dropping the `Pool` runs no destructor
    drop(pool);
    assert_eq!(count.get(), 1);

    // dropping the `Box` runs no destructor
    drop(_1);
    assert_eq!(count.get(), 1);
}

#[test]
fn pool_empty() {
    let mut p: Pool<i8, 4> = Pool::new();
    let pool = &mut p;

    let _0 = Box::new(pool, -1).ok().unwrap();
    let _1 = Box::new(pool, -1).ok().unwrap();
    let _2 = Box::new(pool, -1).ok().unwrap();
    let _3 = Box::new(pool, -1).ok().unwrap();

    assert!(Box::new(pool, -1).is_err());

    Box::free(_0, pool);
    Box::free(_2, pool);

    let _2 = Box::new(pool, -1).ok().unwrap();
    assert_eq!(_2.index(), 2);

    let _0 = Box::new(pool, -1).ok().unwrap();
    assert_eq!(_0.index(), 0);
}

#[test]
fn pool_max_capacity() {
    let mut p: Pool<i8, 255> = Pool::new();
    let pool = &mut p;

    let mut xs = vec![];
    for _ in 0..255 {
        xs.push(Box::new(pool, -1).ok().unwrap());
    }

    assert!(Box::new(pool, -1).is_err())
}

#[test]
fn pool_every_capacity_takes_exactly_that_many() {
    fn fill<const N: u8>() {
        let mut pool: Pool<u16, N> = Pool::new();
        assert_eq!(pool.free(), N);
        for k in 0..N {
            let handle = Box::new(&mut pool, 1000 + k as u16).ok().unwrap();
            assert_eq!(handle.index(), k);
            assert_eq!(pool.free(), N - k - 1);
        }
        assert_eq!(Box::new(&mut pool, 77).err(), Some(77));
        assert_eq!(pool.free(), 0);
        assert_eq!(pool.head(), N);
        assert_eq!(pool.initialized(), N);
    }
    fill::<0>();
    fill::<1>();
    fill::<2>();
    fill::<17>();
    fill::<254>();
    fill::<255>();
}

#[test]
fn pool_releases_come_back_last_in_first_out() {
    let mut pool: Pool<u8, 6> = Pool::new();
    let mut handles = vec![];
    for k in 0..6u8 {
        handles.push(Box::new(&mut pool, k).ok().unwrap());
    }
    let order = [4u8, 1, 5, 0];
    for wanted in order {
        let at = handles.iter().position(|h| h.index() == wanted).unwrap();
        Box::free(handles.remove(at), &mut pool);
        assert_eq!(pool.head(), wanted);
    }
    assert_eq!(pool.link(0), Some(5));
    assert_eq!(pool.link(5), Some(1));
    assert_eq!(pool.link(1), Some(4));
    assert_eq!(pool.link(4), Some(6));
    assert_eq!(pool.link(2), None);
    for wanted in [0u8, 5, 1, 4] {
        assert_eq!(Box::new(&mut pool, 9).ok().unwrap().index(), wanted);
    }
    assert!(Box::new(&mut pool, 9).is_err());
}

#[test]
fn pool_every_slot_is_on_the_free_list_once() {
    let mut pool: Pool<u8, 255> = Pool::new();
    let mut handles = vec![];
    for k in 0..255u8 {
        handles.push(Box::new(&mut pool, k).ok().unwrap());
    }
    for handle in handles {
        Box::free(handle, &mut pool);
    }
    assert_eq!(pool.free(), 255);
    let mut seen = [false; 255];
    let mut at = pool.head();
    for _ in 0..255 {
        assert!(!seen[at as usize]);
        seen[at as usize] = true;
        at = pool.link(at).unwrap();
    }
    assert_eq!(at, 255);
    assert!(seen.iter().all(|s| *s));
}

#[test]
fn pool_set_writes_through_the_handle() {
    let mut pool: Pool<String, 2> = Pool::new();
    let handle = Box::new(&mut pool, String::from("a")).ok().unwrap();
    pool.set(&handle, String::from("b"));
    assert_eq!(pool.get(&handle).as_str(), "b");
    assert_eq!(pool.free(), 1);
}

#[test]
fn pool_get_mut_changes_the_element_in_place() {
    let mut pool: Pool<[u8; 4], 2> = Pool::new();
    let handle = Box::new(&mut pool, [0; 4]).ok().unwrap();
    pool.get_mut(&handle)[2] = 9;
    assert_eq!(*pool.get(&handle), [0, 0, 9, 0]);
    assert!(pool.is_live(0));
    Box::free(handle, &mut pool);
    assert!(!pool.is_live(0));
}

#[test]
fn pool_of_elements_without_a_size_is_not_made() {
    assert!(Pool::<(), 4>::try_new().is_none());
    assert!(Pool::<[u64; 0], 4>::try_new().is_none());
    let mut pool = Pool::<u8, 4>::try_new().unwrap();
    assert_eq!(pool.free(), 4);
    assert_eq!(Box::new(&mut pool, 1).ok().unwrap().index(), 0);
}
