//! Pools that hold a store of their own, of a capacity fixed by their type.
pub mod pool;
