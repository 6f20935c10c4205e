//! Pools over a store that the caller supplies.
pub mod pool;
