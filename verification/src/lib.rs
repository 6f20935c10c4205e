//! Fixed-capacity object pools over a block of slots that never grows.
//!
//! A pool hands out single slots of its backing store and takes them back, in
//! constant time and without extra per-slot bookkeeping: the free slots form a
//! list threaded through the store itself, and the links of that list are
//! written lazily, one per allocation, so that creating a pool touches no slot.
//!
//! - [`model`] is the mathematical model of a pool, with its invariant.
//! - [`laws`] states what holds of every pool that meets the invariant.
//! - [`store`] is the slot store and the allocation algorithm, proved against
//!   the model.
//! - [`stable`] and [`nightly`] are the pools built on it: one over a store that
//!   the caller supplies, two over a store of their own.
pub mod laws;
pub mod model;
pub mod nightly;
pub mod stable;
pub mod store;
