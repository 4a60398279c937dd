//! Merging streams of key/value updates into a partitioned, append-only store.
//!
//! The store is a fixed array of partitions, each mapping a key to the log of
//! values written under it. Three engines apply a delta to it: a direct hash
//! merge, a batched hash merge that groups the delta by partition first, and a
//! two-pointer merge-join over a key-sorted base sequence. A staging engine
//! routes records into per-partition buffers for a later fold.

pub mod model;
pub mod hash_engine;
pub mod sorting;
pub mod sorted_engine;
pub mod buffer;
pub mod source;
pub mod sharded;
pub mod theorems;
