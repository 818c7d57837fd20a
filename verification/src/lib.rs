//! A write-through LRU cache with pinned active entries over a pluggable
//! backend, and a size-bucketed, swap-compacting record store that keeps the
//! byte-exact image of every bucket file.

pub mod bucket;
pub mod cache;
pub mod codec;
pub mod error;
pub mod folder;
pub mod folder_compatible;
pub mod hashmap_compatible;
pub mod index;
pub mod layout;
pub mod level2;
pub mod names;
pub mod recency;
pub mod scan;

pub use cache::{CacheCompatible, CacheMut, CacheMutCompatible, CMRef, CMRefMut};
pub use recency::MAX_CAPACITY;
