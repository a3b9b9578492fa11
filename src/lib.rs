//! A simulator of a CPU memory hierarchy: one or two caches in front of a
//! flat main memory, with hit/miss accounting and the refill protocol that
//! keeps the data seen by the caller intact.
//!
//! Each cache organization refines one abstract model (`cache_view`); the
//! hierarchy (`memory`) is specified by the bytes it shows to its caller,
//! which the refill protocol (`refill`) is proved to preserve.
pub mod cache;
pub mod cache_view;
pub mod data_type;
pub mod direct_mapped_cache;
pub mod geometry;
pub mod main_memory;
pub mod mem_stats;
pub mod memory;
pub mod refill;
pub mod set_associative;
