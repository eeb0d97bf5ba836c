//! A model of a NUMA-aware, size-classed heap allocator together with the
//! collections it is built from.  Every routine is executable Rust whose
//! behaviour is stated over mathematical views and proved by Verus.
//!
//! The library decides *where* objects live: it hands out and takes back
//! addresses as plain words.  Mapping memory, touching it and serialising
//! access between threads is the business of the program around it.

pub mod api;
pub mod bibop_heap;
pub mod bump_heap;
pub mod collections;
pub mod generic_heap;
pub mod large_heap;
pub mod lfmap;
pub mod rand;
pub mod small_heap;
pub mod topology;
pub mod utils;
