//! The collections that the heaps are built from.

pub mod envmap;
pub mod evmap;
pub mod fixvec;
pub mod lflist;
