//! A byte-granularity first-fit allocator over raw address ranges.
//!
//! The free list is kept out of band, as an address-ordered vector of block
//! descriptors, so the bookkeeping can be reasoned about without touching the
//! managed memory itself.

pub mod block;
pub mod sums;
pub mod regions;
pub mod free_list;
pub mod model;
pub mod heap;
pub mod laws;

pub use block::{Block, HEADER_SIZE};
pub use heap::{AllocError, LabByteAllocator};
