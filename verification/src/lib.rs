//! A bump (arena) allocator with verified bookkeeping.
//!
//! Memory is handed out by advancing a finger within a chunk; when the
//! current chunk is full a larger one is acquired from the memory source,
//! and the whole arena is reclaimed at once by `reset` or `destroy`.
//! Chunk regions, addresses and layouts are modelled as owned values, so
//! every invariant of the bookkeeping is stated and proved.

pub mod arith;
pub mod source;
pub mod chunk;
pub mod arena;
pub mod laws;

pub use arith::round_up_to;
pub use chunk::{Layout, layout_from_size_align, CHUNK_FOOTER_SIZE};
pub use arena::{Bump, AllocError};
