//! A best-fit free-range allocator over a fixed half-open interval of
//! `usize` ordinals. The allocator hands out non-overlapping sub-ranges of a
//! requested length and accepts them back, eagerly coalescing adjacent free
//! space. Its free list is kept sorted, disjoint and non-adjacent, and every
//! operation carries a contract that pins the resulting state down.

pub mod free_list;
pub mod range_alloc;

pub use crate::range_alloc::RangeAllocator;
