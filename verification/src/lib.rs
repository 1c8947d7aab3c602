//! Physical-memory management for a small bare-metal kernel.
//!
//! The heart of the crate is the buddy allocator: it partitions a contiguous
//! physical memory region into power-of-two-sized chunks, tracks which chunks
//! are free, allocated or split using per-size-class bitmaps and free lists,
//! and services allocation and deallocation requests with logarithmic-time
//! splitting and coalescing. Every operation carries a contract that pins
//! down the resulting allocator state, and the classical buddy-system laws
//! (single ownership of every byte, alloc/free round trips, no overlap of
//! live chunks, alignment, eager coalescing) are proved in `laws`.
#![allow(non_snake_case)]

pub mod address;
pub mod allocator;
pub mod bcache;
pub mod bitmap;
pub mod buddy;
pub mod free_list;
pub mod fs;
pub mod laws;
pub mod locks;
pub mod page_table;
pub mod process;
pub mod utils;
