//! Arena-backed allocator with fixed size classes, per-thread caches, a shared central
//! pool, and a tracked large-allocation path.
//!
//! The library is the allocator's logic over addresses: a block is named by the address
//! of its first byte, and every allocation header is a run of bytes inside the arena's
//! own memory mapping. Mutual exclusion is expressed by `&mut` access.

/// Rounding addresses and sizes to an alignment.
pub mod align;
/// Allocator instances.
pub mod allocator;
/// Process-global convenience allocation and free functions.
pub mod api;
/// Monotonic arena and the page arithmetic on its spans.
pub mod arena;
/// Allocators under measurement, and the rounds that run on them.
pub mod backend;
/// Workloads that measure allocators, and what their harnesses decide.
pub mod bench;
/// Sets of blocks: the grid of a slab and the blocks of a sequence.
pub mod blocks;
/// Per-class pools of blocks that no thread cache holds.
pub mod central_pool;
/// Blocks of one size class as a thread cache keeps them.
pub mod class_cache;
/// Slabs of one size class as the central pool records them.
pub mod class_pool;
/// Allocator sizing and cache-tuning configuration.
pub mod config;
/// Typed initialization, allocation, and free failures.
pub mod error;
/// Settings of the profiling harness.
pub mod flamegraph;
/// Lists and detached batches of free blocks, linked through the blocks' headers.
pub mod free_list;
/// Routing of general allocation requests, for use as a program's global allocator.
pub mod global_alloc;
/// What is live, over all caches of an allocator.
pub mod heap;
/// Allocation-header layout and address conversions used for deallocation routing.
pub mod header;
/// Live and reusable large blocks.
pub mod large_object;
/// Promises that hold across several calls.
pub mod laws;
/// Slabs as a thread cache keeps them.
pub mod local_slab;
/// Mapped memory, read and written by address.
pub mod memory;
/// When requests are served, and where freed blocks go.
pub mod service;
/// Fixed request buckets and class sizing helpers.
pub mod size_class;
/// Allocator and thread-cache statistics snapshots.
pub mod stats;
/// Texts, and numbers in decimal digits.
pub mod text;
/// Caller-owned caches of small blocks.
pub mod thread_cache;

pub use crate::allocator::Allocator;
pub use crate::api::{allocate, deallocate, deallocate_with_size, global_stats};
pub use crate::arena::Arena;
pub use crate::config::AllocatorConfig;
pub use crate::error::{AllocError, FreeError, InitError};
pub use crate::global_alloc::OrthotopeGlobalAlloc;
pub use crate::size_class::SizeClass;
pub use crate::stats::{AllocatorStats, SizeClassStats, ThreadCacheStats};
pub use crate::thread_cache::ThreadCache;
