//! A fixed-capacity buddy memory allocator.
//!
//! The allocator manages an address space of `2^levels` equally sized base
//! units through a complete binary tree stored as a flat array in heap
//! order.  `allocate` reserves the leftmost free power-of-two block of the
//! requested size class, `free` releases a block and coalesces buddies,
//! and `dump` renders the per-node states level by level.

pub mod model;
pub mod allocator;
pub mod laws;

pub use allocator::BuddyAllocator;
pub use model::Node;
