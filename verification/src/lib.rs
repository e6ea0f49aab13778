//! A simulated process heap: a fixed-capacity byte arena with a movable
//! program break and a singly linked free list of block headers stored
//! in-band, inside the arena bytes themselves.

pub mod allocator;
pub mod header;
pub mod laws;
pub mod memory;
