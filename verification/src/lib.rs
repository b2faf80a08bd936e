//! A binary buddy-system physical-frame allocator.
//!
//! The registry keeps, for every power-of-two size class (rung), the sorted
//! set of base addresses of the free frames of that size.  Allocation splits
//! larger frames on demand, deallocation coalesces freed frames with their
//! free buddies, and reservation permanently carves an address range out of
//! the allocatable universe.

pub mod defs;
pub mod registry;
pub mod allocation;
pub mod deallocation;
pub mod reservation;
pub mod laws;

pub use defs::{MAX_FRAME_SIZE, MIN_FRAME_SIZE, NUM_RUNGS};
pub use registry::{init, BuddyAllocator};
pub use allocation::AllocError;
pub use deallocation::FreeError;
pub use reservation::reserve;
