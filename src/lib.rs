//! A buddy allocator over a single arena, whose free tree is a flat byte heap.
//!
//! The arena is described by byte offsets: the allocator hands out the offset and length of
//! each block and takes the offset back, so that it can serve any region whose base address
//! is aligned as `check` asks.
use vstd::prelude::*;

pub mod bits;
pub mod error;
pub mod inner_allocator;
pub mod layout;
pub mod math;
pub mod order;
pub mod protected_allocator;
pub mod random;
pub mod simple_allocator;
pub mod tree;

pub use error::BuddyError;
pub use inner_allocator::{
    check, static_attach, static_init, AddressSpaceRef, Block, InnerBuddy, StaticAddressSpace,
};
pub use layout::Layout;
pub use order::{BuddySize, Order};
pub use protected_allocator::{BuddyAllocator, ProtectedAllocator, ThreadSafeAllocator};
pub use simple_allocator::{SimpleAllocator, ARENA_SIZE};

verus! {

/// Smallest cell size that an arena may be cut into.
pub const MIN_CELL_LEN: usize = 8;

/// Largest alignment that a request may ask for: one page.
pub const MAX_SUPPORTED_ALIGN: usize = 4096;

/// Fewest cells that an arena must hold.
pub const MIN_BUDDY_NB: usize = 4;

} // verus!
