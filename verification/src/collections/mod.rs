//! Fixed-capacity collections.
pub mod arena;
pub mod array;
pub mod batch;
pub mod batch_set;
pub mod completion;
pub(crate) mod bits;
pub mod fixed;
pub mod heap;
pub mod linked_pool;
pub mod pin_cell_slab;
pub mod slab;
pub mod pin_slab;
pub mod pinned;

use vstd::prelude::*;

verus! {

/// Why a collection could not reserve its storage.
#[derive(Clone, Copy, Debug, PartialEq, Eq)]
pub enum AllocationError {
    /// The requested size does not fit the collection's index type or the
    /// address space.
    Overflow,
    /// The allocator could not provide the requested storage.
    Exhausted,
}

} // verus!
