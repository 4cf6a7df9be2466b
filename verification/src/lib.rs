//! Physical-memory allocation for a bare-metal kernel.
//!
//! The crate carves a raw address range (an *arena*) into allocatable
//! blocks and services allocation and release requests with explicit
//! size and alignment constraints.  Two interchangeable strategies are
//! provided: a monotonic bump allocator for permanent early-boot
//! allocations, and a size-class (buddy) allocator that supports
//! reclamation through splitting and coalescing across 32 power-of-two
//! size classes.

use vstd::prelude::*;

pub mod bin;
pub mod bump;
pub mod free_list;
pub mod heap;
pub mod util;

verus! {

/// An allocation request: how many bytes are needed and at which
/// power-of-two boundary the returned address must sit.
#[derive(Clone, Copy, Debug, PartialEq, Eq, Structural)]
pub struct Layout {
    pub size: usize,
    pub align: usize,
}

impl Layout {
    /// Bundle a size and an alignment into a request.
    pub fn new(size: usize, align: usize) -> (r: Layout)
        ensures
            r.size == size,
            r.align == align,
    {
        Layout { size, align }
    }

    /// A request is well-formed when it asks for at least one byte and
    /// its alignment is a power of two.
    pub open spec fn valid(self) -> bool {
        self.size > 0 && vstd::arithmetic::power2::is_pow2(self.align as int)
    }
}

/// Every failure an allocator can report.
#[derive(Clone, Copy, Debug, PartialEq, Eq, Structural)]
pub enum AllocErr {
    /// An alignment argument was zero or not a power of two.
    InvalidAlignment,
    /// The request itself was malformed: zero size, a bad alignment, or
    /// a pointer/layout pair that this allocator cannot have produced.
    InvalidRequest,
    /// The arena cannot currently satisfy the request.
    Exhausted,
}

} // verus!
