//! A "bump" allocator: allocates memory by advancing a single cursor;
//! never reclaims.  Appropriate only for allocations that live forever.

use vstd::prelude::*;
use vstd::arithmetic::power2::is_pow2;

use crate::util::{
    align_up_raw, align_up_spec, is_power_of_two, lemma_align_up_bounds, lemma_multiples_spaced,
    lemma_pow2_at_least_one,
};
use crate::{AllocErr, Layout};

verus! {

/// The monotonic allocator: `current` is the next free address, `end`
/// the exclusive end of the arena, `start` its first address.
#[derive(Debug)]
pub struct Allocator {
    start: usize,
    current: usize,
    end: usize,
}

impl Allocator {
    /// The first address of the arena.
    pub closed spec fn spec_start(&self) -> usize {
        self.start
    }

    /// The next address that has never been handed out.
    pub closed spec fn spec_current(&self) -> usize {
        self.current
    }

    /// The exclusive end of the arena.
    pub closed spec fn spec_end(&self) -> usize {
        self.end
    }

    /// Whether a release request is consistent with this allocator: the
    /// layout is well-formed, the pointer honours its alignment, and it
    /// lies within the span handed out so far.
    pub open spec fn valid_dealloc(&self, ptr: usize, layout: Layout) -> bool {
        &&& layout.valid()
        &&& ptr % layout.align == 0
        &&& self.spec_start() <= ptr <= self.spec_current()
    }

    /// Creates a new bump allocator that will allocate memory from the
    /// region starting at address `start` and ending at address `end`.
    pub fn new(start: usize, end: usize) -> (r: Allocator)
        ensures
            r.spec_start() == start,
            r.spec_current() == start,
            r.spec_end() == end,
    {
        Allocator { start, current: start, end }
    }

    /// The next free address, for diagnostics.
    pub fn current(&self) -> (r: usize)
        ensures
            r == self.spec_current(),
    {
        self.current
    }

    /// The exclusive end of the arena, for diagnostics.
    pub fn end(&self) -> (r: usize)
        ensures
            r == self.spec_end(),
    {
        self.end
    }

    /// Allocates memory: rounds the requested size up to a multiple of
    /// the requested alignment, places the block at the next boundary
    /// at or after the cursor, and advances the cursor past the block.
    ///
    /// A malformed request (zero size, or an alignment that is zero or
    /// not a power of two) fails with `InvalidRequest`.  A request the
    /// remaining span cannot hold fails with `Exhausted`; neither
    /// failure moves the cursor.
    pub fn allocate(&mut self, layout: Layout) -> (r: Result<usize, AllocErr>)
        ensures
            final(self).spec_start() == old(self).spec_start(),
            final(self).spec_end() == old(self).spec_end(),
            r == Err::<usize, AllocErr>(AllocErr::InvalidRequest) <==> !layout.valid(),
            r == Err::<usize, AllocErr>(AllocErr::Exhausted) <==> layout.valid() && {
                ||| old(self).spec_current() + align_up_spec(
                    layout.size as int,
                    layout.align as int,
                ) > old(self).spec_end()
                ||| align_up_spec(old(self).spec_current() as int, layout.align as int)
                    + align_up_spec(layout.size as int, layout.align as int) > usize::MAX
            },
            r is Err ==> final(self).spec_current() == old(self).spec_current(),
            r is Ok <==> layout.valid() && old(self).spec_current() + align_up_spec(
                layout.size as int,
                layout.align as int,
            ) <= old(self).spec_end() && align_up_spec(
                old(self).spec_current() as int,
                layout.align as int,
            ) + align_up_spec(layout.size as int, layout.align as int) <= usize::MAX,
            r matches Ok(addr) ==> {
                &&& addr == align_up_spec(old(self).spec_current() as int, layout.align as int)
                &&& addr % layout.align == 0
                &&& old(self).spec_current() <= addr
                &&& final(self).spec_current() == addr + align_up_spec(
                    layout.size as int,
                    layout.align as int,
                )
                &&& old(self).spec_current() + align_up_spec(
                    layout.size as int,
                    layout.align as int,
                ) <= old(self).spec_end()
            },
    {
        if layout.size == 0 || !is_power_of_two(layout.align) {
            return Err(AllocErr::InvalidRequest);
        }
        let size = layout.size;
        let align = layout.align;
        proof {
            lemma_pow2_at_least_one(align as int);
            lemma_align_up_bounds(size as int, align as int);
        }
        if size > usize::MAX - align + 1 {
            // The rounded size alone is beyond every address, so the
            // request can never fit between the cursor and the end.
            proof {
                let act = align_up_spec(size as int, align as int);
                lemma_divides_word_size(align as int);
                vstd::arithmetic::div_mod::lemma_mod_sub_multiples_vanish(
                    usize::MAX + 1,
                    align as int,
                );
                lemma_multiples_spaced(act, usize::MAX + 1 - align, align as int);
            }
            return Err(AllocErr::Exhausted);
        }
        let act_size = align_up_raw(size, align);
        proof {
            lemma_multiples_spaced(act_size as int, 0, align as int);
        }
        if self.current > self.end || act_size > self.end - self.current {
            return Err(AllocErr::Exhausted);
        }
        proof {
            lemma_align_up_bounds(self.current as int, align as int);
        }
        let return_addr = align_up_raw(self.current, align);
        if act_size > usize::MAX - return_addr {
            return Err(AllocErr::Exhausted);
        }
        self.current = return_addr + act_size;
        Ok(return_addr)
    }

    /// Releasing memory never makes it reusable here, but the request
    /// is still checked: the pointer must honour the layout's alignment
    /// and lie within the span handed out so far.  A request that fails
    /// the check is a caller bug and is reported as `InvalidRequest`;
    /// the allocator is never changed.
    pub fn deallocate(&mut self, ptr: usize, layout: Layout) -> (r: Result<(), AllocErr>)
        ensures
            *final(self) == *old(self),
            r == Ok::<(), AllocErr>(()) <==> old(self).valid_dealloc(ptr, layout),
            r is Err ==> r == Err::<(), AllocErr>(AllocErr::InvalidRequest),
    {
        if layout.size == 0 || !is_power_of_two(layout.align) {
            return Err(AllocErr::InvalidRequest);
        }
        proof {
            lemma_pow2_at_least_one(layout.align as int);
        }
        if ptr % layout.align != 0 {
            return Err(AllocErr::InvalidRequest);
        }
        if ptr < self.start || ptr > self.current {
            return Err(AllocErr::InvalidRequest);
        }
        Ok(())
    }
}

/// The word size is a multiple of every representable power of two.
proof fn lemma_divides_word_size(align: int)
    requires
        is_pow2(align),
        align <= usize::MAX,
    ensures
        (usize::MAX + 1) % align == 0,
{
    let w = usize::BITS as nat;
    vstd::layout::unsigned_int_max_values();
    vstd::arithmetic::power2::is_pow2_equiv(align);
    let a = choose|i: nat| vstd::arithmetic::power::pow(2, i) == align;
    vstd::arithmetic::power2::lemma_pow2(a);
    assert(align == vstd::arithmetic::power2::pow2(a) as int);
    if a > w {
        vstd::arithmetic::power2::lemma_pow2_strictly_increases(w, a);
        assert(false);
    }
    crate::util::lemma_pow2_multiple_divides_self(w, a);
}

} // verus!
