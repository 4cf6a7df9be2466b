//! The kernel's one general-purpose allocator instance, with an
//! explicit initialization phase.
//!
//! The enclosing kernel keeps a single process-wide allocator and must
//! construct it exactly once, after boot code has discovered the usable
//! memory range.  This wrapper models that pattern: it is "not yet
//! initialized" until it is handed an arena and "ready" afterwards, and
//! a request made before initialization is refused as a contract
//! violation rather than served from a default arena.  Mutual exclusion
//! around each call (the process-wide lock, or disabled interrupts) is
//! the caller's responsibility, not this component's.

use vstd::prelude::*;
use vstd::arithmetic::power2::pow2;

use crate::bin::{
    block_in_arena, block_in_segment, can_serve, decompose, merge_lists, serving_order,
    split_lists, Allocator,
};
use crate::{AllocErr, Layout};

verus! {

/// One owned allocator behind an initialization state machine.
pub struct Heap {
    inner: Option<Allocator>,
}

impl Heap {
    /// Whether the heap has been handed its arena.
    pub closed spec fn is_initialized(&self) -> bool {
        self.inner is Some
    }

    /// The allocator inside, once initialized.
    pub closed spec fn allocator(&self) -> Allocator {
        self.inner->Some_0
    }

    /// The allocator inside is well-formed as soon as it exists.
    pub closed spec fn wf(&self) -> bool {
        self.is_initialized() ==> self.allocator().wf()
    }

    /// A heap that has not been given memory yet.
    pub fn new() -> (r: Heap)
        ensures
            !r.is_initialized(),
            r.wf(),
    {
        Heap { inner: None }
    }

    /// Hands the heap its arena; allowed exactly once.  A second
    /// initialization is a caller bug, refused with `InvalidRequest`
    /// and no change.
    pub fn initialize(&mut self, start: usize, end: usize) -> (r: Result<(), AllocErr>)
        requires
            old(self).wf(),
            start <= end,
        ensures
            final(self).wf(),
            r == Ok::<(), AllocErr>(()) <==> !old(self).is_initialized(),
            r is Err ==> r == Err::<(), AllocErr>(AllocErr::InvalidRequest) && *final(self)
                == *old(self),
            r is Ok ==> {
                &&& final(self).is_initialized()
                &&& final(self).allocator().segs() == decompose(start, end)
                &&& final(self).allocator().spec_start() == start
                &&& final(self).allocator().spec_end() == end
                &&& final(self).allocator().spec_allocated() == 0
                &&& final(self).allocator().spec_free_bytes()
                    == final(self).allocator().spec_total()
            },
    {
        if self.inner.is_some() {
            return Err(AllocErr::InvalidRequest);
        }
        self.inner = Some(Allocator::new(start, end));
        Ok(())
    }

    /// Routes an allocation request to the allocator.  Before
    /// initialization every request is a contract violation, refused
    /// with `InvalidRequest`; afterwards the size-class allocator's
    /// contract applies unchanged.
    pub fn allocate(&mut self, layout: Layout) -> (r: Result<usize, AllocErr>)
        requires
            old(self).wf(),
        ensures
            final(self).wf(),
            final(self).is_initialized() == old(self).is_initialized(),
            !old(self).is_initialized() ==> r == Err::<usize, AllocErr>(AllocErr::InvalidRequest)
                && *final(self) == *old(self),
            old(self).is_initialized() ==> {
                let pre = old(self).allocator();
                let post = final(self).allocator();
                let k = serving_order(layout.size as int, layout.align as int);
                &&& post.segs() == pre.segs()
                &&& post.spec_total() == pre.spec_total()
                &&& (r == Err::<usize, AllocErr>(AllocErr::InvalidRequest) <==> !layout.valid())
                &&& (r == Err::<usize, AllocErr>(AllocErr::Exhausted) <==> layout.valid()
                    && !can_serve(pre.lists(), k))
                &&& (r is Ok <==> layout.valid() && can_serve(pre.lists(), k))
                &&& (r is Err ==> post.lists() == pre.lists() && post.spec_allocated()
                    == pre.spec_allocated())
                &&& (r matches Ok(addr) ==> {
                    &&& post.spec_allocated() == pre.spec_allocated() + pow2(k)
                    &&& post.spec_free_bytes() == pre.spec_free_bytes() - pow2(k)
                    &&& pre.spec_start() <= addr
                    &&& addr + pow2(k) <= pre.spec_end()
                    &&& layout.size <= pow2(k)
                    &&& (addr - pre.spec_start()) % (pow2(k) as int) == 0
                    &&& (addr - pre.spec_start()) % (layout.align as int) == 0
                    &&& (pre.spec_start() as int % (layout.align as int) == 0 ==> addr as int
                        % (layout.align as int) == 0)
                    &&& block_in_arena(pre.segs(), addr, k)
                    &&& post.valid_dealloc(addr, layout)
                    &&& exists|jj: int|
                        {
                            &&& k <= jj < 32
                            &&& (#[trigger] pre.lists()[jj]).len() > 0
                            &&& (forall|i: int|
                                k <= i < jj ==> (#[trigger] pre.lists()[i]).len() == 0)
                            &&& addr == pre.lists()[jj].last() + pow2(jj as nat) - pow2(k)
                            &&& post.lists() == split_lists(
                                pre.lists().update(jj, pre.lists()[jj].drop_last()),
                                pre.lists()[jj].last(),
                                jj as nat,
                                k,
                            )
                        }
                })
            },
    {
        match &mut self.inner {
            Some(a) => a.allocate(layout),
            None => Err(AllocErr::InvalidRequest),
        }
    }

    /// Routes a release to the allocator.  Before initialization every
    /// release is a contract violation, refused with `InvalidRequest`;
    /// afterwards the size-class allocator's contract applies
    /// unchanged.
    pub fn deallocate(&mut self, ptr: usize, layout: Layout) -> (r: Result<(), AllocErr>)
        requires
            old(self).wf(),
        ensures
            final(self).wf(),
            final(self).is_initialized() == old(self).is_initialized(),
            !old(self).is_initialized() ==> r == Err::<(), AllocErr>(AllocErr::InvalidRequest)
                && *final(self) == *old(self),
            old(self).is_initialized() ==> {
                let pre = old(self).allocator();
                let post = final(self).allocator();
                let k = serving_order(layout.size as int, layout.align as int);
                &&& post.segs() == pre.segs()
                &&& post.spec_total() == pre.spec_total()
                &&& (r == Ok::<(), AllocErr>(()) <==> pre.valid_dealloc(ptr, layout))
                &&& (r is Err ==> r == Err::<(), AllocErr>(AllocErr::InvalidRequest)
                    && post.lists() == pre.lists() && post.spec_allocated()
                    == pre.spec_allocated())
                &&& (r is Ok ==> post.spec_allocated() == pre.spec_allocated() - pow2(k)
                    && post.spec_free_bytes() == pre.spec_free_bytes() + pow2(k))
                &&& (r is Ok ==> exists|si: int|
                    {
                        &&& 0 <= si < pre.segs().len()
                        &&& block_in_segment(#[trigger] pre.segs()[si], ptr, k)
                        &&& post.lists() == merge_lists(pre.lists(), pre.segs()[si], ptr, k)
                    })
            },
    {
        match &mut self.inner {
            Some(a) => a.deallocate(ptr, layout),
            None => Err(AllocErr::InvalidRequest),
        }
    }

    /// Bytes currently handed out, for diagnostics; zero before
    /// initialization.
    pub fn allocated(&self) -> (r: usize)
        ensures
            r == if self.is_initialized() {
                self.allocator().spec_allocated() as int
            } else {
                0
            },
    {
        match &self.inner {
            Some(a) => a.allocated(),
            None => 0,
        }
    }

    /// Usable bytes of the arena, for diagnostics; zero before
    /// initialization.
    pub fn total(&self) -> (r: usize)
        ensures
            r == if self.is_initialized() {
                self.allocator().spec_total() as int
            } else {
                0
            },
    {
        match &self.inner {
            Some(a) => a.total(),
            None => 0,
        }
    }
}

} // verus!
