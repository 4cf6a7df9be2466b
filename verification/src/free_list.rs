//! The free-list structure consumed by the size-class allocator: a
//! last-in-first-out list of free block addresses of one size class.

use vstd::prelude::*;

verus! {

/// A list of addresses of free blocks that all share one size class.
///
/// The most recently freed block is handed out first; among blocks of
/// equal size any may be chosen, so callers get stack order.
pub struct FreeList {
    items: Vec<usize>,
}

impl View for FreeList {
    type V = Seq<usize>;

    closed spec fn view(&self) -> Seq<usize> {
        self.items@
    }
}

impl FreeList {
    /// An empty list.
    pub fn new() -> (r: FreeList)
        ensures
            r@ == Seq::<usize>::empty(),
    {
        FreeList { items: Vec::new() }
    }

    /// True when the list holds no block.
    pub fn is_empty(&self) -> (r: bool)
        ensures
            r == (self@.len() == 0),
    {
        self.items.len() == 0
    }

    /// How many blocks the list holds.
    pub fn len(&self) -> (r: usize)
        ensures
            r == self@.len(),
    {
        self.items.len()
    }

    /// Record `addr` as the most recently freed block.
    pub fn push(&mut self, addr: usize)
        ensures
            final(self)@ == old(self)@.push(addr),
    {
        self.items.push(addr);
    }

    /// Hand out the most recently freed block, if any.
    pub fn pop(&mut self) -> (r: Option<usize>)
        ensures
            old(self)@.len() == 0 ==> r is None && final(self)@ == old(self)@,
            old(self)@.len() > 0 ==> {
                &&& r == Some(old(self)@.last())
                &&& final(self)@ == old(self)@.drop_last()
            },
    {
        self.items.pop()
    }

    /// Whether `addr` is recorded as free in this list.
    pub fn contains(&self, addr: usize) -> (r: bool)
        ensures
            r == self@.contains(addr),
    {
        let n = self.items.len();
        let mut i: usize = 0;
        while i < n
            invariant
                0 <= i <= n,
                n == self@.len(),
                forall|j: int| 0 <= j < i ==> self@[j] != addr,
            decreases n - i,
        {
            if self.items[i] == addr {
                return true;
            }
            i = i + 1;
        }
        false
    }

    /// Whether any block in the list overlaps the address range
    /// `[lo, hi)`, when every block in this list is `bsize` bytes long.
    pub fn overlaps_any(&self, lo: usize, hi: usize, bsize: usize) -> (r: bool)
        requires
            bsize >= 1,
        ensures
            r == exists|i: int|
                0 <= i < self@.len() && (#[trigger] self@[i]) < hi && lo < self@[i] + bsize,
    {
        let n = self.items.len();
        let mut idx: usize = 0;
        while idx < n
            invariant
                0 <= idx <= n,
                n == self@.len(),
                bsize >= 1,
                forall|i: int|
                    0 <= i < idx ==> !((#[trigger] self@[i]) < hi && lo < self@[i] + bsize),
            decreases n - idx,
        {
            let c = self.items[idx];
            if c < hi && (c >= lo || lo - c < bsize) {
                return true;
            }
            idx = idx + 1;
        }
        false
    }

    /// Remove one occurrence of `addr` from the list, reporting whether
    /// it was present.  The earliest occurrence is the one removed.
    pub fn remove_addr(&mut self, addr: usize) -> (r: bool)
        ensures
            r == old(self)@.contains(addr),
            !r ==> final(self)@ == old(self)@,
            r ==> exists|i: int|
                {
                    &&& 0 <= i < old(self)@.len()
                    &&& old(self)@[i] == addr
                    &&& final(self)@ == old(self)@.remove(i)
                },
    {
        let n = self.items.len();
        let mut i: usize = 0;
        while i < n
            invariant
                0 <= i <= n,
                self@ == old(self)@,
                n == self@.len(),
                forall|j: int| 0 <= j < i ==> self@[j] != addr,
            decreases n - i,
        {
            if self.items[i] == addr {
                self.items.remove(i);
                return true;
            }
            i = i + 1;
        }
        false
    }
}

} // verus!
