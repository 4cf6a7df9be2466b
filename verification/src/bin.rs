//! A size-class (buddy) allocator: carves the arena into power-of-two
//! blocks, serves each request from the smallest sufficient class, and
//! reclaims released blocks by coalescing them with their buddies.

use vstd::prelude::*;
use vstd::arithmetic::power2::{is_pow2, pow2};
use vstd::arithmetic::power2::{
    lemma2_to64, lemma_pow2_adds, lemma_pow2_pos, lemma_pow2_strictly_increases,
};
use vstd::arithmetic::div_mod::{
    lemma_add_mod_noop, lemma_fundamental_div_mod, lemma_mod_multiples_basic,
    lemma_small_mod,
};

use crate::free_list::FreeList;
use crate::util::{
    align_up_raw, align_up_spec, is_power_of_two, lemma_align_up_bounds, lemma_multiples_spaced,
    lemma_pow2_at_least_one, lemma_pow2_multiple_divides, lemma_pow2_multiple_divides_self,
};
use crate::{AllocErr, Layout};

verus! {

/// The smallest order ever served: blocks are at least 8 bytes, which
/// bounds the overhead of threading a free list through free blocks.
pub const MIN_ORDER: usize = 3;

/// The smallest block size, `2^MIN_ORDER` bytes.
pub const MIN_SIZE: usize = 8;

/// The number of size classes; orders run from 0 to 31 and only those
/// from `MIN_ORDER` upward are populated.
pub const NUM_CLASSES: usize = 32;

/// One maximal power-of-two region produced at construction: the arena
/// is decomposed greedily into such regions, and each is an independent
/// buddy sub-tree.  Splitting and coalescing never cross regions.
pub ghost struct Segment {
    pub base: usize,
    pub order: nat,
}

/// The exponent of the largest power of two not exceeding `n`.
pub open spec fn flog2(n: int) -> nat
    decreases n,
{
    if n < 2 {
        0
    } else {
        (1 + flog2(n / 2)) as nat
    }
}

/// The exponent of the smallest power of two not below `n`.
pub open spec fn clog2(n: int) -> nat
    decreases n,
{
    if n <= 1 {
        0
    } else {
        (1 + clog2((n + 1) / 2)) as nat
    }
}

/// The order of the block placed at the start of a region of `n` free
/// bytes: the largest power of two that fits, capped at the largest
/// size class.
pub open spec fn cap_order(n: int) -> nat {
    if flog2(n) > 31 {
        31
    } else {
        flog2(n)
    }
}

/// The order that serves a request: the rounded size, taken up to the
/// next power of two, but never below the minimum order.  Release
/// recomputes this exactly as allocation did.
pub open spec fn serving_order(size: int, align: int) -> nat {
    if clog2(align_up_spec(size, align)) < MIN_ORDER as nat {
        MIN_ORDER as nat
    } else {
        clog2(align_up_spec(size, align))
    }
}

/// The greedy decomposition of `[start, end)` into maximal power-of-two
/// regions, from the low address upward; fewer than `MIN_SIZE` trailing
/// bytes are wasted.
pub open spec fn decompose(start: usize, end: usize) -> Seq<Segment>
    decreases end - start,
    via decompose_dec
{
    if end - start < MIN_SIZE {
        Seq::empty()
    } else {
        seq![Segment { base: start, order: cap_order(end - start) }] + decompose(
            (start + pow2(cap_order(end - start))) as usize,
            end,
        )
    }
}

#[via_fn]
proof fn decompose_dec(start: usize, end: usize) {
    if end - start >= MIN_SIZE {
        lemma_cap_order_fits(end - start);
        lemma_pow2_pos(cap_order(end - start));
    }
}

/// The total number of bytes covered by a run of regions.
pub open spec fn segs_total(segs: Seq<Segment>) -> int
    decreases segs.len(),
{
    if segs.len() == 0 {
        0
    } else {
        segs_total(segs.drop_last()) + pow2(segs.last().order)
    }
}

/// The free blocks of order `k` that construction records: the bases of
/// the regions of exactly that order, low address first.
pub open spec fn class_blocks(segs: Seq<Segment>, k: nat) -> Seq<usize>
    decreases segs.len(),
{
    if segs.len() == 0 {
        Seq::empty()
    } else if segs.last().order == k {
        class_blocks(segs.drop_last(), k).push(segs.last().base)
    } else {
        class_blocks(segs.drop_last(), k)
    }
}

/// The number of free bytes recorded in the lists: each block of order
/// `k` contributes `2^k`.
pub open spec fn free_bytes(lists: Seq<Seq<usize>>) -> int
    decreases lists.len(),
{
    if lists.len() == 0 {
        0
    } else {
        free_bytes(lists.drop_last()) + lists.last().len() * pow2((lists.len() - 1) as nat)
    }
}

/// Whether some class at or above `k` still holds a free block: exactly
/// when a request of order `k` can be served, by a direct pop or by
/// splitting a larger block.
pub open spec fn can_serve(lists: Seq<Seq<usize>>, k: nat) -> bool {
    k < 32 && exists|j: int| k <= j < 32 && lists[j].len() > 0
}

/// A block of order `k` at `addr` lies properly inside the region
/// `seg`: within bounds and at a multiple of its own size from the
/// region's base.
pub open spec fn block_in_segment(seg: Segment, addr: usize, k: nat) -> bool {
    &&& k <= seg.order
    &&& seg.base <= addr
    &&& addr + pow2(k) <= seg.base + pow2(seg.order)
    &&& (addr - seg.base) % (pow2(k) as int) == 0
}

/// A block of order `k` at `addr` lies properly inside one of the
/// regions.
pub open spec fn block_in_arena(segs: Seq<Segment>, addr: usize, k: nat) -> bool {
    exists|i: int| 0 <= i < segs.len() && block_in_segment(#[trigger] segs[i], addr, k)
}

/// Two blocks occupy disjoint address ranges.
pub open spec fn blocks_disjoint(a1: usize, k1: nat, a2: usize, k2: nat) -> bool {
    a1 + pow2(k1) <= a2 || a2 + pow2(k2) <= a1
}

/// No byte is free twice: any two distinct entries of the free lists
/// denote disjoint blocks (in particular no address is listed twice).
pub open spec fn lists_disjoint(lists: Seq<Seq<usize>>) -> bool {
    forall|k1: int, i1: int, k2: int, i2: int|
        0 <= k1 < lists.len() && 0 <= i1 < lists[k1].len() && 0 <= k2 < lists.len() && 0 <= i2
            < lists[k2].len() && !(k1 == k2 && i1 == i2) ==> blocks_disjoint(
            #[trigger] lists[k1][i1],
            k1 as nat,
            #[trigger] lists[k2][i2],
            k2 as nat,
        )
}

/// The block of order `k` at `addr` shares no byte with any free block:
/// what it covers is currently allocated.
pub open spec fn block_disjoint_from_free(lists: Seq<Seq<usize>>, addr: usize, k: nat) -> bool {
    forall|k2: int, i2: int|
        0 <= k2 < lists.len() && 0 <= i2 < lists[k2].len() ==> blocks_disjoint(
            addr,
            k,
            #[trigger] lists[k2][i2],
            k2 as nat,
        )
}

/// The free lists after a block of order `j` at `b` is split down to
/// order `k`: at each order below `j` the lower half is recorded free
/// and the upper half is split further; what is finally served is
/// `b + 2^j - 2^k`.
pub open spec fn split_lists(lists: Seq<Seq<usize>>, b: usize, j: nat, k: nat) -> Seq<Seq<usize>>
    decreases j,
{
    if j <= k {
        lists
    } else {
        split_lists(
            lists.update(j - 1, lists[j - 1].push(b)),
            (b + pow2((j - 1) as nat)) as usize,
            (j - 1) as nat,
            k,
        )
    }
}

/// The free lists after a block of order `k` at `cur` inside region
/// `seg` is released: while the block is below the region's top order
/// and its buddy — at the block's own size towards the other half of
/// the enclosing double block — is free and the merged block stays in
/// the region, the buddy is absorbed and the merge continues one order
/// up; what results is recorded free.
pub open spec fn merge_lists(lists: Seq<Seq<usize>>, seg: Segment, cur: usize, k: nat) -> Seq<
    Seq<usize>,
>
    decreases seg.order - k,
{
    if k >= seg.order {
        lists.update(k as int, lists[k as int].push(cur))
    } else {
        let size = pow2(k) as int;
        let off = cur - seg.base;
        if off / size % 2 == 0 && off + 2 * size > pow2(seg.order) {
            lists.update(k as int, lists[k as int].push(cur))
        } else {
            let buddy = if off / size % 2 == 0 {
                (cur + pow2(k)) as usize
            } else {
                (cur - pow2(k)) as usize
            };
            if lists[k as int].contains(buddy) {
                let i = choose|i: int| 0 <= i < lists[k as int].len() && lists[k as int][i] == buddy;
                merge_lists(
                    lists.update(k as int, lists[k as int].remove(i)),
                    seg,
                    if buddy < cur {
                        buddy
                    } else {
                        cur
                    },
                    (k + 1) as nat,
                )
            } else {
                lists.update(k as int, lists[k as int].push(cur))
            }
        }
    }
}

/// Powers of two do not exceed what they fit in.
proof fn lemma_flog2_bounds(n: int)
    requires
        n >= 1,
    ensures
        pow2(flog2(n)) <= n < pow2(flog2(n) + 1),
    decreases n,
{
    lemma2_to64();
    if n >= 2 {
        lemma_flog2_bounds(n / 2);
        lemma_pow2_adds(1, flog2(n / 2));
        lemma_pow2_adds(1, flog2(n / 2) + 1);
        lemma_fundamental_div_mod(n, 2);
        vstd::arithmetic::div_mod::lemma_mod_bound(n, 2);
    }
}

/// The ceiling exponent brackets `n` from above, and only just.
proof fn lemma_clog2_bounds(n: int)
    requires
        n >= 1,
    ensures
        n <= pow2(clog2(n)) < 2 * n,
        n >= 2 ==> pow2((clog2(n) - 1) as nat) < n,
    decreases n,
{
    lemma2_to64();
    if n >= 2 {
        let m = (n + 1) / 2;
        lemma_fundamental_div_mod(n + 1, 2);
        vstd::arithmetic::div_mod::lemma_mod_bound(n + 1, 2);
        lemma_clog2_bounds(m);
        lemma_pow2_adds(1, clog2(m));
        assert(pow2(clog2(n)) == 2 * pow2(clog2(m)));
        assert(2 * m >= n);
        assert(2 * m <= n + 1);
        if m >= 2 {
            lemma_pow2_adds(1, (clog2(m) - 1) as nat);
            assert(pow2(clog2(m)) == 2 * pow2((clog2(m) - 1) as nat));
            assert(pow2(clog2(m)) <= 2 * m - 2);
        } else {
            assert(n == 2);
        }
    }
}

/// Non-strict monotonicity of `pow2`.
proof fn lemma_pow2_le(e1: nat, e2: nat)
    requires
        e1 <= e2,
    ensures
        pow2(e1) <= pow2(e2),
{
    if e1 < e2 {
        lemma_pow2_strictly_increases(e1, e2);
    }
}

/// The capped first-fit order always fits in the region and is a real
/// size class at or above the minimum order.
proof fn lemma_cap_order_fits(n: int)
    requires
        n >= MIN_SIZE,
    ensures
        MIN_ORDER <= cap_order(n) <= 31,
        pow2(cap_order(n)) <= n,
{
    lemma_flog2_bounds(n);
    lemma2_to64();
    if flog2(n) < MIN_ORDER as nat {
        lemma_pow2_le(flog2(n) + 1, MIN_ORDER as nat);
        assert(false);
    }
    if flog2(n) > 31 {
        lemma_pow2_le(31, flog2(n));
    }
}

/// The size-class allocator.  `free_list[k]` holds the free blocks of
/// order `k`; `allocated` and `total` are byte counters kept for
/// introspection; `segments` records the construction-time regions so
/// that release can bound coalescing to one region.
pub struct Allocator {
    free_list: Vec<FreeList>,
    allocated: usize,
    total: usize,
    highest_order: usize,
    start: usize,
    end: usize,
    segments: Vec<(usize, usize)>,
}

impl Allocator {
    /// The regions the arena was decomposed into at construction.
    pub closed spec fn segs(&self) -> Seq<Segment> {
        self.segments@.map_values(|p: (usize, usize)| Segment { base: p.0, order: p.1 as nat })
    }

    /// The contents of the 32 free lists.
    pub closed spec fn lists(&self) -> Seq<Seq<usize>> {
        self.free_list@.map_values(|l: FreeList| l@)
    }

    /// Bytes currently handed out.
    pub closed spec fn spec_allocated(&self) -> usize {
        self.allocated
    }

    /// Usable bytes of the arena (the wasted tail is not counted).
    pub closed spec fn spec_total(&self) -> usize {
        self.total
    }

    /// The order of the largest block construction produced.
    pub closed spec fn spec_highest_order(&self) -> usize {
        self.highest_order
    }

    /// The first address of the arena.
    pub closed spec fn spec_start(&self) -> usize {
        self.start
    }

    /// The exclusive end of the arena.
    pub closed spec fn spec_end(&self) -> usize {
        self.end
    }

    /// Bytes currently free in the lists.
    pub open spec fn spec_free_bytes(&self) -> int {
        free_bytes(self.lists())
    }

    /// Well-formedness: 32 classes; every region lies inside the arena,
    /// at a multiple of its size from the arena start, and no order
    /// exceeds the recorded highest; every free block lies properly in
    /// some region; the counters account for every byte.
    pub closed spec fn wf(&self) -> bool {
        &&& self.free_list@.len() == 32
        &&& self.highest_order < 32
        &&& self.start <= self.end
        &&& forall|i: int|
            0 <= i < self.segs().len() ==> {
                &&& MIN_ORDER <= (#[trigger] self.segs()[i]).order <= 31
                &&& self.segs()[i].order <= self.highest_order
                &&& self.start <= self.segs()[i].base
                &&& self.segs()[i].base + pow2(self.segs()[i].order) <= self.end
                &&& (self.segs()[i].base - self.start) % (pow2(self.segs()[i].order) as int) == 0
            }
        &&& forall|k: int|
            0 <= k < 32 && (#[trigger] self.lists()[k]).len() > 0 ==> MIN_ORDER <= k
                <= self.highest_order
        &&& forall|k: int, j: int|
            0 <= k < 32 && 0 <= j < self.lists()[k].len() ==> block_in_arena(
                self.segs(),
                #[trigger] self.lists()[k][j],
                k as nat,
            )
        &&& lists_disjoint(self.lists())
        &&& self.allocated + free_bytes(self.lists()) == self.total
    }

    /// Bytes currently handed out, for diagnostics.
    pub fn allocated(&self) -> (r: usize)
        ensures
            r == self.spec_allocated(),
    {
        self.allocated
    }

    /// Usable bytes of the arena, for diagnostics.
    pub fn total(&self) -> (r: usize)
        ensures
            r == self.spec_total(),
    {
        self.total
    }

    /// How many free blocks of order `k` the allocator holds, for
    /// diagnostics and tests.
    pub fn free_count(&self, k: usize) -> (r: usize)
        requires
            self.wf(),
            k < 32,
        ensures
            r == self.lists()[k as int].len(),
    {
        self.free_list[k].len()
    }

    /// Creates a new bin allocator that will allocate memory from the
    /// region starting at address `start` and ending at address `end`,
    /// by greedily decomposing it into maximal power-of-two regions.
    #[verifier::rlimit(100)]
    pub fn new(start: usize, end: usize) -> (r: Allocator)
        requires
            start <= end,
        ensures
            r.wf(),
            r.segs() == decompose(start, end),
            r.spec_start() == start,
            r.spec_end() == end,
            r.spec_allocated() == 0,
            r.spec_total() == segs_total(decompose(start, end)),
            r.spec_free_bytes() == r.spec_total(),
            r.spec_highest_order() == if decompose(start, end).len() > 0 {
                decompose(start, end)[0].order as int
            } else {
                0
            },
            forall|k: nat| k < 32 ==> r.lists()[k as int] == class_blocks(decompose(start, end), k),
    {
        let mut free_list: Vec<FreeList> = Vec::new();
        let mut i: usize = 0;
        while i < NUM_CLASSES
            invariant
                0 <= i <= 32,
                free_list@.len() == i,
                forall|k: int| 0 <= k < i ==> (#[trigger] free_list@[k])@ == Seq::<usize>::empty(),
            decreases 32 - i,
        {
            free_list.push(FreeList::new());
            i = i + 1;
        }
        let mut segments: Vec<(usize, usize)> = Vec::new();
        let mut total: usize = 0;
        let mut highest_order: usize = 0;
        let mut lower: usize = start;
        proof {
            lemma_free_bytes_of_empties(free_list@.map_values(|l: FreeList| l@));
        }
        while lower < end && end - lower >= MIN_SIZE
            invariant
                start <= lower,
                lower <= end,
                free_list@.len() == 32,
                total == lower - start,
                total == segs_total(seg_view(segments@)),
                free_bytes(free_list@.map_values(|l: FreeList| l@)) == total,
                seg_view(segments@) + decompose(lower, end) =~= decompose(start, end),
                highest_order < 32,
                highest_order == if segments@.len() > 0 {
                    seg_view(segments@)[0].order as int
                } else {
                    0
                },
                segments@.len() > 0 ==> {
                    &&& seg_view(segments@).last().order <= highest_order
                    &&& (lower - start) % (pow2(seg_view(segments@).last().order) as int) == 0
                    &&& (seg_view(segments@).last().order < 31 ==> end - lower < pow2(
                        (seg_view(segments@).last().order + 1) as nat,
                    ))
                },
                forall|i: int|
                    0 <= i < seg_view(segments@).len() ==> {
                        &&& MIN_ORDER <= (#[trigger] seg_view(segments@)[i]).order <= 31
                        &&& seg_view(segments@)[i].order <= highest_order
                        &&& start <= seg_view(segments@)[i].base
                        &&& seg_view(segments@)[i].base + pow2(seg_view(segments@)[i].order)
                            <= end
                        &&& (seg_view(segments@)[i].base - start) % (pow2(
                            seg_view(segments@)[i].order,
                        ) as int) == 0
                    },
                forall|i: int|
                    0 <= i < seg_view(segments@).len() ==> (#[trigger] seg_view(segments@)[i]).base
                        + pow2(seg_view(segments@)[i].order) <= lower,
                forall|i1: int, i2: int|
                    0 <= i1 < i2 < seg_view(segments@).len() ==> (#[trigger] seg_view(
                        segments@,
                    )[i1]).base + pow2(seg_view(segments@)[i1].order) <= (#[trigger] seg_view(
                        segments@,
                    )[i2]).base,
                forall|k: nat|
                    k < 32 ==> free_list@.map_values(|l: FreeList| l@)[k as int] == class_blocks(
                        seg_view(segments@),
                        k,
                    ),
            decreases end - lower,
        {
            let remaining = end - lower;
            let (order, block_size) = lower_power_of_two(remaining);
            let (order, block_size) = if order > 31 {
                let bs = pow2_exec(31);
                (31usize, bs)
            } else {
                (order, block_size)
            };
            proof {
                lemma_cap_order_fits(remaining as int);
                assert(order == cap_order(remaining as int));
                assert(block_size == pow2(cap_order(remaining as int)));
            }
            let ghost old_segs = seg_view(segments@);
            let ghost old_lists = free_list@.map_values(|l: FreeList| l@);
            let ghost seg = Segment { base: lower, order: order as nat };
            proof {
                if segments@.len() > 0 {
                    // The new order never exceeds the previous one, so
                    // the cursor stays aligned for the new region.
                    lemma_next_order_le(old_segs.last().order, remaining as int);
                    lemma_pow2_multiple_divides(
                        lower - start,
                        old_segs.last().order,
                        order as nat,
                    );
                }
            }
            if segments.len() == 0 {
                highest_order = order;
            }
            proof {
                if old_segs.len() == 0 {
                    assert(lower == start);
                }
                lemma_pow2_pos(order as nat);
                lemma_small_mod(0, pow2(order as nat));
                assert((lower - start) % (pow2(order as nat) as int) == 0);
            }
            segments.push((lower, order));
            self_push(&mut free_list, order, lower);
            proof {
                assert(seg_view(segments@) =~= old_segs.push(seg));
                assert(seg_view(segments@).drop_last() =~= old_segs);
                lemma_class_blocks_push(old_segs, seg);
                assert forall|k: nat| k < 32 implies free_list@.map_values(|l: FreeList| l@)[
                    k as int
                ] == class_blocks(seg_view(segments@), k) by {
                    if k == order as nat {
                        assert(free_list@.map_values(|l: FreeList| l@)[k as int] == old_lists[
                            k as int
                        ].push(lower));
                    }
                }
                assert(segs_total(seg_view(segments@)) == segs_total(old_segs) + pow2(
                    order as nat,
                ));
                assert forall|i: int|
                    0 <= i < seg_view(segments@).len() implies {
                        &&& MIN_ORDER <= (#[trigger] seg_view(segments@)[i]).order <= 31
                        &&& seg_view(segments@)[i].order <= highest_order
                        &&& start <= seg_view(segments@)[i].base
                        &&& seg_view(segments@)[i].base + pow2(seg_view(segments@)[i].order)
                            <= end
                        &&& (seg_view(segments@)[i].base - start) % (pow2(
                            seg_view(segments@)[i].order,
                        ) as int) == 0
                    } by {
                    if i < old_segs.len() {
                        assert(seg_view(segments@)[i] == old_segs[i]);
                    } else {
                        assert(seg_view(segments@)[i] == seg);
                    }
                }
                assert forall|i1: int, i2: int|
                    0 <= i1 < i2 < seg_view(segments@).len() implies (#[trigger] seg_view(
                    segments@,
                )[i1]).base + pow2(seg_view(segments@)[i1].order) <= (#[trigger] seg_view(
                    segments@,
                )[i2]).base by {
                    assert(seg_view(segments@)[i1] == old_segs[i1]);
                    if i2 < old_segs.len() {
                        assert(seg_view(segments@)[i2] == old_segs[i2]);
                    } else {
                        assert(seg_view(segments@)[i2] == seg);
                    }
                }
            }
            total = total + block_size;
            lower = lower + block_size;
            proof {
                if order < 31 {
                    lemma_flog2_bounds(remaining as int);
                }
                lemma_mod_multiples_basic(1, pow2(order as nat) as int);
                lemma_small_mod(0, pow2(order as nat));
                lemma_add_mod_noop(
                    seg.base - start,
                    pow2(order as nat) as int,
                    pow2(order as nat) as int,
                );
                assert((lower - start) % (pow2(order as nat) as int) == 0);
                assert forall|i: int|
                    0 <= i < seg_view(segments@).len() implies (#[trigger] seg_view(
                    segments@,
                )[i]).base + pow2(seg_view(segments@)[i].order) <= lower by {
                    if i < old_segs.len() {
                        assert(seg_view(segments@)[i] == old_segs[i]);
                    } else {
                        assert(seg_view(segments@)[i] == seg);
                    }
                }
            }
        }
        proof {
            assert(decompose(lower, end) =~= Seq::<Segment>::empty());
        }
        let r = Allocator { free_list, allocated: 0, total, highest_order, start, end, segments };
        proof {
            assert(r.segs() =~= seg_view(r.segments@));
            assert(r.segs() =~= decompose(start, end));
            assert(r.free_list@.len() == 32);
            assert(r.highest_order < 32);
            assert(r.start <= r.end);
            assert(r.allocated + free_bytes(r.lists()) == r.total);
            assert(forall|i: int|
                0 <= i < r.segs().len() ==> {
                    &&& MIN_ORDER <= (#[trigger] r.segs()[i]).order <= 31
                    &&& r.segs()[i].order <= r.highest_order
                    &&& r.start <= r.segs()[i].base
                    &&& r.segs()[i].base + pow2(r.segs()[i].order) <= r.end
                    &&& (r.segs()[i].base - r.start) % (pow2(r.segs()[i].order) as int) == 0
                });
            assert forall|k: int|
                0 <= k < 32 && (#[trigger] r.lists()[k]).len() > 0 implies MIN_ORDER <= k
                <= r.highest_order by {
                assert(r.lists()[k] == class_blocks(r.segs(), k as nat));
                lemma_class_blocks_are_bases(r.segs(), k as nat, 0);
                let i = choose|i: int|
                    0 <= i < r.segs().len() && (#[trigger] r.segs()[i]).order == k as nat
                        && r.segs()[i].base == class_blocks(r.segs(), k as nat)[0];
                assert(MIN_ORDER <= r.segs()[i].order <= r.highest_order);
            }
            assert forall|k: int, j: int|
                0 <= k < 32 && 0 <= j < r.lists()[k].len() implies block_in_arena(
                r.segs(),
                #[trigger] r.lists()[k][j],
                k as nat,
            ) by {
                assert(r.lists()[k] == class_blocks(r.segs(), k as nat));
                lemma_class_blocks_are_bases(r.segs(), k as nat, j);
            }
            assert forall|k1: int, i1: int, k2: int, i2: int|
                0 <= k1 < 32 && 0 <= i1 < r.lists()[k1].len() && 0 <= k2 < 32 && 0 <= i2
                    < r.lists()[k2].len() && !(k1 == k2 && i1 == i2) implies blocks_disjoint(
                #[trigger] r.lists()[k1][i1],
                k1 as nat,
                #[trigger] r.lists()[k2][i2],
                k2 as nat,
            ) by {
                assert(r.lists()[k1] == class_blocks(r.segs(), k1 as nat));
                assert(r.lists()[k2] == class_blocks(r.segs(), k2 as nat));
                lemma_class_blocks_are_bases(r.segs(), k1 as nat, i1);
                lemma_class_blocks_are_bases(r.segs(), k2 as nat, i2);
                let s1 = choose|i: int|
                    0 <= i < r.segs().len() && (#[trigger] r.segs()[i]).order == k1 as nat
                        && r.segs()[i].base == class_blocks(r.segs(), k1 as nat)[i1];
                let s2 = choose|i: int|
                    0 <= i < r.segs().len() && (#[trigger] r.segs()[i]).order == k2 as nat
                        && r.segs()[i].base == class_blocks(r.segs(), k2 as nat)[i2];
                lemma_pow2_pos(k1 as nat);
                lemma_pow2_pos(k2 as nat);
                if s1 == s2 {
                    // Same region, hence the same class and address:
                    // within a class addresses strictly increase, so
                    // the indices would have to coincide.
                    assert(k1 == k2);
                    lemma_class_blocks_increasing(r.segs(), k1 as nat);
                    assert(false);
                } else if s1 < s2 {
                    assert(r.segs()[s1].base + pow2(r.segs()[s1].order) <= r.segs()[s2].base);
                } else {
                    assert(r.segs()[s2].base + pow2(r.segs()[s2].order) <= r.segs()[s1].base);
                }
            }
        }
        r
    }

    /// Allocates memory: the request is rounded up to the next power of
    /// two and served from that size class, splitting a larger free
    /// block in half repeatedly when the class is empty.
    ///
    /// A malformed request (zero size, or an alignment that is zero or
    /// not a power of two) fails with `InvalidRequest`.  When no class
    /// at or above the serving order holds a free block the request
    /// fails with `Exhausted`.  A failed call leaves the allocator
    /// exactly as it was; a successful call hands out the most recently
    /// freed block of the smallest non-empty class at or above the
    /// serving order — the resulting free lists are pinned exactly by
    /// `split_lists` — placed inside the arena at a multiple of its own
    /// size (and so of the requested alignment) from the arena start,
    /// and moves exactly its size from the free byte count to the
    /// allocated byte count.
    #[verifier::rlimit(100)]
    pub fn allocate(&mut self, layout: Layout) -> (r: Result<usize, AllocErr>)
        requires
            old(self).wf(),
        ensures
            final(self).wf(),
            final(self).spec_start() == old(self).spec_start(),
            final(self).spec_end() == old(self).spec_end(),
            final(self).spec_total() == old(self).spec_total(),
            final(self).spec_highest_order() == old(self).spec_highest_order(),
            final(self).segs() == old(self).segs(),
            r == Err::<usize, AllocErr>(AllocErr::InvalidRequest) <==> !layout.valid(),
            r == Err::<usize, AllocErr>(AllocErr::Exhausted) <==> layout.valid() && !can_serve(
                old(self).lists(),
                serving_order(layout.size as int, layout.align as int),
            ),
            r is Err ==> final(self).lists() == old(self).lists() && final(self).spec_allocated()
                == old(self).spec_allocated(),
            r is Ok <==> layout.valid() && can_serve(
                old(self).lists(),
                serving_order(layout.size as int, layout.align as int),
            ),
            r matches Ok(addr) ==> {
                let k = serving_order(layout.size as int, layout.align as int);
                &&& final(self).spec_allocated() == old(self).spec_allocated() + pow2(k)
                &&& final(self).spec_free_bytes() == old(self).spec_free_bytes() - pow2(k)
                &&& old(self).spec_start() <= addr
                &&& addr + pow2(k) <= old(self).spec_end()
                &&& layout.size <= pow2(k)
                &&& (addr - old(self).spec_start()) % (pow2(k) as int) == 0
                &&& (addr - old(self).spec_start()) % (layout.align as int) == 0
                &&& (old(self).spec_start() as int % (layout.align as int) == 0 ==> addr as int
                    % (layout.align as int) == 0)
                &&& block_in_arena(old(self).segs(), addr, k)
                &&& final(self).valid_dealloc(addr, layout)
                &&& exists|jj: int|
                    {
                        &&& k <= jj < 32
                        &&& (#[trigger] old(self).lists()[jj]).len() > 0
                        &&& (forall|i: int|
                            k <= i < jj ==> (#[trigger] old(self).lists()[i]).len() == 0)
                        &&& addr == old(self).lists()[jj].last() + pow2(jj as nat) - pow2(k)
                        &&& final(self).lists() == split_lists(
                            old(self).lists().update(jj, old(self).lists()[jj].drop_last()),
                            old(self).lists()[jj].last(),
                            jj as nat,
                            k,
                        )
                    }
            },
    {
        if layout.size == 0 || !is_power_of_two(layout.align) {
            return Err(AllocErr::InvalidRequest);
        }
        let (order, block_size) = match compute_order(layout.size, layout.align) {
            Some(p) => p,
            None => {
                return Err(AllocErr::Exhausted);
            },
        };
        let ghost k = serving_order(layout.size as int, layout.align as int);
        let mut j: usize = order;
        while j < NUM_CLASSES && self.free_list[j].is_empty()
            invariant
                *self == *old(self),
                old(self).wf(),
                self.free_list@.len() == 32,
                order <= j <= 32,
                forall|i: int| order <= i < j ==> (#[trigger] self.lists()[i]).len() == 0,
            decreases 32 - j,
        {
            j = j + 1;
        }
        if j == NUM_CLASSES {
            return Err(AllocErr::Exhausted);
        }
        proof {
            assert(old(self).lists()[j as int].len() > 0);
            assert(can_serve(old(self).lists(), k));
            assert(forall|i: int|
                order <= i < j ==> (#[trigger] old(self).lists()[i]).len() == 0);
        }
        let ghost j0 = j as int;
        let ghost b0 = old(self).lists()[j0].last();
        let ghost base_lists = old(self).lists().update(j0, old(self).lists()[j0].drop_last());
        while j > order
            invariant
                self.wf(),
                self.free_list@.len() == 32,
                order <= j <= j0 < 32,
                MIN_ORDER <= order,
                order as nat == k,
                self.lists()[j as int].len() > 0,
                free_bytes(self.lists()) == free_bytes(old(self).lists()),
                self.allocated == old(self).allocated,
                self.total == old(self).total,
                self.start == old(self).start,
                self.end == old(self).end,
                self.highest_order == old(self).highest_order,
                self.segments@ == old(self).segments@,
                b0 == old(self).lists()[j0].last(),
                base_lists == old(self).lists().update(
                    j0,
                    old(self).lists()[j0].drop_last(),
                ),
                self.lists()[j as int].last() == b0 + pow2(j0 as nat) - pow2(j as nat),
                split_lists(base_lists, b0, j0 as nat, order as nat) == split_lists(
                    self.lists().update(j as int, self.lists()[j as int].drop_last()),
                    self.lists()[j as int].last(),
                    j as nat,
                    order as nat,
                ),
            decreases j,
        {
            let ghost before = self.lists();
            let ghost segs = self.segs();
            let b = self_pop(&mut self.free_list, j);
            proof {
                assert(before[j as int][before[j as int].len() - 1] == b);
                assert(block_in_arena(segs, b, j as nat));
            }
            let ghost si = lemma_block_seg(segs, b, j as nat);
            proof {
                lemma2_to64();
                lemma_pow2_pos((j - 1) as nat);
                lemma_pow2_adds(1, (j - 1) as nat);
                assert(b + pow2((j - 1) as nat) < b + pow2(j as nat));
                assert(b + pow2(j as nat) <= segs[si].base + pow2(segs[si].order));
                assert(segs[si].base + pow2(segs[si].order) <= self.end);
            }
            j = j - 1;
            let half = pow2_exec(j);
            let second = b + half;
            self_push(&mut self.free_list, j, b);
            self_push(&mut self.free_list, j, second);
            proof {
                let after = self.lists();
                assert(after =~= before.update(
                    (j + 1) as int,
                    before[(j + 1) as int].drop_last(),
                ).update(j as int, before[j as int].push(b).push(second)));
                lemma2_to64();
                lemma_pow2_adds(1, j as nat);
                // The two halves lie in the same region as the block
                // that was split.
                let seg = segs[si];
                lemma_pow2_multiple_divides(b - seg.base, (j + 1) as nat, j as nat);
                lemma_pow2_pos(j as nat);
                lemma_mod_multiples_basic(1, pow2(j as nat) as int);
                lemma_add_mod_noop(b - seg.base, pow2(j as nat) as int, pow2(j as nat) as int);
                lemma_small_mod(0, pow2(j as nat));
                assert(block_in_segment(seg, b, j as nat));
                assert(block_in_segment(seg, second, j as nat));
                assert(block_in_arena(segs, b, j as nat));
                assert(block_in_arena(segs, second, j as nat));
                assert forall|k2: int, j2: int|
                    0 <= k2 < 32 && 0 <= j2 < after[k2].len() implies block_in_arena(
                    segs,
                    #[trigger] after[k2][j2],
                    k2 as nat,
                ) by {
                    if k2 == j as int {
                        if j2 < before[k2].len() {
                            assert(after[k2][j2] == before[k2][j2]);
                        } else if j2 == before[k2].len() {
                            assert(after[k2][j2] == b);
                        } else {
                            assert(after[k2][j2] == second);
                        }
                    } else if k2 == j + 1 {
                        assert(after[k2][j2] == before[k2][j2]);
                    } else {
                        assert(after[k2][j2] == before[k2][j2]);
                    }
                }
                assert forall|k2: int|
                    0 <= k2 < 32 && (#[trigger] after[k2]).len() > 0 implies MIN_ORDER <= k2
                    <= self.highest_order by {
                    if k2 == j as int {
                        assert(before[(j + 1) as int].len() > 0);
                    } else {
                        assert(before[k2].len() >= after[k2].len());
                    }
                }
                // One split step advances the exact shape by one
                // unfolding: the lower half stays recorded and the
                // upper half is the block split next.
                let mid = before.update((j + 1) as int, before[(j + 1) as int].drop_last());
                assert(before[(j + 1) as int].last() == b);
                assert(after[j as int].last() == second);
                assert(second == (b + pow2(j as nat)) as usize);
                assert(after[j as int].drop_last() =~= mid[j as int].push(b));
                assert(after.update(j as int, after[j as int].drop_last()) =~= mid.update(
                    j as int,
                    mid[j as int].push(b),
                ));
                assert(split_lists(mid, b, (j + 1) as nat, order as nat) == split_lists(
                    after.update(j as int, after[j as int].drop_last()),
                    second,
                    j as nat,
                    order as nat,
                ));
            }
        }
        let ghost pre = self.lists();
        let ghost segs = self.segs();
        proof {
            assert(pre[order as int][pre[order as int].len() - 1] == pre[order as int].last());
        }
        let addr = self_pop(&mut self.free_list, order);
        let ghost si = lemma_block_seg(segs, addr, order as nat);
        proof {
            let seg = segs[si];
            lemma_pow2_multiple_divides(seg.base - self.start, seg.order, order as nat);
            lemma_add_mod_noop(
                seg.base - self.start,
                addr - seg.base,
                pow2(order as nat) as int,
            );
            lemma_small_mod(0, pow2(order as nat));
            lemma_pow2_pos(order as nat);
            assert((addr - self.start) % (pow2(order as nat) as int) == 0);
            lemma_align_divides_block(addr - self.start, layout.align as int, order as nat);
            lemma_pow2_at_least_one(layout.align as int);
            if self.start as int % (layout.align as int) == 0 {
                lemma_add_mod_noop(self.start as int, addr - self.start, layout.align as int);
                lemma_small_mod(0, layout.align as nat);
                assert(addr as int % (layout.align as int) == 0);
            }
            assert(pre[order as int].last() == addr);
            assert(self.lists() == pre.update(order as int, pre[order as int].drop_last()));
            assert(split_lists(base_lists, b0, j0 as nat, order as nat) == self.lists());
            assert(addr == b0 + pow2(j0 as nat) - pow2(order as nat));
            lemma_free_bytes_nonneg(self.lists());
            assert forall|k2: int, j2: int|
                0 <= k2 < 32 && 0 <= j2 < self.lists()[k2].len() implies block_in_arena(
                segs,
                #[trigger] self.lists()[k2][j2],
                k2 as nat,
            ) by {
                assert(self.lists()[k2][j2] == pre[k2][j2]);
            }
            assert forall|k2: int|
                0 <= k2 < 32 && (#[trigger] self.lists()[k2]).len() > 0 implies MIN_ORDER <= k2
                <= self.highest_order by {
                assert(pre[k2].len() >= self.lists()[k2].len());
            }
        }
        self.allocated = self.allocated + block_size;
        proof {
            assert(serving_order(layout.size as int, layout.align as int) <= 31);
            assert(block_in_arena(self.segs(), addr, order as nat));
        }
        Ok(addr)
    }

    /// Every class above the recorded highest order is empty, so a
    /// caller that has drained the classes up to `highest_order` knows
    /// the whole arena is consumed and the next request of any size is
    /// refused as exhausted.
    pub proof fn lemma_high_classes_empty(&self)
        requires
            self.wf(),
        ensures
            forall|k: int|
                self.spec_highest_order() < k < 32 ==> (#[trigger] self.lists()[k]).len() == 0,
    {
        assert forall|k: int|
            self.spec_highest_order() < k < 32 implies (#[trigger] self.lists()[k]).len()
            == 0 by {
            if self.lists()[k].len() > 0 {
                assert(k <= self.spec_highest_order());
            }
        }
    }

    /// Whether a release request is consistent with this allocator: the
    /// layout is well-formed, its serving order is a real size class,
    /// the pointer denotes a block of that order lying properly in one
    /// of the arena's regions, and at least that many bytes are
    /// currently allocated.  Anything else is a caller bug.
    pub open spec fn valid_dealloc(&self, ptr: usize, layout: Layout) -> bool {
        &&& layout.valid()
        &&& serving_order(layout.size as int, layout.align as int) <= 31
        &&& block_in_arena(
            self.segs(),
            ptr,
            serving_order(layout.size as int, layout.align as int),
        )
        &&& pow2(serving_order(layout.size as int, layout.align as int)) <= self.spec_allocated()
        &&& block_disjoint_from_free(
            self.lists(),
            ptr,
            serving_order(layout.size as int, layout.align as int),
        )
    }

    /// Finds the region that properly contains a block of order `order`
    /// at `ptr`, if any does.
    fn find_segment(&self, ptr: usize, order: usize, bs: usize) -> (r: Option<usize>)
        requires
            self.wf(),
            order <= 31,
            bs == pow2(order as nat),
        ensures
            r is Some <==> block_in_arena(self.segs(), ptr, order as nat),
            r matches Some(i) ==> 0 <= i < self.segs().len() && block_in_segment(
                self.segs()[i as int],
                ptr,
                order as nat,
            ),
    {
        let n = self.segments.len();
        let mut i: usize = 0;
        while i < n
            invariant
                self.wf(),
                order <= 31,
                bs == pow2(order as nat),
                n == self.segments@.len(),
                0 <= i <= n,
                forall|i2: int|
                    0 <= i2 < i ==> !block_in_segment(
                        #[trigger] self.segs()[i2],
                        ptr,
                        order as nat,
                    ),
            decreases n - i,
        {
            let (base, sord) = self.segments[i];
            proof {
                assert(self.segs()[i as int] == Segment { base, order: sord as nat });
                lemma_pow2_pos(order as nat);
            }
            let ssize = pow2_exec(sord);
            if order <= sord && base <= ptr {
                proof {
                    lemma_pow2_le(order as nat, sord as nat);
                }
                let off = ptr - base;
                if off <= ssize - bs && off % bs == 0 {
                    proof {
                        lemma_pow2_pos(order as nat);
                        assert(block_in_segment(self.segs()[i as int], ptr, order as nat));
                    }
                    return Some(i);
                }
            }
            proof {
                lemma_pow2_pos(order as nat);
                assert(!block_in_segment(self.segs()[i as int], ptr, order as nat));
            }
            i = i + 1;
        }
        proof {
            assert(!block_in_arena(self.segs(), ptr, order as nat));
        }
        None
    }

    /// Deallocates the block of memory at `ptr` that was obtained for
    /// `layout`: the serving order is recomputed exactly as allocation
    /// computed it, and the block is merged with its buddy as long as
    /// the buddy is free and the merged block stays inside the region
    /// the block belongs to; what results is recorded as free.  The
    /// resulting free lists are pinned exactly by `merge_lists`.
    ///
    /// A release that this allocator cannot have produced — a malformed
    /// layout, a pointer that does not denote a block of the serving
    /// order inside the arena, a block that overlaps memory already
    /// free (a double release), or more bytes than are allocated — is a
    /// caller bug, reported as `InvalidRequest` with nothing changed.
    /// A successful release moves exactly the block's size from the
    /// allocated byte count back to the free byte count.
    #[verifier::rlimit(100)]
    pub fn deallocate(&mut self, ptr: usize, layout: Layout) -> (r: Result<(), AllocErr>)
        requires
            old(self).wf(),
        ensures
            final(self).wf(),
            final(self).spec_start() == old(self).spec_start(),
            final(self).spec_end() == old(self).spec_end(),
            final(self).spec_total() == old(self).spec_total(),
            final(self).spec_highest_order() == old(self).spec_highest_order(),
            final(self).segs() == old(self).segs(),
            r == Ok::<(), AllocErr>(()) <==> old(self).valid_dealloc(ptr, layout),
            r is Err ==> r == Err::<(), AllocErr>(AllocErr::InvalidRequest) && final(self).lists()
                == old(self).lists() && final(self).spec_allocated() == old(
                self,
            ).spec_allocated(),
            r is Ok ==> {
                let k = serving_order(layout.size as int, layout.align as int);
                &&& final(self).spec_allocated() == old(self).spec_allocated() - pow2(k)
                &&& final(self).spec_free_bytes() == old(self).spec_free_bytes() + pow2(k)
                &&& exists|si: int|
                    {
                        &&& 0 <= si < old(self).segs().len()
                        &&& block_in_segment(#[trigger] old(self).segs()[si], ptr, k)
                        &&& final(self).lists() == merge_lists(
                            old(self).lists(),
                            old(self).segs()[si],
                            ptr,
                            k,
                        )
                    }
            },
    {
        if layout.size == 0 || !is_power_of_two(layout.align) {
            return Err(AllocErr::InvalidRequest);
        }
        let (order, block_size) = match compute_order(layout.size, layout.align) {
            Some(p) => p,
            None => {
                return Err(AllocErr::InvalidRequest);
            },
        };
        let si = match self.find_segment(ptr, order, block_size) {
            Some(i) => i,
            None => {
                return Err(AllocErr::InvalidRequest);
            },
        };
        if self.allocated < block_size {
            return Err(AllocErr::InvalidRequest);
        }
        let (seg_base, seg_order) = self.segments[si];
        let ghost seg = self.segs()[si as int];
        proof {
            assert(seg == Segment { base: seg_base, order: seg_order as nat });
        }
        let seg_size = pow2_exec(seg_order);
        // The block must not overlap anything that is already free: a
        // release of free memory is a double release, a caller bug.
        let hi = ptr + block_size;
        let mut scan: usize = 0;
        while scan < NUM_CLASSES
            invariant
                *self == *old(self),
                old(self).wf(),
                self.free_list@.len() == 32,
                order <= 31,
                order as nat == serving_order(layout.size as int, layout.align as int),
                hi == ptr + pow2(order as nat),
                0 <= scan <= 32,
                forall|kk: int, ii: int|
                    0 <= kk < scan && 0 <= ii < self.lists()[kk].len() ==> blocks_disjoint(
                        ptr,
                        order as nat,
                        #[trigger] self.lists()[kk][ii],
                        kk as nat,
                    ),
            decreases 32 - scan,
        {
            let bs2 = pow2_exec(scan);
            proof {
                lemma_pow2_pos(scan as nat);
            }
            if self.free_list[scan].overlaps_any(ptr, hi, bs2) {
                proof {
                    let l = self.free_list@[scan as int]@;
                    assert(self.lists()[scan as int] == l);
                    let i = choose|i: int| 0 <= i < l.len() && (#[trigger] l[i]) < hi && ptr < l[i] + bs2;
                    assert(!blocks_disjoint(ptr, order as nat, l[i], scan as nat));
                    assert(!block_disjoint_from_free(old(self).lists(), ptr, order as nat)) by {
                        assert(old(self).lists()[scan as int][i] == l[i]);
                        assert(!blocks_disjoint(
                            ptr,
                            order as nat,
                            old(self).lists()[scan as int][i],
                            scan as nat,
                        ));
                    }
                    assert(serving_order(layout.size as int, layout.align as int) == order as nat);
                    assert(!block_disjoint_from_free(
                        old(self).lists(),
                        ptr,
                        serving_order(layout.size as int, layout.align as int),
                    ));
                    assert(!old(self).valid_dealloc(ptr, layout));
                }
                return Err(AllocErr::InvalidRequest);
            }
            scan = scan + 1;
        }
        proof {
            assert(block_disjoint_from_free(old(self).lists(), ptr, order as nat));
            assert(old(self).valid_dealloc(ptr, layout));
        }
        let ghost fb0 = free_bytes(self.lists());
        let mut cur = ptr;
        let mut k = order;
        let mut bs = block_size;
        while k < seg_order
            invariant
                self.free_list@.len() == 32,
                self.highest_order < 32,
                self.start <= self.end,
                self.allocated == old(self).allocated,
                self.total == old(self).total,
                self.start == old(self).start,
                self.end == old(self).end,
                self.highest_order == old(self).highest_order,
                self.segments@ == old(self).segments@,
                old(self).wf(),
                0 <= si < self.segs().len(),
                seg == self.segs()[si as int],
                seg.base == seg_base,
                seg.order == seg_order as nat,
                seg_size == pow2(seg_order as nat),
                MIN_ORDER <= order <= k <= seg_order <= 31,
                bs == pow2(k as nat),
                block_in_segment(seg, cur, k as nat),
                free_bytes(self.lists()) + pow2(k as nat) == fb0 + pow2(order as nat),
                fb0 == free_bytes(old(self).lists()),
                merge_lists(old(self).lists(), seg, ptr, order as nat) == merge_lists(
                    self.lists(),
                    seg,
                    cur,
                    k as nat,
                ),
                lists_disjoint(self.lists()),
                block_disjoint_from_free(self.lists(), cur, k as nat),
                forall|k2: int, j2: int|
                    0 <= k2 < 32 && 0 <= j2 < self.lists()[k2].len() ==> block_in_arena(
                        self.segs(),
                        #[trigger] self.lists()[k2][j2],
                        k2 as nat,
                    ),
                forall|k2: int|
                    0 <= k2 < 32 && (#[trigger] self.lists()[k2]).len() > 0 ==> MIN_ORDER <= k2
                        <= self.highest_order,
            ensures
                self.free_list@.len() == 32,
                self.allocated == old(self).allocated,
                self.total == old(self).total,
                self.start == old(self).start,
                self.end == old(self).end,
                self.highest_order == old(self).highest_order,
                self.segments@ == old(self).segments@,
                MIN_ORDER <= order <= k <= seg_order <= 31,
                block_in_segment(seg, cur, k as nat),
                free_bytes(self.lists()) + pow2(k as nat) == fb0 + pow2(order as nat),
                merge_lists(old(self).lists(), seg, ptr, order as nat) == merge_lists(
                    self.lists(),
                    seg,
                    cur,
                    k as nat,
                ),
                merge_lists(self.lists(), seg, cur, k as nat) == self.lists().update(
                    k as int,
                    self.lists()[k as int].push(cur),
                ),
                lists_disjoint(self.lists()),
                block_disjoint_from_free(self.lists(), cur, k as nat),
                forall|k2: int, j2: int|
                    0 <= k2 < 32 && 0 <= j2 < self.lists()[k2].len() ==> block_in_arena(
                        self.segs(),
                        #[trigger] self.lists()[k2][j2],
                        k2 as nat,
                    ),
                forall|k2: int|
                    0 <= k2 < 32 && (#[trigger] self.lists()[k2]).len() > 0 ==> MIN_ORDER <= k2
                        <= self.highest_order,
            decreases seg_order - k,
        {
            proof {
                lemma_pow2_pos(k as nat);
                lemma2_to64();
                lemma_pow2_adds(1, k as nat);
                assert(old(self).segs()[si as int].base + pow2(old(self).segs()[si as int].order)
                    <= old(self).end);
            }
            let off = cur - seg_base;
            let q = off / bs;
            proof {
                lemma_fundamental_div_mod(off as int, bs as int);
                assert(off == bs * q);
            }
            let double = bs * 2;
            let buddy: usize;
            if q % 2 == 0 {
                if double > seg_size - off {
                    proof {
                        assert(merge_lists(self.lists(), seg, cur, k as nat) == self.lists()
                            .update(k as int, self.lists()[k as int].push(cur)));
                    }
                    break ;
                }
                buddy = cur + bs;
            } else {
                proof {
                    assert(bs * q >= bs * 1) by (nonlinear_arith)
                        requires
                            q >= 1,
                            bs >= 1,
                    ;
                }
                buddy = cur - bs;
            }
            let ghost before = self.lists();
            let ghost prev_cur = cur;
            let ghost prev_k = k as nat;
            if self_remove(&mut self.free_list, k, buddy) {
                proof {
                    let i = choose|i: int|
                        {
                            &&& 0 <= i < before[k as int].len()
                            &&& #[trigger] before[k as int][i] == buddy
                            &&& self.lists() == before.update(
                                k as int,
                                before[k as int].remove(i),
                            )
                        };
                    assert forall|k2: int, j2: int|
                        0 <= k2 < 32 && 0 <= j2 < self.lists()[k2].len() implies block_in_arena(
                        self.segs(),
                        #[trigger] self.lists()[k2][j2],
                        k2 as nat,
                    ) by {
                        if k2 == k as int {
                            if j2 < i {
                                assert(self.lists()[k2][j2] == before[k2][j2]);
                            } else {
                                assert(self.lists()[k2][j2] == before[k2][j2 + 1]);
                            }
                        } else {
                            assert(self.lists()[k2][j2] == before[k2][j2]);
                        }
                    }
                    assert forall|k2: int|
                        0 <= k2 < 32 && (#[trigger] self.lists()[k2]).len() > 0 implies MIN_ORDER
                        <= k2 <= self.highest_order by {
                        assert(before[k2].len() >= self.lists()[k2].len());
                    }
                    // The merged block is aligned to the next order and
                    // stays inside the region.
                    let t = q as int / 2;
                    lemma_fundamental_div_mod(q as int, 2);
                    vstd::arithmetic::div_mod::lemma_mod_bound(q as int, 2);
                    if q % 2 == 0 {
                        assert(off == t * (pow2((k + 1) as nat) as int)) by (nonlinear_arith)
                            requires
                                off == (pow2(k as nat) as int) * q,
                                q == 2 * t,
                                pow2((k + 1) as nat) == 2 * pow2(k as nat),
                        ;
                        lemma_mod_multiples_basic(t, pow2((k + 1) as nat) as int);
                        assert((cur - seg_base) % (pow2((k + 1) as nat) as int) == 0);
                    } else {
                        assert(off - pow2(k as nat) == t * (pow2((k + 1) as nat) as int))
                            by (nonlinear_arith)
                            requires
                                off == (pow2(k as nat) as int) * q,
                                q == 2 * t + 1,
                                pow2((k + 1) as nat) == 2 * pow2(k as nat),
                        ;
                        lemma_mod_multiples_basic(t, pow2((k + 1) as nat) as int);
                        assert((buddy - seg_base) % (pow2((k + 1) as nat) as int) == 0);
                    }
                }
                if buddy < cur {
                    cur = buddy;
                }
                k = k + 1;
                bs = double;
                proof {
                    assert(block_in_segment(seg, cur, k as nat));
                    let i = choose|i: int|
                        {
                            &&& 0 <= i < before[prev_k as int].len()
                            &&& #[trigger] before[prev_k as int][i] == buddy
                            &&& self.lists() == before.update(
                                prev_k as int,
                                before[prev_k as int].remove(i),
                            )
                        };
                    // The spec picks some index of the buddy; since free
                    // blocks are disjoint, an address appears in a class
                    // at most once, so it picks the same one.
                    let i2 = choose|i2: int|
                        0 <= i2 < before[prev_k as int].len() && before[prev_k as int][i2]
                            == buddy;
                    assert(i2 == i) by {
                        if i2 != i {
                            assert(blocks_disjoint(
                                before[prev_k as int][i],
                                prev_k,
                                before[prev_k as int][i2],
                                prev_k,
                            ));
                            lemma_pow2_pos(prev_k);
                        }
                    }
                    assert(merge_lists(before, seg, prev_cur, prev_k) == merge_lists(
                        self.lists(),
                        seg,
                        cur,
                        k as nat,
                    ));
                    // The merged block is disjoint from everything that
                    // stays free: its two halves each were.
                    assert forall|k2: int, i2a: int|
                        0 <= k2 < 32 && 0 <= i2a < self.lists()[k2].len() implies blocks_disjoint(
                        cur,
                        k as nat,
                        #[trigger] self.lists()[k2][i2a],
                        k2 as nat,
                    ) by {
                        if k2 == prev_k as int && i2a >= i {
                            assert(self.lists()[k2][i2a] == before[k2][i2a + 1]);
                            assert(blocks_disjoint(prev_cur, prev_k, before[k2][i2a + 1], k2 as nat));
                            assert(blocks_disjoint(buddy, prev_k, before[k2][i2a + 1], k2 as nat));
                        } else {
                            assert(self.lists()[k2][i2a] == before[k2][i2a]);
                            assert(blocks_disjoint(prev_cur, prev_k, before[k2][i2a], k2 as nat));
                            assert(blocks_disjoint(buddy, prev_k, before[k2][i2a], k2 as nat));
                        }
                    }
                    assert forall|k1: int, i1: int, k2: int, i2a: int|
                        0 <= k1 < 32 && 0 <= i1 < self.lists()[k1].len() && 0 <= k2 < 32 && 0
                            <= i2a < self.lists()[k2].len() && !(k1 == k2 && i1 == i2a) implies
                        blocks_disjoint(
                        #[trigger] self.lists()[k1][i1],
                        k1 as nat,
                        #[trigger] self.lists()[k2][i2a],
                        k2 as nat,
                    ) by {
                        let j1 = if k1 == prev_k as int && i1 >= i { i1 + 1 } else { i1 };
                        let j2 = if k2 == prev_k as int && i2a >= i { i2a + 1 } else { i2a };
                        assert(self.lists()[k1][i1] == before[k1][j1]);
                        assert(self.lists()[k2][i2a] == before[k2][j2]);
                        assert(blocks_disjoint(before[k1][j1], k1 as nat, before[k2][j2], k2 as nat));
                    }
                }
            } else {
                proof {
                    assert(merge_lists(self.lists(), seg, cur, k as nat) == self.lists().update(
                        k as int,
                        self.lists()[k as int].push(cur),
                    ));
                }
                break ;
            }
        }
        proof {
            assert(merge_lists(self.lists(), seg, cur, k as nat) == self.lists().update(
                k as int,
                self.lists()[k as int].push(cur),
            ));
        }
        let ghost before = self.lists();
        self_push(&mut self.free_list, k, cur);
        proof {
            assert forall|k2: int, j2: int|
                0 <= k2 < 32 && 0 <= j2 < self.lists()[k2].len() implies block_in_arena(
                self.segs(),
                #[trigger] self.lists()[k2][j2],
                k2 as nat,
            ) by {
                if k2 == k as int && j2 == before[k2].len() {
                    assert(self.lists()[k2][j2] == cur);
                    assert(block_in_segment(self.segs()[si as int], cur, k as nat));
                } else {
                    assert(self.lists()[k2][j2] == before[k2][j2]);
                }
            }
            assert forall|k2: int|
                0 <= k2 < 32 && (#[trigger] self.lists()[k2]).len() > 0 implies MIN_ORDER <= k2
                <= self.highest_order by {
                if k2 != k as int {
                    assert(before[k2].len() >= self.lists()[k2].len());
                }
            }
            assert forall|k1: int, i1: int, k2: int, i2a: int|
                0 <= k1 < 32 && 0 <= i1 < self.lists()[k1].len() && 0 <= k2 < 32 && 0 <= i2a
                    < self.lists()[k2].len() && !(k1 == k2 && i1 == i2a) implies blocks_disjoint(
                #[trigger] self.lists()[k1][i1],
                k1 as nat,
                #[trigger] self.lists()[k2][i2a],
                k2 as nat,
            ) by {
                if k1 == k as int && i1 == before[k1].len() {
                    assert(self.lists()[k1][i1] == cur);
                    assert(self.lists()[k2][i2a] == before[k2][i2a]);
                    assert(blocks_disjoint(cur, k as nat, before[k2][i2a], k2 as nat));
                } else if k2 == k as int && i2a == before[k2].len() {
                    assert(self.lists()[k2][i2a] == cur);
                    assert(self.lists()[k1][i1] == before[k1][i1]);
                    assert(blocks_disjoint(cur, k as nat, before[k1][i1], k1 as nat));
                } else {
                    assert(self.lists()[k1][i1] == before[k1][i1]);
                    assert(self.lists()[k2][i2a] == before[k2][i2a]);
                }
            }
            assert(self.lists() == merge_lists(old(self).lists(), seg, ptr, order as nat));
            assert(block_in_segment(old(self).segs()[si as int], ptr, order as nat));
        }
        self.allocated = self.allocated - block_size;
        Ok(())
    }
}

/// Law: an allocate–release round trip restores the allocator's byte
/// accounting.  A successful allocation moves exactly `2^k` bytes from
/// the free count to the allocated count, where `k` is the request's
/// serving order, and leaves a state that accepts the returned block
/// for release with the same layout (the final clause of `allocate`'s
/// contract); releasing it moves the same `2^k` bytes back, so both
/// counters return to their pre-allocation values and no free space is
/// lost to fragmentation.
pub proof fn lemma_round_trip_restores_counters(
    layout: Layout,
    allocated0: int,
    free0: int,
    allocated1: int,
    free1: int,
    allocated2: int,
    free2: int,
)
    requires
        allocated1 == allocated0 + pow2(serving_order(layout.size as int, layout.align as int)),
        free1 == free0 - pow2(serving_order(layout.size as int, layout.align as int)),
        allocated2 == allocated1 - pow2(serving_order(layout.size as int, layout.align as int)),
        free2 == free1 + pow2(serving_order(layout.size as int, layout.align as int)),
    ensures
        allocated2 == allocated0,
        free2 == free0,
{
}

/// The region that a well-placed block lies in.
proof fn lemma_block_seg(segs: Seq<Segment>, addr: usize, k: nat) -> (i: int)
    requires
        block_in_arena(segs, addr, k),
    ensures
        0 <= i < segs.len(),
        block_in_segment(segs[i], addr, k),
{
    choose|i: int| 0 <= i < segs.len() && block_in_segment(#[trigger] segs[i], addr, k)
}

/// Computes the order that serves a request, with its block size, or
/// nothing when even the largest class is too small.
fn compute_order(size: usize, align: usize) -> (r: Option<(usize, usize)>)
    requires
        size >= 1,
        is_pow2(align as int),
    ensures
        r is Some <==> serving_order(size as int, align as int) <= 31,
        r matches Some(p) ==> {
            &&& p.0 == serving_order(size as int, align as int)
            &&& p.1 == pow2(p.0 as nat)
            &&& MIN_ORDER <= p.0 <= 31
            &&& size <= p.1
            &&& align <= p.1
        },
{
    let max_block = pow2_exec(31);
    proof {
        lemma_pow2_at_least_one(align as int);
        lemma_align_up_bounds(size as int, align as int);
        lemma_multiples_spaced(align_up_spec(size as int, align as int), 0, align as int);
        lemma2_to64();
        vstd::arithmetic::power2::lemma2_to64_rest();
    }
    let ghost act = align_up_spec(size as int, align as int);
    if align > max_block || size > max_block {
        proof {
            // The rounded size is at least both, so it exceeds the
            // largest class and its ceiling exponent passes 31.
            assert(act > pow2(31));
            lemma_clog2_bounds(act);
            if clog2(act) <= 31 {
                lemma_pow2_le(clog2(act), 31);
                assert(false);
            }
        }
        return None;
    }
    proof {
        // The largest class is itself a multiple of the alignment at
        // or above the size, so rounding cannot pass it.
        lemma_divides_max_block(align as int);
        if act > pow2(31) {
            lemma_multiples_spaced(act, pow2(31) as int, align as int);
            assert(act < size + align);
            assert(false);
        }
        assert(size as int + align as int <= usize::MAX + 1);
    }
    let act_size = align_up_raw(size, align);
    let (k0, bs0) = upper_power_of_two(act_size);
    proof {
        lemma_clog2_bounds(act);
        lemma_pow2_le(clog2(act), 31);
    }
    if k0 < MIN_ORDER {
        proof {
            lemma_pow2_le(clog2(act), MIN_ORDER as nat);
        }
        Some((MIN_ORDER, MIN_SIZE))
    } else {
        Some((k0, bs0))
    }
}

/// The largest size class is a multiple of every alignment that does
/// not exceed it.
proof fn lemma_divides_max_block(align: int)
    requires
        is_pow2(align),
        align <= pow2(31),
    ensures
        (pow2(31) as int) % align == 0,
{
    vstd::arithmetic::power2::is_pow2_equiv(align);
    let a = choose|i: nat| vstd::arithmetic::power::pow(2, i) == align;
    vstd::arithmetic::power2::lemma_pow2(a);
    if a > 31 {
        lemma_pow2_strictly_increases(31, a);
        assert(false);
    }
    lemma_pow2_multiple_divides_self(31, a);
}

/// The regions recorded in the executable vector, as ghost segments.
pub open spec fn seg_view(v: Seq<(usize, usize)>) -> Seq<Segment> {
    v.map_values(|p: (usize, usize)| Segment { base: p.0, order: p.1 as nat })
}

/// Push `addr` onto class `order` of `free_list`.
fn self_push(free_list: &mut Vec<FreeList>, order: usize, addr: usize)
    requires
        old(free_list)@.len() == 32,
        order < 32,
    ensures
        final(free_list)@.len() == 32,
        final(free_list)@.map_values(|l: FreeList| l@) == old(free_list)@.map_values(
            |l: FreeList| l@,
        ).update(order as int, old(free_list)@.map_values(|l: FreeList| l@)[order as int].push(addr)),
        free_bytes(final(free_list)@.map_values(|l: FreeList| l@)) == free_bytes(
            old(free_list)@.map_values(|l: FreeList| l@),
        ) + pow2(order as nat),
{
    free_list[order].push(addr);
    proof {
        let before = old(free_list)@.map_values(|l: FreeList| l@);
        assert(final(free_list)@.map_values(|l: FreeList| l@) =~= before.update(
            order as int,
            before[order as int].push(addr),
        ));
        lemma_free_bytes_update(before, order as int, before[order as int].push(addr));
        let len1 = before[order as int].push(addr).len() as int;
        let len0 = before[order as int].len() as int;
        assert(len1 == len0 + 1);
        assert((len1 - len0) * pow2(order as nat) == pow2(order as nat)) by (nonlinear_arith)
            requires
                len1 == len0 + 1,
        ;
    }
}

/// Pop the most recent block of class `k` of `free_list`.
fn self_pop(free_list: &mut Vec<FreeList>, k: usize) -> (r: usize)
    requires
        old(free_list)@.len() == 32,
        k < 32,
        old(free_list)@.map_values(|l: FreeList| l@)[k as int].len() > 0,
    ensures
        final(free_list)@.len() == 32,
        r == old(free_list)@.map_values(|l: FreeList| l@)[k as int].last(),
        final(free_list)@.map_values(|l: FreeList| l@) == old(free_list)@.map_values(
            |l: FreeList| l@,
        ).update(k as int, old(free_list)@.map_values(|l: FreeList| l@)[k as int].drop_last()),
        free_bytes(final(free_list)@.map_values(|l: FreeList| l@)) == free_bytes(
            old(free_list)@.map_values(|l: FreeList| l@),
        ) - pow2(k as nat),
{
    let r = free_list[k].pop();
    proof {
        let before = old(free_list)@.map_values(|l: FreeList| l@);
        assert(final(free_list)@.map_values(|l: FreeList| l@) =~= before.update(
            k as int,
            before[k as int].drop_last(),
        ));
        lemma_free_bytes_update(before, k as int, before[k as int].drop_last());
        let len1 = before[k as int].drop_last().len() as int;
        let len0 = before[k as int].len() as int;
        assert((len1 - len0) * pow2(k as nat) == -1 * pow2(k as nat)) by (nonlinear_arith)
            requires
                len1 == len0 - 1,
        ;
    }
    match r {
        Some(addr) => addr,
        None => {
            proof {
                assert(false);
            }
            0
        },
    }
}

/// Remove `addr` from class `k` of `free_list`, reporting whether it
/// was there.
fn self_remove(free_list: &mut Vec<FreeList>, k: usize, addr: usize) -> (r: bool)
    requires
        old(free_list)@.len() == 32,
        k < 32,
    ensures
        final(free_list)@.len() == 32,
        r == old(free_list)@.map_values(|l: FreeList| l@)[k as int].contains(addr),
        !r ==> final(free_list)@.map_values(|l: FreeList| l@) == old(free_list)@.map_values(
            |l: FreeList| l@,
        ),
        r ==> exists|i: int|
            {
                &&& 0 <= i < old(free_list)@[k as int]@.len()
                &&& #[trigger] old(free_list)@[k as int]@[i] == addr
                &&& final(free_list)@.map_values(|l: FreeList| l@) == old(
                    free_list,
                )@.map_values(|l: FreeList| l@).update(
                    k as int,
                    old(free_list)@[k as int]@.remove(i),
                )
            },
        r ==> free_bytes(final(free_list)@.map_values(|l: FreeList| l@)) == free_bytes(
            old(free_list)@.map_values(|l: FreeList| l@),
        ) - pow2(k as nat),
{
    let r = free_list[k].remove_addr(addr);
    proof {
        let before = old(free_list)@.map_values(|l: FreeList| l@);
        if r {
            let i = choose|i: int|
                0 <= i < before[k as int].len() && before[k as int][i] == addr && free_list@[
                    k as int
                ]@ == before[k as int].remove(i);
            assert(final(free_list)@.map_values(|l: FreeList| l@) =~= before.update(
                k as int,
                before[k as int].remove(i),
            ));
            lemma_free_bytes_update(before, k as int, before[k as int].remove(i));
            let len1 = before[k as int].remove(i).len() as int;
            let len0 = before[k as int].len() as int;
            assert((len1 - len0) * pow2(k as nat) == -1 * pow2(k as nat)) by (nonlinear_arith)
                requires
                    len1 == len0 - 1,
            ;
        } else {
            assert(final(free_list)@.map_values(|l: FreeList| l@) =~= old(
                free_list,
            )@.map_values(|l: FreeList| l@));
        }
    }
    r
}

/// A power of two no larger than `pow2(k)` divides whatever `pow2(k)`
/// divides.
proof fn lemma_align_divides_block(x: int, align: int, k: nat)
    requires
        is_pow2(align),
        align <= pow2(k),
        x % (pow2(k) as int) == 0,
    ensures
        x % align == 0,
{
    vstd::arithmetic::power2::is_pow2_equiv(align);
    let a = choose|i: nat| vstd::arithmetic::power::pow(2, i) == align;
    vstd::arithmetic::power2::lemma_pow2(a);
    if a > k {
        lemma_pow2_strictly_increases(k, a);
        assert(false);
    }
    lemma_pow2_multiple_divides(x, k, a);
}

/// Every class of an all-empty list array holds zero bytes.
proof fn lemma_free_bytes_of_empties(lists: Seq<Seq<usize>>)
    requires
        forall|k: int| 0 <= k < lists.len() ==> (#[trigger] lists[k]).len() == 0,
    ensures
        free_bytes(lists) == 0,
    decreases lists.len(),
{
    if lists.len() > 0 {
        lemma_free_bytes_of_empties(lists.drop_last());
    }
}

/// Replacing one class changes the byte count by the size difference
/// of that class alone.
proof fn lemma_free_bytes_update(lists: Seq<Seq<usize>>, k: int, v: Seq<usize>)
    requires
        0 <= k < lists.len(),
    ensures
        free_bytes(lists.update(k, v)) == free_bytes(lists) + (v.len() - lists[k].len()) * pow2(
            k as nat,
        ),
    decreases lists.len(),
{
    let n = lists.len() as int;
    if k == n - 1 {
        assert(lists.update(k, v).drop_last() =~= lists.drop_last());
        assert((v.len() as int) * pow2(k as nat) - (lists[k].len() as int) * pow2(k as nat) == (
        v.len() - lists[k].len()) * pow2(k as nat)) by (nonlinear_arith);
    } else {
        assert(lists.update(k, v).drop_last() =~= lists.drop_last().update(k, v));
        lemma_free_bytes_update(lists.drop_last(), k, v);
    }
}

/// The byte count of every list array is non-negative.
proof fn lemma_free_bytes_nonneg(lists: Seq<Seq<usize>>)
    ensures
        free_bytes(lists) >= 0,
    decreases lists.len(),
{
    if lists.len() > 0 {
        lemma_free_bytes_nonneg(lists.drop_last());
        lemma_pow2_pos((lists.len() - 1) as nat);
        assert(lists.last().len() * pow2((lists.len() - 1) as nat) >= 0) by (nonlinear_arith);
    }
}

/// Appending a region extends exactly its own class with its base.
proof fn lemma_class_blocks_push(segs: Seq<Segment>, seg: Segment)
    ensures
        forall|k: nat|
            #[trigger] class_blocks(segs.push(seg), k) == if seg.order == k {
                class_blocks(segs, k).push(seg.base)
            } else {
                class_blocks(segs, k)
            },
{
    assert forall|k: nat|
        #[trigger] class_blocks(segs.push(seg), k) == if seg.order == k {
            class_blocks(segs, k).push(seg.base)
        } else {
            class_blocks(segs, k)
        } by {
        assert(segs.push(seg).drop_last() =~= segs);
        assert(segs.push(seg).last() == seg);
    }
}

/// A block recorded for class `k` at construction is the base of a
/// region of order `k`, and lies properly in it.
proof fn lemma_class_blocks_are_bases(segs: Seq<Segment>, k: nat, j: int)
    requires
        0 <= j < class_blocks(segs, k).len(),
    ensures
        block_in_arena(segs, class_blocks(segs, k)[j], k),
        exists|i: int|
            0 <= i < segs.len() && (#[trigger] segs[i]).order == k && segs[i].base == class_blocks(
                segs,
                k,
            )[j],
    decreases segs.len(),
{
    let addr = class_blocks(segs, k)[j];
    if segs.len() > 0 {
        let prefix = segs.drop_last();
        if segs.last().order == k && j == class_blocks(segs, k).len() - 1 {
            let i = segs.len() - 1;
            lemma_pow2_pos(k);
            lemma_small_mod(0, pow2(k));
            assert(addr == segs.last().base);
            assert(block_in_segment(segs[i as int], addr, k));
        } else {
            assert(j < class_blocks(prefix, k).len());
            assert(class_blocks(segs, k)[j] == class_blocks(prefix, k)[j]);
            lemma_class_blocks_are_bases(prefix, k, j);
            let i0 = choose|i: int|
                0 <= i < prefix.len() && (#[trigger] prefix[i]).order == k && prefix[i].base
                    == class_blocks(prefix, k)[j];
            let i1 = choose|i: int|
                0 <= i < prefix.len() && block_in_segment(#[trigger] prefix[i], addr, k);
            assert(segs[i0] == prefix[i0]);
            assert(segs[i1] == prefix[i1]);
            assert(block_in_segment(segs[i1], addr, k));
        }
    }
}

/// When the regions stand in increasing, non-overlapping address
/// order, the blocks construction records for one class have strictly
/// increasing addresses.
proof fn lemma_class_blocks_increasing(segs: Seq<Segment>, k: nat)
    requires
        forall|i1: int, i2: int|
            0 <= i1 < i2 < segs.len() ==> (#[trigger] segs[i1]).base + pow2(segs[i1].order) <= (
            #[trigger] segs[i2]).base,
    ensures
        forall|j1: int, j2: int|
            0 <= j1 < j2 < class_blocks(segs, k).len() ==> (#[trigger] class_blocks(segs, k)[j1])
                < (#[trigger] class_blocks(segs, k)[j2]),
    decreases segs.len(),
{
    if segs.len() > 0 {
        let prefix = segs.drop_last();
        assert forall|i1: int, i2: int|
            0 <= i1 < i2 < prefix.len() implies (#[trigger] prefix[i1]).base + pow2(
            prefix[i1].order,
        ) <= (#[trigger] prefix[i2]).base by {
            assert(prefix[i1] == segs[i1]);
            assert(prefix[i2] == segs[i2]);
        }
        lemma_class_blocks_increasing(prefix, k);
        if segs.last().order == k {
            assert forall|j: int|
                0 <= j < class_blocks(prefix, k).len() implies class_blocks(prefix, k)[j]
                < segs.last().base by {
                lemma_class_blocks_are_bases(prefix, k, j);
                let i0 = choose|i: int|
                    0 <= i < prefix.len() && (#[trigger] prefix[i]).order == k && prefix[i].base
                        == class_blocks(prefix, k)[j];
                lemma_pow2_pos(k);
                assert(prefix[i0] == segs[i0]);
                assert(segs[i0].base + pow2(segs[i0].order) <= segs[segs.len() - 1].base);
            }
            assert forall|j1: int, j2: int|
                0 <= j1 < j2 < class_blocks(segs, k).len() implies (#[trigger] class_blocks(
                segs,
                k,
            )[j1]) < (#[trigger] class_blocks(segs, k)[j2]) by {
                assert(class_blocks(segs, k)[j1] == class_blocks(prefix, k)[j1]);
                if j2 < class_blocks(segs, k).len() - 1 {
                    assert(class_blocks(segs, k)[j2] == class_blocks(prefix, k)[j2]);
                } else {
                    assert(class_blocks(segs, k)[j2] == segs.last().base);
                }
            }
        }
    }
}

/// After a region of order `m` is taken, the next region's capped
/// order cannot exceed `m`.
proof fn lemma_next_order_le(m: nat, remaining: int)
    requires
        remaining >= MIN_SIZE,
        m <= 31,
        m < 31 ==> remaining < pow2((m + 1) as nat),
    ensures
        cap_order(remaining) <= m,
{
    if m < 31 {
        lemma_flog2_bounds(remaining);
        if flog2(remaining) > m {
            lemma_pow2_le(m + 1, flog2(remaining));
        }
    }
}

/// Computes the exponent and value of the largest power of two that
/// does not exceed `n`.
fn lower_power_of_two(n: usize) -> (r: (usize, usize))
    requires
        n >= 1,
    ensures
        r.0 == flog2(n as int),
        r.1 == pow2(flog2(n as int)),
        r.1 <= n,
    decreases n,
{
    if n < 2 {
        proof {
            lemma2_to64();
        }
        (0, 1)
    } else {
        let (c, d) = lower_power_of_two(n / 2);
        proof {
            lemma_pow2_adds(1, flog2(n as int / 2));
            lemma2_to64();
            lemma_flog2_bounds(n as int);
            if c >= 64 {
                lemma_pow2_le(64, c as nat);
                vstd::arithmetic::power2::lemma2_to64_rest();
            }
            assert(c < 64);
        }
        (c + 1, d * 2)
    }
}

/// Computes the exponent and value of the smallest power of two that
/// is not below `n`.
fn upper_power_of_two(n: usize) -> (r: (usize, usize))
    requires
        1 <= n,
        n as int <= pow2(31),
    ensures
        r.0 == clog2(n as int),
        r.1 == pow2(clog2(n as int)),
        n <= r.1,
        r.0 <= 31,
    decreases n,
{
    proof {
        lemma_clog2_bounds(n as int);
        lemma2_to64();
        if clog2(n as int) > 31 {
            lemma_pow2_le(32, clog2(n as int));
            assert(false);
        }
    }
    if n <= 1 {
        (0, 1)
    } else {
        let m = (n + 1) / 2;
        proof {
            lemma_fundamental_div_mod(n as int + 1, 2);
            vstd::arithmetic::div_mod::lemma_mod_bound(n as int + 1, 2);
            lemma_clog2_bounds(m as int);
            lemma_pow2_adds(1, clog2(m as int));
            lemma_pow2_le(clog2(n as int), 31);
        }
        let (c, d) = upper_power_of_two(m);
        proof {
            assert(clog2(n as int) == 1 + clog2(m as int));
            assert(2 * pow2(clog2(m as int)) == pow2(clog2(n as int)));
            assert(pow2(clog2(n as int)) <= pow2(31));
        }
        (c + 1, d * 2)
    }
}

/// Computes `2^k` for a size-class exponent.
fn pow2_exec(k: usize) -> (r: usize)
    requires
        k <= 31,
    ensures
        r == pow2(k as nat),
    decreases k,
{
    proof {
        lemma2_to64();
        lemma_pow2_le(k as nat, 31);
    }
    if k == 0 {
        1
    } else {
        let d = pow2_exec(k - 1);
        proof {
            lemma_pow2_adds(1, (k - 1) as nat);
        }
        d * 2
    }
}

} // verus!
