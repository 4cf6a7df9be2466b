use kalloc::bin::Allocator;
use kalloc::{AllocErr, Layout};

fn free_bytes(a: &Allocator) -> usize {
    a.total() - a.allocated()
}

#[test]
fn construction_decomposes_greedily() {
    // 1024 bytes are a single order-10 region.
    let a = Allocator::new(0, 1024);
    assert_eq!(a.total(), 1024);
    assert_eq!(a.allocated(), 0);
    assert_eq!(a.free_count(10), 1);
    for k in 0..10 {
        assert_eq!(a.free_count(k), 0);
    }
}

#[test]
fn construction_splits_non_power_arenas() {
    // 24 bytes decompose into a 16-byte and an 8-byte region.
    let a = Allocator::new(0, 24);
    assert_eq!(a.total(), 24);
    assert_eq!(a.free_count(4), 1);
    assert_eq!(a.free_count(3), 1);
}

#[test]
fn construction_wastes_the_short_tail() {
    // Of 15 bytes only 8 are usable; the 7-byte tail is wasted.
    let a = Allocator::new(0, 15);
    assert_eq!(a.total(), 8);
    assert_eq!(a.free_count(3), 1);
}

#[test]
fn construction_accepts_an_unaligned_start() {
    let mut a = Allocator::new(8, 40);
    assert_eq!(a.total(), 32);
    assert_eq!(a.free_count(5), 1);
    assert_eq!(a.allocate(Layout::new(32, 1)), Ok(8));
}

#[test]
fn construction_of_an_empty_arena() {
    let mut a = Allocator::new(100, 100);
    assert_eq!(a.total(), 0);
    assert_eq!(a.allocate(Layout::new(1, 1)), Err(AllocErr::Exhausted));
}

#[test]
fn request_is_served_by_splitting() {
    // Arena [0, 1024), request of 20 bytes at alignment 8: rounds to
    // 24, then up to the 32-byte class (order 5), served by splitting
    // the order-10 block down to order 5.
    let mut a = Allocator::new(0, 1024);
    let addr = a.allocate(Layout::new(20, 8)).unwrap();
    assert_eq!(addr, 992);
    assert_eq!(addr % 8, 0);
    assert_eq!(a.allocated(), 32);
    assert_eq!(free_bytes(&a), 992);
    // One buddy left behind at each order from 5 to 9.
    for k in 5..10 {
        assert_eq!(a.free_count(k), 1);
    }
    assert_eq!(a.free_count(10), 0);
}

#[test]
fn release_restores_the_split_block() {
    let mut a = Allocator::new(0, 1024);
    let layout = Layout::new(20, 8);
    let addr = a.allocate(layout).unwrap();
    assert_eq!(a.deallocate(addr, layout), Ok(()));
    // Coalescing rebuilt the original order-10 block.
    assert_eq!(a.allocated(), 0);
    assert_eq!(free_bytes(&a), 1024);
    assert_eq!(a.free_count(10), 1);
    for k in 0..10 {
        assert_eq!(a.free_count(k), 0);
    }
}

#[test]
fn round_trip_preserves_free_bytes_and_address() {
    let mut a = Allocator::new(0, 1024);
    let layout = Layout::new(100, 4);
    let before = free_bytes(&a);
    let addr = a.allocate(layout).unwrap();
    assert_eq!(a.deallocate(addr, layout), Ok(()));
    assert_eq!(free_bytes(&a), before);
    // The same address is reusable at once.
    assert_eq!(a.allocate(layout), Ok(addr));
}

#[test]
fn freeing_two_buddies_coalesces_them() {
    // Two adjacent minimum-size blocks from the same split.
    let mut a = Allocator::new(0, 64);
    let layout = Layout::new(8, 1);
    let first = a.allocate(layout).unwrap();
    let second = a.allocate(layout).unwrap();
    assert_eq!(first, 56);
    assert_eq!(second, 48);
    assert_eq!(a.deallocate(first, layout), Ok(()));
    assert_eq!(a.free_count(3), 1);
    assert_eq!(a.deallocate(second, layout), Ok(()));
    // Not two order-3 blocks: they merged, and the merge cascaded
    // through every level back to the original order-6 block.
    assert_eq!(a.free_count(3), 0);
    assert_eq!(a.free_count(4), 0);
    assert_eq!(a.free_count(5), 0);
    assert_eq!(a.free_count(6), 1);
    assert_eq!(a.allocated(), 0);
}

#[test]
fn oversized_requests_exhaust_immediately() {
    let mut a = Allocator::new(0, 64);
    assert_eq!(a.allocate(Layout::new(128, 1)), Err(AllocErr::Exhausted));
    assert_eq!(a.allocated(), 0);
    assert_eq!(free_bytes(&a), 64);
}

#[test]
fn consuming_the_arena_exhausts_it() {
    let mut a = Allocator::new(0, 64);
    assert_eq!(a.allocate(Layout::new(64, 1)), Ok(0));
    assert_eq!(a.allocate(Layout::new(8, 1)), Err(AllocErr::Exhausted));
    assert_eq!(a.allocate(Layout::new(1, 1)), Err(AllocErr::Exhausted));
    assert_eq!(a.allocated(), 64);
}

#[test]
fn small_requests_use_the_minimum_class() {
    // Requests below 8 bytes are still served from the 8-byte class.
    let mut a = Allocator::new(0, 64);
    a.allocate(Layout::new(1, 1)).unwrap();
    assert_eq!(a.allocated(), 8);
}

#[test]
fn invalid_requests_are_rejected_without_change() {
    let mut a = Allocator::new(0, 1024);
    assert_eq!(a.allocate(Layout::new(0, 8)), Err(AllocErr::InvalidRequest));
    assert_eq!(a.allocate(Layout::new(8, 0)), Err(AllocErr::InvalidRequest));
    assert_eq!(a.allocate(Layout::new(8, 6)), Err(AllocErr::InvalidRequest));
    assert_eq!(a.allocated(), 0);
    assert_eq!(a.free_count(10), 1);
}

#[test]
fn bogus_releases_are_rejected() {
    let mut a = Allocator::new(0, 1024);
    // Nothing is allocated yet, so nothing can be released.
    assert_eq!(
        a.deallocate(0, Layout::new(8, 8)),
        Err(AllocErr::InvalidRequest)
    );
    let layout = Layout::new(20, 8);
    let addr = a.allocate(layout).unwrap();
    // Outside the arena.
    assert_eq!(
        a.deallocate(2048, layout),
        Err(AllocErr::InvalidRequest)
    );
    // Not placed at a multiple of the block size.
    assert_eq!(
        a.deallocate(addr + 1, layout),
        Err(AllocErr::InvalidRequest)
    );
    // Malformed layouts.
    assert_eq!(
        a.deallocate(addr, Layout::new(0, 8)),
        Err(AllocErr::InvalidRequest)
    );
    assert_eq!(
        a.deallocate(addr, Layout::new(20, 5)),
        Err(AllocErr::InvalidRequest)
    );
    // The failed attempts changed nothing; the real release works.
    assert_eq!(a.allocated(), 32);
    assert_eq!(a.deallocate(addr, layout), Ok(()));
    assert_eq!(a.allocated(), 0);
}

#[test]
fn double_release_is_rejected() {
    let mut a = Allocator::new(0, 64);
    let layout = Layout::new(8, 1);
    let first = a.allocate(layout).unwrap();
    let second = a.allocate(layout).unwrap();
    assert_eq!(a.deallocate(first, layout), Ok(()));
    // Releasing the same block again would list it free twice: it now
    // overlaps free memory, a caller bug.
    assert_eq!(a.deallocate(first, layout), Err(AllocErr::InvalidRequest));
    assert_eq!(a.allocated(), 8);
    assert_eq!(a.deallocate(second, layout), Ok(()));
    assert_eq!(a.allocated(), 0);
}

#[test]
fn coalescing_respects_region_boundaries() {
    // 24 bytes make two independent regions: 16 at 0 and 8 at 16.
    // Freeing all blocks must never merge across the boundary.
    let mut a = Allocator::new(0, 24);
    let layout = Layout::new(8, 1);
    let x = a.allocate(layout).unwrap();
    let y = a.allocate(layout).unwrap();
    let z = a.allocate(layout).unwrap();
    assert_eq!(a.allocated(), 24);
    assert_eq!(a.allocate(layout), Err(AllocErr::Exhausted));
    a.deallocate(x, layout).unwrap();
    a.deallocate(y, layout).unwrap();
    a.deallocate(z, layout).unwrap();
    assert_eq!(a.allocated(), 0);
    // The original decomposition is back: one order-4 and one order-3
    // region, never a (mis)merged order-5 block.
    assert_eq!(a.free_count(4), 1);
    assert_eq!(a.free_count(3), 1);
    assert_eq!(a.free_count(5), 0);
}

#[test]
fn layout_carries_size_and_align() {
    let l = Layout::new(20, 8);
    assert_eq!(l.size, 20);
    assert_eq!(l.align, 8);
}
