use kalloc::bump::Allocator;
use kalloc::{AllocErr, Layout};

#[test]
fn bump_new_starts_at_the_beginning() {
    let a = Allocator::new(1024, 2048);
    assert_eq!(a.current(), 1024);
    assert_eq!(a.end(), 2048);
}

#[test]
fn bump_alloc_rounds_and_advances() {
    let mut a = Allocator::new(1024, 2048);
    let addr = a.allocate(Layout::new(20, 8)).unwrap();
    assert_eq!(addr, 1024);
    // 20 bytes at alignment 8 round up to 24.
    assert_eq!(a.current(), 1048);
}

#[test]
fn bump_alloc_aligns_the_cursor() {
    let mut a = Allocator::new(1001, 2048);
    let addr = a.allocate(Layout::new(8, 8)).unwrap();
    assert_eq!(addr, 1008);
    assert_eq!(addr % 8, 0);
    assert_eq!(a.current(), 1016);
}

#[test]
fn bump_cursor_equals_start_plus_rounded_sizes() {
    // With an aligned start and aligned requests no gaps appear, so
    // after N allocations the cursor sits exactly at start + S.
    let mut a = Allocator::new(1024, 4096);
    let mut total = 0usize;
    for &size in &[8usize, 16, 32, 8, 64] {
        a.allocate(Layout::new(size, 8)).unwrap();
        total += size;
    }
    assert_eq!(a.current(), 1024 + total);
}

#[test]
fn bump_exhaustion_leaves_cursor_unchanged() {
    let mut a = Allocator::new(0, 64);
    assert_eq!(a.allocate(Layout::new(128, 8)), Err(AllocErr::Exhausted));
    assert_eq!(a.current(), 0);
    assert_eq!(a.allocate(Layout::new(64, 1)), Ok(0));
    assert_eq!(a.current(), 64);
    assert_eq!(a.allocate(Layout::new(1, 1)), Err(AllocErr::Exhausted));
    assert_eq!(a.current(), 64);
}

#[test]
fn bump_invalid_requests_are_rejected() {
    let mut a = Allocator::new(0, 1024);
    assert_eq!(a.allocate(Layout::new(0, 8)), Err(AllocErr::InvalidRequest));
    assert_eq!(a.allocate(Layout::new(8, 0)), Err(AllocErr::InvalidRequest));
    assert_eq!(a.allocate(Layout::new(8, 3)), Err(AllocErr::InvalidRequest));
    assert_eq!(a.current(), 0);
}

#[test]
fn bump_dealloc_checks_the_request() {
    let mut a = Allocator::new(1024, 2048);
    let addr = a.allocate(Layout::new(32, 8)).unwrap();
    // A consistent release is accepted (and reclaims nothing).
    assert_eq!(a.deallocate(addr, Layout::new(32, 8)), Ok(()));
    assert_eq!(a.current(), 1056);
    // A misaligned pointer is a caller bug.
    assert_eq!(
        a.deallocate(addr + 1, Layout::new(32, 8)),
        Err(AllocErr::InvalidRequest)
    );
    // A pointer outside [start, current] is a caller bug.
    assert_eq!(
        a.deallocate(2000, Layout::new(32, 8)),
        Err(AllocErr::InvalidRequest)
    );
    assert_eq!(
        a.deallocate(8, Layout::new(32, 8)),
        Err(AllocErr::InvalidRequest)
    );
}
