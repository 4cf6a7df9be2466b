use kalloc::heap::Heap;
use kalloc::{AllocErr, Layout};

#[test]
fn requests_before_initialization_are_refused() {
    let mut h = Heap::new();
    assert_eq!(h.total(), 0);
    assert_eq!(h.allocated(), 0);
    assert_eq!(h.allocate(Layout::new(8, 8)), Err(AllocErr::InvalidRequest));
    assert_eq!(
        h.deallocate(0, Layout::new(8, 8)),
        Err(AllocErr::InvalidRequest)
    );
}

#[test]
fn initialization_happens_exactly_once() {
    let mut h = Heap::new();
    assert_eq!(h.initialize(0, 1024), Ok(()));
    assert_eq!(h.total(), 1024);
    assert_eq!(h.initialize(0, 2048), Err(AllocErr::InvalidRequest));
    assert_eq!(h.total(), 1024);
}

#[test]
fn an_initialized_heap_serves_requests() {
    let mut h = Heap::new();
    h.initialize(0, 1024).unwrap();
    let layout = Layout::new(20, 8);
    let addr = h.allocate(layout).unwrap();
    assert_eq!(h.allocated(), 32);
    assert_eq!(h.deallocate(addr, layout), Ok(()));
    assert_eq!(h.allocated(), 0);
}
