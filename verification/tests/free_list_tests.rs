use kalloc::free_list::FreeList;

#[test]
fn a_new_list_is_empty() {
    let l = FreeList::new();
    assert!(l.is_empty());
    assert_eq!(l.len(), 0);
}

#[test]
fn pop_returns_the_most_recently_pushed() {
    let mut l = FreeList::new();
    l.push(16);
    l.push(32);
    l.push(48);
    assert_eq!(l.len(), 3);
    assert_eq!(l.pop(), Some(48));
    assert_eq!(l.pop(), Some(32));
    assert_eq!(l.pop(), Some(16));
    assert_eq!(l.pop(), None);
}

#[test]
fn contains_reports_membership() {
    let mut l = FreeList::new();
    l.push(8);
    l.push(24);
    assert!(l.contains(8));
    assert!(l.contains(24));
    assert!(!l.contains(16));
}

#[test]
fn remove_addr_takes_one_occurrence() {
    let mut l = FreeList::new();
    l.push(8);
    l.push(24);
    l.push(40);
    assert!(l.remove_addr(24));
    assert_eq!(l.len(), 2);
    assert!(!l.contains(24));
    assert!(!l.remove_addr(24));
    assert_eq!(l.len(), 2);
    assert!(l.contains(8));
    assert!(l.contains(40));
}
