use kalloc::util::{align_down, align_up};
use kalloc::AllocErr;

#[test]
fn align_down_exact_values() {
    assert_eq!(align_down(37, 8), Ok(32));
    assert_eq!(align_down(32, 8), Ok(32));
    assert_eq!(align_down(0, 1), Ok(0));
    assert_eq!(align_down(7, 8), Ok(0));
    assert_eq!(align_down(1023, 1024), Ok(0));
    assert_eq!(align_down(1025, 1024), Ok(1024));
}

#[test]
fn align_up_exact_values() {
    assert_eq!(align_up(37, 8), Ok(40));
    assert_eq!(align_up(40, 8), Ok(40));
    assert_eq!(align_up(0, 1), Ok(0));
    assert_eq!(align_up(1, 8), Ok(8));
    assert_eq!(align_up(1025, 1024), Ok(2048));
}

#[test]
fn align_down_brackets_the_address() {
    for &align in &[1usize, 2, 4, 8, 16, 1024] {
        for &addr in &[0usize, 1, 7, 8, 9, 100, 1023, 1024, 99999] {
            let down = align_down(addr, align).unwrap();
            assert!(down <= addr);
            assert!(addr < down + align);
            assert_eq!(down % align, 0);
        }
    }
}

#[test]
fn align_up_brackets_the_address() {
    for &align in &[1usize, 2, 4, 8, 16, 1024] {
        for &addr in &[0usize, 1, 7, 8, 9, 100, 1023, 1024, 99999] {
            let up = align_up(addr, align).unwrap();
            assert!(up >= addr);
            assert!(up < addr + align);
            assert_eq!(up % align, 0);
        }
    }
}

#[test]
fn align_down_after_align_up_is_identity() {
    for &align in &[1usize, 2, 8, 64, 4096] {
        for &addr in &[0usize, 1, 63, 64, 65, 12345] {
            let up = align_up(addr, align).unwrap();
            assert_eq!(align_down(up, align), Ok(up));
        }
    }
}

#[test]
fn zero_alignment_is_rejected() {
    assert_eq!(align_down(100, 0), Err(AllocErr::InvalidAlignment));
    assert_eq!(align_up(100, 0), Err(AllocErr::InvalidAlignment));
}

#[test]
fn non_power_of_two_alignment_is_rejected() {
    for &align in &[3usize, 5, 6, 7, 12, 100, 1000] {
        assert_eq!(align_down(64, align), Err(AllocErr::InvalidAlignment));
        assert_eq!(align_up(64, align), Err(AllocErr::InvalidAlignment));
    }
}
