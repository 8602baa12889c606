use ember_os::allocator::{align_up, checked_align_up, power_of_two, slow_align_up, Dummy};

#[test]
fn align_up_keeps_an_aligned_address() {
    assert_eq!(align_up(0, 1), 0);
    assert_eq!(align_up(0, 8), 0);
    assert_eq!(align_up(4096, 4096), 4096);
    assert_eq!(align_up(1234, 1), 1234);
}

#[test]
fn align_up_rounds_to_the_next_multiple() {
    assert_eq!(align_up(1, 8), 8);
    assert_eq!(align_up(7, 8), 8);
    assert_eq!(align_up(9, 8), 16);
    assert_eq!(align_up(1233, 2), 1234);
    assert_eq!(align_up(4097, 4096), 8192);
    assert_eq!(align_up(0x4444_4444_0001, 16), 0x4444_4444_0010);
}

#[test]
fn align_up_reaches_the_last_aligned_address() {
    assert_eq!(align_up(usize::MAX, 1), usize::MAX);
    assert_eq!(align_up(usize::MAX - 30, 16), usize::MAX - 15);
    assert_eq!(align_up(usize::MAX - 15, 16), usize::MAX - 15);
}

#[test]
fn slow_align_up_agrees_with_align_up() {
    let mut addr: usize = 0;
    while addr < 300 {
        let mut align: usize = 1;
        while align <= 128 {
            assert_eq!(slow_align_up(addr, align), align_up(addr, align));
            align *= 2;
        }
        addr += 1;
    }
}

#[test]
fn slow_align_up_takes_any_alignment() {
    assert_eq!(slow_align_up(10, 3), 12);
    assert_eq!(slow_align_up(12, 3), 12);
    assert_eq!(slow_align_up(0, 7), 0);
    assert_eq!(slow_align_up(50, 7), 56);
}

#[test]
fn aligned_address_is_the_least_multiple_not_below() {
    let mut addr: usize = 1000;
    while addr < 1100 {
        let aligned = align_up(addr, 32);
        assert_eq!(aligned % 32, 0);
        assert!(aligned >= addr);
        assert!(aligned - addr < 32);
        addr += 1;
    }
}

#[test]
fn checked_align_up_gives_the_aligned_address() {
    assert_eq!(checked_align_up(0, 8), Some(0));
    assert_eq!(checked_align_up(13, 8), Some(16));
    assert_eq!(checked_align_up(16, 8), Some(16));
    assert_eq!(checked_align_up(usize::MAX - 7, 8), Some(usize::MAX - 7));
    assert_eq!(checked_align_up(usize::MAX, 1), Some(usize::MAX));
}

#[test]
fn checked_align_up_fails_where_the_address_does_not_fit() {
    assert_eq!(checked_align_up(usize::MAX, 2), None);
    assert_eq!(checked_align_up(usize::MAX - 6, 8), None);
    assert_eq!(checked_align_up(usize::MAX - 4095 + 1, 4096), None);
}

#[test]
fn dummy_has_no_memory() {
    let dummy = Dummy;
    assert_eq!(dummy.allocate(1, 1), None);
    assert_eq!(dummy.allocate(0, 8), None);
    assert_eq!(dummy.allocate(4096, 4096), None);
}

#[test]
fn power_of_two_knows_the_powers_of_two() {
    let mut shift = 0;
    while shift < usize::BITS {
        assert!(power_of_two(1usize << shift));
        shift += 1;
    }
}

#[test]
fn power_of_two_knows_what_is_none() {
    assert!(!power_of_two(0));
    assert!(!power_of_two(3));
    assert!(!power_of_two(6));
    assert!(!power_of_two(12));
    assert!(!power_of_two(4095));
    assert!(!power_of_two(4097));
    assert!(!power_of_two(usize::MAX));
    let mut n: usize = 0;
    while n < 5000 {
        assert_eq!(power_of_two(n), n.is_power_of_two());
        n += 1;
    }
}
