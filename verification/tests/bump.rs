use ember_os::allocator::bump::BumpAllocator;
use ember_os::allocator::HeapStrategy;

const START: usize = 0x1000;
const SIZE: usize = 0x100;

fn fresh_bump() -> BumpAllocator {
    let mut bump = BumpAllocator::new();
    bump.init(START, SIZE);
    bump
}

#[test]
fn bump_new_is_empty() {
    let mut bump = BumpAllocator::new();
    assert_eq!(bump.watermark(), 0);
    assert_eq!(bump.live_count(), 0);
    assert_eq!(bump.allocate(1, 1), None);
    assert_eq!(bump.allocate(0, 1), Some(0));
}

#[test]
fn bump_init_sets_the_watermark_to_the_start() {
    let bump = fresh_bump();
    assert_eq!(bump.watermark(), START);
    assert_eq!(bump.live_count(), 0);
}

#[test]
fn bump_allocates_from_the_bottom() {
    let mut bump = fresh_bump();
    assert_eq!(bump.allocate(8, 8), Some(0x1000));
    assert_eq!(bump.allocate(8, 8), Some(0x1008));
    assert_eq!(bump.allocate(3, 1), Some(0x1010));
    assert_eq!(bump.watermark(), 0x1013);
    assert_eq!(bump.live_count(), 3);
}

#[test]
fn bump_aligns_the_address() {
    let mut bump = fresh_bump();
    assert_eq!(bump.allocate(1, 1), Some(0x1000));
    assert_eq!(bump.allocate(4, 4), Some(0x1004));
    assert_eq!(bump.allocate(1, 1), Some(0x1008));
    assert_eq!(bump.allocate(16, 64), Some(0x1040));
    assert_eq!(bump.watermark(), 0x1050);
}

#[test]
fn bump_addresses_are_aligned_and_disjoint() {
    let mut bump = fresh_bump();
    let sizes: [usize; 6] = [1, 7, 8, 3, 16, 5];
    let aligns: [usize; 6] = [1, 2, 8, 4, 16, 1];
    let mut taken: Vec<(usize, usize)> = Vec::new();
    let mut i = 0;
    while i < 6 {
        let addr = bump.allocate(sizes[i], aligns[i]).unwrap();
        assert_eq!(addr % aligns[i], 0);
        assert!(addr >= START);
        assert!(addr + sizes[i] <= START + SIZE);
        for &(other, other_size) in taken.iter() {
            assert!(other + other_size <= addr || addr + sizes[i] <= other);
        }
        taken.push((addr, sizes[i]));
        i += 1;
    }
}

#[test]
fn bump_reclaims_when_the_last_allocation_is_released() {
    let mut bump = fresh_bump();
    let a = bump.allocate(8, 8).unwrap();
    let b = bump.allocate(8, 8).unwrap();
    let c = bump.allocate(8, 8).unwrap();
    assert_eq!((a, b, c), (0x1000, 0x1008, 0x1010));
    bump.deallocate(a, 8, 8);
    assert_eq!(bump.watermark(), 0x1018);
    bump.deallocate(b, 8, 8);
    assert_eq!(bump.watermark(), 0x1018);
    assert_eq!(bump.live_count(), 1);
    bump.deallocate(c, 8, 8);
    assert_eq!(bump.watermark(), START);
    assert_eq!(bump.allocate(8, 8), Some(START));
}

#[test]
fn bump_reclaims_in_any_order_of_release() {
    let orders: [[usize; 3]; 6] =
        [[0, 1, 2], [0, 2, 1], [1, 0, 2], [1, 2, 0], [2, 0, 1], [2, 1, 0]];
    for order in orders.iter() {
        let mut bump = fresh_bump();
        let addrs = [
            bump.allocate(8, 8).unwrap(),
            bump.allocate(8, 8).unwrap(),
            bump.allocate(8, 8).unwrap(),
        ];
        bump.deallocate(addrs[order[0]], 8, 8);
        assert_eq!(bump.watermark(), START + 24);
        bump.deallocate(addrs[order[1]], 8, 8);
        assert_eq!(bump.watermark(), START + 24);
        bump.deallocate(addrs[order[2]], 8, 8);
        assert_eq!(bump.watermark(), START);
        assert_eq!(bump.allocate(8, 8), Some(START));
    }
}

#[test]
fn bump_does_not_reuse_while_an_allocation_is_live() {
    let mut bump = fresh_bump();
    let a = bump.allocate(8, 8).unwrap();
    let b = bump.allocate(8, 8).unwrap();
    bump.deallocate(a, 8, 8);
    assert_eq!(bump.allocate(8, 8), Some(b + 8));
}

#[test]
fn bump_fails_on_more_than_the_heap() {
    let mut bump = fresh_bump();
    assert_eq!(bump.allocate(SIZE + 1, 1), None);
    assert_eq!(bump.watermark(), START);
    assert_eq!(bump.live_count(), 0);
    assert_eq!(bump.allocate(SIZE, 1), Some(START));
}

#[test]
fn bump_fails_on_overflow_of_the_end() {
    let mut bump = fresh_bump();
    assert_eq!(bump.allocate(usize::MAX, 1), None);
    assert_eq!(bump.allocate(usize::MAX - START + 1, 1), None);
    assert_eq!(bump.watermark(), START);
}

#[test]
fn bump_fails_where_the_aligned_address_does_not_fit() {
    let mut bump = BumpAllocator::new();
    bump.init(usize::MAX - 3, 3);
    assert_eq!(bump.allocate(0, 8), None);
    assert_eq!(bump.allocate(1, 1), Some(usize::MAX - 3));
}

#[test]
fn bump_failure_leaves_no_residue() {
    let mut failed = fresh_bump();
    assert_eq!(failed.allocate(SIZE + 1, 8), None);
    let mut clean = fresh_bump();
    assert_eq!(failed.allocate(24, 8), clean.allocate(24, 8));
    assert_eq!(failed.watermark(), clean.watermark());
    assert_eq!(failed.live_count(), clean.live_count());
}

#[test]
fn bump_exhaustion_then_one_more_fails() {
    let mut bump = fresh_bump();
    let mut count = 0;
    while bump.allocate(8, 8).is_some() {
        count += 1;
        assert!(count <= SIZE / 8);
    }
    assert_eq!(count, SIZE / 8);
    assert_eq!(bump.allocate(8, 8), None);
    assert_eq!(bump.allocate(1, 1), None);
    assert_eq!(bump.watermark(), START + SIZE);
}

#[test]
fn bump_serves_empty_requests() {
    let mut bump = fresh_bump();
    assert_eq!(bump.allocate(0, 1), Some(START));
    assert_eq!(bump.allocate(0, 1), Some(START));
    assert_eq!(bump.live_count(), 2);
    bump.deallocate(START, 0, 1);
    bump.deallocate(START, 0, 1);
    assert_eq!(bump.live_count(), 0);
}

#[test]
fn bump_default_is_empty() {
    let mut bump = BumpAllocator::default();
    assert_eq!(bump.watermark(), 0);
    assert_eq!(bump.live_count(), 0);
    assert_eq!(bump.allocate(1, 1), None);
    bump.init(0x2000, 0x10);
    assert_eq!(bump.allocate(8, 8), Some(0x2000));
}
