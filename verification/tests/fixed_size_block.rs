use ember_os::allocator::fixed_size_block::{
    block_size, list_index, FixedSizeBlockAllocator, MAX_BLOCK_SIZE, NUM_CLASSES,
};
use ember_os::allocator::HeapStrategy;

const CLASS_START: usize = 0x20000;
const CLASS_SIZE: usize = 0x4000;

fn fresh_classes() -> FixedSizeBlockAllocator {
    let mut classes = FixedSizeBlockAllocator::new();
    classes.init(CLASS_START, CLASS_SIZE);
    classes
}

fn fallback_bytes_of(classes: &FixedSizeBlockAllocator) -> usize {
    classes.fallback_chain().iter().map(|block| block.size).sum()
}

#[test]
fn block_sizes_double_from_eight() {
    let expected: [usize; 9] = [8, 16, 32, 64, 128, 256, 512, 1024, 2048];
    assert_eq!(NUM_CLASSES, 9);
    let mut index = 0;
    while index < NUM_CLASSES {
        assert_eq!(block_size(index), expected[index]);
        index += 1;
    }
    assert_eq!(block_size(NUM_CLASSES - 1), MAX_BLOCK_SIZE);
}

#[test]
fn list_index_is_the_smallest_class_that_holds_the_request() {
    assert_eq!(list_index(0, 1), Some(0));
    assert_eq!(list_index(1, 1), Some(0));
    assert_eq!(list_index(8, 8), Some(0));
    assert_eq!(list_index(9, 8), Some(1));
    assert_eq!(list_index(16, 1), Some(1));
    assert_eq!(list_index(17, 1), Some(2));
    assert_eq!(list_index(20, 8), Some(2));
    assert_eq!(list_index(33, 8), Some(3));
    assert_eq!(list_index(2047, 8), Some(8));
    assert_eq!(list_index(2048, 8), Some(8));
}

#[test]
fn list_index_goes_by_the_alignment_too() {
    assert_eq!(list_index(1, 64), Some(3));
    assert_eq!(list_index(100, 256), Some(5));
    assert_eq!(list_index(8, 2048), Some(8));
}

#[test]
fn list_index_has_no_class_for_a_large_request() {
    assert_eq!(list_index(2049, 8), None);
    assert_eq!(list_index(8, 4096), None);
    assert_eq!(list_index(usize::MAX, 1), None);
}

#[test]
fn classes_never_hand_out_less_than_asked() {
    let mut size = 0;
    while size <= MAX_BLOCK_SIZE {
        let index = list_index(size, 8).unwrap();
        assert!(block_size(index) >= size);
        let required = if size >= 8 { size } else { 8 };
        assert!(index == 0 || block_size(index - 1) < required);
        size += 1;
    }
}

#[test]
fn classes_new_has_no_memory() {
    let mut classes = FixedSizeBlockAllocator::new();
    assert_eq!(classes.allocate(8, 8), None);
    assert_eq!(classes.allocate(4096, 8), None);
    let mut index = 0;
    while index < NUM_CLASSES {
        assert_eq!(classes.list_len(index), 0);
        index += 1;
    }
}

#[test]
fn classes_carve_a_block_of_the_class_from_the_fallback() {
    let mut classes = fresh_classes();
    assert_eq!(classes.allocate(20, 8), Some(CLASS_START));
    // a block of 32 bytes left the fallback allocator
    assert_eq!(fallback_bytes_of(&classes), CLASS_SIZE - 32);
    assert_eq!(classes.allocate(20, 8), Some(CLASS_START + 32));
    assert_eq!(classes.allocate(33, 8), Some(CLASS_START + 64));
    assert_eq!(fallback_bytes_of(&classes), CLASS_SIZE - 128);
}

#[test]
fn classes_align_a_block_to_its_size() {
    let mut classes = fresh_classes();
    assert_eq!(classes.allocate(8, 8), Some(CLASS_START));
    let addr = classes.allocate(300, 8).unwrap();
    assert_eq!(addr % 512, 0);
    assert_eq!(addr, CLASS_START + 512);
    let wide = classes.allocate(1, 1024).unwrap();
    assert_eq!(wide % 1024, 0);
}

#[test]
fn classes_reuse_a_block_of_the_list() {
    let mut classes = fresh_classes();
    let first = classes.allocate(20, 8).unwrap();
    assert_eq!(classes.list_len(2), 0);
    classes.deallocate(first, 20, 8);
    assert_eq!(classes.list_len(2), 1);
    let bytes = fallback_bytes_of(&classes);
    // another request of the class takes the block from the list
    assert_eq!(classes.allocate(32, 4), Some(first));
    assert_eq!(classes.list_len(2), 0);
    assert_eq!(fallback_bytes_of(&classes), bytes);
}

#[test]
fn classes_take_the_block_that_came_back_last() {
    let mut classes = fresh_classes();
    let a = classes.allocate(64, 8).unwrap();
    let b = classes.allocate(64, 8).unwrap();
    classes.deallocate(a, 64, 8);
    classes.deallocate(b, 64, 8);
    assert_eq!(classes.list_len(3), 2);
    assert_eq!(classes.allocate(64, 8), Some(b));
    assert_eq!(classes.allocate(64, 8), Some(a));
}

#[test]
fn classes_list_does_not_grow_in_cycles() {
    let mut classes = fresh_classes();
    let mut round = 0;
    while round < 100 {
        let addr = classes.allocate(20, 8).unwrap();
        assert_eq!(classes.list_len(2), 0);
        classes.deallocate(addr, 20, 8);
        assert_eq!(classes.list_len(2), 1);
        round += 1;
    }
    assert_eq!(fallback_bytes_of(&classes), CLASS_SIZE - 32);
}

#[test]
fn classes_list_is_bounded_by_the_most_live_allocations() {
    let mut classes = fresh_classes();
    let mut round = 0;
    while round < 10 {
        let a = classes.allocate(100, 8).unwrap();
        let b = classes.allocate(100, 8).unwrap();
        let c = classes.allocate(100, 8).unwrap();
        classes.deallocate(b, 100, 8);
        assert!(classes.list_len(4) <= 3);
        classes.deallocate(a, 100, 8);
        classes.deallocate(c, 100, 8);
        assert_eq!(classes.list_len(4), 3);
        round += 1;
    }
    assert_eq!(fallback_bytes_of(&classes), CLASS_SIZE - 3 * 128);
}

#[test]
fn classes_send_a_large_request_to_the_fallback() {
    let mut classes = fresh_classes();
    let addr = classes.allocate(3000, 8).unwrap();
    assert_eq!(addr, CLASS_START);
    assert_eq!(fallback_bytes_of(&classes), CLASS_SIZE - 3008);
    classes.deallocate(addr, 3000, 8);
    assert_eq!(fallback_bytes_of(&classes), CLASS_SIZE);
    let mut index = 0;
    while index < NUM_CLASSES {
        assert_eq!(classes.list_len(index), 0);
        index += 1;
    }
    let page = classes.allocate(16, 4096).unwrap();
    assert_eq!(page % 4096, 0);
}

#[test]
fn classes_addresses_are_aligned_and_disjoint() {
    let mut classes = fresh_classes();
    let sizes: [usize; 8] = [1, 20, 64, 3000, 100, 16, 200, 20];
    let aligns: [usize; 8] = [1, 8, 64, 16, 256, 32, 16, 8];
    let mut taken: Vec<(usize, usize)> = Vec::new();
    let mut i = 0;
    while i < 8 {
        let addr = classes.allocate(sizes[i], aligns[i]).unwrap();
        assert_eq!(addr % aligns[i], 0);
        assert!(addr >= CLASS_START);
        assert!(addr + sizes[i] <= CLASS_START + CLASS_SIZE);
        for &(other, other_size) in taken.iter() {
            assert!(other + other_size <= addr || addr + sizes[i] <= other);
        }
        taken.push((addr, sizes[i]));
        if i == 4 {
            let (gone, gone_size) = taken.remove(1);
            classes.deallocate(gone, gone_size, aligns[1]);
        }
        i += 1;
    }
}

#[test]
fn classes_fail_on_more_than_the_heap() {
    let mut classes = fresh_classes();
    assert_eq!(classes.allocate(CLASS_SIZE + 1, 1), None);
    assert_eq!(classes.allocate(usize::MAX, 1), None);
    assert_eq!(fallback_bytes_of(&classes), CLASS_SIZE);
}

#[test]
fn classes_failure_leaves_no_residue() {
    let mut failed = fresh_classes();
    assert_eq!(failed.allocate(CLASS_SIZE + 1, 8), None);
    let mut clean = fresh_classes();
    assert_eq!(failed.allocate(20, 8), clean.allocate(20, 8));
    assert_eq!(fallback_bytes_of(&failed), fallback_bytes_of(&clean));
}

#[test]
fn classes_exhaustion_then_one_more_fails() {
    let mut classes = fresh_classes();
    let mut count = 0;
    while classes.allocate(2048, 8).is_some() {
        count += 1;
        assert!(count <= CLASS_SIZE / 2048);
    }
    assert_eq!(count, CLASS_SIZE / 2048);
    assert_eq!(classes.allocate(2048, 8), None);
    assert_eq!(classes.allocate(8, 8), None);
}
