use ember_os::allocator::linked_list::{size_align, FreeBlock, LinkedListAllocator, MIN_BLOCK_SIZE};
use ember_os::allocator::HeapStrategy;

const LIST_START: usize = 0x10000;
const LIST_SIZE: usize = 0x1000;

fn fresh_list() -> LinkedListAllocator {
    let mut list = LinkedListAllocator::new();
    list.init(LIST_START, LIST_SIZE);
    list
}

fn chain_of(list: &LinkedListAllocator) -> Vec<(usize, usize)> {
    list.free_chain().iter().map(|block| (block.start, block.size)).collect()
}

fn free_bytes_of(list: &LinkedListAllocator) -> usize {
    list.free_chain().iter().map(|block| block.size).sum()
}

#[test]
fn size_align_raises_to_the_least_block() {
    assert_eq!(size_align(0, 1), Some((16, 16)));
    assert_eq!(size_align(1, 1), Some((16, 16)));
    assert_eq!(size_align(16, 8), Some((16, 16)));
    assert_eq!(size_align(17, 8), Some((32, 16)));
    assert_eq!(size_align(64, 8), Some((64, 16)));
    assert_eq!(size_align(100, 64), Some((112, 64)));
    assert_eq!(size_align(4096, 4096), Some((4096, 4096)));
}

#[test]
fn size_align_fails_where_the_size_does_not_fit() {
    assert_eq!(size_align(usize::MAX, 1), None);
    assert_eq!(size_align(usize::MAX - 14, 1), None);
    assert_eq!(size_align(usize::MAX - 15, 1), Some((usize::MAX - 15, 16)));
}

#[test]
fn cut_start_is_the_first_aligned_address_that_fits() {
    let block = FreeBlock { start: 0x1010, size: 0x100 };
    assert_eq!(block.cut_start(16, 16), Some(0x1010));
    assert_eq!(block.cut_start(0x100, 16), Some(0x1010));
    assert_eq!(block.cut_start(0x101, 16), None);
    assert_eq!(block.cut_start(16, 64), Some(0x1040));
    assert_eq!(block.cut_start(0xd0, 64), Some(0x1040));
    assert_eq!(block.cut_start(0xd1, 64), None);
    assert_eq!(block.cut_start(16, 0x1000), None);
    assert_eq!(block.cut_start(usize::MAX, 16), None);
}

#[test]
fn list_new_has_no_memory() {
    let mut list = LinkedListAllocator::new();
    assert!(list.free_chain().is_empty());
    assert_eq!(list.allocate(1, 1), None);
    assert_eq!(list.allocate(0, 1), None);
}

#[test]
fn list_init_makes_one_block_of_the_heap() {
    let list = fresh_list();
    assert_eq!(chain_of(&list), vec![(LIST_START, LIST_SIZE)]);
}

#[test]
fn list_init_cuts_the_range_back_to_whole_blocks() {
    let mut list = LinkedListAllocator::new();
    list.init(0x1001, 0x100);
    assert_eq!(chain_of(&list), vec![(0x1010, 0xf0)]);
    let mut small = LinkedListAllocator::new();
    small.init(0x1001, 30);
    assert!(small.free_chain().is_empty());
    assert_eq!(small.allocate(1, 1), None);
    let mut one = LinkedListAllocator::new();
    one.init(0x1001, 31);
    assert_eq!(chain_of(&one), vec![(0x1010, 0x10)]);
}

#[test]
fn list_allocates_at_the_front_and_keeps_the_rest() {
    let mut list = fresh_list();
    assert_eq!(list.allocate(64, 8), Some(LIST_START));
    assert_eq!(chain_of(&list), vec![(LIST_START + 64, LIST_SIZE - 64)]);
    assert_eq!(list.allocate(1, 1), Some(LIST_START + 64));
    assert_eq!(chain_of(&list), vec![(LIST_START + 80, LIST_SIZE - 80)]);
}

#[test]
fn list_consumes_a_block_that_fits_exactly() {
    let mut list = fresh_list();
    assert_eq!(list.allocate(LIST_SIZE, 16), Some(LIST_START));
    assert!(list.free_chain().is_empty());
    assert_eq!(list.allocate(1, 1), None);
}

#[test]
fn list_puts_the_padding_before_an_aligned_cut_back() {
    let mut list = LinkedListAllocator::new();
    list.init(0x10010, 0x1000);
    assert_eq!(list.allocate(32, 0x100), Some(0x10100));
    assert_eq!(chain_of(&list), vec![(0x10010, 0xf0), (0x10120, 0x1010 + 0x10000 - 0x10120)]);
    assert_eq!(free_bytes_of(&list), 0x1000 - 32);
}

#[test]
fn list_reuses_a_freed_block() {
    let mut list = fresh_list();
    let first = list.allocate(64, 8).unwrap();
    list.deallocate(first, 64, 8);
    let second = list.allocate(32, 8).unwrap();
    assert!(first <= second && second + 32 <= first + 64);
    assert_eq!(second, first);
    assert_eq!(chain_of(&list), vec![(LIST_START + 32, LIST_SIZE - 32)]);
}

#[test]
fn list_reuses_a_freed_block_between_live_ones() {
    let mut list = fresh_list();
    let _below = list.allocate(16, 8).unwrap();
    let first = list.allocate(64, 8).unwrap();
    let _above = list.allocate(16, 8).unwrap();
    list.deallocate(first, 64, 8);
    let second = list.allocate(32, 8).unwrap();
    assert!(first <= second && second + 32 <= first + 64);
    assert_eq!(
        chain_of(&list),
        vec![(LIST_START + 48, 32), (LIST_START + 96, LIST_SIZE - 96)]
    );
}

#[test]
fn list_deallocate_keeps_the_chain_in_the_order_of_the_addresses() {
    let mut list = fresh_list();
    let a = list.allocate(16, 16).unwrap();
    let _b = list.allocate(16, 16).unwrap();
    let c = list.allocate(32, 16).unwrap();
    let _d = list.allocate(16, 16).unwrap();
    let e = list.allocate(48, 16).unwrap();
    let _f = list.allocate(16, 16).unwrap();
    let rest = (LIST_START + 144, LIST_SIZE - 144);
    list.deallocate(c, 32, 16);
    assert_eq!(chain_of(&list), vec![(c, 32), rest]);
    list.deallocate(e, 48, 16);
    assert_eq!(chain_of(&list), vec![(c, 32), (e, 48), rest]);
    list.deallocate(a, 16, 16);
    assert_eq!(chain_of(&list), vec![(a, 16), (c, 32), (e, 48), rest]);
}

#[test]
fn list_deallocate_merges_with_the_block_below() {
    let mut list = fresh_list();
    let a = list.allocate(16, 16).unwrap();
    let b = list.allocate(48, 16).unwrap();
    let _c = list.allocate(16, 16).unwrap();
    let rest = (LIST_START + 80, LIST_SIZE - 80);
    list.deallocate(a, 16, 16);
    assert_eq!(chain_of(&list), vec![(a, 16), rest]);
    list.deallocate(b, 48, 16);
    assert_eq!(chain_of(&list), vec![(a, 64), rest]);
}

#[test]
fn list_deallocate_merges_with_the_block_above() {
    let mut list = fresh_list();
    let a = list.allocate(16, 16).unwrap();
    let b = list.allocate(48, 16).unwrap();
    let _c = list.allocate(16, 16).unwrap();
    let rest = (LIST_START + 80, LIST_SIZE - 80);
    list.deallocate(b, 48, 16);
    assert_eq!(chain_of(&list), vec![(b, 48), rest]);
    list.deallocate(a, 16, 16);
    assert_eq!(chain_of(&list), vec![(a, 64), rest]);
}

#[test]
fn list_deallocate_merges_with_the_blocks_on_both_sides() {
    let mut list = fresh_list();
    let a = list.allocate(16, 16).unwrap();
    let b = list.allocate(48, 16).unwrap();
    list.deallocate(a, 16, 16);
    assert_eq!(chain_of(&list), vec![(a, 16), (LIST_START + 64, LIST_SIZE - 64)]);
    list.deallocate(b, 48, 16);
    assert_eq!(chain_of(&list), vec![(LIST_START, LIST_SIZE)]);
}

#[test]
fn list_does_not_fragment_under_alternating_sizes() {
    let mut list = fresh_list();
    let mut round = 0;
    while round < 1000 {
        let large = list.allocate(64, 8).unwrap();
        list.deallocate(large, 64, 8);
        let small = list.allocate(32, 8).unwrap();
        list.deallocate(small, 32, 8);
        assert_eq!(chain_of(&list), vec![(LIST_START, LIST_SIZE)]);
        round += 1;
    }
    assert_eq!(list.allocate(LIST_SIZE, 16), Some(LIST_START));
}

#[test]
fn list_takes_the_first_block_that_fits() {
    let mut list = fresh_list();
    let a = list.allocate(16, 16).unwrap();
    let b = list.allocate(64, 16).unwrap();
    let _c = list.allocate(16, 16).unwrap();
    let d = list.allocate(32, 16).unwrap();
    let _e = list.allocate(16, 16).unwrap();
    list.deallocate(d, 32, 16);
    list.deallocate(b, 64, 16);
    // the chain: b (64), d (32), the rest
    assert_eq!(list.allocate(32, 16), Some(b));
    assert_eq!(chain_of(&list)[0], (b + 32, 32));
    assert_eq!(list.allocate(48, 16), Some(LIST_START + 144));
    assert_eq!(list.allocate(32, 16), Some(b + 32));
    assert_eq!(list.allocate(32, 16), Some(d));
    list.deallocate(a, 16, 16);
    assert_eq!(list.allocate(1, 1), Some(a));
}

#[test]
fn list_free_bytes_change_by_the_granted_size() {
    let mut list = fresh_list();
    assert_eq!(free_bytes_of(&list), LIST_SIZE);
    let a = list.allocate(20, 4).unwrap();
    assert_eq!(free_bytes_of(&list), LIST_SIZE - 32);
    let b = list.allocate(1, 128).unwrap();
    assert_eq!(free_bytes_of(&list), LIST_SIZE - 48);
    list.deallocate(a, 20, 4);
    assert_eq!(free_bytes_of(&list), LIST_SIZE - 16);
    list.deallocate(b, 1, 128);
    assert_eq!(free_bytes_of(&list), LIST_SIZE);
}

#[test]
fn list_addresses_are_aligned_and_disjoint() {
    let mut list = fresh_list();
    let sizes: [usize; 7] = [1, 24, 64, 3, 100, 16, 200];
    let aligns: [usize; 7] = [1, 8, 64, 2, 256, 32, 16];
    let mut taken: Vec<(usize, usize)> = Vec::new();
    let mut i = 0;
    while i < 7 {
        let addr = list.allocate(sizes[i], aligns[i]).unwrap();
        assert_eq!(addr % aligns[i], 0);
        assert!(addr >= LIST_START);
        assert!(addr + sizes[i] <= LIST_START + LIST_SIZE);
        for &(other, other_size) in taken.iter() {
            assert!(other + other_size <= addr || addr + sizes[i] <= other);
        }
        taken.push((addr, sizes[i]));
        if i == 3 {
            let (gone, gone_size) = taken.remove(1);
            list.deallocate(gone, gone_size, aligns[1]);
        }
        i += 1;
    }
}

#[test]
fn list_fails_on_more_than_the_heap() {
    let mut list = fresh_list();
    assert_eq!(list.allocate(LIST_SIZE + 1, 1), None);
    assert_eq!(chain_of(&list), vec![(LIST_START, LIST_SIZE)]);
    assert_eq!(list.allocate(usize::MAX, 1), None);
    assert_eq!(chain_of(&list), vec![(LIST_START, LIST_SIZE)]);
}

#[test]
fn list_failure_leaves_no_residue() {
    let mut failed = fresh_list();
    assert_eq!(failed.allocate(LIST_SIZE + 1, 8), None);
    let mut clean = fresh_list();
    assert_eq!(failed.allocate(40, 8), clean.allocate(40, 8));
    assert_eq!(chain_of(&failed), chain_of(&clean));
}

#[test]
fn list_exhaustion_then_one_more_fails() {
    let mut list = fresh_list();
    let mut count = 0;
    while list.allocate(16, 16).is_some() {
        count += 1;
        assert!(count <= LIST_SIZE / MIN_BLOCK_SIZE);
    }
    assert_eq!(count, LIST_SIZE / MIN_BLOCK_SIZE);
    assert_eq!(list.allocate(16, 16), None);
    assert_eq!(list.allocate(1, 1), None);
    assert!(list.free_chain().is_empty());
}

#[test]
fn list_gives_everything_back() {
    let mut list = fresh_list();
    let mut taken: Vec<usize> = Vec::new();
    while let Some(addr) = list.allocate(48, 16) {
        taken.push(addr);
    }
    let mut index = 0;
    while index < taken.len() {
        // the even ones first, then the odd ones between them
        if index % 2 == 0 {
            list.deallocate(taken[index], 48, 16);
        }
        index += 1;
    }
    index = 0;
    while index < taken.len() {
        if index % 2 == 1 {
            list.deallocate(taken[index], 48, 16);
        }
        index += 1;
    }
    assert_eq!(free_bytes_of(&list), LIST_SIZE);
    assert_eq!(chain_of(&list), vec![(LIST_START, LIST_SIZE)]);
    assert_eq!(list.allocate(48, 16), Some(LIST_START));
}
