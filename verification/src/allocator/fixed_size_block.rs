//! The size-class allocator: one list of free blocks for each of a few block
//! sizes, and a free-list allocator behind them for every other request.
//!
//! A request is served from the list of the smallest class that holds it. An
//! empty list gets a new block of its class from the fallback allocator. A
//! block of a class that is given back goes to the list of its class and
//! stays there.

use super::linked_list::{granted_apart, granted_in, lemma_granted_size, live_ok};
use super::linked_list::{initial_chain, usable_end, usable_start, FreeBlock, LinkedListAllocator};
use super::{all_within, is_aligned, is_power_of_two, lemma_aligned_to_smaller, pairwise_disjoint};
use super::{Allocation, HeapStrategy};
use vstd::arithmetic::power2::{lemma2_to64, pow2};
use vstd::multiset::Multiset;
use vstd::prelude::*;

verus! {

/// The number of size classes.
pub const NUM_CLASSES: usize = 9;

/// The block size of the largest class.
pub const MAX_BLOCK_SIZE: usize = 2048;

/// The block size of the class `index`: 8 for the first class, and twice
/// the size of the class before for each other.
pub open spec fn class_size(index: int) -> usize {
    if index <= 0 {
        8
    } else if index == 1 {
        16
    } else if index == 2 {
        32
    } else if index == 3 {
        64
    } else if index == 4 {
        128
    } else if index == 5 {
        256
    } else if index == 6 {
        512
    } else if index == 7 {
        1024
    } else {
        2048
    }
}

/// The size that a block must have to serve a request of `size` bytes
/// aligned to `align`: the larger of the two, as a block of a class is
/// aligned to its size.
pub open spec fn required_size(size: usize, align: usize) -> usize {
    if size >= align {
        size
    } else {
        align
    }
}

/// Whether `index` is the smallest class whose blocks have at least `required` bytes.
pub open spec fn is_smallest_class(index: int, required: usize) -> bool {
    &&& 0 <= index < NUM_CLASSES
    &&& class_size(index) >= required
    &&& forall|j: int| 0 <= j < index ==> #[trigger] class_size(j) < required
}

/// The class that serves a request of `size` bytes aligned to `align`, or
/// `None` where the request is too large for every class.
pub open spec fn class_of(size: usize, align: usize) -> Option<usize> {
    let required = required_size(size, align);
    if required > MAX_BLOCK_SIZE {
        None
    } else {
        Some(choose|index: usize| is_smallest_class(index as int, required))
    }
}

/// The class of a request is the smallest class that holds it, and there is
/// none only for a request that is larger than the largest class.
pub proof fn lemma_class_of(size: usize, align: usize)
    ensures
        class_of(size, align) matches Some(index) ==> is_smallest_class(
            index as int,
            required_size(size, align),
        ),
        class_of(size, align).is_none() <==> required_size(size, align) > MAX_BLOCK_SIZE,
        forall|index: int| #[trigger]
            is_smallest_class(index, required_size(size, align)) ==> class_of(size, align) == Some(
                index as usize,
            ),
{
    let required = required_size(size, align);
    if required <= MAX_BLOCK_SIZE {
        let witness: usize = if required <= 8 {
            0
        } else if required <= 16 {
            1
        } else if required <= 32 {
            2
        } else if required <= 64 {
            3
        } else if required <= 128 {
            4
        } else if required <= 256 {
            5
        } else if required <= 512 {
            6
        } else if required <= 1024 {
            7
        } else {
            8
        };
        assert(is_smallest_class(witness as int, required));
        let chosen = choose|index: usize| is_smallest_class(index as int, required);
        assert forall|index: int| #[trigger] is_smallest_class(index, required) implies index
            == chosen by {
            if index < chosen {
                assert(class_size(index) < required);
            } else if chosen < index {
                assert(class_size(chosen as int) < required);
            }
        }
    } else {
        assert forall|index: int| !#[trigger] is_smallest_class(index, required) by {}
    }
}

/// The block size of a class is a power of two.
pub proof fn lemma_class_size_is_power_of_two(index: int)
    ensures
        is_power_of_two(class_size(index) as int),
{
    lemma2_to64();
    let exponent: nat = if index <= 0 {
        3
    } else if index >= 8 {
        11
    } else {
        (index + 3) as nat
    };
    assert(class_size(index) as int == pow2(exponent));
}

/// The block size of the class `index`.
pub fn block_size(index: usize) -> (r: usize)
    requires
        index < NUM_CLASSES,
    ensures
        r == class_size(index as int),
{
    if index == 0 {
        8
    } else if index == 1 {
        16
    } else if index == 2 {
        32
    } else if index == 3 {
        64
    } else if index == 4 {
        128
    } else if index == 5 {
        256
    } else if index == 6 {
        512
    } else if index == 7 {
        1024
    } else {
        2048
    }
}

/// Choose an appropriate block size for the given request: the index of the
/// smallest class that holds it.
pub fn list_index(size: usize, align: usize) -> (r: Option<usize>)
    ensures
        r == class_of(size, align),
{
    let required: usize = if size >= align {
        size
    } else {
        align
    };
    let mut index: usize = 0;
    while index < NUM_CLASSES
        invariant
            index <= NUM_CLASSES,
            required == required_size(size, align),
            forall|j: int| 0 <= j < index ==> #[trigger] class_size(j) < required,
        decreases NUM_CLASSES - index,
    {
        if block_size(index) >= required {
            proof {
                assert(is_smallest_class(index as int, required));
                lemma_class_of(size, align);
            }
            return Some(index);
        }
        index = index + 1;
    }
    proof {
        assert(class_size(8) < required);
    }
    None
}

/// The block of the class `index` at `addr`, as the fallback allocator knows it.
pub open spec fn class_block(index: int, addr: usize) -> Allocation {
    Allocation { addr, size: class_size(index), align: class_size(index) }
}

/// What the fallback allocator was asked for to serve the allocation `a`:
/// a block of the class of `a`, or `a` itself where it has no class.
pub open spec fn backing(a: Allocation) -> Allocation {
    match class_of(a.size, a.align) {
        Some(index) => class_block(index as int, a.addr),
        None => a,
    }
}

/// Whether `k` is a place in the list of the class `i`.
pub open spec fn in_lists(lists: Seq<Seq<usize>>, i: int, k: int) -> bool {
    0 <= i < lists.len() && 0 <= k < lists[i].len()
}

/// Whether `a` and `b` are at different addresses.
pub open spec fn apart_by_address(a: Allocation, b: Allocation) -> bool {
    a.addr != b.addr
}

/// Whether every block in a list is a block that the fallback allocator
/// handed out, and is aligned to the size of its class.
pub open spec fn lists_backed(lists: Seq<Seq<usize>>, backed: Multiset<Allocation>) -> bool {
    forall|i: int, k: int| #[trigger]
        in_lists(lists, i, k) ==> backed.count(class_block(i, lists[i][k])) > 0 && is_aligned(
            lists[i][k] as int,
            class_size(i) as int,
        )
}

/// Whether every live allocation lies in a block that the fallback
/// allocator handed out, and is aligned to the alignment of that block.
pub open spec fn live_backed(live: Multiset<Allocation>, backed: Multiset<Allocation>) -> bool {
    forall|a: Allocation| #[trigger]
        live.count(a) > 0 ==> backed.count(backing(a)) > 0 && is_aligned(
            a.addr as int,
            backing(a).align as int,
        )
}

/// Whether no two of the live allocations and the blocks in the lists are
/// at one address.
pub open spec fn addresses_distinct(lists: Seq<Seq<usize>>, live: Multiset<Allocation>) -> bool {
    &&& forall|a: Allocation, b: Allocation|
        live.count(a) > 0 && live.count(b) > 0 && (a != b || live.count(a) >= 2)
            ==> #[trigger] apart_by_address(a, b)
    &&& forall|i: int, k: int, j: int, l: int|
        #[trigger] in_lists(lists, i, k) && #[trigger] in_lists(lists, j, l) && (i != j || k != l)
            ==> lists[i][k] != lists[j][l]
    &&& forall|a: Allocation, i: int, k: int|
        live.count(a) > 0 && #[trigger] in_lists(lists, i, k) ==> #[trigger] apart_by_address(
            a,
            class_block(i, lists[i][k]),
        )
}

/// The invariant that ties the lists and the live allocations to what the
/// fallback allocator handed out.
pub open spec fn classes_ok(
    lists: Seq<Seq<usize>>,
    live: Multiset<Allocation>,
    backed: Multiset<Allocation>,
) -> bool {
    &&& lists.len() == NUM_CLASSES
    &&& lists_backed(lists, backed)
    &&& live_backed(live, backed)
    &&& addresses_distinct(lists, live)
}

/// Every live allocation lies in the heap, and no two overlap, as the
/// blocks that back them do not.
pub proof fn lemma_live_apart(
    lists: Seq<Seq<usize>>,
    live: Multiset<Allocation>,
    backed: Multiset<Allocation>,
    lo: int,
    hi: int,
)
    requires
        classes_ok(lists, live, backed),
        live_ok(backed, lo, hi),
    ensures
        pairwise_disjoint(live),
        all_within(live, lo, hi),
{
    assert forall|a: Allocation| #[trigger] live.count(a) > 0 implies lo <= a.addr && a.end()
        <= hi by {
        lemma_backing(a);
        lemma_granted_size(backing(a).size);
        assert(granted_in(backing(a), lo, hi));
    }
    assert forall|a: Allocation, b: Allocation|
        live.count(a) > 0 && live.count(b) > 0 && (a != b || live.count(a)
            >= 2) implies #[trigger] a.disjoint(b) by {
        assert(apart_by_address(a, b));
        lemma_backing(a);
        lemma_backing(b);
        lemma_granted_size(backing(a).size);
        lemma_granted_size(backing(b).size);
        assert(granted_apart(backing(a), backing(b)));
    }
}

/// The block that backs an allocation is at its address and is at least as
/// large, with an alignment that is a multiple of the one asked for.
pub proof fn lemma_backing(a: Allocation)
    ensures
        backing(a).addr == a.addr,
        backing(a).size >= a.size,
        backing(a).align >= a.align,
        class_of(a.size, a.align) matches Some(index) ==> backing(a) == class_block(
            index as int,
            a.addr,
        ) && index < NUM_CLASSES,
        class_of(a.size, a.align).is_none() ==> backing(a) == a,
{
    lemma_class_of(a.size, a.align);
}

/// A block of a list serves an allocation of its class: the invariant holds
/// with the block out of the list and the allocation live.
pub proof fn lemma_classes_pop(
    lists: Seq<Seq<usize>>,
    live: Multiset<Allocation>,
    backed: Multiset<Allocation>,
    index: int,
    a: Allocation,
)
    requires
        classes_ok(lists, live, backed),
        class_of(a.size, a.align) == Some(index as usize),
        0 <= index < NUM_CLASSES,
        lists[index].len() > 0,
        a.addr == lists[index].last(),
    ensures
        classes_ok(lists.update(index, lists[index].drop_last()), live.insert(a), backed),
{
    let after = lists.update(index, lists[index].drop_last());
    let grown = live.insert(a);
    let top = lists[index].len() - 1;
    lemma_backing(a);
    assert(in_lists(lists, index, top));
    assert forall|i: int, k: int| #[trigger] in_lists(after, i, k) implies in_lists(lists, i, k)
        && after[i][k] == lists[i][k] && !(i == index && k == top) by {}
    assert forall|b: Allocation| #[trigger] grown.count(b) > 0 implies backed.count(backing(b))
        > 0 && is_aligned(b.addr as int, backing(b).align as int) by {
        if b != a {
            assert(live.count(b) > 0);
        }
    }
    assert forall|b: Allocation, c: Allocation|
        grown.count(b) > 0 && grown.count(c) > 0 && (b != c || grown.count(b)
            >= 2) implies #[trigger] apart_by_address(b, c) by {
        if b == a && c == a {
            assert(live.count(a) > 0);
            assert(apart_by_address(a, class_block(index, lists[index][top])));
        } else if b == a {
            assert(live.count(c) > 0);
            assert(apart_by_address(c, class_block(index, lists[index][top])));
        } else if c == a {
            assert(live.count(b) > 0);
            assert(apart_by_address(b, class_block(index, lists[index][top])));
        } else {
            assert(live.count(b) > 0 && live.count(c) > 0);
        }
    }
    assert forall|b: Allocation, i: int, k: int|
        grown.count(b) > 0 && #[trigger] in_lists(after, i, k) implies #[trigger] apart_by_address(
        b,
        class_block(i, after[i][k]),
    ) by {
        assert(in_lists(lists, i, k));
        if b != a {
            assert(live.count(b) > 0);
            assert(apart_by_address(b, class_block(i, lists[i][k])));
        }
    }
}

/// The fallback allocator hands out a block for an allocation: the
/// invariant holds with the allocation live.
pub proof fn lemma_classes_grow(
    lists: Seq<Seq<usize>>,
    live: Multiset<Allocation>,
    backed: Multiset<Allocation>,
    a: Allocation,
    lo: int,
    hi: int,
)
    requires
        classes_ok(lists, live, backed),
        live_ok(backed.insert(backing(a)), lo, hi),
        is_aligned(a.addr as int, backing(a).align as int),
    ensures
        classes_ok(lists, live.insert(a), backed.insert(backing(a))),
{
    let grown = live.insert(a);
    let more = backed.insert(backing(a));
    lemma_backing(a);
    lemma_granted_size(backing(a).size);
    assert forall|i: int, k: int| #[trigger] in_lists(lists, i, k) implies more.count(
        class_block(i, lists[i][k]),
    ) > 0 by {
        assert(backed.count(class_block(i, lists[i][k])) > 0);
    }
    assert forall|b: Allocation| #[trigger] grown.count(b) > 0 implies more.count(backing(b)) > 0
        && is_aligned(b.addr as int, backing(b).align as int) by {
        if b != a {
            assert(live.count(b) > 0);
            assert(backed.count(backing(b)) > 0);
        }
    }
    // what was backed before cannot be at the address of the new block
    assert forall|b: Allocation| backed.count(b) > 0 implies b.addr != a.addr by {
        lemma_granted_size(b.size);
        assert(granted_apart(b, backing(a)));
    }
    assert forall|b: Allocation, c: Allocation|
        grown.count(b) > 0 && grown.count(c) > 0 && (b != c || grown.count(b)
            >= 2) implies #[trigger] apart_by_address(b, c) by {
        if b == a && c == a {
            assert(live.count(a) > 0);
            assert(backed.count(backing(a)) > 0);
        } else if b == a {
            assert(live.count(c) > 0);
            lemma_backing(c);
            assert(backed.count(backing(c)) > 0);
        } else if c == a {
            assert(live.count(b) > 0);
            lemma_backing(b);
            assert(backed.count(backing(b)) > 0);
        } else {
            assert(live.count(b) > 0 && live.count(c) > 0);
        }
    }
    assert forall|b: Allocation, i: int, k: int|
        grown.count(b) > 0 && #[trigger] in_lists(lists, i, k) implies #[trigger] apart_by_address(
        b,
        class_block(i, lists[i][k]),
    ) by {
        if b != a {
            assert(live.count(b) > 0);
        } else {
            assert(backed.count(class_block(i, lists[i][k])) > 0);
        }
    }
}

/// An allocation of a class is given back: the invariant holds with its
/// block at the head of the list of its class.
pub proof fn lemma_classes_push(
    lists: Seq<Seq<usize>>,
    live: Multiset<Allocation>,
    backed: Multiset<Allocation>,
    index: int,
    a: Allocation,
)
    requires
        classes_ok(lists, live, backed),
        class_of(a.size, a.align) == Some(index as usize),
        0 <= index < NUM_CLASSES,
        live.count(a) > 0,
    ensures
        classes_ok(lists.update(index, lists[index].push(a.addr)), live.remove(a), backed),
{
    let after = lists.update(index, lists[index].push(a.addr));
    let fewer = live.remove(a);
    let top = lists[index].len() as int;
    lemma_backing(a);
    assert(live.count(a) >= 2 ==> apart_by_address(a, a));
    assert(fewer.count(a) == 0);
    assert forall|i: int, k: int| #[trigger] in_lists(after, i, k) implies (i == index && k == top
        && after[i][k] == a.addr) || (in_lists(lists, i, k) && after[i][k] == lists[i][k]) by {}
    assert forall|i: int, k: int| #[trigger] in_lists(after, i, k) implies backed.count(
        class_block(i, after[i][k]),
    ) > 0 && is_aligned(after[i][k] as int, class_size(i) as int) by {
        if in_lists(lists, i, k) {
        }
    }
    assert forall|b: Allocation| #[trigger] fewer.count(b) > 0 implies backed.count(backing(b))
        > 0 && is_aligned(b.addr as int, backing(b).align as int) by {
        assert(live.count(b) > 0);
    }
    assert forall|b: Allocation, c: Allocation|
        fewer.count(b) > 0 && fewer.count(c) > 0 && (b != c || fewer.count(b)
            >= 2) implies #[trigger] apart_by_address(b, c) by {
        assert(live.count(b) > 0 && live.count(c) > 0);
        assert(b != a && c != a);
    }
    assert forall|i: int, k: int, j: int, l: int|
        #[trigger] in_lists(after, i, k) && #[trigger] in_lists(after, j, l) && (i != j || k
            != l) implies after[i][k] != after[j][l] by {
        if i == index && k == top {
            assert(in_lists(lists, j, l));
            assert(apart_by_address(a, class_block(j, lists[j][l])));
        } else if j == index && l == top {
            assert(in_lists(lists, i, k));
            assert(apart_by_address(a, class_block(i, lists[i][k])));
        } else {
            assert(in_lists(lists, i, k) && in_lists(lists, j, l));
        }
    }
    assert forall|b: Allocation, i: int, k: int|
        fewer.count(b) > 0 && #[trigger] in_lists(after, i, k) implies #[trigger] apart_by_address(
        b,
        class_block(i, after[i][k]),
    ) by {
        assert(live.count(b) > 0);
        assert(b != a);
        if i == index && k == top {
            assert(apart_by_address(b, a));
        } else {
            assert(in_lists(lists, i, k));
            assert(apart_by_address(b, class_block(i, lists[i][k])));
        }
    }
}

/// An allocation without a class is given back: the fallback allocator
/// knows it, and the invariant holds without it.
pub proof fn lemma_classes_shrink(
    lists: Seq<Seq<usize>>,
    live: Multiset<Allocation>,
    backed: Multiset<Allocation>,
    a: Allocation,
)
    requires
        classes_ok(lists, live, backed),
        class_of(a.size, a.align).is_none(),
        live.count(a) > 0,
    ensures
        backed.count(a) > 0,
        classes_ok(lists, live.remove(a), backed.remove(a)),
{
    let fewer = live.remove(a);
    let less = backed.remove(a);
    lemma_backing(a);
    assert(live.count(a) >= 2 ==> apart_by_address(a, a));
    assert forall|i: int, k: int| #[trigger] in_lists(lists, i, k) implies less.count(
        class_block(i, lists[i][k]),
    ) > 0 by {
        assert(apart_by_address(a, class_block(i, lists[i][k])));
        assert(backed.count(class_block(i, lists[i][k])) > 0);
    }
    assert forall|b: Allocation| #[trigger] fewer.count(b) > 0 implies less.count(backing(b)) > 0
        && is_aligned(b.addr as int, backing(b).align as int) by {
        assert(live.count(b) > 0);
        assert(b != a);
        assert(apart_by_address(b, a));
        lemma_backing(b);
        assert(backed.count(backing(b)) > 0);
    }
    assert forall|b: Allocation, c: Allocation|
        fewer.count(b) > 0 && fewer.count(c) > 0 && (b != c || fewer.count(b)
            >= 2) implies #[trigger] apart_by_address(b, c) by {
        assert(live.count(b) > 0 && live.count(c) > 0);
    }
    assert forall|b: Allocation, i: int, k: int|
        fewer.count(b) > 0 && #[trigger] in_lists(lists, i, k) implies #[trigger] apart_by_address(
        b,
        class_block(i, lists[i][k]),
    ) by {
        assert(live.count(b) > 0);
    }
}

/// Whether an allocation is of the class `index`.
pub open spec fn of_class(index: int) -> spec_fn(Allocation) -> bool {
    |a: Allocation| class_of(a.size, a.align) == Some(index as usize)
}

/// The number of allocations of `live` that are of the class `index`.
pub open spec fn live_of_class(live: Multiset<Allocation>, index: int) -> nat {
    live.filter(of_class(index)).len()
}

/// Whether, for each class, the blocks in its list and its live allocations
/// together are no more than `peak` says.
pub open spec fn lists_bounded(
    lists: Seq<Seq<usize>>,
    live: Multiset<Allocation>,
    peak: Seq<nat>,
) -> bool {
    &&& peak.len() == NUM_CLASSES
    &&& forall|i: int|
        0 <= i < NUM_CLASSES ==> lists[i].len() + live_of_class(live, i) <= #[trigger] peak[i]
}

/// For each class the larger of what `peak` says and the number of
/// allocations of `live` that are of the class.
pub open spec fn raised_peak(peak: Seq<nat>, live: Multiset<Allocation>) -> Seq<nat> {
    Seq::new(
        NUM_CLASSES as nat,
        |i: int|
            if peak[i] >= live_of_class(live, i) {
                peak[i]
            } else {
                live_of_class(live, i)
            },
    )
}

/// A new allocation counts for its class, and for no other.
pub proof fn lemma_live_of_class_insert(live: Multiset<Allocation>, a: Allocation, index: int)
    ensures
        live_of_class(live.insert(a), index) == live_of_class(live, index) + (if class_of(
            a.size,
            a.align,
        ) == Some(index as usize) {
            1nat
        } else {
            0nat
        }),
{
    let f = of_class(index);
    if f(a) {
        assert(live.insert(a).filter(f) =~= live.filter(f).insert(a));
    } else {
        assert(live.insert(a).filter(f) =~= live.filter(f));
    }
}

/// An allocation that is given back counts no more for its class.
pub proof fn lemma_live_of_class_remove(live: Multiset<Allocation>, a: Allocation, index: int)
    requires
        live.count(a) > 0,
    ensures
        live_of_class(live.remove(a), index) == live_of_class(live, index) - (if class_of(
            a.size,
            a.align,
        ) == Some(index as usize) {
            1nat
        } else {
            0nat
        }),
{
    let f = of_class(index);
    if f(a) {
        assert(live.remove(a).filter(f) =~= live.filter(f).remove(a));
        assert(live.filter(f).count(a) > 0);
    } else {
        assert(live.remove(a).filter(f) =~= live.filter(f));
    }
}

/// The bound on the lists holds after an allocation, with the peak raised,
/// where the allocation took a block from the list of its class or that
/// list was empty.
pub proof fn lemma_bounded_allocate(
    lists: Seq<Seq<usize>>,
    after: Seq<Seq<usize>>,
    live: Multiset<Allocation>,
    peak: Seq<nat>,
    a: Allocation,
)
    requires
        lists.len() == NUM_CLASSES,
        after.len() == NUM_CLASSES,
        lists_bounded(lists, live, peak),
        forall|i: int|
            0 <= i < NUM_CLASSES && class_of(a.size, a.align) != Some(i as usize) ==> after[i]
                == lists[i],
        class_of(a.size, a.align) matches Some(index) ==> after[index as int].len() == (
        if lists[index as int].len() > 0 {
            lists[index as int].len() - 1
        } else {
            0
        }),
    ensures
        lists_bounded(after, live.insert(a), raised_peak(peak, live.insert(a))),
{
    let grown = live.insert(a);
    let raised = raised_peak(peak, grown);
    lemma_class_of(a.size, a.align);
    assert forall|i: int| 0 <= i < NUM_CLASSES implies after[i].len() + live_of_class(grown, i)
        <= #[trigger] raised[i] by {
        lemma_live_of_class_insert(live, a, i);
        assert(lists[i].len() + live_of_class(live, i) <= peak[i]);
    }
}

/// The bound on the lists holds after an allocation is given back, where
/// its block went to the list of its class, if it has one.
pub proof fn lemma_bounded_deallocate(
    lists: Seq<Seq<usize>>,
    after: Seq<Seq<usize>>,
    live: Multiset<Allocation>,
    peak: Seq<nat>,
    a: Allocation,
)
    requires
        lists.len() == NUM_CLASSES,
        after.len() == NUM_CLASSES,
        lists_bounded(lists, live, peak),
        live.count(a) > 0,
        forall|i: int|
            0 <= i < NUM_CLASSES && class_of(a.size, a.align) != Some(i as usize) ==> after[i]
                == lists[i],
        class_of(a.size, a.align) matches Some(index) ==> after[index as int].len()
            == lists[index as int].len() + 1,
    ensures
        lists_bounded(after, live.remove(a), peak),
{
    let fewer = live.remove(a);
    lemma_class_of(a.size, a.align);
    assert forall|i: int| 0 <= i < NUM_CLASSES implies after[i].len() + live_of_class(fewer, i)
        <= #[trigger] peak[i] by {
        lemma_live_of_class_remove(live, a, i);
        assert(lists[i].len() + live_of_class(live, i) <= peak[i]);
    }
}

/// Size-Class Allocator
pub struct FixedSizeBlockAllocator {
    /// for each class its free blocks, the head of the list last
    list_heads: Vec<Vec<usize>>,
    /// serves what no list can serve
    fallback_allocator: LinkedListAllocator,
    /// the allocated memory chunks
    live: Ghost<Multiset<Allocation>>,
    /// for each class the most allocations that were live at once
    peak: Ghost<Seq<nat>>,
}

impl FixedSizeBlockAllocator {
    /// For each class the largest number of its allocations that were live
    /// at once, so far.
    pub closed spec fn peak_live(&self) -> Seq<nat> {
        self.peak@
    }

    /// For each class the addresses of its free blocks, the head of the list last.
    pub closed spec fn lists(&self) -> Seq<Seq<usize>> {
        Seq::new(self.list_heads@.len(), |i: int| self.list_heads@[i]@)
    }

    /// The allocator behind the lists.
    pub closed spec fn fallback(&self) -> LinkedListAllocator {
        self.fallback_allocator
    }

    /// Whether a request of `size` bytes aligned to `align` gets the answer
    /// `r` from the allocator `self` and leaves it as `after`: the head of
    /// the list of the request's class where that list is not empty, else a
    /// new block of the class from the fallback allocator; and what the
    /// fallback allocator gives to the request itself where it has no class.
    pub open spec fn allocates(self, size: usize, align: usize, r: Option<usize>, after: Self) -> bool {
        &&& r.is_some() ==> after.peak_live() == raised_peak(self.peak_live(), after.live())
        &&& match class_of(size, align) {
            Some(index) => if self.lists()[index as int].len() > 0 {
                &&& r == Some(self.lists()[index as int].last())
                &&& after.lists() == self.lists().update(
                    index as int,
                    self.lists()[index as int].drop_last(),
                )
                &&& after.fallback() == self.fallback()
            } else {
                &&& self.fallback().allocates(
                    class_size(index as int),
                    class_size(index as int),
                    r,
                    after.fallback(),
                )
                &&& after.lists() == self.lists()
            },
            None => {
                &&& self.fallback().allocates(size, align, r, after.fallback())
                &&& after.lists() == self.lists()
            },
        }
    }

    /// Whether giving back the allocation at `addr`, of `size` bytes aligned
    /// to `align`, leaves the allocator `self` as `after`: the block is the
    /// head of the list of its class, or is back with the fallback allocator
    /// where it has no class.
    pub open spec fn deallocates(self, addr: usize, size: usize, align: usize, after: Self) -> bool {
        &&& after.peak_live() == self.peak_live()
        &&& match class_of(size, align) {
            Some(index) => {
                &&& after.lists() == self.lists().update(
                    index as int,
                    self.lists()[index as int].push(addr),
                )
                &&& after.fallback() == self.fallback()
            },
            None => {
                &&& self.fallback().deallocates(addr, size, align, after.fallback())
                &&& after.lists() == self.lists()
            },
        }
    }

    /// Creates an empty allocator: no heap, and every list empty.
    pub fn new() -> (r: Self)
        ensures
            r.wf(),
            r.heap_start() == 0,
            r.heap_end() == 0,
            r.live() == Multiset::<Allocation>::empty(),
            r.fallback().live() == Multiset::<Allocation>::empty(),
            r.lists() == Seq::new(NUM_CLASSES as nat, |i: int| Seq::<usize>::empty()),
            r.peak_live() == Seq::new(NUM_CLASSES as nat, |i: int| 0nat),
    {
        let mut list_heads: Vec<Vec<usize>> = Vec::new();
        let mut index: usize = 0;
        while index < NUM_CLASSES
            invariant
                index <= NUM_CLASSES,
                list_heads@.len() == index,
                forall|i: int| 0 <= i < index ==> (#[trigger] list_heads@[i])@.len() == 0,
            decreases NUM_CLASSES - index,
        {
            list_heads.push(Vec::new());
            index = index + 1;
        }
        let r = FixedSizeBlockAllocator {
            list_heads,
            fallback_allocator: LinkedListAllocator::new(),
            live: Ghost(Multiset::empty()),
            peak: Ghost(Seq::new(NUM_CLASSES as nat, |i: int| 0nat)),
        };
        assert(r.lists() =~~= Seq::new(NUM_CLASSES as nat, |i: int| Seq::<usize>::empty()));
        proof {
            assert forall|i: int| 0 <= i < NUM_CLASSES implies live_of_class(r.live@, i) == 0 by {
                assert(r.live@.filter(of_class(i)) =~= Multiset::<Allocation>::empty());
            }
        }
        r
    }

    /// The number of free blocks in the list of the class `index`.
    pub fn list_len(&self, index: usize) -> (r: usize)
        requires
            self.wf(),
            index < NUM_CLASSES,
        ensures
            r == self.lists()[index as int].len(),
    {
        self.list_heads[index].len()
    }

    /// The chain of free blocks of the fallback allocator, in the order of
    /// their addresses.
    pub fn fallback_chain(&self) -> (r: &Vec<FreeBlock>)
        ensures
            r@ == self.fallback().free_blocks(),
    {
        self.fallback_allocator.free_chain()
    }

    /// Initializes the allocator with the given heap bounds, which go to the
    /// fallback allocator.
    ///
    /// The caller must ensure that the given memory range is unused. No
    /// block may have been handed out by the fallback allocator.
    pub fn init(&mut self, heap_start: usize, heap_size: usize)
        requires
            old(self).wf(),
            old(self).fallback().live().len() == 0,
            heap_start + heap_size <= usize::MAX,
        ensures
            final(self).wf(),
            final(self).live() == old(self).live(),
            final(self).lists() == old(self).lists(),
            final(self).peak_live() == old(self).peak_live(),
            final(self).fallback().live() == old(self).fallback().live(),
            final(self).heap_start() == usable_start(heap_start as int, heap_size as int),
            final(self).heap_end() == usable_end(heap_start as int, heap_size as int),
            final(self).fallback().free_blocks() == initial_chain(
                heap_start as int,
                heap_size as int,
            ),
    {
        self.fallback_allocator.init(heap_start, heap_size);
    }
}

impl FixedSizeBlockAllocator {
    /// The list of a class never holds more blocks than allocations of the
    /// class were live at once: giving back and allocating again in turn
    /// does not let it grow.
    pub proof fn lemma_list_bounded_by_peak(&self, index: int)
        requires
            self.wf(),
            0 <= index < NUM_CLASSES,
        ensures
            self.lists()[index].len() + live_of_class(self.live(), index)
                <= self.peak_live()[index],
    {
    }
}

impl HeapStrategy for FixedSizeBlockAllocator {
    open spec fn wf(&self) -> bool {
        &&& self.fallback().wf()
        &&& classes_ok(self.lists(), self.live(), self.fallback().live())
        &&& lists_bounded(self.lists(), self.live(), self.peak_live())
    }

    open spec fn heap_start(&self) -> usize {
        self.fallback().heap_start()
    }

    open spec fn heap_end(&self) -> usize {
        self.fallback().heap_end()
    }

    closed spec fn live(&self) -> Multiset<Allocation> {
        self.live@
    }

    /// The request can be served where the list of its class holds a block
    /// or the fallback allocator can serve a block of the class, and, for a
    /// request without a class, where the fallback allocator can serve it.
    open spec fn can_allocate(&self, size: usize, align: usize) -> bool {
        match class_of(size, align) {
            Some(index) => self.lists()[index as int].len() > 0 || self.fallback().can_allocate(
                class_size(index as int),
                class_size(index as int),
            ),
            None => self.fallback().can_allocate(size, align),
        }
    }

    /// Serves the request from the list of its class, or from the fallback
    /// allocator where that list is empty or the request has no class.
    #[verifier::rlimit(50)]
    fn allocate(&mut self, size: usize, align: usize) -> (r: Option<usize>)
        ensures
            old(self).allocates(size, align, r, *final(self)),
    {
        proof {
            lemma_class_of(size, align);
        }
        let ghost lo = self.fallback_allocator.heap_start() as int;
        let ghost hi = self.fallback_allocator.heap_end() as int;
        match list_index(size, align) {
            Some(index) => {
                proof {
                    lemma_class_size_is_power_of_two(index as int);
                }
                if self.list_heads[index].len() > 0 {
                    let ghost top = self.list_heads@[index as int]@.len() - 1;
                    let addr = self.list_heads[index].pop().unwrap();
                    let ghost taken = Allocation { addr, size, align };
                    proof {
                        assert(in_lists(old(self).lists(), index as int, top));
                        lemma_backing(taken);
                        lemma_granted_size(class_size(index as int));
                        assert(granted_in(class_block(index as int, addr), lo, hi));
                        lemma_aligned_to_smaller(
                            addr as int,
                            align as int,
                            class_size(index as int) as int,
                        );
                        lemma_classes_pop(
                            old(self).lists(),
                            old(self).live(),
                            old(self).fallback().live(),
                            index as int,
                            taken,
                        );
                        assert(self.lists() =~~= old(self).lists().update(
                            index as int,
                            old(self).lists()[index as int].drop_last(),
                        ));
                        lemma_bounded_allocate(
                            old(self).lists(),
                            self.lists(),
                            old(self).live(),
                            old(self).peak_live(),
                            taken,
                        );
                    }
                    self.live = Ghost(self.live@.insert(taken));
                    self.peak = Ghost(raised_peak(self.peak@, self.live@));
                    Some(addr)
                } else {
                    let size_of_class = block_size(index);
                    let r = self.fallback_allocator.allocate(size_of_class, size_of_class);
                    if let Some(addr) = r {
                        let ghost taken = Allocation { addr, size, align };
                        proof {
                            lemma_backing(taken);
                            lemma_aligned_to_smaller(
                                addr as int,
                                align as int,
                                size_of_class as int,
                            );
                            lemma_classes_grow(
                                old(self).lists(),
                                old(self).live(),
                                old(self).fallback().live(),
                                taken,
                                lo,
                                hi,
                            );
                            assert(self.lists() =~~= old(self).lists());
                            lemma_bounded_allocate(
                                old(self).lists(),
                                self.lists(),
                                old(self).live(),
                                old(self).peak_live(),
                                taken,
                            );
                        }
                        self.live = Ghost(self.live@.insert(taken));
                        self.peak = Ghost(raised_peak(self.peak@, self.live@));
                    }
                    assert(self.lists() =~~= old(self).lists());
                    r
                }
            },
            None => {
                let r = self.fallback_allocator.allocate(size, align);
                if let Some(addr) = r {
                    let ghost taken = Allocation { addr, size, align };
                    proof {
                        lemma_backing(taken);
                        lemma_classes_grow(
                            old(self).lists(),
                            old(self).live(),
                            old(self).fallback().live(),
                            taken,
                            lo,
                            hi,
                        );
                        assert(self.lists() =~~= old(self).lists());
                        lemma_bounded_allocate(
                            old(self).lists(),
                            self.lists(),
                            old(self).live(),
                            old(self).peak_live(),
                            taken,
                        );
                    }
                    self.live = Ghost(self.live@.insert(taken));
                    self.peak = Ghost(raised_peak(self.peak@, self.live@));
                }
                assert(self.lists() =~~= old(self).lists());
                r
            },
        }
    }

    /// Puts a block of a class at the head of the list of its class, and
    /// gives any other allocation back to the fallback allocator.
    #[verifier::rlimit(50)]
    fn deallocate(&mut self, addr: usize, size: usize, align: usize)
        ensures
            old(self).deallocates(addr, size, align, *final(self)),
    {
        let ghost given = Allocation { addr, size, align };
        proof {
            lemma_class_of(size, align);
        }
        match list_index(size, align) {
            Some(index) => {
                proof {
                    lemma_classes_push(
                        self.lists(),
                        self.live(),
                        self.fallback().live(),
                        index as int,
                        given,
                    );
                }
                self.list_heads[index].push(addr);
                self.live = Ghost(self.live@.remove(given));
                assert(self.lists() =~~= old(self).lists().update(
                    index as int,
                    old(self).lists()[index as int].push(addr),
                ));
                proof {
                    lemma_bounded_deallocate(
                        old(self).lists(),
                        self.lists(),
                        old(self).live(),
                        old(self).peak_live(),
                        given,
                    );
                }
            },
            None => {
                proof {
                    lemma_classes_shrink(
                        self.lists(),
                        self.live(),
                        self.fallback().live(),
                        given,
                    );
                }
                self.fallback_allocator.deallocate(addr, size, align);
                self.live = Ghost(self.live@.remove(given));
                assert(self.lists() =~~= old(self).lists());
                proof {
                    lemma_bounded_deallocate(
                        old(self).lists(),
                        self.lists(),
                        old(self).live(),
                        old(self).peak_live(),
                        given,
                    );
                }
            },
        }
    }

    proof fn lemma_live_disjoint(&self, a: Allocation, b: Allocation) {
        lemma_live_apart(
            self.lists(),
            self.live(),
            self.fallback().live(),
            self.fallback().heap_start() as int,
            self.fallback().heap_end() as int,
        );
        assert(a.disjoint(b));
    }
}

} // verus!
