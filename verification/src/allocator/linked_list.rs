//! The free-list allocator: a chain of free blocks in the order of their
//! addresses, searched first-fit, split on allocation and merged again when
//! memory comes back.
//!
//! Every block starts at a multiple of `MIN_BLOCK_SIZE` and is a multiple of
//! it long, so that what a split leaves over is a block again and no byte is
//! lost. Two free blocks never touch: a block that comes back is merged with
//! the free blocks beside it, so that the heap is one block again when
//! nothing is live.
//!
//! The chain is kept beside the heap, as a list of blocks. The memory of the
//! heap itself is never read or written.

use super::{align_up_spec, checked_align_up, is_aligned, is_power_of_two, slow_align_up};
use super::{lemma_align_up_is_least, lemma_aligned_to_smaller, lemma_power_of_two_positive};
use super::{Allocation, HeapStrategy};
use vstd::arithmetic::div_mod::{lemma_fundamental_div_mod, lemma_mod_multiples_basic};
use vstd::arithmetic::power2::{lemma2_to64, pow2};
use vstd::multiset::Multiset;
use vstd::prelude::*;

verus! {

/// The least size of a block, and the alignment of every block: the room a
/// free block needs to describe itself, its size and its link.
pub const MIN_BLOCK_SIZE: usize = 16;

/// A block of free memory.
#[derive(Clone, Copy, Debug)]
pub struct FreeBlock {
    pub start: usize,
    pub size: usize,
}

impl FreeBlock {
    /// The first address behind the block.
    pub open spec fn end(self) -> int {
        self.start + self.size
    }

    /// Whether the block starts and ends at multiples of `MIN_BLOCK_SIZE`, is
    /// not empty, and lies in `[lo, hi)`.
    pub open spec fn valid_in(self, lo: int, hi: int) -> bool {
        &&& is_aligned(self.start as int, MIN_BLOCK_SIZE as int)
        &&& is_aligned(self.size as int, MIN_BLOCK_SIZE as int)
        &&& self.size >= MIN_BLOCK_SIZE
        &&& lo <= self.start
        &&& self.end() <= hi
    }

    /// Whether `self` lies below `other` and does not touch it.
    pub open spec fn below(self, other: FreeBlock) -> bool {
        self.end() < other.start
    }

    /// Whether the block and the bytes granted to the allocation `a` share no byte.
    pub open spec fn apart_from(self, a: Allocation) -> bool {
        self.end() <= a.addr || granted_end(a) <= self.start
    }

    /// Whether the block can serve a request of `size` bytes aligned to `align`.
    pub open spec fn fits(self, size: int, align: int) -> bool {
        align_up_spec(self.start as int, align) + size <= self.end()
    }
}

impl FreeBlock {
    /// Where `size` bytes aligned to `align` are cut from the block: at the
    /// first aligned address in it, or `None` where the bytes do not fit.
    pub fn cut_start(&self, size: usize, align: usize) -> (r: Option<usize>)
        requires
            is_power_of_two(align as int),
            self.end() <= usize::MAX,
        ensures
            r == (if self.fits(size as int, align as int) {
                Some(align_up_spec(self.start as int, align as int) as usize)
            } else {
                None
            }),
            r matches Some(start) ==> {
                &&& start == align_up_spec(self.start as int, align as int)
                &&& is_aligned(start as int, align as int)
                &&& self.start <= start
                &&& start + size <= self.end()
            },
    {
        let start: usize = match checked_align_up(self.start, align) {
            Some(start) => start,
            None => {
                return None;
            },
        };
        let end: usize = match start.checked_add(size) {
            Some(end) => end,
            None => {
                return None;
            },
        };
        if end <= self.start + self.size {
            Some(start)
        } else {
            None
        }
    }
}

/// The number of bytes that a request of `size` bytes is granted: `size`,
/// raised to `MIN_BLOCK_SIZE` and rounded up to a multiple of it.
pub open spec fn granted_size(size: usize) -> int {
    align_up_spec(
        if size < MIN_BLOCK_SIZE {
            MIN_BLOCK_SIZE as int
        } else {
            size as int
        },
        MIN_BLOCK_SIZE as int,
    )
}

/// The alignment that a request of alignment `align` is granted.
pub open spec fn granted_align(align: usize) -> int {
    if align < MIN_BLOCK_SIZE {
        MIN_BLOCK_SIZE as int
    } else {
        align as int
    }
}

/// The first address behind the bytes granted to the allocation `a`.
pub open spec fn granted_end(a: Allocation) -> int {
    a.addr + granted_size(a.size)
}

/// Whether the bytes granted to `a` and to `b` do not overlap.
pub open spec fn granted_apart(a: Allocation, b: Allocation) -> bool {
    granted_end(a) <= b.addr || granted_end(b) <= a.addr
}

/// Whether the bytes granted to `a` start at a multiple of `MIN_BLOCK_SIZE`
/// and lie in `[lo, hi)`.
pub open spec fn granted_in(a: Allocation, lo: int, hi: int) -> bool {
    &&& is_aligned(a.addr as int, MIN_BLOCK_SIZE as int)
    &&& lo <= a.addr
    &&& granted_end(a) <= hi
}

/// Whether every block of `free` is valid in `[lo, hi)`, and each lies below
/// the blocks behind it in the chain and touches none of them.
pub open spec fn chain_ok(free: Seq<FreeBlock>, lo: int, hi: int) -> bool {
    &&& forall|i: int| 0 <= i < free.len() ==> (#[trigger] free[i]).valid_in(lo, hi)
    &&& forall|i: int, j: int|
        0 <= i < j < free.len() ==> (#[trigger] free[i]).below(#[trigger] free[j])
}

/// Whether the bytes granted to each allocation of `live` lie in `[lo, hi)`,
/// and those of no two overlap.
pub open spec fn live_ok(live: Multiset<Allocation>, lo: int, hi: int) -> bool {
    &&& forall|a: Allocation| #[trigger] live.count(a) > 0 ==> granted_in(a, lo, hi)
    &&& forall|a: Allocation, b: Allocation|
        live.count(a) > 0 && live.count(b) > 0 && (a != b || live.count(a) >= 2)
            ==> #[trigger] granted_apart(a, b)
}

/// Whether no block of `free` overlaps the bytes granted to an allocation of `live`.
pub open spec fn free_avoids_live(free: Seq<FreeBlock>, live: Multiset<Allocation>) -> bool {
    forall|i: int, a: Allocation|
        0 <= i < free.len() && live.count(a) > 0 ==> #[trigger] free[i].apart_from(a)
}

/// The sum of the sizes of the blocks of `free`.
pub open spec fn total_size(free: Seq<FreeBlock>) -> int
    decreases free.len(),
{
    if free.len() == 0 {
        0
    } else {
        total_size(free.drop_last()) + free.last().size
    }
}

/// The sum of the bytes granted to the allocations of `live`.
pub open spec fn granted_total(live: Multiset<Allocation>) -> int
    decreases live.len(),
{
    if live.len() == 0 {
        0
    } else {
        let a = live.choose();
        granted_size(a.size) + granted_total(live.remove(a))
    }
}

/// The bytes granted to one allocation of `live` and those granted to the
/// others make the sum.
pub proof fn lemma_granted_total_remove(live: Multiset<Allocation>, a: Allocation)
    requires
        live.count(a) > 0,
    ensures
        granted_total(live) == granted_size(a.size) + granted_total(live.remove(a)),
    decreases live.len(),
{
    let chosen = live.choose();
    if chosen != a {
        let rest = live.remove(chosen);
        lemma_granted_total_remove(rest, a);
        lemma_granted_total_remove(live.remove(a), chosen);
        assert(rest.remove(a) =~= live.remove(a).remove(chosen));
    }
}

/// A new allocation adds the bytes granted to it to the sum.
pub proof fn lemma_granted_total_insert(live: Multiset<Allocation>, a: Allocation)
    ensures
        granted_total(live.insert(a)) == granted_total(live) + granted_size(a.size),
{
    lemma_granted_total_remove(live.insert(a), a);
    assert(live.insert(a).remove(a) =~= live);
}

/// Whether `index` is the first block of `free` that fits a request of `size`
/// bytes aligned to `align`.
pub open spec fn is_first_fit(free: Seq<FreeBlock>, index: int, size: int, align: int) -> bool {
    &&& 0 <= index < free.len()
    &&& free[index].fits(size, align)
    &&& forall|j: int| 0 <= j < index ==> !(#[trigger] free[j]).fits(size, align)
}

/// What is left of `block` when `size` bytes are cut from it at `start`: the
/// part before the cut, then the part behind it, each where it is not empty.
pub open spec fn remainders(block: FreeBlock, start: int, size: int) -> Seq<FreeBlock> {
    let end = start + size;
    let front = if block.start < start {
        seq![FreeBlock { start: block.start, size: (start - block.start) as usize }]
    } else {
        Seq::<FreeBlock>::empty()
    };
    let tail = if end < block.end() {
        seq![FreeBlock { start: end as usize, size: (block.end() - end) as usize }]
    } else {
        Seq::<FreeBlock>::empty()
    };
    front + tail
}

/// The chain `free` with `middle` in place of its blocks from `from` up to,
/// not including, `to`.
pub open spec fn spliced(free: Seq<FreeBlock>, from: int, to: int, middle: Seq<FreeBlock>) -> Seq<
    FreeBlock,
> {
    free.subrange(0, from) + middle + free.subrange(to, free.len() as int)
}

/// The chain after `size` bytes are cut at `start` from the block at
/// `index`: what is left of the block takes its place.
pub open spec fn chain_after_cut(free: Seq<FreeBlock>, index: int, start: int, size: int) -> Seq<
    FreeBlock,
> {
    spliced(free, index, index + 1, remainders(free[index], start, size))
}

/// Whether `pos` is where a block at `addr` belongs in the chain: the blocks
/// before `pos` start below `addr`, the others above it.
pub open spec fn is_insertion_index(free: Seq<FreeBlock>, pos: int, addr: int) -> bool {
    &&& 0 <= pos <= free.len()
    &&& forall|i: int| 0 <= i < pos ==> (#[trigger] free[i]).start < addr
    &&& forall|i: int| pos <= i < free.len() ==> addr < (#[trigger] free[i]).start
}

/// Whether `block`, which belongs at `pos`, touches the block before it.
pub open spec fn joins_lower(free: Seq<FreeBlock>, pos: int, block: FreeBlock) -> bool {
    pos > 0 && free[pos - 1].end() == block.start
}

/// Whether `block`, which belongs at `pos`, touches the block behind it.
pub open spec fn joins_upper(free: Seq<FreeBlock>, pos: int, block: FreeBlock) -> bool {
    pos < free.len() && block.end() == free[pos].start
}

/// `block` together with the blocks of the chain that it touches, as one block.
pub open spec fn merged_block(free: Seq<FreeBlock>, pos: int, block: FreeBlock) -> FreeBlock {
    let start = if joins_lower(free, pos, block) {
        free[pos - 1].start
    } else {
        block.start
    };
    let end = if joins_upper(free, pos, block) {
        free[pos].end()
    } else {
        block.end()
    };
    FreeBlock { start, size: (end - start) as usize }
}

/// The chain after `block`, which belongs at `pos`, has come back: the block
/// and the blocks that it touches are one block, in their place.
pub open spec fn chain_after_free(free: Seq<FreeBlock>, pos: int, block: FreeBlock) -> Seq<
    FreeBlock,
> {
    let from = if joins_lower(free, pos, block) {
        pos - 1
    } else {
        pos
    };
    let to = if joins_upper(free, pos, block) {
        pos + 1
    } else {
        pos
    };
    spliced(free, from, to, seq![merged_block(free, pos, block)])
}

/// `MIN_BLOCK_SIZE` is a power of two.
pub proof fn lemma_min_block_size_is_power_of_two()
    ensures
        is_power_of_two(MIN_BLOCK_SIZE as int),
{
    lemma2_to64();
    assert(MIN_BLOCK_SIZE as int == pow2(4));
}

/// The granted size is a multiple of `MIN_BLOCK_SIZE`, at least
/// `MIN_BLOCK_SIZE`, and at least the size asked for.
pub proof fn lemma_granted_size(size: usize)
    ensures
        is_aligned(granted_size(size), MIN_BLOCK_SIZE as int),
        granted_size(size) >= MIN_BLOCK_SIZE,
        granted_size(size) >= size,
        granted_size(size) < size + 2 * MIN_BLOCK_SIZE,
{
    let raised: int = if size < MIN_BLOCK_SIZE {
        MIN_BLOCK_SIZE as int
    } else {
        size as int
    };
    lemma_align_up_is_least(raised, MIN_BLOCK_SIZE as int);
}

/// The size and the alignment that a request is granted, or `None` where the
/// granted size does not fit in a `usize`.
pub fn size_align(size: usize, align: usize) -> (r: Option<(usize, usize)>)
    ensures
        r == (if granted_size(size) <= usize::MAX {
            Some((granted_size(size) as usize, granted_align(align) as usize))
        } else {
            None
        }),
{
    proof {
        lemma_min_block_size_is_power_of_two();
    }
    let raised: usize = if size < MIN_BLOCK_SIZE {
        MIN_BLOCK_SIZE
    } else {
        size
    };
    let granted_align: usize = if align < MIN_BLOCK_SIZE {
        MIN_BLOCK_SIZE
    } else {
        align
    };
    match checked_align_up(raised, MIN_BLOCK_SIZE) {
        Some(granted) => Some((granted, granted_align)),
        None => None,
    }
}

/// The sum of the sizes of two chains is that of the chain of both.
pub proof fn lemma_total_size_concat(left: Seq<FreeBlock>, right: Seq<FreeBlock>)
    ensures
        total_size(left + right) == total_size(left) + total_size(right),
    decreases right.len(),
{
    if right.len() == 0 {
        assert(left + right =~= left);
    } else {
        assert((left + right).drop_last() =~= left + right.drop_last());
        lemma_total_size_concat(left, right.drop_last());
    }
}

/// The sum of the sizes of a chain of one block is the size of that block.
pub proof fn lemma_total_size_single(block: FreeBlock)
    ensures
        total_size(seq![block]) == block.size,
{
    assert(seq![block].drop_last() =~= Seq::<FreeBlock>::empty());
    assert(total_size(seq![block].drop_last()) == 0);
}

/// What is left of a block and the bytes cut from it add up to the block.
pub proof fn lemma_total_size_remainders(block: FreeBlock, start: int, size: int)
    requires
        0 <= size,
        block.start <= start,
        start + size <= block.end(),
    ensures
        total_size(remainders(block, start, size)) + size == block.size,
{
    let end = start + size;
    let front = if block.start < start {
        seq![FreeBlock { start: block.start, size: (start - block.start) as usize }]
    } else {
        Seq::<FreeBlock>::empty()
    };
    let tail = if end < block.end() {
        seq![FreeBlock { start: end as usize, size: (block.end() - end) as usize }]
    } else {
        Seq::<FreeBlock>::empty()
    };
    lemma_total_size_concat(front, tail);
    if block.start < start {
        lemma_total_size_single(front[0]);
    }
    if end < block.end() {
        lemma_total_size_single(tail[0]);
    }
}

/// The granted alignment is a power of two, at least `MIN_BLOCK_SIZE`.
pub proof fn lemma_granted_align(align: usize)
    requires
        is_power_of_two(align as int),
    ensures
        is_power_of_two(granted_align(align)),
        granted_align(align) >= MIN_BLOCK_SIZE,
        granted_align(align) >= align,
        granted_align(align) <= usize::MAX,
{
    lemma_min_block_size_is_power_of_two();
}

/// The first address of the heap that is made of the range of `size` bytes
/// at `start`: the first multiple of `MIN_BLOCK_SIZE` in the range, or
/// `start` where the range holds no whole block.
pub open spec fn usable_start(start: int, size: int) -> int {
    let first = align_up_spec(start, MIN_BLOCK_SIZE as int);
    let end = start + size - (start + size) % (MIN_BLOCK_SIZE as int);
    if first < end {
        first
    } else {
        start
    }
}

/// The first address behind the heap that is made of the range of `size`
/// bytes at `start`: the last multiple of `MIN_BLOCK_SIZE` that is not
/// behind the range, or `start` where the range holds no whole block.
pub open spec fn usable_end(start: int, size: int) -> int {
    let first = align_up_spec(start, MIN_BLOCK_SIZE as int);
    let end = start + size - (start + size) % (MIN_BLOCK_SIZE as int);
    if first < end {
        end
    } else {
        start
    }
}

/// The chain of a heap that is made of the range of `size` bytes at `start`:
/// one block, the whole heap, or no block where the heap is empty.
pub open spec fn initial_chain(start: int, size: int) -> Seq<FreeBlock> {
    let first = usable_start(start, size);
    let end = usable_end(start, size);
    if first < end {
        seq![FreeBlock { start: first as usize, size: (end - first) as usize }]
    } else {
        Seq::<FreeBlock>::empty()
    }
}

/// Whether `piece` lies in `block`.
pub open spec fn inside(piece: FreeBlock, block: FreeBlock) -> bool {
    block.start <= piece.start && piece.end() <= block.end()
}

/// The sum and the difference of two multiples of `align` are multiples of it.
pub proof fn lemma_aligned_sum(a: int, b: int, align: int)
    requires
        align > 0,
        is_aligned(a, align),
        is_aligned(b, align),
    ensures
        is_aligned(a + b, align),
        is_aligned(a - b, align),
{
    lemma_fundamental_div_mod(a, align);
    lemma_fundamental_div_mod(b, align);
    let p = a / align;
    let q = b / align;
    assert(a + b == (p + q) * align && a - b == (p - q) * align) by (nonlinear_arith)
        requires
            a == align * p,
            b == align * q,
    ;
    lemma_mod_multiples_basic(p + q, align);
    lemma_mod_multiples_basic(p - q, align);
}

/// What is left of a valid block after a cut are valid blocks in it that
/// do not overlap the bytes granted, the first of them below the second.
pub proof fn lemma_remainders_valid(block: FreeBlock, taken: Allocation, lo: int, hi: int)
    requires
        block.valid_in(lo, hi),
        hi <= usize::MAX,
        is_aligned(taken.addr as int, MIN_BLOCK_SIZE as int),
        block.start <= taken.addr,
        granted_end(taken) <= block.end(),
    ensures
        granted_in(taken, lo, hi),
        forall|k: int|
            0 <= k < remainders(block, taken.addr as int, granted_size(taken.size)).len() ==> {
                let piece = #[trigger] remainders(
                    block,
                    taken.addr as int,
                    granted_size(taken.size),
                )[k];
                &&& piece.valid_in(lo, hi)
                &&& inside(piece, block)
                &&& piece.apart_from(taken)
            },
        remainders(block, taken.addr as int, granted_size(taken.size)).len() <= 2,
        remainders(block, taken.addr as int, granted_size(taken.size)).len() == 2 ==> remainders(
            block,
            taken.addr as int,
            granted_size(taken.size),
        )[0].below(remainders(block, taken.addr as int, granted_size(taken.size))[1]),
{
    let size = granted_size(taken.size);
    let pieces = remainders(block, taken.addr as int, size);
    lemma_granted_size(taken.size);
    let front = if block.start < taken.addr {
        seq![FreeBlock { start: block.start, size: (taken.addr - block.start) as usize }]
    } else {
        Seq::<FreeBlock>::empty()
    };
    let tail = if taken.addr + size < block.end() {
        seq![
            FreeBlock {
                start: (taken.addr + size) as usize,
                size: (block.end() - (taken.addr + size)) as usize,
            },
        ]
    } else {
        Seq::<FreeBlock>::empty()
    };
    assert(pieces == front + tail);
    assert forall|k: int| 0 <= k < pieces.len() implies {
        let piece = #[trigger] pieces[k];
        &&& piece.valid_in(lo, hi)
        &&& inside(piece, block)
        &&& piece.apart_from(taken)
    } by {
        if k < front.len() {
            assert(pieces[k] == front[0]);
            lemma_aligned_sum(taken.addr as int, block.start as int, MIN_BLOCK_SIZE as int);
        } else {
            assert(pieces[k] == tail[0]);
            lemma_aligned_sum(taken.addr as int, size, MIN_BLOCK_SIZE as int);
            lemma_aligned_sum(block.start as int, block.size as int, MIN_BLOCK_SIZE as int);
            lemma_aligned_sum(block.end(), taken.addr + size, MIN_BLOCK_SIZE as int);
        }
    }
    if pieces.len() == 2 {
        assert(pieces[0] == front[0]);
        assert(pieces[1] == tail[0]);
    }
}

/// The sizes of the blocks before a place in the chain and of those from it
/// on make the sum.
pub proof fn lemma_total_size_split(free: Seq<FreeBlock>, at: int)
    requires
        0 <= at <= free.len(),
    ensures
        total_size(free) == total_size(free.subrange(0, at)) + total_size(
            free.subrange(at, free.len() as int),
        ),
{
    assert(free =~= free.subrange(0, at) + free.subrange(at, free.len() as int));
    lemma_total_size_concat(free.subrange(0, at), free.subrange(at, free.len() as int));
}

/// A splice takes the sizes of the blocks that leave out of the sum, and
/// the sizes of those that come in into it.
pub proof fn lemma_total_size_spliced(
    free: Seq<FreeBlock>,
    from: int,
    to: int,
    middle: Seq<FreeBlock>,
)
    requires
        0 <= from <= to <= free.len(),
    ensures
        total_size(spliced(free, from, to, middle)) == total_size(free) - total_size(
            free.subrange(from, to),
        ) + total_size(middle),
{
    let lower = free.subrange(0, from);
    let upper = free.subrange(to, free.len() as int);
    lemma_total_size_concat(lower + middle, upper);
    lemma_total_size_concat(lower, middle);
    lemma_total_size_split(free, to);
    lemma_total_size_split(free.subrange(0, to), from);
    assert(free.subrange(0, to).subrange(0, from) =~= lower);
    assert(free.subrange(0, to).subrange(from, to) =~= free.subrange(from, to));
}

/// Whether the block at `i` of a splice is the block that the splice puts
/// there: a block from before `from`, a block of `middle`, or a block from
/// `to` on.
pub open spec fn splice_places(
    free: Seq<FreeBlock>,
    from: int,
    to: int,
    middle: Seq<FreeBlock>,
    i: int,
) -> bool {
    let result = spliced(free, from, to, middle);
    if i < from {
        result[i] == free[i]
    } else if i < from + middle.len() {
        result[i] == middle[i - from]
    } else {
        result[i] == free[i - from - middle.len() + to] && to <= i - from - middle.len() + to
            < free.len()
    }
}

/// Every block of a splice is in its place.
pub proof fn lemma_spliced_places(free: Seq<FreeBlock>, from: int, to: int, middle: Seq<FreeBlock>)
    requires
        0 <= from <= to <= free.len(),
    ensures
        spliced(free, from, to, middle).len() == from + middle.len() + free.len() - to,
        forall|i: int|
            0 <= i < spliced(free, from, to, middle).len() ==> #[trigger] splice_places(
                free,
                from,
                to,
                middle,
                i,
            ),
{
}

/// A chain stays in order where some of its blocks give way to blocks that
/// are in order and lie between the blocks beside them.
#[verifier::rlimit(50)]
pub proof fn lemma_chain_spliced(
    free: Seq<FreeBlock>,
    from: int,
    to: int,
    middle: Seq<FreeBlock>,
    lo: int,
    hi: int,
)
    requires
        chain_ok(free, lo, hi),
        0 <= from <= to <= free.len(),
        forall|k: int| 0 <= k < middle.len() ==> (#[trigger] middle[k]).valid_in(lo, hi),
        forall|k: int, l: int|
            0 <= k < l < middle.len() ==> (#[trigger] middle[k]).below(#[trigger] middle[l]),
        from > 0 ==> forall|k: int|
            0 <= k < middle.len() ==> free[from - 1].below(#[trigger] middle[k]),
        to < free.len() ==> forall|k: int|
            0 <= k < middle.len() ==> (#[trigger] middle[k]).below(free[to]),
    ensures
        chain_ok(spliced(free, from, to, middle), lo, hi),
{
    let result = spliced(free, from, to, middle);
    let count = middle.len() as int;
    lemma_spliced_places(free, from, to, middle);
    assert forall|i: int| 0 <= i < result.len() implies (#[trigger] result[i]).valid_in(lo, hi) by {
        assert(splice_places(free, from, to, middle, i));
        if i < from {
            assert(free[i].valid_in(lo, hi));
        } else if i < from + count {
            assert(middle[i - from].valid_in(lo, hi));
        } else {
            assert(free[i - from - count + to].valid_in(lo, hi));
        }
    }
    assert forall|i: int, j: int| 0 <= i < j < result.len() implies (#[trigger] result[i]).below(
        #[trigger] result[j],
    ) by {
        assert(splice_places(free, from, to, middle, i));
        assert(splice_places(free, from, to, middle, j));
        let oj = j - from - count + to;
        if j < from {
            assert(free[i].below(free[j]));
        } else if j < from + count {
            if i < from {
                assert(free[from - 1].valid_in(lo, hi));
                assert(free[from - 1].below(middle[j - from]));
                if i < from - 1 {
                    assert(free[i].below(free[from - 1]));
                }
            } else {
                assert(middle[i - from].below(middle[j - from]));
            }
        } else {
            assert(free[oj].valid_in(lo, hi));
            if i < from {
                assert(free[i].below(free[oj]));
            } else if i < from + count {
                assert(free[to].valid_in(lo, hi));
                assert(middle[i - from].below(free[to]));
                if to < oj {
                    assert(free[to].below(free[oj]));
                }
            } else {
                assert(free[i - from - count + to].below(free[oj]));
            }
        }
    }
}

/// The free blocks keep clear of the live allocations `live` where the
/// blocks that stay in a splice and the blocks that come in do.
pub proof fn lemma_avoids_spliced(
    free: Seq<FreeBlock>,
    from: int,
    to: int,
    middle: Seq<FreeBlock>,
    live: Multiset<Allocation>,
)
    requires
        0 <= from <= to <= free.len(),
        forall|i: int, a: Allocation|
            0 <= i < free.len() && !(from <= i < to) && live.count(a) > 0
                ==> #[trigger] free[i].apart_from(a),
        forall|k: int, a: Allocation|
            0 <= k < middle.len() && live.count(a) > 0 ==> #[trigger] middle[k].apart_from(a),
    ensures
        free_avoids_live(spliced(free, from, to, middle), live),
{
    let result = spliced(free, from, to, middle);
    let count = middle.len() as int;
    lemma_spliced_places(free, from, to, middle);
    assert forall|i: int, a: Allocation|
        0 <= i < result.len() && live.count(a) > 0 implies #[trigger] result[i].apart_from(a) by {
        assert(splice_places(free, from, to, middle, i));
        if i < from {
            assert(free[i].apart_from(a));
        } else if i < from + count {
            assert(middle[i - from].apart_from(a));
        } else {
            assert(free[i - from - count + to].apart_from(a));
        }
    }
}

/// The live allocations stay in order where one joins them whose granted
/// bytes lie in a free block.
pub proof fn lemma_live_insert(
    free: Seq<FreeBlock>,
    live: Multiset<Allocation>,
    index: int,
    taken: Allocation,
    lo: int,
    hi: int,
)
    requires
        live_ok(live, lo, hi),
        free_avoids_live(free, live),
        0 <= index < free.len(),
        granted_in(taken, lo, hi),
        free[index].start <= taken.addr,
        granted_end(taken) <= free[index].end(),
    ensures
        live_ok(live.insert(taken), lo, hi),
{
    let block = free[index];
    let grown = live.insert(taken);
    lemma_granted_size(taken.size);
    assert forall|a: Allocation| #[trigger] grown.count(a) > 0 implies granted_in(a, lo, hi) by {
        if a != taken {
            assert(live.count(a) > 0);
        }
    }
    assert forall|a: Allocation, b: Allocation|
        grown.count(a) > 0 && grown.count(b) > 0 && (a != b || grown.count(a)
            >= 2) implies #[trigger] granted_apart(a, b) by {
        if a != taken && b != taken {
            assert(live.count(a) > 0 && live.count(b) > 0);
        } else if a == taken && b == taken {
            assert(live.count(taken) > 0);
            assert(block.apart_from(taken));
        } else if a == taken {
            assert(live.count(b) > 0);
            assert(block.apart_from(b));
        } else {
            assert(live.count(a) > 0);
            assert(block.apart_from(a));
        }
    }
}

/// The live allocations stay in order where one leaves them.
pub proof fn lemma_live_remove(live: Multiset<Allocation>, given: Allocation, lo: int, hi: int)
    requires
        live_ok(live, lo, hi),
        live.count(given) > 0,
    ensures
        live_ok(live.remove(given), lo, hi),
{
    let fewer = live.remove(given);
    assert forall|a: Allocation| #[trigger] fewer.count(a) > 0 implies granted_in(a, lo, hi) by {
        assert(live.count(a) > 0);
    }
    assert forall|a: Allocation, b: Allocation|
        fewer.count(a) > 0 && fewer.count(b) > 0 && (a != b || fewer.count(a)
            >= 2) implies #[trigger] granted_apart(a, b) by {
        assert(live.count(a) > 0 && live.count(b) > 0);
    }
}

/// Cutting an allocation from a block that holds the bytes granted to it
/// keeps the chain and the live allocations in order, and takes the granted
/// bytes, no more, from the free ones.
#[verifier::rlimit(50)]
pub proof fn lemma_cut_keeps_invariant(
    free: Seq<FreeBlock>,
    live: Multiset<Allocation>,
    index: int,
    taken: Allocation,
    lo: int,
    hi: int,
)
    requires
        chain_ok(free, lo, hi),
        live_ok(live, lo, hi),
        free_avoids_live(free, live),
        hi <= usize::MAX,
        0 <= index < free.len(),
        is_aligned(taken.addr as int, MIN_BLOCK_SIZE as int),
        free[index].start <= taken.addr,
        granted_end(taken) <= free[index].end(),
    ensures
        chain_ok(chain_after_cut(free, index, taken.addr as int, granted_size(taken.size)), lo, hi),
        live_ok(live.insert(taken), lo, hi),
        free_avoids_live(
            chain_after_cut(free, index, taken.addr as int, granted_size(taken.size)),
            live.insert(taken),
        ),
        total_size(chain_after_cut(free, index, taken.addr as int, granted_size(taken.size)))
            == total_size(free) - granted_size(taken.size),
{
    let size = granted_size(taken.size);
    let block = free[index];
    let pieces = remainders(block, taken.addr as int, size);
    let grown = live.insert(taken);
    assert(block.valid_in(lo, hi));
    lemma_granted_size(taken.size);
    lemma_remainders_valid(block, taken, lo, hi);
    assert forall|k: int, l: int| 0 <= k < l < pieces.len() implies (#[trigger] pieces[k]).below(
        #[trigger] pieces[l],
    ) by {
        assert(k == 0 && l == 1);
    }
    if index > 0 {
        assert forall|k: int| 0 <= k < pieces.len() implies free[index - 1].below(
            #[trigger] pieces[k],
        ) by {
            assert(free[index - 1].below(free[index]));
            assert(inside(pieces[k], block));
        }
    }
    if index + 1 < free.len() {
        assert forall|k: int| 0 <= k < pieces.len() implies (#[trigger] pieces[k]).below(
            free[index + 1],
        ) by {
            assert(free[index].below(free[index + 1]));
            assert(inside(pieces[k], block));
        }
    }
    lemma_chain_spliced(free, index, index + 1, pieces, lo, hi);
    lemma_live_insert(free, live, index, taken, lo, hi);
    assert forall|i: int, a: Allocation|
        0 <= i < free.len() && !(index <= i < index + 1) && grown.count(a)
            > 0 implies #[trigger] free[i].apart_from(a) by {
        if a == taken && live.count(a) == 0 {
            if i < index {
                assert(free[i].below(free[index]));
            } else {
                assert(free[index].below(free[i]));
            }
        } else {
            assert(live.count(a) > 0);
            assert(free[i].apart_from(a));
        }
    }
    assert forall|k: int, a: Allocation|
        0 <= k < pieces.len() && grown.count(a) > 0 implies #[trigger] pieces[k].apart_from(a) by {
        assert(inside(pieces[k], block));
        assert(pieces[k].apart_from(taken));
        if a != taken {
            assert(live.count(a) > 0);
            assert(block.apart_from(a));
        }
    }
    lemma_avoids_spliced(free, index, index + 1, pieces, grown);
    lemma_total_size_spliced(free, index, index + 1, pieces);
    assert(free.subrange(index, index + 1) =~= seq![block]);
    lemma_total_size_single(block);
    lemma_total_size_remainders(block, taken.addr as int, size);
}

/// The bytes granted to a live allocation lie between the free blocks
/// before the place where they belong in the chain and those from it on.
pub proof fn lemma_insertion_index(
    free: Seq<FreeBlock>,
    live: Multiset<Allocation>,
    pos: int,
    given: Allocation,
    lo: int,
    hi: int,
)
    requires
        chain_ok(free, lo, hi),
        free_avoids_live(free, live),
        live.count(given) > 0,
        0 <= pos <= free.len(),
        forall|i: int| 0 <= i < pos ==> (#[trigger] free[i]).start < given.addr,
        pos < free.len() ==> given.addr <= free[pos].start,
    ensures
        is_insertion_index(free, pos, given.addr as int),
        forall|i: int| 0 <= i < pos ==> (#[trigger] free[i]).end() <= given.addr,
        forall|i: int| pos <= i < free.len() ==> granted_end(given) <= (#[trigger] free[i]).start,
{
    lemma_granted_size(given.size);
    assert forall|i: int| 0 <= i < pos implies (#[trigger] free[i]).end() <= given.addr by {
        assert(free[i].apart_from(given));
    }
    assert forall|i: int| pos <= i < free.len() implies granted_end(given) <= (
    #[trigger] free[i]).start by {
        assert(free[i].apart_from(given));
        assert(free[i].valid_in(lo, hi));
        if pos < i {
            assert(free[pos].below(free[i]));
            assert(free[pos].valid_in(lo, hi));
        }
    }
}

/// Giving the bytes granted to a live allocation back to the chain, merged
/// with the free blocks that they touch, keeps the chain and the live
/// allocations in order, and adds the granted bytes, no more, to the free ones.
#[verifier::rlimit(50)]
pub proof fn lemma_free_keeps_invariant(
    free: Seq<FreeBlock>,
    live: Multiset<Allocation>,
    pos: int,
    given: Allocation,
    lo: int,
    hi: int,
)
    requires
        chain_ok(free, lo, hi),
        live_ok(live, lo, hi),
        free_avoids_live(free, live),
        hi <= usize::MAX,
        live.count(given) > 0,
        is_insertion_index(free, pos, given.addr as int),
    ensures
        chain_ok(
            chain_after_free(
                free,
                pos,
                FreeBlock { start: given.addr, size: granted_size(given.size) as usize },
            ),
            lo,
            hi,
        ),
        live_ok(live.remove(given), lo, hi),
        free_avoids_live(
            chain_after_free(
                free,
                pos,
                FreeBlock { start: given.addr, size: granted_size(given.size) as usize },
            ),
            live.remove(given),
        ),
        total_size(
            chain_after_free(
                free,
                pos,
                FreeBlock { start: given.addr, size: granted_size(given.size) as usize },
            ),
        ) == total_size(free) + granted_size(given.size),
{
    let size = granted_size(given.size);
    let block = FreeBlock { start: given.addr, size: size as usize };
    let merged = merged_block(free, pos, block);
    let lower = joins_lower(free, pos, block);
    let upper = joins_upper(free, pos, block);
    let from = if lower {
        pos - 1
    } else {
        pos
    };
    let to = if upper {
        pos + 1
    } else {
        pos
    };
    let middle = seq![merged];
    let fewer = live.remove(given);
    lemma_granted_size(given.size);
    assert(granted_in(given, lo, hi));
    lemma_insertion_index(free, live, pos, given, lo, hi);
    if pos > 0 {
        assert(free[pos - 1].valid_in(lo, hi));
        assert(free[pos - 1].end() <= given.addr);
    }
    if pos < free.len() {
        assert(free[pos].valid_in(lo, hi));
        assert(granted_end(given) <= free[pos].start);
    }
    // the merged block is a block
    lemma_aligned_sum(given.addr as int, size, MIN_BLOCK_SIZE as int);
    if upper {
        lemma_aligned_sum(free[pos].start as int, free[pos].size as int, MIN_BLOCK_SIZE as int);
    }
    lemma_aligned_sum(merged.start + merged.size, merged.start as int, MIN_BLOCK_SIZE as int);
    assert(merged.valid_in(lo, hi));
    assert(middle[0] == merged);
    if from > 0 {
        assert(free[from - 1].below(merged)) by {
            if lower {
                assert(free[from - 1].below(free[pos - 1]));
            }
        }
    }
    if to < free.len() {
        assert(merged.below(free[to])) by {
            if upper {
                assert(free[pos].below(free[to]));
            }
        }
    }
    lemma_chain_spliced(free, from, to, middle, lo, hi);
    lemma_live_remove(live, given, lo, hi);
    assert forall|i: int, a: Allocation|
        0 <= i < free.len() && !(from <= i < to) && fewer.count(a)
            > 0 implies #[trigger] free[i].apart_from(a) by {
        assert(live.count(a) > 0);
    }
    assert forall|k: int, a: Allocation|
        0 <= k < middle.len() && fewer.count(a) > 0 implies #[trigger] middle[k].apart_from(a) by {
        assert(live.count(a) > 0);
        assert(a != given || live.count(a) >= 2);
        assert(granted_apart(given, a));
        lemma_granted_size(a.size);
        if lower {
            assert(free[pos - 1].apart_from(a));
        }
        if upper {
            assert(free[pos].apart_from(a));
        }
    }
    lemma_avoids_spliced(free, from, to, middle, fewer);
    lemma_total_size_spliced(free, from, to, middle);
    lemma_total_size_single(merged);
    if lower && upper {
        assert(free.subrange(from, to) =~= seq![free[pos - 1]] + seq![free[pos]]);
        lemma_total_size_concat(seq![free[pos - 1]], seq![free[pos]]);
        lemma_total_size_single(free[pos - 1]);
        lemma_total_size_single(free[pos]);
    } else if lower {
        assert(free.subrange(from, to) =~= seq![free[pos - 1]]);
        lemma_total_size_single(free[pos - 1]);
    } else if upper {
        assert(free.subrange(from, to) =~= seq![free[pos]]);
        lemma_total_size_single(free[pos]);
    } else {
        assert(free.subrange(from, to) =~= Seq::<FreeBlock>::empty());
    }
}

/// The blocks of a chain and the gaps between them lie between the start of
/// its first block and the end of its last.
pub proof fn lemma_chain_span(free: Seq<FreeBlock>, lo: int, hi: int)
    requires
        chain_ok(free, lo, hi),
        free.len() > 0,
    ensures
        total_size(free) + (free.len() - 1) <= free.last().end() - free[0].start,
    decreases free.len(),
{
    if free.len() == 1 {
        lemma_total_size_single(free[0]);
        assert(free =~= seq![free[0]]);
    } else {
        let rest = free.drop_last();
        assert forall|i: int| 0 <= i < rest.len() implies (#[trigger] rest[i]).valid_in(lo, hi) by {
            assert(free[i].valid_in(lo, hi));
        }
        assert forall|i: int, j: int| 0 <= i < j < rest.len() implies (#[trigger] rest[i]).below(
            #[trigger] rest[j],
        ) by {
            assert(free[i].below(free[j]));
        }
        lemma_chain_span(rest, lo, hi);
        assert(free[free.len() - 2].below(free[free.len() - 1]));
        assert(rest.last() == free[free.len() - 2]);
        assert(rest[0] == free[0]);
    }
}

/// Puts what is left of the block at `index`, when `size` bytes are cut from
/// it at `start`, in the place of the block.
fn put_remainders(free: &mut Vec<FreeBlock>, index: usize, start: usize, size: usize)
    requires
        index < old(free)@.len(),
        old(free)@[index as int].start <= start,
        start + size <= old(free)@[index as int].end(),
        old(free)@[index as int].end() <= usize::MAX,
    ensures
        final(free)@ == chain_after_cut(old(free)@, index as int, start as int, size as int),
{
    let count: usize = free.len();
    let block = free[index];
    let end: usize = start + size;
    let tail_size: usize = block.start + block.size - end;
    let front_size: usize = start - block.start;
    if front_size > 0 && tail_size > 0 {
        free[index] = FreeBlock { start: block.start, size: front_size };
        free.insert(index + 1, FreeBlock { start: end, size: tail_size });
    } else if front_size > 0 {
        free[index] = FreeBlock { start: block.start, size: front_size };
    } else if tail_size > 0 {
        free[index] = FreeBlock { start: end, size: tail_size };
    } else {
        free.remove(index);
    }
    assert(free@ =~= chain_after_cut(old(free)@, index as int, start as int, size as int));
}

/// Puts `merged` in the chain at `pos`, in the place of the block before
/// `pos` where `lower` says so, and of the block at `pos` where `upper`
/// says so.
fn put_merged(free: &mut Vec<FreeBlock>, pos: usize, lower: bool, upper: bool, merged: FreeBlock)
    requires
        pos <= old(free)@.len(),
        lower ==> pos > 0,
        upper ==> pos < old(free)@.len(),
    ensures
        final(free)@ == spliced(
            old(free)@,
            if lower {
                pos - 1
            } else {
                pos as int
            },
            if upper {
                pos + 1
            } else {
                pos as int
            },
            seq![merged],
        ),
{
    if lower && upper {
        free[pos - 1] = merged;
        free.remove(pos);
    } else if lower {
        free[pos - 1] = merged;
    } else if upper {
        free[pos] = merged;
    } else {
        free.insert(pos, merged);
    }
    assert(free@ =~= spliced(
        old(free)@,
        if lower {
            pos - 1
        } else {
            pos as int
        },
        if upper {
            pos + 1
        } else {
            pos as int
        },
        seq![merged],
    ));
}

/// Free-List Allocator
pub struct LinkedListAllocator {
    heap_start: usize,
    heap_end: usize,
    /// the chain of free blocks, in the order of their addresses
    free: Vec<FreeBlock>,
    /// the allocated memory chunks
    live: Ghost<Multiset<Allocation>>,
}

impl LinkedListAllocator {
    /// The chain of free blocks, in the order of their addresses.
    pub closed spec fn free_blocks(&self) -> Seq<FreeBlock> {
        self.free@
    }

    /// The number of free bytes.
    pub open spec fn free_bytes(&self) -> int {
        total_size(self.free_blocks())
    }

    /// Whether a request of `size` bytes aligned to `align` gets the answer
    /// `r` from the allocator `self` and leaves it as `after`: the first
    /// block that fits the granted size and alignment is cut at its first
    /// aligned address, and what is left of it takes its place in the chain;
    /// where no block fits, nothing changes.
    pub open spec fn allocates(self, size: usize, align: usize, r: Option<usize>, after: Self) -> bool {
        &&& after.heap_start() == self.heap_start()
        &&& after.heap_end() == self.heap_end()
        &&& match r {
            Some(addr) => {
                &&& granted_size(size) <= usize::MAX
                &&& after.live() == self.live().insert(Allocation { addr, size, align })
                &&& exists|index: int|
                    {
                        &&& is_first_fit(
                            self.free_blocks(),
                            index,
                            granted_size(size),
                            granted_align(align),
                        )
                        &&& addr == align_up_spec(
                            self.free_blocks()[index].start as int,
                            granted_align(align),
                        )
                        &&& after.free_blocks() == chain_after_cut(
                            self.free_blocks(),
                            index,
                            addr as int,
                            granted_size(size),
                        )
                    }
            },
            None => {
                &&& after == self
                &&& granted_size(size) > usize::MAX || forall|i: int|
                    0 <= i < self.free_blocks().len() ==> !(#[trigger] self.free_blocks()[i]).fits(
                        granted_size(size),
                        granted_align(align),
                    )
            },
        }
    }

    /// Whether giving back the allocation at `addr`, of `size` bytes aligned
    /// to `align`, leaves the allocator `self` as `after`: the bytes granted
    /// to it are free again, at their place in the chain, as one block with
    /// the free blocks that they touch.
    pub open spec fn deallocates(self, addr: usize, size: usize, align: usize, after: Self) -> bool {
        &&& after.heap_start() == self.heap_start()
        &&& after.heap_end() == self.heap_end()
        &&& after.live() == self.live().remove(Allocation { addr, size, align })
        &&& exists|pos: int|
            {
                &&& is_insertion_index(self.free_blocks(), pos, addr as int)
                &&& after.free_blocks() == chain_after_free(
                    self.free_blocks(),
                    pos,
                    FreeBlock { start: addr, size: granted_size(size) as usize },
                )
            }
    }

    /// Creates an empty allocator, with no heap.
    pub fn new() -> (r: Self)
        ensures
            r.wf(),
            r.heap_start() == 0,
            r.heap_end() == 0,
            r.free_blocks() == Seq::<FreeBlock>::empty(),
            r.live() == Multiset::<Allocation>::empty(),
    {
        LinkedListAllocator { heap_start: 0, heap_end: 0, free: Vec::new(), live: Ghost(Multiset::empty()) }
    }

    /// The chain of free blocks, in the order of their addresses.
    pub fn free_chain(&self) -> (r: &Vec<FreeBlock>)
        ensures
            r@ == self.free_blocks(),
    {
        &self.free
    }

    /// Initializes the allocator with the given heap bounds: the chain
    /// becomes one block, the given range cut back to multiples of
    /// `MIN_BLOCK_SIZE`, or is empty where no block is left of the range.
    ///
    /// The caller must ensure that the given memory range is unused. No
    /// allocation may be live.
    pub fn init(&mut self, heap_start: usize, heap_size: usize)
        requires
            old(self).wf(),
            old(self).live().len() == 0,
            heap_start + heap_size <= usize::MAX,
        ensures
            final(self).wf(),
            final(self).live() == old(self).live(),
            final(self).heap_start() == usable_start(heap_start as int, heap_size as int),
            final(self).heap_end() == usable_end(heap_start as int, heap_size as int),
            final(self).free_blocks() == initial_chain(heap_start as int, heap_size as int),
            final(self).free_bytes() == final(self).heap_end() - final(self).heap_start(),
    {
        proof {
            lemma_min_block_size_is_power_of_two();
            lemma_align_up_is_least(heap_start as int, MIN_BLOCK_SIZE as int);
        }
        let given_end: usize = heap_start + heap_size;
        let end: usize = given_end - given_end % MIN_BLOCK_SIZE;
        self.free.clear();
        match checked_align_up(heap_start, MIN_BLOCK_SIZE) {
            Some(start) if start < end => {
                let block = FreeBlock { start, size: end - start };
                self.heap_start = start;
                self.heap_end = end;
                self.free.push(block);
                proof {
                    lemma_total_size_single(block);
                    assert(self.free@ =~= seq![block]);
                }
            },
            _ => {
                self.heap_start = heap_start;
                self.heap_end = heap_start;
            },
        }
    }

    /// Looks for the first block of the chain that fits `size` bytes aligned
    /// to `align`, and gives its index and the address of the cut.
    fn find_first_fit(&self, size: usize, align: usize) -> (r: Option<(usize, usize)>)
        requires
            self.wf(),
            is_power_of_two(align as int),
        ensures
            match r {
                Some((index, start)) => {
                    &&& is_first_fit(self.free_blocks(), index as int, size as int, align as int)
                    &&& start == align_up_spec(
                        self.free_blocks()[index as int].start as int,
                        align as int,
                    )
                    &&& is_aligned(start as int, align as int)
                    &&& self.free_blocks()[index as int].start <= start
                    &&& start + size <= self.free_blocks()[index as int].end()
                },
                None => forall|i: int|
                    0 <= i < self.free_blocks().len() ==> !(#[trigger] self.free_blocks()[i]).fits(
                        size as int,
                        align as int,
                    ),
            },
    {
        let mut index: usize = 0;
        while index < self.free.len()
            invariant
                self.wf(),
                index <= self.free.len(),
                is_power_of_two(align as int),
                forall|j: int|
                    0 <= j < index ==> !(#[trigger] self.free@[j]).fits(size as int, align as int),
            decreases self.free.len() - index,
        {
            let block = self.free[index];
            assert(block.valid_in(self.heap_start as int, self.heap_end as int));
            if let Some(start) = block.cut_start(size, align) {
                return Some((index, start));
            }
            index = index + 1;
        }
        None
    }

    /// Cuts the allocation `taken` from the block at `index` and puts what is
    /// left of the block in its place.
    #[verifier::rlimit(50)]
    fn cut(&mut self, index: usize, size: usize, Ghost(taken): Ghost<Allocation>, start: usize)
        requires
            old(self).wf(),
            index < old(self).free_blocks().len(),
            size == granted_size(taken.size),
            taken.addr == start,
            is_aligned(start as int, MIN_BLOCK_SIZE as int),
            old(self).free_blocks()[index as int].start <= start,
            start + size <= old(self).free_blocks()[index as int].end(),
        ensures
            final(self).wf(),
            final(self).heap_start() == old(self).heap_start(),
            final(self).heap_end() == old(self).heap_end(),
            final(self).live() == old(self).live().insert(taken),
            final(self).free_blocks() == chain_after_cut(
                old(self).free_blocks(),
                index as int,
                start as int,
                size as int,
            ),
            final(self).free_bytes() == old(self).free_bytes() - size,
    {
        let block = self.free[index];
        proof {
            lemma_cut_keeps_invariant(
                self.free@,
                self.live@,
                index as int,
                taken,
                self.heap_start as int,
                self.heap_end as int,
            );
            lemma_granted_total_insert(self.live@, taken);
            assert(block.valid_in(self.heap_start as int, self.heap_end as int));
        }
        put_remainders(&mut self.free, index, start, size);
        self.live = Ghost(self.live@.insert(taken));
    }

    /// Looks for the place in the chain where a block at `addr` belongs:
    /// behind the blocks that start below `addr`.
    fn find_place(&self, addr: usize) -> (pos: usize)
        requires
            self.wf(),
        ensures
            pos <= self.free_blocks().len(),
            forall|i: int| 0 <= i < pos ==> (#[trigger] self.free_blocks()[i]).start < addr,
            pos < self.free_blocks().len() ==> addr <= self.free_blocks()[pos as int].start,
    {
        let mut pos: usize = 0;
        while pos < self.free.len() && self.free[pos].start < addr
            invariant
                pos <= self.free@.len(),
                forall|i: int| 0 <= i < pos ==> (#[trigger] self.free@[i]).start < addr,
            decreases self.free@.len() - pos,
        {
            pos = pos + 1;
        }
        pos
    }
}

impl LinkedListAllocator {
    /// No byte of the heap is lost: the free bytes and the bytes granted to
    /// the live allocations make the heap, and when nothing is live every
    /// byte is free.
    pub proof fn lemma_no_byte_is_lost(&self)
        requires
            self.wf(),
        ensures
            self.free_bytes() + granted_total(self.live()) == self.heap_end() - self.heap_start(),
            self.live().len() == 0 ==> self.free_bytes() == self.heap_end() - self.heap_start(),
    {
    }

    /// When nothing is live, the chain is one block, the whole heap: what
    /// was cut apart has grown together again.
    pub proof fn lemma_whole_again(&self)
        requires
            self.wf(),
            self.live().len() == 0,
            self.heap_start() < self.heap_end(),
        ensures
            self.free_blocks() == seq![
                FreeBlock {
                    start: self.heap_start(),
                    size: (self.heap_end() - self.heap_start()) as usize,
                },
            ],
    {
        let free = self.free_blocks();
        let lo = self.heap_start() as int;
        let hi = self.heap_end() as int;
        if free.len() > 0 {
            lemma_chain_span(free, lo, hi);
            assert(free[0].valid_in(lo, hi));
            assert(free.last().valid_in(lo, hi));
            assert(free.len() == 1);
            lemma_total_size_single(free[0]);
            assert(free =~= seq![free[0]]);
        }
    }
}

impl HeapStrategy for LinkedListAllocator {
    open spec fn wf(&self) -> bool {
        &&& self.heap_start() <= self.heap_end()
        &&& chain_ok(self.free_blocks(), self.heap_start() as int, self.heap_end() as int)
        &&& live_ok(self.live(), self.heap_start() as int, self.heap_end() as int)
        &&& free_avoids_live(self.free_blocks(), self.live())
        &&& total_size(self.free_blocks()) + granted_total(self.live()) == self.heap_end()
            - self.heap_start()
    }

    closed spec fn heap_start(&self) -> usize {
        self.heap_start
    }

    closed spec fn heap_end(&self) -> usize {
        self.heap_end
    }

    closed spec fn live(&self) -> Multiset<Allocation> {
        self.live@
    }

    /// The request can be served where a block of the chain fits the size
    /// and the alignment that it is granted.
    open spec fn can_allocate(&self, size: usize, align: usize) -> bool {
        &&& granted_size(size) <= usize::MAX
        &&& exists|i: int|
            0 <= i < self.free_blocks().len() && (#[trigger] self.free_blocks()[i]).fits(
                granted_size(size),
                granted_align(align),
            )
    }

    /// Serves the request from the first block of the chain that fits it.
    /// What the cut leaves over of that block takes its place in the chain.
    #[verifier::rlimit(50)]
    fn allocate(&mut self, size: usize, align: usize) -> (r: Option<usize>)
        ensures
            old(self).allocates(size, align, r, *final(self)),
            r.is_some() ==> final(self).free_bytes() == old(self).free_bytes() - granted_size(size),
    {
        let found = match size_align(size, align) {
            Some((granted, galign)) => {
                proof {
                    lemma_granted_align(align);
                }
                match self.find_first_fit(granted, galign) {
                    Some((index, start)) => Some((index, start, granted)),
                    None => None,
                }
            },
            None => None,
        };
        match found {
            Some((index, start, granted)) => {
                proof {
                    lemma_granted_align(align);
                    lemma_granted_size(size);
                    lemma_min_block_size_is_power_of_two();
                    lemma_aligned_to_smaller(start as int, align as int, granted_align(align));
                    lemma_aligned_to_smaller(
                        start as int,
                        MIN_BLOCK_SIZE as int,
                        granted_align(align),
                    );
                    assert(self.free@[index as int].valid_in(
                        self.heap_start as int,
                        self.heap_end as int,
                    ));
                }
                self.cut(index, granted, Ghost(Allocation { addr: start, size, align }), start);
                Some(start)
            },
            None => {
                None
            },
        }
    }

    /// Puts the bytes that were granted to the allocation back at their
    /// place in the chain, as one block with the free blocks that they touch.
    #[verifier::rlimit(50)]
    fn deallocate(&mut self, addr: usize, size: usize, align: usize)
        ensures
            old(self).deallocates(addr, size, align, *final(self)),
            final(self).free_bytes() == old(self).free_bytes() + granted_size(size),
    {
        let ghost given = Allocation { addr, size, align };
        let ghost lo = self.heap_start as int;
        let ghost hi = self.heap_end as int;
        proof {
            lemma_granted_size(size);
            assert(granted_in(given, lo, hi));
        }
        // the bytes granted to a live allocation lie in the heap, so their number fits
        let raised: usize = if size < MIN_BLOCK_SIZE {
            MIN_BLOCK_SIZE
        } else {
            size
        };
        let granted: usize = slow_align_up(raised, MIN_BLOCK_SIZE);
        let ghost block = FreeBlock { start: addr, size: granted };
        let pos = self.find_place(addr);
        proof {
            lemma_insertion_index(self.free@, self.live@, pos as int, given, lo, hi);
            lemma_free_keeps_invariant(self.free@, self.live@, pos as int, given, lo, hi);
            lemma_granted_total_remove(self.live@, given);
            if pos > 0 {
                assert(self.free@[pos - 1].valid_in(lo, hi));
            }
            if pos < self.free@.len() {
                assert(self.free@[pos as int].valid_in(lo, hi));
            }
        }
        let lower = pos > 0 && self.free[pos - 1].start + self.free[pos - 1].size == addr;
        let upper = pos < self.free.len() && addr + granted == self.free[pos].start;
        let start: usize = if lower {
            self.free[pos - 1].start
        } else {
            addr
        };
        let end: usize = if upper {
            self.free[pos].start + self.free[pos].size
        } else {
            addr + granted
        };
        let merged = FreeBlock { start, size: end - start };
        assert(merged == merged_block(self.free@, pos as int, block));
        put_merged(&mut self.free, pos, lower, upper, merged);
        self.live = Ghost(self.live@.remove(given));
    }

    proof fn lemma_live_disjoint(&self, a: Allocation, b: Allocation) {
        lemma_granted_size(a.size);
        lemma_granted_size(b.size);
        assert(granted_apart(a, b));
        assert(granted_in(a, self.heap_start() as int, self.heap_end() as int));
    }
}

} // verus!
