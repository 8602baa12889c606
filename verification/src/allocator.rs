//! Heap allocation: alignment arithmetic and the allocation strategies.

use vstd::arithmetic::div_mod::{lemma_fundamental_div_mod, lemma_mod_multiples_basic};
use vstd::arithmetic::power2::{
    lemma2_to64, lemma_pow2_adds, lemma_pow2_pos, lemma_pow2_strictly_increases,
    lemma_pow2_unfold, pow2,
};
use vstd::bits::{lemma_u64_low_bits_mask_is_mod, low_bits_mask};
use vstd::multiset::Multiset;
use vstd::prelude::*;

pub mod bump;
pub mod facade;
pub mod fixed_size_block;
pub mod linked_list;
pub mod mapping;

verus! {

/// The virtual address at which the kernel's heap starts.
pub const HEAP_START: u64 = 0x_4444_4444_0000;

/// The size of the kernel's heap, in bytes.
pub const HEAP_SIZE: u64 = 512 * 1024;

/// `zero-sized` type: the allocator that has no memory.
pub struct Dummy;

impl Dummy {
    /// Answers every request with "no memory".
    pub fn allocate(&self, size: usize, align: usize) -> (r: Option<usize>)
        ensures
            r.is_none(),
    {
        None
    }
}

/// An allocation that was handed out: its address and the size and alignment
/// it was asked with.
pub struct Allocation {
    pub addr: usize,
    pub size: usize,
    pub align: usize,
}

impl Allocation {
    /// The first address behind the allocation.
    pub open spec fn end(self) -> int {
        self.addr + self.size
    }

    /// Whether the address ranges of `self` and `other` share no byte.
    pub open spec fn disjoint(self, other: Allocation) -> bool {
        self.end() <= other.addr || other.end() <= self.addr
    }
}

/// Whether any two allocations in `live` are disjoint. Two occurrences of one
/// value count as two allocations.
pub open spec fn pairwise_disjoint(live: Multiset<Allocation>) -> bool {
    forall|a: Allocation, b: Allocation|
        live.count(a) > 0 && live.count(b) > 0 && (a != b || live.count(a) >= 2)
            ==> #[trigger] a.disjoint(b)
}

/// Whether every allocation in `live` lies in `[start, end)`.
pub open spec fn all_within(live: Multiset<Allocation>, start: int, end: int) -> bool {
    forall|a: Allocation| #[trigger] live.count(a) > 0 ==> start <= a.addr && a.end() <= end
}

/// What every allocation strategy offers, and what it promises.
///
/// A strategy owns a heap region `[heap_start, heap_end)` and keeps account of
/// the allocations that are live: handed out by `allocate` and not yet given back
/// to `deallocate`.
pub trait HeapStrategy: Sized {
    /// The invariant of the strategy's state.
    spec fn wf(&self) -> bool;

    /// The first address of the heap region.
    spec fn heap_start(&self) -> usize;

    /// The first address behind the heap region.
    spec fn heap_end(&self) -> usize;

    /// The live allocations.
    spec fn live(&self) -> Multiset<Allocation>;

    /// Whether a request of `size` bytes aligned to `align` can be served.
    spec fn can_allocate(&self, size: usize, align: usize) -> bool;

    /// Hands out `size` bytes aligned to `align`, or `None` where the request
    /// cannot be served. A failed call changes nothing, so that the same
    /// request fails again.
    fn allocate(&mut self, size: usize, align: usize) -> (r: Option<usize>)
        requires
            old(self).wf(),
            is_power_of_two(align as int),
        ensures
            final(self).wf(),
            r.is_some() <==> old(self).can_allocate(size, align),
            r.is_none() ==> !final(self).can_allocate(size, align),
            final(self).heap_start() == old(self).heap_start(),
            final(self).heap_end() == old(self).heap_end(),
            match r {
                Some(addr) => {
                    &&& is_aligned(addr as int, align as int)
                    &&& old(self).heap_start() <= addr
                    &&& addr + size <= old(self).heap_end()
                    &&& final(self).live() == old(self).live().insert(
                        Allocation { addr, size, align },
                    )
                },
                None => *final(self) == *old(self),
            },
            size > old(self).heap_end() - old(self).heap_start() ==> r.is_none(),
    ;

    /// Takes back the allocation at `addr`, which `allocate` handed out for
    /// `size` and `align` and which is still live.
    fn deallocate(&mut self, addr: usize, size: usize, align: usize)
        requires
            old(self).wf(),
            old(self).live().contains(Allocation { addr, size, align }),
        ensures
            final(self).wf(),
            final(self).heap_start() == old(self).heap_start(),
            final(self).heap_end() == old(self).heap_end(),
            final(self).live() == old(self).live().remove(Allocation { addr, size, align }),
    ;

    /// Any two live allocations are disjoint, and each lies in the heap region.
    proof fn lemma_live_disjoint(&self, a: Allocation, b: Allocation)
        requires
            self.wf(),
            self.live().contains(a),
            self.live().remove(a).contains(b),
        ensures
            a.disjoint(b),
            self.heap_start() <= a.addr,
            a.end() <= self.heap_end(),
    ;
}

/// What every strategy promises of `allocate`, as one predicate: `r` is the
/// answer to a request of `size` bytes aligned to `align`, `before` the
/// strategy before the call and `after` the strategy after it.
///
/// The request is served exactly where the strategy can serve it. What is
/// handed out is aligned, lies in the heap and joins the live allocations. A
/// failed call changes nothing, so that the same request fails again. A request
/// for more bytes than the heap has fails.
pub open spec fn allocate_promise<S: HeapStrategy>(
    before: S,
    size: usize,
    align: usize,
    r: Option<usize>,
    after: S,
) -> bool {
    &&& after.wf()
    &&& r.is_some() <==> before.can_allocate(size, align)
    &&& r.is_none() ==> !after.can_allocate(size, align)
    &&& after.heap_start() == before.heap_start()
    &&& after.heap_end() == before.heap_end()
    &&& match r {
        Some(addr) => {
            &&& is_aligned(addr as int, align as int)
            &&& before.heap_start() <= addr
            &&& addr + size <= before.heap_end()
            &&& after.live() == before.live().insert(Allocation { addr, size, align })
        },
        None => after == before,
    }
    &&& size > before.heap_end() - before.heap_start() ==> r.is_none()
}

/// What every strategy promises of `deallocate`, as one predicate: `before`
/// is the strategy before the allocation at `addr` is given back, and `after`
/// the strategy after it. The allocation is live no more, and the heap is
/// where it was.
pub open spec fn deallocate_promise<S: HeapStrategy>(
    before: S,
    addr: usize,
    size: usize,
    align: usize,
    after: S,
) -> bool {
    &&& after.wf()
    &&& after.heap_start() == before.heap_start()
    &&& after.heap_end() == before.heap_end()
    &&& after.live() == before.live().remove(Allocation { addr, size, align })
}

/// What `allocate` hands out overlaps no allocation that was live before:
/// `after` is a strategy after a call that handed out `taken`, and `other`
/// was live before that call.
pub proof fn lemma_new_allocation_is_disjoint<S: HeapStrategy>(
    after: S,
    live_before: Multiset<Allocation>,
    taken: Allocation,
    other: Allocation,
)
    requires
        after.wf(),
        after.live() == live_before.insert(taken),
        live_before.contains(other),
    ensures
        taken.disjoint(other),
        other.disjoint(taken),
{
    after.lemma_live_disjoint(taken, other);
}

/// Whether `n` is a power of two.
pub open spec fn is_power_of_two(n: int) -> bool {
    exists|k: nat| n == #[trigger] pow2(k)
}

/// Whether `addr` is a multiple of `align`.
pub open spec fn is_aligned(addr: int, align: int) -> bool {
    addr % align == 0
}

/// The smallest multiple of `align` that is not below `addr`.
pub open spec fn align_up_spec(addr: int, align: int) -> int {
    if addr % align == 0 {
        addr
    } else {
        addr - addr % align + align
    }
}

/// `align_up_spec(addr, align)` is a multiple of `align`, is not below `addr`,
/// and no multiple of `align` lies between `addr` and it.
pub proof fn lemma_align_up_is_least(addr: int, align: int)
    requires
        0 <= addr,
        0 < align,
    ensures
        is_aligned(align_up_spec(addr, align), align),
        addr <= align_up_spec(addr, align) < addr + align,
        forall|x: int|
            addr <= x && #[trigger] is_aligned(x, align) ==> align_up_spec(addr, align) <= x,
{
    let r = align_up_spec(addr, align);
    assert(r % align == 0 && addr <= r < addr + align) by (nonlinear_arith)
        requires
            0 <= addr,
            0 < align,
            r == if addr % align == 0 {
                addr
            } else {
                addr - addr % align + align
            },
    ;
    assert forall|x: int| addr <= x && #[trigger] is_aligned(x, align) implies r <= x by {
        assert(r <= x) by (nonlinear_arith)
            requires
                0 < align,
                addr <= x,
                x % align == 0,
                r % align == 0,
                r < addr + align,
        ;
    }
}

/// A power of two is positive.
pub proof fn lemma_power_of_two_positive(n: int)
    requires
        is_power_of_two(n),
    ensures
        n > 0,
{
    let k = choose|k: nat| n == #[trigger] pow2(k);
    lemma_pow2_pos(k);
}

/// An even number is a power of two exactly when its half is one, and an
/// odd number exactly when it is 1.
pub proof fn lemma_power_of_two_halves(n: int)
    requires
        n > 0,
    ensures
        n % 2 == 0 ==> (is_power_of_two(n) <==> is_power_of_two(n / 2)),
        n % 2 != 0 ==> (is_power_of_two(n) <==> n == 1),
{
    lemma2_to64();
    if is_power_of_two(n) {
        let k = choose|k: nat| n == #[trigger] pow2(k);
        if k > 0 {
            lemma_pow2_unfold(k);
            assert(n / 2 == pow2((k - 1) as nat));
        }
    }
    if n % 2 == 0 && is_power_of_two(n / 2) {
        let j = choose|j: nat| n / 2 == #[trigger] pow2(j);
        lemma_pow2_unfold(j + 1);
        assert(n == pow2(j + 1));
    }
    if n == 1 {
        assert(n == pow2(0));
    }
}

/// Whether `n` is a power of two.
pub fn power_of_two(n: usize) -> (r: bool)
    ensures
        r == is_power_of_two(n as int),
{
    if n == 0 {
        proof {
            if is_power_of_two(0) {
                lemma_power_of_two_positive(0);
            }
        }
        return false;
    }
    let mut rest: usize = n;
    while rest % 2 == 0
        invariant
            rest > 0,
            is_power_of_two(n as int) <==> is_power_of_two(rest as int),
        decreases rest,
    {
        proof {
            lemma_power_of_two_halves(rest as int);
        }
        rest = rest / 2;
    }
    proof {
        lemma_power_of_two_halves(rest as int);
    }
    rest == 1
}

/// The powers of two up to the size of a page are powers of two.
pub proof fn lemma_small_powers_of_two()
    ensures
        is_power_of_two(1),
        is_power_of_two(2),
        is_power_of_two(4),
        is_power_of_two(8),
        is_power_of_two(16),
        is_power_of_two(32),
        is_power_of_two(64),
        is_power_of_two(128),
        is_power_of_two(256),
        is_power_of_two(512),
        is_power_of_two(1024),
        is_power_of_two(2048),
        is_power_of_two(4096),
{
    lemma2_to64();
    assert(1 == pow2(0) && 2 == pow2(1) && 4 == pow2(2) && 8 == pow2(3));
    assert(16 == pow2(4) && 32 == pow2(5) && 64 == pow2(6) && 128 == pow2(7));
    assert(256 == pow2(8) && 512 == pow2(9) && 1024 == pow2(10) && 2048 == pow2(11));
    assert(4096 == pow2(12));
}

/// Of two powers of two, the smaller divides the larger.
pub proof fn lemma_power_of_two_divides(small: int, large: int)
    requires
        is_power_of_two(small),
        is_power_of_two(large),
        small <= large,
    ensures
        large % small == 0,
{
    let i = choose|k: nat| small == #[trigger] pow2(k);
    let j = choose|k: nat| large == #[trigger] pow2(k);
    lemma_pow2_pos(i);
    if j < i {
        lemma_pow2_strictly_increases(j, i);
    }
    let d = (j - i) as nat;
    lemma_pow2_adds(d, i);
    lemma_mod_multiples_basic(pow2(d) as int, small);
}

/// What is a multiple of a power of two is a multiple of every smaller power of two.
pub proof fn lemma_aligned_to_smaller(addr: int, small: int, large: int)
    requires
        is_power_of_two(small),
        is_power_of_two(large),
        small <= large,
        is_aligned(addr, large),
    ensures
        is_aligned(addr, small),
{
    lemma_power_of_two_divides(small, large);
    lemma_power_of_two_positive(small);
    lemma_fundamental_div_mod(addr, large);
    lemma_fundamental_div_mod(large, small);
    let q = addr / large;
    let p = large / small;
    assert(addr == (q * p) * small) by (nonlinear_arith)
        requires
            addr == large * q,
            large == small * p,
    ;
    lemma_mod_multiples_basic(q * p, small);
}

/// The number of values of a `usize` is a power of two.
proof fn lemma_limit_is_power_of_two()
    ensures
        is_power_of_two(usize::MAX + 1),
{
    lemma2_to64();
    if usize::MAX + 1 == pow2(32) {
    } else {
        assert(usize::MAX + 1 == pow2(64));
    }
}

/// Rounding `addr` up to `align` fits in a `usize` exactly when `addr + (align - 1)` does.
proof fn lemma_round_up_fits(addr: usize, align: usize)
    requires
        is_power_of_two(align as int),
    ensures
        align_up_spec(addr as int, align as int) <= usize::MAX <==> addr + (align - 1)
            <= usize::MAX,
{
    lemma_power_of_two_positive(align as int);
    lemma_limit_is_power_of_two();
    let limit: int = usize::MAX + 1;
    lemma_power_of_two_divides(align as int, limit);
    let r = align_up_spec(addr as int, align as int);
    lemma_align_up_is_least(addr as int, align as int);
    if addr % align != 0 {
        // r and limit are multiples of align, so r < limit gives r + align <= limit
        if r < limit {
            assert(r + align <= limit) by (nonlinear_arith)
                requires
                    align > 0,
                    r % (align as int) == 0,
                    limit % (align as int) == 0,
                    r < limit,
            ;
        }
    } else {
        assert(addr + align <= limit) by (nonlinear_arith)
            requires
                align > 0,
                addr % align == 0,
                limit % (align as int) == 0,
                addr < limit,
        ;
    }
}

/// Masking with a power of two less one takes the remainder.
proof fn lemma_mask_is_remainder(x: usize, align: usize)
    requires
        is_power_of_two(align as int),
    ensures
        x & ((align - 1) as usize) == x % align,
{
    let k = choose|k: nat| align as int == #[trigger] pow2(k);
    lemma2_to64();
    if k >= 64 {
        if k > 64 {
            lemma_pow2_strictly_increases(64, k);
        }
    }
    assert(k < 64);
    lemma_pow2_pos(k);
    lemma_u64_low_bits_mask_is_mod(x as u64, k);
    assert(low_bits_mask(k) == align - 1);
    let m: usize = (align - 1) as usize;
    assert((x as u64) & (m as u64) == (x & m) as u64) by (bit_vector);
}

/// Masking the low bits of `addr + (align - 1)` away rounds `addr` up to `align`.
proof fn lemma_mask_rounds_up(addr: usize, align: usize)
    requires
        is_power_of_two(align as int),
        addr + (align - 1) <= usize::MAX,
    ensures
        ((addr + (align - 1)) as usize) & !((align - 1) as usize) == align_up_spec(
            addr as int,
            align as int,
        ),
{
    lemma_power_of_two_positive(align as int);
    let m: usize = (align - 1) as usize;
    let s: usize = (addr + m) as usize;
    assert((s & !m) + (s & m) == s) by (bit_vector);
    lemma_mask_is_remainder(s, align);
    let a: int = align as int;
    let x: int = addr as int;
    assert(s - s % align == align_up_spec(x, a)) by (nonlinear_arith)
        requires
            a > 0,
            x >= 0,
            s == x + a - 1,
            align == a,
    ;
}

/// Align the given address `addr` upwards to alignment `align`, by remainder.
pub fn slow_align_up(addr: usize, align: usize) -> (r: usize)
    requires
        align > 0,
        align_up_spec(addr as int, align as int) <= usize::MAX,
    ensures
        r == align_up_spec(addr as int, align as int),
{
    let remainder: usize = addr % align;
    if remainder == 0 {
        addr
    } else {
        assert(remainder <= addr) by (nonlinear_arith)
            requires
                remainder == addr % align,
                align > 0,
        ;
        addr - remainder + align
    }
}

/// Align the given address `addr` upwards to alignment `align`.
///
/// Requires that `align` is a power of two.
pub fn align_up(addr: usize, align: usize) -> (r: usize)
    requires
        is_power_of_two(align as int),
        align_up_spec(addr as int, align as int) <= usize::MAX,
    ensures
        r == align_up_spec(addr as int, align as int),
{
    proof {
        lemma_power_of_two_positive(align as int);
        lemma_round_up_fits(addr, align);
        lemma_mask_rounds_up(addr, align);
    }
    let mask: usize = align - 1;
    (addr + mask) & !mask
}

/// Align `addr` upwards to the power of two `align`, or `None` where the
/// aligned address does not fit in a `usize`.
pub fn checked_align_up(addr: usize, align: usize) -> (r: Option<usize>)
    requires
        is_power_of_two(align as int),
    ensures
        r == (if align_up_spec(addr as int, align as int) <= usize::MAX {
            Some(align_up_spec(addr as int, align as int) as usize)
        } else {
            None
        }),
        addr <= align_up_spec(addr as int, align as int),
        r matches Some(aligned) ==> is_aligned(aligned as int, align as int),
{
    proof {
        lemma_power_of_two_positive(align as int);
        lemma_round_up_fits(addr, align);
        lemma_align_up_is_least(addr as int, align as int);
    }
    let mask: usize = align - 1;
    match addr.checked_add(mask) {
        Some(sum) => {
            proof {
                lemma_mask_rounds_up(addr, align);
            }
            Some(sum & !mask)
        },
        None => None,
    }
}

} // verus!
