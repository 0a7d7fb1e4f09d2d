//! What holds of the allocator across operations, proved on its model.

use vstd::prelude::*;
use crate::block::{fits, lemma_payload_start, Block, HEADER_SIZE};
use crate::free_list::{
    bridges, clear_of, coalesced, disjoint, first_above, first_fit, first_stop, lemma_first_above,
    lemma_first_above_is, lemma_first_fit, lemma_first_stop, register, release,
};
use crate::model::{Allocation, HeapModel};
use crate::regions::{covers, owned};
use crate::sums::free_bytes;

verus! {

/// Right after `init`, payload in use and free bytes make up the capacity.
pub proof fn conservation_after_init(start: usize, size: usize)
    requires
        size >= HEADER_SIZE,
        start + size <= usize::MAX,
    ensures
        HeapModel::init(start, size).conserved(),
{
    HeapModel::lemma_init_wf(start, size);
}

/// Registering a further range keeps the balance of payload in use, free
/// bytes and capacity as it was.
pub proof fn conservation_across_add_memory(h: HeapModel, start: usize, size: usize)
    requires
        h.wf(),
        size >= HEADER_SIZE,
        start + size <= usize::MAX,
        h.total + size <= usize::MAX,
        h.unmanaged(start as int, size as int),
    ensures
        h.add_memory(start, size).conserved() == h.conserved(),
{
    h.lemma_add_memory_wf(start, size);
}

/// A request that cannot be served leaves the state, and with it the
/// balance, untouched; one that is served adds its size to the used counter
/// and takes its cost from the free list, at least a header's worth more.
pub proof fn conservation_across_allocate(h: HeapModel, size: int, align: int)
    requires
        h.wf(),
        size >= 0,
        align > 0,
    ensures
        !h.can_alloc(size, align) ==> h.allocate(size, align) == h,
        h.can_alloc(size, align) ==> h.allocate(size, align).overhead() == h.overhead()
            + h.alloc_cost(size, align) - size,
        h.can_alloc(size, align) ==> h.alloc_cost(size, align) >= size + HEADER_SIZE,
{
    h.lemma_allocate_wf(size, align);
}

/// Returning an allocation gives the free list one header's worth more than
/// it takes from the used counter.
pub proof fn conservation_across_dealloc(h: HeapModel, ptr: int, size: int)
    requires
        h.wf(),
        h.is_live(ptr, size),
    ensures
        h.dealloc(ptr, size).overhead() == h.overhead() - HEADER_SIZE,
{
    h.lemma_dealloc_wf(ptr, size);
}

/// In every well-formed state, payload in use, free bytes and one header per
/// live allocation fit within the capacity.
pub proof fn capacity_bounds_usage(h: HeapModel)
    requires
        h.wf(),
    ensures
        h.used + free_bytes(h.free) + HEADER_SIZE * h.live.len() <= h.total,
{
}

/// No two live allocations share an address, and no live allocation shares
/// one with a free block, header space included.
pub proof fn no_overlap(h: HeapModel, a: int, b: int, i: int)
    requires
        h.wf(),
        0 <= a < h.live.len(),
        0 <= b < h.live.len(),
        a != b,
        0 <= i < h.free.len(),
    ensures
        disjoint(h.live[a].start(), h.live[a].end(), h.live[b].start(), h.live[b].end()),
        disjoint(h.live[a].start(), h.live[a].end(), h.free[i].start as int, h.free[i].end()),
        h.live[a].start() < h.live[a].ptr <= h.live[a].end(),
{
    assert(clear_of(h.free, h.live[a].start(), h.live[a].end()));
    if a < b {
        assert(disjoint(h.live[a].start(), h.live[a].end(), h.live[b].start(), h.live[b].end()));
    } else {
        assert(disjoint(h.live[b].start(), h.live[b].end(), h.live[a].start(), h.live[a].end()));
    }
}

/// Every address of a live allocation, header space included, and of a free
/// block lies in a registered range.
pub proof fn managed_memory_is_registered(h: HeapModel, x: int)
    requires
        h.wf(),
        (exists|a: int|
            0 <= a < h.live.len() && (#[trigger] h.live[a]).start() <= x < h.live[a].end()) || (
        exists|i: int|
            0 <= i < h.free.len() && (#[trigger] h.free[i]).start <= x < h.free[i].end()),
    ensures
        owned(h.regions, x),
{
}

/// A range that overlaps no registered range overlaps no free block and no
/// live allocation, so it may be registered.
pub proof fn unregistered_range_is_unmanaged(h: HeapModel, start: int, size: int)
    requires
        h.wf(),
        size > 0,
        forall|r: int|
            0 <= r < h.regions.len() ==> disjoint(
                start,
                start + size,
                (#[trigger] h.regions[r]).0,
                h.regions[r].1,
            ),
    ensures
        h.unmanaged(start, size),
{
    assert forall|i: int| 0 <= i < h.free.len() implies disjoint(
        start,
        start + size,
        (#[trigger] h.free[i]).start as int,
        h.free[i].end(),
    ) by {
        let lo = h.free[i].start as int;
        let hi = h.free[i].end();
        if !disjoint(start, start + size, lo, hi) {
            let x = if start >= lo { start } else { lo };
            assert(covers(h.regions, lo, hi));
            assert(owned(h.regions, x));
        }
    }
    assert forall|a: int| 0 <= a < h.live.len() implies disjoint(
        start,
        start + size,
        (#[trigger] h.live[a]).start(),
        h.live[a].end(),
    ) by {
        let lo = h.live[a].start();
        let hi = h.live[a].end();
        if !disjoint(start, start + size, lo, hi) {
            let x = if start >= lo { start } else { lo };
            assert(covers(h.regions, lo, hi));
            assert(owned(h.regions, x));
        }
    }
}

/// An allocation that needed no alignment padding and left a remainder that
/// stands as a block is undone by returning it at once: the state is what it
/// was before the request.
pub proof fn round_trip_restores(h: HeapModel, size: int, align: int)
    requires
        h.wf(),
        size >= 0,
        align > 0,
        h.can_alloc(size, align),
        h.alloc_ptr(size, align) == h.free[first_fit(h.free, size, align, 0)].start + HEADER_SIZE,
        h.free[first_fit(h.free, size, align, 0)].end() - (h.alloc_ptr(size, align) + size)
            >= HEADER_SIZE,
    ensures
        h.allocate(size, align).is_live(h.alloc_ptr(size, align), size),
        h.allocate(size, align).dealloc(h.alloc_ptr(size, align), size) == h,
{
    let k = first_fit(h.free, size, align, 0);
    let ptr = h.alloc_ptr(size, align);
    let mid = h.allocate(size, align);
    let back = mid.dealloc(ptr, size);
    h.lemma_allocate_wf(size, align);
    lemma_first_fit(h.free, size, align, 0);
    mid.lemma_live_index(h.live.len() as int);
    assert(back.live =~= h.live);
    assert forall|j: int| 0 <= j < k implies (#[trigger] mid.free[j]).start <= ptr
        - HEADER_SIZE by {
        assert(h.free[j].end() <= h.free[k].start);
    }
    lemma_first_above_is(mid.free, ptr - HEADER_SIZE, 0, k);
    assert(back.free =~= h.free);
}

/// On a heap whose free list is a single block, an allocation returned at
/// once leaves a single free block again. It starts a header below the
/// payload and runs to the end of the block it was taken from, or to the end of the
/// payload where the remainder was too small to stand as a block: alignment
/// padding and such a remainder stay lost, nothing else does.
pub proof fn round_trip_single_block(h: HeapModel, size: int, align: int)
    requires
        h.wf(),
        size >= 0,
        align > 0,
        h.free.len() == 1,
        h.can_alloc(size, align),
    ensures
        h.allocate(size, align).is_live(h.alloc_ptr(size, align), size),
        ({
            let ptr = h.alloc_ptr(size, align);
            let back = h.allocate(size, align).dealloc(ptr, size);
            let rest = h.free[0].end() - (ptr + size);
            &&& back.total == h.total
            &&& back.used == h.used
            &&& back.live == h.live
            &&& back.regions == h.regions
            &&& back.free.len() == 1
            &&& back.free[0].start == ptr - HEADER_SIZE
            &&& back.free[0].end() == if rest >= HEADER_SIZE {
                h.free[0].end()
            } else {
                ptr + size
            }
            &&& (ptr == h.free[0].start + HEADER_SIZE && (rest >= HEADER_SIZE || rest == 0)
                ==> back == h)
        }),
{
    let ptr = h.alloc_ptr(size, align);
    let mid = h.allocate(size, align);
    let back = mid.dealloc(ptr, size);
    let rest = h.free[0].end() - (ptr + size);
    h.lemma_allocate_wf(size, align);
    lemma_first_fit(h.free, size, align, 0);
    lemma_payload_start(h.free[0].start as int, align);
    mid.lemma_live_index(h.live.len() as int);
    assert(back.live =~= h.live);
    if rest >= HEADER_SIZE {
        lemma_first_above_is(mid.free, ptr - HEADER_SIZE, 0, 0);
    } else {
        assert(mid.free.len() == 0);
    }
    if ptr == h.free[0].start + HEADER_SIZE && (rest >= HEADER_SIZE || rest == 0) {
        assert(back.free =~= h.free);
    }
}

/// Whether one block of the list covers all of `[lo, hi)`.
pub open spec fn covered(free: Seq<Block>, lo: int, hi: int) -> bool {
    exists|i: int| 0 <= i < free.len() && (#[trigger] free[i]).start <= lo && hi <= free[i].end()
}

/// Of two live allocations of which the second starts where the first ends,
/// returning the second and then the first leaves one free block that covers
/// both.
pub proof fn coalescing_upper_then_lower(h: HeapModel, p1: int, s1: int, p2: int, s2: int)
    requires
        h.wf(),
        h.is_live(p1, s1),
        h.is_live(p2, s2),
        p1 + s1 == p2 - HEADER_SIZE,
    ensures
        h.dealloc(p2, s2).is_live(p1, s1),
        covered(h.dealloc(p2, s2).dealloc(p1, s1).free, p1 - HEADER_SIZE, p2 + s2),
{
    let ia = h.live_index(p1, s1);
    let ib = h.live_index(p2, s2);
    let first = h.live[ia];
    let second = h.live[ib];
    assert(first == Allocation { ptr: p1, size: s1 });
    assert(second == Allocation { ptr: p2, size: s2 });
    assert(clear_of(h.free, first.start(), first.end()));
    assert(clear_of(h.free, second.start(), second.end()));
    let mid = h.dealloc(p2, s2);
    h.lemma_dealloc_wf(p2, s2);
    let ia_mid = if ia < ib { ia } else { ia - 1 };
    assert(mid.live[ia_mid] == first);
    let k = first_above(h.free, second.start(), 0);
    lemma_first_above(h.free, second.start(), 0);
    if k > 0 {
        assert(disjoint(first.start(), first.end(), h.free[k - 1].start as int, h.free[k - 1].end()));
    }
    assert(mid.free[k].start == second.start());
    assert forall|j: int| 0 <= j < k implies (#[trigger] mid.free[j]).start <= first.start() by {
        assert(mid.free[j] == h.free[j]);
        assert(disjoint(first.start(), first.end(), h.free[j].start as int, h.free[j].end()));
        assert(disjoint(second.start(), second.end(), h.free[j].start as int, h.free[j].end()));
    }
    lemma_first_above_is(mid.free, first.start(), 0, k);
    let done = mid.dealloc(p1, s1);
    assert(done.free[k].start <= first.start() && second.end() <= done.free[k].end());
}

/// Of two live allocations of which the second starts where the first ends,
/// returning the first and then the second leaves one free block that covers
/// both, provided no free block starts where the second ends: such a block
/// would take the second in and leave the first beside it.
pub proof fn coalescing_lower_then_upper(h: HeapModel, p1: int, s1: int, p2: int, s2: int)
    requires
        h.wf(),
        h.is_live(p1, s1),
        h.is_live(p2, s2),
        p1 + s1 == p2 - HEADER_SIZE,
        forall|i: int| 0 <= i < h.free.len() ==> (#[trigger] h.free[i]).start != p2 + s2,
    ensures
        h.dealloc(p1, s1).is_live(p2, s2),
        covered(h.dealloc(p1, s1).dealloc(p2, s2).free, p1 - HEADER_SIZE, p2 + s2),
{
    let ia = h.live_index(p1, s1);
    let ib = h.live_index(p2, s2);
    let first = h.live[ia];
    let second = h.live[ib];
    assert(first == Allocation { ptr: p1, size: s1 });
    assert(second == Allocation { ptr: p2, size: s2 });
    assert(clear_of(h.free, first.start(), first.end()));
    assert(clear_of(h.free, second.start(), second.end()));
    let mid = h.dealloc(p1, s1);
    h.lemma_dealloc_wf(p1, s1);
    let ib_mid = if ib < ia { ib } else { ib - 1 };
    assert(mid.live[ib_mid] == second);
    let k = first_above(h.free, first.start(), 0);
    lemma_first_above(h.free, first.start(), 0);
    if k < h.free.len() {
        assert(disjoint(first.start(), first.end(), h.free[k].start as int, h.free[k].end()));
        assert(disjoint(second.start(), second.end(), h.free[k].start as int, h.free[k].end()));
    }
    let m = if k > 0 && h.free[k - 1].end() == first.start() { k - 1 } else { k };
    assert(mid.free[m].end() == second.start() && mid.free[m].start <= first.start());
    assert forall|j: int| 0 <= j < m + 1 implies (#[trigger] mid.free[j]).start
        <= second.start() by {
        if j < m {
            assert(mid.free[j] == h.free[j]);
        }
    }
    if m + 1 < mid.free.len() {
        assert(mid.free[m + 1] == h.free[k]);
    }
    lemma_first_above_is(mid.free, second.start(), 0, m + 1);
    let done = mid.dealloc(p2, s2);
    assert(done.free[m].start <= first.start() && second.end() <= done.free[m].end());
}

/// The list that `init` makes is fully coalesced.
pub proof fn coalesced_after_init(start: usize, size: usize)
    ensures
        coalesced(HeapModel::init(start, size).free),
{
}

/// Serving a request never puts two free blocks side by side.
pub proof fn coalesced_across_allocate(h: HeapModel, size: int, align: int)
    requires
        h.wf(),
        size >= 0,
        align > 0,
        coalesced(h.free),
    ensures
        coalesced(h.allocate(size, align).free),
{
    if h.can_alloc(size, align) {
        let k = first_fit(h.free, size, align, 0);
        let after = h.allocate(size, align).free;
        lemma_first_fit(h.free, size, align, 0);
        lemma_payload_start(h.free[k].start as int, align);
        assert forall|i: int, j: int| 0 <= i < j < after.len() implies (#[trigger] after[i]).end()
            != (#[trigger] after[j]).start by {
            if after.len() == h.free.len() {
                assert(h.free[i].end() <= h.free[j].start);
                assert(h.free[i].end() != h.free[j].start);
            } else {
                let oi = if i < k { i } else { i + 1 };
                let oj = if j < k { j } else { j + 1 };
                assert(after[i] == h.free[oi]);
                assert(after[j] == h.free[oj]);
            }
        }
    }
}

/// Returning an allocation keeps the free list fully coalesced unless the
/// block closes the gap between two free blocks: it then joins the upper
/// one only, and the lower one is left beside it.
pub proof fn coalesced_across_dealloc(h: HeapModel, ptr: int, size: int)
    requires
        h.wf(),
        h.is_live(ptr, size),
        coalesced(h.free),
        !bridges(h.free, ptr - HEADER_SIZE, ptr + size),
    ensures
        coalesced(h.dealloc(ptr, size).free),
{
    let idx = h.live_index(ptr, size);
    assert(h.live[idx] == Allocation { ptr, size });
    assert(clear_of(h.free, h.live[idx].start(), h.live[idx].end()));
    let addr = ptr - HEADER_SIZE;
    let k = first_above(h.free, addr, 0);
    lemma_first_above(h.free, addr, 0);
    let after = release(h.free, addr, size + HEADER_SIZE);
    assert forall|i: int, j: int| 0 <= i < j < after.len() implies (#[trigger] after[i]).end()
        != (#[trigger] after[j]).start by {
        if after.len() == h.free.len() {
            assert(h.free[i].end() <= h.free[j].start);
            assert(h.free[i].end() != h.free[j].start);
            assert(disjoint(addr, ptr + size, h.free[i].start as int, h.free[i].end()));
            assert(disjoint(addr, ptr + size, h.free[j].start as int, h.free[j].end()));
        } else {
            let oi = if i < k { i } else { i - 1 };
            let oj = if j < k { j } else { j - 1 };
            if i != k {
                assert(after[i] == h.free[oi]);
                assert(disjoint(addr, ptr + size, h.free[oi].start as int, h.free[oi].end()));
            }
            if j != k {
                assert(after[j] == h.free[oj]);
                assert(disjoint(addr, ptr + size, h.free[oj].start as int, h.free[oj].end()));
            }
            if k < h.free.len() {
                assert(h.free[k].start > addr);
            }
            if k > 0 {
                assert(h.free[k - 1].start <= addr);
            }
        }
    }
}

/// Registering a range keeps the free list fully coalesced unless the range
/// closes the gap between two free blocks: it then joins the lower one only,
/// and the upper one is left beside it.
pub proof fn coalesced_across_add_memory(h: HeapModel, start: usize, size: usize)
    requires
        h.wf(),
        size >= HEADER_SIZE,
        start + size <= usize::MAX,
        h.unmanaged(start as int, size as int),
        coalesced(h.free),
        !bridges(h.free, start as int, start + size),
    ensures
        coalesced(h.add_memory(start, size).free),
{
    let k = first_stop(h.free, start as int, size as int, 0);
    lemma_first_stop(h.free, start as int, size as int, 0);
    let after = register(h.free, start as int, size as int);
    assert forall|i: int, j: int| 0 <= i < j < after.len() implies (#[trigger] after[i]).end()
        != (#[trigger] after[j]).start by {
        if after.len() == h.free.len() {
            assert(h.free[i].end() <= h.free[j].start);
            assert(h.free[i].end() != h.free[j].start);
            assert(disjoint(start as int, start + size, h.free[i].start as int, h.free[i].end()));
            assert(disjoint(start as int, start + size, h.free[j].start as int, h.free[j].end()));
        } else {
            let oi = if i < k { i } else { i - 1 };
            let oj = if j < k { j } else { j - 1 };
            if i != k {
                assert(after[i] == h.free[oi]);
                assert(disjoint(
                    start as int,
                    start + size,
                    h.free[oi].start as int,
                    h.free[oi].end(),
                ));
            }
            if j != k {
                assert(after[j] == h.free[oj]);
                assert(disjoint(
                    start as int,
                    start + size,
                    h.free[oj].start as int,
                    h.free[oj].end(),
                ));
            }
        }
    }
}

/// A request can be served exactly when some free block can hold it, and it
/// is then served from the lowest such block.
pub proof fn served_from_lowest_fitting_block(h: HeapModel, size: int, align: int)
    ensures
        h.can_alloc(size, align) <==> exists|i: int|
            0 <= i < h.free.len() && fits(#[trigger] h.free[i], size, align),
        h.can_alloc(size, align) ==> fits(h.free[first_fit(h.free, size, align, 0)], size, align),
        forall|i: int|
            0 <= i < first_fit(h.free, size, align, 0) ==> !fits(#[trigger] h.free[i], size, align),
{
    lemma_first_fit(h.free, size, align, 0);
}

/// What a served request occupies, header space included, lay inside the
/// free block it was taken from.
pub proof fn allocation_comes_from_free_block(h: HeapModel, size: int, align: int)
    requires
        h.wf(),
        size >= 0,
        align > 0,
        h.can_alloc(size, align),
    ensures
        0 <= first_fit(h.free, size, align, 0) < h.free.len(),
        h.free[first_fit(h.free, size, align, 0)].start <= h.alloc_ptr(size, align) - HEADER_SIZE,
        h.alloc_ptr(size, align) + size <= h.free[first_fit(h.free, size, align, 0)].end(),
{
    lemma_first_fit(h.free, size, align, 0);
    lemma_payload_start(h.free[first_fit(h.free, size, align, 0)].start as int, align);
}

} // verus!
