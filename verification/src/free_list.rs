//! The address-ordered free list: its ordering, the scans that find a place
//! in it, and how a range of memory joins it.

use vstd::prelude::*;
use crate::block::{fits, Block, HEADER_SIZE};
use crate::regions::covers;
use crate::sums::{
    free_bytes, lemma_free_bytes_insert, lemma_free_bytes_one, lemma_free_bytes_concat,
    lemma_free_bytes_update,
};

verus! {

/// Whether the half-open ranges `[a_start, a_end)` and `[b_start, b_end)` share no address.
pub open spec fn disjoint(a_start: int, a_end: int, b_start: int, b_end: int) -> bool {
    a_end <= b_start || b_end <= a_start
}

/// The blocks can each hold a header, end within the address space, and lie
/// in ascending address order without overlap.
pub open spec fn ordered(free: Seq<Block>) -> bool {
    &&& forall|i: int|
        0 <= i < free.len() ==> (#[trigger] free[i]).size >= HEADER_SIZE && free[i].end()
            <= usize::MAX
    &&& forall|i: int, j: int|
        0 <= i < j < free.len() ==> (#[trigger] free[i]).end() <= (#[trigger] free[j]).start
}

/// No block of the list starts where another ends: every pair of
/// neighbours has been merged.
pub open spec fn coalesced(free: Seq<Block>) -> bool {
    forall|i: int, j: int|
        0 <= i < j < free.len() ==> (#[trigger] free[i]).end() != (#[trigger] free[j]).start
}

/// Whether `[lo, hi)` closes the gap between two blocks of the list: one
/// ends at `lo` and another starts at `hi`.
pub open spec fn bridges(free: Seq<Block>, lo: int, hi: int) -> bool {
    &&& exists|i: int| 0 <= i < free.len() && (#[trigger] free[i]).end() == lo
    &&& exists|j: int| 0 <= j < free.len() && (#[trigger] free[j]).start == hi
}

/// No block of the list shares an address with `[lo, hi)`.
pub open spec fn clear_of(free: Seq<Block>, lo: int, hi: int) -> bool {
    forall|i: int|
        0 <= i < free.len() ==> disjoint(lo, hi, (#[trigger] free[i]).start as int, free[i].end())
}

/// Index of the first block at or after `from` that can hold the request, or
/// the length of the list when none can.
pub open spec fn first_fit(free: Seq<Block>, size: int, align: int, from: int) -> int
    decreases free.len() - from,
{
    if from < 0 || from >= free.len() {
        free.len() as int
    } else if fits(free[from], size, align) {
        from
    } else {
        first_fit(free, size, align, from + 1)
    }
}

/// Index of the first block at or after `from` that starts above `addr`, or
/// the length of the list when none does.
pub open spec fn first_above(free: Seq<Block>, addr: int, from: int) -> int
    decreases free.len() - from,
{
    if from < 0 || from >= free.len() {
        free.len() as int
    } else if free[from].start > addr {
        from
    } else {
        first_above(free, addr, from + 1)
    }
}

/// Whether a scan for the place of the new range `[start, start + size)`
/// stops at `block`: the block ends where the range starts, starts where the
/// range ends, or lies above it.
pub open spec fn stops_scan(block: Block, start: int, size: int) -> bool {
    block.end() == start || start + size == block.start || block.start > start
}

/// Index of the first block at or after `from` at which the scan for the
/// range stops, or the length of the list when it runs off the end.
pub open spec fn first_stop(free: Seq<Block>, start: int, size: int, from: int) -> int
    decreases free.len() - from,
{
    if from < 0 || from >= free.len() {
        free.len() as int
    } else if stops_scan(free[from], start, size) {
        from
    } else {
        first_stop(free, start, size, from + 1)
    }
}

/// Every block of the list lies within the registered ranges.
pub open spec fn all_covered(regions: Seq<(int, int)>, free: Seq<Block>) -> bool {
    forall|i: int|
        0 <= i < free.len() ==> covers(regions, (#[trigger] free[i]).start as int, free[i].end())
}

/// The free list after the range `[start, start + size)` is registered: it
/// grows the first block met that ends at `start`, else is merged with the
/// block that starts at its end, else is inserted in address order.
pub open spec fn register(free: Seq<Block>, start: int, size: int) -> Seq<Block> {
    let k = first_stop(free, start, size, 0);
    if k >= free.len() {
        free.push(Block { start: start as usize, size: size as usize })
    } else if free[k].end() == start {
        free.update(k, Block { start: free[k].start, size: (free[k].size + size) as usize })
    } else if start + size == free[k].start {
        free.update(k, Block { start: start as usize, size: (size + free[k].size) as usize })
    } else {
        free.insert(k, Block { start: start as usize, size: size as usize })
    }
}

/// The free list after the block `[addr, addr + size)` returns to it: the
/// block absorbs the free block that starts at its end, else extends the
/// free block that ends at its start, else is inserted in address order.
pub open spec fn release(free: Seq<Block>, addr: int, size: int) -> Seq<Block> {
    let k = first_above(free, addr, 0);
    if k < free.len() && addr + size == free[k].start {
        free.update(k, Block { start: addr as usize, size: (size + free[k].size) as usize })
    } else if k > 0 && free[k - 1].end() == addr {
        free.update(
            k - 1,
            Block { start: free[k - 1].start, size: (free[k - 1].size + size) as usize },
        )
    } else {
        free.insert(k, Block { start: addr as usize, size: size as usize })
    }
}

/// What `first_fit` returns: no block before it fits, and the block at it does.
pub proof fn lemma_first_fit(free: Seq<Block>, size: int, align: int, from: int)
    requires
        0 <= from <= free.len(),
    ensures
        from <= first_fit(free, size, align, from) <= free.len(),
        forall|j: int|
            from <= j < first_fit(free, size, align, from) ==> !fits(#[trigger] free[j], size, align),
        first_fit(free, size, align, from) < free.len() ==> fits(
            free[first_fit(free, size, align, from)],
            size,
            align,
        ),
    decreases free.len() - from,
{
    if from < free.len() && !fits(free[from], size, align) {
        lemma_first_fit(free, size, align, from + 1);
    }
}

/// What `first_above` returns: every block before it starts at or below
/// `addr`, and the block at it starts above.
pub proof fn lemma_first_above(free: Seq<Block>, addr: int, from: int)
    requires
        0 <= from <= free.len(),
    ensures
        from <= first_above(free, addr, from) <= free.len(),
        forall|j: int| from <= j < first_above(free, addr, from) ==> (#[trigger] free[j]).start <= addr,
        first_above(free, addr, from) < free.len() ==> free[first_above(free, addr, from)].start
            > addr,
    decreases free.len() - from,
{
    if from < free.len() && free[from].start <= addr {
        lemma_first_above(free, addr, from + 1);
    }
}

/// The place that `first_above` finds is the only one with every earlier
/// block starting at or below `addr` and the block at it starting above.
pub proof fn lemma_first_above_is(free: Seq<Block>, addr: int, from: int, k: int)
    requires
        0 <= from <= k <= free.len(),
        forall|j: int| from <= j < k ==> (#[trigger] free[j]).start <= addr,
        k < free.len() ==> free[k].start > addr,
    ensures
        first_above(free, addr, from) == k,
    decreases free.len() - from,
{
    if from < k {
        lemma_first_above_is(free, addr, from + 1, k);
    }
}

/// What `first_stop` returns: the scan passes every block before it and
/// stops at the block at it.
pub proof fn lemma_first_stop(free: Seq<Block>, start: int, size: int, from: int)
    requires
        0 <= from <= free.len(),
    ensures
        from <= first_stop(free, start, size, from) <= free.len(),
        forall|j: int|
            from <= j < first_stop(free, start, size, from) ==> !stops_scan(
                #[trigger] free[j],
                start,
                size,
            ),
        first_stop(free, start, size, from) < free.len() ==> stops_scan(
            free[first_stop(free, start, size, from)],
            start,
            size,
        ),
    decreases free.len() - from,
{
    if from < free.len() && !stops_scan(free[from], start, size) {
        lemma_first_stop(free, start, size, from + 1);
    }
}

/// A block returned to an ordered list that it does not overlap leaves the
/// list ordered, with the block's bytes added to it.
pub proof fn lemma_release_ordered(free: Seq<Block>, addr: int, size: int)
    requires
        ordered(free),
        clear_of(free, addr, addr + size),
        0 <= addr,
        size >= HEADER_SIZE,
        addr + size <= usize::MAX,
    ensures
        ordered(release(free, addr, size)),
        free_bytes(release(free, addr, size)) == free_bytes(free) + size,
{
    lemma_first_above(free, addr, 0);
    let k = first_above(free, addr, 0);
    let after = release(free, addr, size);
    if k < free.len() && addr + size == free[k].start {
        lemma_free_bytes_update(free, k, after[k]);
    } else if k > 0 && free[k - 1].end() == addr {
        lemma_free_bytes_update(free, k - 1, after[k - 1]);
    } else {
        lemma_free_bytes_insert(free, k, Block { start: addr as usize, size: size as usize });
    }
}

/// A range that overlaps neither the list nor the block returned to it
/// overlaps nothing in the list afterwards.
pub proof fn lemma_release_clear(free: Seq<Block>, addr: int, size: int, lo: int, hi: int)
    requires
        ordered(free),
        clear_of(free, addr, addr + size),
        0 <= addr,
        size >= HEADER_SIZE,
        addr + size <= usize::MAX,
        lo < hi,
        clear_of(free, lo, hi),
        disjoint(lo, hi, addr, addr + size),
    ensures
        clear_of(release(free, addr, size), lo, hi),
{
    lemma_first_above(free, addr, 0);
    let k = first_above(free, addr, 0);
    let after = release(free, addr, size);
    assert forall|i: int| 0 <= i < after.len() implies disjoint(
        lo,
        hi,
        (#[trigger] after[i]).start as int,
        after[i].end(),
    ) by {
        if after.len() == free.len() {
            assert(disjoint(lo, hi, free[i].start as int, free[i].end()));
        } else if i < k {
            assert(disjoint(lo, hi, free[i].start as int, free[i].end()));
        } else if i > k {
            assert(disjoint(lo, hi, free[i - 1].start as int, free[i - 1].end()));
        }
    }
}

/// A range registered with an ordered list that it does not overlap leaves
/// the list ordered, with the range's bytes added to it.
pub proof fn lemma_register_ordered(free: Seq<Block>, start: int, size: int)
    requires
        ordered(free),
        clear_of(free, start, start + size),
        0 <= start,
        size >= HEADER_SIZE,
        start + size <= usize::MAX,
    ensures
        ordered(register(free, start, size)),
        free_bytes(register(free, start, size)) == free_bytes(free) + size,
{
    lemma_first_stop(free, start, size, 0);
    let k = first_stop(free, start, size, 0);
    let after = register(free, start, size);
    let block = Block { start: start as usize, size: size as usize };
    if k >= free.len() {
        assert(free.push(block) =~= free + seq![block]);
        lemma_free_bytes_concat(free, seq![block]);
        lemma_free_bytes_one(block);
    } else if free[k].end() == start {
        lemma_free_bytes_update(free, k, after[k]);
    } else if start + size == free[k].start {
        lemma_free_bytes_update(free, k, after[k]);
    } else {
        lemma_free_bytes_insert(free, k, block);
    }
}

/// A range that overlaps neither the list nor the range registered with it
/// overlaps nothing in the list afterwards.
pub proof fn lemma_register_clear(free: Seq<Block>, start: int, size: int, lo: int, hi: int)
    requires
        ordered(free),
        clear_of(free, start, start + size),
        0 <= start,
        size >= HEADER_SIZE,
        start + size <= usize::MAX,
        lo < hi,
        clear_of(free, lo, hi),
        disjoint(lo, hi, start, start + size),
    ensures
        clear_of(register(free, start, size), lo, hi),
{
    lemma_first_stop(free, start, size, 0);
    let k = first_stop(free, start, size, 0);
    let after = register(free, start, size);
    assert forall|i: int| 0 <= i < after.len() implies disjoint(
        lo,
        hi,
        (#[trigger] after[i]).start as int,
        after[i].end(),
    ) by {
        if after.len() == free.len() {
            assert(disjoint(lo, hi, free[i].start as int, free[i].end()));
        } else if i < k {
            assert(disjoint(lo, hi, free[i].start as int, free[i].end()));
        } else if i > k {
            assert(disjoint(lo, hi, free[i - 1].start as int, free[i - 1].end()));
        }
    }
}

/// A block of registered memory returned to a list within registered
/// memory leaves the list within it.
pub proof fn lemma_release_covered(
    free: Seq<Block>,
    addr: int,
    size: int,
    regions: Seq<(int, int)>,
)
    requires
        ordered(free),
        0 <= addr,
        size >= HEADER_SIZE,
        addr + size <= usize::MAX,
        all_covered(regions, free),
        covers(regions, addr, addr + size),
    ensures
        all_covered(regions, release(free, addr, size)),
{
    lemma_first_above(free, addr, 0);
    let k = first_above(free, addr, 0);
    let after = release(free, addr, size);
    assert forall|i: int| 0 <= i < after.len() implies covers(
        regions,
        (#[trigger] after[i]).start as int,
        after[i].end(),
    ) by {
        if after.len() == free.len() {
            assert(covers(regions, free[i].start as int, free[i].end()));
        } else if i < k {
            assert(covers(regions, free[i].start as int, free[i].end()));
        } else if i > k {
            assert(covers(regions, free[i - 1].start as int, free[i - 1].end()));
        }
    }
}

/// A registered range joining a list within registered memory leaves the
/// list within it.
pub proof fn lemma_register_covered(
    free: Seq<Block>,
    start: int,
    size: int,
    regions: Seq<(int, int)>,
)
    requires
        ordered(free),
        0 <= start,
        size >= HEADER_SIZE,
        start + size <= usize::MAX,
        all_covered(regions, free),
        covers(regions, start, start + size),
    ensures
        all_covered(regions, register(free, start, size)),
{
    lemma_first_stop(free, start, size, 0);
    let k = first_stop(free, start, size, 0);
    let after = register(free, start, size);
    assert forall|i: int| 0 <= i < after.len() implies covers(
        regions,
        (#[trigger] after[i]).start as int,
        after[i].end(),
    ) by {
        if after.len() == free.len() {
            assert(covers(regions, free[i].start as int, free[i].end()));
        } else if i < k {
            assert(covers(regions, free[i].start as int, free[i].end()));
        } else if i > k {
            assert(covers(regions, free[i - 1].start as int, free[i - 1].end()));
        }
    }
}

} // verus!
