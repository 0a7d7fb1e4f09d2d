//! The address ranges registered with the allocator, and what it means for
//! memory to lie within them.

use vstd::prelude::*;

verus! {

/// Whether address `x` lies in one of the ranges, each a pair of its first
/// address and one past its last.
pub open spec fn owned(regions: Seq<(int, int)>, x: int) -> bool {
    exists|r: int| 0 <= r < regions.len() && (#[trigger] regions[r]).0 <= x < regions[r].1
}

/// Whether every address of `[lo, hi)` lies in one of the ranges.
pub open spec fn covers(regions: Seq<(int, int)>, lo: int, hi: int) -> bool {
    forall|x: int| lo <= x < hi ==> #[trigger] owned(regions, x)
}

/// A further range takes nothing away: what was covered stays covered.
pub proof fn lemma_covers_push(regions: Seq<(int, int)>, range: (int, int), lo: int, hi: int)
    requires
        covers(regions, lo, hi),
    ensures
        covers(regions.push(range), lo, hi),
{
    assert forall|x: int| lo <= x < hi implies #[trigger] owned(regions.push(range), x) by {
        assert(owned(regions, x));
        let r = choose|r: int|
            0 <= r < regions.len() && (#[trigger] regions[r]).0 <= x < regions[r].1;
        assert(regions.push(range)[r] == regions[r]);
    }
}

/// A range covers itself once it is registered.
pub proof fn lemma_covers_last(regions: Seq<(int, int)>, range: (int, int))
    ensures
        covers(regions.push(range), range.0, range.1),
{
    assert forall|x: int| range.0 <= x < range.1 implies #[trigger] owned(
        regions.push(range),
        x,
    ) by {
        assert(regions.push(range)[regions.len() as int] == range);
    }
}

} // verus!
