//! The mathematical model of the allocator: its counters, its address-ordered
//! free list and the allocations currently handed out, with the transition
//! each operation performs on them.

use vstd::prelude::*;
use crate::block::{lemma_payload_start, payload_start, Block, HEADER_SIZE};
use crate::free_list::{
    all_covered, clear_of, disjoint, first_fit, lemma_first_fit, lemma_register_clear,
    lemma_register_covered, lemma_register_ordered, lemma_release_clear, lemma_release_covered,
    lemma_release_ordered, ordered, register, release,
};
use crate::regions::{covers, lemma_covers_last, lemma_covers_push};
use crate::sums::{
    free_bytes, lemma_free_bytes_one, lemma_free_bytes_remove, lemma_free_bytes_update,
    lemma_live_bytes_nonneg, lemma_live_bytes_push, lemma_live_bytes_remove, live_bytes,
};

verus! {

/// An allocation handed out to a caller: the payload address and its size.
/// The extent it occupies also covers the header space just below the payload.
pub ghost struct Allocation {
    pub ptr: int,
    pub size: int,
}

impl Allocation {
    /// The first address of the occupied extent.
    pub open spec fn start(self) -> int {
        self.ptr - HEADER_SIZE as int
    }

    /// One past the last address of the occupied extent.
    pub open spec fn end(self) -> int {
        self.ptr + self.size
    }
}

/// The abstract state of an allocator.
pub ghost struct HeapModel {
    /// Capacity registered so far.
    pub total: int,
    /// Payload bytes currently handed out.
    pub used: int,
    /// The free list, in address order.
    pub free: Seq<Block>,
    /// The allocations handed out and not yet returned.
    pub live: Seq<Allocation>,
    /// The ranges registered so far, each as its first address and one past
    /// its last.
    pub regions: Seq<(int, int)>,
}

impl HeapModel {
    /// The free list is address-ordered and non-overlapping, every block can
    /// hold a header, live allocations overlap neither each other nor any
    /// free block, free blocks and live allocations lie within registered
    /// memory, and the counters account for every byte: the used counter
    /// is the live payload, and payload, free bytes and one header per live
    /// allocation never exceed the capacity.
    pub open spec fn wf(self) -> bool {
        &&& 0 <= self.used
        &&& self.total <= usize::MAX
        &&& ordered(self.free)
        &&& forall|a: int|
            0 <= a < self.live.len() ==> (#[trigger] self.live[a]).size >= 0
                && self.live[a].start() >= 0 && self.live[a].end() <= usize::MAX
        &&& forall|a: int|
            0 <= a < self.live.len() ==> clear_of(
                self.free,
                (#[trigger] self.live[a]).start(),
                self.live[a].end(),
            )
        &&& forall|a: int, b: int|
            0 <= a < b < self.live.len() ==> disjoint(
                (#[trigger] self.live[a]).start(),
                self.live[a].end(),
                (#[trigger] self.live[b]).start(),
                self.live[b].end(),
            )
        &&& all_covered(self.regions, self.free)
        &&& forall|a: int|
            0 <= a < self.live.len() ==> covers(
                self.regions,
                (#[trigger] self.live[a]).start(),
                self.live[a].end(),
            )
        &&& self.used == live_bytes(self.live)
        &&& self.used + free_bytes(self.free) + HEADER_SIZE * self.live.len() <= self.total
    }

    /// Whether payload in use and free bytes together make up the capacity.
    pub open spec fn conserved(self) -> bool {
        self.used + free_bytes(self.free) == self.total
    }

    /// Bytes of capacity that are neither payload in use nor on the free list:
    /// header space and alignment padding of live allocations, and fragments
    /// too small to stand as a block.
    pub open spec fn overhead(self) -> int {
        self.total - self.used - free_bytes(self.free)
    }

    /// Whether `[start, start + size)` shares no address with a free block or
    /// a live allocation.
    pub open spec fn unmanaged(self, start: int, size: int) -> bool {
        &&& clear_of(self.free, start, start + size)
        &&& forall|a: int|
            0 <= a < self.live.len() ==> disjoint(
                start,
                start + size,
                (#[trigger] self.live[a]).start(),
                self.live[a].end(),
            )
    }

    /// The state with nothing registered.
    pub open spec fn empty() -> HeapModel {
        HeapModel {
            total: 0,
            used: 0,
            free: Seq::empty(),
            live: Seq::empty(),
            regions: Seq::empty(),
        }
    }

    /// The state with the single free block `[start, start + size)`.
    pub open spec fn init(start: usize, size: usize) -> HeapModel {
        HeapModel {
            total: size as int,
            used: 0,
            free: seq![Block { start, size }],
            live: Seq::empty(),
            regions: seq![(start as int, start + size)],
        }
    }

    /// The state after registering the range `[start, start + size)`: it
    /// grows the block that ends at `start`, else absorbs the block that
    /// starts at its end, else is inserted in address order.
    pub open spec fn add_memory(self, start: usize, size: usize) -> HeapModel {
        HeapModel {
            total: self.total + size,
            free: register(self.free, start as int, size as int),
            regions: self.regions.push((start as int, start + size)),
            ..self
        }
    }

    /// Whether some free block can hold the request.
    pub open spec fn can_alloc(self, size: int, align: int) -> bool {
        first_fit(self.free, size, align, 0) < self.free.len()
    }

    /// The payload address that a request is given: the aligned address in
    /// the first block, in address order, that can hold it.
    pub open spec fn alloc_ptr(self, size: int, align: int) -> int {
        payload_start(self.free[first_fit(self.free, size, align, 0)].start as int, align)
    }

    /// The bytes that a served request takes from the free list: everything
    /// from the start of the chosen block to the end of the payload, and the
    /// remainder behind it where that is too small to stand as a block.
    pub open spec fn alloc_cost(self, size: int, align: int) -> int {
        let block = self.free[first_fit(self.free, size, align, 0)];
        let rest = block.end() - (self.alloc_ptr(size, align) + size);
        if rest >= HEADER_SIZE {
            block.size - rest
        } else {
            block.size as int
        }
    }

    /// The state after serving a request from the first block that can hold
    /// it. What is left behind the payload stays on the list in the block's
    /// place if it can hold a header; otherwise the whole block leaves the
    /// list. Without a fitting block the state is unchanged.
    pub open spec fn allocate(self, size: int, align: int) -> HeapModel {
        if !self.can_alloc(size, align) {
            self
        } else {
            let k = first_fit(self.free, size, align, 0);
            let ptr = self.alloc_ptr(size, align);
            let rest = self.free[k].end() - (ptr + size);
            let free = if rest >= HEADER_SIZE {
                self.free.update(k, Block { start: (ptr + size) as usize, size: rest as usize })
            } else {
                self.free.remove(k)
            };
            HeapModel {
                used: self.used + size,
                free,
                live: self.live.push(Allocation { ptr, size }),
                ..self
            }
        }
    }

    /// Whether `(ptr, size)` is an allocation handed out and not yet returned.
    pub open spec fn is_live(self, ptr: int, size: int) -> bool {
        self.live.contains(Allocation { ptr, size })
    }

    /// The place of a live allocation in the record of live allocations.
    pub open spec fn live_index(self, ptr: int, size: int) -> int {
        choose|a: int| 0 <= a < self.live.len() && self.live[a] == (Allocation { ptr, size })
    }

    /// The state after the live allocation `(ptr, size)` is returned: its
    /// payload and the header space below it go back to the free list.
    pub open spec fn dealloc(self, ptr: int, size: int) -> HeapModel {
        HeapModel {
            used: self.used - size,
            free: release(self.free, ptr - HEADER_SIZE as int, size + HEADER_SIZE as int),
            live: self.live.remove(self.live_index(ptr, size)),
            ..self
        }
    }

    /// The state after `init` is well formed and accounts for every byte.
    pub proof fn lemma_init_wf(start: usize, size: usize)
        requires
            size >= HEADER_SIZE,
            start + size <= usize::MAX,
        ensures
            Self::init(start, size).wf(),
            Self::init(start, size).overhead() == 0,
    {
        lemma_free_bytes_one(Block { start, size });
        lemma_covers_last(Seq::empty(), (start as int, start + size));
        assert(Seq::<(int, int)>::empty().push((start as int, start + size)) =~= seq![
            (start as int, start + size),
        ]);
    }

    /// Registering a range that is unmanaged so far keeps the state well
    /// formed and leaves the overhead as it was.
    pub proof fn lemma_add_memory_wf(self, start: usize, size: usize)
        requires
            self.wf(),
            size >= HEADER_SIZE,
            start + size <= usize::MAX,
            self.total + size <= usize::MAX,
            self.unmanaged(start as int, size as int),
        ensures
            self.add_memory(start, size).wf(),
            self.add_memory(start, size).overhead() == self.overhead(),
    {
        let after = self.add_memory(start, size);
        let range = (start as int, start + size);
        lemma_register_ordered(self.free, start as int, size as int);
        lemma_covers_last(self.regions, range);
        assert forall|i: int| 0 <= i < self.free.len() implies covers(
            after.regions,
            (#[trigger] self.free[i]).start as int,
            self.free[i].end(),
        ) by {
            lemma_covers_push(self.regions, range, self.free[i].start as int, self.free[i].end());
        }
        lemma_register_covered(self.free, start as int, size as int, after.regions);
        assert forall|a: int| 0 <= a < after.live.len() implies covers(
            after.regions,
            (#[trigger] after.live[a]).start(),
            after.live[a].end(),
        ) by {
            lemma_covers_push(self.regions, range, self.live[a].start(), self.live[a].end());
        }
        assert forall|a: int| 0 <= a < after.live.len() implies clear_of(
            after.free,
            (#[trigger] after.live[a]).start(),
            after.live[a].end(),
        ) by {
            lemma_register_clear(
                self.free,
                start as int,
                size as int,
                self.live[a].start(),
                self.live[a].end(),
            );
        }
    }

    /// Serving a request keeps the state well formed and records the new
    /// allocation as live. The overhead grows by what the free list gave up
    /// beyond the payload: header space, alignment padding, and a remainder
    /// too small to stand as a block.
    pub proof fn lemma_allocate_wf(self, size: int, align: int)
        requires
            self.wf(),
            size >= 0,
            align > 0,
        ensures
            self.allocate(size, align).wf(),
            self.can_alloc(size, align) ==> {
                &&& self.alloc_ptr(size, align) % align == 0
                &&& self.alloc_ptr(size, align) >= HEADER_SIZE
                &&& self.alloc_ptr(size, align) + size <= usize::MAX
                &&& self.allocate(size, align).is_live(self.alloc_ptr(size, align), size)
                &&& self.allocate(size, align).overhead() == self.overhead() + self.alloc_cost(
                    size,
                    align,
                ) - size
                &&& self.alloc_cost(size, align) >= size + HEADER_SIZE
            },
    {
        if self.can_alloc(size, align) {
            let k = first_fit(self.free, size, align, 0);
            let ptr = self.alloc_ptr(size, align);
            let block = self.free[k];
            let a = Allocation { ptr, size };
            let after = self.allocate(size, align);
            lemma_first_fit(self.free, size, align, 0);
            lemma_payload_start(block.start as int, align);
            lemma_free_bytes_remove(self.free, k);
            let rest = block.end() - (ptr + size);
            if rest >= HEADER_SIZE {
                lemma_free_bytes_update(self.free, k, after.free[k]);
            }
            lemma_live_bytes_push(self.live, a);
            assert(after.live[self.live.len() as int] == a);
            assert(ordered(after.free));
            assert(covers(self.regions, block.start as int, block.end()));
            assert forall|i: int| 0 <= i < after.free.len() implies covers(
                after.regions,
                (#[trigger] after.free[i]).start as int,
                after.free[i].end(),
            ) by {
                if after.free.len() == self.free.len() {
                    assert(covers(self.regions, self.free[i].start as int, self.free[i].end()));
                } else {
                    let oi = if i < k { i } else { i + 1 };
                    assert(after.free[i] == self.free[oi]);
                }
            }
            assert forall|b: int| 0 <= b < after.live.len() implies covers(
                after.regions,
                (#[trigger] after.live[b]).start(),
                after.live[b].end(),
            ) by {
                if b < self.live.len() {
                    assert(after.live[b] == self.live[b]);
                }
            }
            assert forall|b: int| 0 <= b < after.live.len() implies clear_of(
                after.free,
                (#[trigger] after.live[b]).start(),
                after.live[b].end(),
            ) by {
                if b < self.live.len() {
                    assert(after.live[b] == self.live[b]);
                    assert(clear_of(self.free, self.live[b].start(), self.live[b].end()));
                }
            }
            assert forall|b: int, c: int| 0 <= b < c < after.live.len() implies disjoint(
                (#[trigger] after.live[b]).start(),
                after.live[b].end(),
                (#[trigger] after.live[c]).start(),
                after.live[c].end(),
            ) by {
                assert(after.live[b] == self.live[b]);
                assert(clear_of(self.free, self.live[b].start(), self.live[b].end()));
                if c < self.live.len() {
                    assert(after.live[c] == self.live[c]);
                }
            }
        }
    }

    /// A live allocation is recorded once: its place in the record is the
    /// place it is found at.
    pub proof fn lemma_live_index(self, idx: int)
        requires
            self.wf(),
            0 <= idx < self.live.len(),
        ensures
            self.is_live(self.live[idx].ptr, self.live[idx].size),
            self.live_index(self.live[idx].ptr, self.live[idx].size) == idx,
    {
        let a = self.live[idx];
        let found = self.live_index(a.ptr, a.size);
        assert(self.live[found] == a);
        if found < idx {
            assert(disjoint(
                self.live[found].start(),
                self.live[found].end(),
                self.live[idx].start(),
                self.live[idx].end(),
            ));
        } else if idx < found {
            assert(disjoint(
                self.live[idx].start(),
                self.live[idx].end(),
                self.live[found].start(),
                self.live[found].end(),
            ));
        }
    }

    /// Returning a live allocation keeps the state well formed and gives one
    /// header's worth of overhead back.
    pub proof fn lemma_dealloc_wf(self, ptr: int, size: int)
        requires
            self.wf(),
            self.is_live(ptr, size),
        ensures
            self.dealloc(ptr, size).wf(),
            self.dealloc(ptr, size).overhead() == self.overhead() - HEADER_SIZE,
    {
        let idx = self.live_index(ptr, size);
        let a = Allocation { ptr, size };
        let after = self.dealloc(ptr, size);
        assert(self.live[idx] == a);
        assert(clear_of(self.free, a.start(), a.end()));
        lemma_release_ordered(self.free, a.start(), size + HEADER_SIZE);
        assert(covers(self.regions, self.live[idx].start(), self.live[idx].end()));
        lemma_release_covered(self.free, a.start(), size + HEADER_SIZE, self.regions);
        lemma_live_bytes_remove(self.live, idx);
        assert forall|b: int| 0 <= b < after.live.len() implies covers(
            after.regions,
            (#[trigger] after.live[b]).start(),
            after.live[b].end(),
        ) by {
            let ob = if b < idx { b } else { b + 1 };
            assert(after.live[b] == self.live[ob]);
        }
        assert forall|b: int| 0 <= b < after.live.len() implies (#[trigger] after.live[b])
            == self.live[if b < idx { b } else { b + 1 }] by {}
        assert forall|b: int| 0 <= b < after.live.len() implies clear_of(
            after.free,
            (#[trigger] after.live[b]).start(),
            after.live[b].end(),
        ) by {
            let ob = if b < idx { b } else { b + 1 };
            assert(after.live[b] == self.live[ob]);
            assert(clear_of(self.free, self.live[ob].start(), self.live[ob].end()));
            let (lo, hi) = if ob < idx { (ob, idx) } else { (idx, ob) };
            assert(disjoint(
                self.live[lo].start(),
                self.live[lo].end(),
                self.live[hi].start(),
                self.live[hi].end(),
            ));
            lemma_release_clear(
                self.free,
                a.start(),
                size + HEADER_SIZE,
                self.live[ob].start(),
                self.live[ob].end(),
            );
        }
        assert forall|b: int, c: int| 0 <= b < c < after.live.len() implies disjoint(
            (#[trigger] after.live[b]).start(),
            after.live[b].end(),
            (#[trigger] after.live[c]).start(),
            after.live[c].end(),
        ) by {
            let ob = if b < idx { b } else { b + 1 };
            let oc = if c < idx { c } else { c + 1 };
            assert(after.live[b] == self.live[ob]);
            assert(after.live[c] == self.live[oc]);
        }
        assert forall|b: int| 0 <= b < after.live.len() implies (#[trigger] after.live[b]).size
            >= 0 && after.live[b].start() >= 0 && after.live[b].end() <= usize::MAX by {
            let ob = if b < idx { b } else { b + 1 };
            assert(after.live[b] == self.live[ob]);
        }
        lemma_live_bytes_nonneg(after.live);
    }
}

} // verus!
