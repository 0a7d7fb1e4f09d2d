//! The allocator itself.

use vstd::prelude::*;
use crate::block::{payload_start, Block, HEADER_SIZE};
use crate::free_list::{
    clear_of, disjoint, first_above, first_fit, first_stop, lemma_first_above, lemma_first_fit,
    lemma_first_stop,
};
use crate::model::{Allocation, HeapModel};
use crate::sums::{lemma_free_bytes_nonneg, lemma_free_bytes_remove};

verus! {

/// Why a request could not be served.
#[derive(Clone, Copy, Debug, PartialEq, Eq)]
pub enum AllocError {
    /// No free block can hold the request.
    NoMemory,
}

/// A first-fit byte allocator over one or more disjoint address ranges.
///
/// The free list is an address-ordered vector of block descriptors. Every
/// allocation is preceded by `HEADER_SIZE` reserved bytes; alignment padding
/// beyond that is given up for the lifetime of the allocation and is not
/// recovered when it is returned.
///
/// The allocator has no synchronisation of its own: every mutating operation
/// takes `&mut self`, so exclusive access is the caller's to provide.
pub struct LabByteAllocator {
    total: usize,
    used: usize,
    free: Vec<Block>,
    live: Ghost<Seq<Allocation>>,
    regions: Ghost<Seq<(int, int)>>,
}

impl View for LabByteAllocator {
    type V = HeapModel;

    closed spec fn view(&self) -> HeapModel {
        HeapModel {
            total: self.total as int,
            used: self.used as int,
            free: self.free@,
            live: self.live@,
            regions: self.regions@,
        }
    }
}

impl LabByteAllocator {
    /// The allocator's invariant, stated on its model.
    pub open spec fn wf(&self) -> bool {
        self@.wf()
    }

    /// An allocator with nothing registered.
    pub fn new() -> (r: Self)
        ensures
            r.wf(),
            r@ == HeapModel::empty(),
    {
        let r = LabByteAllocator {
            total: 0,
            used: 0,
            free: Vec::new(),
            live: Ghost(Seq::empty()),
            regions: Ghost(Seq::empty()),
        };
        proof {
            assert(r@.free =~= Seq::<Block>::empty());
        }
        r
    }

    /// Makes `[start, start + size)` the only managed range, as one free
    /// block, and forgets whatever was managed before.
    pub fn init(&mut self, start: usize, size: usize)
        requires
            size >= HEADER_SIZE,
            start + size <= usize::MAX,
        ensures
            final(self).wf(),
            final(self)@ == HeapModel::init(start, size),
    {
        let mut free: Vec<Block> = Vec::new();
        free.push(Block { start, size });
        self.total = size;
        self.used = 0;
        self.free = free;
        self.live = Ghost(Seq::empty());
        self.regions = Ghost(Seq::empty().push((start as int, start + size)));
        proof {
            assert(self.regions@ =~= seq![(start as int, start + size)]);
            assert(self.free@ =~= seq![Block { start, size }]);
            HeapModel::lemma_init_wf(start, size);
        }
    }

    /// Capacity registered so far.
    pub fn total_bytes(&self) -> (r: usize)
        ensures
            r as int == self@.total,
    {
        self.total
    }

    /// Payload bytes currently handed out.
    pub fn used_bytes(&self) -> (r: usize)
        ensures
            r as int == self@.used,
    {
        self.used
    }

    /// Capacity that is not payload in use.
    pub fn available_bytes(&self) -> (r: usize)
        requires
            self.wf(),
        ensures
            r as int == self@.total - self@.used,
    {
        proof {
            lemma_free_bytes_nonneg(self.free@);
        }
        self.total - self.used
    }

    /// Index of the first block that can hold the request, with the payload
    /// address in it.
    fn find_fit(&self, size: usize, align: usize) -> (r: (usize, usize))
        requires
            self.wf(),
            align > 0,
        ensures
            r.0 as int == first_fit(self@.free, size as int, align as int, 0),
            r.0 < self@.free.len() ==> r.1 as int == payload_start(
                self@.free[r.0 as int].start as int,
                align as int,
            ),
    {
        let mut i: usize = 0;
        while i < self.free.len()
            invariant
                i <= self.free@.len(),
                self.wf(),
                align > 0,
                first_fit(self.free@, size as int, align as int, 0) == first_fit(
                    self.free@,
                    size as int,
                    align as int,
                    i as int,
                ),
            decreases self.free@.len() - i,
        {
            let block: Block = self.free[i];
            match block.place(size, align) {
                Some(p) => {
                    return (i, p);
                },
                None => {},
            }
            i = i + 1;
        }
        (i, 0)
    }

    /// Index of the first block that starts above `addr`.
    fn find_above(&self, addr: usize) -> (k: usize)
        ensures
            k as int == first_above(self@.free, addr as int, 0),
    {
        let mut i: usize = 0;
        while i < self.free.len()
            invariant
                i <= self.free@.len(),
                first_above(self.free@, addr as int, 0) == first_above(
                    self.free@,
                    addr as int,
                    i as int,
                ),
            decreases self.free@.len() - i,
        {
            if self.free[i].start > addr {
                return i;
            }
            i = i + 1;
        }
        i
    }

    /// Index of the first block at which the scan for the place of the range
    /// `[start, start + size)` stops.
    fn find_stop(&self, start: usize, size: usize) -> (k: usize)
        requires
            self.wf(),
            start + size <= usize::MAX,
        ensures
            k as int == first_stop(self@.free, start as int, size as int, 0),
    {
        let mut i: usize = 0;
        while i < self.free.len()
            invariant
                i <= self.free@.len(),
                self.wf(),
                start + size <= usize::MAX,
                first_stop(self.free@, start as int, size as int, 0) == first_stop(
                    self.free@,
                    start as int,
                    size as int,
                    i as int,
                ),
            decreases self.free@.len() - i,
        {
            let block: Block = self.free[i];
            if block.start + block.size == start || start + size == block.start || block.start
                > start {
                return i;
            }
            i = i + 1;
        }
        i
    }

    /// Serves a request for `size` bytes at a multiple of `align` from the
    /// first free block, in address order, that can hold it together with the
    /// header space and the alignment padding ahead of the payload.
    ///
    /// Fails exactly when no free block can hold the request, and then
    /// changes nothing. On success the returned address is a multiple of
    /// `align`, the used counter grows by `size`, and the extent from
    /// `HEADER_SIZE` below the payload to its end is recorded as live.
    pub fn allocate(&mut self, size: usize, align: usize) -> (r: Result<usize, AllocError>)
        requires
            old(self).wf(),
            align > 0,
        ensures
            final(self).wf(),
            final(self)@ == old(self)@.allocate(size as int, align as int),
            r.is_ok() <==> old(self)@.can_alloc(size as int, align as int),
            r.is_ok() ==> r.unwrap() as int == old(self)@.alloc_ptr(size as int, align as int),
            r.is_ok() ==> r.unwrap() as int % align as int == 0,
            r.is_ok() ==> final(self)@.is_live(r.unwrap() as int, size as int),
            r.is_err() ==> r.unwrap_err() == AllocError::NoMemory,
    {
        let (k, p) = self.find_fit(size, align);
        let ghost before = self@;
        proof {
            before.lemma_allocate_wf(size as int, align as int);
            lemma_first_fit(before.free, size as int, align as int, 0);
        }
        if k >= self.free.len() {
            return Err(AllocError::NoMemory);
        }
        let block: Block = self.free[k];
        let rest: usize = block.start + block.size - (p + size);
        if rest >= HEADER_SIZE {
            self.free.set(k, Block { start: p + size, size: rest });
        } else {
            self.free.remove(k);
        }
        proof {
            lemma_free_bytes_remove(before.free, k as int);
        }
        self.used = self.used + size;
        self.live = Ghost(before.live.push(Allocation { ptr: p as int, size: size as int }));
        Ok(p)
    }

    /// Returns the live allocation `(ptr, size)`: its payload and the header
    /// space below it go back to the free list, merged with the free block
    /// that starts at its end, else with the one that ends at its start, else
    /// as a block of its own in address order. The used counter drops by
    /// `size`. `align` is the alignment the allocation was requested with; it
    /// plays no part in finding the block again.
    pub fn dealloc(&mut self, ptr: usize, size: usize, align: usize)
        requires
            old(self).wf(),
            old(self)@.is_live(ptr as int, size as int),
        ensures
            final(self).wf(),
            final(self)@ == old(self)@.dealloc(ptr as int, size as int),
    {
        let _ = align;
        let ghost before = self@;
        let ghost idx = before.live_index(ptr as int, size as int);
        proof {
            assert(before.live[idx] == Allocation { ptr: ptr as int, size: size as int });
            assert(clear_of(before.free, before.live[idx].start(), before.live[idx].end()));
            before.lemma_dealloc_wf(ptr as int, size as int);
        }
        let addr: usize = ptr - HEADER_SIZE;
        let bsize: usize = size + HEADER_SIZE;
        let k = self.find_above(addr);
        proof {
            lemma_first_above(before.free, addr as int, 0);
        }
        if k < self.free.len() && addr + bsize == self.free[k].start {
            let next: Block = self.free[k];
            self.free.set(k, Block { start: addr, size: bsize + next.size });
        } else if k > 0 && self.free[k - 1].start + self.free[k - 1].size == addr {
            let prev: Block = self.free[k - 1];
            self.free.set(k - 1, Block { start: prev.start, size: prev.size + bsize });
        } else {
            self.free.insert(k, Block { start: addr, size: bsize });
        }
        self.used = self.used - size;
        self.live = Ghost(before.live.remove(idx));
    }

    /// Registers the further range `[start, start + size)`. It grows the
    /// first free block met, in address order, that ends at `start`; else is
    /// merged with the free block that starts at its end; else becomes a
    /// block of its own in address order. Capacity grows by `size`.
    pub fn add_memory(&mut self, start: usize, size: usize) -> (r: Result<(), AllocError>)
        requires
            old(self).wf(),
            size >= HEADER_SIZE,
            start + size <= usize::MAX,
            old(self)@.total + size <= usize::MAX,
            old(self)@.unmanaged(start as int, size as int),
        ensures
            final(self).wf(),
            final(self)@ == old(self)@.add_memory(start, size),
            r.is_ok(),
    {
        let ghost before = self@;
        proof {
            before.lemma_add_memory_wf(start, size);
            lemma_first_stop(before.free, start as int, size as int, 0);
        }
        let k = self.find_stop(start, size);
        if k >= self.free.len() {
            self.free.push(Block { start, size });
        } else {
            let block: Block = self.free[k];
            if block.start + block.size == start {
                self.free.set(k, Block { start: block.start, size: block.size + size });
            } else if start + size == block.start {
                self.free.set(k, Block { start, size: size + block.size });
            } else {
                self.free.insert(k, Block { start, size });
            }
        }
        self.total = self.total + size;
        self.regions = Ghost(before.regions.push((start as int, start + size)));
        Ok(())
    }

    /// Whether `[start, start + size)` shares no address with any free block:
    /// the part of "unmanaged" and of "live" that can be tested at run time.
    pub fn clear_of_free(&self, start: usize, size: usize) -> (r: bool)
        requires
            self.wf(),
            start + size <= usize::MAX,
        ensures
            r == clear_of(self@.free, start as int, start + size),
    {
        let mut i: usize = 0;
        while i < self.free.len()
            invariant
                i <= self.free@.len(),
                self.wf(),
                start + size <= usize::MAX,
                forall|j: int|
                    0 <= j < i ==> disjoint(
                        start as int,
                        start + size,
                        (#[trigger] self.free@[j]).start as int,
                        self.free@[j].end(),
                    ),
            decreases self.free@.len() - i,
        {
            let block: Block = self.free[i];
            if !(start + size <= block.start || block.start + block.size <= start) {
                return false;
            }
            i = i + 1;
        }
        true
    }

    /// The number of blocks on the free list.
    pub fn free_block_count(&self) -> (r: usize)
        ensures
            r as int == self@.free.len(),
    {
        self.free.len()
    }

    /// The block at place `index` of the free list, in address order.
    pub fn free_block(&self, index: usize) -> (r: Option<Block>)
        ensures
            r == if index < self@.free.len() {
                Some(self@.free[index as int])
            } else {
                None
            },
    {
        if index < self.free.len() {
            Some(self.free[index])
        } else {
            None
        }
    }
}

} // verus!
