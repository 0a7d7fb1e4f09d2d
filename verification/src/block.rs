//! Free-block descriptors and payload placement.

use vstd::prelude::*;
use vstd::arithmetic::div_mod::{lemma_fundamental_div_mod, lemma_mod_multiples_basic};

verus! {

/// Bytes reserved ahead of every payload: room for a block header made of a
/// size and a link. This is the fixed per-allocation overhead of the design.
pub const HEADER_SIZE: usize = 16;

/// A contiguous extent of unused memory, `[start, start + size)`.
#[derive(Clone, Copy, Debug, PartialEq, Eq)]
pub struct Block {
    pub start: usize,
    pub size: usize,
}

/// The least address at or above `block_start + HEADER_SIZE` that is a
/// multiple of `align`.
pub open spec fn payload_start(block_start: int, align: int) -> int {
    let base = block_start + HEADER_SIZE as int;
    if base % align == 0 {
        base
    } else {
        base + align - base % align
    }
}

/// Whether a request of `size` bytes aligned to `align` can be carved out of
/// `block`, header space and alignment padding included.
pub open spec fn fits(block: Block, size: int, align: int) -> bool {
    payload_start(block.start as int, align) + size <= block.end()
}

/// `payload_start` is the first multiple of `align` that leaves a header's
/// worth of room: it is aligned, not below the base, and less than one
/// alignment step above it.
pub proof fn lemma_payload_start(block_start: int, align: int)
    requires
        block_start >= 0,
        align > 0,
    ensures
        payload_start(block_start, align) % align == 0,
        payload_start(block_start, align) >= block_start + HEADER_SIZE as int,
        payload_start(block_start, align) < block_start + HEADER_SIZE as int + align,
{
    let base = block_start + HEADER_SIZE as int;
    let rem = base % align;
    lemma_fundamental_div_mod(base, align);
    if rem != 0 {
        let q = base / align;
        assert(base + align - rem == (q + 1) * align) by (nonlinear_arith)
            requires
                base == align * q + rem,
        ;
        lemma_mod_multiples_basic(q + 1, align);
    }
}

impl Block {
    /// One past the last address of the block.
    pub open spec fn end(self) -> int {
        self.start + self.size
    }

    /// Where the payload of a request would start inside this block, if the
    /// request fits.
    pub fn place(&self, size: usize, align: usize) -> (r: Option<usize>)
        requires
            align > 0,
            self.end() <= usize::MAX,
        ensures
            r.is_some() <==> fits(*self, size as int, align as int),
            r.is_some() ==> r.unwrap() as int == payload_start(self.start as int, align as int),
    {
        proof {
            lemma_payload_start(self.start as int, align as int);
        }
        if self.size < HEADER_SIZE {
            return None;
        }
        let end: usize = self.start + self.size;
        let base: usize = self.start + HEADER_SIZE;
        let rem: usize = base % align;
        let pad: usize = if rem == 0 {
            0
        } else {
            align - rem
        };
        if pad > end - base {
            return None;
        }
        let p: usize = base + pad;
        if size > end - p {
            return None;
        }
        Some(p)
    }
}

} // verus!
