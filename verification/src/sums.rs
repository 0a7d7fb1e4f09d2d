//! Byte totals over sequences of blocks and of live allocations.

use vstd::prelude::*;
use crate::block::Block;
use crate::model::Allocation;

verus! {

/// The sum of the sizes of the blocks in `s`.
pub open spec fn free_bytes(s: Seq<Block>) -> int
    decreases s.len(),
{
    if s.len() == 0 {
        0
    } else {
        free_bytes(s.drop_last()) + s.last().size as int
    }
}

/// The sum of the payload sizes of the allocations in `s`.
pub open spec fn live_bytes(s: Seq<Allocation>) -> int
    decreases s.len(),
{
    if s.len() == 0 {
        0
    } else {
        live_bytes(s.drop_last()) + s.last().size
    }
}

/// The bytes of two lists joined are the bytes of each, added.
pub proof fn lemma_free_bytes_concat(a: Seq<Block>, b: Seq<Block>)
    ensures
        free_bytes(a + b) == free_bytes(a) + free_bytes(b),
    decreases b.len(),
{
    if b.len() == 0 {
        assert(a + b =~= a);
    } else {
        assert((a + b).drop_last() =~= a + b.drop_last());
        lemma_free_bytes_concat(a, b.drop_last());
    }
}

/// A list of one block holds that block's bytes.
pub proof fn lemma_free_bytes_one(b: Block)
    ensures
        free_bytes(seq![b]) == b.size as int,
{
    assert(seq![b].drop_last() =~= Seq::<Block>::empty());
    reveal_with_fuel(free_bytes, 2);
}

/// A list never holds a negative number of bytes.
pub proof fn lemma_free_bytes_nonneg(s: Seq<Block>)
    ensures
        free_bytes(s) >= 0,
    decreases s.len(),
{
    if s.len() > 0 {
        lemma_free_bytes_nonneg(s.drop_last());
    }
}

/// Inserting a block adds its bytes.
pub proof fn lemma_free_bytes_insert(s: Seq<Block>, i: int, b: Block)
    requires
        0 <= i <= s.len(),
    ensures
        free_bytes(s.insert(i, b)) == free_bytes(s) + b.size as int,
{
    let left = s.subrange(0, i);
    let right = s.subrange(i, s.len() as int);
    assert(s =~= left + right);
    assert(s.insert(i, b) =~= (left + seq![b]) + right);
    lemma_free_bytes_concat(left, right);
    lemma_free_bytes_concat(left, seq![b]);
    lemma_free_bytes_concat(left + seq![b], right);
    lemma_free_bytes_one(b);
}

/// Removing a block takes its bytes away; no block holds more than the list.
pub proof fn lemma_free_bytes_remove(s: Seq<Block>, i: int)
    requires
        0 <= i < s.len(),
    ensures
        free_bytes(s.remove(i)) == free_bytes(s) - s[i].size as int,
        free_bytes(s) >= s[i].size as int,
{
    assert(s.remove(i).insert(i, s[i]) =~= s);
    lemma_free_bytes_insert(s.remove(i), i, s[i]);
    lemma_free_bytes_nonneg(s.remove(i));
}

/// Replacing a block exchanges its bytes for those of the new one.
pub proof fn lemma_free_bytes_update(s: Seq<Block>, i: int, b: Block)
    requires
        0 <= i < s.len(),
    ensures
        free_bytes(s.update(i, b)) == free_bytes(s) - s[i].size as int + b.size as int,
{
    assert(s.update(i, b) =~= s.remove(i).insert(i, b));
    lemma_free_bytes_remove(s, i);
    lemma_free_bytes_insert(s.remove(i), i, b);
}

/// Allocations of non-negative size hold a non-negative number of bytes.
pub proof fn lemma_live_bytes_nonneg(s: Seq<Allocation>)
    requires
        forall|i: int| 0 <= i < s.len() ==> (#[trigger] s[i]).size >= 0,
    ensures
        live_bytes(s) >= 0,
    decreases s.len(),
{
    if s.len() > 0 {
        lemma_live_bytes_nonneg(s.drop_last());
    }
}

/// Recording an allocation adds its payload bytes.
pub proof fn lemma_live_bytes_push(s: Seq<Allocation>, a: Allocation)
    ensures
        live_bytes(s.push(a)) == live_bytes(s) + a.size,
{
    assert(s.push(a).drop_last() =~= s);
}

/// Striking an allocation off the record takes its payload bytes away.
pub proof fn lemma_live_bytes_remove(s: Seq<Allocation>, i: int)
    requires
        0 <= i < s.len(),
    ensures
        live_bytes(s.remove(i)) == live_bytes(s) - s[i].size,
    decreases s.len(),
{
    if i == s.len() - 1 {
        assert(s.remove(i) =~= s.drop_last());
    } else {
        assert(s.remove(i).drop_last() =~= s.drop_last().remove(i));
        lemma_live_bytes_remove(s.drop_last(), i);
    }
}

} // verus!
