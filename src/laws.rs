//! Laws relating the sorting engines' results to their inputs.
use vstd::prelude::*;
use vstd::relations::sorted_by;
use crate::heap::non_increasing_height;
use crate::partition::non_decreasing_generation;
use crate::permute::lemma_map_multiset;
use crate::record::{Pokemon, generation_key, height_key};

verus! {

/// The heights of the records, position by position.
pub open spec fn heights(s: Seq<Pokemon>) -> Seq<int> {
    s.map_values(|p: Pokemon| height_key(p))
}

/// The generations of the records, position by position.
pub open spec fn generations(s: Seq<Pokemon>) -> Seq<int> {
    s.map_values(|p: Pokemon| generation_key(p))
}

/// Heap-sorting records already in non-increasing height order gives back
/// the same records with the same height at every position: only records of
/// equal height may trade places.
pub proof fn lemma_heap_sort_idempotent(before: Seq<Pokemon>, after: Seq<Pokemon>)
    requires
        non_increasing_height(before),
        after.to_multiset() == before.to_multiset(),
        non_increasing_height(after),
    ensures
        heights(after) == heights(before),
{
    let leq = |a: int, b: int| a >= b;
    lemma_map_multiset(before, after, |p: Pokemon| height_key(p));
    assert(sorted_by(heights(before), leq));
    assert(sorted_by(heights(after), leq));
    vstd::seq_lib::lemma_sorted_unique(heights(after), heights(before), leq);
}

/// Partition-sorting records already in non-decreasing generation order
/// gives back the same records with the same generation at every position:
/// only records of equal generation may trade places.
pub proof fn lemma_partition_sort_idempotent(before: Seq<Pokemon>, after: Seq<Pokemon>)
    requires
        non_decreasing_generation(before, 0, before.len() - 1),
        after.to_multiset() == before.to_multiset(),
        non_decreasing_generation(after, 0, after.len() - 1),
    ensures
        generations(after) == generations(before),
{
    let leq = |a: int, b: int| a <= b;
    lemma_map_multiset(before, after, |p: Pokemon| generation_key(p));
    assert(sorted_by(generations(before), leq));
    assert(sorted_by(generations(after), leq));
    vstd::seq_lib::lemma_sorted_unique(generations(after), generations(before), leq);
}

} // verus!
