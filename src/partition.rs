//! Partition sort engine: orders records by generation, smallest first.
use vstd::prelude::*;
use vstd::seq_lib::group_to_multiset_ensures;
use crate::permute::{swap_at, lemma_swap_range};
use crate::record::{Pokemon, generation_key};

verus! {

/// Generations never decrease over the inclusive range `[lo, hi]`.
pub open spec fn non_decreasing_generation(s: Seq<Pokemon>, lo: int, hi: int) -> bool {
    forall|a: int, b: int| lo <= a < b <= hi ==> generation_key(#[trigger] s[a]) <= generation_key(#[trigger] s[b])
}

/// Every record of `[lo, hi]` lies at or below the pivot (`below`), or at or above it.
pub open spec fn bounded_by(s: Seq<Pokemon>, lo: int, hi: int, pivot: int, below: bool) -> bool {
    forall|k: int|
        lo <= k <= hi ==> (if below {
            generation_key(#[trigger] s[k]) <= pivot
        } else {
            generation_key(s[k]) >= pivot
        })
}

/// A reordering of `[lo, hi]` keeps a bound that held on every record there.
proof fn lemma_bound_kept(s: Seq<Pokemon>, t: Seq<Pokemon>, lo: int, hi: int, pivot: int, below: bool)
    requires
        0 <= lo <= hi < s.len() == t.len(),
        t.subrange(lo, hi + 1).to_multiset() == s.subrange(lo, hi + 1).to_multiset(),
        bounded_by(s, lo, hi, pivot, below),
    ensures
        bounded_by(t, lo, hi, pivot, below),
{
    broadcast use group_to_multiset_ensures;

    assert forall|k: int| lo <= k <= hi implies (if below {
        generation_key(#[trigger] t[k]) <= pivot
    } else {
        generation_key(t[k]) >= pivot
    }) by {
        let x = t[k];
        assert(t.subrange(lo, hi + 1)[k - lo] == x);
        assert(t.subrange(lo, hi + 1).contains(x));
        assert(t.subrange(lo, hi + 1).to_multiset().count(x) > 0);
        assert(s.subrange(lo, hi + 1).contains(x));
        let m = choose|m: int| 0 <= m < hi + 1 - lo && #[trigger] s.subrange(lo, hi + 1)[m] == x;
        assert(s[lo + m] == x);
    }
}

/// The multiset of `[lo, hi]` splits around an inner range `[a, b]`.
proof fn lemma_range_split(s: Seq<Pokemon>, t: Seq<Pokemon>, lo: int, a: int, b: int, hi: int)
    requires
        0 <= lo <= a <= b + 1 <= hi + 1 <= s.len() == t.len(),
        t.subrange(a, b + 1).to_multiset() == s.subrange(a, b + 1).to_multiset(),
        forall|k: int| lo <= k <= hi && (k < a || b < k) ==> t[k] == s[k],
    ensures
        t.subrange(lo, hi + 1).to_multiset() == s.subrange(lo, hi + 1).to_multiset(),
{
    broadcast use vstd::seq_lib::lemma_multiset_commutative;

    assert(s.subrange(lo, hi + 1) =~= s.subrange(lo, a) + s.subrange(a, b + 1) + s.subrange(b + 1, hi + 1));
    assert(t.subrange(lo, hi + 1) =~= t.subrange(lo, a) + t.subrange(a, b + 1) + t.subrange(b + 1, hi + 1));
    assert(t.subrange(lo, a) =~= s.subrange(lo, a));
    assert(t.subrange(b + 1, hi + 1) =~= s.subrange(b + 1, hi + 1));
    vstd::seq_lib::lemma_multiset_commutative(s.subrange(lo, a) + s.subrange(a, b + 1), s.subrange(b + 1, hi + 1));
    vstd::seq_lib::lemma_multiset_commutative(t.subrange(lo, a) + t.subrange(a, b + 1), t.subrange(b + 1, hi + 1));
    vstd::seq_lib::lemma_multiset_commutative(s.subrange(lo, a), s.subrange(a, b + 1));
    vstd::seq_lib::lemma_multiset_commutative(t.subrange(lo, a), t.subrange(a, b + 1));
}

/// Sorts the inclusive range `[left, right]` by generation, in place, by
/// partitioning around the generation of its middle record and recursing on
/// both sides. Records outside the range are left where they are.
pub fn quick_sort(array: &mut Vec<Pokemon>, left: usize, right: usize)
    requires
        left < right ==> right < old(array)@.len(),
    ensures
        final(array)@.len() == old(array)@.len(),
        left <= right < old(array)@.len() ==> final(array)@.subrange(left as int, right + 1).to_multiset()
            == old(array)@.subrange(left as int, right + 1).to_multiset(),
        left >= right ==> final(array)@ == old(array)@,
        forall|k: int|
            0 <= k < old(array)@.len() && (k < left || right < k) ==> final(array)@[k] == old(
                array,
            )@[k],
        non_decreasing_generation(final(array)@, left as int, right as int),
    decreases right - left,
{
    if left >= right {
        return;
    }
    let mut i: usize = left;
    let mut j: usize = right;
    let mid: usize = left + (right - left) / 2;
    let pivot: i32 = array[mid].generation;
    let ghost p = pivot as int;
    let ghost mut hi_w: int = mid as int;
    let ghost mut lo_w: int = mid as int;
    let n = array.len();

    while i <= j
        invariant
            left < right < array@.len() == n,
            p == pivot as int,
            array@.len() == old(array)@.len(),
            array@.subrange(left as int, right + 1).to_multiset() == old(array)@.subrange(
                left as int,
                right + 1,
            ).to_multiset(),
            forall|k: int|
                0 <= k < array@.len() && (k < left || right < k) ==> array@[k] == old(array)@[k],
            left <= i <= right + 1,
            left as int - 1 <= j <= right,
            (i == left && j == right && hi_w == lo_w) || (i > left && j < right),
            bounded_by(array@, left as int, i - 1, p, true),
            bounded_by(array@, j + 1, right as int, p, false),
            i <= j ==> i <= hi_w <= right && generation_key(array@[hi_w]) >= p,
            i <= j ==> left <= lo_w <= j && generation_key(array@[lo_w]) <= p,
            j == 0 ==> i > j || i == 0,
        decreases (right + 2 - i) + (j + 1 - left),
    {
        let ghost i0 = i;
        let ghost j0 = j;
        while array[i].generation < pivot
            invariant
                left <= i0 <= i <= hi_w <= right < array@.len(),
                p == pivot as int,
                generation_key(array@[hi_w]) >= p,
                bounded_by(array@, left as int, i - 1, p, true),
            decreases hi_w - i,
        {
            i += 1;
        }
        while array[j].generation > pivot
            invariant
                left <= lo_w <= j <= j0 <= right < array@.len(),
                p == pivot as int,
                generation_key(array@[lo_w]) <= p,
                bounded_by(array@, j + 1, right as int, p, false),
            decreases j - lo_w,
        {
            j -= 1;
        }
        if i <= j {
            proof {
                lemma_swap_range(array@, i as int, j as int, left as int, right + 1);
            }
            swap_at(array, i, j);
            proof {
                hi_w = j as int;
                lo_w = i as int;
            }
            i += 1;
            if j != 0 {
                j -= 1
            }
        }
    }

    let ghost parted = array@;
    if left < j {
        quick_sort(array, left, j);
    }
    let ghost first = array@;
    proof {
        if left < j {
            lemma_bound_kept(parted, first, left as int, j as int, p, true);
            lemma_range_split(parted, first, left as int, left as int, j as int, right as int);
        }
    }
    if i < right {
        quick_sort(array, i, right);
    }
    proof {
        let s = array@;
        if i < right {
            lemma_bound_kept(first, s, i as int, right as int, p, false);
            lemma_range_split(first, s, left as int, i as int, right as int, right as int);
        }
        assert(bounded_by(s, left as int, i - 1, p, true));
        assert(bounded_by(s, j + 1, right as int, p, false));
        assert forall|a: int, b: int|
            left <= a < b <= right implies generation_key(#[trigger] s[a]) <= generation_key(
                #[trigger] s[b],
            ) by {
            if b <= j {
            } else if a >= i {
            } else {
                assert(generation_key(s[a]) <= p);
                assert(generation_key(s[b]) >= p);
            }
        }
    }
}

/// Sorts the whole vector by generation, smallest first; the records
/// themselves are only reordered.
pub fn sort(array: &mut Vec<Pokemon>)
    ensures
        final(array)@.len() == old(array)@.len(),
        final(array)@.to_multiset() == old(array)@.to_multiset(),
        non_decreasing_generation(final(array)@, 0, final(array)@.len() - 1),
        old(array)@.len() <= 1 ==> final(array)@ == old(array)@,
{
    let n = array.len();
    if n > 1 {
        quick_sort(array, 0, n - 1);
        proof {
            assert(array@.subrange(0, n as int) =~= array@);
            assert(old(array)@.subrange(0, n as int) =~= old(array)@);
        }
    }
}

} // verus!
