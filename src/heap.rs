//! Heap sort engine: orders records by height, largest first.
//!
//! A max-heap on the height key is built by sifting each position up; each
//! extraction then moves the largest remaining record to the end of the
//! active region, which leaves the heights ascending. A final in-place
//! reversal gives the largest height first.
use vstd::prelude::*;
use vstd::seq_lib::group_to_multiset_ensures;
use crate::permute::{swap_at, lemma_swap_range};
use crate::record::{Pokemon, height_key};

verus! {

pub open spec fn parent(k: int) -> int {
    (k - 1) / 2
}

/// The first `n` positions form a max-heap by height.
pub open spec fn is_heap(s: Seq<Pokemon>, n: int) -> bool {
    forall|k: int| 1 <= k < n ==> height_key(#[trigger] s[parent(k)]) >= height_key(s[k])
}

/// Positions `[0, n)` form a max-heap except possibly between `hole` and its
/// children: every other parent is at least its child, and the parent of
/// `hole` is at least the children of `hole`.
pub open spec fn heap_but_below(s: Seq<Pokemon>, n: int, hole: int) -> bool {
    &&& forall|k: int| 1 <= k < n && parent(k) != hole ==> height_key(#[trigger] s[parent(k)]) >= height_key(s[k])
    &&& hole > 0 ==> forall|k: int|
        1 <= k < n && parent(k) == hole ==> height_key(s[parent(hole)]) >= height_key(#[trigger] s[k])
}

/// Adjacent positions never increase in height.
pub open spec fn non_increasing_height(s: Seq<Pokemon>) -> bool {
    forall|a: int, b: int| 0 <= a < b < s.len() ==> height_key(#[trigger] s[a]) >= height_key(#[trigger] s[b])
}

/// The root of a heap holds its largest height.
proof fn lemma_root_is_max(s: Seq<Pokemon>, n: int, k: int)
    requires
        is_heap(s, n),
        0 <= k < n <= s.len(),
    ensures
        height_key(s[0]) >= height_key(s[k]),
    decreases k,
{
    if k > 0 {
        assert(height_key(s[parent(k)]) >= height_key(s[k]));
        lemma_root_is_max(s, n, parent(k));
    }
}

/// Moves the record at `idx` up while its parent's height is less than its
/// own. Only `[0, idx]` is reordered; where `[0, idx)` was a heap, `[0, idx]`
/// is one afterwards.
pub fn check_position_up(array: &mut Vec<Pokemon>, idx: usize)
    requires
        idx < old(array)@.len(),
    ensures
        final(array)@.len() == old(array)@.len(),
        final(array)@.to_multiset() == old(array)@.to_multiset(),
        final(array)@.subrange(0, idx + 1).to_multiset() == old(array)@.subrange(0, idx + 1).to_multiset(),
        forall|k: int| idx < k < old(array)@.len() ==> final(array)@[k] == old(array)@[k],
        is_heap(old(array)@, idx as int) ==> is_heap(final(array)@, idx + 1),
        idx == 0 || height_key(old(array)@[parent(idx as int)]) >= height_key(old(array)@[idx as int])
            ==> final(array)@ == old(array)@,
{
    let ghost good = is_heap(old(array)@, idx as int);
    let mut current_idx: usize = idx;
    while current_idx > 0
        invariant
            current_idx <= idx < array@.len(),
            array@.len() == old(array)@.len(),
            array@.to_multiset() == old(array)@.to_multiset(),
            array@.subrange(0, idx + 1).to_multiset() == old(array)@.subrange(0, idx + 1).to_multiset(),
            forall|k: int| idx < k < array@.len() ==> array@[k] == old(array)@[k],
            current_idx == idx ==> array@ == old(array)@,
            current_idx != idx ==> idx > 0 && height_key(old(array)@[parent(idx as int)]) < height_key(
                old(array)@[idx as int],
            ),
            good == is_heap(old(array)@, idx as int),
            good ==> forall|k: int|
                1 <= k <= idx && k != current_idx ==> height_key(#[trigger] array@[parent(k)])
                    >= height_key(array@[k]),
            good ==> (current_idx > 0 ==> forall|k: int|
                1 <= k <= idx && parent(k) == current_idx ==> height_key(
                    array@[parent(current_idx as int)],
                ) >= height_key(#[trigger] array@[k])),
        decreases current_idx,
    {
        let father_idx = (current_idx - 1) / 2;
        if array[father_idx].height.thousandths < array[current_idx].height.thousandths {
            proof {
                lemma_swap_range(array@, father_idx as int, current_idx as int, 0, idx + 1);
            }
            let ghost before = array@;
            swap_at(array, father_idx, current_idx);
            proof {
                if good {
                    assert forall|k: int|
                        1 <= k <= idx && k != father_idx implies height_key(#[trigger] array@[parent(k)])
                            >= height_key(array@[k]) by {
                        if k == current_idx {
                        } else if parent(k) == current_idx {
                            assert(height_key(before[parent(current_idx as int)]) >= height_key(before[k]));
                        } else {
                            assert(height_key(before[parent(k)]) >= height_key(before[k]));
                        }
                    }
                    if father_idx > 0 {
                        assert(height_key(before[parent(father_idx as int)]) >= height_key(
                            before[father_idx as int],
                        ));
                    }
                }
            }
            current_idx = father_idx;
        } else {
            proof {
                if good {
                    assert forall|k: int| 1 <= k <= idx implies height_key(#[trigger] array@[parent(k)])
                        >= height_key(array@[k]) by {}
                }
            }
            return;
        }
    }
}

/// Moves the record at `idx` down, into the larger of its children below
/// `last_idx` while that child's height is greater. Only `[0, last_idx)` is
/// reordered; where the heap was broken only below `idx`, `[0, last_idx)` is
/// a heap afterwards.
pub fn check_position_down(array: &mut Vec<Pokemon>, idx: usize, last_idx: usize)
    requires
        last_idx <= old(array)@.len(),
    ensures
        final(array)@.len() == old(array)@.len(),
        final(array)@.to_multiset() == old(array)@.to_multiset(),
        final(array)@.subrange(0, last_idx as int).to_multiset() == old(array)@.subrange(
            0,
            last_idx as int,
        ).to_multiset(),
        forall|k: int|
            0 <= k < old(array)@.len() && last_idx <= k ==> final(array)@[k] == old(array)@[k],
        idx < last_idx && heap_but_below(old(array)@, last_idx as int, idx as int) ==> is_heap(
            final(array)@,
            last_idx as int,
        ),
        (forall|c: int|
            (c == 2 * idx + 1 || c == 2 * idx + 2) ==> c >= last_idx || height_key(old(array)@[c])
                <= height_key(old(array)@[idx as int])) ==> final(array)@ == old(array)@,
{
    if idx >= last_idx {
        return;
    }
    let ghost good = heap_but_below(old(array)@, last_idx as int, idx as int);
    let mut current_idx: usize = idx;
    loop
        invariant
            idx <= current_idx < last_idx <= array@.len(),
            array@.len() == old(array)@.len(),
            array@.to_multiset() == old(array)@.to_multiset(),
            array@.subrange(0, last_idx as int).to_multiset() == old(array)@.subrange(
                0,
                last_idx as int,
            ).to_multiset(),
            forall|k: int| 0 <= k < array@.len() && last_idx <= k ==> array@[k] == old(array)@[k],
            current_idx == idx ==> array@ == old(array)@,
            current_idx != idx ==> (2 * idx + 1 < last_idx && height_key(old(array)@[2 * idx + 1])
                > height_key(old(array)@[idx as int])) || (2 * idx + 2 < last_idx && height_key(
                old(array)@[2 * idx + 2],
            ) > height_key(old(array)@[idx as int])),
            good == heap_but_below(old(array)@, last_idx as int, idx as int),
            good ==> heap_but_below(array@, last_idx as int, current_idx as int),
        decreases last_idx - current_idx,
    {
        if current_idx >= last_idx / 2 {
            proof {
                if good {
                    assert forall|k: int| 1 <= k < last_idx implies height_key(
                        #[trigger] array@[parent(k)],
                    ) >= height_key(array@[k]) by {
                        assert(parent(k) != current_idx);
                    }
                }
            }
            return;
        }
        let son1_idx = 2 * current_idx + 1;
        let son2_idx = 2 * current_idx + 2;
        let mut max_idx = current_idx;
        if son1_idx < last_idx {
            if array[son1_idx].height.thousandths > array[max_idx].height.thousandths {
                max_idx = son1_idx;
            }
        }
        if son2_idx < last_idx {
            if array[son2_idx].height.thousandths > array[max_idx].height.thousandths {
                max_idx = son2_idx;
            }
        }
        if max_idx != current_idx {
            proof {
                lemma_swap_range(array@, current_idx as int, max_idx as int, 0, last_idx as int);
                assert(parent(son1_idx as int) == current_idx);
                assert(parent(son2_idx as int) == current_idx);
            }
            let ghost before = array@;
            swap_at(array, current_idx, max_idx);
            proof {
                if good {
                    assert forall|k: int|
                        1 <= k < last_idx && parent(k) != max_idx implies height_key(
                            #[trigger] array@[parent(k)],
                        ) >= height_key(array@[k]) by {
                        if k == max_idx {
                        } else if k == current_idx {
                            assert(height_key(before[parent(current_idx as int)]) >= height_key(
                                before[max_idx as int],
                            ));
                        } else if parent(k) == current_idx {
                            assert(k == son1_idx || k == son2_idx);
                        } else {
                            assert(height_key(before[parent(k)]) >= height_key(before[k]));
                        }
                    }
                    assert forall|k: int|
                        1 <= k < last_idx && parent(k) == max_idx implies height_key(
                            array@[parent(max_idx as int)],
                        ) >= height_key(#[trigger] array@[k]) by {
                        assert(k != current_idx && k != max_idx);
                        assert(parent(k) != current_idx);
                        assert(height_key(before[parent(k)]) >= height_key(before[k]));
                    }
                }
            }
            current_idx = max_idx;
        } else {
            proof {
                if good {
                    assert forall|k: int| 1 <= k < last_idx implies height_key(
                        #[trigger] array@[parent(k)],
                    ) >= height_key(array@[k]) by {
                        if parent(k) == current_idx {
                            assert(k == son1_idx || k == son2_idx);
                        }
                    }
                }
            }
            return;
        }
    }
}

/// Builds a max-heap over the whole vector by sifting each position up in
/// turn; a vector that already is one is left as it is.
pub fn heapify(array: &mut Vec<Pokemon>)
    ensures
        final(array)@.len() == old(array)@.len(),
        final(array)@.to_multiset() == old(array)@.to_multiset(),
        is_heap(final(array)@, final(array)@.len() as int),
        is_heap(old(array)@, old(array)@.len() as int) ==> final(array)@ == old(array)@,
{
    let n = array.len();
    let mut i: usize = 0;
    while i < n
        invariant
            i <= n == array@.len(),
            array@.to_multiset() == old(array)@.to_multiset(),
            is_heap(array@, i as int),
            is_heap(old(array)@, n as int) ==> array@ == old(array)@,
        decreases n - i,
    {
        proof {
            if is_heap(old(array)@, n as int) && i > 0 {
                assert(height_key(array@[parent(i as int)]) >= height_key(array@[i as int]));
            }
        }
        check_position_up(array, i);
        i += 1;
    }
}

/// Reverses the vector in place.
fn reverse(array: &mut Vec<Pokemon>)
    ensures
        final(array)@.len() == old(array)@.len(),
        final(array)@.to_multiset() == old(array)@.to_multiset(),
        forall|k: int| 0 <= k < old(array)@.len() ==> final(array)@[k] == old(array)@[old(array)@.len() - 1 - k],
{
    let n = array.len();
    let mut i: usize = 0;
    while i < n / 2
        invariant
            i <= n / 2,
            n == array@.len() == old(array)@.len(),
            array@.to_multiset() == old(array)@.to_multiset(),
            forall|k: int| 0 <= k < i ==> array@[k] == old(array)@[n - 1 - k],
            forall|k: int| n - i <= k < n ==> array@[k] == old(array)@[n - 1 - k],
            forall|k: int| i <= k < n - i ==> array@[k] == old(array)@[k],
        decreases n / 2 - i,
    {
        proof {
            lemma_swap_range(array@, i as int, n - 1 - i, 0, n as int);
        }
        swap_at(array, i, n - 1 - i);
        i += 1;
    }
}

/// Sorts the vector in place so that heights never increase from one
/// position to the next; the records themselves are only reordered.
pub fn sort(array: &mut Vec<Pokemon>)
    ensures
        final(array)@.len() == old(array)@.len(),
        final(array)@.to_multiset() == old(array)@.to_multiset(),
        non_increasing_height(final(array)@),
        old(array)@.len() <= 1 ==> final(array)@ == old(array)@,
{
    heapify(array);
    let n = array.len();
    let mut last = n;
    while last > 1
        invariant
            1 <= last <= n == array@.len() || (last == n == 0 && array@.len() == 0),
            array@.to_multiset() == old(array)@.to_multiset(),
            is_heap(array@, last as int),
            forall|a: int, b: int|
                last <= a < b < n ==> height_key(#[trigger] array@[a]) <= height_key(#[trigger] array@[b]),
            forall|a: int, b: int|
                0 <= a < last <= b < n ==> height_key(#[trigger] array@[a]) <= height_key(#[trigger] array@[b]),
        decreases last,
    {
        last -= 1;
        proof {
            lemma_swap_range(array@, 0, last as int, 0, array@.len() as int);
            assert forall|k: int| 0 <= k <= last implies height_key(array@[0]) >= height_key(#[trigger] array@[k]) by {
                lemma_root_is_max(array@, last + 1, k);
            }
        }
        let ghost before = array@;
        swap_at(array, 0, last);
        proof {
            assert forall|k: int|
                1 <= k < last && parent(k) != 0 implies height_key(#[trigger] array@[parent(k)])
                    >= height_key(array@[k]) by {
                assert(height_key(before[parent(k)]) >= height_key(before[k]));
            }
        }
        let ghost mid = array@;
        check_position_down(array, 0, last);
        proof {
            broadcast use group_to_multiset_ensures;

            assert forall|a: int, b: int|
                last <= a < b < n implies height_key(#[trigger] array@[a]) <= height_key(#[trigger] array@[b]) by {
                if a == last {
                    assert(height_key(before[0]) >= height_key(before[last as int]));
                    assert(before[0] == array@[a]);
                    assert(height_key(before[last as int]) <= height_key(before[b]));
                }
            }
            assert forall|a: int, b: int|
                0 <= a < last <= b < n implies height_key(#[trigger] array@[a]) <= height_key(#[trigger] array@[b]) by {
                let x = array@[a];
                assert(array@.subrange(0, last as int)[a] == x);
                assert(array@.subrange(0, last as int).contains(x));
                assert(array@.subrange(0, last as int).to_multiset().count(x) > 0);
                assert(mid.subrange(0, last as int).to_multiset().count(x) > 0);
                assert(mid.subrange(0, last as int).contains(x));
                let m = choose|m: int| 0 <= m < last && mid.subrange(0, last as int)[m] == x;
                assert(mid[m] == x);
                if m == 0 {
                    assert(mid[0] == before[last as int]);
                    if b > last {
                        assert(height_key(before[last as int]) <= height_key(before[b]));
                    }
                } else {
                    assert(mid[m] == before[m]);
                    assert(height_key(before[0]) >= height_key(before[m]));
                    if b > last {
                        assert(height_key(before[m]) <= height_key(before[b]));
                    }
                }
            }
        }
    }
    let ghost ascending = array@;
    reverse(array);
    proof {
        assert forall|a: int, b: int| 0 <= a < b < n implies height_key(#[trigger] array@[a]) >= height_key(
            #[trigger] array@[b],
        ) by {
            assert(array@[a] == ascending[n - 1 - a]);
            assert(array@[b] == ascending[n - 1 - b]);
        }
        if old(array)@.len() <= 1 {
            crate::permute::lemma_short_permutation(old(array)@, array@);
        }
    }
}

} // verus!
