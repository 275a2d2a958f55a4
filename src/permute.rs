use vstd::prelude::*;

verus! {

/// The sequence obtained by exchanging the elements at `i` and `j`.
pub open spec fn swapped<A>(s: Seq<A>, i: int, j: int) -> Seq<A> {
    s.update(i, s[j]).update(j, s[i])
}

/// Relies on `slice::swap`: exchanges the two elements, nothing else changes.
#[verifier::external_body]
pub(crate) fn swap_at<T>(v: &mut Vec<T>, i: usize, j: usize)
    requires
        i < old(v)@.len(),
        j < old(v)@.len(),
    ensures
        final(v)@ == swapped(old(v)@, i as int, j as int),
{
    v.swap(i, j)
}

/// Exchanging two elements keeps the multiset of the sequence.
pub proof fn lemma_swap_multiset<A>(s: Seq<A>, i: int, j: int)
    requires
        0 <= i < s.len(),
        0 <= j < s.len(),
    ensures
        swapped(s, i, j).to_multiset() =~= s.to_multiset(),
{
    broadcast use vstd::multiset::group_multiset_axioms, vstd::seq_lib::group_to_multiset_ensures;

    let t = s.update(i, s[j]);
    vstd::seq_lib::to_multiset_update(s, i, s[j]);
    vstd::seq_lib::to_multiset_update(t, j, s[i]);
    assert(t[j] == s[j]);
    assert(s.contains(s[i]));
    assert(s.to_multiset().count(s[i]) > 0);
}

/// Exchanging two elements inside `[lo, hi)` keeps the multiset of that range
/// and every element outside it.
pub proof fn lemma_swap_range<A>(s: Seq<A>, i: int, j: int, lo: int, hi: int)
    requires
        0 <= lo <= i < hi <= s.len(),
        lo <= j < hi,
    ensures
        swapped(s, i, j).subrange(lo, hi).to_multiset() =~= s.subrange(lo, hi).to_multiset(),
        swapped(s, i, j).to_multiset() =~= s.to_multiset(),
        swapped(s, i, j).len() == s.len(),
        forall|k: int| 0 <= k < s.len() && (k < lo || hi <= k) ==> swapped(s, i, j)[k] == s[k],
{
    let r = s.subrange(lo, hi);
    assert(swapped(s, i, j).subrange(lo, hi) =~= swapped(r, i - lo, j - lo));
    lemma_swap_multiset(r, i - lo, j - lo);
    lemma_swap_multiset(s, i, j);
}

/// A reordering of at most one element is the sequence itself.
pub proof fn lemma_short_permutation<A>(s: Seq<A>, t: Seq<A>)
    requires
        s.len() <= 1,
        t.len() == s.len(),
        t.to_multiset() == s.to_multiset(),
    ensures
        t == s,
{
    broadcast use vstd::seq_lib::group_to_multiset_ensures;

    if s.len() == 1 {
        assert(t.contains(t[0]));
        assert(s.to_multiset().count(t[0]) > 0);
        assert(s.contains(t[0]));
    }
    assert(t =~= s);
}

/// Reorderings keep the multiset of any function of the elements.
pub proof fn lemma_map_multiset<A, B>(s: Seq<A>, t: Seq<A>, f: spec_fn(A) -> B)
    requires
        t.to_multiset() == s.to_multiset(),
    ensures
        t.map_values(f).to_multiset() == s.map_values(f).to_multiset(),
    decreases s.len(),
{
    broadcast use vstd::seq_lib::group_to_multiset_ensures, vstd::multiset::group_multiset_axioms;

    if s.len() == 0 {
        assert(s.to_multiset().len() == s.len());
        assert(t.to_multiset().len() == t.len());
        assert(t.len() == 0);
        assert(t.map_values(f) =~= s.map_values(f));
    } else {
        let x = s.last();
        let rest = s.drop_last();
        assert(s =~= rest.push(x));
        assert(s.to_multiset().count(x) > 0);
        assert(t.contains(x));
        let i = choose|i: int| 0 <= i < t.len() && t[i] == x;
        let u = t.remove(i);
        assert(u.to_multiset() =~= rest.to_multiset());
        lemma_map_multiset(rest, u, f);
        assert(s.map_values(f) =~= rest.map_values(f).push(f(x)));
        assert(t.map_values(f).remove(i) =~= u.map_values(f));
        assert(t.map_values(f)[i] == f(x));
        assert(t.map_values(f).contains(f(x)));
        assert(t.map_values(f).to_multiset().count(f(x)) > 0);
        assert(t.map_values(f).to_multiset() =~= u.map_values(f).to_multiset().insert(f(x)));
    }
}

} // verus!
