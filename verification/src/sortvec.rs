use vstd::prelude::*;
use vstd::seq_lib::lemma_sorted_unique;
use vstd::relations::{sorted_by, total_ordering};
use vstd::multiset::Multiset;

verus! {

/// Best payout first.
pub open spec fn descending_order() -> spec_fn(u32, u32) -> bool {
    |a: u32, b: u32| a >= b
}

/// Worst payout first.
pub open spec fn ascending_order() -> spec_fn(u32, u32) -> bool {
    |a: u32, b: u32| a <= b
}

proof fn lemma_desc_total()
    ensures
        total_ordering(descending_order()),
{
}

proof fn lemma_asc_total()
    ensures
        total_ordering(ascending_order()),
{
}

/// The index of a greatest element of a non-empty vector.
fn index_of_max(v: &Vec<u32>) -> (r: usize)
    requires
        v@.len() > 0,
    ensures
        r < v@.len(),
        forall|m: int| 0 <= m < v@.len() ==> v@[r as int] >= v@[m],
{
    let mut best: usize = 0;
    let mut m: usize = 1;
    while m < v.len()
        invariant
            best < m <= v@.len() || (best == 0 && m <= v@.len()),
            best < v@.len(),
            forall|k: int| 0 <= k < m ==> v@[best as int] >= v@[k],
        decreases v@.len() - m,
    {
        if v[m] > v[best] {
            best = m;
        }
        m = m + 1;
    }
    best
}

/// The index of a least element of a non-empty vector.
fn index_of_min(v: &Vec<u32>) -> (r: usize)
    requires
        v@.len() > 0,
    ensures
        r < v@.len(),
        forall|m: int| 0 <= m < v@.len() ==> v@[r as int] <= v@[m],
{
    let mut best: usize = 0;
    let mut m: usize = 1;
    while m < v.len()
        invariant
            best < v@.len(),
            m <= v@.len(),
            forall|k: int| 0 <= k < m ==> v@[best as int] <= v@[k],
        decreases v@.len() - m,
    {
        if v[m] < v[best] {
            best = m;
        }
        m = m + 1;
    }
    best
}

/// The payout ladder as the exact engine wants it: best prize first.
pub fn sort_descending(v: &Vec<u32>) -> (r: Vec<u32>)
    ensures
        r@ == v@.sort_by(descending_order()),
        r@.len() == v@.len(),
{
    broadcast use vstd::seq_lib::group_to_multiset_ensures;

    let leq = Ghost(descending_order());
    let mut work: Vec<u32> = Vec::new();
    let mut c: usize = 0;
    while c < v.len()
        invariant
            c <= v@.len(),
            work@ == v@.take(c as int),
        decreases v@.len() - c,
    {
        proof {
            assert(v@.take(c as int).push(v@[c as int]) =~= v@.take(c as int + 1));
        }
        work.push(v[c]);
        c = c + 1;
    }
    proof {
        assert(v@.take(v@.len() as int) =~= v@);
    }
    let mut out: Vec<u32> = Vec::new();
    while work.len() > 0
        invariant
            out@.len() + work@.len() == v@.len(),
            out@.to_multiset().add(work@.to_multiset()) =~= v@.to_multiset(),
            sorted_by(out@, leq@),
            leq@ == descending_order(),
            forall|k: int, m: int|
                0 <= k < out@.len() && 0 <= m < work@.len() ==> out@[k] >= work@[m],
        decreases work@.len(),
    {
        let ghost prev = work@;
        let ghost oprev = out@;
        let best = index_of_max(&work);
        let x = work.remove(best);
        out.push(x);
        proof {
            broadcast use vstd::multiset::group_multiset_axioms;

            assert(prev.contains(prev[best as int]));
            assert(work@ == prev.remove(best as int));
            assert(out@ == oprev.push(x));
            vstd::seq_lib::to_multiset_remove(prev, best as int);
            vstd::seq_lib::to_multiset_build(oprev, x);
            vstd::seq_lib::to_multiset_contains(prev, prev[best as int]);
            assert(prev.to_multiset().count(prev[best as int]) >= 1);
            assert(out@.to_multiset().add(work@.to_multiset()) =~= oprev.to_multiset().add(
                prev.to_multiset(),
            ));
            assert(out@.to_multiset().add(work@.to_multiset()) =~= v@.to_multiset());
            assert forall|k: int, m: int|
                0 <= k < out@.len() && 0 <= m < work@.len() implies out@[k] >= work@[m] by {
                assert(work@[m] == prev.remove(best as int)[m]);
            }
        }
    }
    proof {
        lemma_desc_total();
        assert(work@.to_multiset() =~= Multiset::empty());
        assert(out@.to_multiset() =~= v@.to_multiset());
        v@.lemma_sort_by_ensures(leq@);
        lemma_sorted_unique(out@, v@.sort_by(leq@), leq@);
        assert(out@ == v@.sort_by(descending_order()));
    }
    out
}

/// The payout ladder as the randomized engine wants it: worst prize first.
pub fn sort_ascending(v: &Vec<u32>) -> (r: Vec<u32>)
    ensures
        r@ == v@.sort_by(ascending_order()),
        r@.len() == v@.len(),
{
    broadcast use vstd::seq_lib::group_to_multiset_ensures;

    let leq = Ghost(ascending_order());
    let mut work: Vec<u32> = Vec::new();
    let mut c: usize = 0;
    while c < v.len()
        invariant
            c <= v@.len(),
            work@ == v@.take(c as int),
        decreases v@.len() - c,
    {
        proof {
            assert(v@.take(c as int).push(v@[c as int]) =~= v@.take(c as int + 1));
        }
        work.push(v[c]);
        c = c + 1;
    }
    proof {
        assert(v@.take(v@.len() as int) =~= v@);
    }
    let mut out: Vec<u32> = Vec::new();
    while work.len() > 0
        invariant
            out@.len() + work@.len() == v@.len(),
            out@.to_multiset().add(work@.to_multiset()) =~= v@.to_multiset(),
            sorted_by(out@, leq@),
            leq@ == ascending_order(),
            forall|k: int, m: int|
                0 <= k < out@.len() && 0 <= m < work@.len() ==> out@[k] <= work@[m],
        decreases work@.len(),
    {
        let ghost prev = work@;
        let ghost oprev = out@;
        let best = index_of_min(&work);
        let x = work.remove(best);
        out.push(x);
        proof {
            broadcast use vstd::multiset::group_multiset_axioms;

            assert(prev.contains(prev[best as int]));
            assert(work@ == prev.remove(best as int));
            assert(out@ == oprev.push(x));
            vstd::seq_lib::to_multiset_remove(prev, best as int);
            vstd::seq_lib::to_multiset_build(oprev, x);
            vstd::seq_lib::to_multiset_contains(prev, prev[best as int]);
            assert(prev.to_multiset().count(prev[best as int]) >= 1);
            assert(out@.to_multiset().add(work@.to_multiset()) =~= oprev.to_multiset().add(
                prev.to_multiset(),
            ));
            assert(out@.to_multiset().add(work@.to_multiset()) =~= v@.to_multiset());
            assert forall|k: int, m: int|
                0 <= k < out@.len() && 0 <= m < work@.len() implies out@[k] <= work@[m] by {
                assert(work@[m] == prev.remove(best as int)[m]);
            }
        }
    }
    proof {
        lemma_asc_total();
        assert(work@.to_multiset() =~= Multiset::empty());
        assert(out@.to_multiset() =~= v@.to_multiset());
        v@.lemma_sort_by_ensures(leq@);
        lemma_sorted_unique(out@, v@.sort_by(leq@), leq@);
        assert(out@ == v@.sort_by(ascending_order()));
    }
    out
}

} // verus!
