use vstd::prelude::*;
use vstd::arithmetic::mul::{lemma_mul_inequality, lemma_mul_is_distributive_add_other_way};

verus! {

/// The sum of a sequence of integers.
pub open spec fn seq_sum(s: Seq<int>) -> int
    decreases s.len(),
{
    if s.len() == 0 {
        0
    } else {
        s[0] + seq_sum(s.drop_first())
    }
}

/// A sequence of machine integers read as mathematical integers.
pub open spec fn ints_of_u32(s: Seq<u32>) -> Seq<int> {
    s.map_values(|x: u32| x as int)
}

/// A sequence of machine integers read as mathematical integers.
pub open spec fn ints_of_u128(s: Seq<u128>) -> Seq<int> {
    s.map_values(|x: u128| x as int)
}

pub proof fn lemma_seq_sum_push(s: Seq<int>, x: int)
    ensures
        seq_sum(s.push(x)) == seq_sum(s) + x,
    decreases s.len(),
{
    if s.len() == 0 {
        assert(s.push(x).drop_first() =~= Seq::<int>::empty());
        assert(seq_sum(s.push(x)) == s.push(x)[0] + seq_sum(s.push(x).drop_first()));
        assert(s.push(x)[0] == x);
    } else {
        assert(s.push(x).drop_first() =~= s.drop_first().push(x));
        lemma_seq_sum_push(s.drop_first(), x);
        assert(seq_sum(s.push(x)) == s.push(x)[0] + seq_sum(s.push(x).drop_first()));
        assert(s.push(x)[0] == s[0]);
    }
}

/// One more element of a prefix adds that element to the prefix sum.
pub proof fn lemma_seq_sum_take_step(s: Seq<int>, k: int)
    requires
        0 <= k < s.len(),
    ensures
        seq_sum(s.take(k + 1)) == seq_sum(s.take(k)) + s[k],
{
    assert(s.take(k + 1) =~= s.take(k).push(s[k]));
    lemma_seq_sum_push(s.take(k), s[k]);
}

/// The whole sequence is its own longest prefix.
pub proof fn lemma_seq_sum_take_all(s: Seq<int>)
    ensures
        seq_sum(s.take(s.len() as int)) == seq_sum(s),
{
    assert(s.take(s.len() as int) =~= s);
}

/// Replacing one element moves the sum by the difference.
pub proof fn lemma_seq_sum_update(s: Seq<int>, i: int, v: int)
    requires
        0 <= i < s.len(),
    ensures
        seq_sum(s.update(i, v)) == seq_sum(s) - s[i] + v,
    decreases s.len(),
{
    if i == 0 {
        assert(s.update(0, v).drop_first() =~= s.drop_first());
    } else {
        assert(s.update(i, v).drop_first() =~= s.drop_first().update(i - 1, v));
        lemma_seq_sum_update(s.drop_first(), i - 1, v);
    }
}

pub proof fn lemma_seq_sum_nonneg(s: Seq<int>)
    requires
        forall|i: int| 0 <= i < s.len() ==> s[i] >= 0,
    ensures
        seq_sum(s) >= 0,
    decreases s.len(),
{
    if s.len() > 0 {
        lemma_seq_sum_nonneg(s.drop_first());
    }
}

/// A non-empty sequence of positive entries has a positive sum.
pub proof fn lemma_seq_sum_positive(s: Seq<int>)
    requires
        s.len() > 0,
        forall|i: int| 0 <= i < s.len() ==> s[i] > 0,
    ensures
        seq_sum(s) > 0,
{
    lemma_seq_sum_nonneg(s.drop_first());
}

/// A prefix of a non-negative sequence never exceeds the whole sum.
pub proof fn lemma_seq_sum_take_le(s: Seq<int>, k: int)
    requires
        0 <= k <= s.len(),
        forall|i: int| 0 <= i < s.len() ==> s[i] >= 0,
    ensures
        seq_sum(s.take(k)) <= seq_sum(s),
    decreases s.len() - k,
{
    if k < s.len() {
        lemma_seq_sum_take_step(s, k);
        lemma_seq_sum_take_le(s, k + 1);
    } else {
        lemma_seq_sum_take_all(s);
    }
}

/// The chip total of a field of players, exact in a `u128`.
pub fn sum_u32s(v: &Vec<u32>) -> (r: u128)
    ensures
        r == seq_sum(ints_of_u32(v@)),
{
    let n = v.len();
    let mut acc: u128 = 0;
    let mut i: usize = 0;
    while i < n
        invariant
            n == v@.len(),
            0 <= i <= n,
            acc == seq_sum(ints_of_u32(v@).take(i as int)),
            acc <= (i as int) * 0xffff_ffff,
        decreases n - i,
    {
        proof {
            lemma_seq_sum_take_step(ints_of_u32(v@), i as int);
            lemma_mul_is_distributive_add_other_way(0xffff_ffff, i as int, 1);
            lemma_mul_inequality(i as int + 1, 0xffff_ffff_ffff_ffff, 0xffff_ffff);
        }
        acc = acc + (v[i] as u128);
        i = i + 1;
    }
    proof {
        lemma_seq_sum_take_all(ints_of_u32(v@));
    }
    acc
}

} // verus!
