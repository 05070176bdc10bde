use vstd::prelude::*;
use vstd::arithmetic::mul::{lemma_mul_strictly_positive, lemma_mul_is_distributive_add_other_way};
use crate::rat::{Rat, rat_eq, rat_add, rat_mul, rat_of_int, rat_zero, lemma_rat_add_cong, lemma_rat_mul_cong, lemma_rat_add_same_den, lemma_rat_eq_trans};
use crate::sums::{seq_sum, lemma_seq_sum_positive, lemma_seq_sum_take_step};
use crate::sampling::column;
use crate::exact::{mh_expected, mh_winner_fold};

verus! {

/// Every entry is a positive chip count.
pub open spec fn all_pos_int(s: Seq<int>) -> bool {
    forall|i: int| 0 <= i < s.len() ==> s[i] > 0
}

/// The probability mass the exact engine walks: summed over every choice of
/// next finisher, the chance of that choice times the mass of the remaining
/// field. This is the total probability over all `n!` finishing orders,
/// folded exactly as [`crate::exact::mh_winner_fold`] folds the payouts.
pub open spec fn finish_prob_total(stacks: Seq<int>) -> Rat
    decreases stacks.len(), stacks.len() + 1,
{
    if stacks.len() <= 1 {
        rat_of_int(1)
    } else {
        prob_fold(stacks, stacks.len() as int)
    }
}

/// The probability mass of the finishing orders whose winner is one of the
/// players `0..j`.
pub open spec fn prob_fold(stacks: Seq<int>, j: int) -> Rat
    decreases stacks.len(), j,
{
    if j <= 0 || j > stacks.len() || stacks.len() < 2 {
        rat_zero()
    } else {
        rat_add(
            prob_fold(stacks, j - 1),
            rat_mul(
                Rat { n: stacks[j - 1], d: seq_sum(stacks) },
                finish_prob_total(stacks.remove(j - 1)),
            ),
        )
    }
}

/// Dropping a player keeps every remaining stack positive.
proof fn lemma_remove_all_pos(s: Seq<int>, w: int)
    requires
        all_pos_int(s),
        0 <= w < s.len(),
    ensures
        all_pos_int(s.remove(w)),
{
    assert forall|k: int| 0 <= k < s.remove(w).len() implies s.remove(w)[k] > 0 by {
        if k < w {
            assert(s.remove(w)[k] == s[k]);
        } else {
            assert(s.remove(w)[k] == s[k + 1]);
        }
    }
}

proof fn lemma_prob_fold_wf(stacks: Seq<int>, j: int)
    requires
        all_pos_int(stacks),
    ensures
        prob_fold(stacks, j).d > 0,
    decreases stacks.len(), j,
{
    if j <= 0 || j > stacks.len() || stacks.len() < 2 {
    } else {
        lemma_prob_fold_wf(stacks, j - 1);
        lemma_seq_sum_positive(stacks);
        lemma_remove_all_pos(stacks, j - 1);
        lemma_finish_prob_total_wf(stacks.remove(j - 1));
        lemma_mul_strictly_positive(seq_sum(stacks), finish_prob_total(stacks.remove(j - 1)).d);
        lemma_mul_strictly_positive(
            prob_fold(stacks, j - 1).d,
            seq_sum(stacks) * finish_prob_total(stacks.remove(j - 1)).d,
        );
    }
}

proof fn lemma_finish_prob_total_wf(stacks: Seq<int>)
    requires
        all_pos_int(stacks),
    ensures
        finish_prob_total(stacks).d > 0,
    decreases stacks.len(), stacks.len() + 1,
{
    if stacks.len() <= 1 {
    } else {
        lemma_prob_fold_wf(stacks, stacks.len() as int);
    }
}

/// The mass of the orders won by players `0..j` is exactly the share of
/// their chips in the total.
proof fn lemma_prob_fold_value(stacks: Seq<int>, j: int)
    requires
        stacks.len() >= 2,
        all_pos_int(stacks),
        0 <= j <= stacks.len(),
    ensures
        rat_eq(prob_fold(stacks, j), Rat { n: seq_sum(stacks.take(j)), d: seq_sum(stacks) }),
    decreases stacks.len(), j,
{
    lemma_seq_sum_positive(stacks);
    let total = seq_sum(stacks);
    if j == 0 {
        assert(stacks.take(0) =~= Seq::<int>::empty());
        assert(0 * total == 0) by (nonlinear_arith);
    } else {
        let w = j - 1;
        lemma_prob_fold_value(stacks, w);
        lemma_remove_all_pos(stacks, w);
        let rest = stacks.remove(w);
        lemma_stochastic_completeness(rest);
        lemma_finish_prob_total_wf(rest);
        lemma_prob_fold_wf(stacks, w);
        let sub = finish_prob_total(rest);
        let p = Rat { n: stacks[w], d: total };
        let term = rat_mul(p, sub);
        assert(sub.n == sub.d);
        assert(term.n * p.d == p.n * term.d) by (nonlinear_arith)
            requires
                term.n == p.n * sub.n,
                term.d == p.d * sub.d,
                sub.n == sub.d,
        ;
        lemma_mul_strictly_positive(p.d, sub.d);
        let before = Rat { n: seq_sum(stacks.take(w)), d: total };
        lemma_rat_add_cong(prob_fold(stacks, w), term, before, p);
        lemma_rat_add_same_den(before.n, p.n, total);
        lemma_seq_sum_take_step(stacks, w);
        lemma_mul_strictly_positive(before.d, p.d);
        lemma_prob_fold_wf(stacks, j);
        lemma_rat_eq_trans(
            prob_fold(stacks, j),
            rat_add(before, p),
            Rat { n: seq_sum(stacks.take(j)), d: total },
        );
    }
}

/// Stochastic completeness of the exact engine: over every possible
/// finishing order of a non-empty field, the probability mass is exactly 1.
pub proof fn lemma_stochastic_completeness(stacks: Seq<int>)
    requires
        stacks.len() >= 1,
        all_pos_int(stacks),
    ensures
        rat_eq(finish_prob_total(stacks), rat_of_int(1)),
    decreases stacks.len(), stacks.len() + 2,
{
    if stacks.len() == 1 {
    } else {
        let n = stacks.len() as int;
        let total = seq_sum(stacks);
        lemma_seq_sum_positive(stacks);
        lemma_prob_fold_value(stacks, n);
        lemma_prob_fold_wf(stacks, n);
        assert(stacks.take(n) =~= stacks);
        assert(rat_eq(Rat { n: total, d: total }, rat_of_int(1))) by (nonlinear_arith)
            requires
                total > 0,
        ;
        lemma_rat_eq_trans(prob_fold(stacks, n), Rat { n: total, d: total }, rat_of_int(1));
    }
}

proof fn lemma_rat_add_comm(a: Rat, b: Rat)
    ensures
        rat_add(a, b) == rat_add(b, a),
{
    assert(a.n * b.d + b.n * a.d == b.n * a.d + a.n * b.d);
    assert(a.d * b.d == b.d * a.d) by (nonlinear_arith);
}

proof fn lemma_rat_add_assoc(a: Rat, b: Rat, c: Rat)
    ensures
        rat_add(rat_add(a, b), c) == rat_add(a, rat_add(b, c)),
{
    assert((a.n * b.d + b.n * a.d) * c.d == a.n * b.d * c.d + b.n * a.d * c.d)
        by (nonlinear_arith);
    assert((b.n * c.d + c.n * b.d) * a.d == b.n * c.d * a.d + c.n * b.d * a.d)
        by (nonlinear_arith);
    assert(a.n * (b.d * c.d) == a.n * b.d * c.d) by (nonlinear_arith);
    assert(c.n * (a.d * b.d) == c.n * a.d * b.d) by (nonlinear_arith);
    assert(b.n * a.d * c.d == b.n * c.d * a.d) by (nonlinear_arith);
    assert(c.n * a.d * b.d == c.n * b.d * a.d) by (nonlinear_arith);
    assert((a.d * b.d) * c.d == a.d * (b.d * c.d)) by (nonlinear_arith);
}

/// Pulling a summand over the head of a sum.
proof fn lemma_rat_add_left_swap(a: Rat, b: Rat, c: Rat)
    ensures
        rat_add(a, rat_add(b, c)) == rat_add(b, rat_add(a, c)),
{
    lemma_rat_add_assoc(a, b, c);
    lemma_rat_add_comm(a, b);
    lemma_rat_add_assoc(b, a, c);
}

/// Regrouping two pointwise sums.
proof fn lemma_rat_add_exchange(x: Rat, y: Rat, u: Rat, v: Rat)
    ensures
        rat_add(rat_add(x, y), rat_add(u, v)) == rat_add(rat_add(x, u), rat_add(y, v)),
{
    lemma_rat_add_assoc(x, y, rat_add(u, v));
    lemma_rat_add_left_swap(y, u, v);
    lemma_rat_add_assoc(x, u, rat_add(y, v));
}

/// Multiplication distributes over addition, up to the value equality.
proof fn lemma_rat_mul_distributes(p: Rat, x: Rat, y: Rat)
    requires
        p.d > 0,
        x.d > 0,
        y.d > 0,
    ensures
        rat_eq(rat_add(rat_mul(p, x), rat_mul(p, y)), rat_mul(p, rat_add(x, y))),
{
    let l = rat_add(rat_mul(p, x), rat_mul(p, y));
    let r = rat_mul(p, rat_add(x, y));
    assert((p.n * x.n) * (p.d * y.d) == p.d * (p.n * (x.n * y.d))) by (nonlinear_arith);
    assert((p.n * y.n) * (p.d * x.d) == p.d * (p.n * (y.n * x.d))) by (nonlinear_arith);
    assert(p.n * (x.n * y.d + y.n * x.d) == p.n * (x.n * y.d) + p.n * (y.n * x.d))
        by (nonlinear_arith);
    assert(p.d * (p.n * (x.n * y.d)) + p.d * (p.n * (y.n * x.d)) == p.d * (p.n * (x.n * y.d)
        + p.n * (y.n * x.d))) by (nonlinear_arith);
    assert(l.n == p.d * r.n);
    assert(l.d == p.d * r.d) by (nonlinear_arith)
        requires
            l.d == (p.d * x.d) * (p.d * y.d),
            r.d == p.d * (x.d * y.d),
    ;
    assert(l.n * r.d == r.n * l.d) by (nonlinear_arith)
        requires
            l.n == p.d * r.n,
            l.d == p.d * r.d,
    ;
}

/// The sum of a vector of rationals.
pub open spec fn rat_vec_sum(s: Seq<Rat>) -> Rat
    decreases s.len(),
{
    if s.len() == 0 {
        rat_zero()
    } else {
        rat_add(s[0], rat_vec_sum(s.drop_first()))
    }
}

proof fn lemma_rat_vec_sum_wf(s: Seq<Rat>)
    requires
        forall|i: int| 0 <= i < s.len() ==> s[i].d > 0,
    ensures
        rat_vec_sum(s).d > 0,
    decreases s.len(),
{
    if s.len() > 0 {
        lemma_rat_vec_sum_wf(s.drop_first());
        lemma_mul_strictly_positive(s[0].d, rat_vec_sum(s.drop_first()).d);
    }
}

/// Fractions over one denominator sum to the sum of the numerators.
proof fn lemma_rat_vec_sum_same_den(nums: Seq<int>, d: int)
    requires
        d > 0,
    ensures
        rat_eq(
            rat_vec_sum(Seq::new(nums.len(), |i: int| Rat { n: nums[i], d: d })),
            Rat { n: seq_sum(nums), d: d },
        ),
    decreases nums.len(),
{
    let v = Seq::new(nums.len(), |i: int| Rat { n: nums[i], d: d });
    if nums.len() == 0 {
        assert(0 * d == 0) by (nonlinear_arith);
    } else {
        let nrest = nums.drop_first();
        assert(v.drop_first() =~= Seq::new(nrest.len(), |i: int| Rat { n: nrest[i], d: d }));
        lemma_rat_vec_sum_same_den(nrest, d);
        assert forall|i: int| 0 <= i < v.drop_first().len() implies (#[trigger] v.drop_first()[i]).d
            > 0 by {}
        lemma_rat_vec_sum_wf(v.drop_first());
        lemma_rat_add_cong(
            v[0],
            rat_vec_sum(v.drop_first()),
            Rat { n: nums[0], d: d },
            Rat { n: seq_sum(nrest), d: d },
        );
        lemma_rat_add_same_den(nums[0], seq_sum(nrest), d);
        lemma_mul_strictly_positive(d, d);
        assert forall|i: int| 0 <= i < v.len() implies (#[trigger] v[i]).d > 0 by {}
        lemma_rat_vec_sum_wf(v);
        lemma_rat_eq_trans(
            rat_vec_sum(v),
            rat_add(Rat { n: nums[0], d: d }, Rat { n: seq_sum(nrest), d: d }),
            Rat { n: seq_sum(nums), d: d },
        );
    }
}

proof fn lemma_seq_sum_zero(n: nat)
    ensures
        seq_sum(Seq::new(n, |i: int| 0int)) == 0,
    decreases n,
{
    if n > 0 {
        assert(Seq::new(n, |i: int| 0int).drop_first() =~= Seq::new((n - 1) as nat, |i: int| 0int));
        lemma_seq_sum_zero((n - 1) as nat);
    }
}

proof fn lemma_seq_sum_pointwise_add(a: Seq<int>, b: Seq<int>)
    requires
        a.len() == b.len(),
    ensures
        seq_sum(Seq::new(a.len(), |i: int| a[i] + b[i])) == seq_sum(a) + seq_sum(b),
    decreases a.len(),
{
    let c = Seq::new(a.len(), |i: int| a[i] + b[i]);
    if a.len() == 0 {
        assert(c =~= Seq::<int>::empty());
    } else {
        let a2 = a.drop_first();
        let b2 = b.drop_first();
        assert(c.drop_first() =~= Seq::new(a2.len(), |i: int| a2[i] + b2[i]));
        lemma_seq_sum_pointwise_add(a2, b2);
    }
}

proof fn lemma_seq_sum_scaled(s: Seq<int>, c: int)
    ensures
        seq_sum(s.map_values(|x: int| x * c)) == seq_sum(s) * c,
    decreases s.len(),
{
    if s.len() == 0 {
        assert(s.map_values(|x: int| x * c) =~= Seq::<int>::empty());
        assert(0 * c == 0) by (nonlinear_arith);
    } else {
        assert(s.map_values(|x: int| x * c).drop_first() =~= s.drop_first().map_values(
            |x: int| x * c,
        ));
        lemma_seq_sum_scaled(s.drop_first(), c);
        lemma_mul_is_distributive_add_other_way(c, s[0], seq_sum(s.drop_first()));
    }
}

/// Summing the merged totals player by player equals summing each worker's
/// own total: the merge loses and invents nothing.
proof fn lemma_column_sums(parts: Seq<Seq<int>>, n: nat)
    requires
        forall|w: int| 0 <= w < parts.len() ==> (#[trigger] parts[w]).len() == n,
    ensures
        seq_sum(Seq::new(n, |i: int| seq_sum(column(parts, i)))) == seq_sum(
            parts.map_values(|p: Seq<int>| seq_sum(p)),
        ),
    decreases parts.len(),
{
    let g = Seq::new(n, |i: int| seq_sum(column(parts, i)));
    if parts.len() == 0 {
        assert forall|i: int| 0 <= i < n implies g[i] == 0 by {
            assert(column(parts, i) =~= Seq::<int>::empty());
        }
        assert(g =~= Seq::new(n, |i: int| 0int));
        lemma_seq_sum_zero(n);
        assert(parts.map_values(|p: Seq<int>| seq_sum(p)) =~= Seq::<int>::empty());
    } else {
        let rest = parts.drop_first();
        let h = Seq::new(n, |i: int| seq_sum(column(rest, i)));
        assert forall|i: int| 0 <= i < n implies g[i] == parts[0][i] + h[i] by {
            assert(column(parts, i).drop_first() =~= column(rest, i));
            assert(column(parts, i)[0] == parts[0][i]);
        }
        assert(g =~= Seq::new(n, |i: int| parts[0][i] + h[i]));
        lemma_seq_sum_pointwise_add(parts[0], h);
        lemma_column_sums(rest, n);
        assert(parts.map_values(|p: Seq<int>| seq_sum(p)).drop_first() =~= rest.map_values(
            |p: Seq<int>| seq_sum(p),
        ));
    }
}

/// Conservation of the prize pool through the randomized engine's merge:
/// when every worker's totals carry exactly its trial count times the payout
/// pool — which [`crate::sampling::TrialAccumulator::record`] guarantees one
/// trial at a time — the merged expected payouts of all players sum to the
/// pool itself, exactly.
pub proof fn lemma_aggregate_conserves_pool(
    parts: Seq<Seq<int>>,
    trials: Seq<int>,
    pool: int,
    n: nat,
)
    requires
        parts.len() == trials.len(),
        forall|w: int| 0 <= w < parts.len() ==> (#[trigger] parts[w]).len() == n,
        forall|w: int|
            0 <= w < parts.len() ==> seq_sum(#[trigger] parts[w]) == trials[w] * pool,
        seq_sum(trials) > 0,
    ensures
        rat_eq(
            rat_vec_sum(
                Seq::new(
                    n,
                    |i: int| Rat { n: seq_sum(column(parts, i)), d: seq_sum(trials) },
                ),
            ),
            rat_of_int(pool),
        ),
{
    let total = seq_sum(trials);
    lemma_column_sums(parts, n);
    assert(parts.map_values(|p: Seq<int>| seq_sum(p)) =~= trials.map_values(|t: int| t * pool));
    lemma_seq_sum_scaled(trials, pool);
    let nums = Seq::new(n, |i: int| seq_sum(column(parts, i)));
    lemma_rat_vec_sum_same_den(nums, total);
    assert(Seq::new(n, |i: int| Rat { n: seq_sum(column(parts, i)), d: total }) =~= Seq::new(
        nums.len(),
        |i: int| Rat { n: nums[i], d: total },
    ));
    assert(rat_eq(Rat { n: seq_sum(nums), d: total }, rat_of_int(pool))) by (nonlinear_arith)
        requires
            seq_sum(nums) == total * pool,
            total > 0,
    ;
    let rv = Seq::new(nums.len(), |i: int| Rat { n: nums[i], d: total });
    assert forall|i: int| 0 <= i < rv.len() implies (#[trigger] rv[i]).d > 0 by {}
    lemma_rat_vec_sum_wf(rv);
    lemma_rat_eq_trans(
        rat_vec_sum(Seq::new(nums.len(), |i: int| Rat { n: nums[i], d: total })),
        Rat { n: seq_sum(nums), d: total },
        rat_of_int(pool),
    );
}


proof fn lemma_mh_fold_wf(stacks: Seq<int>, payouts: Seq<int>, j: int)
    requires
        all_pos_int(stacks),
    ensures
        mh_winner_fold(stacks, payouts, j).len() == stacks.len(),
        forall|i: int|
            0 <= i < stacks.len() ==> (#[trigger] mh_winner_fold(stacks, payouts, j)[i]).d > 0,
    decreases stacks.len(), j,
{
    if j <= 0 || j > stacks.len() || stacks.len() < 2 {
    } else {
        let w = j - 1;
        lemma_mh_fold_wf(stacks, payouts, j - 1);
        lemma_seq_sum_positive(stacks);
        lemma_remove_all_pos(stacks, w);
        lemma_mh_wf(stacks.remove(w), payouts.drop_first());
        let prev = mh_winner_fold(stacks, payouts, j - 1);
        let p = Rat { n: stacks[w], d: seq_sum(stacks) };
        let sub = mh_expected(stacks.remove(w), payouts.drop_first());
        assert forall|i: int|
            0 <= i < stacks.len() implies (#[trigger] mh_winner_fold(stacks, payouts, j)[i]).d
            > 0 by {
            if i == w {
                lemma_mul_strictly_positive(p.d, 1);
                lemma_mul_strictly_positive(prev[i].d, p.d * 1);
            } else if i < w {
                lemma_mul_strictly_positive(p.d, sub[i].d);
                lemma_mul_strictly_positive(prev[i].d, p.d * sub[i].d);
            } else {
                lemma_mul_strictly_positive(p.d, sub[i - 1].d);
                lemma_mul_strictly_positive(prev[i].d, p.d * sub[i - 1].d);
            }
        }
    }
}

proof fn lemma_mh_wf(stacks: Seq<int>, payouts: Seq<int>)
    requires
        all_pos_int(stacks),
    ensures
        mh_expected(stacks, payouts).len() == stacks.len(),
        forall|i: int|
            0 <= i < stacks.len() ==> (#[trigger] mh_expected(stacks, payouts)[i]).d > 0,
    decreases stacks.len(), stacks.len() + 1,
{
    if stacks.len() < 2 {
    } else {
        lemma_mh_fold_wf(stacks, payouts, stacks.len() as int);
    }
}

/// The sum of a pointwise sum of two vectors is the sum of their sums.
proof fn lemma_rat_vec_sum_pointwise(a: Seq<Rat>, b: Seq<Rat>)
    requires
        a.len() == b.len(),
        forall|i: int| 0 <= i < a.len() ==> (#[trigger] a[i]).d > 0,
        forall|i: int| 0 <= i < b.len() ==> (#[trigger] b[i]).d > 0,
    ensures
        rat_eq(
            rat_vec_sum(Seq::new(a.len(), |i: int| rat_add(a[i], b[i]))),
            rat_add(rat_vec_sum(a), rat_vec_sum(b)),
        ),
    decreases a.len(),
{
    let c = Seq::new(a.len(), |i: int| rat_add(a[i], b[i]));
    if a.len() == 0 {
        assert(c =~= Seq::<Rat>::empty());
        assert(rat_vec_sum(c) == rat_zero());
        let z = rat_add(rat_zero(), rat_zero());
        assert(z.n == 0 * 1 + 0 * 1);
        assert(z.n == 0);
        assert(z.d == 1 * 1);
        assert(rat_eq(rat_vec_sum(c), z));
    } else {
        let a2 = a.drop_first();
        let b2 = b.drop_first();
        assert(c.drop_first() =~= Seq::new(a2.len(), |i: int| rat_add(a2[i], b2[i])));
        lemma_rat_vec_sum_pointwise(a2, b2);
        lemma_rat_vec_sum_wf(a2);
        lemma_rat_vec_sum_wf(b2);
        assert forall|i: int|
            0 <= i < c.drop_first().len() implies (#[trigger] c.drop_first()[i]).d > 0 by {
            lemma_mul_strictly_positive(a2[i].d, b2[i].d);
        }
        lemma_rat_vec_sum_wf(c.drop_first());
        lemma_mul_strictly_positive(a[0].d, b[0].d);
        lemma_mul_strictly_positive(rat_vec_sum(a2).d, rat_vec_sum(b2).d);
        assert(c[0] == rat_add(a[0], b[0]));
        assert(rat_vec_sum(c) == rat_add(c[0], rat_vec_sum(c.drop_first())));
        lemma_rat_add_cong(
            c[0],
            rat_vec_sum(c.drop_first()),
            c[0],
            rat_add(rat_vec_sum(a2), rat_vec_sum(b2)),
        );
        lemma_rat_add_exchange(a[0], b[0], rat_vec_sum(a2), rat_vec_sum(b2));
        assert(rat_add(rat_vec_sum(a), rat_vec_sum(b)) == rat_add(
            rat_add(a[0], rat_vec_sum(a2)),
            rat_add(b[0], rat_vec_sum(b2)),
        ));
    }
}

/// A common multiplier comes out of a vector sum.
proof fn lemma_rat_vec_sum_scale(p: Rat, x: Seq<Rat>)
    requires
        p.d > 0,
        forall|i: int| 0 <= i < x.len() ==> (#[trigger] x[i]).d > 0,
    ensures
        rat_eq(
            rat_vec_sum(Seq::new(x.len(), |i: int| rat_mul(p, x[i]))),
            rat_mul(p, rat_vec_sum(x)),
        ),
    decreases x.len(),
{
    let c = Seq::new(x.len(), |i: int| rat_mul(p, x[i]));
    if x.len() == 0 {
        assert(c =~= Seq::<Rat>::empty());
        assert(p.n * 0 == 0) by (nonlinear_arith);
        assert(0 * (p.d * 1) == 0) by (nonlinear_arith);
    } else {
        let x2 = x.drop_first();
        assert(c.drop_first() =~= Seq::new(x2.len(), |i: int| rat_mul(p, x2[i])));
        lemma_rat_vec_sum_scale(p, x2);
        lemma_rat_vec_sum_wf(x2);
        assert forall|i: int|
            0 <= i < c.drop_first().len() implies (#[trigger] c.drop_first()[i]).d > 0 by {
            lemma_mul_strictly_positive(p.d, x2[i].d);
        }
        lemma_rat_vec_sum_wf(c.drop_first());
        lemma_mul_strictly_positive(p.d, x[0].d);
        lemma_mul_strictly_positive(p.d, rat_vec_sum(x2).d);
        lemma_rat_add_cong(
            c[0],
            rat_vec_sum(c.drop_first()),
            c[0],
            rat_mul(p, rat_vec_sum(x2)),
        );
        lemma_rat_mul_distributes(p, x[0], rat_vec_sum(x2));
        lemma_rat_vec_sum_wf(x);
        assert forall|i: int| 0 <= i < c.len() implies (#[trigger] c[i]).d > 0 by {
            lemma_mul_strictly_positive(p.d, x[i].d);
        }
        lemma_rat_vec_sum_wf(c);
        lemma_mul_strictly_positive(p.d * x[0].d, p.d * rat_vec_sum(x2).d);
        lemma_mul_strictly_positive(p.d, rat_vec_sum(x).d);
        lemma_rat_eq_trans(
            rat_vec_sum(c),
            rat_add(rat_mul(p, x[0]), rat_mul(p, rat_vec_sum(x2))),
            rat_mul(p, rat_vec_sum(x)),
        );
    }
}

/// Inserting an element adds it to the vector sum.
proof fn lemma_rat_vec_sum_insert(s: Seq<Rat>, k: int, x: Rat)
    requires
        0 <= k <= s.len(),
        x.d > 0,
        forall|i: int| 0 <= i < s.len() ==> (#[trigger] s[i]).d > 0,
    ensures
        rat_eq(rat_vec_sum(s.insert(k, x)), rat_add(x, rat_vec_sum(s))),
    decreases k,
{
    let t = s.insert(k, x);
    if k == 0 {
        assert(t[0] == x);
        assert(t.drop_first() =~= s);
    } else {
        let s2 = s.drop_first();
        assert(t[0] == s[0]);
        assert(t.drop_first() =~= s2.insert(k - 1, x));
        lemma_rat_vec_sum_insert(s2, k - 1, x);
        lemma_rat_vec_sum_wf(s2);
        assert forall|i: int|
            0 <= i < t.drop_first().len() implies (#[trigger] t.drop_first()[i]).d > 0 by {
            if i < k - 1 {
                assert(t.drop_first()[i] == s2[i]);
            } else if i == k - 1 {
                assert(t.drop_first()[i] == x);
            } else {
                assert(t.drop_first()[i] == s2[i - 1]);
            }
        }
        lemma_rat_vec_sum_wf(t.drop_first());
        lemma_mul_strictly_positive(x.d, rat_vec_sum(s2).d);
        lemma_rat_add_cong(
            t[0],
            rat_vec_sum(t.drop_first()),
            s[0],
            rat_add(x, rat_vec_sum(s2)),
        );
        lemma_rat_add_left_swap(s[0], x, rat_vec_sum(s2));
    }
}

proof fn lemma_rat_vec_sum_zeros(n: nat)
    ensures
        rat_vec_sum(Seq::new(n, |i: int| rat_zero())).d > 0,
        rat_vec_sum(Seq::new(n, |i: int| rat_zero())).n == 0,
    decreases n,
{
    let c = Seq::new(n, |i: int| rat_zero());
    if n > 0 {
        assert(c.drop_first() =~= Seq::new((n - 1) as nat, |i: int| rat_zero()));
        lemma_rat_vec_sum_zeros((n - 1) as nat);
        let rest = rat_vec_sum(c.drop_first());
        assert(0 * rest.d + rest.n * 1 == rest.n);
        lemma_mul_strictly_positive(1, rest.d);
    }
}

/// What each player expects from the finishing orders won by players `0..j`
/// adds up, over the whole field, to those players' chip share of the pool.
proof fn lemma_mh_fold_sum(stacks: Seq<int>, payouts: Seq<int>, j: int)
    requires
        stacks.len() >= 2,
        all_pos_int(stacks),
        payouts.len() == stacks.len(),
        0 <= j <= stacks.len(),
    ensures
        rat_eq(
            rat_vec_sum(mh_winner_fold(stacks, payouts, j)),
            Rat { n: seq_sum(stacks.take(j)) * seq_sum(payouts), d: seq_sum(stacks) },
        ),
    decreases stacks.len(), j,
{
    let n = stacks.len();
    let total = seq_sum(stacks);
    let pool = seq_sum(payouts);
    lemma_seq_sum_positive(stacks);
    if j == 0 {
        assert(mh_winner_fold(stacks, payouts, 0) == Seq::new(n, |i: int| rat_zero()));
        lemma_rat_vec_sum_zeros(n);
        assert(stacks.take(0) =~= Seq::<int>::empty());
        assert(0 * pool == 0) by (nonlinear_arith);
        assert(0 * total == 0) by (nonlinear_arith);
        let z = rat_vec_sum(Seq::new(n, |i: int| rat_zero()));
        assert(z.n * total == 0) by (nonlinear_arith)
            requires
                z.n == 0,
        ;
        assert(0 * z.d == 0) by (nonlinear_arith);
    } else {
        let w = j - 1;
        lemma_mh_fold_sum(stacks, payouts, w);
        let prev = mh_winner_fold(stacks, payouts, w);
        lemma_mh_fold_wf(stacks, payouts, w);
        let rest = stacks.remove(w);
        let tail = payouts.drop_first();
        lemma_remove_all_pos(stacks, w);
        lemma_exact_conservation(rest, tail);
        lemma_mh_wf(rest, tail);
        let sub = mh_expected(rest, tail);
        let p = Rat { n: stacks[w], d: total };
        let head = rat_of_int(payouts[0]);
        let xs = sub.insert(w, head);
        assert(xs.len() == n);
        let scaled = Seq::new(n, |i: int| rat_mul(p, xs[i]));
        assert forall|i: int| 0 <= i < n implies (#[trigger] xs[i]).d > 0 by {
            if i < w {
                assert(xs[i] == sub[i]);
            } else if i == w {
                assert(xs[i] == head);
            } else {
                assert(xs[i] == sub[i - 1]);
            }
        }
        assert forall|i: int| 0 <= i < scaled.len() implies (#[trigger] scaled[i]).d > 0 by {
            lemma_mul_strictly_positive(p.d, xs[i].d);
        }
        assert(mh_winner_fold(stacks, payouts, j) =~= Seq::new(
            n,
            |i: int| rat_add(prev[i], scaled[i]),
        ));
        lemma_rat_vec_sum_pointwise(prev, scaled);
        assert(Seq::new(prev.len(), |i: int| rat_add(prev[i], scaled[i])) =~= Seq::new(
            n,
            |i: int| rat_add(prev[i], scaled[i]),
        ));
        lemma_rat_vec_sum_scale(p, xs);
        assert(Seq::new(xs.len(), |i: int| rat_mul(p, xs[i])) =~= scaled);
        lemma_rat_vec_sum_insert(sub, w, head);
        lemma_rat_vec_sum_wf(sub);
        // the field below the winner plays for the tail of the pool
        lemma_rat_add_cong(
            head,
            rat_vec_sum(sub),
            head,
            rat_of_int(seq_sum(tail)),
        );
        assert(rat_add(head, rat_of_int(seq_sum(tail))) == rat_of_int(pool));
        lemma_rat_vec_sum_wf(xs);
        lemma_rat_eq_trans(
            rat_vec_sum(xs),
            rat_add(head, rat_vec_sum(sub)),
            rat_of_int(pool),
        );
        // scale by the winner's probability
        lemma_rat_mul_cong(p, rat_vec_sum(xs), p, rat_of_int(pool));
        lemma_rat_vec_sum_wf(scaled);
        lemma_mul_strictly_positive(p.d, rat_vec_sum(xs).d);
        assert(rat_mul(p, rat_of_int(pool)) == (Rat { n: stacks[w] * pool, d: total * 1 }));
        assert(total * 1 == total) by (nonlinear_arith);
        lemma_rat_eq_trans(
            rat_vec_sum(scaled),
            rat_mul(p, rat_vec_sum(xs)),
            Rat { n: stacks[w] * pool, d: total },
        );
        // combine with the previous winners
        lemma_rat_vec_sum_wf(prev);
        lemma_rat_add_cong(
            rat_vec_sum(prev),
            rat_vec_sum(scaled),
            Rat { n: seq_sum(stacks.take(w)) * pool, d: total },
            Rat { n: stacks[w] * pool, d: total },
        );
        lemma_rat_add_same_den(seq_sum(stacks.take(w)) * pool, stacks[w] * pool, total);
        lemma_seq_sum_take_step(stacks, w);
        lemma_mul_is_distributive_add_other_way(pool, seq_sum(stacks.take(w)), stacks[w]);
        lemma_mul_strictly_positive(total, total);
        lemma_mh_fold_wf(stacks, payouts, j);
        lemma_rat_vec_sum_wf(mh_winner_fold(stacks, payouts, j));
        lemma_mul_strictly_positive(rat_vec_sum(prev).d, rat_vec_sum(scaled).d);
        lemma_rat_eq_trans(
            rat_vec_sum(mh_winner_fold(stacks, payouts, j)),
            rat_add(rat_vec_sum(prev), rat_vec_sum(scaled)),
            rat_add(
                Rat { n: seq_sum(stacks.take(w)) * pool, d: total },
                Rat { n: stacks[w] * pool, d: total },
            ),
        );
        lemma_rat_eq_trans(
            rat_vec_sum(mh_winner_fold(stacks, payouts, j)),
            rat_add(
                Rat { n: seq_sum(stacks.take(w)) * pool, d: total },
                Rat { n: stacks[w] * pool, d: total },
            ),
            Rat { n: seq_sum(stacks.take(j)) * pool, d: total },
        );
    }
}

/// Conservation of the prize pool through the exact engine: the expected
/// payouts of all players sum to exactly the sum of the payout ladder.
pub proof fn lemma_exact_conservation(stacks: Seq<int>, payouts: Seq<int>)
    requires
        stacks.len() >= 1,
        all_pos_int(stacks),
        payouts.len() == stacks.len(),
    ensures
        rat_eq(rat_vec_sum(mh_expected(stacks, payouts)), rat_of_int(seq_sum(payouts))),
    decreases stacks.len(), stacks.len() + 2,
{
    if stacks.len() == 1 {
        assert(mh_expected(stacks, payouts) == seq![rat_of_int(payouts[0])]);
        assert(seq![rat_of_int(payouts[0])].drop_first() =~= Seq::<Rat>::empty());
        assert(rat_vec_sum(Seq::<Rat>::empty()) == rat_zero());
        assert(rat_vec_sum(seq![rat_of_int(payouts[0])]) == rat_add(
            rat_of_int(payouts[0]),
            rat_zero(),
        ));
        assert(payouts.drop_first().len() == 0);
        assert(seq_sum(payouts.drop_first()) == 0);
        assert(seq_sum(payouts) == payouts[0]);
        assert(rat_eq(rat_add(rat_of_int(payouts[0]), rat_zero()), rat_of_int(payouts[0])))
            by (nonlinear_arith);
    } else {
        let n = stacks.len() as int;
        let total = seq_sum(stacks);
        let pool = seq_sum(payouts);
        lemma_seq_sum_positive(stacks);
        lemma_mh_fold_sum(stacks, payouts, n);
        assert(stacks.take(n) =~= stacks);
        lemma_mh_fold_wf(stacks, payouts, n);
        lemma_rat_vec_sum_wf(mh_winner_fold(stacks, payouts, n));
        assert((total * pool) * 1 == pool * total) by (nonlinear_arith);
        lemma_rat_eq_trans(
            rat_vec_sum(mh_winner_fold(stacks, payouts, n)),
            Rat { n: total * pool, d: total },
            rat_of_int(pool),
        );
    }
}



/// With equal stacks in adjacent seats, dropping either player leaves the
/// same field.
proof fn lemma_remove_adjacent_equal(s: Seq<int>, a: int)
    requires
        0 <= a,
        a + 1 < s.len(),
        s[a] == s[a + 1],
    ensures
        s.remove(a) == s.remove(a + 1),
{
    assert(s.remove(a) =~= s.remove(a + 1));
}

/// Symmetry while neither of the two equal players has been taken as the
/// winner yet: their partial expectations agree.
proof fn lemma_mh_fold_adjacent_low(stacks: Seq<int>, payouts: Seq<int>, a: int, j: int)
    requires
        stacks.len() >= 2,
        all_pos_int(stacks),
        payouts.len() == stacks.len(),
        0 <= a,
        a + 1 < stacks.len(),
        stacks[a] == stacks[a + 1],
        0 <= j <= a,
    ensures
        rat_eq(
            mh_winner_fold(stacks, payouts, j)[a],
            mh_winner_fold(stacks, payouts, j)[a + 1],
        ),
    decreases stacks.len(), j,
{
    if j == 0 {
    } else {
        let w = j - 1;
        lemma_mh_fold_adjacent_low(stacks, payouts, a, j - 1);
        let rest = stacks.remove(w);
        let tail = payouts.drop_first();
        lemma_remove_all_pos(stacks, w);
        assert(rest[a - 1] == stacks[a]);
        assert(rest[a] == stacks[a + 1]);
        lemma_adjacent_symmetry(rest, tail, a - 1);
        let prev = mh_winner_fold(stacks, payouts, j - 1);
        let p = Rat { n: stacks[w], d: seq_sum(stacks) };
        let sub = mh_expected(rest, tail);
        assert(mh_winner_fold(stacks, payouts, j)[a] == rat_add(
            prev[a],
            rat_mul(p, sub[a - 1]),
        ));
        assert(mh_winner_fold(stacks, payouts, j)[a + 1] == rat_add(
            prev[a + 1],
            rat_mul(p, sub[a]),
        ));
        lemma_seq_sum_positive(stacks);
        lemma_mh_fold_wf(stacks, payouts, j - 1);
        lemma_mh_wf(rest, tail);
        lemma_rat_mul_cong(p, sub[a - 1], p, sub[a]);
        lemma_mul_strictly_positive(p.d, sub[a - 1].d);
        lemma_mul_strictly_positive(p.d, sub[a].d);
        lemma_rat_add_cong(prev[a], rat_mul(p, sub[a - 1]), prev[a + 1], rat_mul(p, sub[a]));
    }
}

/// Symmetry once both equal players have had their turn as the winner: the
/// two seats have collected the same pair of contributions, in either order.
proof fn lemma_mh_fold_adjacent_high(stacks: Seq<int>, payouts: Seq<int>, a: int, j: int)
    requires
        stacks.len() >= 2,
        all_pos_int(stacks),
        payouts.len() == stacks.len(),
        0 <= a,
        a + 1 < stacks.len(),
        stacks[a] == stacks[a + 1],
        a + 2 <= j <= stacks.len(),
    ensures
        rat_eq(
            mh_winner_fold(stacks, payouts, j)[a],
            mh_winner_fold(stacks, payouts, j)[a + 1],
        ),
    decreases stacks.len(), j,
{
    let total = seq_sum(stacks);
    lemma_seq_sum_positive(stacks);
    let tail = payouts.drop_first();
    if j == a + 2 {
        lemma_mh_fold_adjacent_low(stacks, payouts, a, a);
        let f0 = mh_winner_fold(stacks, payouts, a);
        let f1 = mh_winner_fold(stacks, payouts, a + 1);
        let f2 = mh_winner_fold(stacks, payouts, a + 2);
        let p = Rat { n: stacks[a], d: total };
        let rest = stacks.remove(a);
        lemma_remove_adjacent_equal(stacks, a);
        let sub = mh_expected(rest, tail);
        let x = rat_mul(p, rat_of_int(payouts[0]));
        let y = rat_mul(p, sub[a]);
        assert(f1[a] == rat_add(f0[a], x));
        assert(f1[a + 1] == rat_add(f0[a + 1], y));
        assert((Rat { n: stacks[a + 1], d: total }) == p);
        assert(f2[a] == rat_add(f1[a], y));
        assert(f2[a + 1] == rat_add(f1[a + 1], x));
        lemma_rat_add_assoc(f0[a], x, y);
        lemma_rat_add_comm(x, y);
        lemma_rat_add_assoc(f0[a], y, x);
        assert(f2[a] == rat_add(rat_add(f0[a], y), x));
        lemma_remove_all_pos(stacks, a);
        lemma_mh_wf(rest, tail);
        lemma_mh_fold_wf(stacks, payouts, a);
        lemma_mul_strictly_positive(p.d, 1);
        lemma_mul_strictly_positive(p.d, sub[a].d);
        lemma_rat_add_cong(f0[a], y, f0[a + 1], y);
        lemma_mul_strictly_positive(f0[a].d, y.d);
        lemma_mul_strictly_positive(f0[a + 1].d, y.d);
        lemma_rat_add_cong(rat_add(f0[a], y), x, rat_add(f0[a + 1], y), x);
    } else {
        let w = j - 1;
        lemma_mh_fold_adjacent_high(stacks, payouts, a, j - 1);
        let rest = stacks.remove(w);
        lemma_remove_all_pos(stacks, w);
        assert(rest[a] == stacks[a]);
        assert(rest[a + 1] == stacks[a + 1]);
        lemma_adjacent_symmetry(rest, tail, a);
        let prev = mh_winner_fold(stacks, payouts, j - 1);
        let p = Rat { n: stacks[w], d: total };
        let sub = mh_expected(rest, tail);
        assert(mh_winner_fold(stacks, payouts, j)[a] == rat_add(prev[a], rat_mul(p, sub[a])));
        assert(mh_winner_fold(stacks, payouts, j)[a + 1] == rat_add(
            prev[a + 1],
            rat_mul(p, sub[a + 1]),
        ));
        lemma_mh_fold_wf(stacks, payouts, j - 1);
        lemma_mh_wf(rest, tail);
        lemma_rat_mul_cong(p, sub[a], p, sub[a + 1]);
        lemma_mul_strictly_positive(p.d, sub[a].d);
        lemma_mul_strictly_positive(p.d, sub[a + 1].d);
        lemma_rat_add_cong(prev[a], rat_mul(p, sub[a]), prev[a + 1], rat_mul(p, sub[a + 1]));
    }
}

/// Symmetry of the exact engine for equal stacks in adjacent seats: the two
/// players expect exactly the same payout. (Equal players further apart are
/// exercised by tests; the general permutation argument is not proved here.)
pub proof fn lemma_adjacent_symmetry(stacks: Seq<int>, payouts: Seq<int>, a: int)
    requires
        all_pos_int(stacks),
        payouts.len() == stacks.len(),
        0 <= a,
        a + 1 < stacks.len(),
        stacks[a] == stacks[a + 1],
    ensures
        rat_eq(
            mh_expected(stacks, payouts)[a],
            mh_expected(stacks, payouts)[a + 1],
        ),
    decreases stacks.len(), stacks.len() + 1,
{
    lemma_mh_fold_adjacent_high(stacks, payouts, a, stacks.len() as int);
}


} // verus!
