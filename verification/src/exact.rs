use vstd::prelude::*;
use vstd::arithmetic::mul::lemma_mul_upper_bound;
use crate::errors::IcmError;
use crate::inputs::all_positive;
use crate::rat::{Rat, Rational, rat_add, rat_mul, rat_of_int, rat_zero, mul_fits, add_fits};
use crate::sums::{seq_sum, ints_of_u32, lemma_seq_sum_positive};

verus! {

/// The expected payouts of the Malmuth-Harville recursion. Player `i` of
/// `stacks` wins the next (best) remaining payout with probability
/// `stacks[i] / total`; conditional on a winner, the rest of the field plays
/// for the remaining payouts. Payouts are best-first (descending).
pub open spec fn mh_expected(stacks: Seq<int>, payouts: Seq<int>) -> Seq<Rat>
    decreases stacks.len(), stacks.len() + 1,
{
    if stacks.len() == 0 {
        Seq::empty()
    } else if stacks.len() == 1 {
        seq![rat_of_int(payouts[0])]
    } else {
        mh_winner_fold(stacks, payouts, stacks.len() as int)
    }
}

/// The partial sum of [`mh_expected`] over the first `j` candidate winners:
/// what each player expects from the finishing orders in which one of the
/// players `0..j` takes the next payout.
pub open spec fn mh_winner_fold(stacks: Seq<int>, payouts: Seq<int>, j: int) -> Seq<Rat>
    decreases stacks.len(), j,
{
    if j <= 0 || j > stacks.len() || stacks.len() < 2 {
        Seq::new(stacks.len(), |i: int| rat_zero())
    } else {
        let prev = mh_winner_fold(stacks, payouts, j - 1);
        let w = j - 1;
        let p = Rat { n: stacks[w], d: seq_sum(stacks) };
        let sub = mh_expected(stacks.remove(w), payouts.drop_first());
        Seq::new(
            stacks.len(),
            |i: int|
                if i == w {
                    rat_add(prev[i], rat_mul(p, rat_of_int(payouts[0])))
                } else if i < w {
                    rat_add(prev[i], rat_mul(p, sub[i]))
                } else {
                    rat_add(prev[i], rat_mul(p, sub[i - 1]))
                },
        )
    }
}

/// The contribution the winner `w` hands player `i`: the best remaining
/// payout to the winner, the rest of the field's expectation to the others.
pub open spec fn mh_arm(w: int, payouts: Seq<int>, sub: Seq<Rat>, i: int) -> Rat {
    if i == w {
        rat_of_int(payouts[0])
    } else if i < w {
        sub[i]
    } else {
        sub[i - 1]
    }
}

/// One accumulation step of the recursion stays within machine words:
/// the winner's probability times the contribution, and the running sum.
pub open spec fn mh_step_fits(acc: Rat, p: Rat, x: Rat) -> bool {
    mul_fits(p, x) && add_fits(acc, rat_mul(p, x))
}

/// Every accumulation step for winner `j - 1` stays within machine words.
pub open spec fn mh_steps_fit(stacks: Seq<int>, payouts: Seq<int>, j: int) -> bool {
    let w = j - 1;
    let prev = mh_winner_fold(stacks, payouts, j - 1);
    let p = Rat { n: stacks[w], d: seq_sum(stacks) };
    let sub = mh_expected(stacks.remove(w), payouts.drop_first());
    forall|i: int|
        0 <= i < stacks.len() ==> #[trigger] mh_step_fits(prev[i], p, mh_arm(w, payouts, sub, i))
}

/// The whole Malmuth-Harville computation over winners `0..j` stays within
/// machine words: every sub-field's computation and every product and sum of
/// numerators and denominators fits in a `u128`.
pub open spec fn mh_fold_fits(stacks: Seq<int>, payouts: Seq<int>, j: int) -> bool
    decreases stacks.len(), j,
{
    if j <= 0 || j > stacks.len() || stacks.len() < 2 {
        true
    } else {
        &&& mh_fold_fits(stacks, payouts, j - 1)
        &&& mh_fits(stacks.remove(j - 1), payouts.drop_first())
        &&& mh_steps_fit(stacks, payouts, j)
    }
}

/// The whole Malmuth-Harville computation for this field stays within
/// machine words: exactly the inputs on which [`exact_expected_sorted`]
/// succeeds. A one-player field always fits; a field that does not fit is
/// reported as an overflow, never rounded.
pub open spec fn mh_fits(stacks: Seq<int>, payouts: Seq<int>) -> bool
    decreases stacks.len(), stacks.len() + 1,
{
    if stacks.len() < 2 {
        true
    } else {
        mh_fold_fits(stacks, payouts, stacks.len() as int)
    }
}

/// Fitting through `j2` winners includes fitting through the first `j1`.
proof fn lemma_mh_fold_fits_mono(stacks: Seq<int>, payouts: Seq<int>, j1: int, j2: int)
    requires
        0 <= j1 <= j2 <= stacks.len(),
        mh_fold_fits(stacks, payouts, j2),
    ensures
        mh_fold_fits(stacks, payouts, j1),
    decreases j2,
{
    if j1 < j2 {
        lemma_mh_fold_fits_mono(stacks, payouts, j1, j2 - 1);
    }
}

/// One accumulation step within given bounds fits, and the new accumulator
/// is bounded in turn.
proof fn lemma_step_fits_bounded(
    acc: Rat,
    p: Rat,
    x: Rat,
    an: int,
    ad: int,
    pnb: int,
    pdb: int,
    xn: int,
    xd: int,
)
    requires
        0 <= acc.n <= an,
        1 <= acc.d <= ad,
        0 <= p.n <= pnb,
        1 <= p.d <= pdb,
        0 <= x.n <= xn,
        1 <= x.d <= xd,
        pnb * xn <= u128::MAX,
        pdb * xd <= u128::MAX,
        an * (pdb * xd) + (pnb * xn) * ad <= u128::MAX,
        ad * (pdb * xd) <= u128::MAX,
    ensures
        mh_step_fits(acc, p, x),
        0 <= rat_add(acc, rat_mul(p, x)).n <= an * (pdb * xd) + (pnb * xn) * ad,
        1 <= rat_add(acc, rat_mul(p, x)).d <= ad * (pdb * xd),
{
    lemma_mul_upper_bound(p.n, pnb, x.n, xn);
    lemma_mul_upper_bound(p.d, pdb, x.d, xd);
    let t = rat_mul(p, x);
    assert(t.n >= 0) by (nonlinear_arith)
        requires
            t.n == p.n * x.n,
            p.n >= 0,
            x.n >= 0,
    ;
    assert(t.d >= 1) by (nonlinear_arith)
        requires
            t.d == p.d * x.d,
            p.d >= 1,
            x.d >= 1,
    ;
    lemma_mul_upper_bound(acc.n, an, t.d, pdb * xd);
    lemma_mul_upper_bound(t.n, pnb * xn, acc.d, ad);
    lemma_mul_upper_bound(acc.d, ad, t.d, pdb * xd);
    assert(acc.n * t.d >= 0) by (nonlinear_arith)
        requires
            acc.n >= 0,
            t.d >= 1,
    ;
    assert(t.n * acc.d >= 0) by (nonlinear_arith)
        requires
            t.n >= 0,
            acc.d >= 1,
    ;
    assert(acc.d * t.d >= 1) by (nonlinear_arith)
        requires
            acc.d >= 1,
            t.d >= 1,
    ;
}

/// Two-player fields always fit: with `u32` chip counts and payouts, every
/// numerator stays under `2^98` and every denominator under `2^66`, far
/// inside the machine range. So the engine owes a result on every valid
/// two-player input, whatever the chip counts.
pub proof fn lemma_mh_fits_pair(stacks: Seq<int>, payouts: Seq<int>)
    requires
        stacks.len() == 2,
        payouts.len() == 2,
        forall|i: int| 0 <= i < 2 ==> 0 <= #[trigger] stacks[i] <= u32::MAX,
        forall|i: int| 0 <= i < 2 ==> 0 <= #[trigger] payouts[i] <= u32::MAX,
    ensures
        mh_fits(stacks, payouts),
{
    let s0 = stacks[0];
    let s1 = stacks[1];
    let total = seq_sum(stacks);
    assert(stacks.drop_first()[0] == s1);
    assert(stacks.drop_first().drop_first().len() == 0);
    assert(seq_sum(stacks.drop_first().drop_first()) == 0);
    assert(seq_sum(stacks.drop_first()) == s1 + seq_sum(stacks.drop_first().drop_first()));
    assert(seq_sum(stacks) == s0 + seq_sum(stacks.drop_first()));
    assert(total == s0 + s1);
    let tail = payouts.drop_first();
    assert(tail[0] == payouts[1]);
    let sub0 = mh_expected(stacks.remove(0), tail);
    let sub1 = mh_expected(stacks.remove(1), tail);
    assert(stacks.remove(0).len() == 1 && stacks.remove(1).len() == 1);
    assert(sub0 == seq![rat_of_int(tail[0])]);
    assert(sub1 == seq![rat_of_int(tail[0])]);
    let p0 = Rat { n: s0, d: total };
    let p1 = Rat { n: s1, d: total };
    let bound32: int = u32::MAX as int;
    let bound64: int = bound32 * bound32;
    let bound33: int = bound32 + bound32;
    assert(bound64 <= u128::MAX) by (nonlinear_arith)
        requires
            bound32 == 0xffff_ffff,
            bound64 == bound32 * bound32,
    ;
    // winner 0: the accumulators are still zero
    let zerov = mh_winner_fold(stacks, payouts, 0);
    assert forall|i: int| 0 <= i < 2 implies #[trigger] mh_step_fits(
        zerov[i],
        p0,
        mh_arm(0, payouts, sub0, i),
    ) by {
        let x = mh_arm(0, payouts, sub0, i);
        assert(zerov[i] == rat_zero());
        assert(x.n <= bound32 && x.d == 1);
        lemma_mul_upper_bound(p0.n, bound32, x.n, bound32);
        assert(p0.d * x.d == total);
        let t = rat_mul(p0, x);
        assert(rat_zero().n * t.d + t.n * rat_zero().d == t.n) by (nonlinear_arith)
            requires
                rat_zero().n == 0 && rat_zero().d == 1,
        ;
        assert(rat_zero().d * t.d == t.d) by (nonlinear_arith)
            requires
                rat_zero().d == 1,
        ;
    }
    assert(mh_steps_fit(stacks, payouts, 1));
    assert(mh_fits(stacks.remove(0), payouts.drop_first()));
    assert(mh_fold_fits(stacks, payouts, 0));
    assert(mh_fold_fits(stacks, payouts, 1));
    // winner 1: each accumulator holds one product over the stack total
    let prev = mh_winner_fold(stacks, payouts, 1);
    assert forall|i: int| 0 <= i < 2 implies #[trigger] mh_step_fits(
        prev[i],
        p1,
        mh_arm(1, payouts, sub1, i),
    ) by {
        let x0 = mh_arm(0, payouts, sub0, i);
        assert(prev[i] == rat_add(rat_zero(), rat_mul(p0, x0)));
        assert(x0.n <= bound32 && x0.d == 1);
        lemma_mul_upper_bound(p0.n, bound32, x0.n, bound32);
        assert(prev[i].n <= bound64 && prev[i].d == total && prev[i].n >= 0) by (nonlinear_arith)
            requires
                prev[i].n == 0 * (p0.d * x0.d) + (p0.n * x0.n) * 1,
                prev[i].d == 1 * (p0.d * x0.d),
                p0.d == total,
                x0.d == 1,
                0 <= p0.n * x0.n <= bound64,
        ;
        let x = mh_arm(1, payouts, sub1, i);
        assert(x.n <= bound32 && x.d == 1 && x.n >= 0);
        lemma_mul_upper_bound(p1.n, bound32, x.n, bound32);
        let t = rat_mul(p1, x);
        assert(t.n <= bound64 && t.d == total && t.n >= 0) by (nonlinear_arith)
            requires
                t.n == p1.n * x.n,
                t.d == p1.d * x.d,
                p1.d == total,
                x.d == 1,
                0 <= p1.n * x.n <= bound64,
        ;
        assert(prev[i].n * t.d + t.n * prev[i].d <= u128::MAX && prev[i].d * t.d <= u128::MAX)
            by (nonlinear_arith)
            requires
                0 <= prev[i].n <= bound64,
                0 <= t.n <= bound64,
                prev[i].d == total,
                t.d == total,
                0 <= total <= bound33,
                bound32 == 0xffff_ffff,
                bound64 == bound32 * bound32,
                bound33 == bound32 + bound32,
        ;
    }
    assert(mh_steps_fit(stacks, payouts, 2));
    assert(mh_fits(stacks.remove(1), payouts.drop_first()));
    assert(mh_fold_fits(stacks, payouts, 2));
}

/// Entry bounds for a two-player field whose chips and prizes stay under
/// 1000: numerators under `4 * 10^9`, denominators in `[1, 4 * 10^6]`.
proof fn lemma_mh_pair_bounds(stacks: Seq<int>, payouts: Seq<int>)
    requires
        stacks.len() == 2,
        payouts.len() == 2,
        forall|i: int| 0 <= i < 2 ==> 1 <= #[trigger] stacks[i] <= 1000,
        forall|i: int| 0 <= i < 2 ==> 0 <= #[trigger] payouts[i] <= 1000,
    ensures
        forall|i: int|
            0 <= i < 2 ==> 0 <= (#[trigger] mh_expected(stacks, payouts)[i]).n <= 4_000_000_000
                && 1 <= mh_expected(stacks, payouts)[i].d <= 4_000_000,
{
    let total = seq_sum(stacks);
    assert(stacks.drop_first()[0] == stacks[1]);
    assert(stacks.drop_first().drop_first().len() == 0);
    assert(seq_sum(stacks.drop_first().drop_first()) == 0);
    assert(seq_sum(stacks.drop_first()) == stacks[1] + seq_sum(stacks.drop_first().drop_first()));
    assert(seq_sum(stacks) == stacks[0] + seq_sum(stacks.drop_first()));
    assert(2 <= total <= 2000);
    let tail = payouts.drop_first();
    assert(tail[0] == payouts[1]);
    let sub0 = mh_expected(stacks.remove(0), tail);
    let sub1 = mh_expected(stacks.remove(1), tail);
    assert(stacks.remove(0).len() == 1 && stacks.remove(1).len() == 1);
    assert(sub0 == seq![rat_of_int(tail[0])]);
    assert(sub1 == seq![rat_of_int(tail[0])]);
    let p0 = Rat { n: stacks[0], d: total };
    let p1 = Rat { n: stacks[1], d: total };
    assert forall|i: int|
        0 <= i < 2 implies 0 <= (#[trigger] mh_expected(stacks, payouts)[i]).n <= 4_000_000_000
            && 1 <= mh_expected(stacks, payouts)[i].d <= 4_000_000 by {
        let x0 = mh_arm(0, payouts, sub0, i);
        assert(0 <= x0.n <= 1000 && x0.d == 1);
        let f1 = mh_winner_fold(stacks, payouts, 1);
        assert(mh_winner_fold(stacks, payouts, 0)[i] == rat_zero());
        assert(f1[i] == rat_add(mh_winner_fold(stacks, payouts, 0)[i], rat_mul(p0, x0)));
        assert(f1[i] == rat_add(rat_zero(), rat_mul(p0, x0)));
        lemma_step_fits_bounded(rat_zero(), p0, x0, 0, 1, 1000, 2000, 1000, 1);
        let x1 = mh_arm(1, payouts, sub1, i);
        assert(0 <= x1.n <= 1000 && x1.d == 1);
        assert(mh_expected(stacks, payouts)[i] == rat_add(f1[i], rat_mul(p1, x1)));
        lemma_step_fits_bounded(f1[i], p1, x1, 1_000_000, 2000, 1000, 2000, 1000, 1);
    }
}

/// Three-player fields whose chips and prizes stay under 1000 always fit:
/// the largest denominator stays under `2 * 10^30` and the largest
/// numerator under `2 * 10^33`, well inside `u128`. This covers every
/// small-tournament ladder in chips-and-prizes units up to 1000.
pub proof fn lemma_mh_fits_trio(stacks: Seq<int>, payouts: Seq<int>)
    requires
        stacks.len() == 3,
        payouts.len() == 3,
        forall|i: int| 0 <= i < 3 ==> 1 <= #[trigger] stacks[i] <= 1000,
        forall|i: int| 0 <= i < 3 ==> 0 <= #[trigger] payouts[i] <= 1000,
    ensures
        mh_fits(stacks, payouts),
{
    let total = seq_sum(stacks);
    let r1 = stacks.drop_first();
    let r2 = stacks.drop_first().drop_first();
    assert(r1[0] == stacks[1] && r1[1] == stacks[2]);
    assert(r2[0] == stacks[2] && r2.drop_first().len() == 0);
    assert(seq_sum(r2.drop_first()) == 0);
    assert(seq_sum(r2) == stacks[2] + seq_sum(r2.drop_first()));
    assert(seq_sum(r1) == stacks[1] + seq_sum(r2));
    assert(seq_sum(stacks) == stacks[0] + seq_sum(r1));
    assert(3 <= total <= 3000);
    let tail = payouts.drop_first();
    assert(tail.len() == 2 && tail[0] == payouts[1] && tail[1] == payouts[2]);
    assert(forall|k: int| 0 <= k < 2 ==> 0 <= #[trigger] tail[k] <= 1000);
    let sub0 = mh_expected(stacks.remove(0), tail);
    let sub1 = mh_expected(stacks.remove(1), tail);
    let sub2 = mh_expected(stacks.remove(2), tail);
    assert forall|w: int, k: int| 0 <= w < 3 && 0 <= k < 2 implies 1 <= #[trigger] stacks.remove(
        w,
    )[k] <= 1000 by {
        if k < w {
            assert(stacks.remove(w)[k] == stacks[k]);
        } else {
            assert(stacks.remove(w)[k] == stacks[k + 1]);
        }
    }
    lemma_mh_pair_bounds(stacks.remove(0), tail);
    lemma_mh_pair_bounds(stacks.remove(1), tail);
    lemma_mh_pair_bounds(stacks.remove(2), tail);
    lemma_mh_fits_pair(stacks.remove(0), tail);
    lemma_mh_fits_pair(stacks.remove(1), tail);
    lemma_mh_fits_pair(stacks.remove(2), tail);
    let p0 = Rat { n: stacks[0], d: total };
    let p1 = Rat { n: stacks[1], d: total };
    let p2 = Rat { n: stacks[2], d: total };
    let f0 = mh_winner_fold(stacks, payouts, 0);
    let f1 = mh_winner_fold(stacks, payouts, 1);
    let f2 = mh_winner_fold(stacks, payouts, 2);
    // winner 0
    assert forall|i: int| 0 <= i < 3 implies #[trigger] mh_step_fits(
        mh_winner_fold(stacks, payouts, 0)[i],
        p0,
        mh_arm(0, payouts, sub0, i),
    ) by {
        let x = mh_arm(0, payouts, sub0, i);
        assert(0 <= x.n <= 4_000_000_000 && 1 <= x.d <= 4_000_000);
        assert(f0[i] == rat_zero());
        lemma_step_fits_bounded(rat_zero(), p0, x, 0, 1, 1000, 3000, 4_000_000_000, 4_000_000);
    }
    assert forall|i: int| 0 <= i < 3 implies 0 <= (#[trigger] f1[i]).n <= 4_000_000_000_000 && 1
        <= f1[i].d <= 12_000_000_000 by {
        let x = mh_arm(0, payouts, sub0, i);
        assert(0 <= x.n <= 4_000_000_000 && 1 <= x.d <= 4_000_000);
        assert(f0[i] == rat_zero());
        assert(f1[i] == rat_add(f0[i], rat_mul(p0, x)));
        lemma_step_fits_bounded(rat_zero(), p0, x, 0, 1, 1000, 3000, 4_000_000_000, 4_000_000);
    }
    // winner 1
    assert forall|i: int| 0 <= i < 3 implies #[trigger] mh_step_fits(
        mh_winner_fold(stacks, payouts, 1)[i],
        p1,
        mh_arm(1, payouts, sub1, i),
    ) by {
        let x = mh_arm(1, payouts, sub1, i);
        assert(0 <= x.n <= 4_000_000_000 && 1 <= x.d <= 4_000_000);
        lemma_step_fits_bounded(
            f1[i],
            p1,
            x,
            4_000_000_000_000,
            12_000_000_000,
            1000,
            3000,
            4_000_000_000,
            4_000_000,
        );
    }
    assert forall|i: int| 0 <= i < 3 implies 0 <= (#[trigger] f2[i]).n
        <= 96_000_000_000_000_000_000_000 && 1 <= f2[i].d <= 144_000_000_000_000_000_000 by {
        let x = mh_arm(1, payouts, sub1, i);
        assert(0 <= x.n <= 4_000_000_000 && 1 <= x.d <= 4_000_000);
        assert(f2[i] == rat_add(f1[i], rat_mul(p1, x)));
        lemma_step_fits_bounded(
            f1[i],
            p1,
            x,
            4_000_000_000_000,
            12_000_000_000,
            1000,
            3000,
            4_000_000_000,
            4_000_000,
        );
    }
    // winner 2
    assert forall|i: int| 0 <= i < 3 implies #[trigger] mh_step_fits(
        mh_winner_fold(stacks, payouts, 2)[i],
        p2,
        mh_arm(2, payouts, sub2, i),
    ) by {
        let x = mh_arm(2, payouts, sub2, i);
        assert(0 <= x.n <= 4_000_000_000 && 1 <= x.d <= 4_000_000);
        lemma_step_fits_bounded(
            f2[i],
            p2,
            x,
            96_000_000_000_000_000_000_000,
            144_000_000_000_000_000_000,
            1000,
            3000,
            4_000_000_000,
            4_000_000,
        );
    }
    assert(mh_steps_fit(stacks, payouts, 1));
    assert(mh_steps_fit(stacks, payouts, 2));
    assert(mh_steps_fit(stacks, payouts, 3));
    assert(mh_fold_fits(stacks, payouts, 0));
    assert(mh_fold_fits(stacks, payouts, 1));
    assert(mh_fold_fits(stacks, payouts, 2));
    assert(mh_fold_fits(stacks, payouts, 3));
}

/// The exact engine on a best-first payout vector. It succeeds exactly when
/// the computation fits the machine ([`mh_fits`]), and then the result is
/// the Malmuth-Harville expectation of every player; the only error is an
/// intermediate value outside the `u128` range, which one- and two-player
/// fields can never produce.
pub fn exact_expected_sorted(stacks: &Vec<u32>, payouts: &Vec<u32>) -> (r: Result<
    Vec<Rational>,
    IcmError,
>)
    requires
        stacks@.len() >= 1,
        stacks@.len() == payouts@.len(),
        all_positive(stacks@),
    ensures
        r matches Ok(v) ==> {
            &&& v@.len() == stacks@.len()
            &&& forall|i: int|
                0 <= i < v@.len() ==> (#[trigger] v@[i]).wf() && v@[i]@ == mh_expected(
                    ints_of_u32(stacks@),
                    ints_of_u32(payouts@),
                )[i]
        },
        stacks@.len() == 1 ==> (r matches Ok(v) && v@[0]@ == rat_of_int(payouts@[0] as int)),
        r is Ok <==> mh_fits(ints_of_u32(stacks@), ints_of_u32(payouts@)),
        r matches Err(e) ==> e == IcmError::Overflow,
    decreases stacks@.len(),
{
    let ghost gs = ints_of_u32(stacks@);
    let ghost gp = ints_of_u32(payouts@);
    let n = stacks.len();
    if n == 1 {
        let mut out: Vec<Rational> = Vec::new();
        out.push(Rational::from_u32(payouts[0]));
        return Ok(out);
    }
    let total: u128 = crate::sums::sum_u32s(stacks);
    proof {
        lemma_seq_sum_positive(gs);
    }
    let mut acc: Vec<Rational> = Vec::new();
    let mut z: usize = 0;
    while z < n
        invariant
            acc@.len() == z,
            z <= n,
            forall|i: int| 0 <= i < z ==> (#[trigger] acc@[i]).wf() && acc@[i]@ == rat_zero(),
        decreases n - z,
    {
        acc.push(Rational::zero());
        z = z + 1;
    }
    let mut w: usize = 0;
    while w < n
        invariant
            n == stacks@.len() == payouts@.len(),
            n >= 2,
            gs == ints_of_u32(stacks@),
            gp == ints_of_u32(payouts@),
            all_positive(stacks@),
            total == seq_sum(gs),
            total > 0,
            0 <= w <= n,
            acc@.len() == n,
            mh_fold_fits(gs, gp, w as int),
            forall|i: int|
                0 <= i < n ==> (#[trigger] acc@[i]).wf() && acc@[i]@ == mh_winner_fold(
                    gs,
                    gp,
                    w as int,
                )[i],
        decreases n - w,
    {
        let mut sub_stacks: Vec<u32> = Vec::new();
        let mut m: usize = 0;
        while m < n
            invariant
                n == stacks@.len(),
                0 <= w < n,
                m <= n,
                sub_stacks@.len() == (if m <= w { m as int } else { m - 1 }),
                forall|k: int| 0 <= k < sub_stacks@.len() ==> sub_stacks@[k] == stacks@.remove(
                    w as int,
                )[k],
            decreases n - m,
        {
            if m != w {
                sub_stacks.push(stacks[m]);
            }
            m = m + 1;
        }
        assert(sub_stacks@ =~= stacks@.remove(w as int));
        let mut sub_payouts: Vec<u32> = Vec::new();
        let mut m2: usize = 1;
        while m2 < n
            invariant
                n == payouts@.len(),
                1 <= m2 <= n,
                sub_payouts@.len() == m2 - 1,
                forall|k: int| 0 <= k < sub_payouts@.len() ==> sub_payouts@[k] == payouts@[k + 1],
            decreases n - m2,
        {
            sub_payouts.push(payouts[m2]);
            m2 = m2 + 1;
        }
        assert(sub_payouts@ =~= payouts@.drop_first());
        proof {
            assert(ints_of_u32(sub_stacks@) =~= gs.remove(w as int));
            assert(ints_of_u32(sub_payouts@) =~= gp.drop_first());
        }
        let sub = match exact_expected_sorted(&sub_stacks, &sub_payouts) {
            Ok(v) => v,
            Err(e) => {
                proof {
                    assert(!mh_fits(gs.remove(w as int), gp.drop_first()));
                    assert(!mh_fold_fits(gs, gp, w as int + 1));
                    if mh_fold_fits(gs, gp, n as int) {
                        lemma_mh_fold_fits_mono(gs, gp, w as int + 1, n as int);
                    }
                    assert(!mh_fits(gs, gp));
                }
                return Err(e);
            },
        };
        let p = Rational { num: stacks[w] as u128, den: total };
        let best = Rational::from_u32(payouts[0]);
        let ghost p_spec = (Rat { n: gs[w as int], d: seq_sum(gs) });
        assert(p@ == p_spec);
        let mut i: usize = 0;
        while i < n
            invariant
                n == stacks@.len() == payouts@.len(),
                n >= 2,
                gs == ints_of_u32(stacks@),
                gp == ints_of_u32(payouts@),
                0 <= w < n,
                total == seq_sum(gs),
                total > 0,
                p.wf(),
                p@ == p_spec,
                p_spec == (Rat { n: gs[w as int], d: seq_sum(gs) }),
                best.wf(),
                best@ == rat_of_int(gp[0]),
                sub@.len() == n - 1,
                forall|k: int|
                    0 <= k < sub@.len() ==> (#[trigger] sub@[k]).wf() && sub@[k]@ == mh_expected(
                        gs.remove(w as int),
                        gp.drop_first(),
                    )[k],
                0 <= i <= n,
                acc@.len() == n,
                mh_fold_fits(gs, gp, w as int),
                mh_fits(gs.remove(w as int), gp.drop_first()),
                forall|k: int|
                    0 <= k < i ==> #[trigger] mh_step_fits(
                        mh_winner_fold(gs, gp, w as int)[k],
                        Rat { n: gs[w as int], d: seq_sum(gs) },
                        mh_arm(w as int, gp, mh_expected(gs.remove(w as int), gp.drop_first()), k),
                    ),
                forall|k: int|
                    0 <= k < i ==> (#[trigger] acc@[k]).wf() && acc@[k]@ == mh_winner_fold(
                        gs,
                        gp,
                        w as int + 1,
                    )[k],
                forall|k: int|
                    i <= k < n ==> (#[trigger] acc@[k]).wf() && acc@[k]@ == mh_winner_fold(
                        gs,
                        gp,
                        w as int,
                    )[k],
            decreases n - i,
        {
            let ghost subv = mh_expected(gs.remove(w as int), gp.drop_first());
            let ghost arm = mh_arm(w as int, gp, subv, i as int);
            let x: &Rational = if i == w {
                &best
            } else if i < w {
                &sub[i]
            } else {
                &sub[i - 1]
            };
            assert(x@ == arm);
            let term = match p.mul(x) {
                Ok(t) => t,
                Err(e) => {
                    proof {
                        assert(!mh_step_fits(
                            mh_winner_fold(gs, gp, w as int)[i as int],
                            Rat { n: gs[w as int], d: seq_sum(gs) },
                            arm,
                        ));
                        assert(!mh_steps_fit(gs, gp, w as int + 1));
                        assert(!mh_fold_fits(gs, gp, w as int + 1));
                        if mh_fold_fits(gs, gp, n as int) {
                            lemma_mh_fold_fits_mono(gs, gp, w as int + 1, n as int);
                        }
                        assert(!mh_fits(gs, gp));
                    }
                    return Err(e);
                },
            };
            let updated = match acc[i].add(&term) {
                Ok(t) => t,
                Err(e) => {
                    proof {
                        assert(acc@[i as int]@ == mh_winner_fold(gs, gp, w as int)[i as int]);
                        assert(!mh_step_fits(
                            mh_winner_fold(gs, gp, w as int)[i as int],
                            Rat { n: gs[w as int], d: seq_sum(gs) },
                            arm,
                        ));
                        assert(!mh_steps_fit(gs, gp, w as int + 1));
                        assert(!mh_fold_fits(gs, gp, w as int + 1));
                        if mh_fold_fits(gs, gp, n as int) {
                            lemma_mh_fold_fits_mono(gs, gp, w as int + 1, n as int);
                        }
                        assert(!mh_fits(gs, gp));
                    }
                    return Err(e);
                },
            };
            acc.set(i, updated);
            i = i + 1;
        }
        proof {
            assert(mh_steps_fit(gs, gp, w as int + 1));
            assert(mh_fold_fits(gs, gp, w as int + 1));
        }
        w = w + 1;
    }
    proof {
        assert(mh_fits(gs, gp));
    }
    Ok(acc)
}

/// The exact ICM engine. Validates the field, sorts the payout ladder
/// best-first itself (callers need not pre-sort), and returns every player's
/// exact expected payout, index-aligned with `stacks`.
///
/// The recursion visits every finishing order, so the cost grows
/// factorially: fields beyond roughly ten players belong to the randomized
/// engine. Success is owed exactly when the computation fits the machine
/// ([`mh_fits`]); with many players or very large chip counts an
/// intermediate value can leave the `u128` range, and that is reported as
/// an overflow, never rounded away. One- and two-player fields always fit,
/// and so do three-player fields with chips and prizes up to 1000.
pub fn exact_expected(stacks: &Vec<u32>, payouts: &Vec<u32>) -> (r: Result<Vec<Rational>, IcmError>)
    ensures
        r == Err::<Vec<Rational>, IcmError>(IcmError::EmptyInput) <==> stacks@.len() == 0,
        r == Err::<Vec<Rational>, IcmError>(IcmError::ZeroStack) <==> (stacks@.len() > 0
            && !all_positive(stacks@)),
        r == Err::<Vec<Rational>, IcmError>(IcmError::LengthMismatch) <==> (stacks@.len() > 0
            && all_positive(stacks@) && payouts@.len() != stacks@.len()),
        r matches Ok(v) ==> {
            &&& stacks@.len() > 0
            &&& all_positive(stacks@)
            &&& payouts@.len() == stacks@.len()
            &&& v@.len() == stacks@.len()
            &&& forall|i: int|
                0 <= i < v@.len() ==> (#[trigger] v@[i]).wf() && v@[i]@ == mh_expected(
                    ints_of_u32(stacks@),
                    ints_of_u32(payouts@.sort_by(crate::sortvec::descending_order())),
                )[i]
        },
        (stacks@.len() == 1 && payouts@.len() == 1 && stacks@[0] > 0) ==> (r matches Ok(v)
            && v@[0]@ == rat_of_int(payouts@[0] as int)),
        r is Ok <==> (stacks@.len() > 0 && all_positive(stacks@) && payouts@.len()
            == stacks@.len() && mh_fits(
            ints_of_u32(stacks@),
            ints_of_u32(payouts@.sort_by(crate::sortvec::descending_order())),
        )),
        r == Err::<Vec<Rational>, IcmError>(IcmError::Overflow) <==> (stacks@.len() > 0
            && all_positive(stacks@) && payouts@.len() == stacks@.len() && !mh_fits(
            ints_of_u32(stacks@),
            ints_of_u32(payouts@.sort_by(crate::sortvec::descending_order())),
        )),
        (stacks@.len() == 2 && all_positive(stacks@) && payouts@.len() == 2) ==> r is Ok,
        (stacks@.len() == 3 && all_positive(stacks@) && payouts@.len() == 3 && (forall|i: int|
            0 <= i < 3 ==> (#[trigger] stacks@[i]) <= 1000 && payouts@[i] <= 1000)) ==> r is Ok,
{
    match crate::inputs::validate_stacks(stacks) {
        Err(e) => {
            return Err(e);
        },
        Ok(()) => {},
    }
    if payouts.len() != stacks.len() {
        return Err(IcmError::LengthMismatch);
    }
    let sorted = crate::sortvec::sort_descending(payouts);
    let r = exact_expected_sorted(stacks, &sorted);
    proof {
        if stacks@.len() == 2 {
            lemma_mh_fits_pair(ints_of_u32(stacks@), ints_of_u32(sorted@));
        }
        if stacks@.len() == 3 && all_positive(stacks@) && payouts@.len() == 3 && (forall|i: int|
            0 <= i < 3 ==> (#[trigger] stacks@[i]) <= 1000 && payouts@[i] <= 1000) {
            payouts@.lemma_sort_by_ensures(crate::sortvec::descending_order());
            assert forall|i: int| 0 <= i < sorted@.len() implies 0 <= (#[trigger] sorted@[i])
                <= 1000 by {
                assert(sorted@.contains(sorted@[i]));
                vstd::seq_lib::to_multiset_contains(sorted@, sorted@[i]);
                vstd::seq_lib::to_multiset_contains(payouts@, sorted@[i]);
                assert(payouts@.contains(sorted@[i]));
                let j = choose|j: int| 0 <= j < payouts@.len() && payouts@[j] == sorted@[i];
                assert(stacks@[j] <= 1000);
                assert(payouts@[j] <= 1000);
            }
            assert forall|i: int| 0 <= i < 3 implies 1 <= #[trigger] ints_of_u32(stacks@)[i]
                <= 1000 by {
                assert(stacks@[i] > 0);
            }
            assert forall|i: int| 0 <= i < 3 implies 0 <= #[trigger] ints_of_u32(sorted@)[i]
                <= 1000 by {
                assert(0 <= sorted@[i] <= 1000);
            }
            lemma_mh_fits_trio(ints_of_u32(stacks@), ints_of_u32(sorted@));
        }
        if stacks@.len() == 1 {
            let leq = crate::sortvec::descending_order();
            payouts@.lemma_sort_by_ensures(leq);
            assert(payouts@.contains(payouts@[0]));
            vstd::seq_lib::to_multiset_contains(payouts@, payouts@[0]);
            vstd::seq_lib::to_multiset_contains(sorted@, payouts@[0]);
            assert(sorted@.contains(payouts@[0]));
            assert(sorted@[0] == payouts@[0]);
        }
    }
    r
}

} // verus!
