use vstd::prelude::*;
use vstd::arithmetic::mul::{lemma_mul_inequality, lemma_mul_is_distributive_add_other_way, lemma_mul_strictly_positive};
use vstd::arithmetic::div_mod::{lemma_fundamental_div_mod, lemma_mod_division_less_than_divisor};
use crate::errors::IcmError;
use crate::inputs::all_positive;
use crate::rat::{Rat, Rational};
use crate::sums::{seq_sum, ints_of_u32, ints_of_u128, lemma_seq_sum_take_step, lemma_seq_sum_take_all, lemma_seq_sum_take_le, lemma_seq_sum_update, lemma_seq_sum_push};

verus! {

/// Which entropy source the caller wants for the randomized trials: a fast
/// generator or the general-purpose one. A quality/speed knob only; either
/// choice must hand the trials uniform samples.
#[derive(Clone, Copy, Debug, PartialEq, Eq, Structural)]
pub enum RngMode {
    Fast,
    GeneralPurpose,
}

/// The sampling weight of player `i`: the average stack divided by the
/// player's own stack, an exact rational. Larger stacks give smaller weights.
pub open spec fn weight_of(stacks: Seq<u32>, i: int) -> Rat {
    Rat { n: seq_sum(ints_of_u32(stacks)), d: stacks.len() * stacks[i] }
}

/// Turns chip counts into the per-player sampling weights of the randomized
/// engine. Pure: the weights are a function of the stacks alone.
pub fn derive_weights(stacks: &Vec<u32>) -> (r: Result<Vec<Rational>, IcmError>)
    ensures
        r is Ok <==> (stacks@.len() > 0 && all_positive(stacks@)),
        r == Err::<Vec<Rational>, IcmError>(IcmError::EmptyInput) <==> stacks@.len() == 0,
        r == Err::<Vec<Rational>, IcmError>(IcmError::ZeroStack) <==> (stacks@.len() > 0
            && !all_positive(stacks@)),
        r matches Ok(v) ==> {
            &&& v@.len() == stacks@.len()
            &&& forall|i: int|
                0 <= i < v@.len() ==> (#[trigger] v@[i]).wf() && v@[i]@ == weight_of(stacks@, i)
        },
{
    match crate::inputs::validate_stacks(stacks) {
        Err(e) => Err(e),
        Ok(()) => {
            let n = stacks.len();
            let total: u128 = crate::sums::sum_u32s(stacks);
            let mut out: Vec<Rational> = Vec::new();
            let mut i: usize = 0;
            while i < n
                invariant
                    n == stacks@.len(),
                    n > 0,
                    all_positive(stacks@),
                    total == seq_sum(ints_of_u32(stacks@)),
                    0 <= i <= n,
                    out@.len() == i,
                    forall|j: int|
                        0 <= j < i ==> (#[trigger] out@[j]).wf() && out@[j]@ == weight_of(
                            stacks@,
                            j,
                        ),
                decreases n - i,
            {
                proof {
                    assert((n as int) * (stacks@[i as int] as int) <= 0xffff_ffff_ffff_ffff
                        * 0xffff_ffff) by (nonlinear_arith)
                        requires
                            n <= 0xffff_ffff_ffff_ffffu64,
                            stacks@[i as int] <= 0xffff_ffffu32,
                            0 < n,
                            0 < stacks@[i as int],
                    ;
                    lemma_mul_strictly_positive(n as int, stacks@[i as int] as int);
                }
                let den: u128 = (n as u128) * (stacks[i] as u128);
                out.push(Rational { num: total, den });
                i = i + 1;
            }
            Ok(out)
        },
    }
}

/// Splits the requested trials as evenly as possible over the workers; the
/// remainder goes whole to the first worker, so nothing is dropped or
/// counted twice.
pub fn partition_trials(trial_count: u32, worker_count: u32) -> (r: Result<Vec<u32>, IcmError>)
    ensures
        r == Err::<Vec<u32>, IcmError>(IcmError::ZeroTrials) <==> trial_count == 0,
        r == Err::<Vec<u32>, IcmError>(IcmError::ZeroWorkers) <==> (trial_count > 0
            && worker_count == 0),
        r is Ok <==> (trial_count > 0 && worker_count > 0),
        r matches Ok(v) ==> {
            &&& v@.len() == worker_count
            &&& v@[0] == trial_count as int / worker_count as int + trial_count as int
                % worker_count as int
            &&& forall|k: int|
                1 <= k < v@.len() ==> v@[k] == trial_count as int / worker_count as int
            &&& seq_sum(ints_of_u32(v@)) == trial_count
        },
{
    if trial_count == 0 {
        return Err(IcmError::ZeroTrials);
    }
    if worker_count == 0 {
        return Err(IcmError::ZeroWorkers);
    }
    let base = trial_count / worker_count;
    let rem = trial_count % worker_count;
    let mut out: Vec<u32> = Vec::new();
    proof {
        lemma_fundamental_div_mod(trial_count as int, worker_count as int);
        lemma_mod_division_less_than_divisor(trial_count as int, worker_count as int);
        lemma_mul_inequality(1, worker_count as int, base as int);
    }
    let ghost out0 = out@;
    let first: u32 = base + rem;
    out.push(first);
    proof {
        assert(ints_of_u32(out@) =~= ints_of_u32(out0).push(first as int));
        lemma_seq_sum_push(ints_of_u32(out0), first as int);
    }
    let mut w: usize = 1;
    while w < worker_count as usize
        invariant
            out@.len() == w,
            1 <= w <= worker_count,
            base == trial_count as int / worker_count as int,
            rem == trial_count as int % worker_count as int,
            out@[0] == base + rem,
            forall|k: int| 1 <= k < w ==> out@[k] == base,
            seq_sum(ints_of_u32(out@)) == (w as int) * (base as int) + rem,
        decreases worker_count - w,
    {
        let ghost prev = out@;
        out.push(base);
        proof {
            assert(ints_of_u32(out@) =~= ints_of_u32(prev).push(base as int));
            lemma_seq_sum_push(ints_of_u32(prev), base as int);
            lemma_mul_is_distributive_add_other_way(base as int, w as int, 1);
        }
        w = w + 1;
    }
    proof {
        lemma_fundamental_div_mod(trial_count as int, worker_count as int);
    }
    Ok(out)
}

/// One finishing order of `n` players: position `k` holds the player who
/// came `k`-th from the bottom, each player exactly once.
pub open spec fn is_ranking(r: Seq<usize>, n: nat) -> bool {
    &&& r.len() == n
    &&& forall|k: int| 0 <= k < r.len() ==> (#[trigger] r[k]) < n
    &&& forall|k1: int, k2: int| 0 <= k1 < k2 < r.len() ==> r[k1] != r[k2]
}

/// Decides whether `ranking` is a permutation of the `n` players.
pub fn check_ranking(ranking: &Vec<usize>, n: usize) -> (b: bool)
    ensures
        b == is_ranking(ranking@, n as nat),
{
    if ranking.len() != n {
        return false;
    }
    let mut k: usize = 0;
    while k < n
        invariant
            n == ranking@.len(),
            0 <= k <= n,
            forall|j: int| 0 <= j < k ==> (#[trigger] ranking@[j]) < n,
            forall|j1: int, j2: int| 0 <= j1 < j2 < k ==> ranking@[j1] != ranking@[j2],
        decreases n - k,
    {
        if ranking[k] >= n {
            return false;
        }
        let mut j: usize = 0;
        while j < k
            invariant
                n == ranking@.len(),
                0 <= j <= k < n,
                forall|j2: int| 0 <= j2 < j ==> ranking@[j2] != ranking@[k as int],
            decreases k - j,
        {
            if ranking[j] == ranking[k] {
                return false;
            }
            j = j + 1;
        }
        k = k + 1;
    }
    true
}

/// A worker's running totals: for each player, the chips of payout credited
/// over this worker's trials so far, and how many trials were recorded.
/// The exact expected payout of a run is the grand total divided by the
/// grand trial count, taken at merge time.
#[derive(Debug)]
pub struct TrialAccumulator {
    pub sums: Vec<u128>,
    pub trials: u32,
}

impl TrialAccumulator {
    /// A fresh accumulator for a field of `player_count` players.
    pub fn new(player_count: usize) -> (r: Self)
        ensures
            r.sums@.len() == player_count,
            forall|i: int| 0 <= i < r.sums@.len() ==> r.sums@[i] == 0,
            r.trials == 0,
    {
        let mut sums: Vec<u128> = Vec::new();
        let mut i: usize = 0;
        while i < player_count
            invariant
                sums@.len() == i,
                i <= player_count,
                forall|j: int| 0 <= j < i ==> sums@[j] == 0,
            decreases player_count - i,
        {
            sums.push(0);
            i = i + 1;
        }
        TrialAccumulator { sums, trials: 0 }
    }

    /// Credits one finished trial: the player ranked `k`-th from the bottom
    /// receives `payouts[k]` (payouts ascending, worst prize first). The
    /// whole pool of one trial is handed out: the totals grow by exactly
    /// the payout sum.
    pub fn record(&mut self, ranking: &Vec<usize>, payouts: &Vec<u32>) -> (r: Result<(), IcmError>)
        ensures
            r == Err::<(), IcmError>(IcmError::InvalidRanking) <==> !is_ranking(
                ranking@,
                old(self).sums@.len() as nat,
            ),
            r == Err::<(), IcmError>(IcmError::LengthMismatch) <==> (is_ranking(
                ranking@,
                old(self).sums@.len() as nat,
            ) && payouts@.len() != old(self).sums@.len()),
            r is Err ==> *final(self) == *old(self),
            r is Ok <==> (is_ranking(ranking@, old(self).sums@.len() as nat) && payouts@.len()
                == old(self).sums@.len() && old(self).trials < u32::MAX && (forall|k: int|
                0 <= k < payouts@.len() ==> old(self).sums@[ranking@[k] as int] + payouts@[k]
                    <= u128::MAX)),
            r is Ok ==> {
                &&& final(self).sums@.len() == old(self).sums@.len()
                &&& final(self).trials == old(self).trials + 1
                &&& forall|k: int|
                    0 <= k < payouts@.len() ==> final(self).sums@[ranking@[k] as int] == old(
                        self,
                    ).sums@[ranking@[k] as int] + payouts@[k]
                &&& seq_sum(ints_of_u128(final(self).sums@)) == seq_sum(
                    ints_of_u128(old(self).sums@),
                ) + seq_sum(ints_of_u32(payouts@))
            },
    {
        let n = self.sums.len();
        if !check_ranking(ranking, n) {
            return Err(IcmError::InvalidRanking);
        }
        if payouts.len() != n {
            return Err(IcmError::LengthMismatch);
        }
        if self.trials == u32::MAX {
            return Err(IcmError::Overflow);
        }
        let mut cur: Vec<u128> = Vec::new();
        let mut i: usize = 0;
        while i < n
            invariant
                n == self.sums@.len(),
                cur@.len() == i,
                i <= n,
                forall|j: int| 0 <= j < i ==> cur@[j] == self.sums@[j],
            decreases n - i,
        {
            cur.push(self.sums[i]);
            i = i + 1;
        }
        assert(cur@ =~= self.sums@);
        let mut k: usize = 0;
        while k < n
            invariant
                n == self.sums@.len() == cur@.len() == ranking@.len() == payouts@.len(),
                *self == *old(self),
                is_ranking(ranking@, n as nat),
                0 <= k <= n,
                forall|j: int|
                    0 <= j < k ==> cur@[ranking@[j] as int] == self.sums@[ranking@[j] as int]
                        + payouts@[j],
                forall|i2: int|
                    0 <= i2 < n && (forall|j: int| 0 <= j < k ==> ranking@[j] != i2)
                        ==> cur@[i2] == self.sums@[i2],
                forall|j: int|
                    0 <= j < k ==> self.sums@[ranking@[j] as int] + payouts@[j] <= u128::MAX,
                seq_sum(ints_of_u128(cur@)) == seq_sum(ints_of_u128(self.sums@)) + seq_sum(
                    ints_of_u32(payouts@).take(k as int),
                ),
            decreases n - k,
        {
            let idx = ranking[k];
            let pay = payouts[k] as u128;
            if cur[idx] > u128::MAX - pay {
                return Err(IcmError::Overflow);
            }
            let ghost prev = cur@;
            cur.set(idx, cur[idx] + pay);
            proof {
                assert(ints_of_u128(cur@) =~= ints_of_u128(prev).update(
                    idx as int,
                    prev[idx as int] + pay,
                ));
                lemma_seq_sum_update(ints_of_u128(prev), idx as int, prev[idx as int] + pay);
                lemma_seq_sum_take_step(ints_of_u32(payouts@), k as int);
            }
            k = k + 1;
        }
        proof {
            lemma_seq_sum_take_all(ints_of_u32(payouts@));
        }
        self.sums = cur;
        self.trials = self.trials + 1;
        Ok(())
    }
}

/// Everything the randomized ("SICM") engine decides before any trial runs:
/// the sampling weights, the payout ladder in the orientation the trials
/// pair with ascending scores, and each worker's share of the trials. The
/// randomized scoring itself happens outside; its results come back as
/// rankings through [`TrialAccumulator::record`] and [`aggregate`].
#[derive(Debug)]
pub struct TrialPlan {
    pub weights: Vec<Rational>,
    pub payouts_ascending: Vec<u32>,
    pub worker_trials: Vec<u32>,
    pub mode: RngMode,
}

/// Validates the inputs of a randomized run and fixes every decision the
/// trials depend on. Pure: no randomness is consumed here.
pub fn plan_trials(
    stacks: &Vec<u32>,
    payouts: &Vec<u32>,
    trial_count: u32,
    worker_count: u32,
    mode: RngMode,
) -> (r: Result<TrialPlan, IcmError>)
    ensures
        r == Err::<TrialPlan, IcmError>(IcmError::EmptyInput) <==> stacks@.len() == 0,
        r == Err::<TrialPlan, IcmError>(IcmError::ZeroStack) <==> (stacks@.len() > 0
            && !all_positive(stacks@)),
        r == Err::<TrialPlan, IcmError>(IcmError::LengthMismatch) <==> (stacks@.len() > 0
            && all_positive(stacks@) && payouts@.len() != stacks@.len()),
        r == Err::<TrialPlan, IcmError>(IcmError::ZeroTrials) <==> (stacks@.len() > 0
            && all_positive(stacks@) && payouts@.len() == stacks@.len() && trial_count == 0),
        r == Err::<TrialPlan, IcmError>(IcmError::ZeroWorkers) <==> (stacks@.len() > 0
            && all_positive(stacks@) && payouts@.len() == stacks@.len() && trial_count > 0
            && worker_count == 0),
        r is Ok <==> (stacks@.len() > 0 && all_positive(stacks@) && payouts@.len()
            == stacks@.len() && trial_count > 0 && worker_count > 0),
        r matches Ok(plan) ==> {
            &&& plan.weights@.len() == stacks@.len()
            &&& forall|i: int|
                0 <= i < plan.weights@.len() ==> (#[trigger] plan.weights@[i]).wf()
                    && plan.weights@[i]@ == weight_of(stacks@, i)
            &&& plan.payouts_ascending@ == payouts@.sort_by(
                crate::sortvec::ascending_order(),
            )
            &&& plan.worker_trials@.len() == worker_count
            &&& seq_sum(ints_of_u32(plan.worker_trials@)) == trial_count
            &&& plan.worker_trials@[0] == trial_count as int / worker_count as int
                + trial_count as int % worker_count as int
            &&& forall|k: int|
                1 <= k < plan.worker_trials@.len() ==> plan.worker_trials@[k]
                    == trial_count as int / worker_count as int
            &&& plan.mode == mode
        },
{
    let weights = match derive_weights(stacks) {
        Ok(w) => w,
        Err(e) => {
            return Err(e);
        },
    };
    if payouts.len() != stacks.len() {
        return Err(IcmError::LengthMismatch);
    }
    let worker_trials = match partition_trials(trial_count, worker_count) {
        Ok(t) => t,
        Err(e) => {
            return Err(e);
        },
    };
    let payouts_ascending = crate::sortvec::sort_ascending(payouts);
    Ok(TrialPlan { weights, payouts_ascending, worker_trials, mode })
}

/// Column `i` of a stack of per-worker total vectors.
pub open spec fn column(parts: Seq<Seq<int>>, i: int) -> Seq<int> {
    parts.map_values(|p: Seq<int>| p[i])
}

/// Each worker's credited totals, read as integers.
pub open spec fn sums_views(parts: Seq<TrialAccumulator>) -> Seq<Seq<int>> {
    parts.map_values(|a: TrialAccumulator| ints_of_u128(a.sums@))
}

/// Each worker's trial count, read as integers.
pub open spec fn trials_views(parts: Seq<TrialAccumulator>) -> Seq<int> {
    parts.map_values(|a: TrialAccumulator| a.trials as int)
}

/// Merges the workers' partial accumulators into the expected-payout
/// vector: player `i` receives the grand credited total over the grand
/// trial count, an exact rational. Dividing the grand total by the grand
/// trial count weights every worker by its own trial share, so the mean is
/// exact even when one worker absorbed the remainder of the partition.
/// Summation order cannot matter: the result is pinned to the column sums
/// themselves.
pub fn aggregate(parts: &Vec<TrialAccumulator>) -> (r: Result<Vec<Rational>, IcmError>)
    ensures
        r == Err::<Vec<Rational>, IcmError>(IcmError::ZeroWorkers) <==> parts@.len() == 0,
        r == Err::<Vec<Rational>, IcmError>(IcmError::MismatchedParts) <==> (parts@.len() > 0
            && exists|w: int|
            0 <= w < parts@.len() && (#[trigger] parts@[w].sums@.len())
                != parts@[0].sums@.len()),
        r == Err::<Vec<Rational>, IcmError>(IcmError::ZeroTrials) <==> (parts@.len() > 0
            && (forall|w: int|
                0 <= w < parts@.len() ==> (#[trigger] parts@[w].sums@.len())
                    == parts@[0].sums@.len()) && seq_sum(trials_views(parts@)) == 0),
        r is Ok <==> (parts@.len() > 0 && (forall|w: int|
            0 <= w < parts@.len() ==> (#[trigger] parts@[w].sums@.len())
                == parts@[0].sums@.len()) && seq_sum(trials_views(parts@)) > 0 && (forall|i: int|
            0 <= i < parts@[0].sums@.len() ==> seq_sum(
                #[trigger] column(sums_views(parts@), i),
            ) <= u128::MAX)),
        r matches Ok(v) ==> {
            &&& v@.len() == parts@[0].sums@.len()
            &&& seq_sum(trials_views(parts@)) > 0
            &&& forall|i: int|
                0 <= i < v@.len() ==> (#[trigger] v@[i]).wf() && v@[i]@ == (Rat {
                    n: seq_sum(column(sums_views(parts@), i)),
                    d: seq_sum(trials_views(parts@)),
                })
        },
{
    let count = parts.len();
    if count == 0 {
        return Err(IcmError::ZeroWorkers);
    }
    let n = parts[0].sums.len();
    let mut w: usize = 1;
    while w < count
        invariant
            count == parts@.len(),
            n == parts@[0].sums@.len(),
            1 <= w <= count,
            forall|j: int| 0 <= j < w ==> (#[trigger] parts@[j].sums@.len()) == n,
        decreases count - w,
    {
        if parts[w].sums.len() != n {
            return Err(IcmError::MismatchedParts);
        }
        w = w + 1;
    }
    let ghost tv = trials_views(parts@);
    let mut trials_total: u128 = 0;
    let mut w2: usize = 0;
    while w2 < count
        invariant
            count == parts@.len(),
            tv == trials_views(parts@),
            0 <= w2 <= count,
            trials_total == seq_sum(tv.take(w2 as int)),
            trials_total <= (w2 as int) * 0xffff_ffff,
        decreases count - w2,
    {
        proof {
            lemma_seq_sum_take_step(tv, w2 as int);
            lemma_mul_is_distributive_add_other_way(0xffff_ffff, w2 as int, 1);
            lemma_mul_inequality(w2 as int + 1, 0xffff_ffff_ffff_ffff, 0xffff_ffff);
        }
        trials_total = trials_total + (parts[w2].trials as u128);
        w2 = w2 + 1;
    }
    proof {
        lemma_seq_sum_take_all(tv);
    }
    if trials_total == 0 {
        return Err(IcmError::ZeroTrials);
    }
    let ghost sv = sums_views(parts@);
    let mut grand: Vec<u128> = Vec::new();
    let mut i: usize = 0;
    while i < n
        invariant
            grand@.len() == i,
            i <= n,
            forall|j: int| 0 <= j < i ==> grand@[j] == 0,
        decreases n - i,
    {
        grand.push(0);
        i = i + 1;
    }
    let mut w3: usize = 0;
    while w3 < count
        invariant
            count == parts@.len(),
            n == parts@[0].sums@.len(),
            sv == sums_views(parts@),
            tv == trials_views(parts@),
            trials_total == seq_sum(tv),
            trials_total > 0,
            forall|j: int| 0 <= j < count ==> (#[trigger] parts@[j].sums@.len()) == n,
            0 <= w3 <= count,
            grand@.len() == n,
            forall|j: int|
                0 <= j < n ==> (#[trigger] grand@[j]) == seq_sum(
                    column(sv.take(w3 as int), j),
                ),
        decreases count - w3,
    {
        let mut i2: usize = 0;
        while i2 < n
            invariant
                count == parts@.len(),
                n == parts@[0].sums@.len(),
                sv == sums_views(parts@),
                tv == trials_views(parts@),
                trials_total == seq_sum(tv),
                trials_total > 0,
                forall|j: int| 0 <= j < count ==> (#[trigger] parts@[j].sums@.len()) == n,
                0 <= w3 < count,
                0 <= i2 <= n,
                grand@.len() == n,
                forall|j: int|
                    0 <= j < i2 ==> (#[trigger] grand@[j]) == seq_sum(
                        column(sv.take(w3 as int + 1), j),
                    ),
                forall|j: int|
                    i2 <= j < n ==> (#[trigger] grand@[j]) == seq_sum(
                        column(sv.take(w3 as int), j),
                    ),
            decreases n - i2,
        {
            let cell = parts[w3].sums[i2];
            proof {
                assert(column(sv.take(w3 as int + 1), i2 as int) =~= column(
                    sv.take(w3 as int),
                    i2 as int,
                ).push(cell as int));
                lemma_seq_sum_push(column(sv.take(w3 as int), i2 as int), cell as int);
                assert(column(sv, i2 as int).take(w3 as int + 1) =~= column(
                    sv.take(w3 as int + 1),
                    i2 as int,
                ));
                lemma_seq_sum_take_le(column(sv, i2 as int), w3 as int + 1);
            }
            if grand[i2] > u128::MAX - cell {
                return Err(IcmError::Overflow);
            }
            let prior = grand[i2];
            grand.set(i2, prior + cell);
            i2 = i2 + 1;
        }
        w3 = w3 + 1;
    }
    proof {
        assert(sv.take(count as int) =~= sv);
    }
    let mut out: Vec<Rational> = Vec::new();
    let mut i3: usize = 0;
    while i3 < n
        invariant
            n == parts@[0].sums@.len(),
            sv == sums_views(parts@),
            tv == trials_views(parts@),
            trials_total == seq_sum(tv),
            trials_total > 0,
            grand@.len() == n,
            forall|j: int|
                0 <= j < n ==> (#[trigger] grand@[j]) == seq_sum(column(sv, j)),
            0 <= i3 <= n,
            out@.len() == i3,
            forall|j: int|
                0 <= j < i3 ==> (#[trigger] out@[j]).wf() && out@[j]@ == (Rat {
                    n: seq_sum(column(sv, j)),
                    d: seq_sum(tv),
                }),
        decreases n - i3,
    {
        out.push(Rational { num: grand[i3], den: trials_total });
        i3 = i3 + 1;
    }
    proof {
        assert forall|i: int| 0 <= i < n implies seq_sum(#[trigger] column(sv, i))
            <= u128::MAX by {
            assert(grand@[i] == seq_sum(column(sv, i)));
        }
    }
    Ok(out)
}

} // verus!
