use icm_engines::exact::exact_expected;
use icm_engines::rat::Rational;
use icm_engines::sampling::{aggregate, plan_trials, RngMode, TrialAccumulator};
use rand::rngs::SmallRng;
use rand::{Rng, SeedableRng};

fn to_f64(r: &Rational) -> f64 {
    (r.num as f64) / (r.den as f64)
}

/// One full randomized ("SICM") run: the library plans and accumulates, the
/// test supplies the random scores, exactly as the application does.
fn run_sicm(stacks: &Vec<u32>, payouts: &Vec<u32>, trials: u32, workers: u32, seed: u64) -> Vec<Rational> {
    let plan = plan_trials(stacks, payouts, trials, workers, RngMode::Fast).unwrap();
    let n = stacks.len();
    let weights: Vec<f64> = plan.weights.iter().map(to_f64).collect();
    let mut parts: Vec<TrialAccumulator> = Vec::new();
    for (w, share) in plan.worker_trials.iter().enumerate() {
        let mut rng = SmallRng::seed_from_u64(seed.wrapping_add(w as u64));
        let mut acc = TrialAccumulator::new(n);
        for _ in 0..*share {
            let mut scored: Vec<(f64, usize)> = (0..n)
                .map(|i| (rng.gen_range(0.0..1.0f64).powf(weights[i]), i))
                .collect();
            scored.sort_by(|a, b| a.0.partial_cmp(&b.0).unwrap());
            let ranking: Vec<usize> = scored.iter().map(|s| s.1).collect();
            acc.record(&ranking, &plan.payouts_ascending).unwrap();
        }
        parts.push(acc);
    }
    aggregate(&parts).unwrap()
}

#[test]
fn approximate_matches_literal_scenario() {
    let stacks: Vec<u32> = vec![50, 30, 20];
    let payouts: Vec<u32> = vec![70, 20, 10];
    let merged = run_sicm(&stacks, &payouts, 1_000_000, 2, 11);
    let approx: Vec<f64> = merged.iter().map(to_f64).collect();
    assert!((approx[0] - 43.39).abs() < 1.0, "got {}", approx[0]);
    assert!((approx[1] - 31.75).abs() < 1.0, "got {}", approx[1]);
    assert!((approx[2] - 24.86).abs() < 1.0, "got {}", approx[2]);
}

#[test]
fn approximate_conserves_pool_exactly() {
    // Every trial hands out the whole pool, so the merged rationals sum to
    // the pool exactly, not merely within tolerance.
    let merged = run_sicm(&vec![40, 35, 15, 10], &vec![55, 25, 12, 8], 20_000, 3, 7);
    let pool: u128 = 55 + 25 + 12 + 8;
    let den = merged[0].den;
    let mut num_sum: u128 = 0;
    for r in merged.iter() {
        assert_eq!(r.den, den);
        num_sum += r.num;
    }
    assert_eq!(num_sum, pool * den);
}

#[test]
fn convergence_toward_exact_engine() {
    let stacks: Vec<u32> = vec![50, 30, 20];
    let payouts: Vec<u32> = vec![70, 20, 10];
    let exact: Vec<f64> = exact_expected(&stacks, &payouts).unwrap().iter().map(to_f64).collect();
    let deviation = |result: Vec<Rational>| -> f64 {
        result
            .iter()
            .map(to_f64)
            .zip(exact.iter())
            .map(|(a, e)| (a - e).abs())
            .fold(0.0f64, f64::max)
    };
    let rough = deviation(run_sicm(&stacks, &payouts, 10_000, 2, 23));
    let fine = deviation(run_sicm(&stacks, &payouts, 1_000_000, 2, 23));
    assert!(fine < 1.0, "large run off by {}", fine);
    assert!(fine <= rough + 0.05, "no convergence: {} vs {}", fine, rough);
}

#[test]
fn single_player_approximate_is_exact() {
    let merged = run_sicm(&vec![9], &vec![31], 1_000, 4, 3);
    assert_eq!(merged.len(), 1);
    assert_eq!(merged[0].num, 31 * 1_000);
    assert_eq!(merged[0].den, 1_000);
}
