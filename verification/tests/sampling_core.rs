use icm_engines::errors::IcmError;
use icm_engines::inputs::{normalize_payouts, validate_stacks};
use icm_engines::sampling::{aggregate, check_ranking, derive_weights, partition_trials, plan_trials, RngMode, TrialAccumulator};

#[test]
fn validation() {
    assert!(validate_stacks(&vec![1, 2, 3]).is_ok());
    assert_eq!(validate_stacks(&vec![]).unwrap_err(), IcmError::EmptyInput);
    assert_eq!(validate_stacks(&vec![3, 0, 1]).unwrap_err(), IcmError::ZeroStack);
}

#[test]
fn normalization_pads_and_truncates() {
    assert_eq!(normalize_payouts(5, &vec![9, 8]), vec![9, 8, 0, 0, 0]);
    assert_eq!(normalize_payouts(2, &vec![9, 8, 7, 6]), vec![9, 8]);
    assert_eq!(normalize_payouts(3, &vec![5, 4, 3]), vec![5, 4, 3]);
}

#[test]
fn weights_are_average_over_stack() {
    // total = 100, n = 3: weight[i] = 100 / (3 * stack[i]).
    let w = derive_weights(&vec![50, 30, 20]).unwrap();
    assert_eq!((w[0].num, w[0].den), (100, 150));
    assert_eq!((w[1].num, w[1].den), (100, 90));
    assert_eq!((w[2].num, w[2].den), (100, 60));
    assert_eq!(derive_weights(&vec![]).unwrap_err(), IcmError::EmptyInput);
    assert_eq!(derive_weights(&vec![1, 0]).unwrap_err(), IcmError::ZeroStack);
}

#[test]
fn partition_exactness() {
    // The remainder goes whole to the first worker and nothing is lost.
    let cases: Vec<(u32, u32)> = vec![(10, 3), (1_000_000, 7), (5, 5), (3, 5), (1, 1), (13, 4)];
    for (t, w) in cases {
        let parts = partition_trials(t, w).unwrap();
        assert_eq!(parts.len(), w as usize);
        let sum: u64 = parts.iter().map(|x| *x as u64).sum();
        assert_eq!(sum, t as u64, "T={} W={}", t, w);
        assert_eq!(parts[0], t / w + t % w);
        for k in 1..parts.len() {
            assert_eq!(parts[k], t / w);
        }
    }
    assert_eq!(partition_trials(0, 3).unwrap_err(), IcmError::ZeroTrials);
    assert_eq!(partition_trials(5, 0).unwrap_err(), IcmError::ZeroWorkers);
}

#[test]
fn ranking_check() {
    assert!(check_ranking(&vec![2, 0, 1], 3));
    assert!(!check_ranking(&vec![2, 0], 3));
    assert!(!check_ranking(&vec![2, 0, 2], 3));
    assert!(!check_ranking(&vec![3, 0, 1], 3));
}

#[test]
fn accumulator_credits_by_rank() {
    let mut acc = TrialAccumulator::new(3);
    // Ascending payouts: rank 0 (worst) pays 10, rank 2 (best) pays 70.
    let payouts: Vec<u32> = vec![10, 20, 70];
    acc.record(&vec![2, 1, 0], &payouts).unwrap();
    assert_eq!(acc.sums, vec![70, 20, 10]);
    assert_eq!(acc.trials, 1);
    acc.record(&vec![0, 1, 2], &payouts).unwrap();
    assert_eq!(acc.sums, vec![80, 40, 80]);
    assert_eq!(acc.trials, 2);
    assert_eq!(
        acc.record(&vec![0, 0, 1], &payouts).unwrap_err(),
        IcmError::InvalidRanking
    );
    assert_eq!(acc.record(&vec![0, 1, 2], &vec![1]).unwrap_err(), IcmError::LengthMismatch);
}

#[test]
fn aggregate_divides_grand_totals() {
    let payouts: Vec<u32> = vec![10, 20, 70];
    let mut a = TrialAccumulator::new(3);
    a.record(&vec![0, 1, 2], &payouts).unwrap();
    let mut b = TrialAccumulator::new(3);
    b.record(&vec![2, 1, 0], &payouts).unwrap();
    let merged = aggregate(&vec![a, b]).unwrap();
    assert_eq!((merged[0].num, merged[0].den), (80, 2));
    assert_eq!((merged[1].num, merged[1].den), (40, 2));
    assert_eq!((merged[2].num, merged[2].den), (80, 2));
    assert_eq!(aggregate(&vec![]).unwrap_err(), IcmError::ZeroWorkers);
    let fresh = TrialAccumulator::new(2);
    assert_eq!(aggregate(&vec![fresh]).unwrap_err(), IcmError::ZeroTrials);
    let c = TrialAccumulator::new(2);
    let d = TrialAccumulator::new(3);
    assert_eq!(aggregate(&vec![c, d]).unwrap_err(), IcmError::MismatchedParts);
}

#[test]
fn plan_fixes_every_decision() {
    let plan = plan_trials(&vec![50, 30, 20], &vec![70, 20, 10], 10, 3, RngMode::Fast).unwrap();
    assert_eq!(plan.payouts_ascending, vec![10, 20, 70]);
    assert_eq!(plan.worker_trials, vec![4, 3, 3]);
    assert_eq!(plan.weights.len(), 3);
    assert_eq!(plan.mode, RngMode::Fast);
    assert_eq!(
        plan_trials(&vec![1, 1], &vec![1, 1], 0, 1, RngMode::GeneralPurpose).unwrap_err(),
        IcmError::ZeroTrials
    );
    assert_eq!(
        plan_trials(&vec![1, 1], &vec![1, 1], 9, 0, RngMode::GeneralPurpose).unwrap_err(),
        IcmError::ZeroWorkers
    );
    assert_eq!(
        plan_trials(&vec![1, 1], &vec![1], 9, 1, RngMode::Fast).unwrap_err(),
        IcmError::LengthMismatch
    );
}

#[test]
fn single_player_trials_pay_exactly() {
    let plan = plan_trials(&vec![5], &vec![9], 10, 2, RngMode::Fast).unwrap();
    let mut parts: Vec<TrialAccumulator> = Vec::new();
    for share in plan.worker_trials.iter() {
        let mut acc = TrialAccumulator::new(1);
        for _ in 0..*share {
            acc.record(&vec![0], &plan.payouts_ascending).unwrap();
        }
        parts.push(acc);
    }
    let merged = aggregate(&parts).unwrap();
    // 10 trials of 9 chips over 10 trials: exactly 9.
    assert_eq!(merged[0].num, 90);
    assert_eq!(merged[0].den, 10);
}
