use icm_engines::exact::exact_expected;
use icm_engines::errors::IcmError;
use icm_engines::rat::Rational;

fn to_f64(r: &Rational) -> f64 {
    (r.num as f64) / (r.den as f64)
}

#[test]
fn literal_scenario_exact() {
    let stacks: Vec<u32> = vec![50, 30, 20];
    let payouts: Vec<u32> = vec![70, 20, 10];
    let out = exact_expected(&stacks, &payouts).unwrap();
    assert_eq!(out.len(), 3);
    let v: Vec<f64> = out.iter().map(to_f64).collect();
    assert!((v[0] - 43.39).abs() < 0.05, "got {}", v[0]);
    assert!((v[1] - 31.75).abs() < 0.05, "got {}", v[1]);
    assert!((v[2] - 24.86).abs() < 0.05, "got {}", v[2]);
    let sum: f64 = v.iter().sum();
    assert!((sum - 100.0).abs() < 1e-9, "pool not conserved: {}", sum);
}

#[test]
fn literal_scenario_any_payout_order() {
    // The engine sorts the ladder best-first itself.
    let stacks: Vec<u32> = vec![50, 30, 20];
    let shuffled: Vec<u32> = vec![10, 70, 20];
    let ordered: Vec<u32> = vec![70, 20, 10];
    let a = exact_expected(&stacks, &shuffled).unwrap();
    let b = exact_expected(&stacks, &ordered).unwrap();
    for i in 0..3 {
        assert_eq!(a[i].num, b[i].num);
        assert_eq!(a[i].den, b[i].den);
    }
}

#[test]
fn degenerate_single_player() {
    let out = exact_expected(&vec![77], &vec![42]).unwrap();
    assert_eq!(out.len(), 1);
    assert_eq!(out[0].num, 42);
    assert_eq!(out[0].den, 1);
}

#[test]
fn two_player_closed_form() {
    // E[0] = (60*50 + 40*20) / 100 = 38, E[1] = (40*50 + 60*20) / 100 = 32.
    let out = exact_expected(&vec![60, 40], &vec![50, 20]).unwrap();
    assert!((to_f64(&out[0]) - 38.0).abs() < 1e-9);
    assert!((to_f64(&out[1]) - 32.0).abs() < 1e-9);
}

#[test]
fn symmetry_equal_stacks() {
    // Two players with identical stacks expect identical payouts, exactly:
    // compare the rationals by cross multiplication.
    let out = exact_expected(&vec![30, 30, 40], &vec![60, 30, 10]).unwrap();
    assert_eq!(out[0].num * out[1].den, out[1].num * out[0].den);
}

#[test]
fn symmetry_equal_stacks_apart() {
    let out = exact_expected(&vec![30, 40, 30], &vec![60, 30, 10]).unwrap();
    assert_eq!(out[0].num * out[2].den, out[2].num * out[0].den);
}

#[test]
fn unit_payouts_give_unit_expectations() {
    // Every rank pays 1, so each player's expected payout is the total
    // probability mass over all finishing orders: exactly 1.
    let out = exact_expected(&vec![9, 5, 3, 1], &vec![1, 1, 1, 1]).unwrap();
    for r in out.iter() {
        assert_eq!(r.num, r.den);
    }
}

#[test]
fn monotonicity_bigger_stack_bigger_payout() {
    let out = exact_expected(&vec![50, 30, 20], &vec![70, 20, 10]).unwrap();
    assert!(out[0].num * out[1].den >= out[1].num * out[0].den);
    assert!(out[1].num * out[2].den >= out[2].num * out[1].den);
}

#[test]
fn conservation_various_fields() {
    let cases: Vec<(Vec<u32>, Vec<u32>)> = vec![
        (vec![1, 1], vec![5, 0]),
        (vec![9, 4, 2], vec![10, 6, 1]),
        (vec![8, 8, 8, 8], vec![40, 30, 20, 10]),
    ];
    for (stacks, payouts) in cases {
        let pool: u32 = payouts.iter().sum();
        let out = exact_expected(&stacks, &payouts).unwrap();
        let sum: f64 = out.iter().map(to_f64).sum();
        assert!((sum - pool as f64).abs() < 1e-9, "pool {} vs {}", pool, sum);
    }
}

#[test]
fn two_player_field_always_succeeds() {
    // Success is owed on every valid two-player field, however large the
    // chips: E[0] = (a*p0 + b*p1) / (a + b).
    let a: u32 = u32::MAX;
    let b: u32 = 1;
    let out = exact_expected(&vec![a, b], &vec![u32::MAX, 0]).unwrap();
    let total = a as u128 + b as u128;
    let prize = u32::MAX as u128;
    // Unreduced: E[0] = a*prize*total / total^2 = a*prize/total.
    assert_eq!(out[0].num, (a as u128) * prize * total);
    assert_eq!(out[0].den, total * total);
    assert_eq!(out[1].num, (b as u128) * prize * total);
    assert_eq!(out[1].den, total * total);
}

#[test]
fn bounded_trio_succeeds_at_the_limit() {
    // Three players with chips and prizes at the proved bound of 1000:
    // success is owed, and with a flat ladder everyone expects exactly 1000.
    let out = exact_expected(&vec![1000, 1000, 1000], &vec![1000, 1000, 1000]).unwrap();
    for r in out.iter() {
        assert_eq!(r.num, 1000 * r.den);
    }
}

#[test]
fn huge_field_reports_overflow() {
    // Three players with chip counts near the u32 ceiling push the exact
    // denominators past u128: the engine reports it rather than rounding.
    let stacks: Vec<u32> = vec![u32::MAX, u32::MAX - 1, u32::MAX - 2];
    let payouts: Vec<u32> = vec![100, 50, 25];
    assert_eq!(exact_expected(&stacks, &payouts).unwrap_err(), IcmError::Overflow);
}

#[test]
fn rejects_bad_inputs() {
    assert_eq!(exact_expected(&vec![], &vec![]).unwrap_err(), IcmError::EmptyInput);
    assert_eq!(exact_expected(&vec![5, 0], &vec![1, 1]).unwrap_err(), IcmError::ZeroStack);
    assert_eq!(exact_expected(&vec![5, 5], &vec![1]).unwrap_err(), IcmError::LengthMismatch);
}
