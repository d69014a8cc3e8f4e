use yield_aggregator::allocation::{plan_allocation, targets_are_valid, total_of};
use yield_aggregator::error::ErrorCode;

#[test]
fn deposit_into_empty_venues_follows_targets() {
    let moves = plan_allocation(&vec![0, 0], &vec![6000, 4000], 100).unwrap();
    assert_eq!(moves, vec![60, 40]);
}

#[test]
fn deposit_skips_overweight_venue() {
    // Targets after the deposit are {66, 44}; the naive moves {-14, 24}
    // clamp to {0, 24} and scale down to the deposit.
    let moves = plan_allocation(&vec![80, 20], &vec![6000, 4000], 10).unwrap();
    assert_eq!(moves, vec![0, 10]);
}

#[test]
fn deposit_moves_are_never_negative_and_sum_to_deposit() {
    let cases: Vec<(Vec<u64>, Vec<u16>, i128)> = vec![
        (vec![80, 20], vec![6000, 4000], 10),
        (vec![0, 500, 7], vec![2500, 2500, 5000], 33),
        (vec![1000, 0, 0], vec![3333, 3333, 3334], 1),
        (vec![5, 5, 5, 5], vec![1000, 2000, 3000, 4000], 997),
        (vec![u64::MAX - 50, 0], vec![5000, 5000], 50),
    ];
    for (values, targets, d) in cases {
        let moves = plan_allocation(&values, &targets, d).unwrap();
        assert_eq!(moves.len(), values.len());
        assert!(moves.iter().all(|m| *m >= 0));
        assert_eq!(moves.iter().sum::<i128>(), d);
    }
}

#[test]
fn deposit_rounding_remainder_goes_to_largest_ratio() {
    // 10 splits as 3, 3, 3 with 1 left over for the 3334 venue.
    let moves = plan_allocation(&vec![0, 0, 0], &vec![3333, 3333, 3334], 10).unwrap();
    assert_eq!(moves, vec![3, 3, 4]);
}

#[test]
fn deposit_remainder_tie_goes_to_lowest_index() {
    let moves = plan_allocation(&vec![0, 0, 0], &vec![2500, 5000, 2500], 3).unwrap();
    // floors: 0, 1, 0 -> remainder 2 to the venue of largest ratio.
    assert_eq!(moves, vec![0, 3, 0]);
    let moves = plan_allocation(&vec![0, 0], &vec![5000, 5000], 3).unwrap();
    assert_eq!(moves, vec![2, 1]);
}

#[test]
fn deposit_scaled_remainder_goes_to_underweight_venue() {
    // Targets after 10 more: {40, 30, 30} of 100; gaps {-50, 30, 30}.
    // Each underweight venue gets 30 * 10 / 60 = 5.
    let moves = plan_allocation(&vec![90, 0, 0], &vec![4000, 3000, 3000], 10).unwrap();
    assert_eq!(moves, vec![0, 5, 5]);
    // 11 more: targets {41, 30, 30} of 101, gaps {-49, 30, 30}; each
    // underweight venue gets 30 * 11 / 60 = 5, and the 1 left over goes to
    // the first underweight venue of largest ratio.
    let moves = plan_allocation(&vec![90, 0, 0], &vec![4000, 3000, 3000], 11).unwrap();
    assert_eq!(moves, vec![0, 6, 5]);
}

#[test]
fn withdrawal_pulls_in_proportion_to_current_values() {
    let moves = plan_allocation(&vec![80, 20], &vec![6000, 4000], -50).unwrap();
    assert_eq!(moves, vec![-40, -10]);
}

#[test]
fn withdrawal_rounds_each_venue_down() {
    let moves = plan_allocation(&vec![1, 1, 1], &vec![3333, 3333, 3334], -2).unwrap();
    assert_eq!(moves, vec![0, 0, 0]);
    let moves = plan_allocation(&vec![10, 20, 30], &vec![3333, 3333, 3334], -31).unwrap();
    // 10*31/60 = 5, 20*31/60 = 10, 30*31/60 = 15.
    assert_eq!(moves, vec![-5, -10, -15]);
}

#[test]
fn withdrawal_of_everything_empties_every_venue() {
    let moves = plan_allocation(&vec![7, 0, 13], &vec![3333, 3333, 3334], -20).unwrap();
    assert_eq!(moves, vec![-7, 0, -13]);
}

#[test]
fn withdrawal_beyond_holdings_is_refused() {
    assert_eq!(
        plan_allocation(&vec![80, 20], &vec![6000, 4000], -101),
        Err(ErrorCode::InsufficientLiquidity)
    );
    assert_eq!(
        plan_allocation(&vec![80, 20], &vec![6000, 4000], i128::MIN),
        Err(ErrorCode::InsufficientLiquidity)
    );
}

#[test]
fn rebalance_moves_to_targets_with_both_legs() {
    let moves = plan_allocation(&vec![80, 20], &vec![6000, 4000], 0).unwrap();
    assert_eq!(moves, vec![-20, 20]);
    assert_eq!(moves.iter().sum::<i128>(), 0);
}

#[test]
fn rebalance_of_balanced_venues_moves_nothing() {
    let moves = plan_allocation(&vec![60, 40], &vec![6000, 4000], 0).unwrap();
    assert_eq!(moves, vec![0, 0]);
}

#[test]
fn rebalance_applied_twice_moves_nothing_the_second_time() {
    let targets = vec![3333, 3333, 3334];
    let values: Vec<u64> = vec![100, 0, 1];
    let first = plan_allocation(&values, &targets, 0).unwrap();
    let after: Vec<u64> = values
        .iter()
        .zip(first.iter())
        .map(|(v, m)| (*v as i128 + *m) as u64)
        .collect();
    assert_eq!(after, vec![33, 33, 35]);
    let second = plan_allocation(&after, &targets, 0).unwrap();
    assert_eq!(second, vec![0, 0, 0]);
}

#[test]
fn invalid_ratios_are_refused() {
    assert_eq!(
        plan_allocation(&vec![0, 0], &vec![6000, 3000], 100),
        Err(ErrorCode::InvalidAllocation)
    );
    assert_eq!(
        plan_allocation(&vec![0, 0, 0], &vec![6000, 4000], 100),
        Err(ErrorCode::InvalidAllocation)
    );
    assert_eq!(plan_allocation(&vec![], &vec![], 100), Err(ErrorCode::InvalidAllocation));
    assert_eq!(
        plan_allocation(&vec![0, 0], &vec![u16::MAX, 10_001], 0),
        Err(ErrorCode::InvalidAllocation)
    );
    assert!(!targets_are_valid(&vec![]));
    assert!(targets_are_valid(&vec![10_000]));
}

#[test]
fn pool_beyond_balance_range_is_refused() {
    assert_eq!(
        plan_allocation(&vec![u64::MAX, 1], &vec![5000, 5000], 0),
        Err(ErrorCode::NarrowingOverflow)
    );
    assert_eq!(
        plan_allocation(&vec![u64::MAX - 5, 0], &vec![5000, 5000], 6),
        Err(ErrorCode::NarrowingOverflow)
    );
}

#[test]
fn total_of_sums_wide() {
    assert_eq!(total_of(&vec![u64::MAX, u64::MAX, 2]), 2 * (u64::MAX as u128) + 2);
    assert_eq!(total_of(&vec![]), 0);
}

#[test]
fn deposit_never_adds_to_venue_above_floored_target() {
    // Floored targets of 2 are {0, 0, 0}: venue 0 holds 1 and is clamped,
    // the unit goes to the first other venue of largest ratio.
    let moves = plan_allocation(&vec![1, 0, 0], &vec![3334, 3333, 3333], 1).unwrap();
    assert_eq!(moves, vec![0, 1, 0]);
}

#[test]
fn deposit_shortfalls_below_deposit_are_filled_then_topped_up() {
    // Floored targets of 20 are {6, 6, 6}; shortfalls {6, 0, 6} sum to 12,
    // less than 14, so each is filled and the 2 left go to the venue of
    // largest ratio that is not above its target.
    let moves = plan_allocation(&vec![0, 6, 0], &vec![3333, 3333, 3334], 14).unwrap();
    assert_eq!(moves, vec![6, 0, 8]);
}
