use yield_aggregator::error::ErrorCode;
use yield_aggregator::ledger::{ShareLedger, UserPosition};
use yield_aggregator::math::{mul_div_floor, SCALER};

fn empty_position() -> UserPosition {
    UserPosition { shares: 0, reward_debt: 0, pending_rewards: 0, last_updated: 0 }
}

#[test]
fn first_deposit_mints_one_share_per_unit() {
    let mut l = ShareLedger::new();
    let mut p = empty_position();
    assert_eq!(l.deposit(&mut p, 1000, 7), Ok(1000));
    assert_eq!(l, ShareLedger { total_shares: 1000, total_underlying: 1000, acc_per_share: 0 });
    assert_eq!(p.shares, 1000);
    assert_eq!(p.reward_debt, 0);
    assert_eq!(p.last_updated, 7);
}

#[test]
fn later_deposit_after_yield_is_diluted_to_pool_value() {
    let mut l = ShareLedger::new();
    let mut first = empty_position();
    let mut second = empty_position();
    assert_eq!(l.deposit(&mut first, 1000, 1), Ok(1000));
    assert_eq!(l.accrue_yield(100), Ok(()));
    assert_eq!(l.acc_per_share, (100 * SCALER / 1000) as u64);
    assert_eq!(l.total_underlying, 1100);
    // 500 * 1000 / 1100, rounded down.
    assert_eq!(l.deposit(&mut second, 500, 2), Ok(454));
    assert_eq!(second.shares, 454);
    assert_eq!(second.reward_debt, 454 * (l.acc_per_share as u128));
    assert_eq!(l.total_shares, 1454);
    assert_eq!(l.total_underlying, 1600);
}

#[test]
fn deposit_settles_pending_yield() {
    let mut l = ShareLedger::new();
    let mut p = empty_position();
    l.deposit(&mut p, 1000, 1).unwrap();
    l.accrue_yield(100).unwrap();
    l.deposit(&mut p, 1100, 2).unwrap();
    assert_eq!(p.pending_rewards, 100);
    assert_eq!(p.shares, 2000);
    assert_eq!(p.reward_debt, 2000 * (l.acc_per_share as u128));
}

#[test]
fn withdraw_pays_shares_at_pool_value() {
    let mut l = ShareLedger::new();
    let mut p = empty_position();
    l.deposit(&mut p, 1000, 1).unwrap();
    l.accrue_yield(100).unwrap();
    // 300 * 1100 / 1000 = 330.
    assert_eq!(l.withdraw(&mut p, 300, 5), Ok(330));
    assert_eq!(l.total_shares, 700);
    assert_eq!(l.total_underlying, 770);
    assert_eq!(p.shares, 700);
    assert_eq!(p.pending_rewards, 100);
    assert_eq!(p.reward_debt, 700 * (l.acc_per_share as u128));
    assert_eq!(p.last_updated, 5);
}

#[test]
fn withdraw_more_than_outstanding_is_refused() {
    let mut l = ShareLedger { total_shares: 10, total_underlying: 10, acc_per_share: 0 };
    let mut p = UserPosition { shares: 20, reward_debt: 0, pending_rewards: 0, last_updated: 0 };
    assert_eq!(l.withdraw(&mut p, 11, 1), Err(ErrorCode::InsufficientLiquidity));
    assert_eq!(l.total_shares, 10);
    assert_eq!(p.shares, 20);
}

#[test]
fn round_trip_without_yield_returns_the_deposit() {
    let mut l = ShareLedger::new();
    let mut a = empty_position();
    let mut b = empty_position();
    l.deposit(&mut a, 777, 1).unwrap();
    let minted = l.deposit(&mut b, 12345, 2).unwrap();
    assert_eq!(l.withdraw(&mut b, minted, 3), Ok(12345));
    assert_eq!(l.total_shares, 777);
    assert_eq!(l.total_underlying, 777);
}

#[test]
fn round_trip_after_yield_loses_only_rounding() {
    let mut l = ShareLedger::new();
    let mut a = empty_position();
    let mut b = empty_position();
    l.deposit(&mut a, 1000, 1).unwrap();
    l.accrue_yield(100).unwrap();
    let minted = l.deposit(&mut b, 500, 2).unwrap();
    let owed = l.withdraw(&mut b, minted, 3).unwrap();
    // 454 * 1600 / 1454 = 499.
    assert_eq!(owed, 499);
    assert!(owed <= 500);
}

#[test]
fn shares_and_value_are_conserved_without_yield() {
    let mut l = ShareLedger::new();
    let mut ps = vec![empty_position(), empty_position(), empty_position()];
    l.deposit(&mut ps[0], 500, 1).unwrap();
    l.deposit(&mut ps[1], 250, 2).unwrap();
    l.withdraw(&mut ps[0], 120, 3).unwrap();
    l.deposit(&mut ps[2], 9, 4).unwrap();
    l.withdraw(&mut ps[1], 250, 5).unwrap();
    l.deposit(&mut ps[0], 1, 6).unwrap();
    let shares: u64 = ps.iter().map(|p| p.shares).sum();
    assert_eq!(shares, l.total_shares);
    let value: u64 = ps
        .iter()
        .map(|p| p.shares * l.total_underlying / l.total_shares)
        .sum();
    assert_eq!(value, l.total_underlying);
    assert_eq!(l.total_underlying, 390);
}

#[test]
fn yield_without_shares_is_reported_and_not_booked() {
    let mut l = ShareLedger::new();
    assert_eq!(l.accrue_yield(100), Err(ErrorCode::ZeroShareYieldLoss));
    assert_eq!(l, ShareLedger::new());
}

#[test]
fn overflowing_deposit_changes_nothing() {
    let mut l = ShareLedger { total_shares: 10, total_underlying: u64::MAX - 1, acc_per_share: 0 };
    let mut p = empty_position();
    assert_eq!(l.deposit(&mut p, 2, 1), Err(ErrorCode::MathOverflow));
    assert_eq!(l.total_underlying, u64::MAX - 1);
    assert_eq!(p, empty_position());
}

#[test]
fn overflowing_yield_changes_nothing() {
    let mut l = ShareLedger { total_shares: 1, total_underlying: 1, acc_per_share: 0 };
    assert_eq!(l.accrue_yield(u64::MAX / 2), Err(ErrorCode::MathOverflow));
    assert_eq!(l.acc_per_share, 0);
}

#[test]
fn mul_div_floor_rounds_down_and_checks_range() {
    assert_eq!(mul_div_floor(7, 3, 2), Some(10));
    assert_eq!(mul_div_floor(u64::MAX, u64::MAX, u64::MAX), Some(u64::MAX));
    assert_eq!(mul_div_floor(u64::MAX, 2, 1), None);
    assert_eq!(mul_div_floor(1, 1, 0), None);
}
