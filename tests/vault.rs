use yield_aggregator::error::ErrorCode;
use yield_aggregator::ledger::{ShareLedger, UserPosition};
use yield_aggregator::vault::{split_legs, AllocationMode, Vault};
use yield_aggregator::venue::RATE_SCALE;

fn empty_position() -> UserPosition {
    UserPosition { shares: 0, reward_debt: 0, pending_rewards: 0, last_updated: 0 }
}

fn vault_with(targets: Vec<u16>) -> Vault {
    Vault::initialize_vault([1; 32], [2; 32], targets, 100).unwrap()
}

#[test]
fn initialize_rejects_invalid_ratios() {
    assert_eq!(
        Vault::initialize_vault([1; 32], [2; 32], vec![5000, 4000], 0).err(),
        Some(ErrorCode::InvalidAllocation)
    );
    assert_eq!(
        Vault::initialize_vault([1; 32], [2; 32], vec![], 0).err(),
        Some(ErrorCode::InvalidAllocation)
    );
}

#[test]
fn initialize_starts_empty() {
    let v = vault_with(vec![6000, 4000]);
    assert_eq!(v.ledger, ShareLedger::new());
    assert_eq!(v.value_in_venue, vec![0, 0]);
    assert_eq!(v.last_snapshot_value, vec![0, 0]);
    assert_eq!(v.target_ratio, vec![6000, 4000]);
    assert_eq!(v.unallocated, 0);
    assert_eq!(v.config.mode, AllocationMode::Static);
    assert_eq!(v.config.last_rebalanced_at, 100);
    assert!(v.is_active);
    assert_eq!(v.authority, [1; 32]);
    assert_eq!(v.usdc_mint, [2; 32]);
}

#[test]
fn deposit_books_the_split() {
    let mut v = vault_with(vec![6000, 4000]);
    let mut p = empty_position();
    assert_eq!(v.deposit(&mut p, 100, 5), Ok(vec![60, 40]));
    assert_eq!(v.value_in_venue, vec![60, 40]);
    assert_eq!(v.ledger.total_underlying, 100);
    assert_eq!(v.ledger.total_shares, 100);
    assert_eq!(p.shares, 100);
    assert_eq!(v.last_update_ts, 5);
    assert_eq!(v.deposit(&mut p, 10, 6), Ok(vec![6, 4]));
    assert_eq!(v.value_in_venue, vec![66, 44]);
}

#[test]
fn plan_withdraw_converts_through_rates() {
    let mut v = vault_with(vec![6000, 4000]);
    let mut p = empty_position();
    v.deposit(&mut p, 100, 5).unwrap();
    let plan = v.plan_withdraw(&p, 50, &vec![RATE_SCALE, 2 * RATE_SCALE]).unwrap();
    assert_eq!(plan.owed, 50);
    assert_eq!(plan.amounts, vec![30, 20]);
    assert_eq!(plan.receipts, vec![30, 10]);
    // Quoting changes nothing.
    assert_eq!(v.ledger.total_shares, 100);
    assert_eq!(p.shares, 100);
}

#[test]
fn plan_withdraw_refuses_zero_rate_only_where_it_pulls() {
    let mut v = vault_with(vec![10_000, 0]);
    let mut p = empty_position();
    v.deposit(&mut p, 100, 5).unwrap();
    assert_eq!(v.value_in_venue, vec![100, 0]);
    let plan = v.plan_withdraw(&p, 10, &vec![RATE_SCALE, 0]).unwrap();
    assert_eq!(plan.receipts, vec![10, 0]);
    assert_eq!(
        v.plan_withdraw(&p, 10, &vec![0, RATE_SCALE]).err(),
        Some(ErrorCode::InvalidExchangeRate)
    );
}

#[test]
fn plan_withdraw_refuses_more_than_venues_hold() {
    let mut v = vault_with(vec![6000, 4000]);
    let mut p = empty_position();
    v.deposit(&mut p, 100, 5).unwrap();
    let mut big = UserPosition { shares: 1000, reward_debt: 0, pending_rewards: 0, last_updated: 0 };
    assert_eq!(
        v.plan_withdraw(&big, 101, &vec![RATE_SCALE, RATE_SCALE]).err(),
        Some(ErrorCode::InsufficientLiquidity)
    );
    assert_eq!(
        v.settle_withdraw(&mut big, 101, &vec![0, 0], 9),
        Err(ErrorCode::InsufficientLiquidity)
    );
}

#[test]
fn short_venue_payout_pays_the_lesser_and_books_what_left() {
    let mut v = vault_with(vec![6000, 4000]);
    let mut p = empty_position();
    v.deposit(&mut p, 100, 5).unwrap();
    let plan = v.plan_withdraw(&p, 50, &vec![RATE_SCALE, RATE_SCALE]).unwrap();
    assert_eq!(plan.amounts, vec![30, 20]);
    // The first venue returns 29 instead of 30.
    assert_eq!(v.settle_withdraw(&mut p, 50, &vec![29, 20], 9), Ok(49));
    assert_eq!(v.ledger.total_underlying, 51);
    assert_eq!(v.ledger.total_shares, 50);
    assert_eq!(v.value_in_venue, vec![31, 20]);
    assert_eq!(v.unallocated, 0);
    assert_eq!(p.shares, 50);
    assert_eq!(v.last_update_ts, 9);
}

#[test]
fn surplus_venue_payout_stays_as_cash() {
    let mut v = vault_with(vec![6000, 4000]);
    let mut p = empty_position();
    v.deposit(&mut p, 100, 5).unwrap();
    assert_eq!(v.settle_withdraw(&mut p, 50, &vec![31, 20], 9), Ok(50));
    assert_eq!(v.unallocated, 1);
    assert_eq!(v.value_in_venue, vec![29, 20]);
    assert_eq!(v.ledger.total_underlying, 50);
}

#[test]
fn payout_beyond_booked_value_is_booked_as_gain() {
    let mut v = vault_with(vec![6000, 4000]);
    let mut p = empty_position();
    v.deposit(&mut p, 100, 5).unwrap();
    assert_eq!(v.settle_withdraw(&mut p, 100, &vec![61, 40], 9), Ok(100));
    assert_eq!(v.value_in_venue, vec![0, 0]);
    assert_eq!(v.unallocated, 1);
    assert_eq!(v.ledger.total_underlying, 1);
    assert_eq!(v.ledger.total_shares, 0);
}

#[test]
fn vault_round_trip_loses_under_one_unit_per_venue() {
    let mut v = vault_with(vec![3333, 3333, 3334]);
    let mut p = empty_position();
    let mut q = empty_position();
    v.deposit(&mut q, 10, 1).unwrap();
    v.deposit(&mut p, 1001, 2).unwrap();
    let minted = p.shares;
    let rates = vec![RATE_SCALE; 3];
    let plan = v.plan_withdraw(&p, minted, &rates).unwrap();
    assert_eq!(plan.owed, 1001);
    let paid = v.settle_withdraw(&mut p, minted, &plan.amounts, 3).unwrap();
    assert!(paid <= 1001 && paid > 1001 - 3);
    assert_eq!(paid, plan.amounts.iter().sum::<u64>());
}

#[test]
fn rebalance_reaches_targets_and_is_idempotent() {
    let mut v = vault_with(vec![6000, 4000]);
    let mut p = empty_position();
    v.deposit(&mut p, 100, 5).unwrap();
    v.accrue_yield(0, 20).unwrap();
    assert_eq!(v.value_in_venue, vec![80, 40]);
    let moves = v.rebalance(50);
    assert_eq!(moves, vec![-8, 8]);
    assert_eq!(v.value_in_venue, vec![72, 48]);
    assert_eq!(v.last_snapshot_value, vec![72, 48]);
    assert_eq!(v.config.last_rebalanced_at, 50);
    assert_eq!(v.rebalance(60), vec![0, 0]);
    assert_eq!(v.value_in_venue, vec![72, 48]);
}

#[test]
fn dynamic_mode_rebalance_moves_nothing() {
    let mut v = vault_with(vec![6000, 4000]);
    let mut p = empty_position();
    v.deposit(&mut p, 100, 5).unwrap();
    v.accrue_yield(0, 20).unwrap();
    v.config.mode = AllocationMode::Dynamic;
    assert_eq!(v.rebalance(50), vec![0, 0]);
    assert_eq!(v.value_in_venue, vec![80, 40]);
}

#[test]
fn accrue_yield_grows_venue_and_share_value() {
    let mut v = vault_with(vec![6000, 4000]);
    assert_eq!(v.accrue_yield(1, 5), Err(ErrorCode::ZeroShareYieldLoss));
    assert_eq!(v.value_in_venue, vec![0, 0]);
    let mut p = empty_position();
    v.deposit(&mut p, 1000, 5).unwrap();
    v.accrue_yield(1, 100).unwrap();
    assert_eq!(v.value_in_venue, vec![600, 500]);
    assert_eq!(v.ledger.total_underlying, 1100);
    assert_eq!(v.ledger.acc_per_share, 100_000_000_000);
    let mut q = empty_position();
    v.deposit(&mut q, 500, 6).unwrap();
    assert_eq!(q.shares, 454);
}

#[test]
fn sync_validates_ratios_and_totals() {
    let mut v = vault_with(vec![6000, 4000]);
    assert_eq!(
        v.sync_vault_state(vec![6000, 3000], vec![1, 2], 0, 3, vec![1, 2], 7),
        Err(ErrorCode::InvalidAllocation)
    );
    assert_eq!(
        v.sync_vault_state(vec![6000, 4000], vec![1, 2], 0, 3, vec![1], 7),
        Err(ErrorCode::InvalidAllocation)
    );
    assert_eq!(
        v.sync_vault_state(vec![6000, 4000], vec![1, 2], 0, 2, vec![1, 2], 7),
        Err(ErrorCode::InconsistentBalances)
    );
    assert_eq!(v.value_in_venue, vec![0, 0]);
    assert_eq!(
        v.sync_vault_state(vec![5000, 5000], vec![1, 2], 9, 3, vec![0, 1], 7),
        Ok(())
    );
    assert_eq!(v.target_ratio, vec![5000, 5000]);
    assert_eq!(v.value_in_venue, vec![1, 2]);
    assert_eq!(v.last_snapshot_value, vec![0, 1]);
    assert_eq!(v.ledger.acc_per_share, 9);
    assert_eq!(v.ledger.total_underlying, 3);
    assert_eq!(v.unallocated, 0);
    assert_eq!(v.last_update_ts, 7);
}

#[test]
fn sync_takes_cash_from_the_total() {
    let mut v = vault_with(vec![6000, 4000]);
    assert_eq!(
        v.sync_vault_state(vec![6000, 4000], vec![10, 20], 0, 31, vec![10, 20], 7),
        Ok(())
    );
    assert_eq!(v.unallocated, 1);
    assert_eq!(v.ledger.total_underlying, 31);
}

#[test]
fn venue_gain_raises_yield_per_remaining_share() {
    let mut v = vault_with(vec![6000, 4000]);
    let mut p = empty_position();
    v.deposit(&mut p, 100, 5).unwrap();
    // The first venue pays 61 though it had 60 booked: 1 is realised yield.
    assert_eq!(v.settle_withdraw(&mut p, 50, &vec![61, 0], 9), Ok(50));
    assert_eq!(v.value_in_venue, vec![0, 40]);
    assert_eq!(v.unallocated, 11);
    assert_eq!(v.ledger.total_underlying, 51);
    assert_eq!(v.ledger.total_shares, 50);
    assert_eq!(v.ledger.acc_per_share, 20_000_000_000);
}

#[test]
fn needs_rebalance_only_when_off_target() {
    let mut v = vault_with(vec![6000, 4000]);
    assert!(!v.needs_rebalance());
    let mut p = empty_position();
    v.deposit(&mut p, 100, 5).unwrap();
    assert!(!v.needs_rebalance());
    v.accrue_yield(0, 20).unwrap();
    assert!(v.needs_rebalance());
    v.config.mode = AllocationMode::Dynamic;
    assert!(!v.needs_rebalance());
    v.config.mode = AllocationMode::Static;
    v.rebalance(9);
    assert!(!v.needs_rebalance());
}

#[test]
fn split_legs_separates_withdrawals_from_deposits() {
    let legs = split_legs(&vec![-8, 8, 0, -(u64::MAX as i128)]);
    assert_eq!(legs.withdrawals, vec![8, 0, 0, u64::MAX]);
    assert_eq!(legs.deposits, vec![0, 8, 0, 0]);
}
