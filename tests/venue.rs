use yield_aggregator::error::ErrorCode;
use yield_aggregator::venue::{
    get_deposit_reserve_liquidity_discriminator, get_redeem_reserve_collateral_discriminator,
    instruction_data, receipt_units, Lending, Reserve, ReserveCollateral, ReserveLiquidity,
};

fn reserve(available: u64, supply: u64) -> Reserve {
    Reserve {
        liquidity: ReserveLiquidity { available_amount: available },
        collateral: ReserveCollateral { mint_total_supply: supply },
    }
}

#[test]
fn discriminators_are_fixed_tags() {
    assert_eq!(get_deposit_reserve_liquidity_discriminator(), vec![169, 201, 30, 126, 6, 205, 102, 68]);
    assert_eq!(get_redeem_reserve_collateral_discriminator(), vec![234, 117, 181, 125, 185, 142, 220, 29]);
}

#[test]
fn instruction_data_appends_little_endian_amount() {
    let data = instruction_data(get_deposit_reserve_liquidity_discriminator(), 0x0102_0304_0506_0708);
    assert_eq!(
        data,
        vec![169, 201, 30, 126, 6, 205, 102, 68, 8, 7, 6, 5, 4, 3, 2, 1]
    );
    let amount: u64 = 50_000_000;
    let mut expected = get_redeem_reserve_collateral_discriminator();
    expected.extend_from_slice(&amount.to_le_bytes());
    assert_eq!(instruction_data(get_redeem_reserve_collateral_discriminator(), amount), expected);
}

#[test]
fn jup_rate_drops_six_decimals() {
    let l = Lending { token_exchange_price: 1_050_000_123_456 };
    assert_eq!(l.exchange_rate(), 1_050_000);
}

#[test]
fn kamino_rate_is_liquidity_per_collateral() {
    assert_eq!(reserve(2_000_000, 1_000_000).exchange_rate(), Ok(2_000_000));
    assert_eq!(reserve(1, 3).exchange_rate(), Ok(333_333));
    assert_eq!(reserve(5, 0).exchange_rate(), Err(ErrorCode::InvalidExchangeRate));
    assert_eq!(reserve(u64::MAX, 1).exchange_rate(), Err(ErrorCode::NarrowingOverflow));
}

#[test]
fn receipt_units_round_down() {
    assert_eq!(receipt_units(1_000, 2_000_000), Ok(500));
    assert_eq!(receipt_units(1_001, 3_000_000), Ok(333));
    assert_eq!(receipt_units(1, 0), Err(ErrorCode::InvalidExchangeRate));
    assert_eq!(receipt_units(u64::MAX, 1), Err(ErrorCode::NarrowingOverflow));
}
