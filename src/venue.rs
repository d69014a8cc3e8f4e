use crate::error::ErrorCode;
use crate::math::{mul_div, mul_div_floor};
use vstd::prelude::*;

verus! {

/// Fixed-point scale of venue exchange rates: underlying units per receipt
/// unit, times this.
pub const RATE_SCALE: u64 = 1_000_000;

/// Index of the Jupiter lending venue in a vault's per-venue lists.
pub const JUP_VENUE: usize = 0;

/// Index of the Kamino lending venue in a vault's per-venue lists.
pub const KAMINO_VENUE: usize = 1;

/// What the vault reads of a Jupiter lending market.
#[derive(Debug, Clone, Copy, PartialEq, Eq, Structural)]
pub struct Lending {
    /// Underlying per f-token, scaled by 10^12, rewards included.
    pub token_exchange_price: u64,
}

/// What the vault reads of a Kamino reserve's liquidity.
#[derive(Debug, Clone, Copy, PartialEq, Eq, Structural)]
pub struct ReserveLiquidity {
    pub available_amount: u64,
}

/// What the vault reads of a Kamino reserve's collateral.
#[derive(Debug, Clone, Copy, PartialEq, Eq, Structural)]
pub struct ReserveCollateral {
    pub mint_total_supply: u64,
}

/// What the vault reads of a Kamino reserve.
#[derive(Debug, Clone, Copy, PartialEq, Eq, Structural)]
pub struct Reserve {
    pub liquidity: ReserveLiquidity,
    pub collateral: ReserveCollateral,
}

impl Lending {
    /// Underlying per f-token, scaled by `RATE_SCALE`, rounded down.
    pub fn exchange_rate(&self) -> (r: u64)
        ensures
            r == self.token_exchange_price / 1_000_000,
    {
        self.token_exchange_price / 1_000_000
    }
}

impl Reserve {
    /// Underlying per collateral token, scaled by `RATE_SCALE`, rounded down.
    /// Fails when no collateral exists or the rate leaves the `u64` range.
    pub fn exchange_rate(&self) -> (r: Result<u64, ErrorCode>)
        ensures
            self.collateral.mint_total_supply == 0 ==> r == Err::<u64, ErrorCode>(
                ErrorCode::InvalidExchangeRate,
            ),
            self.collateral.mint_total_supply != 0 ==> {
                let q = mul_div(
                    self.liquidity.available_amount as int,
                    RATE_SCALE as int,
                    self.collateral.mint_total_supply as int,
                );
                &&& q <= u64::MAX ==> r == Ok::<u64, ErrorCode>(q as u64)
                &&& q > u64::MAX ==> r == Err::<u64, ErrorCode>(ErrorCode::NarrowingOverflow)
            },
    {
        if self.collateral.mint_total_supply == 0 {
            return Err(ErrorCode::InvalidExchangeRate);
        }
        match mul_div_floor(
            self.liquidity.available_amount,
            RATE_SCALE,
            self.collateral.mint_total_supply,
        ) {
            Some(q) => Ok(q),
            None => Err(ErrorCode::NarrowingOverflow),
        }
    }
}

/// Receipt units that `amount` of underlying buys at `rate`.
pub open spec fn receipt_units_of(amount: int, rate: int) -> int {
    mul_div(amount, RATE_SCALE as int, rate)
}

/// Converts an underlying amount to a venue's receipt units at `rate`
/// (underlying per receipt unit, scaled by `RATE_SCALE`), rounding down.
pub fn receipt_units(amount: u64, rate: u64) -> (r: Result<u64, ErrorCode>)
    ensures
        rate == 0 ==> r == Err::<u64, ErrorCode>(ErrorCode::InvalidExchangeRate),
        rate != 0 && receipt_units_of(amount as int, rate as int) <= u64::MAX ==> r == Ok::<
            u64,
            ErrorCode,
        >(receipt_units_of(amount as int, rate as int) as u64),
        rate != 0 && receipt_units_of(amount as int, rate as int) > u64::MAX ==> r == Err::<
            u64,
            ErrorCode,
        >(ErrorCode::NarrowingOverflow),
{
    if rate == 0 {
        return Err(ErrorCode::InvalidExchangeRate);
    }
    match mul_div_floor(amount, RATE_SCALE, rate) {
        Some(q) => Ok(q),
        None => Err(ErrorCode::NarrowingOverflow),
    }
}

/// The eight little-endian bytes of `x`.
pub open spec fn le_bytes(x: u64) -> Seq<u8> {
    Seq::new(8, |i: int| (x >> (8 * i) as u64) as u8)
}

/// Instruction tag of a Kamino deposit of reserve liquidity.
pub fn get_deposit_reserve_liquidity_discriminator() -> (r: Vec<u8>)
    ensures
        r@ == seq![169u8, 201u8, 30u8, 126u8, 6u8, 205u8, 102u8, 68u8],
{
    let mut r: Vec<u8> = Vec::new();
    r.push(169);
    r.push(201);
    r.push(30);
    r.push(126);
    r.push(6);
    r.push(205);
    r.push(102);
    r.push(68);
    assert(r@ =~= seq![169u8, 201u8, 30u8, 126u8, 6u8, 205u8, 102u8, 68u8]);
    r
}

/// Instruction tag of a Kamino redemption of reserve collateral.
pub fn get_redeem_reserve_collateral_discriminator() -> (r: Vec<u8>)
    ensures
        r@ == seq![234u8, 117u8, 181u8, 125u8, 185u8, 142u8, 220u8, 29u8],
{
    let mut r: Vec<u8> = Vec::new();
    r.push(234);
    r.push(117);
    r.push(181);
    r.push(125);
    r.push(185);
    r.push(142);
    r.push(220);
    r.push(29);
    assert(r@ =~= seq![234u8, 117u8, 181u8, 125u8, 185u8, 142u8, 220u8, 29u8]);
    r
}

/// Instruction data for a venue call: the tag, then the amount as eight
/// little-endian bytes.
pub fn instruction_data(discriminator: Vec<u8>, amount: u64) -> (r: Vec<u8>)
    ensures
        r@ == discriminator@ + le_bytes(amount),
{
    let mut r = discriminator;
    let ghost start = r@;
    let mut i: u64 = 0;
    while i < 8
        invariant
            i <= 8,
            r@ == start + le_bytes(amount).take(i as int),
        decreases 8 - i,
    {
        r.push((amount >> (8 * i)) as u8);
        assert(le_bytes(amount).take(i + 1) =~= le_bytes(amount).take(i as int).push(
            (amount >> (8 * i)) as u8,
        ));
        i = i + 1;
    }
    assert(le_bytes(amount).take(8) =~= le_bytes(amount));
    r
}

} // verus!
