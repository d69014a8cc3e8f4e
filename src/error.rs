use vstd::prelude::*;

verus! {

/// Every failure the vault reports. No operation that returns one of these
/// has changed any state.
#[derive(Debug, Clone, Copy, PartialEq, Eq, Structural)]
pub enum ErrorCode {
    /// Target ratios do not sum to 10,000 basis points, or per-venue lists
    /// disagree in length.
    InvalidAllocation,
    /// A withdrawal asks for more than the pool or the venues hold.
    InsufficientLiquidity,
    /// Yield was observed while no shares exist; it stays unbooked.
    ZeroShareYieldLoss,
    /// A wide intermediate result does not fit the narrow balance type.
    NarrowingOverflow,
    /// A balance or counter would leave its integer range.
    MathOverflow,
    /// A venue reported an exchange rate that cannot convert amounts.
    InvalidExchangeRate,
    /// Balances handed to a state sync do not add up to the total.
    InconsistentBalances,
}

} // verus!
