use vstd::arithmetic::div_mod::{lemma_fundamental_div_mod, lemma_mod_bound};
use crate::seqsum::seq_sum;
use vstd::prelude::*;

verus! {

/// Fixed-point scale of the accumulated yield per share.
pub const SCALER: u64 = 1_000_000_000_000;

/// A whole in basis points: target ratios sum to this.
pub const BPS_TOTAL: u64 = 10_000;

/// `a * b / c`, rounded down, computed in 128 bits.
pub open spec fn mul_div(a: int, b: int, c: int) -> int {
    a * b / c
}

pub proof fn lemma_mul_fits_u128(a: u64, b: u64)
    ensures
        0 <= a as int * b as int <= u128::MAX,
{
    assert(0 <= a as int * b as int <= u64::MAX as int * u64::MAX as int) by (nonlinear_arith);
}

/// Rounding `x` down to a multiple of `c` loses less than `c`.
pub proof fn lemma_floor_bounds(x: int, c: int)
    requires
        x >= 0,
        c > 0,
    ensures
        x / c >= 0,
        (x / c) * c <= x,
        x < (x / c) * c + c,
{
    lemma_fundamental_div_mod(x, c);
    lemma_mod_bound(x, c);
    assert((x / c) * c == c * (x / c)) by (nonlinear_arith);
    assert(x / c >= 0) by (nonlinear_arith)
        requires
            x >= 0,
            c > 0,
    ;
}

/// A proportional split `q[i] = a[i] * m / c`, each part rounded down, loses
/// less than one unit of `c` per part.
pub proof fn lemma_sum_floor(a: Seq<int>, q: Seq<int>, m: int, c: int)
    requires
        a.len() == q.len(),
        c > 0,
        m >= 0,
        forall|i: int| 0 <= i < a.len() ==> #[trigger] a[i] >= 0 && q[i] == a[i] * m / c,
    ensures
        seq_sum(q) * c <= seq_sum(a) * m,
        seq_sum(a) * m <= seq_sum(q) * c + a.len() * (c - 1),
    decreases a.len(),
{
    if a.len() > 0 {
        let n = a.len() - 1;
        assert forall|i: int| 0 <= i < n implies #[trigger] a.drop_last()[i] >= 0
            && q.drop_last()[i] == a.drop_last()[i] * m / c by {
            assert(a[i] >= 0);
        }
        assert(a[n] >= 0 && q[n] == a[n] * m / c);
        lemma_sum_floor(a.drop_last(), q.drop_last(), m, c);
        let x = a[n] * m;
        assert(x >= 0) by (nonlinear_arith)
            requires
                x == a[n] * m,
                a[n] >= 0,
                m >= 0,
        ;
        lemma_floor_bounds(x, c);
        let sq = seq_sum(q.drop_last());
        let sa = seq_sum(a.drop_last());
        assert((sq + q[n]) * c == sq * c + q[n] * c) by (nonlinear_arith);
        assert((sa + a[n]) * m == sa * m + a[n] * m) by (nonlinear_arith);
        assert(a.len() * (c - 1) == n * (c - 1) + (c - 1)) by (nonlinear_arith)
            requires
                n == a.len() - 1,
        ;
    }
}

/// `a * b / c` rounded down; `None` when `c` is zero or the quotient does not
/// fit in a `u64`.
pub fn mul_div_floor(a: u64, b: u64, c: u64) -> (r: Option<u64>)
    ensures
        r is Some <==> c != 0 && mul_div(a as int, b as int, c as int) <= u64::MAX,
        r matches Some(q) ==> q == mul_div(a as int, b as int, c as int),
{
    if c == 0 {
        return None;
    }
    proof {
        lemma_mul_fits_u128(a, b);
    }
    let p: u128 = (a as u128) * (b as u128);
    let q: u128 = p / (c as u128);
    if q > u64::MAX as u128 {
        None
    } else {
        Some(q as u64)
    }
}

} // verus!
