use crate::error::ErrorCode;
use crate::math::{lemma_floor_bounds, lemma_mul_fits_u128, SCALER};
use crate::seqsum::{lemma_elem_le_sum, lemma_sum_update, seq_sum};
use vstd::prelude::*;

verus! {

/// Pool-wide share bookkeeping: shares outstanding, the underlying value they
/// claim, and the yield accrued per share since genesis (scaled by
/// `SCALER`).
#[derive(Debug, Clone, Copy, PartialEq, Eq, Structural)]
pub struct ShareLedger {
    pub total_shares: u64,
    pub total_underlying: u64,
    pub acc_per_share: u64,
}

/// One depositor's stake in a vault.
#[derive(Debug, Clone, Copy, PartialEq, Eq, Structural)]
pub struct UserPosition {
    /// Vault shares held.
    pub shares: u64,
    /// `shares * acc_per_share` at the last checkpoint, in `SCALER` units.
    pub reward_debt: u128,
    /// Yield settled to this depositor and not yet paid out.
    pub pending_rewards: u64,
    /// Time of the last deposit or withdrawal.
    pub last_updated: i64,
}

/// Shares minted for a deposit of `amount`: one per unit while the pool has
/// no shares (or no value), else in proportion to the pool's value, rounded
/// down.
///
/// A pool can hold value without shares: when its last shares were redeemed
/// for less than their booked worth (a venue paid out short), or a venue
/// paid more than it had booked as the last shares left. That value is held
/// for the next depositor, who receives one share per unit deposited and so
/// takes it over, in the same way as yield found while no shares exist is
/// held pending the next depositor rather than lost.
pub open spec fn minted_for(l: ShareLedger, amount: int) -> int {
    if l.total_shares == 0 || l.total_underlying == 0 {
        amount
    } else {
        amount * l.total_shares / (l.total_underlying as int)
    }
}

/// Underlying owed for redeeming `shares`, rounded down.
pub open spec fn owed_for(l: ShareLedger, shares: int) -> int {
    shares * l.total_underlying / (l.total_shares as int)
}

/// Yield earned by a position since its last checkpoint.
pub open spec fn pending_yield(p: UserPosition, acc_per_share: u64) -> int {
    let earned = p.shares * acc_per_share;
    if earned >= p.reward_debt {
        (earned - p.reward_debt) / (SCALER as int)
    } else {
        0
    }
}

/// Whether a deposit keeps every counter in range.
pub open spec fn deposit_fits(l: ShareLedger, p: UserPosition, amount: int) -> bool {
    &&& l.total_shares + minted_for(l, amount) <= u64::MAX
    &&& l.total_underlying + amount <= u64::MAX
    &&& p.shares + minted_for(l, amount) <= u64::MAX
    &&& p.pending_rewards + pending_yield(p, l.acc_per_share) <= u64::MAX
}

pub open spec fn ledger_after_deposit(l: ShareLedger, amount: int) -> ShareLedger {
    ShareLedger {
        total_shares: (l.total_shares + minted_for(l, amount)) as u64,
        total_underlying: (l.total_underlying + amount) as u64,
        acc_per_share: l.acc_per_share,
    }
}

/// A position after its yield is settled and its shares become `shares`.
pub open spec fn checkpoint(p: UserPosition, acc_per_share: u64, shares: int, now: i64) -> UserPosition {
    UserPosition {
        shares: shares as u64,
        reward_debt: (shares * acc_per_share) as u128,
        pending_rewards: (p.pending_rewards + pending_yield(p, acc_per_share)) as u64,
        last_updated: now,
    }
}

pub open spec fn position_after_deposit(
    l: ShareLedger,
    p: UserPosition,
    amount: int,
    now: i64,
) -> UserPosition {
    checkpoint(p, l.acc_per_share, p.shares + minted_for(l, amount), now)
}

/// Why a withdrawal of `shares` fails, if it does: more shares than are
/// outstanding, or settled yield out of range.
pub open spec fn withdraw_error(l: ShareLedger, p: UserPosition, shares: int) -> Option<ErrorCode> {
    if shares > l.total_shares {
        Some(ErrorCode::InsufficientLiquidity)
    } else if p.pending_rewards + pending_yield(p, l.acc_per_share) > u64::MAX {
        Some(ErrorCode::MathOverflow)
    } else {
        None
    }
}

pub open spec fn ledger_after_withdraw(l: ShareLedger, shares: int) -> ShareLedger {
    ShareLedger {
        total_shares: (l.total_shares - shares) as u64,
        total_underlying: (l.total_underlying - owed_for(l, shares)) as u64,
        acc_per_share: l.acc_per_share,
    }
}

pub open spec fn position_after_withdraw(
    l: ShareLedger,
    p: UserPosition,
    shares: int,
    now: i64,
) -> UserPosition {
    checkpoint(p, l.acc_per_share, p.shares - shares, now)
}

/// Why yield of `amount` cannot be booked, if it cannot.
pub open spec fn accrue_error(l: ShareLedger, amount: int) -> Option<ErrorCode> {
    if l.total_shares == 0 {
        Some(ErrorCode::ZeroShareYieldLoss)
    } else if l.acc_per_share + amount * SCALER / (l.total_shares as int) > u64::MAX
        || l.total_underlying + amount > u64::MAX {
        Some(ErrorCode::MathOverflow)
    } else {
        None
    }
}

pub open spec fn ledger_after_accrue(l: ShareLedger, amount: int) -> ShareLedger {
    ShareLedger {
        total_shares: l.total_shares,
        total_underlying: (l.total_underlying + amount) as u64,
        acc_per_share: (l.acc_per_share + amount * SCALER / (l.total_shares as int)) as u64,
    }
}

/// Settles the position's yield and sets its shares, with a fresh checkpoint.
fn settle(p: &mut UserPosition, acc_per_share: u64, shares: u64, now: i64) -> (ok: bool)
    ensures
        ok == (old(p).pending_rewards + pending_yield(*old(p), acc_per_share) <= u64::MAX),
        ok ==> *final(p) == checkpoint(*old(p), acc_per_share, shares as int, now),
        !ok ==> *final(p) == *old(p),
{
    proof {
        lemma_mul_fits_u128(p.shares, acc_per_share);
        lemma_mul_fits_u128(shares, acc_per_share);
    }
    let earned: u128 = (p.shares as u128) * (acc_per_share as u128);
    let pending: u128 = if earned >= p.reward_debt {
        (earned - p.reward_debt) / (SCALER as u128)
    } else {
        0
    };
    if pending > (u64::MAX - p.pending_rewards) as u128 {
        return false;
    }
    p.pending_rewards = p.pending_rewards + pending as u64;
    p.shares = shares;
    p.reward_debt = (shares as u128) * (acc_per_share as u128);
    p.last_updated = now;
    true
}

impl ShareLedger {
    pub open spec fn new_spec() -> ShareLedger {
        ShareLedger { total_shares: 0, total_underlying: 0, acc_per_share: 0 }
    }

    /// An empty ledger: no shares, no value, no yield.
    pub fn new() -> (l: ShareLedger)
        ensures
            l == ShareLedger::new_spec(),
    {
        ShareLedger { total_shares: 0, total_underlying: 0, acc_per_share: 0 }
    }

    /// Deposits `amount` for `pos`: settles its pending yield, mints shares
    /// in proportion to the pool's value (rounded down), and returns the
    /// shares minted. Fails with `MathOverflow`, changing nothing, when a
    /// counter would leave its range.
    pub fn deposit(&mut self, pos: &mut UserPosition, amount: u64, now: i64) -> (res: Result<
        u64,
        ErrorCode,
    >)
        requires
            amount > 0,
        ensures
            match res {
                Ok(minted) => {
                    &&& deposit_fits(*old(self), *old(pos), amount as int)
                    &&& minted == minted_for(*old(self), amount as int)
                    &&& *final(self) == ledger_after_deposit(*old(self), amount as int)
                    &&& *final(pos) == position_after_deposit(*old(self), *old(pos), amount as int, now)
                },
                Err(e) => {
                    &&& !deposit_fits(*old(self), *old(pos), amount as int)
                    &&& e == ErrorCode::MathOverflow
                    &&& *final(self) == *old(self)
                    &&& *final(pos) == *old(pos)
                },
            },
    {
        let minted: u64 = if self.total_shares == 0 || self.total_underlying == 0 {
            amount
        } else {
            proof {
                lemma_mul_fits_u128(amount, self.total_shares);
            }
            let q: u128 = (amount as u128) * (self.total_shares as u128) / (self.total_underlying as u128);
            if q > u64::MAX as u128 {
                return Err(ErrorCode::MathOverflow);
            }
            q as u64
        };
        if minted > u64::MAX - self.total_shares || amount > u64::MAX - self.total_underlying
            || minted > u64::MAX - pos.shares {
            return Err(ErrorCode::MathOverflow);
        }
        let shares: u64 = pos.shares + minted;
        if !settle(pos, self.acc_per_share, shares, now) {
            return Err(ErrorCode::MathOverflow);
        }
        self.total_shares = self.total_shares + minted;
        self.total_underlying = self.total_underlying + amount;
        Ok(minted)
    }

    /// Redeems `share_amount` of `pos`'s shares: settles its pending yield,
    /// burns the shares and returns the underlying they were worth, rounded
    /// down. Nothing changes when it fails.
    pub fn withdraw(&mut self, pos: &mut UserPosition, share_amount: u64, now: i64) -> (res:
        Result<u64, ErrorCode>)
        requires
            0 < share_amount <= old(pos).shares,
        ensures
            match res {
                Ok(owed) => {
                    &&& withdraw_error(*old(self), *old(pos), share_amount as int) is None
                    &&& owed == owed_for(*old(self), share_amount as int)
                    &&& *final(self) == ledger_after_withdraw(*old(self), share_amount as int)
                    &&& *final(pos) == position_after_withdraw(
                        *old(self),
                        *old(pos),
                        share_amount as int,
                        now,
                    )
                },
                Err(e) => {
                    &&& withdraw_error(*old(self), *old(pos), share_amount as int) == Some(e)
                    &&& *final(self) == *old(self)
                    &&& *final(pos) == *old(pos)
                },
            },
            res matches Ok(owed) ==> owed <= old(self).total_underlying,
    {
        if share_amount > self.total_shares {
            return Err(ErrorCode::InsufficientLiquidity);
        }
        let shares: u64 = pos.shares - share_amount;
        if !settle(pos, self.acc_per_share, shares, now) {
            return Err(ErrorCode::MathOverflow);
        }
        proof {
            lemma_mul_fits_u128(share_amount, self.total_underlying);
            lemma_owed_bounded(*self, share_amount as int);
        }
        let owed: u128 = (share_amount as u128) * (self.total_underlying as u128)
            / (self.total_shares as u128);
        self.total_shares = self.total_shares - share_amount;
        self.total_underlying = self.total_underlying - owed as u64;
        Ok(owed as u64)
    }

    /// Books realised yield of `amount`: the pool's value grows by `amount`
    /// and each share accrues `amount * SCALER / total_shares`. With no
    /// shares outstanding it fails with `ZeroShareYieldLoss` and nothing
    /// changes, so the yield stays where it is, unbooked, rather than lost.
    pub fn accrue_yield(&mut self, amount: u64) -> (res: Result<(), ErrorCode>)
        ensures
            match res {
                Ok(()) => {
                    &&& accrue_error(*old(self), amount as int) is None
                    &&& *final(self) == ledger_after_accrue(*old(self), amount as int)
                },
                Err(e) => {
                    &&& accrue_error(*old(self), amount as int) == Some(e)
                    &&& *final(self) == *old(self)
                },
            },
    {
        if self.total_shares == 0 {
            return Err(ErrorCode::ZeroShareYieldLoss);
        }
        proof {
            lemma_mul_fits_u128(amount, SCALER);
        }
        let inc: u128 = (amount as u128) * (SCALER as u128) / (self.total_shares as u128);
        if inc > (u64::MAX - self.acc_per_share) as u128 || amount > u64::MAX - self.total_underlying {
            return Err(ErrorCode::MathOverflow);
        }
        self.acc_per_share = self.acc_per_share + inc as u64;
        self.total_underlying = self.total_underlying + amount;
        Ok(())
    }
}

/// Redeeming at most all shares is owed at most all of the underlying.
pub proof fn lemma_owed_bounded(l: ShareLedger, shares: int)
    requires
        0 <= shares <= l.total_shares,
        l.total_shares > 0,
    ensures
        0 <= owed_for(l, shares) <= l.total_underlying,
{
    let x = shares * l.total_underlying;
    let t = l.total_shares as int;
    assert(0 <= x <= l.total_underlying * t) by (nonlinear_arith)
        requires
            x == shares * l.total_underlying,
            0 <= shares <= t,
            l.total_underlying >= 0,
    ;
    crate::math::lemma_floor_bounds(x, t);
    vstd::arithmetic::div_mod::lemma_div_is_ordered(x, l.total_underlying * t, t);
    vstd::arithmetic::div_mod::lemma_div_by_multiple(l.total_underlying as int, t);
}

/// One depositor's deposit or withdrawal, as applied to a ledger and the
/// positions of all its depositors.
pub enum LedgerOp {
    Deposit { who: usize, amount: u64, now: i64 },
    Withdraw { who: usize, shares: u64, now: i64 },
}

/// The effect of one operation; one that `deposit` or `withdraw` would
/// refuse (bad depositor index, zero or excessive amount, overflow) changes
/// nothing.
pub open spec fn apply_op(l: ShareLedger, ps: Seq<UserPosition>, op: LedgerOp) -> (ShareLedger, Seq<UserPosition>) {
    match op {
        LedgerOp::Deposit { who, amount, now } => {
            if who < ps.len() && amount > 0 && deposit_fits(l, ps[who as int], amount as int) {
                (
                    ledger_after_deposit(l, amount as int),
                    ps.update(who as int, position_after_deposit(l, ps[who as int], amount as int, now)),
                )
            } else {
                (l, ps)
            }
        },
        LedgerOp::Withdraw { who, shares, now } => {
            if who < ps.len() && 0 < shares <= ps[who as int].shares
                && withdraw_error(l, ps[who as int], shares as int) is None {
                (
                    ledger_after_withdraw(l, shares as int),
                    ps.update(who as int, position_after_withdraw(l, ps[who as int], shares as int, now)),
                )
            } else {
                (l, ps)
            }
        },
    }
}

/// The effect of a sequence of operations, in order.
pub open spec fn run_ops(l: ShareLedger, ps: Seq<UserPosition>, ops: Seq<LedgerOp>) -> (ShareLedger, Seq<UserPosition>)
    decreases ops.len(),
{
    if ops.len() == 0 {
        (l, ps)
    } else {
        let (l1, ps1) = run_ops(l, ps, ops.drop_last());
        apply_op(l1, ps1, ops.last())
    }
}

/// Shares held over all positions.
pub open spec fn share_total(ps: Seq<UserPosition>) -> int {
    seq_sum(Seq::new(ps.len(), |i: int| ps[i].shares as int))
}

/// The underlying a position's shares are worth, rounded down.
pub open spec fn imputed(l: ShareLedger, p: UserPosition) -> int {
    if l.total_shares == 0 {
        0
    } else {
        p.shares * l.total_underlying / (l.total_shares as int)
    }
}

pub open spec fn imputed_total(l: ShareLedger, ps: Seq<UserPosition>) -> int {
    seq_sum(Seq::new(ps.len(), |i: int| imputed(l, ps[i])))
}

/// The positions hold every share of the ledger, and with no yield booked a
/// share is worth one unit of underlying.
pub open spec fn conserved(l: ShareLedger, ps: Seq<UserPosition>) -> bool {
    share_total(ps) == l.total_shares && l.total_underlying == l.total_shares
}

proof fn lemma_share_total_update(ps: Seq<UserPosition>, k: int, p: UserPosition)
    requires
        0 <= k < ps.len(),
    ensures
        share_total(ps.update(k, p)) == share_total(ps) - ps[k].shares + p.shares,
{
    let s = Seq::new(ps.len(), |i: int| ps[i].shares as int);
    lemma_sum_update(s, k, p.shares as int);
    assert(Seq::new(ps.len(), |i: int| ps.update(k, p)[i].shares as int) =~= s.update(
        k,
        p.shares as int,
    ));
}

proof fn lemma_apply_conserves(l: ShareLedger, ps: Seq<UserPosition>, op: LedgerOp)
    requires
        conserved(l, ps),
    ensures
        conserved(apply_op(l, ps, op).0, apply_op(l, ps, op).1),
{
    match op {
        LedgerOp::Deposit { who, amount, now } => {
            if who < ps.len() && amount > 0 && deposit_fits(l, ps[who as int], amount as int) {
                if l.total_shares != 0 {
                    vstd::arithmetic::div_mod::lemma_div_by_multiple(
                        amount as int,
                        l.total_shares as int,
                    );
                }
                lemma_share_total_update(
                    ps,
                    who as int,
                    position_after_deposit(l, ps[who as int], amount as int, now),
                );
            }
        },
        LedgerOp::Withdraw { who, shares, now } => {
            if who < ps.len() && 0 < shares <= ps[who as int].shares && withdraw_error(
                l,
                ps[who as int],
                shares as int,
            ) is None {
                vstd::arithmetic::div_mod::lemma_div_by_multiple(
                    shares as int,
                    l.total_shares as int,
                );
                lemma_share_total_update(
                    ps,
                    who as int,
                    position_after_withdraw(l, ps[who as int], shares as int, now),
                );
            }
        },
    }
}

/// With no yield booked, any sequence of deposits and withdrawals keeps the
/// depositors' shares summing to the ledger's total shares, and the
/// underlying their shares are worth summing to the ledger's total
/// underlying: no value is created or destroyed. A fresh ledger with
/// share-less positions is such a starting point.
pub proof fn lemma_conservation_without_yield(
    l: ShareLedger,
    ps: Seq<UserPosition>,
    ops: Seq<LedgerOp>,
)
    requires
        conserved(l, ps),
    ensures
        share_total(run_ops(l, ps, ops).1) == run_ops(l, ps, ops).0.total_shares,
        imputed_total(run_ops(l, ps, ops).0, run_ops(l, ps, ops).1) == run_ops(
            l,
            ps,
            ops,
        ).0.total_underlying,
    decreases ops.len(),
{
    lemma_run_conserves(l, ps, ops);
    let (l2, ps2) = run_ops(l, ps, ops);
    let sh = Seq::new(ps2.len(), |i: int| ps2[i].shares as int);
    let im = Seq::new(ps2.len(), |i: int| imputed(l2, ps2[i]));
    assert forall|i: int| 0 <= i < ps2.len() implies im[i] == sh[i] by {
        if l2.total_shares == 0 {
            lemma_elem_le_sum(sh, i);
        } else {
            vstd::arithmetic::div_mod::lemma_div_by_multiple(
                ps2[i].shares as int,
                l2.total_shares as int,
            );
        }
    }
    assert(im =~= sh);
}

proof fn lemma_run_conserves(l: ShareLedger, ps: Seq<UserPosition>, ops: Seq<LedgerOp>)
    requires
        conserved(l, ps),
    ensures
        conserved(run_ops(l, ps, ops).0, run_ops(l, ps, ops).1),
    decreases ops.len(),
{
    if ops.len() > 0 {
        lemma_run_conserves(l, ps, ops.drop_last());
        let (l1, ps1) = run_ops(l, ps, ops.drop_last());
        lemma_apply_conserves(l1, ps1, ops.last());
    }
}

/// Depositing `amount` and at once redeeming every share it minted succeeds
/// and returns at most `amount`; with no yield booked (a share worth one unit)
/// it returns `amount` exactly. The pool may hold no value without shares,
/// nor shares without value.
pub proof fn lemma_deposit_withdraw_round_trip(
    l: ShareLedger,
    p: UserPosition,
    amount: u64,
    now1: i64,
    now2: i64,
)
    requires
        amount > 0,
        deposit_fits(l, p, amount as int),
        minted_for(l, amount as int) > 0,
        (l.total_shares == 0) == (l.total_underlying == 0),
    ensures
        ({
            let m = minted_for(l, amount as int);
            let l1 = ledger_after_deposit(l, amount as int);
            let pos1 = position_after_deposit(l, p, amount as int, now1);
            &&& m <= pos1.shares
            &&& withdraw_error(l1, pos1, m) is None
            &&& owed_for(l1, m) <= amount
            &&& l.total_underlying == l.total_shares ==> owed_for(l1, m) == amount
        }),
{
    let m = minted_for(l, amount as int);
    let l1 = ledger_after_deposit(l, amount as int);
    let pos1 = position_after_deposit(l, p, amount as int, now1);
    let a = amount as int;
    let s = l.total_shares as int;
    let u = l.total_underlying as int;
    lemma_mul_fits_u128(pos1.shares, l.acc_per_share);
    assert(pending_yield(pos1, l.acc_per_share) == 0);
    if s == 0 {
        vstd::arithmetic::div_mod::lemma_div_by_multiple(a, a);
        assert(a * a == a * a);
    } else {
        assert(m * u <= a * s) by {
            lemma_floor_bounds(a * s, u);
            assert(a * s >= 0) by (nonlinear_arith)
                requires
                    a > 0,
                    s > 0,
            ;
            assert(m * u == (a * s / u) * u);
        }
        assert(m * (u + a) <= a * (s + m)) by (nonlinear_arith)
            requires
                m * u <= a * s,
        ;
        assert(m * (u + a) >= 0) by (nonlinear_arith)
            requires
                m > 0,
                u + a > 0,
        ;
        vstd::arithmetic::div_mod::lemma_div_is_ordered(m * (u + a), a * (s + m), s + m);
        vstd::arithmetic::div_mod::lemma_div_by_multiple(a, s + m);
        assert(a * (s + m) == (s + m) * a) by (nonlinear_arith);
        assert(owed_for(l1, m) == m * (u + a) / (s + m));
        if u == s {
            vstd::arithmetic::div_mod::lemma_div_by_multiple(a, s);
            assert(a * s / u == a);
            vstd::arithmetic::div_mod::lemma_div_by_multiple(a, s + a);
            assert(a * (u + a) == a * (s + a));
        }
    }
}

} // verus!
