use crate::allocation::{
    deposit_move, lemma_deposit_split, lemma_rebalance_split, lemma_target_values,
    lemma_withdraw_split, plan_allocation, rebalance_move, target_value, targets_are_valid,
    total_of, valid_config, valid_targets, withdraw_move,
};
use crate::error::ErrorCode;
use crate::ledger::{
    accrue_error, deposit_fits, ledger_after_accrue, ledger_after_deposit, owed_for,
    minted_for, position_after_deposit, position_after_withdraw, withdraw_error, ShareLedger,
    UserPosition,
};
use crate::seqsum::{
    amounts, lemma_elem_le_sum, lemma_sum_diff, lemma_sum_nonneg, lemma_sum_update, seq_sum,
    signed,
};
use crate::math::SCALER;
use crate::venue::{receipt_units, receipt_units_of};
use vstd::prelude::*;

verus! {

/// How target ratios are chosen. `Static` applies the configured ratios;
/// `Dynamic` is reserved for performance-driven re-weighting and does not
/// move capital.
#[derive(Debug, Clone, Copy, PartialEq, Eq, Structural)]
pub enum AllocationMode {
    Static,
    Dynamic,
}

#[derive(Debug, Clone, Copy, PartialEq, Eq, Structural)]
pub struct AllocationConfig {
    pub mode: AllocationMode,
    pub last_rebalanced_at: i64,
}

/// One pool: its share ledger, the value booked in each venue, the target
/// split between venues, and the cash not placed in any venue.
#[derive(Debug)]
pub struct Vault {
    /// Administrative identity.
    pub authority: [u8; 32],
    /// Mint of the base asset.
    pub usdc_mint: [u8; 32],
    pub ledger: ShareLedger,
    /// Underlying booked in each venue.
    pub value_in_venue: Vec<u64>,
    /// Underlying held by the vault outside every venue.
    pub unallocated: u64,
    /// Target split, in basis points per venue.
    pub target_ratio: Vec<u16>,
    /// Each venue's value at the last rebalance.
    pub last_snapshot_value: Vec<u64>,
    pub config: AllocationConfig,
    pub is_active: bool,
    pub last_update_ts: i64,
}

/// Amounts to take out of each venue and the receipt units to redeem for
/// them, for a withdrawal owed `owed` underlying.
#[derive(Debug)]
pub struct WithdrawPlan {
    pub owed: u64,
    pub amounts: Vec<u64>,
    pub receipts: Vec<u64>,
}

/// Underlying to take out of venue `i` to pay `owed`.
pub open spec fn withdraw_pull(v: Seq<u64>, owed: int, i: int) -> int {
    if owed == 0 {
        0
    } else {
        -withdraw_move(v, owed, i)
    }
}

/// Venue values after a deposit of `d` is placed.
pub open spec fn values_after_deposit(v: Seq<u64>, r: Seq<u16>, d: int) -> Seq<u64> {
    Seq::new(v.len(), |i: int| (v[i] + deposit_move(v, r, d, i)) as u64)
}

/// Venue values after a rebalance: every venue at its target.
pub open spec fn rebalanced_values(v: Seq<u64>, r: Seq<u16>) -> Seq<u64> {
    Seq::new(v.len(), |i: int| target_value(r, seq_sum(amounts(v)), i) as u64)
}

/// What venue `i`'s booked value drops by when it paid out `received`.
pub open spec fn booked_drop(v: Seq<u64>, received: Seq<u64>, i: int) -> int {
    if received[i] <= v[i] {
        received[i] as int
    } else {
        v[i] as int
    }
}

/// Venue values after paying out `received`; a venue never drops below zero.
pub open spec fn values_after_payout(v: Seq<u64>, received: Seq<u64>) -> Seq<u64> {
    Seq::new(v.len(), |i: int| (v[i] - booked_drop(v, received, i)) as u64)
}

/// What the venues paid beyond their booked values: yield not yet booked.
pub open spec fn unbooked_gain(v: Seq<u64>, received: Seq<u64>) -> int {
    seq_sum(amounts(received)) - seq_sum(
        Seq::new(v.len(), |i: int| booked_drop(v, received, i)),
    )
}

/// The rise in yield per share when `gain` is realised over `shares`
/// remaining shares; with none remaining it stays in the pool unbooked to
/// any share.
pub open spec fn gain_per_share(gain: int, shares: int) -> int {
    if shares > 0 {
        gain * (SCALER as int) / shares
    } else {
        0
    }
}

/// What a withdrawal owed `owed` pays when the venues returned `received`:
/// the lesser of the two.
pub open spec fn payout(owed: int, received: Seq<u64>) -> int {
    if seq_sum(amounts(received)) < owed {
        seq_sum(amounts(received))
    } else {
        owed
    }
}

/// Why receipts for `amount` cannot be computed at `rate`, if they cannot.
pub open spec fn rate_error(amount: int, rate: int) -> Option<ErrorCode> {
    if amount == 0 {
        None
    } else if rate == 0 {
        Some(ErrorCode::InvalidExchangeRate)
    } else if receipt_units_of(amount, rate) > u64::MAX {
        Some(ErrorCode::NarrowingOverflow)
    } else {
        None
    }
}

/// Receipt units to redeem for `amount` of underlying at `rate`.
pub open spec fn receipts_for(amount: int, rate: int) -> int {
    if amount == 0 {
        0
    } else {
        receipt_units_of(amount, rate)
    }
}

impl Vault {
    /// The fields that deposits, withdrawals and yield leave alone.
    pub open spec fn same_setup(&self, prev: &Vault) -> bool {
        &&& self.authority == prev.authority
        &&& self.usdc_mint == prev.usdc_mint
        &&& self.target_ratio@ == prev.target_ratio@
        &&& self.last_snapshot_value@ == prev.last_snapshot_value@
        &&& self.config == prev.config
        &&& self.is_active == prev.is_active
    }

    /// Why settling a withdrawal of `shares` fails, if it does: the ledger
    /// refuses it, or the cash or total would leave the `u64` range.
    pub open spec fn settle_error(&self, pos: UserPosition, shares: int, received: Seq<u64>) -> Option<
        ErrorCode,
    > {
        let owed = owed_for(self.ledger, shares);
        let paid = payout(owed, received);
        if withdraw_error(self.ledger, pos, shares) is Some {
            withdraw_error(self.ledger, pos, shares)
        } else if self.unallocated + seq_sum(amounts(received)) - paid > u64::MAX
            || self.ledger.total_underlying - paid + unbooked_gain(self.value_in_venue@, received)
            > u64::MAX || self.ledger.acc_per_share + gain_per_share(
            unbooked_gain(self.value_in_venue@, received),
            self.ledger.total_shares - shares,
        ) > u64::MAX {
            Some(ErrorCode::MathOverflow)
        } else {
            None
        }
    }

    /// The vault's own consistency: per-venue lists agree, the targets are
    /// valid, and the total underlying is what the venues and the cash hold.
    /// Value with no shares outstanding is allowed: it is held for the next
    /// depositor (see `minted_for`).
    pub open spec fn wf(&self) -> bool {
        &&& valid_config(self.value_in_venue@, self.target_ratio@)
        &&& self.last_snapshot_value@.len() == self.value_in_venue@.len()
        &&& self.ledger.total_underlying == seq_sum(amounts(self.value_in_venue@))
            + self.unallocated
    }

    /// Creates an empty vault with the given target ratios.
    pub fn initialize_vault(
        authority: [u8; 32],
        usdc_mint: [u8; 32],
        targets: Vec<u16>,
        now: i64,
    ) -> (res: Result<Vault, ErrorCode>)
        ensures
            res is Err <==> !valid_targets(targets@),
            res matches Err(e) ==> e == ErrorCode::InvalidAllocation,
            res matches Ok(v) ==> {
                &&& v.wf()
                &&& v.authority == authority
                &&& v.usdc_mint == usdc_mint
                &&& v.ledger == ShareLedger::new_spec()
                &&& v.target_ratio@ == targets@
                &&& v.value_in_venue@ == Seq::new(targets@.len(), |i: int| 0u64)
                &&& v.last_snapshot_value@ == Seq::new(targets@.len(), |i: int| 0u64)
                &&& v.unallocated == 0
                &&& v.config == (AllocationConfig {
                    mode: AllocationMode::Static,
                    last_rebalanced_at: now,
                })
                &&& v.is_active
                &&& v.last_update_ts == now
            },
    {
        if !targets_are_valid(&targets) {
            return Err(ErrorCode::InvalidAllocation);
        }
        let n = targets.len();
        let values = zeros(n);
        proof {
            lemma_sum_zero_amounts(values@);
        }
        Ok(Vault {
            authority,
            usdc_mint,
            ledger: ShareLedger::new(),
            value_in_venue: values,
            unallocated: 0,
            target_ratio: targets,
            last_snapshot_value: zeros(n),
            config: AllocationConfig { mode: AllocationMode::Static, last_rebalanced_at: now },
            is_active: true,
            last_update_ts: now,
        })
    }
}

impl Vault {
    /// Deposits `amount` for `pos`: mints its shares (see
    /// `ShareLedger::deposit`), splits the amount over the venues with
    /// `plan_allocation` and books each venue's part. Returns, per venue, the
    /// amount to place in it. Fails with `MathOverflow`, changing nothing,
    /// when a counter would leave its range.
    pub fn deposit(&mut self, pos: &mut UserPosition, amount: u64, now: i64) -> (res: Result<
        Vec<u64>,
        ErrorCode,
    >)
        requires
            old(self).wf(),
            amount > 0,
        ensures
            final(self).wf(),
            match res {
                Ok(legs) => {
                    &&& deposit_fits(old(self).ledger, *old(pos), amount as int)
                    &&& final(self).ledger == ledger_after_deposit(old(self).ledger, amount as int)
                    &&& *final(pos) == position_after_deposit(
                        old(self).ledger,
                        *old(pos),
                        amount as int,
                        now,
                    )
                    &&& legs@.len() == old(self).value_in_venue@.len()
                    &&& forall|i: int|
                        0 <= i < legs@.len() ==> legs@[i] == deposit_move(
                            old(self).value_in_venue@,
                            old(self).target_ratio@,
                            amount as int,
                            i,
                        )
                    &&& final(self).value_in_venue@ == values_after_deposit(
                        old(self).value_in_venue@,
                        old(self).target_ratio@,
                        amount as int,
                    )
                    &&& final(self).unallocated == old(self).unallocated
                    &&& final(self).same_setup(old(self))
                    &&& final(self).last_update_ts == now
                },
                Err(e) => {
                    &&& e == ErrorCode::MathOverflow
                    &&& !deposit_fits(old(self).ledger, *old(pos), amount as int)
                    &&& *final(self) == *old(self)
                    &&& *final(pos) == *old(pos)
                },
            },
    {
        let mut ledger = self.ledger;
        let mut p = *pos;
        match ledger.deposit(&mut p, amount, now) {
            Ok(_) => {},
            Err(e) => {
                return Err(e);
            },
        }
        let ghost v = self.value_in_venue@;
        let ghost r = self.target_ratio@;
        let ghost d = amount as int;
        proof {
            lemma_sum_nonneg(amounts(v));
            lemma_deposit_split(v, r, d);
        }
        let moves = match plan_allocation(&self.value_in_venue, &self.target_ratio, amount as i128) {
            Ok(m) => m,
            Err(e) => {
                proof {
                    assert(false);
                }
                return Err(e);
            },
        };
        let mut values: Vec<u64> = Vec::new();
        let mut legs: Vec<u64> = Vec::new();
        let mut i: usize = 0;
        while i < self.value_in_venue.len()
            invariant
                i <= v.len(),
                self.value_in_venue@ == v,
                moves@.len() == v.len(),
                seq_sum(amounts(v)) + d <= u64::MAX,
                forall|j: int| 0 <= j < v.len() ==> moves@[j] == deposit_move(v, r, d, j),
                forall|j: int| 0 <= j < v.len() ==> 0 <= #[trigger] deposit_move(v, r, d, j) <= d,
                values@.len() == i,
                legs@.len() == i,
                forall|j: int| 0 <= j < i ==> legs@[j] == moves@[j],
                forall|j: int| 0 <= j < i ==> values@[j] == values_after_deposit(v, r, d)[j],
            decreases v.len() - i,
        {
            proof {
                lemma_elem_le_sum(amounts(v), i as int);
            }
            let x: u64 = moves[i] as u64;
            values.push(self.value_in_venue[i] + x);
            legs.push(x);
            i = i + 1;
        }
        proof {
            assert(values@ =~= values_after_deposit(v, r, d));
            assert forall|j: int| 0 <= j < v.len() implies amounts(values@)[j] - amounts(v)[j]
                == signed(moves@)[j] by {
                lemma_elem_le_sum(amounts(v), j);
                assert(deposit_move(v, r, d, j) <= d);
            }
            lemma_sum_diff(amounts(values@), amounts(v), signed(moves@));
        }
        self.value_in_venue = values;
        self.ledger = ledger;
        *pos = p;
        self.last_update_ts = now;
        Ok(legs)
    }

    /// Quotes a withdrawal of `share_amount` of `pos`'s shares without
    /// changing anything: the underlying owed, what to take out of each venue
    /// (in proportion to the venues' current values, see `plan_allocation`)
    /// and the receipt units to redeem for it at each venue's `rates` entry.
    pub fn plan_withdraw(&self, pos: &UserPosition, share_amount: u64, rates: &Vec<u64>) -> (res:
        Result<WithdrawPlan, ErrorCode>)
        requires
            self.wf(),
            0 < share_amount <= pos.shares,
            rates@.len() == self.value_in_venue@.len(),
        ensures
            ({
                let v = self.value_in_venue@;
                let owed = owed_for(self.ledger, share_amount as int);
                &&& res is Ok <==> {
                    &&& withdraw_error(self.ledger, *pos, share_amount as int) is None
                    &&& owed <= seq_sum(amounts(v))
                    &&& forall|i: int|
                        0 <= i < v.len() ==> rate_error(
                            #[trigger] withdraw_pull(v, owed, i),
                            rates@[i] as int,
                        ) is None
                }
                &&& res matches Ok(plan) ==> {
                    &&& plan.owed == owed
                    &&& plan.amounts@.len() == v.len()
                    &&& plan.receipts@.len() == v.len()
                    &&& forall|i: int|
                        0 <= i < v.len() ==> plan.amounts@[i] == withdraw_pull(v, owed, i)
                    &&& forall|i: int|
                        0 <= i < v.len() ==> plan.receipts@[i] == receipts_for(
                            plan.amounts@[i] as int,
                            rates@[i] as int,
                        )
                }
                &&& res matches Err(e) ==> {
                    ||| withdraw_error(self.ledger, *pos, share_amount as int) == Some(e)
                    ||| withdraw_error(self.ledger, *pos, share_amount as int) is None && owed
                        > seq_sum(amounts(v)) && e == ErrorCode::InsufficientLiquidity
                    ||| exists|i: int|
                        0 <= i < v.len() && rate_error(
                            #[trigger] withdraw_pull(v, owed, i),
                            rates@[i] as int,
                        ) == Some(e)
                }
            }),
    {
        let mut ledger = self.ledger;
        let mut p = *pos;
        let owed = match ledger.withdraw(&mut p, share_amount, 0) {
            Ok(o) => o,
            Err(e) => {
                return Err(e);
            },
        };
        let t = total_of(&self.value_in_venue);
        if owed as u128 > t {
            return Err(ErrorCode::InsufficientLiquidity);
        }
        let pulls = self.pulls_for(owed, t as u64);
        let ghost v = self.value_in_venue@;
        let mut receipts: Vec<u64> = Vec::new();
        let mut i: usize = 0;
        while i < pulls.len()
            invariant
                i <= v.len(),
                v == self.value_in_venue@,
                owed == owed_for(self.ledger, share_amount as int),
                withdraw_error(self.ledger, *pos, share_amount as int) is None,
                owed <= seq_sum(amounts(v)),
                pulls@.len() == v.len(),
                rates@.len() == v.len(),
                forall|j: int| 0 <= j < v.len() ==> pulls@[j] == withdraw_pull(v, owed as int, j),
                forall|j: int|
                    0 <= j < i ==> rate_error(#[trigger] withdraw_pull(v, owed as int, j), rates@[j] as int)
                        is None,
                receipts@.len() == i,
                forall|j: int|
                    0 <= j < i ==> receipts@[j] == receipts_for(pulls@[j] as int, rates@[j] as int),
            decreases v.len() - i,
        {
            let u: u64 = if pulls[i] == 0 {
                0
            } else {
                match receipt_units(pulls[i], rates[i]) {
                    Ok(u) => u,
                    Err(e) => {
                        proof {
                            assert(rate_error(withdraw_pull(v, owed as int, i as int), rates@[i as int] as int) == Some(e));
                            assert(owed == owed_for(self.ledger, share_amount as int));
                            assert(exists|j: int|
                                0 <= j < v.len() && rate_error(
                                    #[trigger] withdraw_pull(v, owed as int, j),
                                    rates@[j] as int,
                                ) == Some(e));
                        }
                        return Err(e);
                    },
                }
            };
            receipts.push(u);
            i = i + 1;
        }
        Ok(WithdrawPlan { owed, amounts: pulls, receipts })
    }

    /// Completes a withdrawal of `share_amount` of `pos`'s shares once the
    /// venues have paid out `received` (one entry per venue). The depositor
    /// is paid the lesser of what the shares are owed and what the venues
    /// returned; any surplus stays in the vault as cash. Each venue's booked
    /// value drops by what it paid, never below zero; what a venue paid
    /// beyond its booked value is realised yield: it joins the total and
    /// raises the yield per remaining share. Returns the
    /// amount paid. Nothing changes when it fails.
    pub fn settle_withdraw(
        &mut self,
        pos: &mut UserPosition,
        share_amount: u64,
        received: &Vec<u64>,
        now: i64,
    ) -> (res: Result<u64, ErrorCode>)
        requires
            old(self).wf(),
            0 < share_amount <= old(pos).shares,
            received@.len() == old(self).value_in_venue@.len(),
        ensures
            final(self).wf(),
            match res {
                Ok(paid) => {
                    &&& old(self).settle_error(*old(pos), share_amount as int, received@) is None
                    &&& paid == payout(
                        owed_for(old(self).ledger, share_amount as int),
                        received@,
                    )
                    &&& final(self).ledger == (ShareLedger {
                        total_shares: (old(self).ledger.total_shares - share_amount) as u64,
                        total_underlying: (old(self).ledger.total_underlying - paid
                            + unbooked_gain(old(self).value_in_venue@, received@)) as u64,
                        acc_per_share: (old(self).ledger.acc_per_share + gain_per_share(
                            unbooked_gain(old(self).value_in_venue@, received@),
                            old(self).ledger.total_shares - share_amount,
                        )) as u64,
                    })
                    &&& *final(pos) == position_after_withdraw(
                        old(self).ledger,
                        *old(pos),
                        share_amount as int,
                        now,
                    )
                    &&& final(self).value_in_venue@ == values_after_payout(
                        old(self).value_in_venue@,
                        received@,
                    )
                    &&& final(self).unallocated == old(self).unallocated + seq_sum(
                        amounts(received@),
                    ) - paid
                    &&& final(self).same_setup(old(self))
                    &&& final(self).last_update_ts == now
                },
                Err(e) => {
                    &&& old(self).settle_error(*old(pos), share_amount as int, received@) == Some(e)
                    &&& *final(self) == *old(self)
                    &&& *final(pos) == *old(pos)
                },
            },
            // When no venue paid more than it had booked, the total drops by
            // exactly what was paid out.
            res matches Ok(paid) ==> (forall|i: int|
                0 <= i < received@.len() ==> received@[i] <= old(self).value_in_venue@[i])
                ==> final(self).ledger.total_underlying == old(self).ledger.total_underlying
                - paid,
    {
        let mut ledger = self.ledger;
        let mut p = *pos;
        let owed = match ledger.withdraw(&mut p, share_amount, now) {
            Ok(o) => o,
            Err(e) => {
                return Err(e);
            },
        };
        let got = total_of(received);
        let paid: u64 = if got < owed as u128 {
            got as u64
        } else {
            owed
        };
        let ghost v = self.value_in_venue@;
        let ghost rv = received@;
        let ghost drops = Seq::new(v.len(), |i: int| booked_drop(v, rv, i));
        let mut values: Vec<u64> = Vec::new();
        let mut dropped: u128 = 0;
        let mut i: usize = 0;
        while i < received.len()
            invariant
                i <= v.len(),
                v == self.value_in_venue@,
                rv == received@,
                rv.len() == v.len(),
                drops == Seq::new(v.len(), |i: int| booked_drop(v, rv, i)),
                values@.len() == i,
                forall|j: int| 0 <= j < i ==> values@[j] == values_after_payout(v, rv)[j],
                dropped == seq_sum(drops.take(i as int)),
                dropped <= i * 0xffff_ffff_ffff_ffff,
            decreases v.len() - i,
        {
            proof {
                crate::seqsum::lemma_sum_take_step(drops, i as int);
            }
            let d: u64 = if received[i] <= self.value_in_venue[i] {
                received[i]
            } else {
                self.value_in_venue[i]
            };
            values.push(self.value_in_venue[i] - d);
            dropped = dropped + d as u128;
            i = i + 1;
        }
        proof {
            crate::seqsum::lemma_sum_take_all(drops);
            assert(values@ =~= values_after_payout(v, rv));
            crate::seqsum::lemma_sum_le(drops, amounts(rv));
            lemma_sum_diff(amounts(v), drops, amounts(values@));
            assert(got <= rv.len() * 0xffff_ffff_ffff_ffff);
            assert(rv.len() * 0xffff_ffff_ffff_ffff <= 0xffff_ffff_ffff_ffff * 0xffff_ffff_ffff_ffff)
                by (nonlinear_arith)
                requires
                    rv.len() <= 0xffff_ffff_ffff_ffff,
            ;
        }
        let gain: u128 = got - dropped;
        let cash: u128 = self.unallocated as u128 + got - paid as u128;
        if cash > u64::MAX as u128 {
            return Err(ErrorCode::MathOverflow);
        }
        let total: u128 = self.ledger.total_underlying as u128 - paid as u128 + gain;
        if total > u64::MAX as u128 {
            return Err(ErrorCode::MathOverflow);
        }
        let rest: u64 = ledger.total_shares;
        let inc: u128 = if rest > 0 {
            proof {
                crate::math::lemma_mul_fits_u128(gain as u64, SCALER);
            }
            (gain * (SCALER as u128)) / (rest as u128)
        } else {
            0
        };
        if inc > (u64::MAX - ledger.acc_per_share) as u128 {
            return Err(ErrorCode::MathOverflow);
        }
        ledger.acc_per_share = ledger.acc_per_share + inc as u64;
        ledger.total_underlying = total as u64;
        proof {
            if forall|i: int| 0 <= i < rv.len() ==> rv[i] <= v[i] {
                assert(drops =~= amounts(rv));
            }
        }
        self.value_in_venue = values;
        self.unallocated = cash as u64;
        self.ledger = ledger;
        *pos = p;
        self.last_update_ts = now;
        Ok(paid)
    }

    /// Moves every venue to its target without new capital: returns the
    /// signed moves (the caller settles every withdrawal leg before any
    /// deposit leg), books the new venue values and snapshots them. In
    /// `Dynamic` mode it moves nothing and changes nothing.
    pub fn rebalance(&mut self, now: i64) -> (moves: Vec<i128>)
        requires
            old(self).wf(),
        ensures
            final(self).wf(),
            moves@.len() == old(self).value_in_venue@.len(),
            old(self).config.mode == AllocationMode::Dynamic ==> {
                &&& forall|i: int| 0 <= i < moves@.len() ==> moves@[i] == 0
                &&& *final(self) == *old(self)
            },
            old(self).config.mode == AllocationMode::Static ==> {
                &&& forall|i: int|
                    0 <= i < moves@.len() ==> moves@[i] == rebalance_move(
                        old(self).value_in_venue@,
                        old(self).target_ratio@,
                        i,
                    )
                &&& final(self).value_in_venue@ == rebalanced_values(
                    old(self).value_in_venue@,
                    old(self).target_ratio@,
                )
                &&& final(self).last_snapshot_value@ == final(self).value_in_venue@
                &&& final(self).config == (AllocationConfig {
                    mode: AllocationMode::Static,
                    last_rebalanced_at: now,
                })
                &&& final(self).last_update_ts == now
                &&& final(self).ledger == old(self).ledger
                &&& final(self).unallocated == old(self).unallocated
                &&& final(self).target_ratio@ == old(self).target_ratio@
                &&& final(self).authority == old(self).authority
                &&& final(self).usdc_mint == old(self).usdc_mint
                &&& final(self).is_active == old(self).is_active
            },
    {
        let ghost v = self.value_in_venue@;
        let ghost r = self.target_ratio@;
        let n = self.value_in_venue.len();
        if self.config.mode == AllocationMode::Dynamic {
            let mut none: Vec<i128> = Vec::new();
            let mut i: usize = 0;
            while i < n
                invariant
                    i <= n,
                    none@.len() == i,
                    forall|j: int| 0 <= j < i ==> none@[j] == 0,
                decreases n - i,
            {
                none.push(0);
                i = i + 1;
            }
            return none;
        }
        proof {
            lemma_sum_nonneg(amounts(v));
            lemma_rebalance_split(v, r);
        }
        let moves = match plan_allocation(&self.value_in_venue, &self.target_ratio, 0) {
            Ok(m) => m,
            Err(_) => {
                proof {
                    assert(false);
                }
                return Vec::new();
            },
        };
        let mut values: Vec<u64> = Vec::new();
        let mut snapshot: Vec<u64> = Vec::new();
        let mut i: usize = 0;
        while i < n
            invariant
                i <= n,
                n == v.len(),
                v == self.value_in_venue@,
                moves@.len() == n,
                forall|j: int| 0 <= j < n ==> moves@[j] == rebalance_move(v, r, j),
                forall|j: int|
                    0 <= j < n ==> #[trigger] rebalance_move(v, r, j) + v[j] == target_value(
                        r,
                        seq_sum(amounts(v)),
                        j,
                    ),
                forall|j: int|
                    0 <= j < n ==> 0 <= #[trigger] target_value(r, seq_sum(amounts(v)), j)
                        <= seq_sum(amounts(v)),
                seq_sum(amounts(v)) <= u64::MAX,
                values@.len() == i,
                snapshot@ == values@,
                forall|j: int| 0 <= j < i ==> values@[j] == rebalanced_values(v, r)[j],
            decreases n - i,
        {
            let x: u64 = (self.value_in_venue[i] as i128 + moves[i]) as u64;
            values.push(x);
            snapshot.push(x);
            i = i + 1;
        }
        proof {
            assert(values@ =~= rebalanced_values(v, r));
            lemma_target_values(r, seq_sum(amounts(v)));
            assert(amounts(values@) =~= crate::allocation::target_values(r, seq_sum(amounts(v))));
        }
        self.value_in_venue = values;
        self.last_snapshot_value = snapshot;
        self.config.last_rebalanced_at = now;
        self.last_update_ts = now;
        moves
    }

    /// Whether a rebalance would move anything: in `Static` mode, whether
    /// some venue is off its target.
    pub fn needs_rebalance(&self) -> (b: bool)
        requires
            self.wf(),
        ensures
            b == (self.config.mode == AllocationMode::Static && exists|i: int|
                0 <= i < self.value_in_venue@.len() && #[trigger] rebalance_move(
                    self.value_in_venue@,
                    self.target_ratio@,
                    i,
                ) != 0),
    {
        if self.config.mode == AllocationMode::Dynamic {
            return false;
        }
        let ghost v = self.value_in_venue@;
        let ghost r = self.target_ratio@;
        proof {
            lemma_sum_nonneg(amounts(v));
        }
        let moves = match plan_allocation(&self.value_in_venue, &self.target_ratio, 0) {
            Ok(m) => m,
            Err(_) => {
                proof {
                    assert(false);
                }
                return false;
            },
        };
        let mut i: usize = 0;
        while i < moves.len()
            invariant
                i <= moves@.len(),
                v == self.value_in_venue@,
                r == self.target_ratio@,
                self.config.mode == AllocationMode::Static,
                moves@.len() == v.len(),
                forall|j: int| 0 <= j < v.len() ==> moves@[j] == rebalance_move(v, r, j),
                forall|j: int| 0 <= j < i ==> rebalance_move(v, r, j) == 0,
            decreases moves@.len() - i,
        {
            if moves[i] != 0 {
                return true;
            }
            i = i + 1;
        }
        false
    }

    /// Books yield of `amount` realised in venue `venue` (see
    /// `ShareLedger::accrue_yield`). With no shares outstanding it fails with
    /// `ZeroShareYieldLoss` and the yield stays unbooked in the venue.
    pub fn accrue_yield(&mut self, venue: usize, amount: u64) -> (res: Result<(), ErrorCode>)
        requires
            old(self).wf(),
            venue < old(self).value_in_venue@.len(),
        ensures
            final(self).wf(),
            match res {
                Ok(()) => {
                    &&& accrue_error(old(self).ledger, amount as int) is None
                    &&& final(self).ledger == ledger_after_accrue(old(self).ledger, amount as int)
                    &&& final(self).value_in_venue@ == old(self).value_in_venue@.update(
                        venue as int,
                        (old(self).value_in_venue@[venue as int] + amount) as u64,
                    )
                    &&& final(self).unallocated == old(self).unallocated
                    &&& final(self).same_setup(old(self))
                    &&& final(self).last_update_ts == old(self).last_update_ts
                },
                Err(e) => {
                    &&& accrue_error(old(self).ledger, amount as int) == Some(e)
                    &&& *final(self) == *old(self)
                },
            },
    {
        let ghost v = self.value_in_venue@;
        let mut ledger = self.ledger;
        match ledger.accrue_yield(amount) {
            Ok(()) => {},
            Err(e) => {
                return Err(e);
            },
        }
        proof {
            lemma_elem_le_sum(amounts(v), venue as int);
            lemma_sum_update(amounts(v), venue as int, v[venue as int] + amount);
            assert(amounts(v.update(venue as int, (v[venue as int] + amount) as u64)) =~= amounts(
                v,
            ).update(venue as int, v[venue as int] + amount));
        }
        let x: u64 = self.value_in_venue[venue] + amount;
        self.value_in_venue.set(venue, x);
        self.ledger = ledger;
        Ok(())
    }

    /// Overwrites the cached ratios, venue values, yield accumulator, total
    /// and snapshots from an externally verified source; the cash outside
    /// the venues becomes whatever the new total holds beyond the new venue
    /// values. Fails with `InvalidAllocation` when the ratios are invalid or
    /// the lists disagree in length, and with `InconsistentBalances` when
    /// the total is less than the venue values; nothing changes then.
    pub fn sync_vault_state(
        &mut self,
        new_ratios: Vec<u16>,
        new_values: Vec<u64>,
        new_acc_per_share: u64,
        new_total_underlying: u64,
        new_snapshots: Vec<u64>,
        now: i64,
    ) -> (res: Result<(), ErrorCode>)
        requires
            old(self).wf(),
        ensures
            final(self).wf(),
            !valid_config(new_values@, new_ratios@) || new_snapshots@.len() != new_values@.len()
                ==> res == Err::<(), ErrorCode>(ErrorCode::InvalidAllocation),
            valid_config(new_values@, new_ratios@) && new_snapshots@.len() == new_values@.len()
                && new_total_underlying < seq_sum(amounts(new_values@)) ==> res == Err::<
                (),
                ErrorCode,
            >(ErrorCode::InconsistentBalances),
            valid_config(new_values@, new_ratios@) && new_snapshots@.len() == new_values@.len()
                && new_total_underlying >= seq_sum(amounts(new_values@)) ==> res is Ok,
            res is Err ==> *final(self) == *old(self),
            res is Ok ==> {
                &&& final(self).target_ratio@ == new_ratios@
                &&& final(self).value_in_venue@ == new_values@
                &&& final(self).last_snapshot_value@ == new_snapshots@
                &&& final(self).ledger == (ShareLedger {
                    total_shares: old(self).ledger.total_shares,
                    total_underlying: new_total_underlying,
                    acc_per_share: new_acc_per_share,
                })
                &&& final(self).unallocated == new_total_underlying - seq_sum(
                    amounts(new_values@),
                )
                &&& final(self).config == old(self).config
                &&& final(self).authority == old(self).authority
                &&& final(self).usdc_mint == old(self).usdc_mint
                &&& final(self).is_active == old(self).is_active
                &&& final(self).last_update_ts == now
            },
    {
        if !targets_are_valid(&new_ratios) || new_values.len() != new_ratios.len()
            || new_snapshots.len() != new_values.len() {
            return Err(ErrorCode::InvalidAllocation);
        }
        let t = total_of(&new_values);
        if t > new_total_underlying as u128 {
            return Err(ErrorCode::InconsistentBalances);
        }
        self.unallocated = new_total_underlying - t as u64;
        self.target_ratio = new_ratios;
        self.value_in_venue = new_values;
        self.last_snapshot_value = new_snapshots;
        self.ledger.acc_per_share = new_acc_per_share;
        self.ledger.total_underlying = new_total_underlying;
        self.last_update_ts = now;
        Ok(())
    }

    /// What to take out of each venue to pay `owed`.
    fn pulls_for(&self, owed: u64, t: u64) -> (pulls: Vec<u64>)
        requires
            self.wf(),
            t == seq_sum(amounts(self.value_in_venue@)),
            owed <= t,
        ensures
            pulls@.len() == self.value_in_venue@.len(),
            forall|i: int|
                0 <= i < self.value_in_venue@.len() ==> pulls@[i] == withdraw_pull(
                    self.value_in_venue@,
                    owed as int,
                    i,
                ),
    {
        let ghost v = self.value_in_venue@;
        if owed == 0 {
            return zeros(self.value_in_venue.len());
        }
        let moves = match plan_allocation(&self.value_in_venue, &self.target_ratio, -(owed as i128)) {
            Ok(m) => m,
            Err(_) => {
                proof {
                    assert(false);
                }
                return zeros(self.value_in_venue.len());
            },
        };
        let mut pulls: Vec<u64> = Vec::new();
        let mut i: usize = 0;
        while i < moves.len()
            invariant
                i <= v.len(),
                moves@.len() == v.len(),
                owed > 0,
                forall|j: int| 0 <= j < v.len() ==> moves@[j] == withdraw_move(v, owed as int, j),
                forall|j: int| 0 <= j < v.len() ==> -v[j] <= #[trigger] moves@[j] <= 0,
                pulls@.len() == i,
                forall|j: int| 0 <= j < i ==> pulls@[j] == withdraw_pull(v, owed as int, j),
            decreases v.len() - i,
        {
            pulls.push((-moves[i]) as u64);
            i = i + 1;
        }
        pulls
    }
}

/// Rebalancing twice in a row, with no deposit, withdrawal or yield in
/// between, moves nothing the second time: the first rebalance leaves every
/// venue at its target for the same total.
pub proof fn lemma_rebalance_idempotent(vault: Vault)
    requires
        vault.wf(),
    ensures
        forall|i: int|
            0 <= i < vault.value_in_venue@.len() ==> rebalance_move(
                rebalanced_values(vault.value_in_venue@, vault.target_ratio@),
                vault.target_ratio@,
                i,
            ) == 0,
{
    let v = vault.value_in_venue@;
    let r = vault.target_ratio@;
    let t = seq_sum(amounts(v));
    lemma_sum_nonneg(amounts(v));
    lemma_target_values(r, t);
    let v1 = rebalanced_values(v, r);
    assert(amounts(v1) =~= crate::allocation::target_values(r, t));
}

/// A withdrawal from a vault where a share is worth one unit of underlying
/// (no yield booked), with venues paying back at least what the shares are
/// owed and none more than it had booked: the depositor is paid exactly the
/// shares redeemed, nothing is booked as yield, and the total drops by that
/// amount, so shares and value stay equal.
pub proof fn lemma_withdrawal_without_yield(vault: Vault, shares: u64, received: Seq<u64>)
    requires
        vault.wf(),
        vault.ledger.total_underlying == vault.ledger.total_shares,
        0 < shares <= vault.ledger.total_shares,
        received.len() == vault.value_in_venue@.len(),
        forall|i: int| 0 <= i < received.len() ==> received[i] <= vault.value_in_venue@[i],
        seq_sum(amounts(received)) >= shares,
    ensures
        owed_for(vault.ledger, shares as int) == shares,
        payout(owed_for(vault.ledger, shares as int), received) == shares,
        unbooked_gain(vault.value_in_venue@, received) == 0,
        gain_per_share(
            unbooked_gain(vault.value_in_venue@, received),
            vault.ledger.total_shares - shares,
        ) == 0,
        vault.ledger.total_underlying - shares == vault.ledger.total_shares - shares,
{
    let v = vault.value_in_venue@;
    vstd::arithmetic::div_mod::lemma_div_by_multiple(shares as int, vault.ledger.total_shares as int);
    assert(Seq::new(v.len(), |i: int| booked_drop(v, received, i)) =~= amounts(received));
    assert(0 * (SCALER as int) == 0);
}

/// A deposit of `amount` into a vault where a share is worth one unit of
/// underlying, followed at once by the withdrawal of every share it minted,
/// with each venue paying out exactly what was asked of it: the withdrawal
/// is owed `amount`, and the depositor is paid `amount` less under one unit
/// per venue (the rounding of the proportional pull).
pub proof fn lemma_round_trip_payout(vault: Vault, pos: UserPosition, amount: u64, now: i64)
    requires
        vault.wf(),
        amount > 0,
        deposit_fits(vault.ledger, pos, amount as int),
        vault.ledger.total_underlying == vault.ledger.total_shares,
    ensures
        ({
            let d = amount as int;
            let v = vault.value_in_venue@;
            let l1 = ledger_after_deposit(vault.ledger, d);
            let pos1 = position_after_deposit(vault.ledger, pos, d, now);
            let v1 = values_after_deposit(v, vault.target_ratio@, d);
            let minted = minted_for(vault.ledger, d);
            let owed = owed_for(l1, minted);
            let pulls = Seq::new(v.len(), |i: int| withdraw_pull(v1, owed, i) as u64);
            &&& minted == d
            &&& minted <= pos1.shares
            &&& withdraw_error(l1, pos1, minted) is None
            &&& owed == d
            &&& owed <= seq_sum(amounts(v1))
            &&& d - v.len() < payout(owed, pulls) <= d
        }),
{
    let d = amount as int;
    let v = vault.value_in_venue@;
    let r = vault.target_ratio@;
    let l = vault.ledger;
    if l.total_shares != 0 {
        vstd::arithmetic::div_mod::lemma_div_by_multiple(d, l.total_shares as int);
    }
    crate::ledger::lemma_deposit_withdraw_round_trip(l, pos, amount, now, now);
    let l1 = ledger_after_deposit(l, d);
    let minted = minted_for(l, d);
    let owed = owed_for(l1, minted);
    let v1 = values_after_deposit(v, r, d);
    lemma_sum_nonneg(amounts(v));
    lemma_deposit_split(v, r, d);
    assert forall|j: int| 0 <= j < v.len() implies amounts(v1)[j] - amounts(v)[j]
        == crate::allocation::deposit_moves(v, r, d)[j] by {
        lemma_elem_le_sum(amounts(v), j);
    }
    lemma_sum_diff(amounts(v1), amounts(v), crate::allocation::deposit_moves(v, r, d));
    lemma_withdraw_split(v1, d);
    let pulls = Seq::new(v.len(), |i: int| withdraw_pull(v1, owed, i) as u64);
    let zero = Seq::new(v.len(), |i: int| 0int);
    crate::seqsum::lemma_sum_zeros(zero);
    lemma_sum_diff(zero, crate::allocation::withdraw_moves(v1, d), amounts(pulls));
}

/// A rebalance as two lists of per-venue amounts: what to withdraw from
/// each venue, to be settled first, and what to deposit into each venue
/// afterwards.
#[derive(Debug)]
pub struct RebalanceLegs {
    pub withdrawals: Vec<u64>,
    pub deposits: Vec<u64>,
}

/// Splits signed moves into withdrawal legs (the negative moves, as
/// amounts) and deposit legs (the positive moves).
pub fn split_legs(moves: &Vec<i128>) -> (legs: RebalanceLegs)
    requires
        forall|i: int| 0 <= i < moves@.len() ==> -u64::MAX <= #[trigger] moves@[i] <= u64::MAX,
    ensures
        legs.withdrawals@.len() == moves@.len(),
        legs.deposits@.len() == moves@.len(),
        forall|i: int|
            0 <= i < moves@.len() ==> legs.withdrawals@[i] == (if moves@[i] < 0 {
                -moves@[i]
            } else {
                0
            }),
        forall|i: int|
            0 <= i < moves@.len() ==> legs.deposits@[i] == (if moves@[i] > 0 {
                moves@[i] as int
            } else {
                0
            }),
{
    let mut withdrawals: Vec<u64> = Vec::new();
    let mut deposits: Vec<u64> = Vec::new();
    let mut i: usize = 0;
    while i < moves.len()
        invariant
            i <= moves@.len(),
            forall|j: int| 0 <= j < moves@.len() ==> -u64::MAX <= #[trigger] moves@[j] <= u64::MAX,
            withdrawals@.len() == i,
            deposits@.len() == i,
            forall|j: int|
                0 <= j < i ==> withdrawals@[j] == (if moves@[j] < 0 {
                    -moves@[j]
                } else {
                    0
                }),
            forall|j: int|
                0 <= j < i ==> deposits@[j] == (if moves@[j] > 0 {
                    moves@[j] as int
                } else {
                    0
                }),
        decreases moves@.len() - i,
    {
        let m = moves[i];
        if m < 0 {
            withdrawals.push((-m) as u64);
            deposits.push(0);
        } else {
            withdrawals.push(0);
            deposits.push(m as u64);
        }
        i = i + 1;
    }
    RebalanceLegs { withdrawals, deposits }
}

proof fn lemma_sum_zero_amounts(v: Seq<u64>)
    requires
        forall|i: int| 0 <= i < v.len() ==> v[i] == 0,
    ensures
        seq_sum(amounts(v)) == 0,
{
    crate::seqsum::lemma_sum_zeros(amounts(v));
}

fn zeros(n: usize) -> (z: Vec<u64>)
    ensures
        z@ == Seq::new(n as nat, |i: int| 0u64),
{
    let mut z: Vec<u64> = Vec::new();
    let mut i: usize = 0;
    while i < n
        invariant
            i <= n,
            z@ == Seq::new(i as nat, |j: int| 0u64),
        decreases n - i,
    {
        z.push(0);
        i = i + 1;
        assert(z@ =~= Seq::new(i as nat, |j: int| 0u64));
    }
    z
}

} // verus!
