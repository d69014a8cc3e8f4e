use crate::error::ErrorCode;
use crate::math::{lemma_floor_bounds, lemma_sum_floor, BPS_TOTAL};
use crate::seqsum::{
    amounts, lemma_elem_le_sum, lemma_sum_diff, lemma_sum_le, lemma_sum_nonneg, lemma_sum_take_all,
    lemma_sum_take_step, lemma_sum_update, lemma_sum_zeros, ratios, seq_sum, signed,
};
use vstd::prelude::*;

verus! {

/// Target ratios are valid when there is at least one venue and the ratios,
/// in basis points, sum to a whole.
pub open spec fn valid_targets(r: Seq<u16>) -> bool {
    r.len() > 0 && seq_sum(ratios(r)) == BPS_TOTAL as int
}

/// Current venue values and target ratios describe the same venues.
pub open spec fn valid_config(v: Seq<u64>, r: Seq<u16>) -> bool {
    valid_targets(r) && v.len() == r.len()
}

/// The first index holding the largest ratio among the eligible venues of
/// `r`, or -1 when none is eligible.
pub open spec fn best_index(r: Seq<u16>, eligible: Seq<bool>) -> int
    decreases r.len(),
{
    if r.len() == 0 {
        -1
    } else {
        let j = r.len() - 1;
        let k = best_index(r.drop_last(), eligible);
        if eligible[j] && (k < 0 || r[j] > r[k]) {
            j
        } else {
            k
        }
    }
}

/// Every venue is eligible.
pub open spec fn every_venue(n: nat) -> Seq<bool> {
    Seq::new(n, |i: int| true)
}

/// The venue that takes rounding remainders: the first one with the largest
/// target ratio.
pub open spec fn largest_ratio_venue(r: Seq<u16>) -> int {
    best_index(r, every_venue(r.len()))
}

/// Venue `i`'s ratio of `total`, rounded down.
pub open spec fn floor_share(r: Seq<u16>, total: int, i: int) -> int {
    r[i] * total / (BPS_TOTAL as int)
}

pub open spec fn floor_shares(r: Seq<u16>, total: int) -> Seq<int> {
    Seq::new(r.len(), |i: int| floor_share(r, total, i))
}

/// What venue `i` should hold when the pool holds `total`: its rounded-down
/// ratio of `total`, with what rounding left over given to the venue of the
/// largest ratio, so that the targets sum to `total` exactly.
pub open spec fn target_value(r: Seq<u16>, total: int, i: int) -> int {
    floor_share(r, total, i) + if i == largest_ratio_venue(r) {
        total - seq_sum(floor_shares(r, total))
    } else {
        0
    }
}

pub open spec fn target_values(r: Seq<u16>, total: int) -> Seq<int> {
    Seq::new(r.len(), |i: int| target_value(r, total, i))
}

/// How far venue `i` is below its rounded-down target once `d` more is in
/// the pool (negative when it is above).
pub open spec fn gap(v: Seq<u64>, r: Seq<u16>, d: int, i: int) -> int {
    floor_share(r, seq_sum(amounts(v)) + d, i) - v[i]
}

/// The gap of venue `i`, with overweight venues clamped to zero.
pub open spec fn shortfall(v: Seq<u64>, r: Seq<u16>, d: int, i: int) -> int {
    if gap(v, r, d, i) > 0 {
        gap(v, r, d, i)
    } else {
        0
    }
}

pub open spec fn shortfalls(v: Seq<u64>, r: Seq<u16>, d: int) -> Seq<int> {
    Seq::new(v.len(), |i: int| shortfall(v, r, d, i))
}

/// Venues not above their rounded-down target after a deposit of `d`: the
/// ones a deposit may add to.
pub open spec fn not_clamped(v: Seq<u64>, r: Seq<u16>, d: int) -> Seq<bool> {
    Seq::new(v.len(), |i: int| gap(v, r, d, i) >= 0)
}

/// What a deposit `d` is split against: the shortfalls' total, or `d`
/// itself when the shortfalls add up to less.
pub open spec fn split_base(v: Seq<u64>, r: Seq<u16>, d: int) -> int {
    if seq_sum(shortfalls(v, r, d)) > d {
        seq_sum(shortfalls(v, r, d))
    } else {
        d
    }
}

/// Venue `i`'s part of a deposit `d`: its shortfall, scaled down in
/// proportion when the shortfalls exceed `d`, rounded down.
pub open spec fn scaled_share(v: Seq<u64>, r: Seq<u16>, d: int, i: int) -> int {
    shortfall(v, r, d, i) * d / split_base(v, r, d)
}

pub open spec fn scaled_shares(v: Seq<u64>, r: Seq<u16>, d: int) -> Seq<int> {
    Seq::new(v.len(), |i: int| scaled_share(v, r, d, i))
}

/// The move into venue `i` for a deposit `d > 0`. A venue above its
/// rounded-down target is clamped to nothing. The others get their
/// shortfall, scaled down in proportion when the shortfalls exceed `d`;
/// what is left of `d` goes to the first not-clamped venue of largest
/// target ratio.
pub open spec fn deposit_move(v: Seq<u64>, r: Seq<u16>, d: int, i: int) -> int {
    scaled_share(v, r, d, i) + if i == best_index(r, not_clamped(v, r, d)) {
        d - seq_sum(scaled_shares(v, r, d))
    } else {
        0
    }
}

/// The move out of venue `i` for a withdrawal `w > 0`: in proportion to the
/// venue's current value, rounded down, as a negative amount.
pub open spec fn withdraw_move(v: Seq<u64>, w: int, i: int) -> int {
    -(v[i] * w / seq_sum(amounts(v)))
}

/// The move for venue `i` when no capital enters or leaves: the distance to
/// its target, in either direction.
pub open spec fn rebalance_move(v: Seq<u64>, r: Seq<u16>, i: int) -> int {
    target_value(r, seq_sum(amounts(v)), i) - v[i]
}

/// The move for venue `i` given a signed capital change `delta`.
pub open spec fn planned_move(v: Seq<u64>, r: Seq<u16>, delta: int, i: int) -> int {
    if delta > 0 {
        deposit_move(v, r, delta, i)
    } else if delta < 0 {
        withdraw_move(v, -delta, i)
    } else {
        rebalance_move(v, r, i)
    }
}

/// `best_index` is the first eligible index holding the largest eligible
/// ratio, and there is one whenever some venue is eligible.
pub proof fn lemma_best_index(r: Seq<u16>, e: Seq<bool>)
    requires
        e.len() >= r.len(),
    ensures
        -1 <= best_index(r, e) < r.len(),
        best_index(r, e) >= 0 ==> e[best_index(r, e)],
        (exists|i: int| 0 <= i < r.len() && e[i]) ==> best_index(r, e) >= 0,
        best_index(r, e) >= 0 ==> forall|i: int|
            0 <= i < r.len() && e[i] ==> r[i] <= r[best_index(r, e)],
        best_index(r, e) >= 0 ==> forall|i: int|
            0 <= i < best_index(r, e) && e[i] ==> r[i] < r[best_index(r, e)],
    decreases r.len(),
{
    if r.len() > 0 {
        let j = r.len() - 1;
        let p = r.drop_last();
        lemma_best_index(p, e);
        let k = best_index(p, e);
        if exists|i: int| 0 <= i < r.len() && e[i] {
            let w = choose|i: int| 0 <= i < r.len() && e[i];
            if w < j {
                assert(exists|i: int| 0 <= i < p.len() && e[i]);
            }
        }
        if k < 0 {
            assert forall|i: int| 0 <= i < j implies !e[i] by {
                if e[i] {
                    assert(exists|i: int| 0 <= i < p.len() && e[i]);
                }
            }
        } else {
            assert forall|i: int| 0 <= i < j && e[i] implies r[i] <= r[k] by {
                assert(p[i] == r[i]);
            }
            assert forall|i: int| 0 <= i < k && e[i] implies r[i] < r[k] by {
                assert(p[i] == r[i]);
            }
        }
    }
}

/// Each venue's rounded-down share is at most `total`, and together they
/// leave a remainder in `[0, total]`.
pub proof fn lemma_floor_shares(r: Seq<u16>, total: int)
    requires
        valid_targets(r),
        total >= 0,
    ensures
        forall|i: int| 0 <= i < r.len() ==> 0 <= #[trigger] floor_share(r, total, i) <= total,
        0 <= seq_sum(floor_shares(r, total)) <= total,
{
    let rs = ratios(r);
    let fs = floor_shares(r, total);
    assert forall|i: int| 0 <= i < r.len() implies 0 <= #[trigger] floor_share(r, total, i)
        <= total by {
        lemma_elem_le_sum(rs, i);
        assert(rs[i] == r[i] as int);
        let x = r[i] * total;
        assert(0 <= x <= 10000 * total) by (nonlinear_arith)
            requires
                x == r[i] * total,
                0 <= r[i] <= 10000,
                total >= 0,
        ;
        lemma_floor_bounds(x, 10000);
        lemma_floor_bounds(10000 * total, 10000);
        vstd::arithmetic::div_mod::lemma_div_is_ordered(x, 10000 * total, 10000);
        assert((10000 * total) / 10000 == total);
    }
    lemma_sum_floor(rs, fs, total, 10000);
    lemma_sum_nonneg(fs);
    assert(seq_sum(fs) * 10000 <= 10000 * total) by (nonlinear_arith)
        requires
            seq_sum(fs) * 10000 <= seq_sum(rs) * total,
            seq_sum(rs) == 10000,
    ;
}

/// Targets are non-negative and sum to `total` exactly.
pub proof fn lemma_target_values(r: Seq<u16>, total: int)
    requires
        valid_targets(r),
        total >= 0,
    ensures
        forall|i: int| 0 <= i < r.len() ==> 0 <= #[trigger] target_value(r, total, i) <= total,
        seq_sum(target_values(r, total)) == total,
{
    lemma_floor_shares(r, total);
    let k = largest_ratio_venue(r);
    lemma_best_index(r, every_venue(r.len()));
    assert(every_venue(r.len())[0]);
    let fs = floor_shares(r, total);
    let rem = total - seq_sum(fs);
    lemma_sum_update(fs, k, fs[k] + rem);
    assert(target_values(r, total) =~= fs.update(k, fs[k] + rem));
    assert forall|i: int| 0 <= i < r.len() implies 0 <= #[trigger] target_value(r, total, i)
        <= total by {
        if i == k {
            lemma_elem_le_sum(fs, k);
        }
    }
}

fn ratio_total(r: &Vec<u16>) -> (s: u128)
    ensures
        s == seq_sum(ratios(r@)),
{
    let mut acc: u128 = 0;
    let mut i: usize = 0;
    while i < r.len()
        invariant
            i <= r@.len(),
            acc == seq_sum(ratios(r@).take(i as int)),
            acc <= i * 0xffff,
        decreases r@.len() - i,
    {
        proof {
            lemma_sum_take_step(ratios(r@), i as int);
        }
        acc = acc + r[i] as u128;
        i = i + 1;
    }
    proof {
        lemma_sum_take_all(ratios(r@));
    }
    acc
}

/// Whether `r` is a valid list of target ratios.
pub fn targets_are_valid(r: &Vec<u16>) -> (b: bool)
    ensures
        b == valid_targets(r@),
{
    r.len() > 0 && ratio_total(r) == BPS_TOTAL as u128
}

/// The sum of a list of balances, in 128 bits so that it cannot overflow.
pub fn total_of(v: &Vec<u64>) -> (s: u128)
    ensures
        s == seq_sum(amounts(v@)),
        s <= v@.len() * 0xffff_ffff_ffff_ffff,
{
    let mut acc: u128 = 0;
    let mut i: usize = 0;
    while i < v.len()
        invariant
            i <= v@.len(),
            acc == seq_sum(amounts(v@).take(i as int)),
            acc <= i * 0xffff_ffff_ffff_ffff,
        decreases v@.len() - i,
    {
        proof {
            lemma_sum_take_step(amounts(v@), i as int);
        }
        acc = acc + v[i] as u128;
        i = i + 1;
    }
    proof {
        lemma_sum_take_all(amounts(v@));
    }
    acc
}

fn best_of(r: &Vec<u16>, e: &Vec<bool>) -> (k: Option<usize>)
    requires
        e@.len() == r@.len(),
    ensures
        match k {
            Some(k) => k == best_index(r@, e@),
            None => best_index(r@, e@) == -1,
        },
{
    let mut best: Option<usize> = None;
    let mut i: usize = 0;
    while i < r.len()
        invariant
            i <= r@.len(),
            e@.len() == r@.len(),
            match best {
                Some(b) => b < i && b == best_index(r@.take(i as int), e@),
                None => best_index(r@.take(i as int), e@) == -1,
            },
        decreases r@.len() - i,
    {
        assert(r@.take(i + 1).drop_last() =~= r@.take(i as int));
        if e[i] {
            match best {
                None => {
                    best = Some(i);
                },
                Some(b) => {
                    if r[i] > r[b] {
                        best = Some(i);
                    }
                },
            }
        }
        i = i + 1;
    }
    assert(r@.take(r@.len() as int) =~= r@);
    best
}

/// The value each venue should hold when the pool holds `total`.
fn target_amounts(r: &Vec<u16>, total: u64) -> (tv: Vec<u64>)
    requires
        valid_targets(r@),
    ensures
        tv@.len() == r@.len(),
        forall|i: int| 0 <= i < r@.len() ==> tv@[i] == target_value(r@, total as int, i),
{
    proof {
        lemma_floor_shares(r@, total as int);
        lemma_target_values(r@, total as int);
    }
    let ghost fs = floor_shares(r@, total as int);
    let mut tv: Vec<u64> = Vec::new();
    let mut every: Vec<bool> = Vec::new();
    let mut floors: u128 = 0;
    let mut i: usize = 0;
    while i < r.len()
        invariant
            i <= r@.len(),
            fs == floor_shares(r@, total as int),
            forall|j: int| 0 <= j < r@.len() ==> 0 <= #[trigger] fs[j] <= total,
            tv@.len() == i,
            every@.len() == i,
            forall|j: int| 0 <= j < i ==> tv@[j] == fs[j],
            forall|j: int| 0 <= j < i ==> every@[j],
            floors == seq_sum(fs.take(i as int)),
            floors <= i * 0xffff_ffff_ffff_ffff,
        decreases r@.len() - i,
    {
        proof {
            lemma_sum_take_step(fs, i as int);
            assert(fs[i as int] == floor_share(r@, total as int, i as int));
            assert(r[i as int] as int * total as int <= 0xffff * 0xffff_ffff_ffff_ffff) by (
            nonlinear_arith);
        }
        let f: u128 = (r[i] as u128) * (total as u128) / 10000;
        tv.push(f as u64);
        every.push(true);
        floors = floors + f;
        i = i + 1;
    }
    proof {
        lemma_sum_take_all(fs);
        lemma_best_index(r@, every_venue(r@.len()));
        assert(every@ =~= every_venue(r@.len()));
        assert(every_venue(r@.len())[0]);
    }
    let k = best_of(r, &every);
    let k = match k {
        Some(k) => k,
        None => {
            proof {
                assert(false);
            }
            0
        },
    };
    let rem: u64 = total - floors as u64;
    proof {
        assert(k == largest_ratio_venue(r@));
        assert(target_value(r@, total as int, k as int) == fs[k as int] + rem);
    }
    let top: u64 = tv[k] + rem;
    tv.set(k, top);
    proof {
        assert forall|i: int| 0 <= i < r@.len() implies tv@[i] == target_value(
            r@,
            total as int,
            i,
        ) by {
            if i != k {
                assert(fs[i] == floor_share(r@, total as int, i));
            }
        }
    }
    tv
}

pub open spec fn deposit_moves(v: Seq<u64>, r: Seq<u16>, d: int) -> Seq<int> {
    Seq::new(v.len(), |i: int| deposit_move(v, r, d, i))
}

pub open spec fn withdraw_moves(v: Seq<u64>, w: int) -> Seq<int> {
    Seq::new(v.len(), |i: int| withdraw_move(v, w, i))
}

pub open spec fn rebalance_moves(v: Seq<u64>, r: Seq<u16>) -> Seq<int> {
    Seq::new(v.len(), |i: int| rebalance_move(v, r, i))
}

/// A sum of non-negative terms that is positive has a positive term.
proof fn lemma_positive_term(s: Seq<int>)
    requires
        forall|i: int| 0 <= i < s.len() ==> s[i] >= 0,
        seq_sum(s) > 0,
    ensures
        exists|i: int| 0 <= i < s.len() && s[i] > 0,
{
    if forall|i: int| 0 <= i < s.len() ==> s[i] <= 0 {
        lemma_sum_zeros(s);
    }
}

/// Some venue is never above its rounded-down target after a deposit
/// `d > 0`: the floors lose less than one unit per venue.
proof fn lemma_some_not_clamped(v: Seq<u64>, r: Seq<u16>, d: int)
    requires
        valid_config(v, r),
        d > 0,
    ensures
        exists|i: int| 0 <= i < v.len() && #[trigger] gap(v, r, d, i) >= 0,
{
    let n = v.len();
    let t = seq_sum(amounts(v));
    lemma_sum_nonneg(amounts(v));
    let fs = floor_shares(r, t + d);
    let rs = ratios(r);
    lemma_sum_floor(rs, fs, t + d, 10000);
    if forall|i: int| 0 <= i < n ==> #[trigger] gap(v, r, d, i) < 0 {
        let lowered = Seq::new(n, |i: int| v[i] - 1);
        let ones = Seq::new(n, |i: int| 1int);
        assert forall|i: int| 0 <= i < n implies fs[i] <= lowered[i] by {
            assert(gap(v, r, d, i) < 0);
        }
        lemma_sum_le(fs, lowered);
        lemma_sum_diff(amounts(v), ones, lowered);
        lemma_sum_count(ones);
        assert(false) by (nonlinear_arith)
            requires
                seq_sum(rs) * (t + d) <= seq_sum(fs) * 10000 + n * 9999,
                seq_sum(rs) == 10000,
                seq_sum(fs) <= t - n,
                d > 0,
                n >= 1,
        ;
    }
}

/// A sequence of ones sums to its length.
proof fn lemma_sum_count(s: Seq<int>)
    requires
        forall|i: int| 0 <= i < s.len() ==> s[i] == 1,
    ensures
        seq_sum(s) == s.len(),
    decreases s.len(),
{
    if s.len() > 0 {
        lemma_sum_count(s.drop_last());
    }
}

/// The split of a deposit `d > 0`: every move is non-negative and at most
/// `d`, a clamped venue gets nothing, and the moves add up to `d`.
pub proof fn lemma_deposit_split(v: Seq<u64>, r: Seq<u16>, d: int)
    requires
        valid_config(v, r),
        d > 0,
    ensures
        split_base(v, r, d) >= d,
        seq_sum(shortfalls(v, r, d)) <= split_base(v, r, d),
        forall|i: int|
            0 <= i < v.len() ==> 0 <= #[trigger] shortfall(v, r, d, i) <= seq_sum(amounts(v)) + d,
        0 <= seq_sum(scaled_shares(v, r, d)) <= d,
        forall|i: int| 0 <= i < v.len() ==> 0 <= #[trigger] scaled_share(v, r, d, i),
        0 <= best_index(r, not_clamped(v, r, d)) < v.len(),
        gap(v, r, d, best_index(r, not_clamped(v, r, d))) >= 0,
        forall|i: int| 0 <= i < v.len() ==> 0 <= #[trigger] deposit_move(v, r, d, i) <= d,
        forall|i: int|
            0 <= i < v.len() && #[trigger] gap(v, r, d, i) < 0 ==> deposit_move(v, r, d, i) == 0,
        seq_sum(deposit_moves(v, r, d)) == d,
{
    let n = v.len();
    let t = seq_sum(amounts(v));
    lemma_sum_nonneg(amounts(v));
    lemma_floor_shares(r, t + d);
    let sf = shortfalls(v, r, d);
    assert forall|i: int| 0 <= i < n implies 0 <= #[trigger] shortfall(v, r, d, i) <= t + d by {
        assert(0 <= floor_share(r, t + d, i) <= t + d);
    }
    lemma_sum_nonneg(sf);
    let base = split_base(v, r, d);
    let q = scaled_shares(v, r, d);
    lemma_sum_floor(sf, q, d, base);
    assert forall|i: int| 0 <= i < n implies 0 <= #[trigger] scaled_share(v, r, d, i) by {
        assert(sf[i] == shortfall(v, r, d, i));
        lemma_floor_bounds(sf[i] * d, base);
        assert(sf[i] * d >= 0) by (nonlinear_arith)
            requires
                sf[i] >= 0,
                d > 0,
        ;
    }
    lemma_sum_nonneg(q);
    assert(seq_sum(q) <= d) by (nonlinear_arith)
        requires
            seq_sum(q) * base <= seq_sum(sf) * d,
            seq_sum(sf) <= base,
            base > 0,
            d > 0,
    ;
    lemma_some_not_clamped(v, r, d);
    lemma_best_index(r, not_clamped(v, r, d));
    let w = choose|i: int| 0 <= i < n && #[trigger] gap(v, r, d, i) >= 0;
    assert(not_clamped(v, r, d)[w]);
    let k = best_index(r, not_clamped(v, r, d));
    assert(not_clamped(v, r, d)[k]);
    lemma_sum_update(q, k, q[k] + d - seq_sum(q));
    assert(deposit_moves(v, r, d) =~= q.update(k, q[k] + d - seq_sum(q)));
    assert forall|i: int| 0 <= i < n implies 0 <= #[trigger] deposit_move(v, r, d, i) <= d by {
        lemma_elem_le_sum(q, i);
    }
    assert forall|i: int| 0 <= i < n && #[trigger] gap(v, r, d, i) < 0 implies deposit_move(
        v,
        r,
        d,
        i,
    ) == 0 by {
        assert(!not_clamped(v, r, d)[i]);
        assert(shortfall(v, r, d, i) == 0);
        assert(0 * d / base == 0);
    }
}

/// When no venue is above its rounded-down target after a deposit `d > 0`,
/// every venue lands exactly on its target: each gets its gap, and the
/// venue of largest ratio also the rounding remainder.
pub proof fn lemma_deposit_without_overweight(v: Seq<u64>, r: Seq<u16>, d: int)
    requires
        valid_config(v, r),
        d > 0,
        forall|i: int| 0 <= i < v.len() ==> #[trigger] gap(v, r, d, i) >= 0,
    ensures
        forall|i: int|
            0 <= i < v.len() ==> #[trigger] deposit_move(v, r, d, i) == target_value(
                r,
                seq_sum(amounts(v)) + d,
                i,
            ) - v[i],
{
    let n = v.len();
    let t = seq_sum(amounts(v));
    lemma_sum_nonneg(amounts(v));
    lemma_floor_shares(r, t + d);
    let gaps = Seq::new(n, |i: int| gap(v, r, d, i));
    let fs = floor_shares(r, t + d);
    lemma_sum_diff(fs, amounts(v), gaps);
    assert(shortfalls(v, r, d) =~= gaps);
    assert(seq_sum(gaps) <= d);
    assert forall|i: int| 0 <= i < n implies #[trigger] scaled_share(v, r, d, i) == gap(v, r, d, i) by {
        assert(gap(v, r, d, i) >= 0);
        vstd::arithmetic::div_mod::lemma_div_by_multiple(gap(v, r, d, i), d);
    }
    assert(scaled_shares(v, r, d) =~= gaps);
    assert(not_clamped(v, r, d) =~= every_venue(n));
}

/// The pull of a withdrawal `0 < w <= total`: each venue gives at most what
/// it holds, and together they give `w` less under one unit per venue.
pub proof fn lemma_withdraw_split(v: Seq<u64>, w: int)
    requires
        0 < w <= seq_sum(amounts(v)),
    ensures
        forall|i: int| 0 <= i < v.len() ==> -v[i] <= #[trigger] withdraw_move(v, w, i) <= 0,
        -w <= seq_sum(withdraw_moves(v, w)),
        seq_sum(withdraw_moves(v, w)) < -w + v.len(),
{
    let n = v.len();
    let t = seq_sum(amounts(v));
    let a = amounts(v);
    let q = Seq::new(n, |i: int| v[i] * w / t);
    assert forall|i: int| 0 <= i < n implies -v[i] <= #[trigger] withdraw_move(v, w, i) <= 0 by {
        let x = v[i] * w;
        assert(0 <= x <= v[i] * t) by (nonlinear_arith)
            requires
                x == v[i] * w,
                0 <= v[i],
                0 < w <= t,
        ;
        lemma_floor_bounds(x, t);
        vstd::arithmetic::div_mod::lemma_div_is_ordered(x, v[i] * t, t);
        vstd::arithmetic::div_mod::lemma_div_by_multiple(v[i] as int, t);
    }
    assert forall|i: int| 0 <= i < n implies #[trigger] a[i] >= 0 && q[i] == a[i] * w / t by {}
    lemma_sum_floor(a, q, w, t);
    let zero = Seq::new(n, |i: int| 0int);
    let neg = withdraw_moves(v, w);
    lemma_sum_zeros(zero);
    lemma_sum_diff(zero, q, neg);
    assert(seq_sum(q) <= w) by (nonlinear_arith)
        requires
            seq_sum(q) * t <= t * w,
            t > 0,
    ;
    let sq = seq_sum(q);
    assert(n >= 1);
    assert(t * w < (sq + n) * t) by (nonlinear_arith)
        requires
            t * w <= sq * t + n * (t - 1),
            t > 0,
            n >= 1,
    ;
    assert(w < sq + n) by (nonlinear_arith)
        requires
            t * w < (sq + n) * t,
            t > 0,
    ;
}

/// A rebalance moves nothing in or out, and leaves every venue at its target.
pub proof fn lemma_rebalance_split(v: Seq<u64>, r: Seq<u16>)
    requires
        valid_config(v, r),
    ensures
        seq_sum(rebalance_moves(v, r)) == 0,
        forall|i: int|
            0 <= i < v.len() ==> #[trigger] rebalance_move(v, r, i) + v[i] == target_value(
                r,
                seq_sum(amounts(v)),
                i,
            ),
        forall|i: int|
            0 <= i < v.len() ==> 0 <= #[trigger] target_value(r, seq_sum(amounts(v)), i) <= seq_sum(
                amounts(v),
            ),
{
    let t = seq_sum(amounts(v));
    lemma_sum_nonneg(amounts(v));
    lemma_target_values(r, t);
    lemma_sum_diff(target_values(r, t), amounts(v), rebalance_moves(v, r));
}

fn rebalance_plan(v: &Vec<u64>, r: &Vec<u16>, t: u64) -> (m: Vec<i128>)
    requires
        valid_config(v@, r@),
        t == seq_sum(amounts(v@)),
    ensures
        m@.len() == v@.len(),
        forall|i: int| 0 <= i < v@.len() ==> m@[i] == rebalance_move(v@, r@, i),
{
    let tv = target_amounts(r, t);
    let mut m: Vec<i128> = Vec::new();
    let mut i: usize = 0;
    while i < v.len()
        invariant
            i <= v@.len(),
            v@.len() == r@.len(),
            tv@.len() == r@.len(),
            t == seq_sum(amounts(v@)),
            forall|j: int| 0 <= j < r@.len() ==> tv@[j] == target_value(r@, t as int, j),
            m@.len() == i,
            forall|j: int| 0 <= j < i ==> m@[j] == rebalance_move(v@, r@, j),
        decreases v@.len() - i,
    {
        m.push(tv[i] as i128 - v[i] as i128);
        i = i + 1;
    }
    m
}

fn withdraw_plan(v: &Vec<u64>, w: u64, t: u64) -> (m: Vec<i128>)
    requires
        0 < w <= t,
        t == seq_sum(amounts(v@)),
    ensures
        m@.len() == v@.len(),
        forall|i: int| 0 <= i < v@.len() ==> m@[i] == withdraw_move(v@, w as int, i),
{
    proof {
        lemma_withdraw_split(v@, w as int);
    }
    let mut m: Vec<i128> = Vec::new();
    let mut i: usize = 0;
    while i < v.len()
        invariant
            i <= v@.len(),
            0 < w <= t,
            t == seq_sum(amounts(v@)),
            forall|j: int| 0 <= j < v@.len() ==> -v@[j] <= #[trigger] withdraw_move(v@, w as int, j) <= 0,
            m@.len() == i,
            forall|j: int| 0 <= j < i ==> m@[j] == withdraw_move(v@, w as int, j),
        decreases v@.len() - i,
    {
        proof {
            crate::math::lemma_mul_fits_u128(v[i as int], w);
            assert(withdraw_move(v@, w as int, i as int) == -((v[i as int] as int) * (w as int) / (t as int)));
        }
        let q: u128 = (v[i] as u128) * (w as u128) / (t as u128);
        m.push(-(q as i128));
        i = i + 1;
    }
    m
}

fn deposit_plan(v: &Vec<u64>, r: &Vec<u16>, d: u64, t: u64) -> (m: Vec<i128>)
    requires
        valid_config(v@, r@),
        d > 0,
        t == seq_sum(amounts(v@)),
        t + d <= u64::MAX,
    ensures
        m@.len() == v@.len(),
        forall|i: int| 0 <= i < v@.len() ==> m@[i] == deposit_move(v@, r@, d as int, i),
{
    let ghost dd = d as int;
    proof {
        lemma_deposit_split(v@, r@, dd);
        lemma_floor_shares(r@, t + d);
    }
    let total: u64 = t + d;
    let ghost sfs = shortfalls(v@, r@, dd);
    let mut sf: Vec<u64> = Vec::new();
    let mut open: Vec<bool> = Vec::new();
    let mut short: u128 = 0;
    let mut i: usize = 0;
    while i < v.len()
        invariant
            i <= v@.len(),
            v@.len() == r@.len(),
            t == seq_sum(amounts(v@)),
            total == t + d,
            dd == d,
            sfs == shortfalls(v@, r@, dd),
            forall|j: int| 0 <= j < r@.len() ==> 0 <= #[trigger] floor_share(r@, total as int, j) <= total,
            sf@.len() == i,
            open@.len() == i,
            forall|j: int| 0 <= j < i ==> sf@[j] == shortfall(v@, r@, dd, j),
            forall|j: int| 0 <= j < i ==> open@[j] == not_clamped(v@, r@, dd)[j],
            short == seq_sum(sfs.take(i as int)),
            short <= i * 0xffff_ffff_ffff_ffff,
        decreases v@.len() - i,
    {
        proof {
            lemma_sum_take_step(sfs, i as int);
            assert(r[i as int] as int * total as int <= 0xffff * 0xffff_ffff_ffff_ffff) by (
            nonlinear_arith);
            assert(floor_share(r@, total as int, i as int) >= 0);
        }
        let f: u64 = ((r[i] as u128) * (total as u128) / 10000) as u64;
        let s: u64 = if f > v[i] {
            f - v[i]
        } else {
            0
        };
        sf.push(s);
        open.push(f >= v[i]);
        short = short + s as u128;
        i = i + 1;
    }
    proof {
        lemma_sum_take_all(sfs);
        assert(open@ =~= not_clamped(v@, r@, dd));
    }
    let base: u128 = if short > d as u128 {
        short
    } else {
        d as u128
    };
    let ghost qs = scaled_shares(v@, r@, dd);
    let mut m: Vec<i128> = Vec::new();
    let mut spent: u128 = 0;
    let mut i: usize = 0;
    while i < v.len()
        invariant
            i <= v@.len(),
            sf@.len() == v@.len(),
            dd == d,
            d > 0,
            base == split_base(v@, r@, dd),
            base >= d,
            qs == scaled_shares(v@, r@, dd),
            forall|j: int| 0 <= j < v@.len() ==> sf@[j] == shortfall(v@, r@, dd, j),
            0 <= seq_sum(qs) <= d,
            forall|j: int| 0 <= j < v@.len() ==> 0 <= #[trigger] scaled_share(v@, r@, dd, j),
            m@.len() == i,
            forall|j: int| 0 <= j < i ==> m@[j] == scaled_share(v@, r@, dd, j),
            spent == seq_sum(qs.take(i as int)),
            spent <= i * 0xffff_ffff_ffff_ffff,
        decreases v@.len() - i,
    {
        proof {
            lemma_sum_take_step(qs, i as int);
            crate::math::lemma_mul_fits_u128(sf[i as int], d);
            lemma_elem_le_sum(qs, i as int);
        }
        let q: u128 = (sf[i] as u128) * (d as u128) / base;
        m.push(q as i128);
        spent = spent + q;
        i = i + 1;
    }
    proof {
        lemma_sum_take_all(qs);
    }
    let k = best_of(r, &open);
    let k = match k {
        Some(k) => k,
        None => {
            proof {
                assert(false);
            }
            0
        },
    };
    proof {
        assert(qs[k as int] == scaled_share(v@, r@, dd, k as int));
        lemma_elem_le_sum(qs, k as int);
    }
    let top: i128 = m[k] + (d as i128 - spent as i128);
    m.set(k, top);
    m
}

/// Why a plan cannot be made, if it cannot: the targets or the venue list are
/// invalid, the pool would exceed the balance range, or a withdrawal asks
/// for more than the venues hold.
pub open spec fn plan_error(v: Seq<u64>, r: Seq<u16>, delta: int) -> Option<ErrorCode> {
    let t = seq_sum(amounts(v));
    if !valid_config(v, r) {
        Some(ErrorCode::InvalidAllocation)
    } else if t > u64::MAX || (delta > 0 && t + delta > u64::MAX) {
        Some(ErrorCode::NarrowingOverflow)
    } else if delta < 0 && -delta > t {
        Some(ErrorCode::InsufficientLiquidity)
    } else {
        None
    }
}

/// Plans how much to move into (positive) or out of (negative) each venue,
/// given the venues' current values, their target ratios and a signed
/// capital change: a deposit when `delta > 0`, a withdrawal when
/// `delta < 0`, a rebalance when `delta == 0`.
///
/// A deposit never takes from a venue, adds nothing to a venue above its
/// rounded-down target, and places exactly `delta`; a
/// withdrawal takes from each venue at most what it holds and in total
/// `-delta` less under one unit per venue; a rebalance moves nothing in or
/// out and leaves each venue at its target.
pub fn plan_allocation(current: &Vec<u64>, targets: &Vec<u16>, delta: i128) -> (res: Result<
    Vec<i128>,
    ErrorCode,
>)
    ensures
        match res {
            Ok(m) => {
                &&& plan_error(current@, targets@, delta as int) is None
                &&& m@.len() == current@.len()
                &&& forall|i: int|
                    0 <= i < m@.len() ==> m@[i] == planned_move(
                        current@,
                        targets@,
                        delta as int,
                        i,
                    )
                &&& delta > 0 ==> {
                    &&& forall|i: int| 0 <= i < m@.len() ==> m@[i] >= 0
                    &&& seq_sum(signed(m@)) == delta
                    &&& forall|i: int|
                        0 <= i < m@.len() && floor_share(
                            targets@,
                            seq_sum(amounts(current@)) + delta,
                            i,
                        ) < current@[i] ==> #[trigger] m@[i] == 0
                }
                &&& delta < 0 ==> {
                    &&& forall|i: int| 0 <= i < m@.len() ==> -current@[i] <= #[trigger] m@[i] <= 0
                    &&& delta <= seq_sum(signed(m@)) < delta + current@.len()
                }
                &&& delta == 0 ==> {
                    &&& seq_sum(signed(m@)) == 0
                    &&& forall|i: int|
                        0 <= i < m@.len() ==> current@[i] + #[trigger] m@[i] == target_value(
                            targets@,
                            seq_sum(amounts(current@)),
                            i,
                        )
                }
            },
            Err(e) => plan_error(current@, targets@, delta as int) == Some(e),
        },
{
    if targets.len() == 0 || current.len() != targets.len() {
        return Err(ErrorCode::InvalidAllocation);
    }
    if ratio_total(targets) != BPS_TOTAL as u128 {
        return Err(ErrorCode::InvalidAllocation);
    }
    let t = total_of(current);
    if t > u64::MAX as u128 {
        return Err(ErrorCode::NarrowingOverflow);
    }
    let t = t as u64;
    if delta > 0 {
        if delta > (u64::MAX - t) as i128 {
            return Err(ErrorCode::NarrowingOverflow);
        }
        let m = deposit_plan(current, targets, delta as u64, t);
        proof {
            lemma_deposit_split(current@, targets@, delta as int);
            assert(signed(m@) =~= deposit_moves(current@, targets@, delta as int));
        }
        Ok(m)
    } else if delta < 0 {
        if delta < -(t as i128) {
            return Err(ErrorCode::InsufficientLiquidity);
        }
        let m = withdraw_plan(current, (-delta) as u64, t);
        proof {
            lemma_withdraw_split(current@, -delta as int);
            assert(signed(m@) =~= withdraw_moves(current@, -delta as int));
        }
        Ok(m)
    } else {
        let m = rebalance_plan(current, targets, t);
        proof {
            lemma_rebalance_split(current@, targets@);
            assert(signed(m@) =~= rebalance_moves(current@, targets@));
        }
        Ok(m)
    }
}

} // verus!
