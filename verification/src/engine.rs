//! The pool engine: owns the four storage maps and orchestrates the
//! user-facing operations across them.
//!
//! Every operation takes the external staking and balance observations it
//! needs as plain arguments (a bonded balance, a free balance, the current
//! era) and returns what the host must do: which events to emit and which
//! staking or transfer calls to make. An operation that fails leaves the
//! state untouched; when a host-side call fails after an operation
//! succeeded, the host discards the mutated state to keep atomicity.

use vstd::prelude::*;
use vstd::pervasive::VecAdditionalExecFns;
use crate::alist::{
    alist_find, alist_keys_unique, alist_position, lemma_alist_find_index, lemma_alist_find_push,
    lemma_alist_find_remove,
    lemma_alist_find_unique_at, lemma_alist_find_update, lemma_alist_unique_push,
    lemma_alist_unique_remove, lemma_alist_unique_update,
};
use crate::pool::{
    lemma_sorted_interval_len, lemma_with_era_find_none_inv, with_era_at_most, with_era_find,
    with_era_sorted, BondedPool, Delegator, Error, Event, PoolState, RewardPool, SubPools,
};
use crate::sat::{cap_u128, sat_sub_u128};
use crate::wide::{cap_u256, div_points, mul_balance_saturating, widening_mul};

verus! {

broadcast use vstd::seq_lib::lemma_seq_skip_index, vstd::seq_lib::lemma_seq_skip_len;

/// The era reading from the staking engine, zero when it reports none.
pub open spec fn spec_era_or_zero(e: Option<u32>) -> u32 {
    match e {
        Option::Some(x) => x,
        Option::None => 0,
    }
}

/// The era reading, in executable form.
pub fn era_or_zero(e: Option<u32>) -> (r: u32)
    ensures
        r == spec_era_or_zero(e),
{
    match e {
        Option::Some(x) => x,
        Option::None => 0,
    }
}

/// Redeeming a member's share never asks the pool for more than its whole
/// balance, as long as the member holds no more points than the pool.
pub proof fn lemma_unbond_le_balance(b: int, p: int, dp: int)
    requires
        0 <= b <= u128::MAX,
        0 <= dp <= p,
        p <= u128::MAX,
    ensures
        crate::points::spec_balance_to_unbond(b, p, dp) <= b,
{
    if b != 0 && p != 0 && dp != 0 {
        let capped = crate::sat::cap_u128(b * dp);
        assert(0 <= b * dp && b * dp <= p * b) by (nonlinear_arith)
            requires
                0 <= b,
                0 <= dp <= p,
        ;
        vstd::arithmetic::div_mod::lemma_div_is_ordered(capped, p * b, p);
        vstd::arithmetic::div_mod::lemma_div_multiples_vanish(b, p);
    }
}

/// Issuing nothing mints nothing, whatever the ledger holds.
proof fn lemma_issue_zero(b: int, p: int)
    requires
        b >= 0,
        p >= 0,
    ensures
        crate::points::spec_points_to_issue(b, p, 0) == 0,
{
    assert(0 * (crate::points::POINTS_TO_BALANCE_INIT_RATIO as int) == 0) by (nonlinear_arith);
    assert(0 * p == 0) by (nonlinear_arith);
    assert(p * 0 == 0) by (nonlinear_arith);
    if p != 0 && b != 0 {
        vstd::arithmetic::div_mod::lemma_basic_div(0, b);
    }
}

/// A sorted per-era map that avoids `era` itself, keeps below it, and (once
/// the merge ran) keeps above the cutoff, has room left under the window.
proof fn lemma_sub_len_before_push(s: Seq<(u32, crate::pool::UnbondPool)>, era: u32, w: int)
    requires
        with_era_sorted(s),
        w >= 1,
        with_era_at_most(s, era),
        forall|j: int| 0 <= j < s.len() ==> (#[trigger] s[j]).0 != era,
        era >= w ==> crate::pool::with_era_above(s, era - w),
    ensures
        s.len() <= w - 1,
{
    let lo: int = if era >= w {
        era - w + 1
    } else {
        0
    };
    let hi: int = era - 1;
    assert forall|i: int| 0 <= i < s.len() implies lo <= (#[trigger] s[i]).0 <= hi by {
        assert(s[i].0 <= era);
        assert(s[i].0 != era);
    }
    lemma_sorted_interval_len(s, lo, hi);
}

/// The points the entry contributes to its pool's active-share sum: its
/// points while it is a member of `pool` and not unbonding, else nothing.
pub open spec fn active_points(e: (u64, Delegator), pool: u64) -> int {
    if e.1.pool == pool && e.1.unbonding_era is None {
        e.1.points as int
    } else {
        0
    }
}

/// Sum of the active points all delegators hold in `pool`.
pub open spec fn sum_active_points(s: Seq<(u64, Delegator)>, pool: u64) -> int
    decreases s.len(),
{
    if s.len() == 0 {
        0
    } else {
        active_points(s[0], pool) + sum_active_points(s.drop_first(), pool)
    }
}

/// The active-share sum is never negative.
pub proof fn lemma_sum_nonneg(s: Seq<(u64, Delegator)>, pool: u64)
    ensures
        sum_active_points(s, pool) >= 0,
    decreases s.len(),
{
    if s.len() > 0 {
        lemma_sum_nonneg(s.drop_first(), pool);
    }
}

/// Appending an entry adds its contribution to the sum.
pub proof fn lemma_sum_push(s: Seq<(u64, Delegator)>, e: (u64, Delegator), pool: u64)
    ensures
        sum_active_points(s.push(e), pool) == sum_active_points(s, pool) + active_points(e, pool),
    decreases s.len(),
{
    if s.len() == 0 {
        assert(s.push(e)[0] == e);
        assert(s.push(e).drop_first() =~= Seq::<(u64, Delegator)>::empty());
        assert(sum_active_points(s.push(e), pool) == active_points(e, pool) + sum_active_points(
            s.push(e).drop_first(),
            pool,
        ));
    } else {
        assert(s.push(e)[0] == s[0]);
        assert(s.push(e).drop_first() =~= s.drop_first().push(e));
        lemma_sum_push(s.drop_first(), e, pool);
        assert(sum_active_points(s.push(e), pool) == active_points(s[0], pool) + sum_active_points(
            s.drop_first().push(e),
            pool,
        ));
        assert(sum_active_points(s, pool) == active_points(s[0], pool) + sum_active_points(
            s.drop_first(),
            pool,
        ));
    }
}

/// Replacing the entry at `i` shifts the sum by the contribution delta.
pub proof fn lemma_sum_update(s: Seq<(u64, Delegator)>, i: int, e: (u64, Delegator), pool: u64)
    requires
        0 <= i < s.len(),
    ensures
        sum_active_points(s.update(i, e), pool) == sum_active_points(s, pool) - active_points(
            s[i],
            pool,
        ) + active_points(e, pool),
    decreases i,
{
    let t = s.update(i, e);
    if i == 0 {
        assert(t[0] == e);
        assert(t.drop_first() =~= s.drop_first());
    } else {
        assert(t[0] == s[0]);
        assert(t.drop_first() =~= s.drop_first().update(i - 1, e));
        assert(s.drop_first()[i - 1] == s[i]);
        lemma_sum_update(s.drop_first(), i - 1, e, pool);
    }
}

/// Removing the entry at `i` subtracts its contribution from the sum.
pub proof fn lemma_sum_remove(s: Seq<(u64, Delegator)>, i: int, pool: u64)
    requires
        0 <= i < s.len(),
    ensures
        sum_active_points(s.remove(i), pool) == sum_active_points(s, pool) - active_points(
            s[i],
            pool,
        ),
    decreases i,
{
    let t = s.remove(i);
    if i == 0 {
        assert(t =~= s.drop_first());
    } else {
        assert(t[0] == s[0]);
        assert(t.drop_first() =~= s.drop_first().remove(i - 1));
        assert(s.drop_first()[i - 1] == s[i]);
        lemma_sum_remove(s.drop_first(), i - 1, pool);
    }
}

/// Under the pre-join admission bounds — a points-to-balance ratio below
/// the size cap and a joined balance below the range's slice — the points a
/// join issues cannot push the pool's count past the balance type.
proof fn lemma_join_no_points_overflow(b: int, p: int, a: int, psm: int)
    requires
        1 <= psm,
        0 < b,
        0 <= p <= u128::MAX,
        0 <= a,
        p / b < psm,
        a + b < (u128::MAX as int) / psm,
    ensures
        p + crate::points::spec_points_to_issue(b, p, a) <= u128::MAX,
{
    let max = u128::MAX as int;
    vstd::arithmetic::div_mod::lemma_fundamental_div_mod(max, psm);
    vstd::arithmetic::div_mod::lemma_mod_bound(max, psm);
    if p == 0 {
        assert(crate::points::spec_points_to_issue(b, p, a) == a * 1);
        assert(a * 1 == a) by (nonlinear_arith);
        assert(a <= a + b);
        assert(max / psm <= psm * (max / psm)) by (nonlinear_arith)
            requires
                psm >= 1,
                max / psm >= 0,
        ;
    } else {
        let issued = crate::points::spec_points_to_issue(b, p, a);
        let capped = crate::sat::cap_u128(p * a);
        assert(issued == capped / b);
        assert(p * a >= 0) by (nonlinear_arith)
            requires
                p >= 0,
                a >= 0,
        ;
        vstd::arithmetic::div_mod::lemma_div_is_ordered(capped, p * a, b);
        vstd::arithmetic::div_mod::lemma_fundamental_div_mod(p, b);
        vstd::arithmetic::div_mod::lemma_mod_bound(p, b);
        // p <= psm * b - 1, so p * a <= (psm * b) * a and the quotient by b
        // is at most psm * a.
        assert(p <= psm * b - 1) by (nonlinear_arith)
            requires
                p == (p / b) * b + p % b,
                p / b <= psm - 1,
                0 <= p % b < b,
                b > 0,
        ;
        assert(p * a <= (b * (psm * a))) by (nonlinear_arith)
            requires
                0 <= p <= psm * b,
                a >= 0,
                b > 0,
        ;
        vstd::arithmetic::div_mod::lemma_div_is_ordered(p * a, b * (psm * a), b);
        assert(psm * a >= 0) by (nonlinear_arith)
            requires
                psm >= 1,
                a >= 0,
        ;
        vstd::arithmetic::div_mod::lemma_div_multiples_vanish(psm * a, b);
        assert(issued <= psm * a);
        assert(p + issued <= psm * b - 1 + psm * a);
        assert(psm * b + psm * a == psm * (a + b)) by (nonlinear_arith);
        assert(psm * (a + b) <= psm * (max / psm - 1)) by (nonlinear_arith)
            requires
                psm >= 1,
                a + b <= max / psm - 1,
        ;
        assert(psm * (max / psm - 1) == psm * (max / psm) - psm) by (nonlinear_arith);
        assert(psm * (max / psm) <= max);
    }
}

/// A pool nobody actively delegates to has an active-share sum of zero.
pub proof fn lemma_sum_zero(s: Seq<(u64, Delegator)>, pool: u64)
    requires
        forall|i: int| 0 <= i < s.len() ==> active_points(#[trigger] s[i], pool) == 0,
    ensures
        sum_active_points(s, pool) == 0,
    decreases s.len(),
{
    if s.len() > 0 {
        assert forall|i: int| 0 <= i < s.drop_first().len() implies active_points(
            #[trigger] s.drop_first()[i],
            pool,
        ) == 0 by {
            assert(s.drop_first()[i] == s[i + 1]);
        }
        lemma_sum_zero(s.drop_first(), pool);
    }
}

/// One member's contribution never exceeds the whole sum.
pub proof fn lemma_sum_member(s: Seq<(u64, Delegator)>, i: int, pool: u64)
    requires
        0 <= i < s.len(),
    ensures
        active_points(s[i], pool) <= sum_active_points(s, pool),
{
    lemma_sum_remove(s, i, pool);
    lemma_sum_nonneg(s.remove(i), pool);
}

/// The engine. Configuration is fixed at construction; the four maps are the
/// pool storage. The struct's well-formedness predicate `wf` carries the
/// system invariants, and every operation preserves it.
#[derive(Clone)]
pub struct Pallet {
    /// Minimum bond to join a pool.
    pub min_join_bond: u128,
    /// Minimum bond to create a pool.
    pub min_create_bond: u128,
    /// Hard cap on the number of pools, if any.
    pub max_pools: Option<u32>,
    /// Ceiling on the points-to-balance ratio admitted at join, and the
    /// divisor of the admitted balance range.
    pub pool_size_max: u128,
    /// Eras funds stay locked after unbonding, per the staking engine.
    pub bonding_duration: u32,
    /// Extra eras a per-era sub pool outlives the bonding duration.
    pub post_unbonding_pools_window: u32,
    /// Active delegators, by their account.
    pub delegators: Vec<(u64, Delegator)>,
    /// Bonded pools, by the pool's account.
    pub bonded_pools: Vec<(u64, BondedPool)>,
    /// Reward pools, by the bonded pool's account.
    pub reward_pools: Vec<(u64, RewardPool)>,
    /// Unbonding sub pools, by the bonded pool's account.
    pub sub_pools_storage: Vec<(u64, SubPools)>,
}

impl Pallet {
    /// Eras a per-era sub pool can exist before it is merged away; also the
    /// size bound of the per-era map.
    pub open spec fn spec_total_unbonding_pools(self) -> int {
        self.bonding_duration + self.post_unbonding_pools_window
    }

    /// The maximum amount of eras an unbonding pool can exist prior to being
    /// merged into the era-less pool.
    pub fn total_unbonding_pools(&self) -> (r: u32)
        requires
            self.wf(),
        ensures
            r == self.spec_total_unbonding_pools(),
    {
        self.bonding_duration + self.post_unbonding_pools_window
    }

    /// Well-formedness of one pool's sub pools: eras strictly ascending and
    /// bounded in number by the unbonding-pool window, and a drained per-era
    /// pool holds no balance.
    pub open spec fn sub_pools_wf(self, sp: SubPools) -> bool {
        &&& with_era_sorted(sp.with_era@)
        &&& sp.with_era@.len() <= self.spec_total_unbonding_pools()
        &&& (forall|j: int|
            0 <= j < sp.with_era@.len() ==> ((#[trigger] sp.with_era@[j]).1.points == 0
                ==> sp.with_era@[j].1.balance == 0))
    }

    /// The system invariants:
    /// - configuration is usable (a positive size cap, a window of at least
    ///   one era past the bonding duration, a representable total);
    /// - each map binds a key at most once;
    /// - a bonded pool is stored under its own account;
    /// - bonded and reward pools exist in lockstep;
    /// - a delegator holding active points belongs to a live pool;
    /// - a bonded pool's points equal the sum of its delegators' active
    ///   points;
    /// - every family of sub pools is well formed.
    pub open spec fn wf(self) -> bool {
        &&& self.pool_size_max >= 1
        &&& self.post_unbonding_pools_window >= 1
        &&& self.spec_total_unbonding_pools() <= u32::MAX
        &&& alist_keys_unique(self.delegators@)
        &&& alist_keys_unique(self.bonded_pools@)
        &&& alist_keys_unique(self.reward_pools@)
        &&& alist_keys_unique(self.sub_pools_storage@)
        &&& (forall|i: int|
            0 <= i < self.bonded_pools@.len() ==> (#[trigger] self.bonded_pools@[i]).1.account
                == self.bonded_pools@[i].0)
        &&& (forall|i: int|
            0 <= i < self.bonded_pools@.len() ==> alist_find(
                self.reward_pools@,
                (#[trigger] self.bonded_pools@[i]).0,
            ) is Some)
        &&& (forall|i: int|
            0 <= i < self.reward_pools@.len() ==> alist_find(
                self.bonded_pools@,
                (#[trigger] self.reward_pools@[i]).0,
            ) is Some)
        &&& (forall|i: int|
            0 <= i < self.delegators@.len() ==> (((#[trigger] self.delegators@[i]).1.unbonding_era
                is None && self.delegators@[i].1.points > 0) ==> (alist_find(
                self.bonded_pools@,
                self.delegators@[i].1.pool,
            ) is Some && alist_find(self.reward_pools@, self.delegators@[i].1.pool) is Some)))
        &&& (forall|i: int|
            0 <= i < self.bonded_pools@.len() ==> (#[trigger] self.bonded_pools@[i]).1.points
                == sum_active_points(self.delegators@, self.bonded_pools@[i].0))
        &&& (forall|i: int|
            0 <= i < self.sub_pools_storage@.len() ==> self.sub_pools_wf(
                (#[trigger] self.sub_pools_storage@[i]).1,
            ))
        &&& (forall|i: int|
            0 <= i < self.bonded_pools@.len() ==> self.depositor_leaves_last(
                (#[trigger] self.bonded_pools@[i]).0,
                self.bonded_pools@[i].1,
            ))
    }

    /// The depositor leaves last: while a pool's depositor is unbonding out
    /// of it, the pool is destroying and holds no active shares, so the
    /// depositor's eventual withdrawal may tear the pool down.
    pub open spec fn depositor_leaves_last(self, key: u64, b: BondedPool) -> bool {
        match alist_find(self.delegators@, b.depositor) {
            Option::Some(dep) => (dep.pool == key && dep.unbonding_era is Some) ==> (b.state
                == PoolState::Destroying && b.points == 0),
            Option::None => true,
        }
    }

    /// A fresh engine with no pools. The window must give a slashable era at
    /// least one era past the bonding duration, so the sub-pool window
    /// always outlives any slash that can target it.
    pub fn new(
        min_join_bond: u128,
        min_create_bond: u128,
        max_pools: Option<u32>,
        pool_size_max: u128,
        bonding_duration: u32,
        post_unbonding_pools_window: u32,
    ) -> (r: Pallet)
        requires
            pool_size_max >= 1,
            post_unbonding_pools_window >= 1,
            bonding_duration + post_unbonding_pools_window <= u32::MAX,
        ensures
            r.wf(),
            r.min_join_bond == min_join_bond,
            r.min_create_bond == min_create_bond,
            r.max_pools == max_pools,
            r.pool_size_max == pool_size_max,
            r.bonding_duration == bonding_duration,
            r.post_unbonding_pools_window == post_unbonding_pools_window,
            r.delegators@.len() == 0,
            r.bonded_pools@.len() == 0,
            r.reward_pools@.len() == 0,
            r.sub_pools_storage@.len() == 0,
    {
        Pallet {
            min_join_bond,
            min_create_bond,
            max_pools,
            pool_size_max,
            bonding_duration,
            post_unbonding_pools_window,
            delegators: Vec::new(),
            bonded_pools: Vec::new(),
            reward_pools: Vec::new(),
            sub_pools_storage: Vec::new(),
        }
    }

    /// Whether `who` may forward a validator list for the pool to the
    /// staking engine. The host makes the nominate call only on `Ok`.
    pub fn nominate(&self, who: u64, pool_account: u64) -> (r: Result<(), Error>)
        ensures
            r == self.spec_nominate(who, pool_account),
    {
        match alist_position(&self.bonded_pools, pool_account) {
            Option::None => Result::Err(Error::PoolNotFound),
            Option::Some(i) => {
                let bonded_pool = &self.bonded_pools[i].1;
                if bonded_pool.can_nominate(who) {
                    Result::Ok(())
                } else {
                    Result::Err(Error::NotNominator)
                }
            },
        }
    }

    /// What `nominate` decides: the pool must exist and the caller must be
    /// its root or nominator.
    pub open spec fn spec_nominate(self, who: u64, pool_account: u64) -> Result<(), Error> {
        match alist_find(self.bonded_pools@, pool_account) {
            Option::None => Result::Err(Error::PoolNotFound),
            Option::Some(p) => if p.spec_can_nominate(who) {
                Result::Ok(())
            } else {
                Result::Err(Error::NotNominator)
            },
        }
    }

    /// The staking call `pool_withdraw_unbonded` forwards: releasing the
    /// pool account's expired unlocking chunks. Any caller; pure
    /// housekeeping, so the engine's own state plays no part.
    pub fn pool_withdraw_unbonded(&self, pool_account: u64, num_slashing_spans: u32) -> (r: (
        u64,
        u32,
    ))
        ensures
            r == (pool_account, num_slashing_spans),
    {
        (pool_account, num_slashing_spans)
    }

    /// What `set_state` decides: the pool must exist, the caller must be its
    /// root or state toggler (the same accounts that may kick), and a
    /// destroying pool admits no transition out.
    pub open spec fn spec_set_state(self, who: u64, pool_account: u64, state: PoolState) -> Result<
        (),
        Error,
    > {
        match alist_find(self.bonded_pools@, pool_account) {
            Option::None => Result::Err(Error::PoolNotFound),
            Option::Some(p) => if p.state == PoolState::Destroying {
                Result::Err(Error::NotDestroying)
            } else if who != p.root && who != p.state_toggler {
                Result::Err(Error::NotKickerOrDestroying)
            } else {
                Result::Ok(())
            },
        }
    }

    /// Set a pool's lifecycle state. Destroying is absorbing: once a pool
    /// destroys, no caller can revert it (`NotDestroying` then reports the
    /// refused transition); the permission error is shared with kicking,
    /// which the same two role accounts hold.
    pub fn set_state(&mut self, who: u64, pool_account: u64, state: PoolState) -> (r: Result<
        (),
        Error,
    >)
        requires
            old(self).wf(),
        ensures
            final(self).wf(),
            r == old(self).spec_set_state(who, pool_account, state),
            r is Err ==> *final(self) == *old(self),
            r is Ok ==> {
                &&& alist_find(final(self).bonded_pools@, pool_account) == Option::Some(
                    (BondedPool {
                        state,
                        ..alist_find(old(self).bonded_pools@, pool_account).unwrap()
                    }),
                )
                &&& (forall|k: u64|
                    k != pool_account ==> alist_find(final(self).bonded_pools@, k) == alist_find(
                        old(self).bonded_pools@,
                        k,
                    ))
                &&& final(self).delegators@ == old(self).delegators@
                &&& final(self).reward_pools@ == old(self).reward_pools@
                &&& final(self).sub_pools_storage@ == old(self).sub_pools_storage@
                &&& final(self).min_join_bond == old(self).min_join_bond
                &&& final(self).min_create_bond == old(self).min_create_bond
                &&& final(self).max_pools == old(self).max_pools
            },
    {
        match alist_position(&self.bonded_pools, pool_account) {
            Option::None => Result::Err(Error::PoolNotFound),
            Option::Some(i) => {
                let p = self.bonded_pools[i].1;
                if p.is_destroying() {
                    Result::Err(Error::NotDestroying)
                } else if who != p.root && who != p.state_toggler {
                    Result::Err(Error::NotKickerOrDestroying)
                } else {
                    let updated = BondedPool { state, ..p };
                    self.bonded_pools.set(i, (pool_account, updated));
                    proof {
                        self.lemma_bonded_value_update(*old(self), i as int, updated);
                        assert forall|k: u64| alist_find(self.bonded_pools@, k) == (if k
                            == pool_account {
                            Option::Some(updated)
                        } else {
                            alist_find(old(self).bonded_pools@, k)
                        }) by {
                            lemma_alist_find_update(
                                old(self).bonded_pools@,
                                i as int,
                                (pool_account, updated),
                                k,
                            );
                        }
                        lemma_alist_find_unique_at(old(self).bonded_pools@, pool_account, i as int);
                    }
                    Result::Ok(())
                }
            },
        }
    }

    /// Updating a bonded pool's value in place — same key, same account,
    /// same points — preserves well-formedness.
    proof fn lemma_bonded_value_update(self, prev: Pallet, i: int, updated: BondedPool)
        requires
            prev.wf(),
            0 <= i < prev.bonded_pools@.len(),
            updated.account == prev.bonded_pools@[i].1.account,
            updated.points == prev.bonded_pools@[i].1.points,
            updated.depositor == prev.bonded_pools@[i].1.depositor,
            prev.bonded_pools@[i].1.state == PoolState::Destroying ==> updated.state
                == PoolState::Destroying,
            self == (Pallet {
                bonded_pools: self.bonded_pools,
                ..prev
            }),
            self.bonded_pools@ == prev.bonded_pools@.update(
                i,
                (prev.bonded_pools@[i].0, updated),
            ),
        ensures
            self.wf(),
    {
        let key = prev.bonded_pools@[i].0;
        lemma_alist_unique_update(prev.bonded_pools@, i, (key, updated));
        assert forall|j: int| 0 <= j < self.bonded_pools@.len() implies (
        #[trigger] self.bonded_pools@[j]).1.account == self.bonded_pools@[j].0 by {
            if j != i {
                assert(self.bonded_pools@[j] == prev.bonded_pools@[j]);
            }
        }
        assert forall|j: int| 0 <= j < self.bonded_pools@.len() implies alist_find(
            self.reward_pools@,
            (#[trigger] self.bonded_pools@[j]).0,
        ) is Some by {
            if j != i {
                assert(self.bonded_pools@[j] == prev.bonded_pools@[j]);
            } else {
                assert(self.bonded_pools@[j].0 == key);
            }
        }
        assert forall|j: int| 0 <= j < self.reward_pools@.len() implies alist_find(
            self.bonded_pools@,
            (#[trigger] self.reward_pools@[j]).0,
        ) is Some by {
            lemma_alist_find_update(
                prev.bonded_pools@,
                i,
                (key, updated),
                self.reward_pools@[j].0,
            );
        }
        assert forall|j: int| 0 <= j < self.delegators@.len() implies (((
        #[trigger] self.delegators@[j]).1.unbonding_era is None && self.delegators@[j].1.points
            > 0) ==> (alist_find(self.bonded_pools@, self.delegators@[j].1.pool) is Some
            && alist_find(self.reward_pools@, self.delegators@[j].1.pool) is Some)) by {
            lemma_alist_find_update(
                prev.bonded_pools@,
                i,
                (key, updated),
                self.delegators@[j].1.pool,
            );
        }
        assert forall|j: int| 0 <= j < self.bonded_pools@.len() implies (
        #[trigger] self.bonded_pools@[j]).1.points == sum_active_points(
            self.delegators@,
            self.bonded_pools@[j].0,
        ) by {
            if j != i {
                assert(self.bonded_pools@[j] == prev.bonded_pools@[j]);
            } else {
                assert(self.bonded_pools@[j].0 == key);
                assert(prev.bonded_pools@[i].1.points == sum_active_points(
                    prev.delegators@,
                    key,
                ));
            }
        }
        assert forall|j: int| 0 <= j < self.bonded_pools@.len() implies self.depositor_leaves_last(
            (#[trigger] self.bonded_pools@[j]).0,
            self.bonded_pools@[j].1,
        ) by {
            if j != i {
                assert(self.bonded_pools@[j] == prev.bonded_pools@[j]);
                assert(prev.depositor_leaves_last(prev.bonded_pools@[j].0, prev.bonded_pools@[j].1));
            } else {
                assert(prev.depositor_leaves_last(prev.bonded_pools@[i].0, prev.bonded_pools@[i].1));
            }
        }
    }
}

/// The reward pool's lifetime earnings after re-observing its free balance:
/// what arrived since the last poll, added saturating.
pub open spec fn spec_new_total_earnings(rp: RewardPool, current_balance: int) -> int {
    cap_u128(
        rp.total_earnings + if current_balance >= rp.balance {
            current_balance - rp.balance
        } else {
            0
        },
    )
}

/// The reward pool's virtual points once the new earnings are folded in:
/// every earned unit inflates the count by the bonded pool's points.
pub open spec fn spec_current_points(bonded_points: int, rp: RewardPool, current_balance: int) -> int {
    cap_u256(
        rp.points.val() + bonded_points * (spec_new_total_earnings(rp, current_balance)
            - rp.total_earnings),
    )
}

/// The virtual points a delegator holds against lifetime earnings `te_now`:
/// their share count times the earnings since their last claim.
pub open spec fn spec_delegator_virtual_points(d: Delegator, te_now: int) -> int {
    d.points * (if te_now >= d.reward_pool_total_earnings {
        te_now - d.reward_pool_total_earnings
    } else {
        0
    })
}

/// The payout a claim hands the delegator: their virtual share of the reward
/// account's balance, zero whenever any factor is zero.
pub open spec fn spec_payout(
    bonded_points: int,
    rp: RewardPool,
    d: Delegator,
    current_balance: int,
) -> int {
    let te = spec_new_total_earnings(rp, current_balance);
    let cp = spec_current_points(bonded_points, rp, current_balance);
    let dvp = spec_delegator_virtual_points(d, te);
    if dvp == 0 || cp == 0 || current_balance == 0 {
        0
    } else {
        let q = cap_u256(dvp * current_balance) / cp;
        if q > u128::MAX {
            u128::MAX as int
        } else {
            q
        }
    }
}

/// The reward pool's virtual points after a claim: the delegator's virtual
/// points are redeemed out of the refreshed count.
pub open spec fn spec_reward_points_after(
    bonded_points: int,
    rp: RewardPool,
    d: Delegator,
    current_balance: int,
) -> int {
    let te = spec_new_total_earnings(rp, current_balance);
    let cp = spec_current_points(bonded_points, rp, current_balance);
    let dvp = spec_delegator_virtual_points(d, te);
    if cp >= dvp {
        cp - dvp
    } else {
        0
    }
}

impl Pallet {
    /// Why a payout for `delegator` would be refused: its reward pool must
    /// exist (anything else is a broken record) and the delegator must not
    /// be unbonding — the unbond path claims one final time on the way out.
    pub open spec fn spec_reward_payout_error(self, delegator: Delegator) -> Option<Error> {
        if alist_find(self.reward_pools@, delegator.pool) is None {
            Option::Some(Error::RewardPoolNotFound)
        } else if delegator.unbonding_era is Some {
            Option::Some(Error::AlreadyUnbonding)
        } else {
            Option::None
        }
    }

    /// Why a claim by `who` would be refused, in check order.
    pub open spec fn spec_claim_payout_error(self, who: u64) -> Option<Error> {
        match alist_find(self.delegators@, who) {
            Option::None => Option::Some(Error::DelegatorNotFound),
            Option::Some(d) => match alist_find(self.bonded_pools@, d.pool) {
                Option::None => Option::Some(Error::PoolNotFound),
                Option::Some(_) => self.spec_reward_payout_error(d),
            },
        }
    }

    /// Calculate the payout for `delegator` from a fresh reading of the
    /// reward account's free balance, and the reward-pool and delegator
    /// records as they must be written back.
    fn calculate_delegator_payout(
        bonded_pool: &BondedPool,
        reward_pool: RewardPool,
        delegator: Delegator,
        current_balance: u128,
    ) -> (r: Result<(RewardPool, Delegator, u128), Error>)
        ensures
            r is Err <==> delegator.unbonding_era is Some,
            r is Err ==> r == Result::<(RewardPool, Delegator, u128), Error>::Err(
                Error::AlreadyUnbonding,
            ),
            r is Ok ==> ({
                let (rp2, d2, payout) = r.unwrap();
                let te = spec_new_total_earnings(reward_pool, current_balance as int);
                &&& payout == spec_payout(
                    bonded_pool.points as int,
                    reward_pool,
                    delegator,
                    current_balance as int,
                )
                &&& rp2.account == reward_pool.account
                &&& rp2.total_earnings == te
                &&& rp2.balance == if current_balance >= payout {
                    current_balance - payout
                } else {
                    0
                }
                &&& rp2.points.val() == spec_reward_points_after(
                    bonded_pool.points as int,
                    reward_pool,
                    delegator,
                    current_balance as int,
                )
                &&& d2 == (Delegator { reward_pool_total_earnings: te as u128, ..delegator })
            }),
    {
        // An unbonding delegator no longer holds bonded-pool points and
        // cannot claim.
        if delegator.unbonding_era.is_some() {
            return Result::Err(Error::AlreadyUnbonding);
        }
        let mut reward_pool = reward_pool;
        let last_total_earnings = reward_pool.total_earnings;
        reward_pool.update_total_earnings_and_balance(current_balance);
        let new_earnings = sat_sub_u128(reward_pool.total_earnings, last_total_earnings);

        // Every unit of balance earned inflates the reward points by the
        // bonded pool's points, so one unit divides pro rata over shares.
        let new_points = widening_mul(bonded_pool.points, new_earnings);
        let current_points = reward_pool.points.saturating_add(new_points);

        let new_earnings_since_last_claim = sat_sub_u128(
            reward_pool.total_earnings,
            delegator.reward_pool_total_earnings,
        );
        let delegator_virtual_points = widening_mul(
            delegator.points,
            new_earnings_since_last_claim,
        );

        let delegator_payout = if delegator_virtual_points.is_zero() || current_points.is_zero()
            || reward_pool.balance == 0 {
            0
        } else {
            div_points(
                mul_balance_saturating(delegator_virtual_points, reward_pool.balance),
                current_points,
            ).to_u128_saturating()
        };
        let delegator = Delegator {
            reward_pool_total_earnings: reward_pool.total_earnings,
            ..delegator
        };
        reward_pool.points = current_points.saturating_sub(delegator_virtual_points);
        reward_pool.balance = sat_sub_u128(reward_pool.balance, delegator_payout);
        Result::Ok((reward_pool, delegator, delegator_payout))
    }

    /// Pay `delegator_id` its due from its pool's reward account, given a
    /// fresh reading of that account's free balance, and write the updated
    /// records back. Returns the payout; the host transfers it from the
    /// reward account to the delegator.
    fn do_reward_payout(
        &mut self,
        delegator_id: u64,
        delegator: Delegator,
        bonded_pool: &BondedPool,
        reward_free_balance: u128,
    ) -> (r: Result<u128, Error>)
        requires
            old(self).wf(),
            alist_find(old(self).delegators@, delegator_id) == Option::Some(delegator),
        ensures
            final(self).wf(),
            r is Err <==> old(self).spec_reward_payout_error(delegator) is Some,
            r is Err ==> *final(self) == *old(self) && r == Result::<u128, Error>::Err(
                old(self).spec_reward_payout_error(delegator).unwrap(),
            ),
            r is Ok ==> ({
                let rp = alist_find(old(self).reward_pools@, delegator.pool).unwrap();
                let te = spec_new_total_earnings(rp, reward_free_balance as int);
                let payout = spec_payout(
                    bonded_pool.points as int,
                    rp,
                    delegator,
                    reward_free_balance as int,
                );
                let rp2 = alist_find(final(self).reward_pools@, delegator.pool).unwrap();
                &&& r.unwrap() == payout
                &&& alist_find(final(self).reward_pools@, delegator.pool) is Some
                &&& rp2.account == rp.account
                &&& rp2.total_earnings == te
                &&& rp2.balance == if reward_free_balance >= payout {
                    reward_free_balance - payout
                } else {
                    0
                }
                &&& rp2.points.val() == spec_reward_points_after(
                    bonded_pool.points as int,
                    rp,
                    delegator,
                    reward_free_balance as int,
                )
                &&& (forall|k: u64|
                    k != delegator.pool ==> alist_find(final(self).reward_pools@, k) == alist_find(
                        old(self).reward_pools@,
                        k,
                    ))
                &&& alist_find(final(self).delegators@, delegator_id) == Option::Some(
                    (Delegator { reward_pool_total_earnings: te as u128, ..delegator }),
                )
                &&& (forall|k: u64|
                    k != delegator_id ==> alist_find(final(self).delegators@, k) == alist_find(
                        old(self).delegators@,
                        k,
                    ))
                &&& final(self).bonded_pools@ == old(self).bonded_pools@
                &&& final(self).sub_pools_storage@ == old(self).sub_pools_storage@
                &&& final(self).min_join_bond == old(self).min_join_bond
                &&& final(self).min_create_bond == old(self).min_create_bond
                &&& final(self).max_pools == old(self).max_pools
                &&& final(self).pool_size_max == old(self).pool_size_max
                &&& final(self).bonding_duration == old(self).bonding_duration
                &&& final(self).post_unbonding_pools_window == old(self).post_unbonding_pools_window
            }),
    {
        let ri = match alist_position(&self.reward_pools, delegator.pool) {
            Option::None => {
                return Result::Err(Error::RewardPoolNotFound);
            },
            Option::Some(ri) => ri,
        };
        let reward_pool = self.reward_pools[ri].1;
        let (reward_pool, delegator_updated, delegator_payout) =
            match Self::calculate_delegator_payout(
            bonded_pool,
            reward_pool,
            delegator,
            reward_free_balance,
        ) {
            Result::Err(e) => {
                return Result::Err(e);
            },
            Result::Ok(t) => t,
        };
        let di = match alist_position(&self.delegators, delegator_id) {
            Option::None => {
                proof {
                    assert(false);
                }
                return Result::Err(Error::DelegatorNotFound);
            },
            Option::Some(di) => di,
        };
        let ghost prev = *self;
        self.reward_pools.set(ri, (delegator.pool, reward_pool));
        self.delegators.set(di, (delegator_id, delegator_updated));
        proof {
            assert(prev.delegators@[di as int].0 == delegator_id);
            assert(alist_find(prev.delegators@, delegator_id) == Option::Some(
                prev.delegators@[di as int].1,
            ));
            self.lemma_wf_claim_update(
                prev,
                di as int,
                delegator_updated,
                ri as int,
                reward_pool,
            );
            assert forall|k: u64| alist_find(self.reward_pools@, k) == (if k == delegator.pool {
                Option::Some(reward_pool)
            } else {
                alist_find(prev.reward_pools@, k)
            }) by {
                lemma_alist_find_update(
                    prev.reward_pools@,
                    ri as int,
                    (delegator.pool, reward_pool),
                    k,
                );
            }
            assert forall|k: u64| alist_find(self.delegators@, k) == (if k == delegator_id {
                Option::Some(delegator_updated)
            } else {
                alist_find(prev.delegators@, k)
            }) by {
                lemma_alist_find_update(
                    prev.delegators@,
                    di as int,
                    (delegator_id, delegator_updated),
                    k,
                );
            }
        }
        Result::Ok(delegator_payout)
    }

    /// Claim the payout `who` has accumulated since their last claim (or
    /// since joining), given a fresh reading of the reward account's free
    /// balance. On success the host transfers the paid amount from the
    /// pool's reward account to the delegator and emits the event.
    pub fn claim_payout(&mut self, who: u64, reward_free_balance: u128) -> (r: Result<Event, Error>)
        requires
            old(self).wf(),
        ensures
            final(self).wf(),
            r is Err <==> old(self).spec_claim_payout_error(who) is Some,
            r is Err ==> *final(self) == *old(self) && r == Result::<Event, Error>::Err(
                old(self).spec_claim_payout_error(who).unwrap(),
            ),
            r is Ok ==> ({
                let d = alist_find(old(self).delegators@, who).unwrap();
                let bp = alist_find(old(self).bonded_pools@, d.pool).unwrap();
                let rp = alist_find(old(self).reward_pools@, d.pool).unwrap();
                let te = spec_new_total_earnings(rp, reward_free_balance as int);
                let payout = spec_payout(bp.points as int, rp, d, reward_free_balance as int);
                let rp2 = alist_find(final(self).reward_pools@, d.pool).unwrap();
                &&& r.unwrap() == (Event::PaidOut { delegator: who, pool: d.pool, payout: payout as u128 })
                &&& rp2.account == rp.account
                &&& rp2.total_earnings == te
                &&& rp2.balance == if reward_free_balance >= payout {
                    reward_free_balance - payout
                } else {
                    0
                }
                &&& rp2.points.val() == spec_reward_points_after(
                    bp.points as int,
                    rp,
                    d,
                    reward_free_balance as int,
                )
                &&& (forall|k: u64|
                    k != d.pool ==> alist_find(final(self).reward_pools@, k) == alist_find(
                        old(self).reward_pools@,
                        k,
                    ))
                &&& alist_find(final(self).delegators@, who) == Option::Some(
                    (Delegator { reward_pool_total_earnings: te as u128, ..d }),
                )
                &&& (forall|k: u64|
                    k != who ==> alist_find(final(self).delegators@, k) == alist_find(
                        old(self).delegators@,
                        k,
                    ))
                &&& final(self).bonded_pools@ == old(self).bonded_pools@
                &&& final(self).sub_pools_storage@ == old(self).sub_pools_storage@
            }),
    {
        let di = match alist_position(&self.delegators, who) {
            Option::None => {
                return Result::Err(Error::DelegatorNotFound);
            },
            Option::Some(di) => di,
        };
        let delegator = self.delegators[di].1;
        let bi = match alist_position(&self.bonded_pools, delegator.pool) {
            Option::None => {
                return Result::Err(Error::PoolNotFound);
            },
            Option::Some(bi) => bi,
        };
        let bonded_pool = self.bonded_pools[bi].1;
        let payout = match self.do_reward_payout(who, delegator, &bonded_pool, reward_free_balance) {
            Result::Err(e) => {
                return Result::Err(e);
            },
            Result::Ok(p) => p,
        };
        Result::Ok(Event::PaidOut { delegator: who, pool: delegator.pool, payout })
    }

    /// Why a join would be refused, in check order: the minimum bond, the
    /// one-pool-per-account rule, the pool's existence, the pre-join
    /// admission bounds, and the reward pool's existence.
    pub open spec fn spec_join_error(
        self,
        who: u64,
        amount: u128,
        pool_account: u64,
        bonded_balance: Option<u128>,
    ) -> Option<Error> {
        if amount < self.min_join_bond {
            Option::Some(Error::MinimumBondNotMet)
        } else if alist_find(self.delegators@, who) is Some {
            Option::Some(Error::AccountBelongsToOtherPool)
        } else {
            match alist_find(self.bonded_pools@, pool_account) {
                Option::None => Option::Some(Error::PoolNotFound),
                Option::Some(bp) => match crate::pool::spec_ok_to_join_with(
                    bp,
                    crate::pool::spec_balance_or_zero(bonded_balance),
                    amount as int,
                    self.pool_size_max as int,
                ) {
                    Result::Err(e) => Option::Some(e),
                    Result::Ok(_) => if alist_find(self.reward_pools@, pool_account) is None {
                        Option::Some(Error::RewardPoolNotFound)
                    } else {
                        Option::None
                    },
                },
            }
        }
    }

    /// Join an existing pool with `amount`. The staking observations: the
    /// pool's bonded balance and the reward account's free balance. On `Ok`
    /// the host transfers `amount` from `who` to the pool account (keeping
    /// `who` alive) and calls the staking engine's `bond_extra`; if either
    /// fails it discards the new state.
    pub fn join(
        &mut self,
        who: u64,
        amount: u128,
        pool_account: u64,
        bonded_balance: Option<u128>,
        reward_free_balance: u128,
    ) -> (r: Result<Event, Error>)
        requires
            old(self).wf(),
        ensures
            final(self).wf(),
            r is Err <==> old(self).spec_join_error(who, amount, pool_account, bonded_balance)
                is Some,
            r is Err ==> *final(self) == *old(self) && r == Result::<Event, Error>::Err(
                old(self).spec_join_error(who, amount, pool_account, bonded_balance).unwrap(),
            ),
            r is Ok ==> ({
                let bp = alist_find(old(self).bonded_pools@, pool_account).unwrap();
                let rp = alist_find(old(self).reward_pools@, pool_account).unwrap();
                let issued = crate::points::spec_points_to_issue(
                    crate::pool::spec_balance_or_zero(bonded_balance),
                    bp.points as int,
                    amount as int,
                );
                let te = spec_new_total_earnings(rp, reward_free_balance as int);
                &&& r.unwrap() == (Event::Joined { delegator: who, pool: pool_account, bonded: amount })
                &&& alist_find(final(self).delegators@, who) == Option::Some(
                    (Delegator {
                        pool: pool_account,
                        points: issued as u128,
                        reward_pool_total_earnings: te as u128,
                        unbonding_era: Option::None,
                    }),
                )
                &&& (forall|k: u64|
                    k != who ==> alist_find(final(self).delegators@, k) == alist_find(
                        old(self).delegators@,
                        k,
                    ))
                &&& alist_find(final(self).bonded_pools@, pool_account) == Option::Some(
                    (BondedPool { points: (bp.points + issued) as u128, ..bp }),
                )
                &&& (forall|k: u64|
                    k != pool_account ==> alist_find(final(self).bonded_pools@, k) == alist_find(
                        old(self).bonded_pools@,
                        k,
                    ))
                &&& final(self).reward_pools@ == old(self).reward_pools@
                &&& final(self).sub_pools_storage@ == old(self).sub_pools_storage@
            }),
    {
        if amount < self.min_join_bond {
            return Result::Err(Error::MinimumBondNotMet);
        }
        // A delegator record means the account already belongs to a pool.
        match alist_position(&self.delegators, who) {
            Option::Some(_) => {
                return Result::Err(Error::AccountBelongsToOtherPool);
            },
            Option::None => {},
        }
        let bi = match alist_position(&self.bonded_pools, pool_account) {
            Option::None => {
                return Result::Err(Error::PoolNotFound);
            },
            Option::Some(bi) => bi,
        };
        let mut bonded_pool = self.bonded_pools[bi].1;
        match bonded_pool.ok_to_join_with(bonded_balance, amount, self.pool_size_max) {
            Result::Err(e) => {
                return Result::Err(e);
            },
            Result::Ok(_) => {},
        }
        let ri = match alist_position(&self.reward_pools, pool_account) {
            Option::None => {
                return Result::Err(Error::RewardPoolNotFound);
            },
            Option::Some(ri) => ri,
        };
        // Only the most recent total earnings matter here: the reward pool
        // record itself is not written back.
        let mut reward_pool = self.reward_pools[ri].1;
        reward_pool.update_total_earnings_and_balance(reward_free_balance);

        // Issue against the pre-transfer bonded balance, else the
        // points-to-balance ratio would be wrong.
        let ghost bp_before = bonded_pool;
        let new_points = bonded_pool.issue(bonded_balance, amount);
        proof {
            lemma_join_no_points_overflow(
                crate::pool::spec_balance_or_zero(bonded_balance),
                bp_before.points as int,
                amount as int,
                self.pool_size_max as int,
            );
        }
        let delegator = Delegator {
            pool: pool_account,
            points: new_points,
            reward_pool_total_earnings: reward_pool.total_earnings,
            unbonding_era: Option::None,
        };
        let ghost prev = *self;
        self.delegators.push((who, delegator));
        self.bonded_pools.set(bi, (pool_account, bonded_pool));
        proof {
            self.lemma_wf_join_update(prev, who, delegator, bi as int, bonded_pool);
            assert forall|k: u64| alist_find(self.bonded_pools@, k) == (if k == pool_account {
                Option::Some(bonded_pool)
            } else {
                alist_find(prev.bonded_pools@, k)
            }) by {
                lemma_alist_find_update(
                    prev.bonded_pools@,
                    bi as int,
                    (pool_account, bonded_pool),
                    k,
                );
            }
            assert forall|k: u64| alist_find(self.delegators@, k) == (if k == who {
                Option::Some(delegator)
            } else {
                alist_find(prev.delegators@, k)
            }) by {
                lemma_alist_find_push(prev.delegators@, (who, delegator), k);
            }
        }
        Result::Ok(Event::Joined { delegator: who, pool: pool_account, bonded: amount })
    }

    /// Appending a fresh active delegator of `pool` and growing that pool's
    /// points by exactly the delegator's points preserves well-formedness.
    proof fn lemma_wf_join_update(
        self,
        prev: Pallet,
        who: u64,
        d: Delegator,
        bi: int,
        bp2: BondedPool,
    )
        requires
            prev.wf(),
            0 <= bi < prev.bonded_pools@.len(),
            alist_find(prev.delegators@, who) is None,
            d.pool == prev.bonded_pools@[bi].0,
            d.unbonding_era is None,
            bp2.account == prev.bonded_pools@[bi].1.account,
            bp2.points == prev.bonded_pools@[bi].1.points + d.points,
            bp2.depositor == prev.bonded_pools@[bi].1.depositor,
            bp2.state == prev.bonded_pools@[bi].1.state,
            prev.bonded_pools@[bi].1.state != PoolState::Destroying,
            self.delegators@ == prev.delegators@.push((who, d)),
            self.bonded_pools@ == prev.bonded_pools@.update(bi, (prev.bonded_pools@[bi].0, bp2)),
            self.reward_pools@ == prev.reward_pools@,
            self.sub_pools_storage@ == prev.sub_pools_storage@,
            self.pool_size_max == prev.pool_size_max,
            self.post_unbonding_pools_window == prev.post_unbonding_pools_window,
            self.bonding_duration == prev.bonding_duration,
            alist_find(prev.reward_pools@, d.pool) is Some,
        ensures
            self.wf(),
    {
        let key = prev.bonded_pools@[bi].0;
        lemma_alist_unique_push(prev.delegators@, (who, d));
        lemma_alist_unique_update(prev.bonded_pools@, bi, (key, bp2));
        assert forall|j: int| 0 <= j < self.bonded_pools@.len() implies (
        #[trigger] self.bonded_pools@[j]).1.account == self.bonded_pools@[j].0 by {
            if j != bi {
                assert(self.bonded_pools@[j] == prev.bonded_pools@[j]);
            }
        }
        assert forall|j: int| 0 <= j < self.bonded_pools@.len() implies alist_find(
            self.reward_pools@,
            (#[trigger] self.bonded_pools@[j]).0,
        ) is Some by {
            if j != bi {
                assert(self.bonded_pools@[j] == prev.bonded_pools@[j]);
            } else {
                assert(self.bonded_pools@[j].0 == key);
            }
        }
        assert forall|j: int| 0 <= j < self.reward_pools@.len() implies alist_find(
            self.bonded_pools@,
            (#[trigger] self.reward_pools@[j]).0,
        ) is Some by {
            lemma_alist_find_update(prev.bonded_pools@, bi, (key, bp2), self.reward_pools@[j].0);
        }
        assert forall|j: int| 0 <= j < self.delegators@.len() implies (((
        #[trigger] self.delegators@[j]).1.unbonding_era is None && self.delegators@[j].1.points
            > 0) ==> (alist_find(self.bonded_pools@, self.delegators@[j].1.pool) is Some
            && alist_find(self.reward_pools@, self.delegators@[j].1.pool) is Some)) by {
            let p = self.delegators@[j].1.pool;
            if j < prev.delegators@.len() {
                assert(self.delegators@[j] == prev.delegators@[j]);
            } else {
                assert(self.delegators@[j] == (who, d));
            }
            lemma_alist_find_update(prev.bonded_pools@, bi, (key, bp2), p);
        }
        assert forall|j: int| 0 <= j < self.bonded_pools@.len() implies (
        #[trigger] self.bonded_pools@[j]).1.points == sum_active_points(
            self.delegators@,
            self.bonded_pools@[j].0,
        ) by {
            let p = self.bonded_pools@[j].0;
            lemma_sum_push(prev.delegators@, (who, d), p);
            if j != bi {
                assert(self.bonded_pools@[j] == prev.bonded_pools@[j]);
                assert(p != key);
                assert(active_points((who, d), p) == 0);
            } else {
                assert(p == key);
                assert(active_points((who, d), p) == d.points);
            }
        }
        assert forall|j: int| 0 <= j < self.bonded_pools@.len() implies self.depositor_leaves_last(
            (#[trigger] self.bonded_pools@[j]).0,
            self.bonded_pools@[j].1,
        ) by {
            assert(prev.depositor_leaves_last(prev.bonded_pools@[j].0, prev.bonded_pools@[j].1));
            lemma_alist_find_push(prev.delegators@, (who, d), self.bonded_pools@[j].1.depositor);
            if j != bi {
                assert(self.bonded_pools@[j] == prev.bonded_pools@[j]);
            }
        }
    }

    /// Why a pool creation would be refused, in check order: the creation
    /// minimum (the larger of the staking engine's minimum bond and the
    /// configured one), the pool cap, the one-pool-per-account rule, and a
    /// fresh pool account.
    pub open spec fn spec_create_error(
        self,
        who: u64,
        amount: u128,
        pool_account: u64,
        staking_minimum_bond: u128,
    ) -> Option<Error> {
        if amount < staking_minimum_bond || amount < self.min_create_bond {
            Option::Some(Error::MinimumBondNotMet)
        } else if self.max_pools is Some && self.bonded_pools@.len()
            >= self.max_pools.unwrap() {
            Option::Some(Error::MaxPools)
        } else if alist_find(self.delegators@, who) is Some {
            Option::Some(Error::AccountBelongsToOtherPool)
        } else if alist_find(self.bonded_pools@, pool_account) is Some {
            Option::Some(Error::IdInUse)
        } else {
            Option::None
        }
    }

    /// Create a pool: `who` puts down `amount` as its depositor and first
    /// member, with the three admin roles as given. The host derives the two
    /// fresh accounts (the bonded stash and the reward destination) from its
    /// own chain state and hands them in; on `Ok` it transfers `amount` from
    /// `who` to the pool account and calls the staking engine's `bond` with
    /// the pool account as both stash and controller and the reward account
    /// as destination, discarding the new state if either fails. The pool
    /// does not nominate yet: that is a follow-up call.
    pub fn create(
        &mut self,
        who: u64,
        amount: u128,
        pool_account: u64,
        reward_account: u64,
        root: u64,
        nominator: u64,
        state_toggler: u64,
        staking_minimum_bond: u128,
    ) -> (r: Result<(), Error>)
        requires
            old(self).wf(),
        ensures
            final(self).wf(),
            r is Err <==> old(self).spec_create_error(who, amount, pool_account, staking_minimum_bond)
                is Some,
            r is Err ==> *final(self) == *old(self) && r == Result::<(), Error>::Err(
                old(self).spec_create_error(
                    who,
                    amount,
                    pool_account,
                    staking_minimum_bond,
                ).unwrap(),
            ),
            r is Ok ==> ({
                &&& alist_find(final(self).delegators@, who) == Option::Some(
                    (Delegator {
                        pool: pool_account,
                        points: amount,
                        reward_pool_total_earnings: 0,
                        unbonding_era: Option::None,
                    }),
                )
                &&& (forall|k: u64|
                    k != who ==> alist_find(final(self).delegators@, k) == alist_find(
                        old(self).delegators@,
                        k,
                    ))
                &&& alist_find(final(self).bonded_pools@, pool_account) == Option::Some(
                    (BondedPool {
                        points: amount,
                        depositor: who,
                        root,
                        nominator,
                        state_toggler,
                        state: PoolState::Open,
                        account: pool_account,
                    }),
                )
                &&& (forall|k: u64|
                    k != pool_account ==> alist_find(final(self).bonded_pools@, k) == alist_find(
                        old(self).bonded_pools@,
                        k,
                    ))
                &&& alist_find(final(self).reward_pools@, pool_account) == Option::Some(
                    (RewardPool {
                        account: reward_account,
                        balance: 0,
                        total_earnings: 0,
                        points: crate::wide::RewardPoints { lo: 0, hi: 0 },
                    }),
                )
                &&& (forall|k: u64|
                    k != pool_account ==> alist_find(final(self).reward_pools@, k) == alist_find(
                        old(self).reward_pools@,
                        k,
                    ))
                &&& final(self).sub_pools_storage@ == old(self).sub_pools_storage@
            }),
    {
        if amount < staking_minimum_bond || amount < self.min_create_bond {
            return Result::Err(Error::MinimumBondNotMet);
        }
        match self.max_pools {
            Option::Some(max) => {
                if self.bonded_pools.len() >= max as usize {
                    return Result::Err(Error::MaxPools);
                }
            },
            Option::None => {},
        }
        match alist_position(&self.delegators, who) {
            Option::Some(_) => {
                return Result::Err(Error::AccountBelongsToOtherPool);
            },
            Option::None => {},
        }
        match alist_position(&self.bonded_pools, pool_account) {
            Option::Some(_) => {
                return Result::Err(Error::IdInUse);
            },
            Option::None => {},
        }
        let mut bonded_pool = BondedPool {
            account: pool_account,
            points: 0,
            depositor: who,
            root,
            nominator,
            state_toggler,
            state: PoolState::Open,
        };
        // Issue against the empty ledger before any funds are bonded: the
        // initial one-to-one ratio mints exactly `amount` points.
        let points_issued = bonded_pool.issue(Option::None, amount);
        proof {
            assert(amount * (crate::points::POINTS_TO_BALANCE_INIT_RATIO as int)
                == amount) by (nonlinear_arith);
        }
        let delegator = Delegator {
            pool: pool_account,
            points: points_issued,
            reward_pool_total_earnings: 0,
            unbonding_era: Option::None,
        };
        let reward_pool = RewardPool {
            account: reward_account,
            balance: 0,
            total_earnings: 0,
            points: crate::wide::RewardPoints::zero(),
        };
        let ghost prev = *self;
        self.delegators.push((who, delegator));
        self.bonded_pools.push((pool_account, bonded_pool));
        self.reward_pools.push((pool_account, reward_pool));
        proof {
            self.lemma_wf_create(prev, who, delegator, pool_account, bonded_pool, reward_pool);
            assert forall|k: u64| alist_find(self.delegators@, k) == (if k == who {
                Option::Some(delegator)
            } else {
                alist_find(prev.delegators@, k)
            }) by {
                lemma_alist_find_push(prev.delegators@, (who, delegator), k);
            }
            assert forall|k: u64| alist_find(self.bonded_pools@, k) == (if k == pool_account {
                Option::Some(bonded_pool)
            } else {
                alist_find(prev.bonded_pools@, k)
            }) by {
                lemma_alist_find_push(prev.bonded_pools@, (pool_account, bonded_pool), k);
            }
            assert forall|k: u64| alist_find(self.reward_pools@, k) == (if k == pool_account {
                Option::Some(reward_pool)
            } else {
                alist_find(prev.reward_pools@, k)
            }) by {
                if alist_find(prev.reward_pools@, pool_account) is Some {
                    lemma_alist_find_index(prev.reward_pools@, pool_account);
                }
                lemma_alist_find_push(prev.reward_pools@, (pool_account, reward_pool), k);
            }
        }
        Result::Ok(())
    }

    /// Adding a fresh pool — a new depositor record, a new bonded pool
    /// whose points equal the depositor's, and a zeroed reward pool, all
    /// under keys not yet bound — preserves well-formedness.
    proof fn lemma_wf_create(
        self,
        prev: Pallet,
        who: u64,
        d: Delegator,
        pool_account: u64,
        bp: BondedPool,
        rp: RewardPool,
    )
        requires
            prev.wf(),
            alist_find(prev.delegators@, who) is None,
            alist_find(prev.bonded_pools@, pool_account) is None,
            d.pool == pool_account,
            d.unbonding_era is None,
            bp.account == pool_account,
            bp.points == d.points,
            bp.depositor == who,
            bp.state == PoolState::Open,
            self.delegators@ == prev.delegators@.push((who, d)),
            self.bonded_pools@ == prev.bonded_pools@.push((pool_account, bp)),
            self.reward_pools@ == prev.reward_pools@.push((pool_account, rp)),
            self.sub_pools_storage@ == prev.sub_pools_storage@,
            self.pool_size_max == prev.pool_size_max,
            self.post_unbonding_pools_window == prev.post_unbonding_pools_window,
            self.bonding_duration == prev.bonding_duration,
        ensures
            self.wf(),
    {
        // The reward map cannot already bind the fresh pool account: a
        // reward pool always has its bonded pool.
        assert(alist_find(prev.reward_pools@, pool_account) is None) by {
            if alist_find(prev.reward_pools@, pool_account) is Some {
                lemma_alist_find_index(prev.reward_pools@, pool_account);
            }
        }
        lemma_alist_unique_push(prev.delegators@, (who, d));
        lemma_alist_unique_push(prev.bonded_pools@, (pool_account, bp));
        lemma_alist_unique_push(prev.reward_pools@, (pool_account, rp));
        assert forall|j: int| 0 <= j < self.bonded_pools@.len() implies (
        #[trigger] self.bonded_pools@[j]).1.account == self.bonded_pools@[j].0 by {
            if j < prev.bonded_pools@.len() {
                assert(self.bonded_pools@[j] == prev.bonded_pools@[j]);
            }
        }
        assert forall|j: int| 0 <= j < self.bonded_pools@.len() implies alist_find(
            self.reward_pools@,
            (#[trigger] self.bonded_pools@[j]).0,
        ) is Some by {
            if j < prev.bonded_pools@.len() {
                assert(self.bonded_pools@[j] == prev.bonded_pools@[j]);
            }
            lemma_alist_find_push(prev.reward_pools@, (pool_account, rp), self.bonded_pools@[j].0);
        }
        assert forall|j: int| 0 <= j < self.reward_pools@.len() implies alist_find(
            self.bonded_pools@,
            (#[trigger] self.reward_pools@[j]).0,
        ) is Some by {
            if j < prev.reward_pools@.len() {
                assert(self.reward_pools@[j] == prev.reward_pools@[j]);
            }
            lemma_alist_find_push(prev.bonded_pools@, (pool_account, bp), self.reward_pools@[j].0);
        }
        assert forall|j: int| 0 <= j < self.delegators@.len() implies (((
        #[trigger] self.delegators@[j]).1.unbonding_era is None && self.delegators@[j].1.points
            > 0) ==> (alist_find(self.bonded_pools@, self.delegators@[j].1.pool) is Some
            && alist_find(self.reward_pools@, self.delegators@[j].1.pool) is Some)) by {
            let p = self.delegators@[j].1.pool;
            if j < prev.delegators@.len() {
                assert(self.delegators@[j] == prev.delegators@[j]);
            } else {
                assert(self.delegators@[j] == (who, d));
            }
            lemma_alist_find_push(prev.bonded_pools@, (pool_account, bp), p);
            lemma_alist_find_push(prev.reward_pools@, (pool_account, rp), p);
        }
        assert forall|j: int| 0 <= j < self.bonded_pools@.len() implies (
        #[trigger] self.bonded_pools@[j]).1.points == sum_active_points(
            self.delegators@,
            self.bonded_pools@[j].0,
        ) by {
            let p = self.bonded_pools@[j].0;
            lemma_sum_push(prev.delegators@, (who, d), p);
            if j < prev.bonded_pools@.len() {
                assert(self.bonded_pools@[j] == prev.bonded_pools@[j]);
                assert(p != pool_account) by {
                    if p == pool_account {
                        lemma_alist_find_unique_at(prev.bonded_pools@, p, j);
                    }
                }
                assert(active_points((who, d), p) == 0);
            } else {
                assert(p == pool_account);
                // No straggler holds active points in a pool account that
                // is not bound: their pool would have to be live.
                assert forall|m: int| 0 <= m < prev.delegators@.len() implies active_points(
                    #[trigger] prev.delegators@[m],
                    pool_account,
                ) == 0 by {
                    if prev.delegators@[m].1.pool == pool_account
                        && prev.delegators@[m].1.unbonding_era is None
                        && prev.delegators@[m].1.points > 0 {
                        assert(alist_find(prev.bonded_pools@, pool_account) is Some);
                    }
                }
                lemma_sum_zero(prev.delegators@, pool_account);
                assert(active_points((who, d), p) == d.points);
            }
        }
        assert forall|j: int| 0 <= j < self.bonded_pools@.len() implies self.depositor_leaves_last(
            (#[trigger] self.bonded_pools@[j]).0,
            self.bonded_pools@[j].1,
        ) by {
            lemma_alist_find_push(
                prev.delegators@,
                (who, d),
                self.bonded_pools@[j].1.depositor,
            );
            if j < prev.bonded_pools@.len() {
                assert(self.bonded_pools@[j] == prev.bonded_pools@[j]);
                assert(prev.depositor_leaves_last(
                    prev.bonded_pools@[j].0,
                    prev.bonded_pools@[j].1,
                ));
            }
        }
    }

    /// Why an unbond of `target`'s funds by `caller` would be refused, in
    /// check order: the records must exist, the permission matrix must
    /// admit the caller, and the final payout claim must be possible.
    pub open spec fn spec_unbond_error(self, caller: u64, target: u64) -> Option<Error> {
        match alist_find(self.delegators@, target) {
            Option::None => Option::Some(Error::DelegatorNotFound),
            Option::Some(d) => match alist_find(self.bonded_pools@, d.pool) {
                Option::None => Option::Some(Error::PoolNotFound),
                Option::Some(bp) => match crate::pool::spec_ok_to_unbond_other_with(
                    bp,
                    caller,
                    target,
                    d,
                ) {
                    Result::Err(e) => Option::Some(e),
                    Result::Ok(_) => self.spec_reward_payout_error(d),
                },
            },
        }
    }

    /// The staking engine's era never runs behind the eras already recorded
    /// in the target pool's sub pools. Eras are monotone on an honest
    /// staking engine, so this always holds of a fresh reading.
    pub open spec fn spec_unbond_era_ok(self, target: u64, current_era: Option<u32>) -> bool {
        match alist_find(self.delegators@, target) {
            Option::None => true,
            Option::Some(d) => match alist_find(self.sub_pools_storage@, d.pool) {
                Option::None => true,
                Option::Some(sp) => with_era_at_most(sp.with_era@, spec_era_or_zero(current_era)),
            },
        }
    }

    /// Whether an era reading is recent enough to unbond `target` with;
    /// lets the host check the unbond precondition before calling.
    pub fn check_unbond_era(&self, target: u64, current_era: Option<u32>) -> (r: bool)
        requires
            self.wf(),
        ensures
            r == self.spec_unbond_era_ok(target, current_era),
    {
        let era = era_or_zero(current_era);
        let di = match alist_position(&self.delegators, target) {
            Option::None => {
                return true;
            },
            Option::Some(di) => di,
        };
        let pool = self.delegators[di].1.pool;
        let si = match alist_position(&self.sub_pools_storage, pool) {
            Option::None => {
                return true;
            },
            Option::Some(si) => si,
        };
        let sp = &self.sub_pools_storage[si].1;
        let n = sp.with_era.len();
        if n == 0 {
            return true;
        }
        let last = sp.with_era[n - 1].0;
        proof {
            assert(self.sub_pools_wf(self.sub_pools_storage@[si as int].1));
            if last <= era {
                assert forall|j: int| 0 <= j < sp.with_era@.len() implies (
                #[trigger] sp.with_era@[j]).0 <= era by {
                    if j < n - 1 {
                        assert(sp.with_era@[j].0 < sp.with_era@[n - 1].0);
                    }
                }
            }
        }
        last <= era
    }

    /// Unbond all of `target`'s funds from its pool. The observations: the
    /// current era, the pool's bonded balance and the reward account's free
    /// balance. On `Ok((paid, unbonded))` the host transfers the payout in
    /// `paid` from the reward account to `target`, then calls the staking
    /// engine's `unbond` with the amount in `unbonded`; if either fails it
    /// discards the new state.
    #[verifier::rlimit(100)]
    pub fn unbond_other(
        &mut self,
        caller: u64,
        target: u64,
        current_era: Option<u32>,
        bonded_balance: Option<u128>,
        reward_free_balance: u128,
    ) -> (r: Result<(Event, Event), Error>)
        requires
            old(self).wf(),
            old(self).spec_unbond_era_ok(target, current_era),
        ensures
            final(self).wf(),
            r is Err <==> old(self).spec_unbond_error(caller, target) is Some,
            r is Err ==> *final(self) == *old(self) && r == Result::<(Event, Event), Error>::Err(
                old(self).spec_unbond_error(caller, target).unwrap(),
            ),
            r is Ok ==> ({
                let d = alist_find(old(self).delegators@, target).unwrap();
                let bp = alist_find(old(self).bonded_pools@, d.pool).unwrap();
                let rp = alist_find(old(self).reward_pools@, d.pool).unwrap();
                let payout = spec_payout(bp.points as int, rp, d, reward_free_balance as int);
                let ub = crate::points::spec_balance_to_unbond(
                    crate::pool::spec_balance_or_zero(bonded_balance),
                    bp.points as int,
                    d.points as int,
                );
                &&& r.unwrap() == (
                    (Event::PaidOut { delegator: target, pool: d.pool, payout: payout as u128 }),
                    (Event::Unbonded { delegator: target, pool: d.pool, amount: ub as u128 }),
                )
                &&& ub <= crate::pool::spec_balance_or_zero(bonded_balance)
            }),
            r is Ok ==> ({
                let d = alist_find(old(self).delegators@, target).unwrap();
                let rp = alist_find(old(self).reward_pools@, d.pool).unwrap();
                let te = spec_new_total_earnings(rp, reward_free_balance as int);
                let era = spec_era_or_zero(current_era);
                &&& alist_find(final(self).delegators@, target) == Option::Some(
                    (Delegator {
                        pool: d.pool,
                        points: d.points,
                        reward_pool_total_earnings: te as u128,
                        unbonding_era: Option::Some(era),
                    }),
                )
                &&& (forall|k: u64|
                    k != target ==> alist_find(final(self).delegators@, k) == alist_find(
                        old(self).delegators@,
                        k,
                    ))
            }),
            r is Ok ==> ({
                let d = alist_find(old(self).delegators@, target).unwrap();
                let bp = alist_find(old(self).bonded_pools@, d.pool).unwrap();
                &&& alist_find(final(self).bonded_pools@, d.pool) == Option::Some(
                    (BondedPool { points: (bp.points - d.points) as u128, ..bp }),
                )
                &&& (forall|k: u64|
                    k != d.pool ==> alist_find(final(self).bonded_pools@, k) == alist_find(
                        old(self).bonded_pools@,
                        k,
                    ))
            }),
            r is Ok ==> ({
                let d = alist_find(old(self).delegators@, target).unwrap();
                let rp = alist_find(old(self).reward_pools@, d.pool).unwrap();
                let te = spec_new_total_earnings(rp, reward_free_balance as int);
                &&& alist_find(final(self).reward_pools@, d.pool) is Some
                &&& alist_find(final(self).reward_pools@, d.pool).unwrap().total_earnings == te
                &&& (forall|k: u64|
                    k != d.pool ==> alist_find(final(self).reward_pools@, k) == alist_find(
                        old(self).reward_pools@,
                        k,
                    ))
            }),
            r is Ok ==> ({
                let d = alist_find(old(self).delegators@, target).unwrap();
                let era = spec_era_or_zero(current_era);
                let sp2 = alist_find(final(self).sub_pools_storage@, d.pool).unwrap();
                &&& alist_find(final(self).sub_pools_storage@, d.pool) is Some
                &&& with_era_find(sp2.with_era@, era) is Some
                &&& (forall|k: u64|
                    k != d.pool ==> alist_find(final(self).sub_pools_storage@, k) == alist_find(
                        old(self).sub_pools_storage@,
                        k,
                    ))
            }),
            r is Ok && alist_find(old(self).sub_pools_storage@, alist_find(
                old(self).delegators@,
                target,
            ).unwrap().pool) is None ==> ({
                // The pool's first unbond mints one sub-pool point per unit.
                let d = alist_find(old(self).delegators@, target).unwrap();
                let bp = alist_find(old(self).bonded_pools@, d.pool).unwrap();
                let era = spec_era_or_zero(current_era);
                let ub = crate::points::spec_balance_to_unbond(
                    crate::pool::spec_balance_or_zero(bonded_balance),
                    bp.points as int,
                    d.points as int,
                );
                let sp2 = alist_find(final(self).sub_pools_storage@, d.pool).unwrap();
                &&& sp2.no_era.points == 0
                &&& sp2.no_era.balance == 0
                &&& sp2.with_era@ =~= seq![
                    (era, crate::pool::UnbondPool { points: ub as u128, balance: ub as u128 }),
                ]
            }),
    {
        let di = match alist_position(&self.delegators, target) {
            Option::None => {
                return Result::Err(Error::DelegatorNotFound);
            },
            Option::Some(di) => di,
        };
        let delegator = self.delegators[di].1;
        let bi = match alist_position(&self.bonded_pools, delegator.pool) {
            Option::None => {
                return Result::Err(Error::PoolNotFound);
            },
            Option::Some(bi) => bi,
        };
        let mut bonded_pool = self.bonded_pools[bi].1;
        match bonded_pool.ok_to_unbond_other_with(caller, target, &delegator) {
            Result::Err(e) => {
                return Result::Err(e);
            },
            Result::Ok(_) => {},
        }
        // Claim the payout first: once unbonding, the member's points no
        // longer exist in the bonded pool and can earn nothing further.
        let payout = match self.do_reward_payout(target, delegator, &bonded_pool, reward_free_balance) {
            Result::Err(e) => {
                return Result::Err(e);
            },
            Result::Ok(p) => p,
        };
        // Re-fetch the member: the claim moved their earnings watermark.
        let di2 = match alist_position(&self.delegators, target) {
            Option::None => {
                proof {
                    assert(false);
                }
                return Result::Err(Error::DelegatorNotFound);
            },
            Option::Some(di2) => di2,
        };
        let mut delegator = self.delegators[di2].1;
        let current_era_v = era_or_zero(current_era);
        let balance_to_unbond = bonded_pool.balance_to_unbond(bonded_balance, delegator.points);
        proof {
            lemma_alist_find_unique_at(self.delegators@, target, di2 as int);
            lemma_sum_member(self.delegators@, di2 as int, delegator.pool);
            assert(self.bonded_pools@[bi as int].1.points == sum_active_points(
                self.delegators@,
                delegator.pool,
            ));
            lemma_unbond_le_balance(
                crate::pool::spec_balance_or_zero(bonded_balance),
                bonded_pool.points as int,
                delegator.points as int,
            );
        }
        // Shrink the bonded ledger after computing the redemption, so the
        // points-to-balance ratio used was the pre-unbond one.
        bonded_pool.points = bonded_pool.points - delegator.points;

        let ghost prev = *self;
        let w = self.total_unbonding_pools();
        let si_opt = alist_position(&self.sub_pools_storage, delegator.pool);
        let (sub_pools_present, si): (bool, usize) = match si_opt {
            Option::Some(i) => (true, i),
            Option::None => (false, 0),
        };
        let mut sub_pools = if sub_pools_present {
            self.sub_pools_storage.remove(si).1
        } else {
            SubPools::new()
        };
        let ghost sp_base = sub_pools;
        proof {
            if sub_pools_present {
                assert(prev.sub_pools_wf(prev.sub_pools_storage@[si as int].1));
            }
        }
        // Merge pools that have aged out before inserting, so the per-era
        // map cannot outgrow its bound.
        sub_pools.maybe_merge_pools(current_era_v, w);
        proof {
            assert(with_era_at_most(sp_base.with_era@, current_era_v));
            assert(with_era_at_most(sub_pools.with_era@, current_era_v));
        }
        let ghost sp_merged = sub_pools;
        let idx = sub_pools.unchecked_with_era_get_or_make(current_era_v);
        proof {
            assert(sp_base.with_era@.len() <= w);
            if with_era_find(sp_merged.with_era@, current_era_v) is Some {
                assert(sub_pools.with_era@ == sp_merged.with_era@);
            } else {
                lemma_with_era_find_none_inv(sp_merged.with_era@, current_era_v);
                lemma_sub_len_before_push(sp_merged.with_era@, current_era_v, w as int);
            }
            assert(sub_pools.with_era@.len() <= w);
        }
        let ghost sp_made = sub_pools;
        let mut unbond_pool = sub_pools.with_era[idx].1;
        unbond_pool.issue(balance_to_unbond);
        sub_pools.with_era.set(idx, (current_era_v, unbond_pool));
        delegator.unbonding_era = Option::Some(current_era_v);
        proof {
            // The in-place issue keeps the eras, so order survives.
            assert forall|x: int, y: int|
                0 <= x < y < sub_pools.with_era@.len() implies (
            #[trigger] sub_pools.with_era@[x]).0 < (#[trigger] sub_pools.with_era@[y]).0 by {
                assert(sub_pools.with_era@[x].0 == sp_made.with_era@[x].0);
                assert(sub_pools.with_era@[y].0 == sp_made.with_era@[y].0);
            }
            // A drained per-era pool still holds no balance: the base family
            // satisfied that, merging preserves it, and the issued entry
            // either gains points or keeps its old pair.
            if sub_pools_present {
                assert(prev.sub_pools_wf(sp_base));
            }
            assert(forall|j2: int|
                0 <= j2 < sp_base.with_era@.len() ==> ((#[trigger] sp_base.with_era@[j2]).1.points
                    == 0 ==> sp_base.with_era@[j2].1.balance == 0));
            assert(forall|j2: int|
                0 <= j2 < sp_merged.with_era@.len() ==> ((
                #[trigger] sp_merged.with_era@[j2]).1.points == 0
                    ==> sp_merged.with_era@[j2].1.balance == 0));
            assert forall|j: int|
                0 <= j < sub_pools.with_era@.len() implies ((
            #[trigger] sub_pools.with_era@[j]).1.points == 0 ==> sub_pools.with_era@[j].1.balance
                == 0) by {
                if j != idx {
                    assert(sub_pools.with_era@[j] == sp_made.with_era@[j]);
                    assert(sp_made.with_era@[j] == sp_merged.with_era@[j]);
                } else {
                    if balance_to_unbond == 0 {
                        lemma_issue_zero(
                            sp_made.with_era@[idx as int].1.balance as int,
                            sp_made.with_era@[idx as int].1.points as int,
                        );
                        assert(sub_pools.with_era@[j].1.points == sp_made.with_era@[j].1.points);
                        assert(sub_pools.with_era@[j].1.balance == sp_made.with_era@[j].1.balance);
                        if with_era_find(sp_merged.with_era@, current_era_v) is Some {
                            assert(sp_made.with_era@[j] == sp_merged.with_era@[j]);
                        }
                    }
                }
            }
            assert(with_era_sorted(sub_pools.with_era@));
            crate::pool::lemma_with_era_find_last(sub_pools.with_era@, current_era_v);
        }

        let ghost sp2g = sub_pools;
        let ghost d2 = delegator;
        let ghost bp2 = bonded_pool;
        if sub_pools_present {
            self.sub_pools_storage.insert(si, (delegator.pool, sub_pools));
        } else {
            self.sub_pools_storage.push((delegator.pool, sub_pools));
        }
        self.bonded_pools.set(bi, (delegator.pool, bonded_pool));
        self.delegators.set(di2, (target, delegator));
        proof {
            let pool = d2.pool;
            if sub_pools_present {
                assert(prev.sub_pools_storage@.remove(si as int).insert(si as int, (pool, sp2g))
                    =~= prev.sub_pools_storage@.update(si as int, (pool, sp2g)));
            }
            self.lemma_wf_unbond_update(
                prev,
                di2 as int,
                d2,
                bi as int,
                bp2,
                sp2g,
                sub_pools_present,
                si as int,
            );
            assert forall|k: u64| alist_find(self.bonded_pools@, k) == (if k == pool {
                Option::Some(bp2)
            } else {
                alist_find(prev.bonded_pools@, k)
            }) by {
                lemma_alist_find_update(prev.bonded_pools@, bi as int, (pool, bp2), k);
            }
            assert forall|k: u64| alist_find(self.delegators@, k) == (if k == target {
                Option::Some(d2)
            } else {
                alist_find(prev.delegators@, k)
            }) by {
                lemma_alist_find_update(prev.delegators@, di2 as int, (target, d2), k);
            }
            if sub_pools_present {
                assert forall|k: u64| alist_find(self.sub_pools_storage@, k) == (if k == pool {
                    Option::Some(sp2g)
                } else {
                    alist_find(prev.sub_pools_storage@, k)
                }) by {
                    lemma_alist_find_update(
                        prev.sub_pools_storage@,
                        si as int,
                        (pool, sp2g),
                        k,
                    );
                }
            } else {
                assert forall|k: u64| alist_find(self.sub_pools_storage@, k) == (if k == pool {
                    Option::Some(sp2g)
                } else {
                    alist_find(prev.sub_pools_storage@, k)
                }) by {
                    lemma_alist_find_push(prev.sub_pools_storage@, (pool, sp2g), k);
                }
            }
        }
        Result::Ok(
            (
                Event::PaidOut { delegator: target, pool: delegator.pool, payout },
                Event::Unbonded {
                    delegator: target,
                    pool: delegator.pool,
                    amount: balance_to_unbond,
                },
            ),
        )
    }

    /// Moving one member from the bonded ledger into a sub pool — their
    /// points leave the pool's count exactly, their record turns to
    /// unbonding, and the pool's sub pools are replaced by a well-formed
    /// family — preserves well-formedness.
    proof fn lemma_wf_unbond_update(
        self,
        prev: Pallet,
        di: int,
        d2: Delegator,
        bi: int,
        bp2: BondedPool,
        sp2: SubPools,
        present: bool,
        si: int,
    )
        requires
            prev.wf(),
            0 <= di < prev.delegators@.len(),
            0 <= bi < prev.bonded_pools@.len(),
            prev.delegators@[di].1.unbonding_era is None,
            prev.delegators@[di].1.pool == d2.pool,
            prev.delegators@[di].1.points == d2.points,
            d2.unbonding_era is Some,
            prev.bonded_pools@[bi].0 == d2.pool,
            bp2.account == prev.bonded_pools@[bi].1.account,
            bp2.points == prev.bonded_pools@[bi].1.points - d2.points,
            bp2.depositor == prev.bonded_pools@[bi].1.depositor,
            bp2.state == prev.bonded_pools@[bi].1.state,
            prev.delegators@[di].0 == prev.bonded_pools@[bi].1.depositor ==> (
            prev.bonded_pools@[bi].1.state == PoolState::Destroying && d2.points
                == prev.bonded_pools@[bi].1.points),
            self.delegators@ == prev.delegators@.update(di, (prev.delegators@[di].0, d2)),
            self.bonded_pools@ == prev.bonded_pools@.update(bi, (d2.pool, bp2)),
            self.reward_pools@ == prev.reward_pools@,
            self.sub_pools_wf(sp2),
            present ==> 0 <= si < prev.sub_pools_storage@.len() && prev.sub_pools_storage@[si].0
                == d2.pool && self.sub_pools_storage@ == prev.sub_pools_storage@.update(
                si,
                (d2.pool, sp2),
            ),
            !present ==> alist_find(prev.sub_pools_storage@, d2.pool) is None
                && self.sub_pools_storage@ == prev.sub_pools_storage@.push((d2.pool, sp2)),
            self.pool_size_max == prev.pool_size_max,
            self.post_unbonding_pools_window == prev.post_unbonding_pools_window,
            self.bonding_duration == prev.bonding_duration,
        ensures
            self.wf(),
    {
        let dkey = prev.delegators@[di].0;
        let pool = d2.pool;
        lemma_alist_unique_update(prev.delegators@, di, (dkey, d2));
        lemma_alist_unique_update(prev.bonded_pools@, bi, (pool, bp2));
        if present {
            lemma_alist_unique_update(prev.sub_pools_storage@, si, (pool, sp2));
        } else {
            lemma_alist_unique_push(prev.sub_pools_storage@, (pool, sp2));
        }
        assert forall|j: int| 0 <= j < self.bonded_pools@.len() implies (
        #[trigger] self.bonded_pools@[j]).1.account == self.bonded_pools@[j].0 by {
            if j != bi {
                assert(self.bonded_pools@[j] == prev.bonded_pools@[j]);
            }
        }
        assert forall|j: int| 0 <= j < self.bonded_pools@.len() implies alist_find(
            self.reward_pools@,
            (#[trigger] self.bonded_pools@[j]).0,
        ) is Some by {
            if j != bi {
                assert(self.bonded_pools@[j] == prev.bonded_pools@[j]);
            } else {
                assert(self.bonded_pools@[j].0 == pool);
            }
        }
        assert forall|j: int| 0 <= j < self.reward_pools@.len() implies alist_find(
            self.bonded_pools@,
            (#[trigger] self.reward_pools@[j]).0,
        ) is Some by {
            lemma_alist_find_update(prev.bonded_pools@, bi, (pool, bp2), self.reward_pools@[j].0);
        }
        assert forall|j: int| 0 <= j < self.delegators@.len() implies (((
        #[trigger] self.delegators@[j]).1.unbonding_era is None && self.delegators@[j].1.points
            > 0) ==> (alist_find(self.bonded_pools@, self.delegators@[j].1.pool) is Some
            && alist_find(self.reward_pools@, self.delegators@[j].1.pool) is Some)) by {
            let p = self.delegators@[j].1.pool;
            if j != di {
                assert(self.delegators@[j] == prev.delegators@[j]);
            }
            lemma_alist_find_update(prev.bonded_pools@, bi, (pool, bp2), p);
        }
        assert forall|j: int| 0 <= j < self.bonded_pools@.len() implies (
        #[trigger] self.bonded_pools@[j]).1.points == sum_active_points(
            self.delegators@,
            self.bonded_pools@[j].0,
        ) by {
            let p = self.bonded_pools@[j].0;
            lemma_sum_update(prev.delegators@, di, (dkey, d2), p);
            assert(active_points((dkey, d2), p) == 0);
            if j != bi {
                assert(self.bonded_pools@[j] == prev.bonded_pools@[j]);
                assert(prev.bonded_pools@[j].0 == p && prev.bonded_pools@[bi].0 == pool);
                assert(p != pool);
                assert(active_points(prev.delegators@[di], p) == 0);
            } else {
                assert(p == pool);
                assert(active_points(prev.delegators@[di], p) == d2.points);
            }
        }
        assert forall|j: int| 0 <= j < self.sub_pools_storage@.len() implies self.sub_pools_wf(
            (#[trigger] self.sub_pools_storage@[j]).1,
        ) by {
            if present {
                if j != si {
                    assert(self.sub_pools_storage@[j] == prev.sub_pools_storage@[j]);
                    assert(prev.sub_pools_wf(prev.sub_pools_storage@[j].1));
                }
            } else {
                if j < prev.sub_pools_storage@.len() {
                    assert(self.sub_pools_storage@[j] == prev.sub_pools_storage@[j]);
                    assert(prev.sub_pools_wf(prev.sub_pools_storage@[j].1));
                }
            }
        }
        assert forall|j: int| 0 <= j < self.bonded_pools@.len() implies self.depositor_leaves_last(
            (#[trigger] self.bonded_pools@[j]).0,
            self.bonded_pools@[j].1,
        ) by {
            assert(prev.depositor_leaves_last(prev.bonded_pools@[j].0, prev.bonded_pools@[j].1));
            let dep_acct = self.bonded_pools@[j].1.depositor;
            lemma_alist_find_unique_at(prev.delegators@, dkey, di);
            lemma_alist_find_update(prev.delegators@, di, (dkey, d2), dep_acct);
            if j != bi {
                assert(self.bonded_pools@[j] == prev.bonded_pools@[j]);
                assert(prev.bonded_pools@[j].0 != pool);
            } else {
                if dep_acct == dkey {
                } else {
                    if alist_find(prev.delegators@, dep_acct) is Some {
                        let dep = alist_find(prev.delegators@, dep_acct).unwrap();
                        if dep.pool == pool && dep.unbonding_era is Some {
                            assert(prev.bonded_pools@[bi].1.points == 0);
                            lemma_alist_find_unique_at(prev.delegators@, dkey, di);
                            lemma_sum_member(prev.delegators@, di, pool);
                            assert(active_points(prev.delegators@[di], pool) == d2.points);
                            assert(d2.points == 0);
                        }
                    }
                }
            }
        }
    }

    /// Eras passed since `target` began unbonding, at era reading `e`.
    pub open spec fn spec_eras_since(unbonding_era: u32, current_era: Option<u32>) -> int {
        let now = spec_era_or_zero(current_era);
        if now >= unbonding_era {
            now - unbonding_era
        } else {
            0
        }
    }

    /// Why a withdrawal of `target`'s unbonded funds by `caller` would be
    /// refused, in check order: a record that is unbonding, a full bonding
    /// duration passed, the two pool records (their absence is a broken
    /// record), and the permission matrix.
    pub open spec fn spec_withdraw_error(
        self,
        caller: u64,
        target: u64,
        current_era: Option<u32>,
    ) -> Option<Error> {
        match alist_find(self.delegators@, target) {
            Option::None => Option::Some(Error::DelegatorNotFound),
            Option::Some(d) => if d.unbonding_era is None {
                Option::Some(Error::NotUnbonding)
            } else if Self::spec_eras_since(d.unbonding_era.unwrap(), current_era)
                < self.bonding_duration {
                Option::Some(Error::NotUnbondedYet)
            } else {
                match alist_find(self.sub_pools_storage@, d.pool) {
                    Option::None => Option::Some(Error::SubPoolsNotFound),
                    Option::Some(sp) => match alist_find(self.bonded_pools@, d.pool) {
                        Option::None => Option::Some(Error::PoolNotFound),
                        Option::Some(bp) => match crate::pool::spec_ok_to_withdraw_unbonded_other_with(
                            bp,
                            caller,
                            target,
                            d,
                            sp,
                        ) {
                            Result::Err(e) => Option::Some(e),
                            Result::Ok(_) => Option::None,
                        },
                    },
                }
            },
        }
    }

    /// The sub pool that redeems `target`'s shares: the per-era pool of
    /// their unbonding era, or the era-less pool once that era was merged
    /// away.
    pub open spec fn spec_withdraw_source(sp: SubPools, era: u32) -> crate::pool::UnbondPool {
        match with_era_find(sp.with_era@, era) {
            Option::Some(p) => p,
            Option::None => sp.no_era,
        }
    }

    /// Withdraw `target`'s unbonded funds once the bonding duration passed
    /// since they unbonded. Before calling, the host forwards
    /// `num_slashing_spans` to the staking engine's `withdraw_unbonded` to
    /// release expired chunks, then reads the pool account's free balance
    /// and hands it in. On `Ok((event, removed))`: a `Withdrawn` event asks
    /// the host to transfer its amount from the pool account to `target`; a
    /// `DustWithdrawn` event says the pool could not pay (a prior
    /// withdrawal dusted it) and the record was dropped regardless, keeping
    /// teardown live. When `removed` is set the depositor just left: the
    /// host drains the bonded and reward accounts to zero.
    #[verifier::rlimit(100)]
    pub fn withdraw_unbonded_other(
        &mut self,
        caller: u64,
        target: u64,
        num_slashing_spans: u32,
        current_era: Option<u32>,
        pool_free_balance: u128,
    ) -> (r: Result<(Event, bool), Error>)
        requires
            old(self).wf(),
        ensures
            final(self).wf(),
            r is Err <==> old(self).spec_withdraw_error(caller, target, current_era) is Some,
            r is Err ==> *final(self) == *old(self) && r == Result::<(Event, bool), Error>::Err(
                old(self).spec_withdraw_error(caller, target, current_era).unwrap(),
            ),
            r is Ok ==> ({
                let d = alist_find(old(self).delegators@, target).unwrap();
                let sp = alist_find(old(self).sub_pools_storage@, d.pool).unwrap();
                let bp = alist_find(old(self).bonded_pools@, d.pool).unwrap();
                let source = Self::spec_withdraw_source(sp, d.unbonding_era.unwrap());
                let ub = crate::points::spec_balance_to_unbond(
                    source.balance as int,
                    source.points as int,
                    d.points as int,
                );
                &&& r.unwrap().0 == (if pool_free_balance >= ub {
                    Event::Withdrawn { delegator: target, pool: d.pool, amount: ub as u128 }
                } else {
                    Event::DustWithdrawn { delegator: target, pool: d.pool }
                })
                &&& r.unwrap().1 == (target == bp.depositor)
                &&& alist_find(final(self).delegators@, target) is None
                &&& (forall|k: u64|
                    k != target ==> alist_find(final(self).delegators@, k) == alist_find(
                        old(self).delegators@,
                        k,
                    ))
            }),
            r is Ok && r.unwrap().1 ==> ({
                let d = alist_find(old(self).delegators@, target).unwrap();
                &&& alist_find(final(self).bonded_pools@, d.pool) is None
                &&& alist_find(final(self).reward_pools@, d.pool) is None
                &&& alist_find(final(self).sub_pools_storage@, d.pool) is None
                &&& (forall|k: u64|
                    k != d.pool ==> alist_find(final(self).bonded_pools@, k) == alist_find(
                        old(self).bonded_pools@,
                        k,
                    ))
                &&& (forall|k: u64|
                    k != d.pool ==> alist_find(final(self).reward_pools@, k) == alist_find(
                        old(self).reward_pools@,
                        k,
                    ))
                &&& (forall|k: u64|
                    k != d.pool ==> alist_find(final(self).sub_pools_storage@, k) == alist_find(
                        old(self).sub_pools_storage@,
                        k,
                    ))
            }),
            r is Ok && !r.unwrap().1 ==> ({
                let d = alist_find(old(self).delegators@, target).unwrap();
                let sp = alist_find(old(self).sub_pools_storage@, d.pool).unwrap();
                let era = d.unbonding_era.unwrap();
                let source = Self::spec_withdraw_source(sp, era);
                let ub = crate::points::spec_balance_to_unbond(
                    source.balance as int,
                    source.points as int,
                    d.points as int,
                );
                let new_points = if source.points >= d.points {
                    source.points - d.points
                } else {
                    0
                };
                let new_balance = if source.balance >= ub {
                    source.balance - ub
                } else {
                    0
                };
                let sp2 = alist_find(final(self).sub_pools_storage@, d.pool).unwrap();
                &&& final(self).bonded_pools@ == old(self).bonded_pools@
                &&& final(self).reward_pools@ == old(self).reward_pools@
                &&& alist_find(final(self).sub_pools_storage@, d.pool) is Some
                &&& (forall|k: u64|
                    k != d.pool ==> alist_find(final(self).sub_pools_storage@, k) == alist_find(
                        old(self).sub_pools_storage@,
                        k,
                    ))
                &&& (if with_era_find(sp.with_era@, era) is Some {
                    sp2.no_era == sp.no_era && with_era_find(sp2.with_era@, era) == (if new_points
                        == 0 {
                        Option::None
                    } else {
                        Option::Some(
                            (crate::pool::UnbondPool { points: new_points as u128, balance: new_balance as u128 }),
                        )
                    }) && (forall|e2: u32|
                        e2 != era ==> with_era_find(sp2.with_era@, e2) == with_era_find(
                            sp.with_era@,
                            e2,
                        ))
                } else {
                    sp2.with_era@ == sp.with_era@ && sp2.no_era == (crate::pool::UnbondPool {
                        points: new_points as u128,
                        balance: new_balance as u128,
                    })
                })
            }),
    {
        let di = match alist_position(&self.delegators, target) {
            Option::None => {
                return Result::Err(Error::DelegatorNotFound);
            },
            Option::Some(di) => di,
        };
        let delegator = self.delegators[di].1;
        let unbonding_era = match delegator.unbonding_era {
            Option::None => {
                return Result::Err(Error::NotUnbonding);
            },
            Option::Some(e) => e,
        };
        let current_era_v = era_or_zero(current_era);
        let eras_since = if current_era_v >= unbonding_era {
            current_era_v - unbonding_era
        } else {
            0
        };
        if eras_since < self.bonding_duration {
            return Result::Err(Error::NotUnbondedYet);
        }
        let si = match alist_position(&self.sub_pools_storage, delegator.pool) {
            Option::None => {
                return Result::Err(Error::SubPoolsNotFound);
            },
            Option::Some(si) => si,
        };
        let bi = match alist_position(&self.bonded_pools, delegator.pool) {
            Option::None => {
                return Result::Err(Error::PoolNotFound);
            },
            Option::Some(bi) => bi,
        };
        let bonded_pool = self.bonded_pools[bi].1;
        let should_remove_pool = match bonded_pool.ok_to_withdraw_unbonded_other_with(
            caller,
            target,
            &delegator,
            &self.sub_pools_storage[si].1,
        ) {
            Result::Err(e) => {
                return Result::Err(e);
            },
            Result::Ok(b) => b,
        };
        let ghost prev = *self;
        proof {
            lemma_alist_find_unique_at(prev.sub_pools_storage@, delegator.pool, si as int);
            assert(prev.sub_pools_wf(prev.sub_pools_storage@[si as int].1));
        }
        let (_, mut sub_pools) = self.sub_pools_storage.remove(si);
        let ghost sp_base = sub_pools;
        let balance_to_unbond: u128;
        match sub_pools.with_era_position(unbonding_era) {
            Option::Some(wi) => {
                // The era pool still exists: redeem the member's shares out
                // of it, and drop it once its shares are gone.
                let (era_key, p0) = sub_pools.with_era[wi];
                let mut p = p0;
                balance_to_unbond = p.balance_to_unbond(delegator.points);
                p.points = sat_sub_u128(p.points, delegator.points);
                p.balance = sat_sub_u128(p.balance, balance_to_unbond);
                if p.points == 0 {
                    let _ = sub_pools.with_era.remove(wi);
                    proof {
                        assert forall|x: int, y: int|
                            0 <= x < y < sub_pools.with_era@.len() implies (
                        #[trigger] sub_pools.with_era@[x]).0 < (#[trigger] sub_pools.with_era@[y]).0 by {
                            let x0: int = if x < wi {
                                x
                            } else {
                                x + 1
                            };
                            let y0: int = if y < wi {
                                y
                            } else {
                                y + 1
                            };
                            assert(sub_pools.with_era@[x] == sp_base.with_era@[x0]);
                            assert(sub_pools.with_era@[y] == sp_base.with_era@[y0]);
                        }
                        assert forall|e2: u32| with_era_find(sub_pools.with_era@, e2) == (if e2
                            == era_key {
                            Option::None::<crate::pool::UnbondPool>
                        } else {
                            with_era_find(sp_base.with_era@, e2)
                        }) by {
                            crate::pool::lemma_with_era_find_remove(
                                sp_base.with_era@,
                                wi as int,
                                e2,
                            );
                        }
                    }
                } else {
                    sub_pools.with_era.set(wi, (era_key, p));
                    proof {
                        assert forall|x: int, y: int|
                            0 <= x < y < sub_pools.with_era@.len() implies (
                        #[trigger] sub_pools.with_era@[x]).0 < (#[trigger] sub_pools.with_era@[y]).0 by {
                            assert(sub_pools.with_era@[x].0 == sp_base.with_era@[x].0);
                            assert(sub_pools.with_era@[y].0 == sp_base.with_era@[y].0);
                        }
                        assert forall|e2: u32| with_era_find(sub_pools.with_era@, e2) == (if e2
                            == era_key {
                            Option::Some(p)
                        } else {
                            with_era_find(sp_base.with_era@, e2)
                        }) by {
                            crate::pool::lemma_with_era_find_update(
                                sp_base.with_era@,
                                wi as int,
                                (era_key, p),
                                e2,
                            );
                        }
                    }
                }
            },
            Option::None => {
                // The era pool was merged away: redeem out of the era-less
                // pool.
                balance_to_unbond = sub_pools.no_era.balance_to_unbond(delegator.points);
                sub_pools.no_era.points = sat_sub_u128(sub_pools.no_era.points, delegator.points);
                sub_pools.no_era.balance = sat_sub_u128(sub_pools.no_era.balance, balance_to_unbond);
            },
        }
        let event = if pool_free_balance >= balance_to_unbond {
            Event::Withdrawn { delegator: target, pool: delegator.pool, amount: balance_to_unbond }
        } else {
            // A prior withdrawal dusted the pool account; the record still
            // goes so the pool can eventually be reaped.
            Event::DustWithdrawn { delegator: target, pool: delegator.pool }
        };
        let ghost sp2g = sub_pools;
        if should_remove_pool {
            let ri = match alist_position(&self.reward_pools, delegator.pool) {
                Option::None => {
                    proof {
                        lemma_alist_find_unique_at(prev.bonded_pools@, delegator.pool, bi as int);
                        assert(false);
                    }
                    return Result::Err(Error::RewardPoolNotFound);
                },
                Option::Some(ri) => ri,
            };
            let _ = self.reward_pools.remove(ri);
            let _ = self.bonded_pools.remove(bi);
            let _ = self.delegators.remove(di);
            proof {
                self.lemma_wf_withdraw_remove(prev, di as int, bi as int, ri as int, si as int);
                assert forall|k: u64| alist_find(self.delegators@, k) == (if k == target {
                    Option::None::<Delegator>
                } else {
                    alist_find(prev.delegators@, k)
                }) by {
                    lemma_alist_find_remove(prev.delegators@, di as int, k);
                }
                assert forall|k: u64| alist_find(self.bonded_pools@, k) == (if k == delegator.pool {
                    Option::None::<BondedPool>
                } else {
                    alist_find(prev.bonded_pools@, k)
                }) by {
                    lemma_alist_find_remove(prev.bonded_pools@, bi as int, k);
                }
                assert forall|k: u64| alist_find(self.reward_pools@, k) == (if k == delegator.pool {
                    Option::None::<RewardPool>
                } else {
                    alist_find(prev.reward_pools@, k)
                }) by {
                    lemma_alist_find_remove(prev.reward_pools@, ri as int, k);
                }
                assert forall|k: u64| alist_find(self.sub_pools_storage@, k) == (if k
                    == delegator.pool {
                    Option::None::<SubPools>
                } else {
                    alist_find(prev.sub_pools_storage@, k)
                }) by {
                    lemma_alist_find_remove(prev.sub_pools_storage@, si as int, k);
                }
            }
        } else {
            self.sub_pools_storage.insert(si, (delegator.pool, sub_pools));
            let _ = self.delegators.remove(di);
            proof {
                assert(prev.sub_pools_storage@.remove(si as int).insert(
                    si as int,
                    (delegator.pool, sp2g),
                ) =~= prev.sub_pools_storage@.update(si as int, (delegator.pool, sp2g)));
                self.lemma_wf_withdraw_keep(prev, di as int, si as int, sp2g);
                assert forall|k: u64| alist_find(self.delegators@, k) == (if k == target {
                    Option::None::<Delegator>
                } else {
                    alist_find(prev.delegators@, k)
                }) by {
                    lemma_alist_find_remove(prev.delegators@, di as int, k);
                }
                assert forall|k: u64| alist_find(self.sub_pools_storage@, k) == (if k
                    == delegator.pool {
                    Option::Some(sp2g)
                } else {
                    alist_find(prev.sub_pools_storage@, k)
                }) by {
                    lemma_alist_find_update(
                        prev.sub_pools_storage@,
                        si as int,
                        (delegator.pool, sp2g),
                        k,
                    );
                }
            }
        }
        Result::Ok((event, should_remove_pool))
    }

    /// Dropping one unbonding member and replacing their pool's sub pools
    /// by a well-formed family preserves well-formedness: active sums are
    /// untouched.
    proof fn lemma_wf_withdraw_keep(self, prev: Pallet, di: int, si: int, sp2: SubPools)
        requires
            prev.wf(),
            0 <= di < prev.delegators@.len(),
            0 <= si < prev.sub_pools_storage@.len(),
            prev.delegators@[di].1.unbonding_era is Some,
            self.delegators@ == prev.delegators@.remove(di),
            self.sub_pools_storage@ == prev.sub_pools_storage@.update(
                si,
                (prev.sub_pools_storage@[si].0, sp2),
            ),
            self.sub_pools_wf(sp2),
            self.bonded_pools@ == prev.bonded_pools@,
            self.reward_pools@ == prev.reward_pools@,
            self.pool_size_max == prev.pool_size_max,
            self.post_unbonding_pools_window == prev.post_unbonding_pools_window,
            self.bonding_duration == prev.bonding_duration,
        ensures
            self.wf(),
    {
        let dkey = prev.delegators@[di].0;
        lemma_alist_unique_remove(prev.delegators@, di);
        lemma_alist_unique_update(
            prev.sub_pools_storage@,
            si,
            (prev.sub_pools_storage@[si].0, sp2),
        );
        assert forall|j: int| 0 <= j < self.delegators@.len() implies (((
        #[trigger] self.delegators@[j]).1.unbonding_era is None && self.delegators@[j].1.points
            > 0) ==> (alist_find(self.bonded_pools@, self.delegators@[j].1.pool) is Some
            && alist_find(self.reward_pools@, self.delegators@[j].1.pool) is Some)) by {
            let j0: int = if j < di {
                j
            } else {
                j + 1
            };
            assert(self.delegators@[j] == prev.delegators@[j0]);
        }
        assert forall|j: int| 0 <= j < self.bonded_pools@.len() implies (
        #[trigger] self.bonded_pools@[j]).1.points == sum_active_points(
            self.delegators@,
            self.bonded_pools@[j].0,
        ) by {
            lemma_sum_remove(prev.delegators@, di, self.bonded_pools@[j].0);
            assert(active_points(prev.delegators@[di], self.bonded_pools@[j].0) == 0);
        }
        assert forall|j: int| 0 <= j < self.sub_pools_storage@.len() implies self.sub_pools_wf(
            (#[trigger] self.sub_pools_storage@[j]).1,
        ) by {
            if j != si {
                assert(self.sub_pools_storage@[j] == prev.sub_pools_storage@[j]);
                assert(prev.sub_pools_wf(prev.sub_pools_storage@[j].1));
            }
        }
        assert forall|j: int| 0 <= j < self.bonded_pools@.len() implies self.depositor_leaves_last(
            (#[trigger] self.bonded_pools@[j]).0,
            self.bonded_pools@[j].1,
        ) by {
            assert(prev.depositor_leaves_last(prev.bonded_pools@[j].0, prev.bonded_pools@[j].1));
            lemma_alist_find_remove(
                prev.delegators@,
                di,
                self.bonded_pools@[j].1.depositor,
            );
        }
    }

    /// Tearing a pool down — its unbonding depositor, its bonded, reward
    /// and sub-pool records all removed together — preserves
    /// well-formedness: the pool held no active shares, so nobody else
    /// loses a live pool.
    proof fn lemma_wf_withdraw_remove(self, prev: Pallet, di: int, bi: int, ri: int, si: int)
        requires
            prev.wf(),
            0 <= di < prev.delegators@.len(),
            0 <= bi < prev.bonded_pools@.len(),
            0 <= ri < prev.reward_pools@.len(),
            0 <= si < prev.sub_pools_storage@.len(),
            prev.delegators@[di].1.unbonding_era is Some,
            prev.delegators@[di].1.pool == prev.bonded_pools@[bi].0,
            prev.delegators@[di].0 == prev.bonded_pools@[bi].1.depositor,
            prev.reward_pools@[ri].0 == prev.bonded_pools@[bi].0,
            prev.sub_pools_storage@[si].0 == prev.bonded_pools@[bi].0,
            self.delegators@ == prev.delegators@.remove(di),
            self.bonded_pools@ == prev.bonded_pools@.remove(bi),
            self.reward_pools@ == prev.reward_pools@.remove(ri),
            self.sub_pools_storage@ == prev.sub_pools_storage@.remove(si),
            self.pool_size_max == prev.pool_size_max,
            self.post_unbonding_pools_window == prev.post_unbonding_pools_window,
            self.bonding_duration == prev.bonding_duration,
        ensures
            self.wf(),
    {
        let pool = prev.bonded_pools@[bi].0;
        let dkey = prev.delegators@[di].0;
        lemma_alist_unique_remove(prev.delegators@, di);
        lemma_alist_unique_remove(prev.bonded_pools@, bi);
        lemma_alist_unique_remove(prev.reward_pools@, ri);
        lemma_alist_unique_remove(prev.sub_pools_storage@, si);
        // The pool held no active shares: its depositor is unbonding.
        assert(prev.depositor_leaves_last(pool, prev.bonded_pools@[bi].1));
        lemma_alist_find_unique_at(prev.delegators@, dkey, di);
        assert(prev.bonded_pools@[bi].1.points == 0);
        assert(sum_active_points(prev.delegators@, pool) == 0);
        assert forall|j: int| 0 <= j < self.bonded_pools@.len() implies (
        #[trigger] self.bonded_pools@[j]).1.account == self.bonded_pools@[j].0 by {
            let j0: int = if j < bi {
                j
            } else {
                j + 1
            };
            assert(self.bonded_pools@[j] == prev.bonded_pools@[j0]);
        }
        assert forall|j: int| 0 <= j < self.bonded_pools@.len() implies alist_find(
            self.reward_pools@,
            (#[trigger] self.bonded_pools@[j]).0,
        ) is Some by {
            let j0: int = if j < bi {
                j
            } else {
                j + 1
            };
            assert(self.bonded_pools@[j] == prev.bonded_pools@[j0]);
            lemma_alist_find_remove(
                prev.reward_pools@,
                ri,
                self.bonded_pools@[j].0,
            );
        }
        assert forall|j: int| 0 <= j < self.reward_pools@.len() implies alist_find(
            self.bonded_pools@,
            (#[trigger] self.reward_pools@[j]).0,
        ) is Some by {
            let j0: int = if j < ri {
                j
            } else {
                j + 1
            };
            assert(self.reward_pools@[j] == prev.reward_pools@[j0]);
            lemma_alist_find_remove(
                prev.bonded_pools@,
                bi,
                self.reward_pools@[j].0,
            );
        }
        assert forall|j: int| 0 <= j < self.delegators@.len() implies (((
        #[trigger] self.delegators@[j]).1.unbonding_era is None && self.delegators@[j].1.points
            > 0) ==> (alist_find(self.bonded_pools@, self.delegators@[j].1.pool) is Some
            && alist_find(self.reward_pools@, self.delegators@[j].1.pool) is Some)) by {
            let j0: int = if j < di {
                j
            } else {
                j + 1
            };
            assert(self.delegators@[j] == prev.delegators@[j0]);
            let p = self.delegators@[j].1.pool;
            if p == pool && self.delegators@[j].1.unbonding_era is None
                && self.delegators@[j].1.points > 0 {
                lemma_sum_member(prev.delegators@, j0, pool);
                assert(active_points(prev.delegators@[j0], pool) > 0);
                assert(false);
            }
            lemma_alist_find_remove(prev.bonded_pools@, bi, p);
            lemma_alist_find_remove(prev.reward_pools@, ri, p);
        }
        assert forall|j: int| 0 <= j < self.bonded_pools@.len() implies (
        #[trigger] self.bonded_pools@[j]).1.points == sum_active_points(
            self.delegators@,
            self.bonded_pools@[j].0,
        ) by {
            let j0: int = if j < bi {
                j
            } else {
                j + 1
            };
            assert(self.bonded_pools@[j] == prev.bonded_pools@[j0]);
            lemma_sum_remove(prev.delegators@, di, self.bonded_pools@[j].0);
            assert(active_points(prev.delegators@[di], self.bonded_pools@[j].0) == 0);
        }
        assert forall|j: int| 0 <= j < self.sub_pools_storage@.len() implies self.sub_pools_wf(
            (#[trigger] self.sub_pools_storage@[j]).1,
        ) by {
            let j0: int = if j < si {
                j
            } else {
                j + 1
            };
            assert(self.sub_pools_storage@[j] == prev.sub_pools_storage@[j0]);
            assert(prev.sub_pools_wf(prev.sub_pools_storage@[j0].1));
        }
        assert forall|j: int| 0 <= j < self.bonded_pools@.len() implies self.depositor_leaves_last(
            (#[trigger] self.bonded_pools@[j]).0,
            self.bonded_pools@[j].1,
        ) by {
            let j0: int = if j < bi {
                j
            } else {
                j + 1
            };
            assert(self.bonded_pools@[j] == prev.bonded_pools@[j0]);
            assert(prev.depositor_leaves_last(prev.bonded_pools@[j0].0, prev.bonded_pools@[j0].1));
            lemma_alist_find_remove(
                prev.delegators@,
                di,
                self.bonded_pools@[j].1.depositor,
            );
        }
    }

    /// Swapping in an updated delegator record — same pool, points and
    /// unbonding state — and an updated reward pool under the same key
    /// preserves well-formedness.
    proof fn lemma_wf_claim_update(
        self,
        prev: Pallet,
        di: int,
        d2: Delegator,
        ri: int,
        rp2: RewardPool,
    )
        requires
            prev.wf(),
            0 <= di < prev.delegators@.len(),
            0 <= ri < prev.reward_pools@.len(),
            d2.pool == prev.delegators@[di].1.pool,
            d2.points == prev.delegators@[di].1.points,
            d2.unbonding_era == prev.delegators@[di].1.unbonding_era,
            self.delegators@ == prev.delegators@.update(di, (prev.delegators@[di].0, d2)),
            self.reward_pools@ == prev.reward_pools@.update(ri, (prev.reward_pools@[ri].0, rp2)),
            self.bonded_pools@ == prev.bonded_pools@,
            self.sub_pools_storage@ == prev.sub_pools_storage@,
            self.pool_size_max == prev.pool_size_max,
            self.post_unbonding_pools_window == prev.post_unbonding_pools_window,
            self.bonding_duration == prev.bonding_duration,
        ensures
            self.wf(),
    {
        let dkey = prev.delegators@[di].0;
        let rkey = prev.reward_pools@[ri].0;
        lemma_alist_unique_update(prev.delegators@, di, (dkey, d2));
        lemma_alist_unique_update(prev.reward_pools@, ri, (rkey, rp2));
        assert forall|j: int| 0 <= j < self.bonded_pools@.len() implies alist_find(
            self.reward_pools@,
            (#[trigger] self.bonded_pools@[j]).0,
        ) is Some by {
            lemma_alist_find_update(
                prev.reward_pools@,
                ri,
                (rkey, rp2),
                self.bonded_pools@[j].0,
            );
        }
        assert forall|j: int| 0 <= j < self.reward_pools@.len() implies alist_find(
            self.bonded_pools@,
            (#[trigger] self.reward_pools@[j]).0,
        ) is Some by {
            if j != ri {
                assert(self.reward_pools@[j] == prev.reward_pools@[j]);
            } else {
                assert(self.reward_pools@[j].0 == rkey);
            }
        }
        assert forall|j: int| 0 <= j < self.delegators@.len() implies (((
        #[trigger] self.delegators@[j]).1.unbonding_era is None && self.delegators@[j].1.points
            > 0) ==> (alist_find(self.bonded_pools@, self.delegators@[j].1.pool) is Some
            && alist_find(self.reward_pools@, self.delegators@[j].1.pool) is Some)) by {
            let p = self.delegators@[j].1.pool;
            if j != di {
                assert(self.delegators@[j] == prev.delegators@[j]);
            } else {
                assert(p == prev.delegators@[di].1.pool);
            }
            lemma_alist_find_update(prev.reward_pools@, ri, (rkey, rp2), p);
        }
        assert forall|j: int| 0 <= j < self.bonded_pools@.len() implies (
        #[trigger] self.bonded_pools@[j]).1.points == sum_active_points(
            self.delegators@,
            self.bonded_pools@[j].0,
        ) by {
            lemma_sum_update(prev.delegators@, di, (dkey, d2), self.bonded_pools@[j].0);
            assert(active_points((dkey, d2), self.bonded_pools@[j].0) == active_points(
                prev.delegators@[di],
                self.bonded_pools@[j].0,
            ));
        }
        assert forall|j: int| 0 <= j < self.bonded_pools@.len() implies self.depositor_leaves_last(
            (#[trigger] self.bonded_pools@[j]).0,
            self.bonded_pools@[j].1,
        ) by {
            assert(prev.depositor_leaves_last(prev.bonded_pools@[j].0, prev.bonded_pools@[j].1));
            lemma_alist_find_unique_at(prev.delegators@, dkey, di);
            lemma_alist_find_update(
                prev.delegators@,
                di,
                (dkey, d2),
                self.bonded_pools@[j].1.depositor,
            );
        }
    }
}

/// What the staking engine reports when it applies a slash to a pool: the
/// pool's stash, the amount, the era the offence happened in, the era the
/// slash is applied in, and the stash's active bonded balance.
pub struct SlashPoolArgs {
    pub pool_stash: u64,
    pub slash_amount: u128,
    pub slash_era: u32,
    pub apply_era: u32,
    pub active_bonded: u128,
}

/// What the engine hands back: the post-slash bonded balance and the
/// post-slash balance of every affected unbonding chunk, by era. The engine
/// touches no balances itself; the staking engine applies these.
pub struct SlashPoolOut {
    pub slashed_bonded: u128,
    pub slashed_unlocking: Vec<(u32, u128)>,
}

/// Whether a sub pool of era `era` absorbs a slash spanning
/// `(slash_era, apply_era]`.
pub open spec fn spec_era_affected(era: u32, slash_era: u32, apply_era: u32) -> bool {
    slash_era < era && era <= apply_era
}

/// The affected unbonding balance: the balances of the per-era pools in the
/// slash span, summed saturating in era order.
pub open spec fn spec_affected_acc(
    acc: u128,
    s: Seq<(u32, crate::pool::UnbondPool)>,
    slash_era: u32,
    apply_era: u32,
) -> u128
    decreases s.len(),
{
    if s.len() == 0 {
        acc
    } else {
        spec_affected_acc(
            if spec_era_affected(s[0].0, slash_era, apply_era) {
                cap_u128(acc + s[0].1.balance) as u128
            } else {
                acc
            },
            s.drop_first(),
            slash_era,
            apply_era,
        )
    }
}

/// A balance after its pro-rata share of the slash is taken: the share is
/// `slash_amount * balance / total`, multiplied saturating, and the cut
/// saturates at zero.
pub open spec fn spec_pool_slash(balance: int, slash_amount: int, total: int) -> int {
    let cut = cap_u128(slash_amount * balance) / total;
    if balance >= cut {
        balance - cut
    } else {
        0
    }
}

/// The per-era entries of the slash report, in era order.
pub open spec fn spec_slashed_unlocking_acc(
    acc: Seq<(u32, u128)>,
    s: Seq<(u32, crate::pool::UnbondPool)>,
    slash_era: u32,
    apply_era: u32,
    slash_amount: u128,
    total: int,
) -> Seq<(u32, u128)>
    decreases s.len(),
{
    if s.len() == 0 {
        acc
    } else {
        spec_slashed_unlocking_acc(
            if spec_era_affected(s[0].0, slash_era, apply_era) {
                acc.push(
                    (
                        s[0].0,
                        spec_pool_slash(s[0].1.balance as int, slash_amount as int, total) as u128,
                    ),
                )
            } else {
                acc
            },
            s.drop_first(),
            slash_era,
            apply_era,
            slash_amount,
            total,
        )
    }
}

impl Pallet {
    /// Distribute a slash reported by the staking engine across the pool's
    /// bonded balance and the unbonding pools of the slash span
    /// `(slash_era, apply_era]`. Returns `None` when the stash is no pool.
    /// Sub-pool points are untouched — the slash shifts the redemption
    /// ratio, which is how those members absorb the loss — and the era-less
    /// pool is spared deliberately: it holds fully matured withdrawals.
    pub fn slash_pool(&mut self, args: SlashPoolArgs) -> (r: Option<SlashPoolOut>)
        requires
            old(self).wf(),
        ensures
            final(self).wf(),
            r is None <==> alist_find(old(self).bonded_pools@, args.pool_stash) is None,
            r is None ==> *final(self) == *old(self),
            final(self).delegators@ == old(self).delegators@,
            final(self).bonded_pools@ == old(self).bonded_pools@,
            final(self).reward_pools@ == old(self).reward_pools@,
            forall|k: u64|
                k != args.pool_stash ==> alist_find(final(self).sub_pools_storage@, k)
                    == alist_find(old(self).sub_pools_storage@, k),
            r is Some && old(self).spec_slash_total(args) == 0 ==> r.unwrap().slashed_bonded
                == 0 && r.unwrap().slashed_unlocking@.len() == 0 && *final(self) == *old(self),
            r is Some && old(self).spec_slash_total(args) > 0 ==> ({
                let basew = old(self).spec_base_with_era(args.pool_stash);
                let total = old(self).spec_slash_total(args);
                let out = r.unwrap();
                let sp2 = alist_find(final(self).sub_pools_storage@, args.pool_stash).unwrap();
                &&& out.slashed_bonded == spec_pool_slash(
                    args.active_bonded as int,
                    args.slash_amount as int,
                    total,
                )
                &&& out.slashed_unlocking@ == spec_slashed_unlocking_acc(
                    Seq::<(u32, u128)>::empty(),
                    basew,
                    args.slash_era,
                    args.apply_era,
                    args.slash_amount,
                    total,
                )
                &&& alist_find(final(self).sub_pools_storage@, args.pool_stash) is Some
                &&& sp2.no_era == old(self).spec_base_no_era(args.pool_stash)
                &&& sp2.with_era@.len() == basew.len()
                &&& (forall|j: int|
                    0 <= j < sp2.with_era@.len() ==> ((#[trigger] sp2.with_era@[j]).0 == basew[j].0
                        && sp2.with_era@[j].1.points == basew[j].1.points
                        && sp2.with_era@[j].1.balance == (if spec_era_affected(
                        basew[j].0,
                        args.slash_era,
                        args.apply_era,
                    ) {
                        spec_pool_slash(basew[j].1.balance as int, args.slash_amount as int, total)
                    } else {
                        basew[j].1.balance as int
                    }) && sp2.with_era@[j].1.balance <= basew[j].1.balance))
            }),
    {
        match alist_position(&self.bonded_pools, args.pool_stash) {
            Option::None => {
                return Option::None;
            },
            Option::Some(_) => {},
        }
        let si_opt = alist_position(&self.sub_pools_storage, args.pool_stash);
        let (sub_pools_present, si): (bool, usize) = match si_opt {
            Option::Some(i) => (true, i),
            Option::None => (false, 0),
        };
        let ghost prev = *self;
        let ghost basew = prev.spec_base_with_era(args.pool_stash);
        proof {
            if sub_pools_present {
                lemma_alist_find_unique_at(prev.sub_pools_storage@, args.pool_stash, si as int);
                assert(prev.sub_pools_wf(prev.sub_pools_storage@[si as int].1));
            }
        }
        // Sum the affected unbonding balances; the era-less pool stays out.
        let mut unbonding_affected: u128 = 0;
        if sub_pools_present {
            let n = self.sub_pools_storage[si].1.with_era.len();
            let mut i: usize = 0;
            proof {
                assert(basew.skip(0) =~= basew);
            }
            while i < n
                invariant
                    i <= n,
                    sub_pools_present,
                    si < self.sub_pools_storage@.len(),
                    *self == prev,
                    n == basew.len(),
                    basew == self.sub_pools_storage@[si as int].1.with_era@,
                    spec_affected_acc(0, basew, args.slash_era, args.apply_era)
                        == spec_affected_acc(
                        unbonding_affected,
                        basew.skip(i as int),
                        args.slash_era,
                        args.apply_era,
                    ),
                decreases n - i,
            {
                let (era, p) = self.sub_pools_storage[si].1.with_era[i];
                proof {
                    assert(basew.skip(i as int).drop_first() =~= basew.skip(i + 1));
                    assert(basew.skip(i as int)[0] == basew[i as int]);
                }
                if args.slash_era < era && era <= args.apply_era {
                    unbonding_affected = crate::sat::sat_add_u128(unbonding_affected, p.balance);
                }
                i = i + 1;
            }
            proof {
                assert(basew.skip(n as int) =~= Seq::<(u32, crate::pool::UnbondPool)>::empty());
            }
        } else {
            proof {
                assert(basew =~= Seq::<(u32, crate::pool::UnbondPool)>::empty());
            }
        }
        let total_affected_balance = crate::sat::sat_add_u128(
            args.active_bonded,
            unbonding_affected,
        );
        if total_affected_balance == 0 {
            // Nothing to slash against: report zeros and change nothing.
            return Option::Some(SlashPoolOut { slashed_bonded: 0, slashed_unlocking: Vec::new() });
        }
        let mut sub_pools = if sub_pools_present {
            self.sub_pools_storage.remove(si).1
        } else {
            SubPools::new()
        };
        let n = sub_pools.with_era.len();
        // Take each affected pool's pro-rata share and record the rest.
        let mut slashed_unlocking: Vec<(u32, u128)> = Vec::new();
        let mut i2: usize = 0;
        proof {
            assert(basew.skip(0) =~= basew);
            assert(slashed_unlocking@ =~= Seq::<(u32, u128)>::empty());
        }
        while i2 < n
            invariant
                i2 <= n,
                n == sub_pools.with_era@.len(),
                n == basew.len(),
                total_affected_balance > 0,
                sub_pools.no_era == prev.spec_base_no_era(args.pool_stash),
                forall|j: int| i2 <= j < n ==> (#[trigger] sub_pools.with_era@[j]) == basew[j],
                forall|j: int|
                    0 <= j < i2 ==> ((#[trigger] sub_pools.with_era@[j]).0 == basew[j].0
                        && sub_pools.with_era@[j].1.points == basew[j].1.points
                        && sub_pools.with_era@[j].1.balance == (if spec_era_affected(
                        basew[j].0,
                        args.slash_era,
                        args.apply_era,
                    ) {
                        spec_pool_slash(
                            basew[j].1.balance as int,
                            args.slash_amount as int,
                            total_affected_balance as int,
                        )
                    } else {
                        basew[j].1.balance as int
                    }) && sub_pools.with_era@[j].1.balance <= basew[j].1.balance),
                spec_slashed_unlocking_acc(
                    Seq::<(u32, u128)>::empty(),
                    basew,
                    args.slash_era,
                    args.apply_era,
                    args.slash_amount,
                    total_affected_balance as int,
                ) == spec_slashed_unlocking_acc(
                    slashed_unlocking@,
                    basew.skip(i2 as int),
                    args.slash_era,
                    args.apply_era,
                    args.slash_amount,
                    total_affected_balance as int,
                ),
            decreases n - i2,
        {
            let (era, p) = sub_pools.with_era[i2];
            proof {
                assert(basew.skip(i2 as int).drop_first() =~= basew.skip(i2 + 1));
                assert(basew.skip(i2 as int)[0] == basew[i2 as int]);
            }
            if args.slash_era < era && era <= args.apply_era {
                let pool_slash_amount = crate::sat::sat_mul_u128(args.slash_amount, p.balance)
                    / total_affected_balance;
                let after_slash_balance = sat_sub_u128(p.balance, pool_slash_amount);
                sub_pools.with_era.set(
                    i2,
                    (
                        era,
                        crate::pool::UnbondPool {
                            points: p.points,
                            balance: after_slash_balance,
                        },
                    ),
                );
                slashed_unlocking.push((era, after_slash_balance));
            }
            i2 = i2 + 1;
        }
        proof {
            assert(basew.skip(n as int) =~= Seq::<(u32, crate::pool::UnbondPool)>::empty());
        }
        let slashed_bonded = {
            let bonded_pool_slash_amount = crate::sat::sat_mul_u128(
                args.slash_amount,
                args.active_bonded,
            ) / total_affected_balance;
            sat_sub_u128(args.active_bonded, bonded_pool_slash_amount)
        };
        let ghost sp2g = sub_pools;
        if sub_pools_present {
            self.sub_pools_storage.insert(si, (args.pool_stash, sub_pools));
        } else {
            self.sub_pools_storage.push((args.pool_stash, sub_pools));
        }
        proof {
            if sub_pools_present {
                assert(prev.sub_pools_storage@.remove(si as int).insert(
                    si as int,
                    (args.pool_stash, sp2g),
                ) =~= prev.sub_pools_storage@.update(si as int, (args.pool_stash, sp2g)));
                assert(prev.sub_pools_wf(prev.sub_pools_storage@[si as int].1));
            }
            assert(self.sub_pools_wf(sp2g)) by {
                assert forall|x: int, y: int| 0 <= x < y < sp2g.with_era@.len() implies (
                #[trigger] sp2g.with_era@[x]).0 < (#[trigger] sp2g.with_era@[y]).0 by {
                    assert(sp2g.with_era@[x].0 == basew[x].0);
                    assert(sp2g.with_era@[y].0 == basew[y].0);
                }
                assert forall|j: int| 0 <= j < sp2g.with_era@.len() implies ((
                #[trigger] sp2g.with_era@[j]).1.points == 0 ==> sp2g.with_era@[j].1.balance == 0) by {
                    assert(sp2g.with_era@[j].1.points == basew[j].1.points);
                    assert(sp2g.with_era@[j].1.balance <= basew[j].1.balance);
                }
            }
            self.lemma_wf_slash_update(prev, args.pool_stash, sp2g, sub_pools_present, si as int);
            if sub_pools_present {
                assert forall|k: u64| alist_find(self.sub_pools_storage@, k) == (if k
                    == args.pool_stash {
                    Option::Some(sp2g)
                } else {
                    alist_find(prev.sub_pools_storage@, k)
                }) by {
                    lemma_alist_find_update(
                        prev.sub_pools_storage@,
                        si as int,
                        (args.pool_stash, sp2g),
                        k,
                    );
                }
            } else {
                assert forall|k: u64| alist_find(self.sub_pools_storage@, k) == (if k
                    == args.pool_stash {
                    Option::Some(sp2g)
                } else {
                    alist_find(prev.sub_pools_storage@, k)
                }) by {
                    lemma_alist_find_push(prev.sub_pools_storage@, (args.pool_stash, sp2g), k);
                }
            }
        }
        Option::Some(SlashPoolOut { slashed_bonded, slashed_unlocking })
    }

    /// The per-era map of the pool's sub pools, empty when the pool has
    /// none.
    pub open spec fn spec_base_with_era(self, pool: u64) -> Seq<(u32, crate::pool::UnbondPool)> {
        match alist_find(self.sub_pools_storage@, pool) {
            Option::Some(sp) => sp.with_era@,
            Option::None => Seq::empty(),
        }
    }

    /// The whole balance a slash is distributed over: the active bonded
    /// balance plus the affected unbonding balances.
    pub open spec fn spec_slash_total(self, args: SlashPoolArgs) -> int {
        cap_u128(
            args.active_bonded + spec_affected_acc(
                0,
                self.spec_base_with_era(args.pool_stash),
                args.slash_era,
                args.apply_era,
            ),
        )
    }

    /// The pool's era-less sub pool, empty when the pool has none.
    pub open spec fn spec_base_no_era(self, pool: u64) -> crate::pool::UnbondPool {
        match alist_find(self.sub_pools_storage@, pool) {
            Option::Some(sp) => sp.no_era,
            Option::None => crate::pool::UnbondPool { points: 0, balance: 0 },
        }
    }

    /// Replacing one pool's sub pools by a family with the same eras and
    /// points and no larger balances preserves well-formedness: nothing else
    /// moves.
    proof fn lemma_wf_slash_update(
        self,
        prev: Pallet,
        pool: u64,
        sp2: SubPools,
        present: bool,
        si: int,
    )
        requires
            prev.wf(),
            self.sub_pools_wf(sp2),
            present ==> 0 <= si < prev.sub_pools_storage@.len() && prev.sub_pools_storage@[si].0
                == pool && self.sub_pools_storage@ == prev.sub_pools_storage@.update(
                si,
                (pool, sp2),
            ),
            !present ==> alist_find(prev.sub_pools_storage@, pool) is None
                && self.sub_pools_storage@ == prev.sub_pools_storage@.push((pool, sp2)),
            self.delegators@ == prev.delegators@,
            self.bonded_pools@ == prev.bonded_pools@,
            self.reward_pools@ == prev.reward_pools@,
            self.pool_size_max == prev.pool_size_max,
            self.post_unbonding_pools_window == prev.post_unbonding_pools_window,
            self.bonding_duration == prev.bonding_duration,
        ensures
            self.wf(),
    {
        if present {
            lemma_alist_unique_update(prev.sub_pools_storage@, si, (pool, sp2));
        } else {
            lemma_alist_unique_push(prev.sub_pools_storage@, (pool, sp2));
        }
        assert forall|j: int| 0 <= j < self.sub_pools_storage@.len() implies self.sub_pools_wf(
            (#[trigger] self.sub_pools_storage@[j]).1,
        ) by {
            if present {
                if j != si {
                    assert(self.sub_pools_storage@[j] == prev.sub_pools_storage@[j]);
                    assert(prev.sub_pools_wf(prev.sub_pools_storage@[j].1));
                }
            } else {
                if j < prev.sub_pools_storage@.len() {
                    assert(self.sub_pools_storage@[j] == prev.sub_pools_storage@[j]);
                    assert(prev.sub_pools_wf(prev.sub_pools_storage@[j].1));
                }
            }
        }
        assert forall|j: int| 0 <= j < self.bonded_pools@.len() implies self.depositor_leaves_last(
            (#[trigger] self.bonded_pools@[j]).0,
            self.bonded_pools@[j].1,
        ) by {
            assert(prev.depositor_leaves_last(prev.bonded_pools@[j].0, prev.bonded_pools@[j].1));
        }
    }
}

/// Every delegator holding active shares resolves to a live bonded pool and
/// a live reward pool. (A member whose share count is zero, or whose
/// sub-pool share was exhausted by others while unbonding, can outlive its
/// pool's teardown; such a record only collects lookup errors.)
pub proof fn lemma_delegator_pools_live(s: Pallet, who: u64)
    requires
        s.wf(),
        alist_find(s.delegators@, who) is Some,
        alist_find(s.delegators@, who).unwrap().unbonding_era is None,
        alist_find(s.delegators@, who).unwrap().points > 0,
    ensures
        alist_find(s.bonded_pools@, alist_find(s.delegators@, who).unwrap().pool) is Some,
        alist_find(s.reward_pools@, alist_find(s.delegators@, who).unwrap().pool) is Some,
{
    lemma_alist_find_index(s.delegators@, who);
}

/// A bonded pool's points equal the sum of the active points of all its
/// delegators.
pub proof fn lemma_pool_points_are_member_points(s: Pallet, pool: u64)
    requires
        s.wf(),
        alist_find(s.bonded_pools@, pool) is Some,
    ensures
        alist_find(s.bonded_pools@, pool).unwrap().points == sum_active_points(
            s.delegators@,
            pool,
        ),
{
    lemma_alist_find_index(s.bonded_pools@, pool);
}

/// A pool's per-era map never holds more entries than the unbonding-pool
/// window `bonding_duration + post_unbonding_pools_window`.
pub proof fn lemma_sub_pool_window_bound(s: Pallet, pool: u64)
    requires
        s.wf(),
        alist_find(s.sub_pools_storage@, pool) is Some,
    ensures
        alist_find(s.sub_pools_storage@, pool).unwrap().with_era@.len()
            <= s.spec_total_unbonding_pools(),
{
    lemma_alist_find_index(s.sub_pools_storage@, pool);
}

/// Destroying is absorbing: no caller can move a destroying pool to any
/// state, so once destruction is observed every later read observes it
/// still. (`set_state` is the only operation that writes a state.)
pub proof fn lemma_destroying_is_absorbing(s: Pallet, who: u64, pool: u64, state: PoolState)
    requires
        alist_find(s.bonded_pools@, pool) is Some,
        alist_find(s.bonded_pools@, pool).unwrap().state == PoolState::Destroying,
    ensures
        s.spec_set_state(who, pool, state) is Err,
{
}

/// A delegator claiming again before any new reward arrived is paid
/// nothing: their watermark already sits at the pool's lifetime earnings.
pub proof fn lemma_second_claim_pays_nothing(
    bonded_points: int,
    rp: RewardPool,
    d: Delegator,
    current_balance: u128,
)
    requires
        rp.balance == current_balance,
        d.reward_pool_total_earnings == rp.total_earnings,
    ensures
        spec_payout(bonded_points, rp, d, current_balance as int) == 0,
{
    assert(spec_new_total_earnings(rp, current_balance as int) == rp.total_earnings);
    assert(d.points * 0 == 0) by (nonlinear_arith);
}

/// Reward payout is proportional: two delegators who entered at the same
/// moment with the same stake and claim back to back receive the same
/// amount, whenever the pool's virtual points divide the claim evenly (an
/// indivisible remainder can favour the later claimer by a unit).
/// `rp2` is the reward-pool record as the first claim writes it back.
pub proof fn lemma_payout_proportional(
    bonded_points: int,
    rp: RewardPool,
    rp2: RewardPool,
    d1: Delegator,
    d2: Delegator,
    current_balance: u128,
)
    requires
        d1.points == d2.points,
        d1.reward_pool_total_earnings == d2.reward_pool_total_earnings,
        ({
            let te = spec_new_total_earnings(rp, current_balance as int);
            let cp = spec_current_points(bonded_points, rp, current_balance as int);
            let v = spec_delegator_virtual_points(d1, te);
            &&& v > 0
            &&& current_balance > 0
            &&& cp >= 2 * v
            &&& (v * current_balance) % cp == 0
            &&& v * current_balance <= crate::wide::u256_max()
            &&& v * current_balance / cp <= u128::MAX
            &&& rp2.total_earnings == te
            &&& rp2.balance == current_balance - spec_payout(
                bonded_points,
                rp,
                d1,
                current_balance as int,
            )
            &&& rp2.points.val() == cp - v
        }),
    ensures
        spec_payout(bonded_points, rp2, d2, rp2.balance as int) == spec_payout(
            bonded_points,
            rp,
            d1,
            current_balance as int,
        ),
{
    let cb = current_balance as int;
    let te = spec_new_total_earnings(rp, cb);
    let cp = spec_current_points(bonded_points, rp, cb);
    let v = spec_delegator_virtual_points(d1, te);
    let p1 = spec_payout(bonded_points, rp, d1, cb);
    assert(v * cb >= 0) by (nonlinear_arith)
        requires
            v > 0,
            cb > 0,
    ;
    assert(crate::wide::cap_u256(v * cb) == v * cb);
    vstd::arithmetic::div_mod::lemma_fundamental_div_mod(v * cb, cp);
    assert(p1 == v * cb / cp);
    assert(v * cb == cp * (v * cb / cp));
    // The second reading: the reward account holds what the first claim
    // left, and no new earnings arrive, so the watermark stays.
    assert(spec_new_total_earnings(rp2, rp2.balance as int) == rp2.total_earnings);
    let v2 = spec_delegator_virtual_points(d2, te);
    assert(v2 == v);
    assert(spec_current_points(bonded_points, rp2, rp2.balance as int) == cp - v) by {
        assert(bonded_points * 0 == 0) by (nonlinear_arith);
        assert(0 <= cp - v <= crate::wide::u256_max());
    }
    // p1 <= cb, so the remaining balance is their difference exactly.
    assert(cp * p1 <= cp * cb) by (nonlinear_arith)
        requires
            v <= cp,
            cb > 0,
            cp > 0,
            cp * p1 == v * cb,
    ;
    assert(p1 <= cb) by (nonlinear_arith)
        requires
            cp * p1 <= cp * cb,
            cp > 0,
    ;
    let cb2 = cb - p1;
    assert(rp2.balance == cb2);
    // v * cb2 == p1 * (cp - v), so the second quotient is again p1.
    assert(v * cb2 == (cp - v) * p1) by (nonlinear_arith)
        requires
            v * cb == cp * p1,
            cb2 == cb - p1,
    ;
    assert(v * cb2 >= 0) by (nonlinear_arith)
        requires
            v > 0,
            cb2 >= 0,
    ;
    assert(v * cb2 <= v * cb) by (nonlinear_arith)
        requires
            v > 0,
            cb2 <= cb,
    ;
    assert(crate::wide::cap_u256(v * cb2) == v * cb2);
    vstd::arithmetic::div_mod::lemma_div_multiples_vanish(p1, cp - v);
    assert((cp - v) * p1 / (cp - v) == p1);
    assert(v * cb2 / (cp - v) == p1);
    // Half the points at most belong to the first claimer, so the pool
    // keeps a positive balance for the second.
    assert(2 * (v * cb) <= cp * cb) by (nonlinear_arith)
        requires
            2 * v <= cp,
            cb > 0,
    ;
    assert(2 * p1 <= cb) by (nonlinear_arith)
        requires
            2 * (cp * p1) <= cp * cb,
            cp > 0,
    ;
    assert(cb2 > 0);
}

/// A slash at least as large as the whole affected balance drives every
/// affected balance to zero, and a drained pool redeems nothing: shares cash
/// out of a zero balance as zero. (If the slash share overflows the balance
/// type, the saturating product can spare a sliver instead.)
pub proof fn lemma_full_slash_zeroes(balance: int, slash_amount: int, total: int)
    requires
        0 <= balance <= total,
        total > 0,
        slash_amount >= total,
        slash_amount * balance <= u128::MAX,
    ensures
        spec_pool_slash(balance, slash_amount, total) == 0,
        spec_balance_to_unbond_drained(),
{
    assert(crate::sat::cap_u128(slash_amount * balance) == slash_amount * balance) by {
        assert(slash_amount * balance >= 0) by (nonlinear_arith)
            requires
                slash_amount >= 0,
                balance >= 0,
        ;
    }
    assert(slash_amount * balance >= total * balance) by (nonlinear_arith)
        requires
            slash_amount >= total,
            balance >= 0,
    ;
    vstd::arithmetic::div_mod::lemma_div_is_ordered(
        total * balance,
        slash_amount * balance,
        total,
    );
    vstd::arithmetic::div_mod::lemma_div_multiples_vanish(balance, total);
    assert(total * balance / total == balance);
    assert(slash_amount * balance / total >= balance);
}

/// Redeeming any share count out of a pool whose balance was slashed to
/// zero returns zero.
pub open spec fn spec_balance_to_unbond_drained() -> bool {
    forall|p: int, dp: int| crate::points::spec_balance_to_unbond(0, p, dp) == 0
}

/// Genesis settings: the admission bounds the chain starts with.
pub struct GenesisConfig {
    pub min_join_bond: u128,
    pub min_create_bond: u128,
    pub max_pools: Option<u32>,
}

impl GenesisConfig {
    /// Write the genesis settings into the engine.
    pub fn build(&self, pallet: &mut Pallet)
        requires
            old(pallet).wf(),
        ensures
            final(pallet).wf(),
            final(pallet).min_join_bond == self.min_join_bond,
            final(pallet).min_create_bond == self.min_create_bond,
            final(pallet).max_pools == self.max_pools,
            final(pallet).delegators@ == old(pallet).delegators@,
            final(pallet).bonded_pools@ == old(pallet).bonded_pools@,
            final(pallet).reward_pools@ == old(pallet).reward_pools@,
            final(pallet).sub_pools_storage@ == old(pallet).sub_pools_storage@,
            final(pallet).pool_size_max == old(pallet).pool_size_max,
            final(pallet).bonding_duration == old(pallet).bonding_duration,
            final(pallet).post_unbonding_pools_window == old(pallet).post_unbonding_pools_window,
    {
        pallet.min_join_bond = self.min_join_bond;
        pallet.min_create_bond = self.min_create_bond;
        pallet.max_pools = match self.max_pools {
            Option::Some(m) => Option::Some(m),
            Option::None => Option::None,
        };
    }
}

impl Default for GenesisConfig {
    /// Zero minimum bonds and no pool cap.
    fn default() -> (r: Self)
        ensures
            r.min_join_bond == 0,
            r.min_create_bond == 0,
            r.max_pools is None,
    {
        GenesisConfig { min_join_bond: 0, min_create_bond: 0, max_pools: Option::None }
    }
}

} // verus!
