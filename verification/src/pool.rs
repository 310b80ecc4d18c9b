//! The four entity types of the engine — delegator, bonded pool, reward
//! pool, unbonding sub-pools — with their permission checks and ledger
//! arithmetic, plus the error and event vocabulary.
//!
//! Accounts are opaque 64-bit identities; balances are `u128`. What the
//! external staking engine knows (a pool's bonded balance, the current era)
//! is passed in as an argument wherever a method needs it.

use vstd::prelude::*;
use crate::points::{
    balance_to_unbond, points_to_issue, spec_balance_to_unbond, spec_points_to_issue,
};
use crate::sat::{cap_u128, sat_add_u128, sat_sub_u128};
use crate::wide::RewardPoints;

verus! {

broadcast use vstd::seq_lib::lemma_seq_skip_index, vstd::seq_lib::lemma_seq_skip_len;

/// Why an operation was refused. The taxonomy is part of the contract: each
/// engine operation says exactly which variant comes back on which input.
#[derive(Clone, Copy, PartialEq, Eq, Structural, Debug)]
pub enum Error {
    /// A (bonded) pool id does not exist.
    PoolNotFound,
    /// An account is not a delegator.
    DelegatorNotFound,
    /// A reward pool does not exist; reached only through a broken record.
    RewardPoolNotFound,
    /// A sub pool does not exist; reached only through a broken record.
    SubPoolsNotFound,
    /// An account may only belong to one pool at a time.
    AccountBelongsToOtherPool,
    /// The pool has insufficient balance to bond as a nominator.
    InsufficientBond,
    /// The delegator is already unbonding.
    AlreadyUnbonding,
    /// The delegator is not unbonding and thus cannot withdraw funds.
    NotUnbonding,
    /// Unbonded funds cannot be withdrawn yet: the bond duration has not passed.
    NotUnbondedYet,
    /// The amount does not meet the minimum bond to join or create a pool.
    MinimumBondNotMet,
    /// The transaction was refused due to overflow risk for the pool.
    OverflowRisk,
    /// A pool with the generated account id already exists.
    IdInUse,
    /// The pool must be destroying for the depositor to unbond, or for other
    /// delegators to be permissionlessly unbonded.
    NotDestroying,
    /// The depositor must be the only delegator left in the pool to leave it.
    NotOnlyDelegator,
    /// The caller does not have nominating permissions for the pool.
    NotNominator,
    /// The caller cannot make a valid kick and the pool is not destroying.
    NotKickerOrDestroying,
    /// The pool is not open to join.
    NotOpen,
    /// The system is maxed out on pools.
    MaxPools,
}

/// An observation the host hands to its subscribers after an operation.
#[derive(Clone, Copy, PartialEq, Eq, Structural, Debug)]
pub enum Event {
    Joined { delegator: u64, pool: u64, bonded: u128 },
    PaidOut { delegator: u64, pool: u64, payout: u128 },
    Unbonded { delegator: u64, pool: u64, amount: u128 },
    Withdrawn { delegator: u64, pool: u64, amount: u128 },
    DustWithdrawn { delegator: u64, pool: u64 },
}

/// All of a pool's possible states.
#[derive(Clone, Copy, PartialEq, Eq, Structural, Debug)]
pub enum PoolState {
    Open,
    Blocked,
    Destroying,
}

/// A pool member. The member holds `points` either in the bonded pool or,
/// once `unbonding_era` is set, in exactly one sub pool — never split.
#[derive(Clone, Copy, PartialEq, Eq, Structural, Debug)]
pub struct Delegator {
    /// The account of the pool this delegator belongs to.
    pub pool: u64,
    /// Share count in the bonded pool, or in a sub pool while unbonding.
    pub points: u128,
    /// The reward pool's lifetime earnings observed at this delegator's last
    /// payout; the next claim pays for what arrived since.
    pub reward_pool_total_earnings: u128,
    /// The era this delegator started unbonding at, if any.
    pub unbonding_era: Option<u32>,
}

/// Pool permissions, lifecycle state and active-share ledger.
#[derive(Clone, Copy, PartialEq, Eq, Structural, Debug)]
pub struct BondedPool {
    /// Total active shares outstanding.
    pub points: u128,
    /// Creator and initial delegator; the last permitted to leave.
    pub depositor: u64,
    /// Can do anything the nominator or state toggler can, and replace them.
    pub root: u64,
    /// Can set the pool's nominations at any time.
    pub nominator: u64,
    /// Can toggle the pool's state and kick delegators while it is blocked.
    pub state_toggler: u64,
    /// State of the pool.
    pub state: PoolState,
    /// The pool's own balance-bearing identity.
    pub account: u64,
}

/// Accrual-on-poll reward ledger with virtual-points accounting.
#[derive(Clone, Copy, PartialEq, Eq, Structural, Debug)]
pub struct RewardPool {
    /// The reward destination account of the pool.
    pub account: u64,
    /// The reward account's free balance after the last claimed payout.
    pub balance: u128,
    /// Cumulative lifetime earnings after the last claimed payout.
    pub total_earnings: u128,
    /// Virtual share count after the last claimed payout.
    pub points: RewardPoints,
}

/// One unbonding pool: shares over a balance released from the stake.
#[derive(Clone, Copy, PartialEq, Eq, Structural, Debug)]
pub struct UnbondPool {
    pub points: u128,
    pub balance: u128,
}

/// A bonded pool's family of unbonding pools: one per recent era, plus a
/// single era-less pool that sufficiently old entries are folded into.
#[derive(Clone, Debug)]
pub struct SubPools {
    /// Era-agnostic pool of funds that have fully unbonded.
    pub no_era: UnbondPool,
    /// Per-era unbond pools, sorted by strictly ascending era.
    pub with_era: Vec<(u32, UnbondPool)>,
}

/// The value of an optional external balance reading: absent means zero.
pub open spec fn spec_balance_or_zero(b: Option<u128>) -> int {
    match b {
        Option::Some(x) => x as int,
        Option::None => 0,
    }
}

/// The optional external balance reading, in executable form.
pub fn balance_or_zero(b: Option<u128>) -> (r: u128)
    ensures
        r == spec_balance_or_zero(b),
{
    match b {
        Option::Some(x) => x,
        Option::None => 0,
    }
}

impl UnbondPool {
    /// The empty unbond pool.
    pub fn new() -> (r: Self)
        ensures
            r.points == 0,
            r.balance == 0,
    {
        UnbondPool { points: 0, balance: 0 }
    }

    /// Points minted for `new_funds` against this pool's own ledger.
    pub fn points_to_issue(&self, new_funds: u128) -> (r: u128)
        ensures
            r == spec_points_to_issue(self.balance as int, self.points as int, new_funds as int),
    {
        points_to_issue(self.balance, self.points, new_funds)
    }

    /// Balance redeemed for `delegator_points` against this pool's ledger.
    pub fn balance_to_unbond(&self, delegator_points: u128) -> (r: u128)
        ensures
            r == spec_balance_to_unbond(
                self.balance as int,
                self.points as int,
                delegator_points as int,
            ),
    {
        balance_to_unbond(self.balance, self.points, delegator_points)
    }

    /// Issue points for `new_funds` and add the funds to the balance.
    pub fn issue(&mut self, new_funds: u128)
        ensures
            final(self).points == cap_u128(
                old(self).points + spec_points_to_issue(
                    old(self).balance as int,
                    old(self).points as int,
                    new_funds as int,
                ),
            ),
            final(self).balance == cap_u128(old(self).balance + new_funds),
            new_funds > 0 ==> final(self).points > 0,
    {
        let p = self.points_to_issue(new_funds);
        proof {
            if new_funds > 0 && self.points == 0 {
                assert(spec_points_to_issue(
                    self.balance as int,
                    self.points as int,
                    new_funds as int,
                ) == new_funds * 1);
                assert(new_funds * 1 == new_funds) by (nonlinear_arith);
            }
        }
        self.points = sat_add_u128(self.points, p);
        self.balance = sat_add_u128(self.balance, new_funds);
    }
}

impl Default for UnbondPool {
    /// The empty unbond pool.
    fn default() -> (r: Self)
        ensures
            r.points == 0,
            r.balance == 0,
    {
        UnbondPool { points: 0, balance: 0 }
    }
}

/// The per-era map holds strictly ascending eras.
pub open spec fn with_era_sorted(s: Seq<(u32, UnbondPool)>) -> bool {
    forall|i: int, j: int| 0 <= i < j < s.len() ==> s[i].0 < s[j].0
}

/// Every era key in the map is at most `era`.
pub open spec fn with_era_at_most(s: Seq<(u32, UnbondPool)>, era: u32) -> bool {
    forall|i: int| 0 <= i < s.len() ==> s[i].0 <= era
}

/// Every era key in the map is strictly above `era`.
pub open spec fn with_era_above(s: Seq<(u32, UnbondPool)>, era: int) -> bool {
    forall|i: int| 0 <= i < s.len() ==> s[i].0 > era
}

/// The entry for `era`, if present.
pub open spec fn with_era_find(s: Seq<(u32, UnbondPool)>, era: u32) -> Option<UnbondPool>
    decreases s.len(),
{
    if s.len() == 0 {
        Option::None
    } else if s[0].0 == era {
        Option::Some(s[0].1)
    } else {
        with_era_find(s.drop_first(), era)
    }
}

/// Folding the listed pools into the era-less pool, saturating, front first.
pub open spec fn spec_fold_no_era(acc: UnbondPool, s: Seq<(u32, UnbondPool)>) -> UnbondPool
    decreases s.len(),
{
    if s.len() == 0 {
        acc
    } else {
        spec_fold_no_era(
            UnbondPool {
                points: cap_u128(acc.points + s[0].1.points) as u128,
                balance: cap_u128(acc.balance + s[0].1.balance) as u128,
            },
            s.drop_first(),
        )
    }
}

/// A strictly ascending sequence of eras drawn from an interval of `n`
/// integers has at most `n` entries.
pub proof fn lemma_sorted_interval_len(s: Seq<(u32, UnbondPool)>, lo: int, hi: int)
    requires
        with_era_sorted(s),
        lo <= hi + 1,
        forall|i: int| 0 <= i < s.len() ==> lo <= (#[trigger] s[i]).0 <= hi,
    ensures
        s.len() <= hi - lo + 1,
    decreases s.len(),
{
    if s.len() > 0 {
        assert(lo <= s[0].0 <= hi);
        assert(forall|i: int| 0 <= i < s.len() - 1 ==> s.drop_last()[i] == s[i]);
        assert(forall|i: int|
            0 <= i < s.len() - 1 ==> (#[trigger] s[i]).0 < s[s.len() - 1].0);
        lemma_sorted_interval_len(s.drop_last(), lo, hi - 1);
    }
}

impl SubPools {
    /// Fresh sub pools: an empty era-less pool and no per-era pools.
    pub fn new() -> (r: Self)
        ensures
            r.no_era.points == 0,
            r.no_era.balance == 0,
            r.with_era@.len() == 0,
    {
        SubPools { no_era: UnbondPool::new(), with_era: Vec::new() }
    }

    /// Merge every per-era pool older than `current_era` minus the pool
    /// window into the era-less pool by summing points and balances. Called
    /// before every allocation into the per-era map so its size bound cannot
    /// be exceeded.
    pub fn maybe_merge_pools(&mut self, current_era: u32, total_unbonding_pools: u32)
        requires
            with_era_sorted(old(self).with_era@),
        ensures
            with_era_sorted(final(self).with_era@),
            final(self).with_era@.len() <= old(self).with_era@.len(),
            forall|e2: u32|
                with_era_at_most(old(self).with_era@, e2) ==> #[trigger] with_era_at_most(
                    final(self).with_era@,
                    e2,
                ),
            current_era >= total_unbonding_pools ==> with_era_above(
                final(self).with_era@,
                current_era - total_unbonding_pools,
            ),
            (forall|j: int|
                0 <= j < old(self).with_era@.len() ==> ((#[trigger] old(self).with_era@[j]).1.points
                    == 0 ==> old(self).with_era@[j].1.balance == 0)) ==> (forall|i: int|
                0 <= i < final(self).with_era@.len() ==> ((#[trigger] final(self).with_era@[i]).1.points
                    == 0 ==> final(self).with_era@[i].1.balance == 0)),
            current_era < total_unbonding_pools ==> *final(self) == *old(self),
            current_era >= total_unbonding_pools ==> {
                let thr = current_era - total_unbonding_pools;
                exists|k: int|
                    0 <= k <= old(self).with_era@.len() && final(self).with_era@ == old(
                        self,
                    ).with_era@.skip(k) && (forall|j: int| 0 <= j < k ==> old(self).with_era@[j].0 <= thr)
                        && with_era_above(final(self).with_era@, thr as int) && final(self).no_era
                        == spec_fold_no_era(old(self).no_era, old(self).with_era@.take(k))
            },
    {
        if current_era < total_unbonding_pools {
            // In the first few eras of the chain every pool may stay.
            proof {
                assert(self.with_era@ == self.with_era@.skip(0));
            }
            return ;
        }
        let newest_era_to_remove = current_era - total_unbonding_pools;
        let ghost orig = self.with_era@;
        let ghost orig_no_era = self.no_era;
        let ghost mut k: int = 0;
        loop
            invariant
                0 <= k <= orig.len(),
                self.with_era@ == orig.skip(k as int),
                forall|j: int| 0 <= j < k ==> orig[j].0 <= newest_era_to_remove,
                self.no_era == spec_fold_no_era(orig_no_era, orig.take(k as int)),
                with_era_sorted(orig),
            ensures
                0 <= k <= orig.len(),
                self.with_era@ == orig.skip(k as int),
                forall|j: int| 0 <= j < k ==> orig[j].0 <= newest_era_to_remove,
                self.no_era == spec_fold_no_era(orig_no_era, orig.take(k as int)),
                self.with_era@.len() == 0 || self.with_era@[0].0 > newest_era_to_remove,
            decreases orig.len() - k,
        {
            if self.with_era.len() == 0 {
                break ;
            }
            let era = self.with_era[0].0;
            if era > newest_era_to_remove {
                break ;
            }
            proof {
                assert(self.with_era@.len() > 0);
                assert(k < orig.len());
                assert(self.with_era@[0] == orig[k as int]);
                assert(orig.skip(k as int).drop_first() =~= orig.skip(k + 1));
                lemma_fold_no_era_step(orig_no_era, orig, k as int);
            }
            let (_, p) = self.with_era.remove(0);
            self.no_era.points = sat_add_u128(self.no_era.points, p.points);
            self.no_era.balance = sat_add_u128(self.no_era.balance, p.balance);
            proof {
                k = k + 1;
            }
        }
        proof {
            assert forall|i: int|
                0 <= i < self.with_era@.len() implies (#[trigger] self.with_era@[i]).0
                > newest_era_to_remove by {
                assert(self.with_era@[i] == orig.skip(k as int)[i]);
                assert(orig.skip(k as int)[i] == orig[k + i]);
                if i > 0 {
                    assert(self.with_era@[0] == orig[k as int]);
                    assert(orig[k as int].0 < orig[k + i].0);
                }
            }
            assert forall|e2: u32| with_era_at_most(orig, e2) implies #[trigger] with_era_at_most(
                self.with_era@,
                e2,
            ) by {
                assert forall|i: int| 0 <= i < self.with_era@.len() implies (
                #[trigger] self.with_era@[i]).0 <= e2 by {
                    assert(self.with_era@[i] == orig[k + i]);
                }
            }
            if forall|j: int|
                0 <= j < orig.len() ==> ((#[trigger] orig[j]).1.points == 0 ==> orig[j].1.balance
                    == 0) {
                assert forall|i: int|
                    0 <= i < self.with_era@.len() implies ((#[trigger] self.with_era@[i]).1.points
                    == 0 ==> self.with_era@[i].1.balance == 0) by {
                    assert(self.with_era@[i] == orig[k + i]);
                }
            }
        }
    }

    /// The index of the unbond pool for `era`, creating a zero entry if none
    /// exists. The caller keeps the map inside its size bound by merging
    /// first; eras never regress, so the entry is always the newest.
    pub fn unchecked_with_era_get_or_make(&mut self, era: u32) -> (r: usize)
        requires
            with_era_sorted(old(self).with_era@),
            with_era_at_most(old(self).with_era@, era),
        ensures
            with_era_sorted(final(self).with_era@),
            with_era_at_most(final(self).with_era@, era),
            r == final(self).with_era@.len() - 1,
            final(self).with_era@[r as int].0 == era,
            final(self).no_era == old(self).no_era,
            if with_era_find(old(self).with_era@, era) is Some {
                final(self).with_era@ == old(self).with_era@
            } else {
                final(self).with_era@ == old(self).with_era@.push(
                    (era, UnbondPool { points: 0, balance: 0 }),
                )
            },
    {
        let n = self.with_era.len();
        if n > 0 && self.with_era[n - 1].0 == era {
            proof {
                lemma_with_era_find_last(self.with_era@, era);
            }
            return n - 1;
        }
        proof {
            lemma_with_era_find_absent(self.with_era@, era);
        }
        self.with_era.push((era, UnbondPool::new()));
        self.with_era.len() - 1
    }
}

impl SubPools {
    /// Position of the unbond pool for `era`, scanning from the front.
    pub fn with_era_position(&self, era: u32) -> (r: Option<usize>)
        ensures
            match r {
                Option::Some(i) => i < self.with_era@.len() && self.with_era@[i as int].0 == era
                    && with_era_find(self.with_era@, era) == Option::Some(
                    self.with_era@[i as int].1,
                ),
                Option::None => with_era_find(self.with_era@, era) is None,
            },
    {
        let n = self.with_era.len();
        let mut i: usize = 0;
        while i < n
            invariant
                i <= n,
                n == self.with_era@.len(),
                forall|j: int| 0 <= j < i ==> (#[trigger] self.with_era@[j]).0 != era,
            decreases n - i,
        {
            if self.with_era[i].0 == era {
                proof {
                    lemma_with_era_find_at(self.with_era@, era, i as int);
                }
                return Option::Some(i);
            }
            i = i + 1;
        }
        proof {
            lemma_with_era_find_none(self.with_era@, era);
        }
        Option::None
    }
}

impl Default for SubPools {
    /// Fresh sub pools: an empty era-less pool and no per-era pools.
    fn default() -> (r: Self)
        ensures
            r.no_era.points == 0,
            r.no_era.balance == 0,
            r.with_era@.len() == 0,
    {
        SubPools::new()
    }
}

/// Folding one more entry into the era-less pool extends the spec fold.
proof fn lemma_fold_no_era_step(acc: UnbondPool, s: Seq<(u32, UnbondPool)>, k: int)
    requires
        0 <= k < s.len(),
    ensures
        (UnbondPool {
            points: cap_u128(spec_fold_no_era(acc, s.take(k)).points + s[k].1.points) as u128,
            balance: cap_u128(spec_fold_no_era(acc, s.take(k)).balance + s[k].1.balance) as u128,
        }) == spec_fold_no_era(acc, s.take(k + 1)),
{
    lemma_fold_no_era_snoc(acc, s.take(k + 1));
    assert(s.take(k + 1).drop_last() =~= s.take(k));
    assert(s.take(k + 1).last() == s[k]);
}

/// The spec fold peels its last entry.
proof fn lemma_fold_no_era_snoc(acc: UnbondPool, s: Seq<(u32, UnbondPool)>)
    requires
        s.len() > 0,
    ensures
        spec_fold_no_era(acc, s) == (UnbondPool {
            points: cap_u128(spec_fold_no_era(acc, s.drop_last()).points + s.last().1.points) as u128,
            balance: cap_u128(
                spec_fold_no_era(acc, s.drop_last()).balance + s.last().1.balance,
            ) as u128,
        }),
    decreases s.len(),
{
    if s.len() == 1 {
        assert(s.drop_first().len() == 0);
        assert(s.drop_last().len() == 0);
        assert(spec_fold_no_era(acc, s) == spec_fold_no_era(
            UnbondPool {
                points: cap_u128(acc.points + s[0].1.points) as u128,
                balance: cap_u128(acc.balance + s[0].1.balance) as u128,
            },
            s.drop_first(),
        ));
        assert(s.last() == s[0]);
    } else {
        let acc2 = UnbondPool {
            points: cap_u128(acc.points + s[0].1.points) as u128,
            balance: cap_u128(acc.balance + s[0].1.balance) as u128,
        };
        assert(spec_fold_no_era(acc, s) == spec_fold_no_era(acc2, s.drop_first()));
        lemma_fold_no_era_snoc(acc2, s.drop_first());
        assert(s.drop_first().drop_last() =~= s.drop_last().drop_first());
        assert(s.drop_first().last() == s.last());
        assert(s.drop_last().len() > 0);
        assert(s.drop_last()[0] == s[0]);
        assert(spec_fold_no_era(acc, s.drop_last()) == spec_fold_no_era(
            UnbondPool {
                points: cap_u128(acc.points + s.drop_last()[0].1.points) as u128,
                balance: cap_u128(acc.balance + s.drop_last()[0].1.balance) as u128,
            },
            s.drop_last().drop_first(),
        ));
    }
}

/// In a sorted map whose last entry holds `era`, lookup finds that entry.
pub proof fn lemma_with_era_find_last(s: Seq<(u32, UnbondPool)>, era: u32)
    requires
        with_era_sorted(s),
        s.len() > 0,
        s.last().0 == era,
    ensures
        with_era_find(s, era) == Option::Some(s.last().1),
    decreases s.len(),
{
    if s.len() > 1 {
        assert(s[0].0 < s.last().0);
        lemma_with_era_find_last(s.drop_first(), era);
        assert(s.drop_first().last() == s.last());
    }
}

/// In a map of eras at most `era` whose last entry is not `era` (or which is
/// empty), there is no entry for `era`.
proof fn lemma_with_era_find_absent(s: Seq<(u32, UnbondPool)>, era: u32)
    requires
        with_era_sorted(s),
        with_era_at_most(s, era),
        s.len() == 0 || s.last().0 != era,
    ensures
        with_era_find(s, era) is None,
    decreases s.len(),
{
    if s.len() > 0 {
        if s.len() == 1 {
            assert(s[0] == s.last());
            assert(s.drop_first().len() == 0);
        } else {
            assert(s[0].0 < s.last().0);
            assert(s.drop_first().last() == s.last());
            lemma_with_era_find_absent(s.drop_first(), era);
        }
    }
}

/// If `era` sits at `i` and nowhere earlier, lookup finds that entry.
pub proof fn lemma_with_era_find_at(s: Seq<(u32, UnbondPool)>, era: u32, i: int)
    requires
        0 <= i < s.len(),
        s[i].0 == era,
        forall|j: int| 0 <= j < i ==> (#[trigger] s[j]).0 != era,
    ensures
        with_era_find(s, era) == Option::Some(s[i].1),
    decreases i,
{
    if i > 0 {
        lemma_with_era_find_at(s.drop_first(), era, i - 1);
    }
}

/// In a sorted map, replacing the entry at `i` by one with the same era
/// rewrites only that era's binding.
pub proof fn lemma_with_era_find_update(s: Seq<(u32, UnbondPool)>, i: int, e: (u32, UnbondPool), key: u32)
    requires
        0 <= i < s.len(),
        with_era_sorted(s),
        e.0 == s[i].0,
    ensures
        with_era_find(s.update(i, e), key) == if key == e.0 {
            Option::Some(e.1)
        } else {
            with_era_find(s, key)
        },
    decreases i,
{
    let t = s.update(i, e);
    if i == 0 {
        if key != e.0 {
            assert(t.drop_first() =~= s.drop_first());
        }
    } else {
        assert(t[0] == s[0]);
        assert(t.drop_first() =~= s.drop_first().update(i - 1, e));
        if s[0].0 == key {
            assert(s[0].0 < s[i].0);
        } else {
            lemma_with_era_find_update(s.drop_first(), i - 1, e, key);
        }
    }
}

/// In a sorted map, removing the entry at `i` erases only that era's
/// binding.
pub proof fn lemma_with_era_find_remove(s: Seq<(u32, UnbondPool)>, i: int, key: u32)
    requires
        0 <= i < s.len(),
        with_era_sorted(s),
    ensures
        with_era_find(s.remove(i), key) == if key == s[i].0 {
            Option::None::<UnbondPool>
        } else {
            with_era_find(s, key)
        },
    decreases i,
{
    let t = s.remove(i);
    if i == 0 {
        assert(t =~= s.drop_first());
        if key == s[0].0 {
            assert forall|j: int| 0 <= j < s.drop_first().len() implies (
            #[trigger] s.drop_first()[j]).0 != key by {
                assert(s.drop_first()[j] == s[j + 1]);
                assert(s[0].0 < s[j + 1].0);
            }
            lemma_with_era_find_none(s.drop_first(), key);
        }
    } else {
        assert(t[0] == s[0]);
        assert(t.drop_first() =~= s.drop_first().remove(i - 1));
        assert(s.drop_first()[i - 1] == s[i]);
        if s[0].0 == key {
            assert(s[0].0 < s[i].0);
        } else {
            lemma_with_era_find_remove(s.drop_first(), i - 1, key);
        }
    }
}

/// If no entry holds `era`, lookup finds nothing.
pub proof fn lemma_with_era_find_none(s: Seq<(u32, UnbondPool)>, era: u32)
    requires
        forall|j: int| 0 <= j < s.len() ==> (#[trigger] s[j]).0 != era,
    ensures
        with_era_find(s, era) is None,
    decreases s.len(),
{
    if s.len() > 0 {
        lemma_with_era_find_none(s.drop_first(), era);
    }
}

/// An era that lookup does not find occurs at no index.
pub proof fn lemma_with_era_find_none_inv(s: Seq<(u32, UnbondPool)>, era: u32)
    requires
        with_era_find(s, era) is None,
    ensures
        forall|j: int| 0 <= j < s.len() ==> (#[trigger] s[j]).0 != era,
    decreases s.len(),
{
    if s.len() > 0 {
        lemma_with_era_find_none_inv(s.drop_first(), era);
        assert forall|j: int| 0 <= j < s.len() implies (#[trigger] s[j]).0 != era by {
            if j > 0 {
                assert(s[j] == s.drop_first()[j - 1]);
            }
        }
    }
}

impl RewardPool {
    /// Update the lifetime earnings and recorded balance from a fresh reading
    /// of the reward account's free balance.
    pub fn update_total_earnings_and_balance(&mut self, current_balance: u128)
        ensures
            final(self).total_earnings == cap_u128(
                old(self).total_earnings + if current_balance >= old(self).balance {
                    current_balance - old(self).balance
                } else {
                    0
                },
            ),
            final(self).balance == current_balance,
            final(self).account == old(self).account,
            final(self).points == old(self).points,
            final(self).total_earnings >= old(self).total_earnings,
    {
        let new_earnings = sat_sub_u128(current_balance, self.balance);
        self.total_earnings = sat_add_u128(new_earnings, self.total_earnings);
        self.balance = current_balance;
    }
}

/// The outcome of the pre-join check: open state, a live bonded balance, and
/// the two bounds that keep later saturating multiplications from the lossy
/// range.
pub open spec fn spec_ok_to_join_with(
    pool: BondedPool,
    bonded_balance: int,
    new_funds: int,
    pool_size_max: int,
) -> Result<(), Error> {
    if pool.state != PoolState::Open {
        Result::Err(Error::NotOpen)
    } else if bonded_balance == 0 {
        Result::Err(Error::OverflowRisk)
    } else if pool.points as int / bonded_balance >= pool_size_max {
        Result::Err(Error::OverflowRisk)
    } else if new_funds + bonded_balance >= u128::MAX as int / pool_size_max {
        Result::Err(Error::OverflowRisk)
    } else {
        Result::Ok(())
    }
}

/// The outcome of the unbond permission check over caller, target and
/// depositor.
pub open spec fn spec_ok_to_unbond_other_with(
    pool: BondedPool,
    caller: u64,
    target_account: u64,
    target_delegator: Delegator,
) -> Result<(), Error> {
    let is_permissioned = caller == target_account;
    let is_depositor = target_account == pool.depositor;
    if !is_permissioned && !is_depositor {
        if pool.spec_can_kick(caller) || pool.state == PoolState::Destroying {
            Result::Ok(())
        } else {
            Result::Err(Error::NotKickerOrDestroying)
        }
    } else if is_permissioned && !is_depositor {
        Result::Ok(())
    } else {
        if target_delegator.points != pool.points {
            Result::Err(Error::NotOnlyDelegator)
        } else if pool.state != PoolState::Destroying {
            Result::Err(Error::NotDestroying)
        } else {
            Result::Ok(())
        }
    }
}

/// The outcome of the withdraw permission check. `Ok(true)` additionally
/// says the depositor is leaving, so the pool is to be removed.
pub open spec fn spec_ok_to_withdraw_unbonded_other_with(
    pool: BondedPool,
    caller: u64,
    target_account: u64,
    target_delegator: Delegator,
    sub_pools: SubPools,
) -> Result<bool, Error> {
    if target_account == pool.depositor {
        if sub_pools.no_era.points != 0 {
            if sub_pools.with_era@.len() != 0 {
                Result::Err(Error::NotOnlyDelegator)
            } else if sub_pools.no_era.points != target_delegator.points {
                Result::Err(Error::NotOnlyDelegator)
            } else {
                Result::Ok(true)
            }
        } else {
            if sub_pools.with_era@.len() != 1 {
                Result::Err(Error::NotOnlyDelegator)
            } else if sub_pools.with_era@[0].1.points != target_delegator.points {
                Result::Err(Error::NotOnlyDelegator)
            } else {
                Result::Ok(true)
            }
        }
    } else {
        if caller == target_account || pool.spec_can_kick(caller) || pool.state
            == PoolState::Destroying {
            Result::Ok(false)
        } else {
            Result::Err(Error::NotKickerOrDestroying)
        }
    }
}

impl BondedPool {
    /// Points minted for `new_funds` at the pool's current bonded balance,
    /// as reported by the staking engine (absent means zero).
    pub fn points_to_issue(&self, bonded_balance: Option<u128>, new_funds: u128) -> (r: u128)
        ensures
            r == spec_points_to_issue(
                spec_balance_or_zero(bonded_balance),
                self.points as int,
                new_funds as int,
            ),
    {
        points_to_issue(balance_or_zero(bonded_balance), self.points, new_funds)
    }

    /// Balance redeemed for `delegator_points` at the pool's current bonded
    /// balance, as reported by the staking engine (absent means zero).
    pub fn balance_to_unbond(&self, bonded_balance: Option<u128>, delegator_points: u128) -> (r:
        u128)
        ensures
            r == spec_balance_to_unbond(
                spec_balance_or_zero(bonded_balance),
                self.points as int,
                delegator_points as int,
            ),
    {
        balance_to_unbond(balance_or_zero(bonded_balance), self.points, delegator_points)
    }

    /// Issue points for `new_funds`, growing the pool's share count.
    pub fn issue(&mut self, bonded_balance: Option<u128>, new_funds: u128) -> (r: u128)
        ensures
            r == spec_points_to_issue(
                spec_balance_or_zero(bonded_balance),
                old(self).points as int,
                new_funds as int,
            ),
            final(self).points == cap_u128(old(self).points + r),
            final(self).depositor == old(self).depositor,
            final(self).root == old(self).root,
            final(self).nominator == old(self).nominator,
            final(self).state_toggler == old(self).state_toggler,
            final(self).state == old(self).state,
            final(self).account == old(self).account,
    {
        let p = self.points_to_issue(bonded_balance, new_funds);
        self.points = sat_add_u128(self.points, p);
        p
    }

    /// Whether the pool can accept a member with `new_funds`.
    pub fn ok_to_join_with(
        &self,
        bonded_balance: Option<u128>,
        new_funds: u128,
        pool_size_max: u128,
    ) -> (r: Result<(), Error>)
        requires
            pool_size_max >= 1,
        ensures
            r == spec_ok_to_join_with(
                *self,
                spec_balance_or_zero(bonded_balance),
                new_funds as int,
                pool_size_max as int,
            ),
    {
        if !matches!(self.state, PoolState::Open) {
            return Result::Err(Error::NotOpen);
        }
        let bonded_balance = balance_or_zero(bonded_balance);
        if bonded_balance == 0 {
            return Result::Err(Error::OverflowRisk);
        }
        // Pool points can inflate relative to balance, but only by slashes:
        // cap the ratio so a heavily slashed pool cannot be joined, and keep
        // the joined balance a fraction of the balance type's range.
        let points_to_balance_ratio_floor = self.points / bonded_balance;
        if points_to_balance_ratio_floor >= pool_size_max {
            return Result::Err(Error::OverflowRisk);
        }
        if sat_add_u128(new_funds, bonded_balance) >= u128::MAX / pool_size_max {
            return Result::Err(Error::OverflowRisk);
        }
        proof {
            assert(new_funds + bonded_balance < u128::MAX as int / pool_size_max as int);
        }
        Result::Ok(())
    }

    /// Whether `who` may set the pool's nominations.
    pub open spec fn spec_can_nominate(self, who: u64) -> bool {
        who == self.root || who == self.nominator
    }

    pub fn can_nominate(&self, who: u64) -> (r: bool)
        ensures
            r == self.spec_can_nominate(who),
    {
        who == self.root || who == self.nominator
    }

    /// Whether `who` may kick members out of the pool.
    pub open spec fn spec_can_kick(self, who: u64) -> bool {
        (who == self.root || who == self.state_toggler) && self.state == PoolState::Blocked
    }

    pub fn can_kick(&self, who: u64) -> (r: bool)
        ensures
            r == self.spec_can_kick(who),
    {
        (who == self.root || who == self.state_toggler) && matches!(
            self.state,
            PoolState::Blocked,
        )
    }

    /// Whether the pool is being destroyed.
    pub fn is_destroying(&self) -> (r: bool)
        ensures
            r == (self.state == PoolState::Destroying),
    {
        matches!(self.state, PoolState::Destroying)
    }

    /// Whether `caller` may unbond `target_account`'s funds.
    pub fn ok_to_unbond_other_with(
        &self,
        caller: u64,
        target_account: u64,
        target_delegator: &Delegator,
    ) -> (r: Result<(), Error>)
        ensures
            r == spec_ok_to_unbond_other_with(*self, caller, target_account, *target_delegator),
    {
        let is_permissioned = caller == target_account;
        let is_depositor = target_account == self.depositor;
        if !is_permissioned && !is_depositor {
            // A kicker may remove a member of a blocked pool; anyone may
            // remove a member of a destroying pool.
            if self.can_kick(caller) || self.is_destroying() {
                Result::Ok(())
            } else {
                Result::Err(Error::NotKickerOrDestroying)
            }
        } else if is_permissioned && !is_depositor {
            // Any delegator who is not the depositor can unbond themselves.
            Result::Ok(())
        } else {
            // The depositor leaves last: only out of a destroying pool, and
            // only holding every outstanding share.
            if target_delegator.points != self.points {
                Result::Err(Error::NotOnlyDelegator)
            } else if !self.is_destroying() {
                Result::Err(Error::NotDestroying)
            } else {
                Result::Ok(())
            }
        }
    }

    /// Whether `caller` may withdraw `target_account`'s unbonded funds, and
    /// whether the pool is to be removed afterwards.
    pub fn ok_to_withdraw_unbonded_other_with(
        &self,
        caller: u64,
        target_account: u64,
        target_delegator: &Delegator,
        sub_pools: &SubPools,
    ) -> (r: Result<bool, Error>)
        ensures
            r == spec_ok_to_withdraw_unbonded_other_with(
                *self,
                caller,
                target_account,
                *target_delegator,
                *sub_pools,
            ),
    {
        if target_account == self.depositor {
            if sub_pools.no_era.points != 0 {
                // The era-less pool has shares: a sole remaining delegator
                // must hold exactly those, with no per-era pool left.
                if sub_pools.with_era.len() != 0 {
                    Result::Err(Error::NotOnlyDelegator)
                } else if sub_pools.no_era.points != target_delegator.points {
                    Result::Err(Error::NotOnlyDelegator)
                } else {
                    Result::Ok(true)
                }
            } else {
                // Otherwise the depositor's shares sit in what must be the
                // only per-era pool.
                if sub_pools.with_era.len() != 1 {
                    Result::Err(Error::NotOnlyDelegator)
                } else if sub_pools.with_era[0].1.points != target_delegator.points {
                    Result::Err(Error::NotOnlyDelegator)
                } else {
                    Result::Ok(true)
                }
            }
        } else {
            if caller == target_account || self.can_kick(caller) || self.is_destroying() {
                Result::Ok(false)
            } else {
                Result::Err(Error::NotKickerOrDestroying)
            }
        }
    }
}

} // verus!
