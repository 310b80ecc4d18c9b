//! Scenario tests for the pool engine: creation, joining, rewards,
//! unbonding, withdrawal, slashing and teardown.

use nomination_pools::engine::{GenesisConfig, Pallet, SlashPoolArgs};
use nomination_pools::pool::{Delegator, Error, Event, PoolState};

const POOL: u64 = 100;
const REWARD: u64 = 101;
const DEPOSITOR: u64 = 1;
const ROOT: u64 = 2;
const NOMINATOR: u64 = 3;
const TOGGLER: u64 = 4;

fn fresh_pallet() -> Pallet {
    // pool_size_max 10, bonding duration 3, post-unbonding window 2.
    Pallet::new(0, 0, None, 10, 3, 2)
}

fn get_delegator(p: &Pallet, who: u64) -> Delegator {
    for e in p.delegators.iter() {
        if e.0 == who {
            return e.1;
        }
    }
    panic!("no such delegator");
}

fn bonded_points(p: &Pallet, pool: u64) -> u128 {
    for e in p.bonded_pools.iter() {
        if e.0 == pool {
            return e.1.points;
        }
    }
    panic!("no such pool");
}

fn sub_pools<'a>(
    p: &'a Pallet,
    pool: u64,
) -> &'a nomination_pools::pool::SubPools {
    for e in p.sub_pools_storage.iter() {
        if e.0 == pool {
            return &e.1;
        }
    }
    panic!("no such sub pools");
}

fn create_default(p: &mut Pallet, amount: u128) {
    p.create(DEPOSITOR, amount, POOL, REWARD, ROOT, NOMINATOR, TOGGLER, 0)
        .expect("create");
}

#[test]
fn fresh_pool_single_joiner() {
    let mut p = fresh_pallet();
    create_default(&mut p, 10);
    assert_eq!(bonded_points(&p, POOL), 10);
    assert_eq!(get_delegator(&p, DEPOSITOR).points, 10);

    let ev = p.join(5, 5, POOL, Some(10), 0).expect("join");
    assert_eq!(
        ev,
        Event::Joined {
            delegator: 5,
            pool: POOL,
            bonded: 5
        }
    );
    assert_eq!(bonded_points(&p, POOL), 15);
    assert_eq!(get_delegator(&p, 5).points, 5);
}

#[test]
fn reward_split_is_proportional() {
    let mut p = fresh_pallet();
    create_default(&mut p, 10);
    let b = 6;
    p.join(b, 30, POOL, Some(10), 0).expect("join");
    assert_eq!(bonded_points(&p, POOL), 40);

    // The reward account has received 20 units since the last poll.
    let ev = p.claim_payout(DEPOSITOR, 20).expect("first claim");
    assert_eq!(
        ev,
        Event::PaidOut {
            delegator: DEPOSITOR,
            pool: POOL,
            payout: 5
        }
    );
    // The host transferred 5 out of the reward account, leaving 15.
    let ev = p.claim_payout(b, 15).expect("second claim");
    assert_eq!(
        ev,
        Event::PaidOut {
            delegator: b,
            pool: POOL,
            payout: 15
        }
    );
}

#[test]
fn claim_twice_pays_zero_the_second_time() {
    let mut p = fresh_pallet();
    create_default(&mut p, 10);
    let ev = p.claim_payout(DEPOSITOR, 20).expect("claim");
    assert_eq!(
        ev,
        Event::PaidOut {
            delegator: DEPOSITOR,
            pool: POOL,
            payout: 20
        }
    );
    // Nothing new arrived: the account holds 0 after the payout left.
    let ev = p.claim_payout(DEPOSITOR, 0).expect("claim again");
    assert_eq!(
        ev,
        Event::PaidOut {
            delegator: DEPOSITOR,
            pool: POOL,
            payout: 0
        }
    );
}

#[test]
fn unbond_then_withdraw_returns_the_stake() {
    let mut p = fresh_pallet();
    create_default(&mut p, 75);
    let b = 7;
    p.join(b, 25, POOL, Some(75), 0).expect("join");
    assert_eq!(bonded_points(&p, POOL), 100);

    // Unbond at era 7 with 100 bonded at 100 points.
    let (paid, unbonded) = p
        .unbond_other(b, b, Some(7), Some(100), 0)
        .expect("unbond");
    assert_eq!(
        paid,
        Event::PaidOut {
            delegator: b,
            pool: POOL,
            payout: 0
        }
    );
    assert_eq!(
        unbonded,
        Event::Unbonded {
            delegator: b,
            pool: POOL,
            amount: 25
        }
    );
    assert_eq!(bonded_points(&p, POOL), 75);
    let sp = sub_pools(&p, POOL);
    assert_eq!(sp.with_era.len(), 1);
    assert_eq!(sp.with_era[0], (7, nomination_pools::pool::UnbondPool { points: 25, balance: 25 }));

    // Too early at era 9: the bonding duration is 3.
    assert_eq!(
        p.withdraw_unbonded_other(b, b, 0, Some(9), 100),
        Err(Error::NotUnbondedYet)
    );
    // At era 10 the funds are free.
    let (ev, removed) = p
        .withdraw_unbonded_other(b, b, 0, Some(10), 100)
        .expect("withdraw");
    assert_eq!(
        ev,
        Event::Withdrawn {
            delegator: b,
            pool: POOL,
            amount: 25
        }
    );
    assert!(!removed);
    assert!(sub_pools(&p, POOL).with_era.is_empty());
}

#[test]
fn slash_during_unbonding() {
    let mut p = fresh_pallet();
    create_default(&mut p, 50);
    let b = 8;
    p.join(b, 50, POOL, Some(50), 0).expect("join");
    // Unbond at era 5: the sub pool receives 50 of the 100 bonded.
    p.unbond_other(b, b, Some(5), Some(100), 0).expect("unbond");

    // A slash of 30 lands at era 7 for an offence at era 4: eras 5..=7 and
    // the bonded balance absorb it pro rata.
    let out = p
        .slash_pool(SlashPoolArgs {
            pool_stash: POOL,
            slash_amount: 30,
            slash_era: 4,
            apply_era: 7,
            active_bonded: 100,
        })
        .expect("slash");
    assert_eq!(out.slashed_bonded, 80);
    assert_eq!(out.slashed_unlocking, vec![(5, 40)]);
    let sp = sub_pools(&p, POOL);
    assert_eq!(sp.with_era[0].1.points, 50);
    assert_eq!(sp.with_era[0].1.balance, 40);
    assert_eq!(sp.no_era.points, 0);
    assert_eq!(sp.no_era.balance, 0);
}

#[test]
fn slash_of_everything_drives_balances_to_zero() {
    let mut p = fresh_pallet();
    create_default(&mut p, 50);
    let b = 8;
    p.join(b, 50, POOL, Some(50), 0).expect("join");
    p.unbond_other(b, b, Some(5), Some(100), 0).expect("unbond");

    let out = p
        .slash_pool(SlashPoolArgs {
            pool_stash: POOL,
            slash_amount: 200,
            slash_era: 4,
            apply_era: 7,
            active_bonded: 100,
        })
        .expect("slash");
    assert_eq!(out.slashed_bonded, 0);
    assert_eq!(out.slashed_unlocking, vec![(5, 0)]);
    assert_eq!(sub_pools(&p, POOL).with_era[0].1.balance, 0);
}

#[test]
fn slash_of_unknown_stash_is_refused() {
    let mut p = fresh_pallet();
    create_default(&mut p, 50);
    assert!(p
        .slash_pool(SlashPoolArgs {
            pool_stash: 999,
            slash_amount: 30,
            slash_era: 4,
            apply_era: 7,
            active_bonded: 100,
        })
        .is_none());
}

#[test]
fn depositor_leaves_last_and_pool_is_removed() {
    let mut p = fresh_pallet();
    create_default(&mut p, 10);
    let b = 9;
    p.join(b, 10, POOL, Some(10), 0).expect("join");

    // The depositor cannot leave while the pool is open or peopled.
    assert_eq!(
        p.unbond_other(DEPOSITOR, DEPOSITOR, Some(1), Some(20), 0),
        Err(Error::NotOnlyDelegator)
    );
    p.set_state(ROOT, POOL, PoolState::Destroying).expect("set state");
    // Now anyone can remove the other member; it removes itself here.
    p.unbond_other(b, b, Some(1), Some(20), 0).expect("unbond other");
    let (ev, removed) = p
        .withdraw_unbonded_other(b, b, 0, Some(4), 20)
        .expect("withdraw other");
    assert_eq!(
        ev,
        Event::Withdrawn {
            delegator: b,
            pool: POOL,
            amount: 10
        }
    );
    assert!(!removed);

    // The depositor is the sole member left and the pool is destroying.
    p.unbond_other(DEPOSITOR, DEPOSITOR, Some(4), Some(10), 0)
        .expect("depositor unbond");
    let (ev, removed) = p
        .withdraw_unbonded_other(DEPOSITOR, DEPOSITOR, 0, Some(7), 10)
        .expect("depositor withdraw");
    assert_eq!(
        ev,
        Event::Withdrawn {
            delegator: DEPOSITOR,
            pool: POOL,
            amount: 10
        }
    );
    assert!(removed);
    assert!(p.delegators.is_empty());
    assert!(p.bonded_pools.is_empty());
    assert!(p.reward_pools.is_empty());
    assert!(p.sub_pools_storage.is_empty());
}

#[test]
fn sub_pool_merge_folds_aged_out_eras() {
    let mut p = fresh_pallet();
    create_default(&mut p, 100);
    // Members join while the pool is at a one-to-one ratio.
    p.join(11, 10, POOL, Some(100), 0).expect("join");
    p.join(12, 10, POOL, Some(110), 0).expect("join");
    p.join(13, 10, POOL, Some(120), 0).expect("join");
    p.unbond_other(11, 11, Some(6), Some(130), 0).expect("unbond");
    p.unbond_other(12, 12, Some(8), Some(120), 0).expect("unbond");
    p.unbond_other(13, 13, Some(10), Some(110), 0).expect("unbond");
    {
        let sp = sub_pools(&p, POOL);
        assert_eq!(sp.with_era.len(), 3);
    }

    // A new unbond at era 12 with window 5 merges eras at or below 7.
    p.join(14, 10, POOL, Some(100), 0).expect("join");
    p.unbond_other(14, 14, Some(12), Some(110), 0).expect("unbond");
    let sp = sub_pools(&p, POOL);
    assert_eq!(sp.no_era.points, 10);
    assert_eq!(sp.no_era.balance, 10);
    let eras: Vec<u32> = sp.with_era.iter().map(|e| e.0).collect();
    assert_eq!(eras, vec![8, 10, 12]);
}

#[test]
fn merged_member_withdraws_from_the_eraless_pool() {
    let mut p = fresh_pallet();
    create_default(&mut p, 100);
    p.join(11, 10, POOL, Some(100), 0).expect("join");
    p.unbond_other(11, 11, Some(6), Some(110), 0).expect("unbond");
    p.join(12, 10, POOL, Some(100), 0).expect("join");
    p.unbond_other(12, 12, Some(12), Some(110), 0).expect("unbond");
    // Era 6 was merged away; member 11 cashes out of the era-less pool.
    let (ev, _) = p
        .withdraw_unbonded_other(11, 11, 0, Some(12), 100)
        .expect("withdraw");
    assert_eq!(
        ev,
        Event::Withdrawn {
            delegator: 11,
            pool: POOL,
            amount: 10
        }
    );
    let sp = sub_pools(&p, POOL);
    assert_eq!(sp.no_era.points, 0);
    assert_eq!(sp.no_era.balance, 0);
}

#[test]
fn dusted_pool_still_sheds_the_record() {
    let mut p = fresh_pallet();
    create_default(&mut p, 75);
    let b = 7;
    p.join(b, 25, POOL, Some(75), 0).expect("join");
    p.unbond_other(b, b, Some(7), Some(100), 0).expect("unbond");
    // The pool account cannot cover the claim: the record goes anyway.
    let (ev, removed) = p
        .withdraw_unbonded_other(b, b, 0, Some(10), 3)
        .expect("withdraw");
    assert_eq!(
        ev,
        Event::DustWithdrawn {
            delegator: b,
            pool: POOL
        }
    );
    assert!(!removed);
    assert!(p.delegators.iter().all(|e| e.0 != b));
}

#[test]
fn join_prechecks_refuse_bad_joins() {
    let mut p = Pallet::new(5, 0, None, 10, 3, 2);
    p.create(DEPOSITOR, 10, POOL, REWARD, ROOT, NOMINATOR, TOGGLER, 0)
        .expect("create");
    assert_eq!(p.join(5, 3, POOL, Some(10), 0), Err(Error::MinimumBondNotMet));
    assert_eq!(p.join(5, 5, 999, Some(10), 0), Err(Error::PoolNotFound));
    assert_eq!(p.join(DEPOSITOR, 5, POOL, Some(10), 0), Err(Error::AccountBelongsToOtherPool));
    // A dead bonded balance reads as an overflow risk.
    assert_eq!(p.join(5, 5, POOL, Some(0), 0), Err(Error::OverflowRisk));
    assert_eq!(p.join(5, 5, POOL, None, 0), Err(Error::OverflowRisk));
    // A pool slashed to a tenth of its points is refused.
    assert_eq!(p.join(5, 5, POOL, Some(1), 0), Err(Error::OverflowRisk));
    // A joined balance out of the safe range is refused.
    assert_eq!(
        p.join(5, u128::MAX / 10, POOL, Some(10), 0),
        Err(Error::OverflowRisk)
    );
    p.set_state(TOGGLER, POOL, PoolState::Blocked).expect("block");
    assert_eq!(p.join(5, 5, POOL, Some(10), 0), Err(Error::NotOpen));
}

#[test]
fn create_prechecks_refuse_bad_creations() {
    let mut p = Pallet::new(0, 20, Some(1), 10, 3, 2);
    assert_eq!(
        p.create(DEPOSITOR, 10, POOL, REWARD, ROOT, NOMINATOR, TOGGLER, 0),
        Err(Error::MinimumBondNotMet)
    );
    assert_eq!(
        p.create(DEPOSITOR, 25, POOL, REWARD, ROOT, NOMINATOR, TOGGLER, 30),
        Err(Error::MinimumBondNotMet)
    );
    p.create(DEPOSITOR, 25, POOL, REWARD, ROOT, NOMINATOR, TOGGLER, 0)
        .expect("create");
    assert_eq!(
        p.create(50, 25, 200, 201, ROOT, NOMINATOR, TOGGLER, 0),
        Err(Error::MaxPools)
    );
    let mut p2 = Pallet::new(0, 0, None, 10, 3, 2);
    p2.create(DEPOSITOR, 25, POOL, REWARD, ROOT, NOMINATOR, TOGGLER, 0)
        .expect("create");
    assert_eq!(
        p2.create(DEPOSITOR, 25, 200, 201, ROOT, NOMINATOR, TOGGLER, 0),
        Err(Error::AccountBelongsToOtherPool)
    );
    assert_eq!(
        p2.create(50, 25, POOL, 201, ROOT, NOMINATOR, TOGGLER, 0),
        Err(Error::IdInUse)
    );
}

#[test]
fn unbond_permissions_follow_the_matrix() {
    let mut p = fresh_pallet();
    create_default(&mut p, 10);
    let b = 9;
    p.join(b, 10, POOL, Some(10), 0).expect("join");
    // A stranger cannot kick a member of an open pool.
    assert_eq!(
        p.unbond_other(42, b, Some(1), Some(20), 0),
        Err(Error::NotKickerOrDestroying)
    );
    // The state toggler can kick once the pool is blocked.
    p.set_state(TOGGLER, POOL, PoolState::Blocked).expect("block");
    p.unbond_other(TOGGLER, b, Some(1), Some(20), 0).expect("kick");
    // A member already unbonding cannot claim.
    assert_eq!(p.claim_payout(b, 0), Err(Error::AlreadyUnbonding));
    // The depositor needs a destroying pool even when alone.
    assert_eq!(
        p.unbond_other(DEPOSITOR, DEPOSITOR, Some(1), Some(10), 0),
        Err(Error::NotDestroying)
    );
}

#[test]
fn withdraw_prechecks_refuse_bad_withdrawals() {
    let mut p = fresh_pallet();
    create_default(&mut p, 10);
    let b = 9;
    p.join(b, 10, POOL, Some(10), 0).expect("join");
    assert_eq!(
        p.withdraw_unbonded_other(b, 99, 0, Some(9), 20),
        Err(Error::DelegatorNotFound)
    );
    assert_eq!(
        p.withdraw_unbonded_other(b, b, 0, Some(9), 20),
        Err(Error::NotUnbonding)
    );
    p.unbond_other(b, b, Some(1), Some(20), 0).expect("unbond");
    // A stranger cannot withdraw for a member of an open pool.
    assert_eq!(
        p.withdraw_unbonded_other(42, b, 0, Some(9), 20),
        Err(Error::NotKickerOrDestroying)
    );
}

#[test]
fn claim_needs_a_record() {
    let mut p = fresh_pallet();
    assert_eq!(p.claim_payout(DEPOSITOR, 0), Err(Error::DelegatorNotFound));
}

#[test]
fn nominate_needs_the_role() {
    let mut p = fresh_pallet();
    create_default(&mut p, 10);
    assert!(p.nominate(ROOT, POOL).is_ok());
    assert!(p.nominate(NOMINATOR, POOL).is_ok());
    assert_eq!(p.nominate(TOGGLER, POOL), Err(Error::NotNominator));
    assert_eq!(p.nominate(ROOT, 999), Err(Error::PoolNotFound));
}

#[test]
fn destroying_is_absorbing() {
    let mut p = fresh_pallet();
    create_default(&mut p, 10);
    assert_eq!(
        p.set_state(42, POOL, PoolState::Blocked),
        Err(Error::NotKickerOrDestroying)
    );
    p.set_state(ROOT, POOL, PoolState::Destroying).expect("destroy");
    assert_eq!(
        p.set_state(ROOT, POOL, PoolState::Open),
        Err(Error::NotDestroying)
    );
    assert_eq!(
        p.set_state(TOGGLER, POOL, PoolState::Blocked),
        Err(Error::NotDestroying)
    );
}

#[test]
fn genesis_settings_apply() {
    let mut p = fresh_pallet();
    let g = GenesisConfig {
        min_join_bond: 7,
        min_create_bond: 11,
        max_pools: Some(3),
    };
    g.build(&mut p);
    assert_eq!(p.min_join_bond, 7);
    assert_eq!(p.min_create_bond, 11);
    assert_eq!(p.max_pools, Some(3));
    let d: GenesisConfig = Default::default();
    assert_eq!(d.min_join_bond, 0);
    assert_eq!(d.min_create_bond, 0);
    assert_eq!(d.max_pools, None);
}

#[test]
fn pool_withdraw_unbonded_forwards_the_call() {
    let p = fresh_pallet();
    assert_eq!(p.pool_withdraw_unbonded(POOL, 4), (POOL, 4));
}

#[test]
fn equal_members_claim_equal_payouts() {
    let mut p = fresh_pallet();
    create_default(&mut p, 10);
    p.join(6, 10, POOL, Some(10), 0).expect("join");
    p.join(7, 10, POOL, Some(20), 0).expect("join");

    // 30 units arrive; each of the three equal members collects 10.
    let ev = p.claim_payout(DEPOSITOR, 30).expect("claim");
    assert_eq!(
        ev,
        Event::PaidOut {
            delegator: DEPOSITOR,
            pool: POOL,
            payout: 10
        }
    );
    let ev = p.claim_payout(6, 20).expect("claim");
    assert_eq!(
        ev,
        Event::PaidOut {
            delegator: 6,
            pool: POOL,
            payout: 10
        }
    );
    let ev = p.claim_payout(7, 10).expect("claim");
    assert_eq!(
        ev,
        Event::PaidOut {
            delegator: 7,
            pool: POOL,
            payout: 10
        }
    );
}

#[test]
fn joining_a_slashed_pool_buys_cheap_points() {
    let mut p = fresh_pallet();
    create_default(&mut p, 10);
    // The pool was slashed to half its stake: points now outnumber the
    // bonded balance two to one, so new funds mint twice the points.
    let ev = p.join(6, 5, POOL, Some(5), 0).expect("join");
    assert_eq!(
        ev,
        Event::Joined {
            delegator: 6,
            pool: POOL,
            bonded: 5
        }
    );
    assert_eq!(get_delegator(&p, 6).points, 10);
    assert_eq!(bonded_points(&p, POOL), 20);
}

#[test]
fn stale_era_readings_are_detected() {
    let mut p = fresh_pallet();
    create_default(&mut p, 10);
    p.join(6, 10, POOL, Some(10), 0).expect("join");
    p.join(7, 10, POOL, Some(20), 0).expect("join");
    p.unbond_other(6, 6, Some(5), Some(30), 0).expect("unbond");
    // An era reading older than a recorded unbonding era must be refused
    // by the host before it calls in.
    assert!(!p.check_unbond_era(7, Some(3)));
    assert!(p.check_unbond_era(7, Some(5)));
    assert!(p.check_unbond_era(7, Some(9)));
}
