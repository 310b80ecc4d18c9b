//! Exact values for the share arithmetic, the saturating helpers and the
//! wide reward-points counter.

use nomination_pools::points::{balance_to_unbond, points_to_issue};
use nomination_pools::sat::{sat_add_u128, sat_mul_u128, sat_sub_u128};
use nomination_pools::wide::RewardPoints;

#[test]
fn points_issue_on_the_zero_edges() {
    // An empty ledger mints at the initial one-to-one ratio.
    assert_eq!(points_to_issue(0, 0, 10), 10);
    assert_eq!(points_to_issue(5, 0, 10), 10);
    // A fully slashed ledger treats its balance as one.
    assert_eq!(points_to_issue(0, 7, 10), 70);
}

#[test]
fn points_issue_keeps_the_ratio() {
    assert_eq!(points_to_issue(100, 100, 30), 30);
    assert_eq!(points_to_issue(100, 200, 30), 60);
    assert_eq!(points_to_issue(200, 100, 30), 15);
    // Truncation rounds down.
    assert_eq!(points_to_issue(3, 1, 1), 0);
}

#[test]
fn unbond_redeems_by_the_ratio() {
    assert_eq!(balance_to_unbond(130, 130, 30), 30);
    assert_eq!(balance_to_unbond(100, 200, 30), 15);
    assert_eq!(balance_to_unbond(0, 200, 30), 0);
    assert_eq!(balance_to_unbond(100, 0, 30), 0);
    assert_eq!(balance_to_unbond(100, 200, 0), 0);
}

#[test]
fn saturating_helpers_saturate() {
    assert_eq!(sat_add_u128(u128::MAX, 1), u128::MAX);
    assert_eq!(sat_add_u128(2, 3), 5);
    assert_eq!(sat_sub_u128(2, 3), 0);
    assert_eq!(sat_sub_u128(3, 2), 1);
    assert_eq!(sat_mul_u128(u128::MAX, 2), u128::MAX);
    assert_eq!(sat_mul_u128(1 << 64, 1 << 64), u128::MAX);
    assert_eq!(sat_mul_u128(7, 6), 42);
    assert_eq!(sat_mul_u128(7, 0), 0);
}

#[test]
fn reward_points_carry_across_halves() {
    let a = RewardPoints { lo: u128::MAX, hi: 0 };
    let b = RewardPoints { lo: 1, hi: 0 };
    let s = a.saturating_add(b);
    assert_eq!(s, RewardPoints { lo: 0, hi: 1 });
    let d = s.saturating_sub(b);
    assert_eq!(d, RewardPoints { lo: u128::MAX, hi: 0 });
    // Subtraction saturates at zero.
    let z = b.saturating_sub(s);
    assert_eq!(z, RewardPoints { lo: 0, hi: 0 });
    assert!(z.is_zero());
    assert!(!s.is_zero());
    // Addition saturates at the 256-bit maximum.
    let m = RewardPoints { lo: u128::MAX, hi: u128::MAX };
    assert_eq!(m.saturating_add(b), m);
    // Conversion to a balance saturates at the 128-bit maximum.
    assert_eq!(s.to_u128_saturating(), u128::MAX);
    assert_eq!(b.to_u128_saturating(), 1);
    assert_eq!(RewardPoints::zero().to_u128_saturating(), 0);
}

#[test]
fn wide_multiplication_feeds_the_payout() {
    // A pool with more points than u128 can hold in a product: the claim
    // still pays the whole reward to the sole delegator, which exercises
    // the 256-bit multiply and divide behind the reward pool.
    let mut p = nomination_pools::engine::Pallet::new(0, 0, None, 1000, 3, 2);
    p.create(1, 1 << 90, 100, 101, 2, 3, 4, 0).expect("create");
    let ev = p.claim_payout(1, 1 << 70).expect("claim");
    assert_eq!(
        ev,
        nomination_pools::pool::Event::PaidOut {
            delegator: 1,
            pool: 100,
            payout: 1 << 70
        }
    );
}
