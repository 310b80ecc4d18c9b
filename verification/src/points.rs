//! Share arithmetic: the two pure functions that map a pool's
//! (balance, points) ledger and a delta to issued points or redeemed balance.

use vstd::prelude::*;
use crate::sat::{cap_u128, sat_mul_u128};

verus! {

/// Points issued per unit of balance when a pool's ledger is empty.
pub const POINTS_TO_BALANCE_INIT_RATIO: u32 = 1;

/// Number of points minted for `new_funds` entering a pool whose ledger holds
/// `current_balance` backing `current_points`:
/// `(current_points / current_balance) * new_funds`, with these zero edges:
/// an empty ledger mints at the initial one-to-one ratio, and a fully slashed
/// ledger (zero balance, live points) treats the balance as one.
pub open spec fn spec_points_to_issue(
    current_balance: int,
    current_points: int,
    new_funds: int,
) -> int {
    if current_points == 0 {
        new_funds * (POINTS_TO_BALANCE_INIT_RATIO as int)
    } else if current_balance == 0 {
        cap_u128(new_funds * current_points)
    } else {
        cap_u128(current_points * new_funds) / current_balance
    }
}

/// Balance redeemed for `delegator_points` out of a pool holding
/// `current_balance` backing `current_points`:
/// `(current_balance / current_points) * delegator_points`, zero if any
/// input is zero.
pub open spec fn spec_balance_to_unbond(
    current_balance: int,
    current_points: int,
    delegator_points: int,
) -> int {
    if current_balance == 0 || current_points == 0 || delegator_points == 0 {
        0
    } else {
        cap_u128(current_balance * delegator_points) / current_points
    }
}

/// Calculate the number of points to issue from a pool for new funds.
pub fn points_to_issue(current_balance: u128, current_points: u128, new_funds: u128) -> (r: u128)
    ensures
        r == spec_points_to_issue(current_balance as int, current_points as int, new_funds as int),
{
    if current_points == 0 {
        sat_mul_u128(new_funds, POINTS_TO_BALANCE_INIT_RATIO as u128)
    } else if current_balance == 0 {
        // The pool was totally slashed: treat the balance as one.
        sat_mul_u128(new_funds, current_points)
    } else {
        sat_mul_u128(current_points, new_funds) / current_balance
    }
}

/// Calculate the balance of a pool to unbond for a delegator's points.
pub fn balance_to_unbond(
    current_balance: u128,
    current_points: u128,
    delegator_points: u128,
) -> (r: u128)
    ensures
        r == spec_balance_to_unbond(
            current_balance as int,
            current_points as int,
            delegator_points as int,
        ),
{
    if current_balance == 0 || current_points == 0 || delegator_points == 0 {
        // There is nothing to unbond.
        0
    } else {
        sat_mul_u128(current_balance, delegator_points) / current_points
    }
}

/// Issuance never mints points below the pool's running ratio: what is minted
/// for `f` new units redeems to at most `f` units, so a joiner cannot leave
/// with more than they brought (absent rewards and slashes in between).
pub proof fn lemma_issue_then_unbond_never_gains(b: int, p: int, f: int)
    requires
        0 < b <= u128::MAX,
        0 < p <= u128::MAX,
        0 < f,
        f + b <= u128::MAX,
        p + spec_points_to_issue(b, p, f) <= u128::MAX,
    ensures
        spec_balance_to_unbond(b + f, p + spec_points_to_issue(b, p, f), spec_points_to_issue(b, p, f)) <= f,
{
    let i = spec_points_to_issue(b, p, f);
    assert(i == cap_u128(p * f) / b);
    vstd::arithmetic::div_mod::lemma_div_pos_is_pos(cap_u128(p * f), b);
    vstd::arithmetic::mul::lemma_mul_strictly_positive(p, f);
    if i == 0 {
        assert(spec_balance_to_unbond(b + f, p + i, i) == 0);
    } else {
        // i <= p*f/b, hence (b+f)*i <= (b+f)*p*f/b ... bounded by f*(p+i).
        lemma_div_mul_le(cap_u128(p * f), b);
        assert((b + f) * i <= f * (p + i)) by (nonlinear_arith)
            requires
                b > 0,
                f > 0,
                p > 0,
                i > 0,
                i * b <= p * f,
        ;
        let n = cap_u128((b + f) * i);
        assert(n <= (b + f) * i);
        vstd::arithmetic::div_mod::lemma_div_is_ordered(n, f * (p + i), p + i);
        vstd::arithmetic::div_mod::lemma_div_multiples_vanish(f, p + i);
        assert(spec_balance_to_unbond(b + f, p + i, i) <= f);
    }
}

/// From a ledger whose points equal its balance (the state every pool starts
/// in, and keeps while no reward is bonded and no slash lands), a join of `f`
/// units followed by unbonding the issued points returns exactly `f`. The
/// bound on `(b + f) * f` keeps both saturating multiplications exact; above
/// it the truncation can cost more than one unit.
pub proof fn lemma_join_unbond_round_trip(b: int, f: int)
    requires
        0 < b,
        0 < f,
        f + b <= u128::MAX,
        (b + f) * f <= u128::MAX,
    ensures
        spec_points_to_issue(b, b, f) == f,
        spec_balance_to_unbond(b + f, b + f, f) == f,
{
    assert(b * f <= (b + f) * f && 0 <= b * f) by (nonlinear_arith)
        requires
            b > 0,
            f > 0,
    ;
    assert(cap_u128(b * f) == b * f);
    assert(b * f == f * b) by (nonlinear_arith);
    vstd::arithmetic::div_mod::lemma_div_multiples_vanish(f, b);
    assert(spec_points_to_issue(b, b, f) == f);
    assert(cap_u128((b + f) * f) == (b + f) * f) by {
        assert(0 <= (b + f) * f) by (nonlinear_arith)
            requires
                b > 0,
                f > 0,
        ;
    }
    assert((b + f) * f == f * (b + f)) by (nonlinear_arith);
    vstd::arithmetic::div_mod::lemma_div_multiples_vanish(f, b + f);
    assert(spec_balance_to_unbond(b + f, b + f, f) == f);
}

/// `(n / d) * d <= n` for positive `d`.
proof fn lemma_div_mul_le(n: int, d: int)
    requires
        0 <= n,
        0 < d,
    ensures
        (n / d) * d <= n,
{
    vstd::arithmetic::div_mod::lemma_fundamental_div_mod(n, d);
    vstd::arithmetic::div_mod::lemma_mod_bound(n, d);
    assert((n / d) * d == d * (n / d)) by (nonlinear_arith);
}

} // verus!
