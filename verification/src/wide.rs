//! The reward pool's virtual-points counter. It is a 256-bit saturating
//! integer: points inflate by the bonded pool's point count for every unit of
//! balance the reward account earns, so products of two balance-wide numbers
//! must be held exactly. The value is kept as two `u128` halves so contracts
//! can speak of it directly; multiplication and division are delegated to
//! `primitive_types::U256`.

use vstd::prelude::*;

verus! {

/// A 256-bit unsigned integer split into 128-bit halves, `lo` least
/// significant.
#[derive(Clone, Copy, PartialEq, Eq, Structural, Debug)]
pub struct RewardPoints {
    pub lo: u128,
    pub hi: u128,
}

/// 2^128, the weight of the high half.
pub open spec fn half_weight() -> int {
    0x100000000000000000000000000000000int
}

/// The largest value a `RewardPoints` can hold, 2^256 - 1.
pub open spec fn u256_max() -> int {
    0xffffffffffffffffffffffffffffffffffffffffffffffffffffffffffffffffint
}

/// Clamp a mathematical integer into the 256-bit range from above.
pub open spec fn cap_u256(x: int) -> int {
    if x > u256_max() {
        u256_max()
    } else {
        x
    }
}

impl RewardPoints {
    /// The mathematical value held.
    pub open spec fn val(self) -> int {
        self.hi * half_weight() + self.lo
    }

    /// The zero counter.
    pub fn zero() -> (r: Self)
        ensures
            r.val() == 0,
    {
        RewardPoints { lo: 0, hi: 0 }
    }

    /// Whether the counter is zero.
    pub fn is_zero(&self) -> (r: bool)
        ensures
            r == (self.val() == 0),
    {
        proof {
            if self.hi > 0 {
                assert(self.hi * half_weight() >= half_weight()) by (nonlinear_arith)
                    requires
                        self.hi >= 1,
                ;
            }
            assert(self.hi == 0 ==> self.hi * half_weight() == 0) by (nonlinear_arith);
        }
        self.lo == 0 && self.hi == 0
    }

    /// Addition saturating at 2^256 - 1.
    pub fn saturating_add(self, other: Self) -> (r: Self)
        ensures
            r.val() == cap_u256(self.val() + other.val()),
    {
        let (lo, carry): (u128, u128) = if self.lo <= u128::MAX - other.lo {
            (self.lo + other.lo, 0)
        } else {
            ((self.lo - (u128::MAX - other.lo)) - 1, 1)
        };
        if other.hi <= u128::MAX - self.hi && self.hi + other.hi <= u128::MAX - carry {
            let r = RewardPoints { lo, hi: (self.hi + other.hi) + carry };
            proof {
                lemma_halves_linear(self.hi as int, other.hi as int, carry as int);
            }
            r
        } else {
            proof {
                lemma_halves_linear(self.hi as int, other.hi as int, carry as int);
            }
            RewardPoints { lo: u128::MAX, hi: u128::MAX }
        }
    }

    /// Subtraction saturating at zero.
    pub fn saturating_sub(self, other: Self) -> (r: Self)
        ensures
            r.val() == if self.val() >= other.val() {
                self.val() - other.val()
            } else {
                0
            },
    {
        proof {
            lemma_halves_order(self, other);
        }
        if self.hi < other.hi || (self.hi == other.hi && self.lo < other.lo) {
            RewardPoints { lo: 0, hi: 0 }
        } else {
            let (lo, borrow): (u128, u128) = if self.lo >= other.lo {
                (self.lo - other.lo, 0)
            } else {
                ((self.lo + (u128::MAX - other.lo)) + 1, 1)
            };
            let r = RewardPoints { lo, hi: (self.hi - other.hi) - borrow };
            proof {
                lemma_halves_linear(self.hi as int, other.hi as int, borrow as int);
            }
            r
        }
    }

    /// The value as a balance, saturating at `u128::MAX`.
    pub fn to_u128_saturating(self) -> (r: u128)
        ensures
            r == if self.val() > u128::MAX {
                u128::MAX as int
            } else {
                self.val()
            },
    {
        proof {
            if self.hi > 0 {
                assert(self.hi * half_weight() >= half_weight()) by (nonlinear_arith)
                    requires
                        self.hi >= 1,
                ;
            }
            assert(self.hi == 0 ==> self.hi * half_weight() == 0) by (nonlinear_arith);
        }
        if self.hi != 0 {
            u128::MAX
        } else {
            self.lo
        }
    }
}

/// Comparing half pairs lexicographically compares the values.
proof fn lemma_halves_order(a: RewardPoints, b: RewardPoints)
    ensures
        (a.val() < b.val()) == (a.hi < b.hi || (a.hi == b.hi && a.lo < b.lo)),
{
    if a.hi < b.hi {
        assert(a.hi * half_weight() + half_weight() <= b.hi * half_weight()) by (nonlinear_arith)
            requires
                a.hi + 1 <= b.hi,
        ;
    } else if a.hi > b.hi {
        assert(b.hi * half_weight() + half_weight() <= a.hi * half_weight()) by (nonlinear_arith)
            requires
                b.hi + 1 <= a.hi,
        ;
    }
}

/// Multiplying out the high halves is linear, so the solver can treat carry
/// arithmetic over `val` linearly.
proof fn lemma_halves_linear(x: int, y: int, c: int)
    ensures
        (x + y + c) * half_weight() == x * half_weight() + y * half_weight() + c * half_weight(),
        (x - y - c) * half_weight() == x * half_weight() - y * half_weight() - c * half_weight(),
{
    assert((x + y + c) * half_weight() == x * half_weight() + y * half_weight() + c
        * half_weight()) by (nonlinear_arith);
    assert((x - y - c) * half_weight() == x * half_weight() - y * half_weight() - c
        * half_weight()) by (nonlinear_arith);
}

/// Relies on `primitive_types::U256::saturating_mul`: the full product of two
/// 128-bit values, which can never reach the 256-bit saturation bound.
#[verifier::external_body]
pub(crate) fn widening_mul(a: u128, b: u128) -> (r: RewardPoints)
    ensures
        r.val() == a * b,
{
    let x = primitive_types::U256([a as u64, (a >> 64) as u64, 0, 0]);
    let y = primitive_types::U256([b as u64, (b >> 64) as u64, 0, 0]);
    let p = x.saturating_mul(y);
    RewardPoints {
        lo: ((p.0[1] as u128) << 64) | (p.0[0] as u128),
        hi: ((p.0[3] as u128) << 64) | (p.0[2] as u128),
    }
}

/// Relies on `primitive_types::U256::saturating_mul`: multiplication capped
/// at 2^256 - 1.
#[verifier::external_body]
pub(crate) fn mul_balance_saturating(a: RewardPoints, b: u128) -> (r: RewardPoints)
    ensures
        r.val() == cap_u256(a.val() * b),
{
    let x = primitive_types::U256(
        [a.lo as u64, (a.lo >> 64) as u64, a.hi as u64, (a.hi >> 64) as u64],
    );
    let y = primitive_types::U256([b as u64, (b >> 64) as u64, 0, 0]);
    let p = x.saturating_mul(y);
    RewardPoints {
        lo: ((p.0[1] as u128) << 64) | (p.0[0] as u128),
        hi: ((p.0[3] as u128) << 64) | (p.0[2] as u128),
    }
}

/// Relies on `primitive_types::U256::div_mod`: truncating division, which
/// panics only on a zero divisor, excluded here.
#[verifier::external_body]
pub(crate) fn div_points(a: RewardPoints, b: RewardPoints) -> (r: RewardPoints)
    requires
        b.val() > 0,
    ensures
        r.val() == a.val() / b.val(),
{
    let x = primitive_types::U256(
        [a.lo as u64, (a.lo >> 64) as u64, a.hi as u64, (a.hi >> 64) as u64],
    );
    let y = primitive_types::U256(
        [b.lo as u64, (b.lo >> 64) as u64, b.hi as u64, (b.hi >> 64) as u64],
    );
    let (q, _) = x.div_mod(y);
    RewardPoints {
        lo: ((q.0[1] as u128) << 64) | (q.0[0] as u128),
        hi: ((q.0[3] as u128) << 64) | (q.0[2] as u128),
    }
}

} // verus!
