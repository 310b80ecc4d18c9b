//! Saturating arithmetic on the balance type, with exact contracts.

use vstd::prelude::*;

verus! {

/// Clamp a mathematical integer into the `u128` range from above.
pub open spec fn cap_u128(x: int) -> int {
    if x > u128::MAX {
        u128::MAX as int
    } else {
        x
    }
}

/// Addition that saturates at `u128::MAX`.
pub fn sat_add_u128(a: u128, b: u128) -> (r: u128)
    ensures
        r == cap_u128(a + b),
{
    if a <= u128::MAX - b {
        a + b
    } else {
        u128::MAX
    }
}

/// Subtraction that saturates at zero.
pub fn sat_sub_u128(a: u128, b: u128) -> (r: u128)
    ensures
        r == if a >= b {
            a - b
        } else {
            0
        },
{
    if a >= b {
        a - b
    } else {
        0
    }
}

/// Multiplication that saturates at `u128::MAX`.
pub fn sat_mul_u128(a: u128, b: u128) -> (r: u128)
    ensures
        r == cap_u128(a * b),
{
    if b == 0 {
        proof {
            assert(a * 0 == 0) by (nonlinear_arith);
        }
        0
    } else if a <= u128::MAX / b {
        proof {
            lemma_mul_le_max(a as int, b as int);
        }
        a * b
    } else {
        proof {
            lemma_mul_gt_max(a as int, b as int);
        }
        u128::MAX
    }
}

/// If `a <= MAX / b` then the product fits in `u128`.
proof fn lemma_mul_le_max(a: int, b: int)
    requires
        0 < b <= u128::MAX,
        0 <= a <= (u128::MAX as int) / b,
    ensures
        a * b <= u128::MAX,
{
    let q = (u128::MAX as int) / b;
    vstd::arithmetic::div_mod::lemma_fundamental_div_mod(u128::MAX as int, b);
    vstd::arithmetic::div_mod::lemma_mod_bound(u128::MAX as int, b);
    assert(a * b <= q * b) by (nonlinear_arith)
        requires
            0 <= a <= q,
            b > 0,
    ;
}

/// If `a > MAX / b` then the product overflows `u128`.
proof fn lemma_mul_gt_max(a: int, b: int)
    requires
        0 < b <= u128::MAX,
        a > (u128::MAX as int) / b,
        a <= u128::MAX,
    ensures
        a * b > u128::MAX,
{
    let q = (u128::MAX as int) / b;
    vstd::arithmetic::div_mod::lemma_fundamental_div_mod(u128::MAX as int, b);
    vstd::arithmetic::div_mod::lemma_mod_bound(u128::MAX as int, b);
    assert(a * b >= (q + 1) * b) by (nonlinear_arith)
        requires
            a >= q + 1,
            b > 0,
    ;
    assert((q + 1) * b == q * b + b) by (nonlinear_arith);
}

} // verus!
