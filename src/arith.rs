//! Rounded-up integer division, with the facts the tilings need about it.

use vstd::prelude::*;

verus! {

/// `a / b` rounded up, for `b > 0`.
pub open spec fn ceil_div(a: int, b: int) -> int {
    (a + b - 1) / b
}

/// Relies on `num::Integer::div_ceil` for `u32`, which computes
/// `a / b + (a % b != 0)`: the quotient rounded up. It panics when `b` is zero.
#[verifier::external_body]
pub(crate) fn div_ceil(a: u32, b: u32) -> (r: u32)
    requires
        b > 0,
    ensures
        r as int == ceil_div(a as int, b as int),
{
    num::Integer::div_ceil(&a, &b)
}

/// Facts on `ceil_div` that the tilings use.
pub proof fn lemma_ceil_div(a: int, b: int)
    requires
        a >= 0,
        b > 0,
    ensures
        0 <= ceil_div(a, b) <= a,
        a <= ceil_div(a, b) * b,
        ceil_div(a, b) * b < a + b,
        forall|x: int| 0 <= x < a ==> #[trigger] (x / b) < ceil_div(a, b),
{
    let c = ceil_div(a, b);
    vstd::arithmetic::div_mod::lemma_fundamental_div_mod(a + b - 1, b);
    assert(0 <= (a + b - 1) % b < b) by {
        vstd::arithmetic::div_mod::lemma_mod_bound(a + b - 1, b);
    }
    assert(c * b == b * c) by {
        vstd::arithmetic::mul::lemma_mul_is_commutative(b, c);
    }
    assert(c >= 0) by {
        vstd::arithmetic::div_mod::lemma_div_pos_is_pos(a + b - 1, b);
    }
    assert(c <= a) by (nonlinear_arith)
        requires
            c * b > a - 1,
            c * b <= a + b - 1,
            b > 0,
            a >= 0,
            c >= 0,
    {
        if c > a {
            assert(c * b >= (a + 1) * b);
        }
    }
    assert forall|x: int| 0 <= x < a implies #[trigger] (x / b) < c by {
        vstd::arithmetic::div_mod::lemma_fundamental_div_mod(x, b);
        vstd::arithmetic::div_mod::lemma_mod_bound(x, b);
        assert((x / b) * b == b * (x / b)) by {
            vstd::arithmetic::mul::lemma_mul_is_commutative(b, x / b);
        }
        assert(x / b < c) by (nonlinear_arith)
            requires
                (x / b) * b <= x,
                x < a,
                a <= c * b,
                b > 0,
        {
            if x / b >= c {
                assert((x / b) * b >= c * b);
            }
        }
    }
}

} // verus!
