//! Rounded integer division.
//!
//! Ray/line intersections and midpoints are rational; they are brought
//! back onto the integer grid by [`round_div`]: division rounded to the
//! nearest integer, halves away from the divisor's sign pattern resolved
//! as "half rounds up".  Defined so that `round_div(n + k*d, d) ==
//! round_div(n, d) + k`, which is what makes the whole computation
//! translation invariant.

use vstd::prelude::*;
use vstd::arithmetic::div_mod::{lemma_fundamental_div_mod, lemma_fundamental_div_mod_converse};

verus! {

/// `n / d` rounded to the nearest integer (ties toward positive infinity
/// when `d > 0`; the quotient depends only on the rational `n / d`).
pub open spec fn round_div(n: int, d: int) -> int
    recommends
        d != 0,
{
    if d < 0 {
        (2 * (-n) + (-d)) / (2 * (-d))
    } else {
        (2 * n + d) / (2 * d)
    }
}

/// Floor division of `n` by `d > 0`, on machine integers.
fn floor_div_pos(n: i128, d: i128) -> (q: i128)
    requires
        0 < d,
        -0x1000_0000_0000_0000_0000_0000_0000 <= n <= 0x1000_0000_0000_0000_0000_0000_0000,
        d <= 0x1000_0000_0000_0000_0000_0000_0000,
    ensures
        q == n as int / d as int,
{
    if n >= 0 {
        n / d
    } else {
        let a: i128 = -n;
        let q1: i128 = (a + d - 1) / d;
        proof {
            let ai = a as int;
            let di = d as int;
            let qi = (ai + di - 1) / di;
            lemma_fundamental_div_mod(ai + di - 1, di);
            let r = (ai + di - 1) % di;
            assert(ai + di - 1 == di * qi + r);
            assert(0 <= r < di);
            assert(n as int == (-qi) * di + (qi * di - ai)) by (nonlinear_arith)
                requires
                    n as int == -ai,
            ;
            assert(0 <= qi * di - ai < di);
            lemma_fundamental_div_mod_converse(n as int, di, -qi, qi * di - ai);
        }
        -q1
    }
}

/// `round_div`, executably.
pub fn round_div_i128(n: i128, d: i128) -> (q: i128)
    requires
        d != 0,
        -0x100_0000_0000_0000_0000_0000_0000 <= n <= 0x100_0000_0000_0000_0000_0000_0000,
        -0x100_0000_0000_0000_0000_0000_0000 <= d <= 0x100_0000_0000_0000_0000_0000_0000,
    ensures
        q == round_div(n as int, d as int),
{
    let (nn, dd): (i128, i128) = if d < 0 { (-n, -d) } else { (n, d) };
    floor_div_pos(2 * nn + dd, 2 * dd)
}

/// `round_div` shifts with the numerator: adding `k` whole denominators
/// to the numerator adds `k` to the quotient.
pub proof fn lemma_round_div_shift(n: int, d: int, k: int)
    requires
        d != 0,
    ensures
        round_div(n + k * d, d) == round_div(n, d) + k,
{
    if d < 0 {
        assert(2 * (-(n + k * d)) + (-d) == (2 * (-n) + (-d)) + k * (2 * (-d)))
            by (nonlinear_arith);
        lemma_div_add_multiple(2 * (-n) + (-d), 2 * (-d), k);
    } else {
        assert(2 * (n + k * d) + d == (2 * n + d) + k * (2 * d)) by (nonlinear_arith);
        lemma_div_add_multiple(2 * n + d, 2 * d, k);
    }
}

/// `round_div` is monotone in the numerator.
pub proof fn lemma_round_div_ordered(n1: int, n2: int, d: int)
    requires
        0 < d,
        n1 <= n2,
    ensures
        round_div(n1, d) <= round_div(n2, d),
{
    vstd::arithmetic::div_mod::lemma_div_is_ordered(2 * n1 + d, 2 * n2 + d, 2 * d);
}

/// A whole multiple of the divisor divides exactly.
pub proof fn lemma_round_div_exact(k: int, d: int)
    requires
        0 < d,
    ensures
        round_div(k * d, d) == k,
{
    lemma_fundamental_div_mod_converse(d, 2 * d, 0, d);
    assert(round_div(0, d) == 0);
    lemma_round_div_shift(0, d, k);
    assert(0 + k * d == k * d);
}

/// Adding a multiple of the (positive) divisor shifts a floor quotient.
proof fn lemma_div_add_multiple(n: int, d: int, k: int)
    requires
        0 < d,
    ensures
        (n + k * d) / d == n / d + k,
{
    lemma_fundamental_div_mod(n, d);
    assert(n + k * d == d * (n / d + k) + n % d) by (nonlinear_arith)
        requires
            n == d * (n / d) + n % d,
    ;
    lemma_fundamental_div_mod_converse(n + k * d, d, n / d + k, n % d);
}

} // verus!
