//! Integer arithmetic for contracts.

use vstd::prelude::*;

verus! {

/// Quotient of `n` and `d`, rounded up.
pub open spec fn ceil_div(n: int, d: int) -> int
    recommends
        d > 0,
{
    (n + d - 1) / d
}

/// The lesser of two integers.
pub open spec fn min(a: int, b: int) -> int {
    if a < b {
        a
    } else {
        b
    }
}

/// `ceil_div(n, d)` steps of `d` reach `n`, and no fewer do.
pub proof fn lemma_ceil_div(n: int, d: int)
    requires
        n >= 0,
        d > 0,
    ensures
        ceil_div(n, d) >= 0,
        (ceil_div(n, d) - 1) * d < n,
        n <= ceil_div(n, d) * d,
{
    let sum = n + d - 1;
    let q = sum / d;
    vstd::arithmetic::div_mod::lemma_fundamental_div_mod(sum, d);
    assert(q >= 0 && (q - 1) * d < n && n <= q * d) by (nonlinear_arith)
        requires
            sum == d * q + sum % d,
            0 <= sum % d < d,
            sum == n + d - 1,
            n >= 0,
            d > 0,
    ;
}

/// `q` is `ceil_div(n, d)` where `q` steps of `d` reach `n` and one fewer do
/// not.
pub proof fn lemma_ceil_div_unique(n: int, d: int, q: int)
    requires
        n >= 0,
        d > 0,
        (q - 1) * d < n <= q * d,
    ensures
        q == ceil_div(n, d),
{
    lemma_ceil_div(n, d);
    let c = ceil_div(n, d);
    assert(q == c) by (nonlinear_arith)
        requires
            (q - 1) * d < n <= q * d,
            (c - 1) * d < n <= c * d,
            d > 0,
    ;
}

} // verus!
