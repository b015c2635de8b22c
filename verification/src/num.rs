//! Integer square roots and floor division: the two rounding primitives
//! that the fixed-point geometry is built on.

use vstd::prelude::*;
use vstd::arithmetic::div_mod::{
    lemma_fundamental_div_mod, lemma_fundamental_div_mod_converse,
};

verus! {

/// `r` is the floor of the square root of `n`.
pub open spec fn is_sqrt_floor(n: int, r: int) -> bool {
    0 <= r && r * r <= n && n < (r + 1) * (r + 1)
}

/// The floor of the square root of a non-negative integer.
pub open spec fn sqrt_floor(n: int) -> int {
    choose|r: int| is_sqrt_floor(n, r)
}

/// Two numbers can only both be the floor square root of `n` if they are equal.
pub proof fn lemma_sqrt_floor_unique(n: int, r1: int, r2: int)
    requires
        is_sqrt_floor(n, r1),
        is_sqrt_floor(n, r2),
    ensures
        r1 == r2,
{
    if r1 < r2 {
        assert((r1 + 1) * (r1 + 1) <= r2 * r2) by (nonlinear_arith)
            requires 0 <= r1, 0 <= r2, r1 + 1 <= r2;
    }
    if r2 < r1 {
        assert((r2 + 1) * (r2 + 1) <= r1 * r1) by (nonlinear_arith)
            requires 0 <= r1, 0 <= r2, r2 + 1 <= r1;
    }
}

/// A witness pins down the value of `sqrt_floor`.
pub proof fn lemma_sqrt_floor_is(n: int, r: int)
    requires
        is_sqrt_floor(n, r),
    ensures
        sqrt_floor(n) == r,
{
    assert(is_sqrt_floor(n, sqrt_floor(n)));
    lemma_sqrt_floor_unique(n, sqrt_floor(n), r);
}

/// Integer square root by binary search.
pub fn isqrt(n: u128) -> (r: u64)
    requires
        n < 1000000000000000000000000000000,
    ensures
        is_sqrt_floor(n as int, r as int),
        r == sqrt_floor(n as int),
{
    let mut lo: u64 = 0;
    let mut hi: u64 = 1_000_000_000_000_000;
    proof {
        assert((hi as int + 1) * (hi as int + 1) > n as int) by (nonlinear_arith)
            requires hi == 1_000_000_000_000_000, n < 1000000000000000000000000000000;
    }
    while lo < hi
        invariant
            lo <= hi <= 1_000_000_000_000_000,
            (lo as int) * (lo as int) <= n as int,
            (n as int) < (hi as int + 1) * (hi as int + 1),
        decreases hi - lo,
    {
        let mid: u64 = lo + (hi - lo + 1) / 2;
        proof {
            assert((mid as int) * (mid as int) <= 1000000000000000000000000000000int)
                by (nonlinear_arith)
                requires 0 <= mid <= 1_000_000_000_000_000int;
        }
        let m2: u128 = (mid as u128) * (mid as u128);
        if m2 <= n {
            lo = mid;
        } else {
            hi = mid - 1;
        }
    }
    proof {
        lemma_sqrt_floor_is(n as int, lo as int);
    }
    lo
}

/// Division rounding toward negative infinity, matching `/` on `int`
/// for a positive divisor.
pub fn floor_div(a: i128, b: i128) -> (q: i128)
    requires
        0 < b <= 1000000000000000000000000000000,
        -1000000000000000000000000000000000000 <= a <= 1000000000000000000000000000000000000,
    ensures
        q == (a as int) / (b as int),
{
    if a >= 0 {
        let q = (a as u128) / (b as u128);
        proof {
            assert((a as u128) as int == a as int);
            assert((b as u128) as int == b as int);
        }
        q as i128
    } else {
        let n = (-a) as u128;
        let d = b as u128;
        let qc = (n + d - 1) / d;
        let q = -(qc as i128);
        proof {
            let ni = n as int;
            let di = d as int;
            let qi = qc as int;
            lemma_fundamental_div_mod(ni + di - 1, di);
            let r2 = (ni + di - 1) % di;
            assert(ni + di - 1 == di * qi + r2);
            // a == (-qi) * b + (qi * di - ni), with the remainder in [0, di)
            assert(qi * di - ni == di - 1 - r2);
            assert(0 <= di - 1 - r2 < di);
            assert(a as int == di * (-qi) + (qi * di - ni)) by (nonlinear_arith)
                requires a as int == -ni, qi * di - ni == di - 1 - r2,
                    ni + di - 1 == di * qi + r2;
            lemma_fundamental_div_mod_converse(a as int, di, -qi, qi * di - ni);
        }
        q
    }
}

} // verus!
