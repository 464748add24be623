//! Integer helpers shared by the pipeline stages.
use vstd::prelude::*;

verus! {

/// Division by a positive divisor does not grow a magnitude.
pub proof fn lemma_div_shrinks(a: int, b: int, m: int)
    requires
        -m <= a <= m,
        b >= 1,
    ensures
        -m <= a / b <= m,
{
    vstd::arithmetic::div_mod::lemma_fundamental_div_mod(a, b);
    let q = a / b;
    let r = a % b;
    assert(-m <= q <= m) by (nonlinear_arith)
        requires
            a == b * q + r,
            0 <= r < b,
            b >= 1,
            -m <= a <= m,
    ;
}

/// Floor division of an `i128` by a positive divisor.
pub fn floor_div(a: i128, b: i128) -> (r: i128)
    requires
        b > 0,
        a > i128::MIN,
    ensures
        r == a / b,
{
    let q: i128 = if a >= 0 {
        a / b
    } else {
        let na: i128 = -a;
        let t: i128 = na / b;
        if na % b == 0 {
            -t
        } else {
            -t - 1
        }
    };
    proof {
        let ai = a as int;
        let bi = b as int;
        if a < 0 {
            let na = -ai;
            let t = na / bi;
            vstd::arithmetic::div_mod::lemma_fundamental_div_mod(na, bi);
            if na % bi == 0 {
                assert(ai == (-t) * bi) by (nonlinear_arith)
                    requires
                        na == -ai,
                        na == bi * t + na % bi,
                        na % bi == 0,
                ;
                vstd::arithmetic::div_mod::lemma_fundamental_div_mod_converse(ai, bi, -t, 0);
            } else {
                let m = na % bi;
                assert(0 < m < bi);
                assert(ai == (-t - 1) * bi + (bi - m)) by (nonlinear_arith)
                    requires
                        na == -ai,
                        na == bi * t + m,
                ;
                vstd::arithmetic::div_mod::lemma_fundamental_div_mod_converse(ai, bi, -t - 1, bi - m);
            }
        }
    }
    q
}

/// The integer square root: the largest `r` with `r * r <= n`.
pub open spec fn int_sqrt(n: nat) -> nat
    decreases n,
{
    if n == 0 {
        0
    } else {
        let r = int_sqrt((n - 1) as nat);
        if (r + 1) * (r + 1) <= n {
            r + 1
        } else {
            r
        }
    }
}

pub proof fn lemma_int_sqrt_bounds(n: nat)
    ensures
        int_sqrt(n) * int_sqrt(n) <= n < (int_sqrt(n) + 1) * (int_sqrt(n) + 1),
    decreases n,
{
    if n > 0 {
        lemma_int_sqrt_bounds((n - 1) as nat);
        let r = int_sqrt((n - 1) as nat);
        let s = int_sqrt(n);
        assert(s * s <= n < (s + 1) * (s + 1)) by (nonlinear_arith)
            requires
                r * r <= n - 1 < (r + 1) * (r + 1),
                s == if (r + 1) * (r + 1) <= n { r + 1 } else { r },
        ;
    } else {
        assert(int_sqrt(0) == 0);
        assert((0nat + 1) * (0nat + 1) == 1) by (nonlinear_arith);
    }
}

pub proof fn lemma_int_sqrt_unique(n: nat, r: nat)
    requires
        r * r <= n < (r + 1) * (r + 1),
    ensures
        int_sqrt(n) == r,
{
    lemma_int_sqrt_bounds(n);
    let s = int_sqrt(n);
    if s < r {
        assert((s + 1) * (s + 1) <= r * r) by (nonlinear_arith)
            requires
                s + 1 <= r,
        ;
    } else if s > r {
        assert((r + 1) * (r + 1) <= s * s) by (nonlinear_arith)
            requires
                r + 1 <= s,
        ;
    }
}

/// The integer square root of `n`, by bisection.
pub fn isqrt(n: u64) -> (r: u64)
    requires
        n < 0x4000_0000_0000_0000,
    ensures
        r == int_sqrt(n as nat),
{
    let mut lo: u64 = 0;
    let mut hi: u64 = 0x8000_0001;
    assert(n < hi * hi);
    while hi - lo > 1
        invariant
            lo < hi <= 0x8000_0001,
            lo * lo <= n,
            n < hi * hi,
        decreases hi - lo,
    {
        let mid: u64 = lo + (hi - lo) / 2;
        assert(mid * mid <= 0x8000_0001 * 0x8000_0001) by (nonlinear_arith)
            requires
                mid <= 0x8000_0001,
        ;
        if mid * mid <= n {
            lo = mid;
        } else {
            hi = mid;
        }
    }
    proof {
        lemma_int_sqrt_unique(n as nat, lo as nat);
    }
    lo
}

} // verus!
