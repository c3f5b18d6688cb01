//! Exact integer helpers: square roots and rounded division.
use vstd::prelude::*;

verus! {

/// The largest natural number whose square does not exceed `n`.
pub open spec fn floor_sqrt(n: nat) -> nat
    decreases n,
{
    if n == 0 {
        0
    } else {
        let r = floor_sqrt((n - 1) as nat);
        if (r + 1) * (r + 1) <= n {
            r + 1
        } else {
            r
        }
    }
}

/// The smallest natural number whose square is at least `n`.
pub open spec fn ceil_sqrt(n: nat) -> nat {
    let r = floor_sqrt(n);
    if r * r == n {
        r
    } else {
        r + 1
    }
}

/// `n / m` rounded to the nearest integer, halves rounded up.
pub open spec fn round_div(n: int, m: int) -> int {
    (2 * n + m) / (2 * m)
}

/// `floor_sqrt(n)` is bracketed by its own square and the next one.
pub proof fn lemma_floor_sqrt_bounds(n: nat)
    ensures
        floor_sqrt(n) * floor_sqrt(n) <= n,
        n < (floor_sqrt(n) + 1) * (floor_sqrt(n) + 1),
    decreases n,
{
    let s = floor_sqrt(n);
    if n > 0 {
        lemma_floor_sqrt_bounds((n - 1) as nat);
        let r = floor_sqrt((n - 1) as nat);
        assert(r * r <= n - 1);
        assert(n - 1 < (r + 1) * (r + 1));
        if (r + 1) * (r + 1) <= n {
            assert(s == r + 1);
            assert(s * s == (r + 1) * (r + 1));
            assert((s + 1) * (s + 1) > (r + 1) * (r + 1)) by (nonlinear_arith)
                requires
                    s == r + 1,
            ;
        } else {
            assert(s == r);
        }
    } else {
        assert(s == 0);
        assert(s * s == 0) by (nonlinear_arith)
            requires
                s == 0,
        ;
        assert((s + 1) * (s + 1) == 1) by (nonlinear_arith)
            requires
                s == 0,
        ;
    }
}

/// `ceil_sqrt(n)` squared is at least `n`, and the number below it
/// squared is less.
pub proof fn lemma_ceil_sqrt_bounds(n: nat)
    ensures
        n <= ceil_sqrt(n) * ceil_sqrt(n),
        ceil_sqrt(n) > 0 ==> (ceil_sqrt(n) - 1) * (ceil_sqrt(n) - 1) < n,
{
    lemma_floor_sqrt_bounds(n);
    let r = floor_sqrt(n);
    assert(r > 0 ==> (r - 1) * (r - 1) < r * r) by (nonlinear_arith);
}

/// Squares grow with their base.
pub proof fn lemma_square_monotone(a: int, b: int)
    requires
        0 <= a <= b,
    ensures
        a * a <= b * b,
{
    assert(a * a <= b * b) by (nonlinear_arith)
        requires
            0 <= a <= b,
    ;
}

/// Any number bracketed like a floor square root is the floor square root.
pub proof fn lemma_floor_sqrt_unique(n: nat, r: nat)
    requires
        r * r <= n,
        n < (r + 1) * (r + 1),
    ensures
        r == floor_sqrt(n),
{
    lemma_floor_sqrt_bounds(n);
    let s = floor_sqrt(n);
    if r < s {
        lemma_square_monotone(r as int + 1, s as int);
    } else if s < r {
        lemma_square_monotone(s as int + 1, r as int);
    }
}

/// The floor square root grows with its argument.
pub proof fn lemma_floor_sqrt_monotone(a: nat, b: nat)
    requires
        a <= b,
    ensures
        floor_sqrt(a) <= floor_sqrt(b),
{
    lemma_floor_sqrt_bounds(a);
    lemma_floor_sqrt_bounds(b);
    let r = floor_sqrt(a);
    let s = floor_sqrt(b);
    if s < r {
        lemma_square_monotone(s as int + 1, r as int);
    }
}

/// Integer square root, rounded down.
pub fn isqrt(n: u128) -> (r: u128)
    ensures
        r == floor_sqrt(n as nat),
        r * r <= n < (r + 1) * (r + 1),
{
    let mut lo: u128 = 0;
    let mut hi: u128 = 0x1_0000_0000_0000_0000;
    assert(0x1_0000_0000_0000_0000int * 0x1_0000_0000_0000_0000int > u128::MAX) by (nonlinear_arith);
    while hi - lo > 1
        invariant
            lo < hi <= 0x1_0000_0000_0000_0000,
            lo * lo <= n,
            n < hi * hi,
        decreases hi - lo,
    {
        let mid: u128 = lo + (hi - lo) / 2;
        assert(mid * mid < 0x1_0000_0000_0000_0000int * 0x1_0000_0000_0000_0000int) by (nonlinear_arith)
            requires
                0 <= mid < 0x1_0000_0000_0000_0000int,
        ;
        assert(0x1_0000_0000_0000_0000int * 0x1_0000_0000_0000_0000int == u128::MAX + 1) by (nonlinear_arith);
        if mid * mid <= n {
            lo = mid;
        } else {
            hi = mid;
        }
    }
    proof {
        lemma_floor_sqrt_unique(n as nat, lo as nat);
    }
    lo
}

/// Integer square root, rounded up.
pub fn isqrt_ceil(n: u128) -> (r: u128)
    ensures
        r == ceil_sqrt(n as nat),
        n <= r * r,
        r > 0 ==> (r - 1) * (r - 1) < n,
{
    let r: u128 = isqrt(n);
    assert(r < 0x1_0000_0000_0000_0000) by (nonlinear_arith)
        requires
            r * r <= n,
            n <= u128::MAX,
    ;
    assert(r * r < 0x1_0000_0000_0000_0000int * 0x1_0000_0000_0000_0000int) by (nonlinear_arith)
        requires
            0 <= r < 0x1_0000_0000_0000_0000int,
    ;
    assert(0x1_0000_0000_0000_0000int * 0x1_0000_0000_0000_0000int == u128::MAX + 1) by (nonlinear_arith);
    assert(r > 0 ==> (r - 1) * (r - 1) < r * r) by (nonlinear_arith);
    if r * r == n {
        r
    } else {
        r + 1
    }
}

/// Division rounded to the nearest integer, halves rounded up.
pub fn div_round(n: i128, m: i128) -> (q: i128)
    requires
        0 < m <= 0x2000_0000_0000_0000_0000_0000_0000_0000,
        -0x1000_0000_0000_0000_0000_0000_0000_0000 <= n <= 0x1000_0000_0000_0000_0000_0000_0000_0000,
    ensures
        q == round_div(n as int, m as int),
{
    let num: i128 = 2 * n + m;
    let den: i128 = 2 * m;
    if num >= 0 {
        let q: u128 = (num as u128) / (den as u128);
        q as i128
    } else {
        // floor(num / den) for a negative numerator
        let pos: u128 = (-num) as u128;
        let d: u128 = den as u128;
        let up: u128 = (pos + (d - 1)) / d;
        proof {
            lemma_floor_of_negative(pos as int, d as int);
        }
        -(up as i128)
    }
}

/// Flooring a negated quotient is negating the ceiling.
pub proof fn lemma_floor_of_negative(p: int, d: int)
    requires
        p > 0,
        d > 0,
    ensures
        (-p) / d == -((p + d - 1) / d),
{
    let q = (p + d - 1) / d;
    let r = (p + d - 1) % d;
    vstd::arithmetic::div_mod::lemma_fundamental_div_mod(p + d - 1, d);
    vstd::arithmetic::div_mod::lemma_mod_bound(p + d - 1, d);
    // p = d*q + r - d + 1, so -p = d*(-q) + (d - 1 - r)
    assert(-p == d * (-q) + (d - 1 - r)) by (nonlinear_arith)
        requires
            p + d - 1 == d * q + r,
    ;
    vstd::arithmetic::div_mod::lemma_fundamental_div_mod_converse(-p, d, -q, d - 1 - r);
}

} // verus!
