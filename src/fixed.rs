//! Fixed-point scalars: rounding products and integer square roots.
use vstd::prelude::*;
use vstd::arithmetic::div_mod::lemma_fundamental_div_mod;
use vstd::arithmetic::div_mod::lemma_fundamental_div_mod_converse;
use vstd::arithmetic::div_mod::lemma_mod_pos_bound;

verus! {

/// Raw units in one: the raw value `x` stands for `x / SCALE`.
pub const SCALE: i64 = 65536;

/// Fixed-point product of two raw values, rounded toward negative infinity.
pub open spec fn fmul(a: int, b: int) -> int {
    (a * b) / (SCALE as int)
}

/// `r` is the integer square root of `n`.
pub open spec fn is_isqrt(n: int, r: int) -> bool {
    0 <= r && r * r <= n < (r + 1) * (r + 1)
}

/// The integer square root: the largest `r` with `r * r <= n`.
pub open spec fn isqrt(n: int) -> int {
    choose|r: int| is_isqrt(n, r)
}

/// Fixed-point square root of a raw value.
pub open spec fn fsqrt(a: int) -> int {
    isqrt(a * SCALE)
}

pub open spec fn abs(a: int) -> int {
    if a < 0 { -a } else { a }
}

/// Floor division: `q == p / d` exactly when `d * q <= p < d * q + d`.
pub proof fn lemma_floor_div(p: int, d: int)
    requires
        d > 0,
    ensures
        d * (p / d) <= p < d * (p / d) + d,
{
    lemma_fundamental_div_mod(p, d);
}

/// Every non-negative integer has an integer square root.
pub proof fn lemma_isqrt_exists(n: int)
    requires
        n >= 0,
    ensures
        is_isqrt(n, isqrt(n)),
    decreases n,
{
    if n == 0 {
        assert(is_isqrt(0, 0));
    } else {
        lemma_isqrt_exists(n - 1);
        let r = isqrt(n - 1);
        if (r + 1) * (r + 1) <= n {
            assert((r + 1) * (r + 1) == n) by (nonlinear_arith)
                requires (r + 1) * (r + 1) <= n, n - 1 < (r + 1) * (r + 1);
            assert((r + 2) * (r + 2) > n) by (nonlinear_arith)
                requires (r + 1) * (r + 1) == n, r >= 0;
            assert(is_isqrt(n, r + 1));
        } else {
            assert(is_isqrt(n, r));
        }
    }
}

/// A square root that is found is the one that `isqrt` names.
pub proof fn lemma_isqrt_unique(n: int, r: int)
    requires
        is_isqrt(n, r),
    ensures
        isqrt(n) == r,
{
    let c = isqrt(n);
    assert(is_isqrt(n, c));
    if c < r {
        assert((c + 1) * (c + 1) <= r * r) by (nonlinear_arith)
            requires 0 <= c, c + 1 <= r;
    } else if r < c {
        assert((r + 1) * (r + 1) <= c * c) by (nonlinear_arith)
            requires 0 <= r, r + 1 <= c;
    }
}

/// A square root is at most any `m` whose square reaches `n`.
pub proof fn lemma_isqrt_le(n: int, r: int, m: int)
    requires
        is_isqrt(n, r),
        m >= 0,
        n <= m * m,
    ensures
        r <= m,
{
    if r > m {
        assert(m * m < r * r) by (nonlinear_arith)
            requires 0 <= m < r;
    }
}

/// Bound on a rounded product of bounded factors.
pub proof fn lemma_fmul_bound(a: int, b: int, ma: int, mb: int)
    requires
        abs(a) <= ma,
        abs(b) <= mb,
    ensures
        abs(fmul(a, b)) <= ma * mb / (SCALE as int) + 1,
{
    assert(abs(a * b) <= ma * mb) by (nonlinear_arith)
        requires abs(a) <= ma, abs(b) <= mb, abs(a) == (if a < 0 { -a } else { a }),
            abs(b) == (if b < 0 { -b } else { b }), abs(a * b) == (if a * b < 0 { -(a * b) } else { a * b });
}

/// Divides by a positive divisor, rounding toward negative infinity.
pub fn floor_div(p: i128, d: i128) -> (q: i128)
    requires
        d > 0,
        p > i128::MIN,
    ensures
        q == p / d,
{
    if p >= 0 {
        p / d
    } else {
        let m: i128 = (-p - 1) / d;
        proof {
            let x = -p - 1;
            let r = x % (d as int);
            lemma_fundamental_div_mod(x, d as int);
            lemma_mod_pos_bound(x, d as int);
            assert(m == x / (d as int));
            assert(p == (-m - 1) * d + (d - r - 1)) by (nonlinear_arith)
                requires x == d * m + r, x == -p - 1;
            lemma_fundamental_div_mod_converse(p as int, d as int, -m - 1, d - r - 1);
        }
        -m - 1
    }
}

/// Fixed-point product, rounded toward negative infinity.
pub fn fx_mul(a: i64, b: i64) -> (r: i64)
    requires
        i64::MIN <= fmul(a as int, b as int) <= i64::MAX,
    ensures
        r == fmul(a as int, b as int),
{
    assert(-0x4000_0000_0000_0000_0000_0000_0000_0000 <= (a as int) * (b as int)
        <= 0x4000_0000_0000_0000_0000_0000_0000_0000) by (nonlinear_arith)
        requires i64::MIN <= a <= i64::MAX, i64::MIN <= b <= i64::MAX;
    let p: i128 = (a as i128) * (b as i128);
    let q: i128 = floor_div(p, SCALE as i128);
    q as i64
}

/// Integer square root, by bisection.
pub fn isqrt_u128(n: u128) -> (r: u128)
    ensures
        is_isqrt(n as int, r as int),
        r == isqrt(n as int),
{
    let mut lo: u128 = 0;
    let mut hi: u128 = 0x1_0000_0000_0000_0000;
    assert(n < hi * hi);
    while lo + 1 < hi
        invariant
            lo < hi <= 0x1_0000_0000_0000_0000,
            lo * lo <= n,
            n < hi * hi,
        decreases hi - lo,
    {
        let mid: u128 = lo + (hi - lo) / 2;
        assert(mid * mid <= 0xffff_ffff_ffff_fffe_0000_0000_0000_0001) by (nonlinear_arith)
            requires mid < 0x1_0000_0000_0000_0000;
        if mid * mid <= n {
            lo = mid;
        } else {
            hi = mid;
        }
    }
    proof {
        lemma_isqrt_unique(n as int, lo as int);
    }
    lo
}

/// Fixed-point square root of a non-negative raw value.
pub fn fx_sqrt(a: i64) -> (r: i64)
    requires
        a >= 0,
    ensures
        r == fsqrt(a as int),
        is_isqrt(a * SCALE, r as int),
        0 <= r <= 0x100_0000_0000,
{
    let n: u128 = (a as u128) * 65536;
    let s: u128 = isqrt_u128(n);
    proof {
        lemma_isqrt_le(n as int, s as int, 0x100_0000_0000);
    }
    s as i64
}

} // verus!
