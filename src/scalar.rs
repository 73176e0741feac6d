//! Fixed-point scalars: every length, coordinate and weight of the tracer is
//! an integer count of `1 / ONE` units.
use vstd::prelude::*;

verus! {

/// The fixed-point unit: the integer `ONE` stands for the real number 1.
pub const ONE: i64 = 65536;

/// Truncating division (rounds toward zero), as Rust's `/` does.
pub open spec fn tdiv(a: int, b: int) -> int {
    if a >= 0 {
        a / b
    } else {
        -((-a) / b)
    }
}

/// The fixed-point product of two fixed-point values.
pub open spec fn fmul(a: int, b: int) -> int {
    tdiv(a * b, ONE as int)
}

/// `r` is the floor of the square root of `x`.
pub open spec fn is_floor_sqrt(x: int, r: int) -> bool {
    0 <= r && r * r <= x && x < (r + 1) * (r + 1)
}

/// The floor of the square root of `x`, for `x >= 0`.
pub open spec fn isqrt(x: int) -> int {
    choose|r: int| is_floor_sqrt(x, r)
}

/// The floor of the square root of `x`, with negative inputs read as zero.
pub open spec fn root(x: int) -> int {
    if x <= 0 {
        0
    } else {
        isqrt(x)
    }
}

/// The floor square root is unique.
pub proof fn lemma_floor_sqrt_unique(x: int, r1: int, r2: int)
    requires
        is_floor_sqrt(x, r1),
        is_floor_sqrt(x, r2),
    ensures
        r1 == r2,
{
    if r1 < r2 {
        assert((r1 + 1) * (r1 + 1) <= r2 * r2) by (nonlinear_arith)
            requires
                0 <= r1 + 1 <= r2,
        ;
    } else if r2 < r1 {
        assert((r2 + 1) * (r2 + 1) <= r1 * r1) by (nonlinear_arith)
            requires
                0 <= r2 + 1 <= r1,
        ;
    }
}

/// A witness of the floor square root is the floor square root.
pub proof fn lemma_isqrt_from_witness(x: int, r: int)
    requires
        is_floor_sqrt(x, r),
    ensures
        isqrt(x) == r,
{
    assert(is_floor_sqrt(x, isqrt(x)));
    lemma_floor_sqrt_unique(x, r, isqrt(x));
}

/// A floor square root is no larger than any `b` whose square reaches `x`.
pub proof fn lemma_sqrt_le(x: int, r: int, b: int)
    requires
        is_floor_sqrt(x, r),
        0 <= b,
        x <= b * b,
    ensures
        r <= b,
{
    if r > b {
        assert(b * b < r * r) by (nonlinear_arith)
            requires
                0 <= b < r,
        ;
    }
}

/// Relies on num's `Roots::sqrt` for `u128`: the truncated principal square
/// root, which the crate documents as the `r` with `r² ≤ x < (r+1)²`.
#[verifier::external_body]
fn sqrt_u128(x: u128) -> (r: u128)
    ensures
        is_floor_sqrt(x as int, r as int),
{
    num::integer::Roots::sqrt(&x)
}

/// The floor square root of a non-negative value; negative values give zero.
pub fn root_i128(x: i128) -> (r: i128)
    ensures
        r == root(x as int),
        0 <= r,
        x > 0 ==> r * r <= x < (r + 1) * (r + 1),
{
    if x <= 0 {
        0
    } else {
        let s = sqrt_u128(x as u128);
        proof {
            lemma_isqrt_from_witness(x as int, s as int);
            assert(x <= x * x) by (nonlinear_arith)
                requires
                    x >= 1,
            ;
            lemma_sqrt_le(x as int, s as int, x as int);
        }
        s as i128
    }
}

/// Truncating division by a positive divisor.
pub fn div_trunc(a: i128, b: i128) -> (r: i128)
    requires
        b > 0,
        a > i128::MIN,
    ensures
        r == tdiv(a as int, b as int),
{
    if a >= 0 {
        a / b
    } else {
        -((-a) / b)
    }
}

/// Bounds on a truncating quotient: its magnitude does not exceed that of
/// `a / b`.
pub proof fn lemma_tdiv_bound(a: int, b: int, m: int)
    requires
        b > 0,
        -m * b <= a <= m * b,
        m >= 0,
    ensures
        -m <= tdiv(a, b) <= m,
        a >= 0 ==> tdiv(a, b) >= 0,
        a <= 0 ==> tdiv(a, b) <= 0,
{
    assert((-m) * b == -(m * b)) by (nonlinear_arith);
    if a >= 0 {
        assert(a / b <= m) by (nonlinear_arith)
            requires
                0 <= a <= m * b,
                b > 0,
        ;
        assert(a / b >= 0) by (nonlinear_arith)
            requires
                0 <= a,
                b > 0,
        ;
    } else {
        assert((-a) / b <= m) by (nonlinear_arith)
            requires
                0 <= -a <= m * b,
                b > 0,
        ;
        assert((-a) / b >= 0) by (nonlinear_arith)
            requires
                0 <= -a,
                b > 0,
        ;
    }
}


/// The product of values bounded by `a` and `b` is bounded by `ab`.
pub proof fn lemma_mul_bound(x: int, y: int, a: int, b: int)
    requires
        -a <= x <= a,
        -b <= y <= b,
    ensures
        -(a * b) <= x * y <= a * b,
{
    assert(-(a * b) <= x * y <= a * b) by (nonlinear_arith)
        requires
            -a <= x <= a,
            -b <= y <= b,
    ;
}

/// A floor square root of a value below `b²` is below `b`.
pub proof fn lemma_root_bound(x: int, s: int, b: int)
    requires
        x <= b * b,
        b >= 0,
        s == root(x),
        0 <= s,
        x > 0 ==> s * s <= x,
    ensures
        0 <= s <= b,
{
    if x > 0 && s > b {
        assert(b * b < s * s) by (nonlinear_arith)
            requires
                0 <= b < s,
        ;
    }
}

/// On non-negative values `root` is the floor square root.
pub proof fn lemma_root_is_isqrt(x: int)
    requires
        x >= 0,
    ensures
        root(x) == isqrt(x),
{
    if x == 0 {
        assert(is_floor_sqrt(0, 0));
        lemma_isqrt_from_witness(0, 0);
    }
}

/// The truncating quotient misses the exact one by less than one:
/// `|a - b * tdiv(a, b)| < b`.
pub proof fn lemma_tdiv_rem(a: int, b: int)
    requires
        b > 0,
    ensures
        -b < a - b * tdiv(a, b) < b,
{
    if a >= 0 {
        vstd::arithmetic::div_mod::lemma_fundamental_div_mod(a, b);
        vstd::arithmetic::div_mod::lemma_mod_pos_bound(a, b);
    } else {
        vstd::arithmetic::div_mod::lemma_fundamental_div_mod(-a, b);
        vstd::arithmetic::div_mod::lemma_mod_pos_bound(-a, b);
        assert(b * (-((-a) / b)) == -(b * ((-a) / b))) by (nonlinear_arith);
    }
}

/// Every non-negative integer has a floor square root.
pub proof fn lemma_isqrt_exists(x: int)
    requires
        x >= 0,
    ensures
        is_floor_sqrt(x, isqrt(x)),
    decreases x,
{
    if x == 0 {
        assert(is_floor_sqrt(0, 0));
    } else {
        lemma_isqrt_exists(x - 1);
        let r = isqrt(x - 1);
        if (r + 1) * (r + 1) <= x {
            assert(x < (r + 2) * (r + 2)) by (nonlinear_arith)
                requires
                    x - 1 < (r + 1) * (r + 1),
                    r >= 0,
            ;
            assert(is_floor_sqrt(x, r + 1));
        } else {
            assert(is_floor_sqrt(x, r));
        }
    }
}

} // verus!
