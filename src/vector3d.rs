//! Three-component integer vectors and the algebra the tracer needs on them.
use vstd::prelude::*;
use crate::scalar::{ONE, tdiv, fmul, isqrt, is_floor_sqrt, root_i128, div_trunc, lemma_tdiv_bound};

verus! {

/// A vector as a triple of mathematical integers.
pub type V3 = (int, int, int);

/// Every component of `v` lies in `[-b, b]`.
pub open spec fn bounded(v: V3, b: int) -> bool {
    -b <= v.0 <= b && -b <= v.1 <= b && -b <= v.2 <= b
}

pub open spec fn add3(a: V3, b: V3) -> V3 {
    (a.0 + b.0, a.1 + b.1, a.2 + b.2)
}

pub open spec fn sub3(a: V3, b: V3) -> V3 {
    (a.0 - b.0, a.1 - b.1, a.2 - b.2)
}

pub open spec fn neg3(a: V3) -> V3 {
    (-a.0, -a.1, -a.2)
}

pub open spec fn dot3(a: V3, b: V3) -> int {
    a.0 * b.0 + a.1 * b.1 + a.2 * b.2
}

pub open spec fn cross3(a: V3, b: V3) -> V3 {
    (a.1 * b.2 - a.2 * b.1, a.2 * b.0 - a.0 * b.2, a.0 * b.1 - a.1 * b.0)
}

pub open spec fn len2(a: V3) -> int {
    dot3(a, a)
}

/// Each component multiplied by the fixed-point factor `k`.
pub open spec fn fscale3(a: V3, k: int) -> V3 {
    (fmul(a.0, k), fmul(a.1, k), fmul(a.2, k))
}

pub open spec fn is_zero3(a: V3) -> bool {
    a.0 == 0 && a.1 == 0 && a.2 == 0
}

/// The length of `a` times `ONE`, rounded down: for a vector of
/// fixed-point components, its length in fixed point.
pub open spec fn scaled_len(a: V3) -> int {
    isqrt(len2(a) * (ONE as int) * (ONE as int))
}

/// The unit vector along a non-zero `a`: each component is
/// `a_i * ONE / |a|`, rounded toward zero.
pub open spec fn normalize3(a: V3) -> V3 {
    let l = scaled_len(a);
    let s = (ONE as int) * (ONE as int);
    (tdiv(a.0 * s, l), tdiv(a.1 * s, l), tdiv(a.2 * s, l))
}

/// Largest component magnitude accepted by `dot`, `length_squared` and
/// `length`.
pub const WIDE_LIMIT: i64 = 1152921504606846976;

/// Largest component magnitude accepted by `cross`.
pub const CROSS_LIMIT: i64 = 1073741824;

/// Largest component magnitude accepted by `normalize`.
pub const NORM_LIMIT: i64 = 70368744177664;

/// Generic three-dimensional vector with integer components.
#[derive(Debug, Clone, Copy, PartialEq, Eq, Structural)]
pub struct Vector3d {
    pub x: i64,
    pub y: i64,
    pub z: i64,
}

impl View for Vector3d {
    type V = V3;

    open spec fn view(&self) -> V3 {
        (self.x as int, self.y as int, self.z as int)
    }
}

impl Vector3d {
    /// Creates a new vector with the given components.
    pub fn new(x: i64, y: i64, z: i64) -> (r: Self)
        ensures
            r@ == (x as int, y as int, z as int),
    {
        Self { x, y, z }
    }

    /// Creates a new vector with every component set to `val`.
    pub fn with_value(val: i64) -> (r: Self)
        ensures
            r@ == (val as int, val as int, val as int),
    {
        Self { x: val, y: val, z: val }
    }

    /// The dot product.
    pub fn dot(self, rhs: Vector3d) -> (r: i128)
        requires
            bounded(self@, WIDE_LIMIT as int),
            bounded(rhs@, WIDE_LIMIT as int),
        ensures
            r == dot3(self@, rhs@),
    {
        proof {
            lemma_mul_wide(self.x as int, rhs.x as int);
            lemma_mul_wide(self.y as int, rhs.y as int);
            lemma_mul_wide(self.z as int, rhs.z as int);
        }
        (self.x as i128) * (rhs.x as i128) + (self.y as i128) * (rhs.y as i128) + (self.z as i128)
            * (rhs.z as i128)
    }

    /// The cross product.
    pub fn cross(self, rhs: Vector3d) -> (r: Vector3d)
        requires
            bounded(self@, CROSS_LIMIT as int),
            bounded(rhs@, CROSS_LIMIT as int),
        ensures
            r@ == cross3(self@, rhs@),
    {
        proof {
            lemma_mul_cross(self.x as int, rhs.y as int);
            lemma_mul_cross(self.x as int, rhs.z as int);
            lemma_mul_cross(self.y as int, rhs.x as int);
            lemma_mul_cross(self.y as int, rhs.z as int);
            lemma_mul_cross(self.z as int, rhs.x as int);
            lemma_mul_cross(self.z as int, rhs.y as int);
        }
        Vector3d {
            x: self.y * rhs.z - self.z * rhs.y,
            y: self.z * rhs.x - self.x * rhs.z,
            z: self.x * rhs.y - self.y * rhs.x,
        }
    }

    /// The squared length.
    pub fn length_squared(&self) -> (r: i128)
        requires
            bounded(self@, WIDE_LIMIT as int),
        ensures
            r == len2(self@),
            r >= 0,
    {
        proof {
            assert(len2(self@) >= 0) by (nonlinear_arith)
                requires
                    len2(self@) == self.x * self.x + self.y * self.y + self.z * self.z,
            ;
        }
        self.dot(*self)
    }

    /// The length, rounded down to an integer.
    pub fn length(&self) -> (r: i128)
        requires
            bounded(self@, WIDE_LIMIT as int),
        ensures
            r == isqrt(len2(self@)),
            is_floor_sqrt(len2(self@), r as int),
    {
        let l2 = self.length_squared();
        let r = root_i128(l2);
        proof {
            if l2 == 0 {
                assert(is_floor_sqrt(0, 0));
                crate::scalar::lemma_isqrt_from_witness(0, 0);
            }
        }
        r
    }

    /// Componentwise sum.
    pub fn add(self, rhs: Vector3d) -> (r: Vector3d)
        requires
            bounded(self@, WIDE_LIMIT as int),
            bounded(rhs@, WIDE_LIMIT as int),
        ensures
            r@ == add3(self@, rhs@),
    {
        Vector3d { x: self.x + rhs.x, y: self.y + rhs.y, z: self.z + rhs.z }
    }

    /// Componentwise difference.
    pub fn sub(self, rhs: Vector3d) -> (r: Vector3d)
        requires
            bounded(self@, WIDE_LIMIT as int),
            bounded(rhs@, WIDE_LIMIT as int),
        ensures
            r@ == sub3(self@, rhs@),
    {
        Vector3d { x: self.x - rhs.x, y: self.y - rhs.y, z: self.z - rhs.z }
    }

    /// The opposite vector.
    pub fn neg(self) -> (r: Vector3d)
        requires
            bounded(self@, WIDE_LIMIT as int),
        ensures
            r@ == neg3(self@),
    {
        Vector3d { x: -self.x, y: -self.y, z: -self.z }
    }

    /// Each component multiplied by the fixed-point factor `k`, rounded
    /// toward zero.
    pub fn scale(self, k: i64) -> (r: Vector3d)
        requires
            bounded(self@, NORM_LIMIT as int),
            -CROSS_LIMIT <= k <= CROSS_LIMIT,
        ensures
            r@ == fscale3(self@, k as int),
    {
        proof {
            lemma_scale_fits(self.x as int, k as int);
            lemma_scale_fits(self.y as int, k as int);
            lemma_scale_fits(self.z as int, k as int);
        }
        let x = div_trunc((self.x as i128) * (k as i128), ONE as i128);
        let y = div_trunc((self.y as i128) * (k as i128), ONE as i128);
        let z = div_trunc((self.z as i128) * (k as i128), ONE as i128);
        Vector3d { x: x as i64, y: y as i64, z: z as i64 }
    }

    /// Each component divided by the positive integer `k`, rounded toward
    /// zero.
    pub fn div(self, k: i64) -> (r: Vector3d)
        requires
            k > 0,
        ensures
            r@ == (tdiv(self.x as int, k as int), tdiv(self.y as int, k as int), tdiv(
                self.z as int,
                k as int,
            )),
    {
        proof {
            lemma_tdiv_bound(self.x as int, k as int, i64::MAX as int + 1);
            lemma_tdiv_bound(self.y as int, k as int, i64::MAX as int + 1);
            lemma_tdiv_bound(self.z as int, k as int, i64::MAX as int + 1);
            assert((i64::MAX as int + 1) * k >= i64::MAX as int + 1);
        }
        let x = div_trunc(self.x as i128, k as i128);
        let y = div_trunc(self.y as i128, k as i128);
        let z = div_trunc(self.z as i128, k as i128);
        Vector3d { x: x as i64, y: y as i64, z: z as i64 }
    }

    /// The unit vector along `self` (its length is `ONE`, up to rounding),
    /// or `None` for the zero vector, which has no direction.
    pub fn normalize(&self) -> (r: Option<Vector3d>)
        requires
            bounded(self@, NORM_LIMIT as int),
        ensures
            r is None <==> is_zero3(self@),
            r matches Some(u) ==> u@ == normalize3(self@) && bounded(u@, ONE as int),
            r matches Some(u) ==> (ONE as int) * (ONE as int) - 6 * (ONE as int) - 2 <= len2(u@)
                <= (ONE as int) * (ONE as int) + 3 * (ONE as int),
    {
        if self.x == 0 && self.y == 0 && self.z == 0 {
            return None;
        }
        let s: i128 = 4294967296;
        let n2 = self.length_squared();
        proof {
            assert(s == (ONE as int) * (ONE as int));
            assert(n2 > 0) by (nonlinear_arith)
                requires
                    !(self.x == 0 && self.y == 0 && self.z == 0),
                    n2 == self.x * self.x + self.y * self.y + self.z * self.z,
            ;
            assert(n2 * s > 0) by (nonlinear_arith)
                requires
                    n2 > 0,
                    s > 0,
            ;
            assert(n2 * s <= 3 * (NORM_LIMIT as int) * (NORM_LIMIT as int) * s) by (nonlinear_arith)
                requires
                    bounded(self@, NORM_LIMIT as int),
                    n2 == self.x * self.x + self.y * self.y + self.z * self.z,
                    s > 0,
            ;
        }
        let l = root_i128(n2 * s);
        proof {
            crate::scalar::lemma_isqrt_from_witness(n2 * s, l as int);
            lemma_component_le_len(self.x as int, self.y as int, self.z as int, n2 as int, l as int);
            lemma_component_le_len(self.y as int, self.x as int, self.z as int, n2 as int, l as int);
            lemma_component_le_len(self.z as int, self.x as int, self.y as int, n2 as int, l as int);
        }
        proof {
            lemma_normalize_unit_length(self@);
        }
        let x = div_trunc((self.x as i128) * s, l);
        let y = div_trunc((self.y as i128) * s, l);
        let z = div_trunc((self.z as i128) * s, l);
        Some(Vector3d { x: x as i64, y: y as i64, z: z as i64 })
    }
}

proof fn lemma_mul_wide(a: int, b: int)
    requires
        -(WIDE_LIMIT as int) <= a <= WIDE_LIMIT as int,
        -(WIDE_LIMIT as int) <= b <= WIDE_LIMIT as int,
    ensures
        -(WIDE_LIMIT as int) * (WIDE_LIMIT as int) <= a * b <= (WIDE_LIMIT as int) * (WIDE_LIMIT as int),
{
    assert(-(WIDE_LIMIT as int) * (WIDE_LIMIT as int) <= a * b <= (WIDE_LIMIT as int) * (WIDE_LIMIT as int)) by (nonlinear_arith)
        requires
            -(WIDE_LIMIT as int) <= a <= WIDE_LIMIT as int,
            -(WIDE_LIMIT as int) <= b <= WIDE_LIMIT as int,
    ;
}

proof fn lemma_mul_cross(a: int, b: int)
    requires
        -(CROSS_LIMIT as int) <= a <= CROSS_LIMIT as int,
        -(CROSS_LIMIT as int) <= b <= CROSS_LIMIT as int,
    ensures
        -(CROSS_LIMIT as int) * (CROSS_LIMIT as int) <= a * b <= (CROSS_LIMIT as int) * (CROSS_LIMIT as int),
{
    assert(-(CROSS_LIMIT as int) * (CROSS_LIMIT as int) <= a * b <= (CROSS_LIMIT as int) * (CROSS_LIMIT as int)) by (nonlinear_arith)
        requires
            -(CROSS_LIMIT as int) <= a <= CROSS_LIMIT as int,
            -(CROSS_LIMIT as int) <= b <= CROSS_LIMIT as int,
    ;
}

proof fn lemma_scale_fits(a: int, k: int)
    requires
        -(NORM_LIMIT as int) <= a <= NORM_LIMIT as int,
        -(CROSS_LIMIT as int) <= k <= CROSS_LIMIT as int,
    ensures
        -(NORM_LIMIT as int) * (CROSS_LIMIT as int) <= a * k <= (NORM_LIMIT as int) * (CROSS_LIMIT as int),
        -(i64::MAX as int) <= fmul(a, k) <= i64::MAX as int,
{
    assert(-(NORM_LIMIT as int) * (CROSS_LIMIT as int) <= a * k <= (NORM_LIMIT as int) * (CROSS_LIMIT as int)) by (nonlinear_arith)
        requires
            -(NORM_LIMIT as int) <= a <= NORM_LIMIT as int,
            -(CROSS_LIMIT as int) <= k <= CROSS_LIMIT as int,
    ;
    lemma_tdiv_bound(a * k, ONE as int, (NORM_LIMIT as int) * (CROSS_LIMIT as int) / (ONE as int));
}

/// A component of a non-zero vector, scaled by `ONE`, is at most the scaled
/// length, so the normalized component stays within `[-ONE, ONE]`.
proof fn lemma_component_le_len(a: int, b: int, c: int, n2: int, l: int)
    requires
        n2 == a * a + b * b + c * c,
        n2 > 0,
        is_floor_sqrt(n2 * (ONE as int) * (ONE as int), l),
    ensures
        l > 0,
        -(ONE as int) <= tdiv(a * ((ONE as int) * (ONE as int)), l) <= ONE as int,
{
    let s = ONE as int;
    assert(a * a * s * s <= n2 * s * s) by (nonlinear_arith)
        requires
            n2 == a * a + b * b + c * c,
            s > 0,
    ;
    assert(n2 * s * s == n2 * (s * s)) by (nonlinear_arith);
    assert(l >= 1) by (nonlinear_arith)
        requires
            n2 >= 1,
            s >= 1,
            n2 * s * s < (l + 1) * (l + 1),
            l >= 0,
    ;
    let aa = if a >= 0 { a } else { -a };
    assert(aa * aa == a * a) by (nonlinear_arith)
        requires
            aa == a || aa == -a,
    ;
    assert(aa * s <= l) by (nonlinear_arith)
        requires
            aa >= 0,
            aa * aa == a * a,
            a * a * s * s <= n2 * s * s,
            n2 * s * s < (l + 1) * (l + 1),
            l >= 0,
            s > 0,
    ;
    assert(-s * l <= a * (s * s) <= s * l) by (nonlinear_arith)
        requires
            aa * s <= l,
            aa == a || aa == -a,
            aa >= 0,
            s > 0,
    ;
    lemma_tdiv_bound(a * (s * s), l, s);
}


/// Normalizing a non-zero vector gives length one, up to fixed-point
/// rounding: the squared length lies within a few units of `ONE²`, so the
/// length is within about three units of `1 / ONE` of `ONE`.
pub proof fn lemma_normalize_unit_length(a: V3)
    requires
        !is_zero3(a),
    ensures
        (ONE as int) * (ONE as int) - 6 * (ONE as int) - 2 <= len2(normalize3(a)),
        len2(normalize3(a)) <= (ONE as int) * (ONE as int) + 3 * (ONE as int),
{
    let s = ONE as int;
    let s2 = s * s;
    let n2 = len2(a);
    assert(n2 > 0) by (nonlinear_arith)
        requires
            !(a.0 == 0 && a.1 == 0 && a.2 == 0),
            n2 == a.0 * a.0 + a.1 * a.1 + a.2 * a.2,
    ;
    let x = n2 * s * s;
    assert(x >= s2) by (nonlinear_arith)
        requires
            n2 >= 1,
            x == n2 * s * s,
            s2 == s * s,
            s > 0,
    ;
    crate::scalar::lemma_isqrt_exists(x);
    let l = scaled_len(a);
    assert(l >= s) by (nonlinear_arith)
        requires
            x >= s * s,
            x < (l + 1) * (l + 1),
            l >= 0,
            s > 0,
    ;
    let (c0, q0) = lemma_quotient_square(a.0, s2, l);
    let (c1, q1) = lemma_quotient_square(a.1, s2, l);
    let (c2, q2) = lemma_quotient_square(a.2, s2, l);
    lemma_component_le_len(a.0, a.1, a.2, n2, l);
    lemma_component_le_len(a.1, a.0, a.2, n2, l);
    lemma_component_le_len(a.2, a.0, a.1, n2, l);
    let u = normalize3(a);
    assert(u == (c0, c1, c2));
    let sum = c0 * c0 + c1 * c1 + c2 * c2;
    let kk = s2 * s2;
    assert(a.0 * s2 * (a.0 * s2) == (a.0 * a.0) * kk) by (nonlinear_arith)
        requires
            kk == s2 * s2,
    ;
    assert(a.1 * s2 * (a.1 * s2) == (a.1 * a.1) * kk) by (nonlinear_arith)
        requires
            kk == s2 * s2,
    ;
    assert(a.2 * s2 * (a.2 * s2) == (a.2 * a.2) * kk) by (nonlinear_arith)
        requires
            kk == s2 * s2,
    ;
    assert(x * s2 == n2 * kk) by (nonlinear_arith)
        requires
            x == n2 * s * s,
            s2 == s * s,
            kk == s2 * s2,
    ;
    assert((a.0 * a.0) * kk + (a.1 * a.1) * kk + (a.2 * a.2) * kk == n2 * kk) by (nonlinear_arith)
        requires
            n2 == a.0 * a.0 + a.1 * a.1 + a.2 * a.2,
    ;
    assert(a.0 * s2 * (a.0 * s2) + a.1 * s2 * (a.1 * s2) + a.2 * s2 * (a.2 * s2) == x * s2);
    assert(sum * (l * l) <= x * s2) by (nonlinear_arith)
        requires
            q0 * (l * l) <= a.0 * s2 * (a.0 * s2),
            q1 * (l * l) <= a.1 * s2 * (a.1 * s2),
            q2 * (l * l) <= a.2 * s2 * (a.2 * s2),
            sum == q0 + q1 + q2,
            a.0 * s2 * (a.0 * s2) + a.1 * s2 * (a.1 * s2) + a.2 * s2 * (a.2 * s2) == x * s2,
    ;
    assert(sum <= s2 + 3 * s) by (nonlinear_arith)
        requires
            sum * (l * l) <= x * s2,
            x < (l + 1) * (l + 1),
            l >= s,
            s >= 1,
            s2 == s * s,
    ;
    let c0a = if c0 >= 0 { c0 } else { -c0 };
    let c1a = if c1 >= 0 { c1 } else { -c1 };
    let c2a = if c2 >= 0 { c2 } else { -c2 };
    assert(((c0a + 1) * (c0a + 1) + (c1a + 1) * (c1a + 1) + (c2a + 1) * (c2a + 1)) * (l * l) > x * s2)
        by (nonlinear_arith)
        requires
            (c0a + 1) * (c0a + 1) * (l * l) > a.0 * s2 * (a.0 * s2),
            (c1a + 1) * (c1a + 1) * (l * l) > a.1 * s2 * (a.1 * s2),
            (c2a + 1) * (c2a + 1) * (l * l) > a.2 * s2 * (a.2 * s2),
            a.0 * s2 * (a.0 * s2) + a.1 * s2 * (a.1 * s2) + a.2 * s2 * (a.2 * s2) == x * s2,
    ;
    assert((c0a + 1) * (c0a + 1) + (c1a + 1) * (c1a + 1) + (c2a + 1) * (c2a + 1) > s2) by (nonlinear_arith)
        requires
            ((c0a + 1) * (c0a + 1) + (c1a + 1) * (c1a + 1) + (c2a + 1) * (c2a + 1)) * (l * l) > x * s2,
            l * l <= x,
            s2 > 0,
            l > 0,
    ;
    assert(sum >= s2 - 6 * s - 2) by (nonlinear_arith)
        requires
            (c0a + 1) * (c0a + 1) + (c1a + 1) * (c1a + 1) + (c2a + 1) * (c2a + 1) > s2,
            sum == c0 * c0 + c1 * c1 + c2 * c2,
            c0a * c0a == c0 * c0,
            c1a * c1a == c1 * c1,
            c2a * c2a == c2 * c2,
            0 <= c0a <= s,
            0 <= c1a <= s,
            0 <= c2a <= s,
    ;
}

/// The truncating quotient `c = tdiv(a * s2, l)` squared, against the
/// square of the exact one: `c² l² ≤ (a s2)² < (|c| + 1)² l²`.
proof fn lemma_quotient_square(a: int, s2: int, l: int) -> (r: (int, int))
    requires
        s2 > 0,
        l > 0,
    ensures
        r.0 == tdiv(a * s2, l),
        r.1 == r.0 * r.0,
        r.1 * (l * l) <= a * s2 * (a * s2),
        (if r.0 >= 0 { r.0 } else { -r.0 }) * (if r.0 >= 0 { r.0 } else { -r.0 }) == r.1,
        ((if r.0 >= 0 { r.0 } else { -r.0 }) + 1) * ((if r.0 >= 0 { r.0 } else { -r.0 }) + 1) * (l * l)
            > a * s2 * (a * s2),
{
    let c = tdiv(a * s2, l);
    let aa = if a >= 0 { a } else { -a };
    let x = aa * s2;
    assert(x >= 0) by (nonlinear_arith)
        requires
            aa >= 0,
            s2 > 0,
            x == aa * s2,
    ;
    vstd::arithmetic::div_mod::lemma_fundamental_div_mod(x, l);
    vstd::arithmetic::div_mod::lemma_mod_pos_bound(x, l);
    let q = x / l;
    assert(q >= 0) by (nonlinear_arith)
        requires
            x >= 0,
            l > 0,
            q == x / l,
    ;
    assert(a * s2 * (a * s2) == x * x) by (nonlinear_arith)
        requires
            aa == a || aa == -a,
            x == aa * s2,
    ;
    if a >= 0 {
        assert(c == q);
    } else {
        assert(-(a * s2) == x) by (nonlinear_arith)
            requires
                aa == -a,
                x == aa * s2,
        ;
        assert(a * s2 < 0 || a * s2 == 0) by (nonlinear_arith)
            requires
                a < 0,
                s2 > 0,
        ;
        assert(a * s2 < 0) by (nonlinear_arith)
            requires
                a < 0,
                s2 > 0,
        ;
        assert(c == -q);
    }
    let ca = if c >= 0 { c } else { -c };
    assert(ca == q);
    assert(l * q == q * l && (q + 1) * l == q * l + l) by (nonlinear_arith);
    assert(q * l <= x < (q + 1) * l);
    assert(q * q * (l * l) <= x * x) by (nonlinear_arith)
        requires
            0 <= q * l <= x,
            q >= 0,
            l > 0,
    ;
    assert((q + 1) * (q + 1) * (l * l) > x * x) by (nonlinear_arith)
        requires
            0 <= x < (q + 1) * l,
            q >= 0,
            l > 0,
    ;
    assert(c * c == q * q) by (nonlinear_arith)
        requires
            c == q || c == -q,
    ;
    (c, c * c)
}

} // verus!
