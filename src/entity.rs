//! Geometric primitives: what a ray hits, the normal there, and the
//! material.
use vstd::prelude::*;
use crate::scalar::{ONE, tdiv, isqrt, root, root_i128, div_trunc, lemma_tdiv_bound, lemma_root_bound};
use crate::vector3d::{
    Vector3d, V3, bounded, add3, sub3, dot3, len2, is_zero3, normalize3, cross3, fscale3, NORM_LIMIT,
};
use crate::material::Material;

verus! {

/// Largest coordinate magnitude of a scene's primitives and lights
/// (fixed-point): 65536 units.
pub const COORD_LIMIT: i64 = 4294967296;

/// Largest coordinate magnitude of a ray origin (fixed-point).
pub const ORIGIN_LIMIT: i64 = 8589934592;

/// Bound on the magnitude of an intersection distance (fixed-point).
pub const DIST_LIMIT: i64 = 274877906944;

/// How far a distance may be from the radius and still count as equal to
/// it (fixed-point, 1/4096 of a unit).
pub const RADIUS_TOLERANCE: i64 = 16;

/// An optional machine integer read as an optional mathematical integer.
pub open spec fn opt_int(o: Option<i64>) -> Option<int> {
    match o {
        Some(t) => Some(t as int),
        None => None,
    }
}

/// Where, along the unit direction of `d`, the ray from `o` meets the sphere
/// (`sphere_solution`), with a distance that rounding took below zero read as
/// zero.
pub open spec fn sphere_hit(c: V3, r: int, o: V3, d: V3) -> Option<int> {
    match sphere_solution(c, r, o, d) {
        Some(t) => Some(if t < 0 { 0 } else { t }),
        None => None,
    }
}

/// Where, along the unit direction of `d`, the ray from `o` meets the sphere
/// of center `c` and radius `r`: the nearer surface ahead of the origin, the
/// exit point when the origin is inside or on the surface and the ray points
/// inward, `0` when the origin is on the surface (within the tolerance) and
/// the ray points away; `None` when the ray misses or `d` is zero.
pub open spec fn sphere_solution(c: V3, r: int, o: V3, d: V3) -> Option<int> {
    if is_zero3(d) {
        None
    } else {
        let l = sub3(c, o);
        let pl = tdiv(dot3(l, normalize3(d)), ONE as int);
        let l2 = len2(l);
        let eps = RADIUS_TOLERANCE as int;
        if pl < 0 {
            let ln = isqrt(l2);
            if ln > r + eps {
                None
            } else if ln >= r - eps {
                Some(0)
            } else {
                Some(pl + root(r * r - (l2 - pl * pl)))
            }
        } else {
            let d2 = len2(sub3(l, fscale3(normalize3(d), pl)));
            let dd = root(d2);
            if dd > r + eps {
                None
            } else if dd >= r - eps {
                Some(pl)
            } else {
                let off = root(r * r - d2);
                if l2 <= r * r {
                    Some(pl + off)
                } else {
                    Some(pl - off)
                }
            }
        }
    }
}

/// The point at distance `t` from `o` along the unit direction of `d`.
pub open spec fn ray_point(o: V3, d: V3, t: int) -> V3 {
    add3(o, fscale3(normalize3(d), t))
}

/// A ball.
#[derive(Debug, Clone, Copy, PartialEq, Eq, Structural)]
pub struct Sphere {
    pub center: Vector3d,
    pub radius: i64,
    pub material: Material,
}

impl Sphere {
    /// A positive radius, a ball that lies inside the scene's bounding cube,
    /// and a well-formed material.
    pub open spec fn wf(&self) -> bool {
        &&& bounded(self.center@, COORD_LIMIT as int)
        &&& 0 < self.radius <= COORD_LIMIT
        &&& bounded(self.center@, COORD_LIMIT - self.radius)
        &&& self.material.wf()
    }

    /// A sphere, or `None` when the radius is not positive or a parameter
    /// lies outside the accepted ranges.
    pub fn new(center: Vector3d, radius: i64, material: Material) -> (r: Option<Sphere>)
        ensures
            r is Some <==> (Sphere { center, radius, material }).wf(),
            r matches Some(s) ==> s == (Sphere { center, radius, material }),
    {
        let s = Sphere { center, radius, material };
        if 0 < radius && radius <= COORD_LIMIT {
            let m = COORD_LIMIT - radius;
            if -m <= center.x && center.x <= m && -m <= center.y && center.y <= m && -m <= center.z
                && center.z <= m && material.is_valid() {
                Some(s)
            } else {
                None
            }
        } else {
            None
        }
    }

    /// The distance along the unit direction of `direction` at which the
    /// ray from `origin` meets the sphere; never negative.
    pub fn intersect(&self, origin: Vector3d, direction: Vector3d) -> (r: Option<i64>)
        requires
            self.wf(),
            bounded(origin@, ORIGIN_LIMIT as int),
            bounded(direction@, NORM_LIMIT as int),
        ensures
            opt_int(r) == sphere_hit(self.center@, self.radius as int, origin@, direction@),
            r matches Some(t) ==> 0 <= t <= DIST_LIMIT,
    {
        match self.solve(origin, direction) {
            Some(t) => Some(if t < 0 { 0 } else { t }),
            None => None,
        }
    }

    fn solve(&self, origin: Vector3d, direction: Vector3d) -> (r: Option<i64>)
        requires
            self.wf(),
            bounded(origin@, ORIGIN_LIMIT as int),
            bounded(direction@, NORM_LIMIT as int),
        ensures
            opt_int(r) == sphere_solution(self.center@, self.radius as int, origin@, direction@),
            r matches Some(t) ==> -DIST_LIMIT <= t <= DIST_LIMIT,
    {
        let dir = match direction.normalize() {
            Some(u) => u,
            None => return None,
        };
        let l = self.center.sub(origin);
        let dl = l.dot(dir);
        let r = self.radius as i128;
        let eps = RADIUS_TOLERANCE as i128;
        proof {
            lemma_dot_bound(l@, dir@, 3 * (COORD_LIMIT as int), ONE as int);
            lemma_tdiv_bound(dl as int, ONE as int, 3 * 3 * (COORD_LIMIT as int));
            lemma_dot_bound(l@, l@, 3 * (COORD_LIMIT as int), 3 * (COORD_LIMIT as int));
        }
        let pl = div_trunc(dl, ONE as i128);
        let l2 = l.length_squared();
        proof {
            assert(0 <= r * r <= (COORD_LIMIT as int) * (COORD_LIMIT as int)) by (nonlinear_arith)
                requires
                    0 < r <= COORD_LIMIT,
            ;
            assert(0 <= pl * pl <= 81 * (COORD_LIMIT as int) * (COORD_LIMIT as int)) by (nonlinear_arith)
                requires
                    -9 * (COORD_LIMIT as int) <= pl <= 9 * (COORD_LIMIT as int),
            ;
        }
        if pl < 0 {
            let ln = root_i128(l2);
            proof {
                if l2 > 0 {
                    crate::scalar::lemma_isqrt_from_witness(l2 as int, ln as int);
                } else {
                    assert(crate::scalar::is_floor_sqrt(0, 0));
                    crate::scalar::lemma_isqrt_from_witness(0, 0);
                }
            }
            if ln > r + eps {
                None
            } else if ln >= r - eps {
                Some(0)
            } else {
                let s = root_i128(r * r - (l2 - pl * pl));
                proof {
                    lemma_root_bound(r * r - (l2 - pl * pl), s as int, 16 * (COORD_LIMIT as int));
                }
                Some((pl + s) as i64)
            }
        } else {
            proof {
                crate::scalar::lemma_mul_bound(dir.x as int, pl as int, ONE as int, 9 * (COORD_LIMIT as int));
                crate::scalar::lemma_mul_bound(dir.y as int, pl as int, ONE as int, 9 * (COORD_LIMIT as int));
                crate::scalar::lemma_mul_bound(dir.z as int, pl as int, ONE as int, 9 * (COORD_LIMIT as int));
                lemma_tdiv_bound(dir.x * pl, ONE as int, 9 * (COORD_LIMIT as int));
                lemma_tdiv_bound(dir.y * pl, ONE as int, 9 * (COORD_LIMIT as int));
                lemma_tdiv_bound(dir.z * pl, ONE as int, 9 * (COORD_LIMIT as int));
            }
            let wx = (l.x as i128) - div_trunc((dir.x as i128) * pl, ONE as i128);
            let wy = (l.y as i128) - div_trunc((dir.y as i128) * pl, ONE as i128);
            let wz = (l.z as i128) - div_trunc((dir.z as i128) * pl, ONE as i128);
            proof {
                let w: V3 = (wx as int, wy as int, wz as int);
                assert(w == sub3(l@, fscale3(dir@, pl as int)));
                lemma_dot_bound(w, w, 12 * (COORD_LIMIT as int), 12 * (COORD_LIMIT as int));
                crate::scalar::lemma_mul_bound(wx as int, wx as int, 12 * (COORD_LIMIT as int), 12 * (COORD_LIMIT as int));
                crate::scalar::lemma_mul_bound(wy as int, wy as int, 12 * (COORD_LIMIT as int), 12 * (COORD_LIMIT as int));
                crate::scalar::lemma_mul_bound(wz as int, wz as int, 12 * (COORD_LIMIT as int), 12 * (COORD_LIMIT as int));
                assert(wx * wx + wy * wy + wz * wz >= 0) by (nonlinear_arith);
            }
            let d2 = wx * wx + wy * wy + wz * wz;
            let dd = root_i128(d2);
            if dd > r + eps {
                None
            } else if dd >= r - eps {
                Some(pl as i64)
            } else {
                let off = root_i128(r * r - d2);
                proof {
                    lemma_root_bound(r * r - d2, off as int, 16 * (COORD_LIMIT as int));
                }
                if l2 <= r * r {
                    Some((pl + off) as i64)
                } else {
                    Some((pl - off) as i64)
                }
            }
        }
    }

    /// The outward unit normal at `point`, or `None` at the center.
    pub fn norm(&self, point: &Vector3d) -> (r: Option<Vector3d>)
        requires
            self.wf(),
            bounded(point@, ORIGIN_LIMIT as int),
        ensures
            r is None <==> is_zero3(sub3(point@, self.center@)),
            r matches Some(u) ==> u@ == normalize3(sub3(point@, self.center@)) && bounded(
                u@,
                ONE as int,
            ),
            r matches Some(u) ==> (ONE as int) * (ONE as int) - 6 * (ONE as int) - 2 <= len2(u@)
                <= (ONE as int) * (ONE as int) + 3 * (ONE as int),
    {
        point.sub(self.center).normalize()
    }

    pub fn material(&self) -> (m: &Material)
        ensures
            *m == self.material,
    {
        &self.material
    }
}

/// The dot product of vectors bounded by `a` and `b` is bounded by `3ab`.
pub proof fn lemma_dot_bound(u: V3, v: V3, a: int, b: int)
    requires
        bounded(u, a),
        bounded(v, b),
    ensures
        -3 * a * b <= dot3(u, v) <= 3 * (a * b),
{
    assert(-a * b <= u.0 * v.0 <= a * b) by (nonlinear_arith)
        requires
            -a <= u.0 <= a,
            -b <= v.0 <= b,
    ;
    assert(-a * b <= u.1 * v.1 <= a * b) by (nonlinear_arith)
        requires
            -a <= u.1 <= a,
            -b <= v.1 <= b,
    ;
    assert(-a * b <= u.2 * v.2 <= a * b) by (nonlinear_arith)
        requires
            -a <= u.2 <= a,
            -b <= v.2 <= b,
    ;
    assert(3 * a * b == 3 * (a * b)) by (nonlinear_arith);
    assert(-3 * a * b == -3 * (a * b)) by (nonlinear_arith);
    assert(-a * b == -(a * b)) by (nonlinear_arith);
}


/// Where the ray from `o` along `d` meets the triangle `(a, b, c)`
/// (Möller–Trumbore, in exact integer arithmetic): the distance along the
/// unit direction of `d`, when the ray crosses the triangle's inside or
/// edges ahead of the origin and within `DIST_LIMIT`; `None` when it misses,
/// runs parallel to the plane, or `d` is zero.
pub open spec fn triangle_hit(a: V3, b: V3, c: V3, o: V3, d: V3) -> Option<int> {
    if is_zero3(d) {
        None
    } else {
        let dh = normalize3(d);
        let e1 = sub3(b, a);
        let e2 = sub3(c, a);
        let p = cross3(dh, e2);
        let det0 = dot3(e1, p);
        if det0 == 0 {
            None
        } else {
            let tv = sub3(o, a);
            let q = cross3(tv, e1);
            let flip = det0 < 0;
            let det = if flip { -det0 } else { det0 };
            let u = if flip { -dot3(tv, p) } else { dot3(tv, p) };
            let v = if flip { -dot3(dh, q) } else { dot3(dh, q) };
            let tn = if flip { -dot3(e2, q) } else { dot3(e2, q) };
            if u < 0 || u > det || v < 0 || u + v > det {
                None
            } else {
                let t = tdiv(tn * (ONE as int), det);
                if t < 0 || t > DIST_LIMIT {
                    None
                } else {
                    Some(t)
                }
            }
        }
    }
}

/// The factor by which a wide cross product is scaled down before it is
/// normalized.
pub const SHRINK: i64 = 2097152;

/// `v` itself when `normalize` accepts it, else `v` divided by `SHRINK`
/// (toward zero), which keeps its direction up to rounding.
pub open spec fn shrink3(v: V3) -> V3 {
    if bounded(v, NORM_LIMIT as int) {
        v
    } else {
        (tdiv(v.0, SHRINK as int), tdiv(v.1, SHRINK as int), tdiv(v.2, SHRINK as int))
    }
}

/// The unit normal of the triangle `(a, b, c)`: the cross product of its
/// edges `b - a` and `c - b`, normalized; `None` exactly when that cross
/// product is zero (a degenerate triangle).
pub open spec fn triangle_normal(a: V3, b: V3, c: V3) -> Option<V3> {
    let n = cross3(sub3(b, a), sub3(c, b));
    if is_zero3(n) {
        None
    } else {
        Some(normalize3(shrink3(n)))
    }
}

/// A flat triangle.
#[derive(Debug, Clone, Copy)]
pub struct Triangle {
    pub vertices: [Vector3d; 3],
    pub material: Material,
}

impl Triangle {
    /// Vertices within the scene's bounds and a well-formed material.
    pub open spec fn wf(&self) -> bool {
        &&& bounded(self.vertices[0]@, COORD_LIMIT as int)
        &&& bounded(self.vertices[1]@, COORD_LIMIT as int)
        &&& bounded(self.vertices[2]@, COORD_LIMIT as int)
        &&& self.material.wf()
    }

    pub fn new(vertices: [Vector3d; 3], material: Material) -> (t: Triangle)
        ensures
            t == (Triangle { vertices, material }),
    {
        Triangle { vertices, material }
    }

    /// The unit normal of the triangle's plane (the same at every point).
    pub fn norm(&self, point: &Vector3d) -> (r: Option<Vector3d>)
        requires
            self.wf(),
        ensures
            opt_v3(r) == triangle_normal(self.vertices[0]@, self.vertices[1]@, self.vertices[2]@),
            r matches Some(u) ==> bounded(u@, ONE as int),
            r matches Some(u) ==> (ONE as int) * (ONE as int) - 6 * (ONE as int) - 2 <= len2(u@)
                <= (ONE as int) * (ONE as int) + 3 * (ONE as int),
    {
        let e1 = self.vertices[1].sub(self.vertices[0]);
        let e2 = self.vertices[2].sub(self.vertices[1]);
        let n = wide_cross(
            Ghost(e1@),
            Ghost(e2@),
            e1.x as i128,
            e1.y as i128,
            e1.z as i128,
            e2.x as i128,
            e2.y as i128,
            e2.z as i128,
            Ghost(8589934592int),
            Ghost(8589934592int),
        );
        let (x, y, z) = (n.1, n.2, n.3);
        if x == 0 && y == 0 && z == 0 {
            return None;
        }
        let lim = NORM_LIMIT as i128;
        let v = if -lim <= x && x <= lim && -lim <= y && y <= lim && -lim <= z && z <= lim {
            Vector3d { x: x as i64, y: y as i64, z: z as i64 }
        } else {
            let k = SHRINK as i128;
            proof {
                lemma_shrink(x as int);
                lemma_shrink(y as int);
                lemma_shrink(z as int);
            }
            let sx = div_trunc(x, k);
            let sy = div_trunc(y, k);
            let sz = div_trunc(z, k);
            Vector3d { x: sx as i64, y: sy as i64, z: sz as i64 }
        };
        v.normalize()
    }

    /// The distance along the unit direction of `direction` at which the
    /// ray from `origin` meets the triangle.
    pub fn intersect(&self, origin: Vector3d, direction: Vector3d) -> (r: Option<i64>)
        requires
            self.wf(),
            bounded(origin@, ORIGIN_LIMIT as int),
            bounded(direction@, NORM_LIMIT as int),
        ensures
            opt_int(r) == triangle_hit(
                self.vertices[0]@,
                self.vertices[1]@,
                self.vertices[2]@,
                origin@,
                direction@,
            ),
            r matches Some(t) ==> 0 <= t <= DIST_LIMIT,
    {
        let dh = match direction.normalize() {
            Some(u) => u,
            None => return None,
        };
        let a = self.vertices[0];
        let e1 = self.vertices[1].sub(a);
        let e2 = self.vertices[2].sub(a);
        let tv = origin.sub(a);
        let p = wide_cross(
            Ghost(dh@),
            Ghost(e2@),
            dh.x as i128,
            dh.y as i128,
            dh.z as i128,
            e2.x as i128,
            e2.y as i128,
            e2.z as i128,
            Ghost(ONE as int),
            Ghost((8589934592) as int),
        );
        let det0 = wide_dot(
            Ghost(e1@),
            Ghost(p.0@),
            e1.x as i128,
            e1.y as i128,
            e1.z as i128,
            p.1,
            p.2,
            p.3,
            Ghost((8589934592) as int),
            Ghost((2 * 562949953421312) as int),
        );
        if det0 == 0 {
            return None;
        }
        let q = wide_cross(
            Ghost(tv@),
            Ghost(e1@),
            tv.x as i128,
            tv.y as i128,
            tv.z as i128,
            e1.x as i128,
            e1.y as i128,
            e1.z as i128,
            Ghost((17179869184) as int),
            Ghost((8589934592) as int),
        );
        let u0 = wide_dot(
            Ghost(tv@),
            Ghost(p.0@),
            tv.x as i128,
            tv.y as i128,
            tv.z as i128,
            p.1,
            p.2,
            p.3,
            Ghost((17179869184) as int),
            Ghost((2 * 562949953421312) as int),
        );
        let v0 = wide_dot(
            Ghost(dh@),
            Ghost(q.0@),
            dh.x as i128,
            dh.y as i128,
            dh.z as i128,
            q.1,
            q.2,
            q.3,
            Ghost(ONE as int),
            Ghost((2 * 147573952589676412928) as int),
        );
        let t0 = wide_dot(
            Ghost(e2@),
            Ghost(q.0@),
            e2.x as i128,
            e2.y as i128,
            e2.z as i128,
            q.1,
            q.2,
            q.3,
            Ghost((8589934592) as int),
            Ghost((2 * 147573952589676412928) as int),
        );
        let (det, u, v, tn) = if det0 < 0 {
            (-det0, -u0, -v0, -t0)
        } else {
            (det0, u0, v0, t0)
        };
        if u < 0 || u > det || v < 0 || u + v > det {
            return None;
        }
        proof {
            let m: int = (8589934592 * (2 * 147573952589676412928)) as int;
            assert(m == 2535301200456458802993406410752);
            assert(-(3 * m) <= tn <= 3 * m);
            assert(-(3 * m) * 65536 <= tn * 65536 <= 3 * m * 65536) by (nonlinear_arith)
                requires
                    -(3 * m) <= tn <= 3 * m,
            ;
        }
        let t = div_trunc(tn * (ONE as i128), det);
        if t < 0 || t > DIST_LIMIT as i128 {
            None
        } else {
            Some(t as i64)
        }
    }

    pub fn material(&self) -> (m: &Material)
        ensures
            *m == self.material,
    {
        &self.material
    }
}

pub open spec fn opt_v3(o: Option<Vector3d>) -> Option<V3> {
    match o {
        Some(u) => Some(u@),
        None => None,
    }
}

/// A triple of wide integers standing for the vector `.0`.
type Wide = (Ghost<V3>, i128, i128, i128);

/// The cross product of two vectors bounded by `ba` and `bb`, in 128 bits.
fn wide_cross(
    a: Ghost<V3>,
    b: Ghost<V3>,
    ax: i128,
    ay: i128,
    az: i128,
    bx: i128,
    b_y: i128,
    bz: i128,
    ba: Ghost<int>,
    bb: Ghost<int>,
) -> (r: Wide)
    requires
        a@ == (ax as int, ay as int, az as int),
        b@ == (bx as int, b_y as int, bz as int),
        bounded(a@, ba@),
        bounded(b@, bb@),
        0 <= ba@,
        0 <= bb@,
        ba@ * bb@ <= 0x1000_0000_0000_0000_0000_0000_0000_0000,
    ensures
        r.0@ == cross3(a@, b@),
        r.0@ == (r.1 as int, r.2 as int, r.3 as int),
        bounded(r.0@, 2 * (ba@ * bb@)),
{
    proof {
        crate::scalar::lemma_mul_bound(ay as int, bz as int, ba@, bb@);
        crate::scalar::lemma_mul_bound(az as int, b_y as int, ba@, bb@);
        crate::scalar::lemma_mul_bound(az as int, bx as int, ba@, bb@);
        crate::scalar::lemma_mul_bound(ax as int, bz as int, ba@, bb@);
        crate::scalar::lemma_mul_bound(ax as int, b_y as int, ba@, bb@);
        crate::scalar::lemma_mul_bound(ay as int, bx as int, ba@, bb@);
    }
    let x = ay * bz - az * b_y;
    let y = az * bx - ax * bz;
    let z = ax * b_y - ay * bx;
    (Ghost((x as int, y as int, z as int)), x, y, z)
}

/// The dot product of two vectors bounded by `ba` and `bb`, in 128 bits.
fn wide_dot(
    a: Ghost<V3>,
    b: Ghost<V3>,
    ax: i128,
    ay: i128,
    az: i128,
    bx: i128,
    b_y: i128,
    bz: i128,
    ba: Ghost<int>,
    bb: Ghost<int>,
) -> (r: i128)
    requires
        a@ == (ax as int, ay as int, az as int),
        b@ == (bx as int, b_y as int, bz as int),
        bounded(a@, ba@),
        bounded(b@, bb@),
        0 <= ba@,
        0 <= bb@,
        ba@ * bb@ <= 0x1000_0000_0000_0000_0000_0000_0000_0000,
    ensures
        r == dot3(a@, b@),
        -(3 * (ba@ * bb@)) <= r <= 3 * (ba@ * bb@),
{
    proof {
        crate::scalar::lemma_mul_bound(ax as int, bx as int, ba@, bb@);
        crate::scalar::lemma_mul_bound(ay as int, b_y as int, ba@, bb@);
        crate::scalar::lemma_mul_bound(az as int, bz as int, ba@, bb@);
        let k = ba@ * bb@;
        assert(-k <= ax * bx <= k);
        assert(-k <= ay * b_y <= k);
        assert(-k <= az * bz <= k);
        let sum = ax * bx + ay * b_y + az * bz;
        assert(sum <= k + k + k);
        assert(sum >= -k - k - k);
        assert(k + k + k == 3 * k);
        assert(-(3 * k) <= sum <= 3 * k);
    }
    ax * bx + ay * b_y + az * bz
}

/// A component of a wide cross product, divided by `SHRINK`, fits
/// `normalize`, and stays non-zero when it was out of `normalize`'s range.
proof fn lemma_shrink(a: int)
    requires
        -2 * (8589934592 * 8589934592) <= a <= 2 * (8589934592 * 8589934592),
    ensures
        -(NORM_LIMIT as int) <= tdiv(a, SHRINK as int) <= NORM_LIMIT as int,
        a > NORM_LIMIT ==> tdiv(a, SHRINK as int) > 0,
        a < -NORM_LIMIT ==> tdiv(a, SHRINK as int) < 0,
{
    lemma_tdiv_bound(a, SHRINK as int, NORM_LIMIT as int);
    crate::scalar::lemma_tdiv_rem(a, SHRINK as int);
}

/// A primitive of the scene.
#[derive(Debug, Clone, Copy)]
pub enum Entity {
    Sphere(Sphere),
    Triangle(Triangle),
}

impl Entity {
    pub open spec fn wf(&self) -> bool {
        match self {
            Entity::Sphere(s) => s.wf(),
            Entity::Triangle(t) => t.wf(),
        }
    }

    /// Where the ray from `o` along `d` meets the primitive.
    pub open spec fn hit(&self, o: V3, d: V3) -> Option<int> {
        match self {
            Entity::Sphere(s) => sphere_hit(s.center@, s.radius as int, o, d),
            Entity::Triangle(t) => triangle_hit(
                t.vertices[0]@,
                t.vertices[1]@,
                t.vertices[2]@,
                o,
                d,
            ),
        }
    }

    /// The unit normal at `p`, when one is defined.
    pub open spec fn normal(&self, p: V3) -> Option<V3> {
        match self {
            Entity::Sphere(s) => if is_zero3(sub3(p, s.center@)) {
                None
            } else {
                Some(normalize3(sub3(p, s.center@)))
            },
            Entity::Triangle(t) => triangle_normal(t.vertices[0]@, t.vertices[1]@, t.vertices[2]@),
        }
    }

    pub open spec fn matter(&self) -> Material {
        match self {
            Entity::Sphere(s) => s.material,
            Entity::Triangle(t) => t.material,
        }
    }

    pub fn intersect(&self, origin: Vector3d, direction: Vector3d) -> (r: Option<i64>)
        requires
            self.wf(),
            bounded(origin@, ORIGIN_LIMIT as int),
            bounded(direction@, NORM_LIMIT as int),
        ensures
            opt_int(r) == self.hit(origin@, direction@),
            r matches Some(t) ==> 0 <= t <= DIST_LIMIT,
    {
        match self {
            Entity::Sphere(s) => s.intersect(origin, direction),
            Entity::Triangle(t) => t.intersect(origin, direction),
        }
    }

    pub fn norm(&self, point: &Vector3d) -> (r: Option<Vector3d>)
        requires
            self.wf(),
            bounded(point@, ORIGIN_LIMIT as int),
        ensures
            r is None <==> self.normal(point@) is None,
            r matches Some(u) ==> self.normal(point@) == Some(u@) && bounded(u@, ONE as int),
            r matches Some(u) ==> (ONE as int) * (ONE as int) - 6 * (ONE as int) - 2 <= len2(u@)
                <= (ONE as int) * (ONE as int) + 3 * (ONE as int),
    {
        match self {
            Entity::Sphere(s) => s.norm(point),
            Entity::Triangle(t) => t.norm(point),
        }
    }

    pub fn material(&self) -> (m: &Material)
        ensures
            *m == self.matter(),
    {
        match self {
            Entity::Sphere(s) => s.material(),
            Entity::Triangle(t) => t.material(),
        }
    }
}


/// A ray whose every point ahead of the origin (at distances `t >= 0`) lies
/// farther from a sphere's center than the radius, by more than the
/// tolerance, misses the sphere.
pub proof fn lemma_far_ray_misses(c: V3, r: int, o: V3, d: V3)
    requires
        !is_zero3(d),
        forall|t: int|
            t >= 0 ==> #[trigger] root(len2(sub3(c, ray_point(o, d, t)))) > r
                + RADIUS_TOLERANCE,
    ensures
        sphere_hit(c, r, o, d) is None,
{
    let l = sub3(c, o);
    let pl = tdiv(dot3(l, normalize3(d)), ONE as int);
    if pl < 0 {
        assert(fscale3(normalize3(d), 0) == (0int, 0int, 0int));
        assert(sub3(c, ray_point(o, d, 0)) == l);
        assert(root(len2(sub3(c, ray_point(o, d, 0)))) > r + RADIUS_TOLERANCE);
        assert(len2(l) >= 0) by (nonlinear_arith)
            requires
                len2(l) == l.0 * l.0 + l.1 * l.1 + l.2 * l.2,
        ;
        crate::scalar::lemma_root_is_isqrt(len2(l));
    } else {
        assert(sub3(c, ray_point(o, d, pl)) == sub3(l, fscale3(normalize3(d), pl)));
        assert(root(len2(sub3(c, ray_point(o, d, pl)))) > r + RADIUS_TOLERANCE);
    }
}

} // verus!
