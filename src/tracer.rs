//! The recursive ray caster: nearest-hit search, reflection, refraction,
//! shadowed local lighting, and the frame generator.
use vstd::prelude::*;
use crate::scalar::{ONE, tdiv, fmul, isqrt, root_i128, div_trunc, lemma_tdiv_bound};
use crate::vector3d::{
    Vector3d, V3, bounded, add3, sub3, neg3, dot3, len2, fscale3, is_zero3, normalize3,
    NORM_LIMIT,
};
use crate::material::{Color, Material};
use crate::light::{Light, INTENSITY_LIMIT};
use crate::entity::{Entity, COORD_LIMIT, ORIGIN_LIMIT, DIST_LIMIT, lemma_dot_bound};

verus! {

/// Most lights a scene may hold.
pub const MAX_LIGHTS: usize = 65536;

/// Every entity and light is well formed and the lights are not too many.
pub open spec fn scene_wf(entities: Seq<Entity>, lights: Seq<Light>) -> bool {
    &&& forall|i: int| 0 <= i < entities.len() ==> (#[trigger] entities[i]).wf()
    &&& forall|i: int| 0 <= i < lights.len() ==> (#[trigger] lights[i]).wf()
    &&& lights.len() <= MAX_LIGHTS
}

/// The first of the entities `0..n` with the smallest positive hit distance
/// along the ray, with that distance; hits at distance zero or behind the
/// origin are skipped.
pub open spec fn nearest(entities: Seq<Entity>, o: V3, d: V3, n: int) -> Option<(int, int)>
    decreases n,
{
    if n <= 0 {
        None
    } else {
        let prev = nearest(entities, o, d, n - 1);
        match entities[n - 1].hit(o, d) {
            Some(t) => if t <= 0 {
                prev
            } else {
                match prev {
                Some(best) => if t < best.1 {
                    Some((n - 1, t))
                } else {
                    prev
                },
                None => Some((n - 1, t)),
            }},
            None => prev,
        }
    }
}

/// The nearest hit of the ray among the entities: the hit point, the index
/// of the entity hit, and the distance.
pub open spec fn scene_hit(entities: Seq<Entity>, o: V3, d: V3) -> Option<(V3, int, int)> {
    if is_zero3(d) {
        None
    } else {
        match nearest(entities, o, d, entities.len() as int) {
            Some(h) => Some((crate::entity::ray_point(o, d, h.1), h.0, h.1)),
            None => None,
        }
    }
}

/// An entity's answer to a ray is a hit at a positive distance.
pub open spec fn ahead(t: Option<int>) -> bool {
    t matches Some(v) && v > 0
}

/// Largest coordinate magnitude of a hit point: an origin plus a distance.
pub const HIT_LIMIT: i64 = 283467841536;

/// `x` moved into `[-b, b]`.
pub open spec fn clamp1(x: int, b: int) -> int {
    if x < -b {
        -b
    } else if x > b {
        b
    } else {
        x
    }
}

/// `v` moved componentwise into the scene's bounding cube.
pub open spec fn clamp3(v: V3) -> V3 {
    let b = COORD_LIMIT as int;
    (clamp1(v.0, b), clamp1(v.1, b), clamp1(v.2, b))
}

/// No entity among `0..n` is hit ahead of the origin exactly when `nearest`
/// finds nothing.
pub proof fn lemma_nearest_none(entities: Seq<Entity>, o: V3, d: V3, n: int)
    requires
        0 <= n <= entities.len(),
    ensures
        nearest(entities, o, d, n) is None <==> forall|k: int|
            0 <= k < n ==> !ahead(#[trigger] entities[k].hit(o, d)),
        nearest(entities, o, d, n) matches Some(h) ==> 0 <= h.0 < n && h.1 > 0
            && entities[h.0].hit(o, d) == Some(h.1),
    decreases n,
{
    if n > 0 {
        lemma_nearest_none(entities, o, d, n - 1);
        if nearest(entities, o, d, n) is None {
            assert forall|k: int| 0 <= k < n implies !ahead(#[trigger] entities[k].hit(o, d)) by {
                if k < n - 1 {
                    assert(nearest(entities, o, d, n - 1) is None);
                }
            }
        }
    }
}

/// A ray's nearest hit.
#[derive(Debug, Clone, Copy, PartialEq, Eq, Structural)]
pub struct Hit {
    pub point: Vector3d,
    pub entity: usize,
    pub distance: i64,
}

pub open spec fn hit_view(h: Option<Hit>) -> Option<(V3, int, int)> {
    match h {
        Some(h) => Some((h.point@, h.entity as int, h.distance as int)),
        None => None,
    }
}

/// Scans every entity for the nearest hit of the ray from `origin` along
/// `dir`.
pub fn scene_intersect(origin: &Vector3d, dir: &Vector3d, entities: &[Entity]) -> (r: Option<Hit>)
    requires
        forall|i: int| 0 <= i < entities@.len() ==> (#[trigger] entities@[i]).wf(),
        bounded(origin@, ORIGIN_LIMIT as int),
        bounded(dir@, NORM_LIMIT as int),
    ensures
        hit_view(r) == scene_hit(entities@, origin@, dir@),
        r is None <==> forall|k: int|
            0 <= k < entities@.len() ==> !ahead(#[trigger] entities@[k].hit(origin@, dir@)),
        r matches Some(h) ==> bounded(h.point@, HIT_LIMIT as int) && h.entity < entities@.len()
            && h.distance > 0 && entities@[h.entity as int].hit(origin@, dir@) == Some(
            h.distance as int,
        ),
{
    proof {
        lemma_nearest_none(entities@, origin@, dir@, entities@.len() as int);
        if is_zero3(dir@) {
            assert forall|k: int| 0 <= k < entities@.len() implies !ahead(
                #[trigger] entities@[k].hit(origin@, dir@),
            ) by {
                assert(entities@[k].hit(origin@, dir@) is None);
            }
        }
    }
    let unit = match dir.normalize() {
        Some(u) => u,
        None => return None,
    };
    let mut best: Option<(usize, i64)> = None;
    let mut i: usize = 0;
    while i < entities.len()
        invariant
            0 <= i <= entities@.len(),
            forall|k: int| 0 <= k < entities@.len() ==> (#[trigger] entities@[k]).wf(),
            bounded(origin@, ORIGIN_LIMIT as int),
            bounded(dir@, NORM_LIMIT as int),
            match best {
                Some(b) => nearest(entities@, origin@, dir@, i as int) == Some((b.0 as int, b.1 as int))
                    && b.0 < i && 0 < b.1 <= DIST_LIMIT,
                None => nearest(entities@, origin@, dir@, i as int) is None,
            },
        decreases entities@.len() - i,
    {
        match entities[i].intersect(*origin, *dir) {
            Some(t) => {
                if t > 0 {
                    match best {
                        Some(b) => {
                            if t < b.1 {
                                best = Some((i, t));
                            }
                        },
                        None => {
                            best = Some((i, t));
                        },
                    }
                }
            },
            None => {},
        }
        i = i + 1;
    }
    match best {
        Some(b) => {
            let t = b.1 as i128;
            proof {
                lemma_step_bound(unit.x as int, t as int);
                lemma_step_bound(unit.y as int, t as int);
                lemma_step_bound(unit.z as int, t as int);
            }
            let x = origin.x as i128 + div_trunc((unit.x as i128) * t, ONE as i128);
            let y = origin.y as i128 + div_trunc((unit.y as i128) * t, ONE as i128);
            let z = origin.z as i128 + div_trunc((unit.z as i128) * t, ONE as i128);
            Some(
                Hit {
                    point: Vector3d { x: x as i64, y: y as i64, z: z as i64 },
                    entity: b.0,
                    distance: b.1,
                },
            )
        },
        None => None,
    }
}

proof fn lemma_step_bound(u: int, t: int)
    requires
        -(ONE as int) <= u <= ONE as int,
        -(DIST_LIMIT as int) <= t <= DIST_LIMIT as int,
    ensures
        -(ONE as int) * (DIST_LIMIT as int) <= u * t <= (ONE as int) * (DIST_LIMIT as int),
        -(DIST_LIMIT as int) <= fmul(u, t) <= DIST_LIMIT as int,
{
    assert(-(ONE as int) * (DIST_LIMIT as int) <= u * t <= (ONE as int) * (DIST_LIMIT as int)) by (nonlinear_arith)
        requires
            -(ONE as int) <= u <= ONE as int,
            -(DIST_LIMIT as int) <= t <= DIST_LIMIT as int,
    ;
    lemma_tdiv_bound(u * t, ONE as int, DIST_LIMIT as int);
}


/// How far secondary rays start off the surface, along the normal
/// (fixed-point, about a thousandth of a unit).
pub const PERTURB: i64 = 66;

/// The mirror image of `i` about the plane of the unit normal `n`:
/// `i - 2 (i·n) n`, in fixed point.
pub open spec fn reflect3(i: V3, n: V3) -> V3 {
    sub3(i, fscale3(n, tdiv(2 * dot3(i, n), ONE as int)))
}

/// Snell's law for the unit direction `inc` through the surface with unit
/// normal `n` and refractive index `ri`, before normalization; the zero
/// vector on total internal reflection. A ray leaving the material (`inc`
/// along `n`) sees the normal and the two indices swapped.
pub open spec fn snell3(inc: V3, n: V3, ri: int) -> V3 {
    let one = ONE as int;
    let c0 = -tdiv(dot3(inc, n), one);
    let cos_i = if c0 < 0 { -c0 } else { c0 };
    let eta_i = if c0 < 0 { ri } else { one };
    let eta_t = if c0 < 0 { one } else { ri };
    let nn = if c0 < 0 { neg3(n) } else { n };
    let eta = tdiv(eta_i * one, eta_t);
    let k = one - fmul(fmul(eta, eta), one - fmul(cos_i, cos_i));
    if k < 0 {
        (0, 0, 0)
    } else {
        add3(fscale3(inc, eta), fscale3(nn, fmul(eta, cos_i) - isqrt(k * one)))
    }
}

/// The unit refracted direction of `i` through the surface with normal `n`
/// and refractive index `ri`: Snell's law on the normalized `i` and `n`, its
/// result normalized; the zero vector on total internal reflection or when
/// `i` or `n` is zero.
pub open spec fn refract3(i: V3, n: V3, ri: int) -> V3 {
    if is_zero3(i) || is_zero3(n) {
        (0, 0, 0)
    } else {
        let t = snell3(normalize3(i), normalize3(n), ri);
        if is_zero3(t) {
            (0, 0, 0)
        } else {
            normalize3(t)
        }
    }
}

/// The start of a secondary ray from `p` along `dir`: moved off the surface
/// to the side that `dir` points to.
pub open spec fn nudge(p: V3, n: V3, dir: V3) -> V3 {
    let e = fscale3(n, PERTURB as int);
    if dot3(dir, n) < 0 {
        sub3(p, e)
    } else {
        add3(p, e)
    }
}

/// `b` to the power `e`, multiplying in fixed point from `ONE`.
pub open spec fn fpow(b: int, e: nat) -> int
    decreases e,
{
    if e == 0 {
        ONE as int
    } else {
        fmul(fpow(b, (e - 1) as nat), b)
    }
}

/// `i - 2 (i·n) n` for unit vectors, in fixed point.
pub fn reflect(incident: &Vector3d, normal: &Vector3d) -> (r: Vector3d)
    requires
        bounded(incident@, NORM_LIMIT as int),
        bounded(normal@, ONE as int),
    ensures
        r@ == reflect3(incident@, normal@),
        bounded(r@, 7 * NORM_LIMIT as int),
        bounded(incident@, ONE as int) ==> bounded(r@, 7 * ONE as int),
{
    let ghost b: int = if bounded(incident@, ONE as int) { ONE as int } else { NORM_LIMIT as int };
    let d = incident.dot(*normal);
    proof {
        lemma_dot_bound(incident@, normal@, b, ONE as int);
        lemma_tdiv_bound(2 * d, ONE as int, 6 * b);
    }
    let one = ONE as i128;
    let k = div_trunc(2 * d, one);
    proof {
        crate::scalar::lemma_mul_bound(normal.x as int, k as int, ONE as int, 6 * b);
        crate::scalar::lemma_mul_bound(normal.y as int, k as int, ONE as int, 6 * b);
        crate::scalar::lemma_mul_bound(normal.z as int, k as int, ONE as int, 6 * b);
        lemma_tdiv_bound(normal.x * k, ONE as int, 6 * b);
        lemma_tdiv_bound(normal.y * k, ONE as int, 6 * b);
        lemma_tdiv_bound(normal.z * k, ONE as int, 6 * b);
    }
    let sx = div_trunc((normal.x as i128) * k, one);
    let sy = div_trunc((normal.y as i128) * k, one);
    let sz = div_trunc((normal.z as i128) * k, one);
    Vector3d {
        x: ((incident.x as i128) - sx) as i64,
        y: ((incident.y as i128) - sy) as i64,
        z: ((incident.z as i128) - sz) as i64,
    }
}

/// Snell's-law refraction of the direction `incident` at a surface with
/// normal `normal`, both normalized first; the result is a unit vector, or
/// the zero vector on total internal reflection or a zero input.
pub fn refract(incident: &Vector3d, normal: &Vector3d, refractive_index: i64) -> (r: Vector3d)
    requires
        bounded(incident@, NORM_LIMIT as int),
        bounded(normal@, NORM_LIMIT as int),
        crate::material::REFRACTIVE_MIN <= refractive_index <= crate::material::REFRACTIVE_MAX,
    ensures
        r@ == refract3(incident@, normal@, refractive_index as int),
        bounded(r@, ONE as int),
{
    let zero = Vector3d { x: 0, y: 0, z: 0 };
    let inc = match incident.normalize() {
        Some(u) => u,
        None => return zero,
    };
    let n = match normal.normalize() {
        Some(u) => u,
        None => return zero,
    };
    let t = snell(&inc, &n, refractive_index);
    match t.normalize() {
        Some(u) => u,
        None => zero,
    }
}

/// Snell's law on unit vectors, before normalization.
fn snell(incident: &Vector3d, normal: &Vector3d, refractive_index: i64) -> (r: Vector3d)
    requires
        bounded(incident@, ONE as int),
        bounded(normal@, ONE as int),
        crate::material::REFRACTIVE_MIN <= refractive_index <= crate::material::REFRACTIVE_MAX,
    ensures
        r@ == snell3(incident@, normal@, refractive_index as int),
        bounded(r@, 268435456),
{
    let one = ONE as i128;
    let ri = refractive_index as i128;
    let d = incident.dot(*normal);
    proof {
        lemma_dot_bound(incident@, normal@, ONE as int, ONE as int);
        lemma_tdiv_bound(d as int, ONE as int, 3 * ONE as int);
    }
    let c0 = -div_trunc(d, one);
    let (cos_i, eta_i, eta_t, n) = if c0 < 0 {
        (-c0, ri, one, normal.neg())
    } else {
        (c0, one, ri, *normal)
    };
    proof {
        lemma_tdiv_bound(eta_i * one, eta_t as int, 16777216);
    }
    let eta = div_trunc(eta_i * one, eta_t);
    proof {
        crate::scalar::lemma_mul_bound(eta as int, eta as int, 16777216, 16777216);
        lemma_tdiv_bound(eta * eta, ONE as int, 4294967296);
        crate::scalar::lemma_mul_bound(cos_i as int, cos_i as int, 3 * ONE as int, 3 * ONE as int);
        lemma_tdiv_bound(cos_i * cos_i, ONE as int, 9 * ONE as int);
    }
    let e2 = div_trunc(eta * eta, one);
    let c2 = div_trunc(cos_i * cos_i, one);
    proof {
        crate::scalar::lemma_mul_bound(e2 as int, (one - c2) as int, 4294967296, 10 * ONE as int);
        lemma_tdiv_bound(e2 * (one - c2), ONE as int, 42949672960);
    }
    let k = one - div_trunc(e2 * (one - c2), one);
    if k < 0 {
        Vector3d { x: 0, y: 0, z: 0 }
    } else {
        proof {
            crate::scalar::lemma_mul_bound(eta as int, cos_i as int, 16777216, 3 * ONE as int);
            lemma_tdiv_bound(eta * cos_i, ONE as int, 3 * 16777216 as int);
            assert(k * one <= 3000000000000000) by (nonlinear_arith)
                requires
                    0 <= k <= 42949672960 + 65536,
                    one == 65536,
            ;
        }
        let sq = root_i128(k * one);
        proof {
            crate::scalar::lemma_root_bound(k * one, sq as int, 67108864);
        }
        let m = div_trunc(eta * cos_i, one) - sq;
        proof {
            crate::scalar::lemma_root_is_isqrt(k * one);
            crate::scalar::lemma_mul_bound(incident.x as int, eta as int, ONE as int, 16777216);
            crate::scalar::lemma_mul_bound(incident.y as int, eta as int, ONE as int, 16777216);
            crate::scalar::lemma_mul_bound(incident.z as int, eta as int, ONE as int, 16777216);
            lemma_tdiv_bound(incident.x * eta, ONE as int, 16777216);
            lemma_tdiv_bound(incident.y * eta, ONE as int, 16777216);
            lemma_tdiv_bound(incident.z * eta, ONE as int, 16777216);
            crate::scalar::lemma_mul_bound(n.x as int, m as int, ONE as int, 134217728);
            crate::scalar::lemma_mul_bound(n.y as int, m as int, ONE as int, 134217728);
            crate::scalar::lemma_mul_bound(n.z as int, m as int, ONE as int, 134217728);
            lemma_tdiv_bound(n.x * m, ONE as int, 134217728);
            lemma_tdiv_bound(n.y * m, ONE as int, 134217728);
            lemma_tdiv_bound(n.z * m, ONE as int, 134217728);
        }
        let a = incident.scale(eta as i64);
        let b = n.scale(m as i64);
        a.add(b)
    }
}

/// `dir`'s secondary-ray origin: `point` moved by `PERTURB` along the normal,
/// to the side that `dir` points to.
pub fn offset_origin(point: &Vector3d, normal: &Vector3d, dir: &Vector3d) -> (r: Vector3d)
    requires
        bounded(point@, COORD_LIMIT as int),
        bounded(normal@, ONE as int),
        bounded(dir@, NORM_LIMIT as int),
    ensures
        r@ == nudge(point@, normal@, dir@),
        bounded(r@, ORIGIN_LIMIT as int),
{
    proof {
        crate::scalar::lemma_mul_bound(normal.x as int, PERTURB as int, ONE as int, PERTURB as int);
        crate::scalar::lemma_mul_bound(normal.y as int, PERTURB as int, ONE as int, PERTURB as int);
        crate::scalar::lemma_mul_bound(normal.z as int, PERTURB as int, ONE as int, PERTURB as int);
        lemma_tdiv_bound(normal.x * PERTURB, ONE as int, PERTURB as int);
        lemma_tdiv_bound(normal.y * PERTURB, ONE as int, PERTURB as int);
        lemma_tdiv_bound(normal.z * PERTURB, ONE as int, PERTURB as int);
    }
    let e = normal.scale(PERTURB);
    if dir.dot(*normal) < 0 {
        point.sub(e)
    } else {
        point.add(e)
    }
}

/// `b` to the power `e` in fixed point, for `b` in `[0, ONE]`.
pub fn pow_fixed(b: i64, e: u32) -> (r: i64)
    requires
        0 <= b <= ONE,
    ensures
        r == fpow(b as int, e as nat),
        0 <= r <= ONE,
{
    let mut acc: i64 = ONE;
    let mut k: u32 = 0;
    while k < e
        invariant
            0 <= k <= e,
            0 <= b <= ONE,
            acc == fpow(b as int, k as nat),
            0 <= acc <= ONE,
        decreases e - k,
    {
        proof {
            crate::scalar::lemma_mul_bound(acc as int, b as int, ONE as int, ONE as int);
            assert(0 <= acc * b) by (nonlinear_arith)
                requires
                    0 <= acc,
                    0 <= b,
            ;
            lemma_tdiv_bound(acc * b, ONE as int, ONE as int);
        }
        acc = div_trunc((acc as i128) * (b as i128), ONE as i128) as i64;
        k = k + 1;
    }
    acc
}


pub open spec fn max0(x: int) -> int {
    if x < 0 {
        0
    } else {
        x
    }
}

/// The light is hidden from `p` when the ray from `so` toward it meets an
/// entity strictly closer than the light.
pub open spec fn occluded(entities: Seq<Entity>, so: V3, dir: V3, dist: int) -> bool {
    match scene_hit(entities, so, dir) {
        Some(h) => h.2 < dist,
        None => false,
    }
}

/// The diffuse and specular intensities that `light` adds at the point `p`
/// with unit normal `n`, seen along the unit direction `dh`; nothing when the
/// light is shadowed or stands at `p`.
pub open spec fn light_term(
    entities: Seq<Entity>,
    p: V3,
    n: V3,
    dh: V3,
    m: Material,
    light: Light,
) -> (int, int) {
    let ld = sub3(light.position@, p);
    if is_zero3(ld) {
        (0, 0)
    } else {
        let dist = isqrt(len2(ld));
        let l = normalize3(ld);
        if occluded(entities, nudge(p, n, l), l, dist) {
            (0, 0)
        } else {
            let one = ONE as int;
            let diff = fmul(light.intensity as int, max0(tdiv(dot3(l, n), one)));
            let s0 = max0(tdiv(-dot3(reflect3(neg3(l), n), dh), one));
            let s = if s0 > one { one } else { s0 };
            (diff, fmul(fpow(s, m.specular_exponent as nat), light.intensity as int))
        }
    }
}

/// The diffuse and specular intensities summed over all the lights.
pub open spec fn light_sums(
    entities: Seq<Entity>,
    p: V3,
    n: V3,
    dh: V3,
    m: Material,
    lights: Seq<Light>,
) -> (int, int)
    decreases lights.len(),
{
    if lights.len() == 0 {
        (0, 0)
    } else {
        let prev = light_sums(entities, p, n, dh, m, lights.drop_last());
        let t = light_term(entities, p, n, dh, m, lights.last());
        (prev.0 + t.0, prev.1 + t.1)
    }
}

/// One colour channel: the diffuse colour lit by `diff`, the specular
/// highlight, and the reflected and refracted colours, weighted by the
/// albedo and clamped to `0..=255`.
pub open spec fn channel(dc: int, diff: int, spec: int, rc: int, tc: int, m: Material) -> int {
    let one = ONE as int;
    let a = m.albedo;
    let sum = dc * diff * a.diffuse + 255 * spec * a.specular + (rc * a.reflection + tc
        * a.refraction) * one;
    if sum <= 0 {
        0
    } else if sum / (one * one) > 255 {
        255
    } else {
        sum / (one * one)
    }
}

pub open spec fn compose(m: Material, diff: int, spec: int, rc: Color, tc: Color) -> Color {
    let dc = m.diffuse_color;
    Color {
        r: channel(dc.r as int, diff, spec, rc.r as int, tc.r as int, m) as u8,
        g: channel(dc.g as int, diff, spec, rc.g as int, tc.g as int, m) as u8,
        b: channel(dc.b as int, diff, spec, rc.b as int, tc.b as int, m) as u8,
    }
}

/// The colour seen along the ray from `o` in direction `d`, with `depth`
/// further levels of reflection and refraction allowed.
pub open spec fn cast_color(
    o: V3,
    d: V3,
    entities: Seq<Entity>,
    lights: Seq<Light>,
    depth: int,
    bg: Color,
) -> Color
    decreases depth + 1,
{
    if depth < 0 {
        bg
    } else {
        match scene_hit(entities, o, d) {
            None => bg,
            Some(h) => {
                let p = clamp3(h.0);
                let e = entities[h.1];
                match e.normal(p) {
                    None => bg,
                    Some(n) => {
                        let m = e.matter();
                        let dh = normalize3(d);
                        let rd = reflect3(dh, n);
                        let td = refract3(dh, n, m.refractive_index as int);
                        let rc = cast_color(nudge(p, n, rd), rd, entities, lights, depth - 1, bg);
                        let tc = cast_color(nudge(p, n, td), td, entities, lights, depth - 1, bg);
                        let sums = light_sums(entities, p, n, dh, m, lights);
                        compose(m, sums.0, sums.1, rc, tc)
                    },
                }
            },
        }
    }
}

/// Bound on one light's diffuse contribution.
pub const TERM_LIMIT: i64 = 206158430208;

/// What `light` adds to the diffuse and specular intensities at `point`.
pub fn light_contribution(
    entities: &[Entity],
    point: &Vector3d,
    normal: &Vector3d,
    unit_dir: &Vector3d,
    material: &Material,
    light: &Light,
) -> (r: (i64, i64))
    requires
        forall|i: int| 0 <= i < entities@.len() ==> (#[trigger] entities@[i]).wf(),
        light.wf(),
        bounded(point@, COORD_LIMIT as int),
        bounded(normal@, ONE as int),
        bounded(unit_dir@, ONE as int),
    ensures
        (r.0 as int, r.1 as int) == light_term(entities@, point@, normal@, unit_dir@, *material, *light),
        0 <= r.0 <= TERM_LIMIT,
        0 <= r.1 <= INTENSITY_LIMIT,
{
    let ld = light.position.sub(*point);
    let l = match ld.normalize() {
        Some(u) => u,
        None => return (0, 0),
    };
    let dist = ld.length();
    let so = offset_origin(point, normal, &l);
    match scene_intersect(&so, &l, entities) {
        Some(h) => {
            if (h.distance as i128) < dist {
                return (0, 0);
            }
        },
        None => {},
    }
    let one = ONE as i128;
    let dn = l.dot(*normal);
    proof {
        lemma_dot_bound(l@, normal@, ONE as int, ONE as int);
        lemma_tdiv_bound(dn as int, ONE as int, 3 * ONE as int);
    }
    let c = div_trunc(dn, one);
    let c = if c < 0 { 0 } else { c };
    proof {
        crate::scalar::lemma_mul_bound(light.intensity as int, c as int, INTENSITY_LIMIT as int, 3 * ONE as int);
        assert(0 <= light.intensity * c) by (nonlinear_arith)
            requires
                0 <= light.intensity,
                0 <= c,
        ;
        lemma_tdiv_bound(light.intensity * c, ONE as int, TERM_LIMIT as int);
    }
    let diff = div_trunc((light.intensity as i128) * c, one);
    let r = reflect(&l.neg(), normal);
    let rs = r.dot(*unit_dir);
    proof {
        lemma_dot_bound(r@, unit_dir@, 7 * ONE as int, ONE as int);
        lemma_tdiv_bound(-rs, ONE as int, 21 * ONE as int);
    }
    let s0 = div_trunc(-rs, one);
    let s0 = if s0 < 0 { 0 } else { s0 };
    let s = if s0 > one { one } else { s0 };
    let p = pow_fixed(s as i64, material.specular_exponent);
    proof {
        crate::scalar::lemma_mul_bound(p as int, light.intensity as int, ONE as int, INTENSITY_LIMIT as int);
        assert(0 <= p * light.intensity) by (nonlinear_arith)
            requires
                0 <= light.intensity,
                0 <= p,
        ;
        lemma_tdiv_bound(p * light.intensity, ONE as int, INTENSITY_LIMIT as int);
    }
    let spec = div_trunc((p as i128) * (light.intensity as i128), one);
    (diff as i64, spec as i64)
}


/// The diffuse and specular intensities summed over every light.
pub fn accumulate_lights(
    entities: &[Entity],
    lights: &[Light],
    point: &Vector3d,
    normal: &Vector3d,
    unit_dir: &Vector3d,
    material: &Material,
) -> (r: (i64, i64))
    requires
        scene_wf(entities@, lights@),
        bounded(point@, COORD_LIMIT as int),
        bounded(normal@, ONE as int),
        bounded(unit_dir@, ONE as int),
    ensures
        (r.0 as int, r.1 as int) == light_sums(entities@, point@, normal@, unit_dir@, *material, lights@),
        0 <= r.0 <= MAX_LIGHTS * TERM_LIMIT,
        0 <= r.1 <= MAX_LIGHTS * INTENSITY_LIMIT,
{
    let mut diffuse: i64 = 0;
    let mut specular: i64 = 0;
    let mut i: usize = 0;
    while i < lights.len()
        invariant
            0 <= i <= lights@.len(),
            scene_wf(entities@, lights@),
            bounded(point@, COORD_LIMIT as int),
            bounded(normal@, ONE as int),
            bounded(unit_dir@, ONE as int),
            (diffuse as int, specular as int) == light_sums(
                entities@,
                point@,
                normal@,
                unit_dir@,
                *material,
                lights@.subrange(0, i as int),
            ),
            0 <= diffuse <= i * TERM_LIMIT,
            0 <= specular <= i * INTENSITY_LIMIT,
        decreases lights@.len() - i,
    {
        let t = light_contribution(entities, point, normal, unit_dir, material, &lights[i]);
        proof {
            assert(lights@.subrange(0, i + 1).drop_last() =~= lights@.subrange(0, i as int));
            assert(lights@.subrange(0, i + 1).last() == lights@[i as int]);
        }
        diffuse = diffuse + t.0;
        specular = specular + t.1;
        i = i + 1;
    }
    proof {
        assert(lights@.subrange(0, i as int) =~= lights@);
    }
    (diffuse, specular)
}

/// One colour channel, computed as `channel` states.
pub fn compose_channel(dc: u8, diff: i64, spec: i64, rc: u8, tc: u8, material: &Material) -> (r: u8)
    requires
        material.wf(),
        0 <= diff <= MAX_LIGHTS * TERM_LIMIT,
        0 <= spec <= MAX_LIGHTS * INTENSITY_LIMIT,
    ensures
        r as int == channel(dc as int, diff as int, spec as int, rc as int, tc as int, *material),
{
    let a = material.albedo;
    let one = ONE as i128;
    proof {
        let al = crate::material::ALBEDO_LIMIT as int;
        crate::scalar::lemma_mul_bound(dc as int, diff as int, 255, MAX_LIGHTS * TERM_LIMIT);
        crate::scalar::lemma_mul_bound(dc * diff, a.diffuse as int, 255 * (MAX_LIGHTS * TERM_LIMIT), al);
        crate::scalar::lemma_mul_bound(255 * spec, a.specular as int, 255 * (MAX_LIGHTS * INTENSITY_LIMIT), al);
        crate::scalar::lemma_mul_bound(rc as int, a.reflection as int, 255, al);
        crate::scalar::lemma_mul_bound(tc as int, a.refraction as int, 255, al);
        crate::scalar::lemma_mul_bound(rc * a.reflection + tc * a.refraction, ONE as int, 510 * al, ONE as int);
    }
    let sum = (dc as i128) * (diff as i128) * (a.diffuse as i128) + 255 * (spec as i128) * (
    a.specular as i128) + ((rc as i128) * (a.reflection as i128) + (tc as i128) * (
    a.refraction as i128)) * one;
    let q: i128 = 4294967296;
    if sum <= 0 {
        0
    } else if sum / q > 255 {
        255
    } else {
        (sum / q) as u8
    }
}

/// The colour of a surface point, from its material, the summed light
/// intensities, and the reflected and refracted colours.
pub fn shade(material: &Material, diff: i64, spec: i64, rc: Color, tc: Color) -> (r: Color)
    requires
        material.wf(),
        0 <= diff <= MAX_LIGHTS * TERM_LIMIT,
        0 <= spec <= MAX_LIGHTS * INTENSITY_LIMIT,
    ensures
        r == compose(*material, diff as int, spec as int, rc, tc),
{
    let dc = material.diffuse_color;
    Color {
        r: compose_channel(dc.r, diff, spec, rc.r, tc.r, material),
        g: compose_channel(dc.g, diff, spec, rc.g, tc.g, material),
        b: compose_channel(dc.b, diff, spec, rc.b, tc.b, material),
    }
}

/// `p` moved componentwise into the scene's bounding cube. Every entity lies
/// in that cube, so this only takes back the rounding of a hit point.
pub fn clamp_point(p: &Vector3d) -> (r: Vector3d)
    ensures
        r@ == clamp3(p@),
        bounded(r@, COORD_LIMIT as int),
{
    let b = COORD_LIMIT;
    let x = if p.x < -b { -b } else if p.x > b { b } else { p.x };
    let y = if p.y < -b { -b } else if p.y > b { b } else { p.y };
    let z = if p.z < -b { -b } else if p.z > b { b } else { p.z };
    Vector3d { x, y, z }
}

/// Traces the ray from `origin` along `dir` through the scene and returns
/// the colour it sees; `depth` bounds the levels of reflection and
/// refraction, and a negative depth, a zero direction or a miss gives the
/// background.
pub fn cast_ray(
    origin: &Vector3d,
    dir: &Vector3d,
    entities: &[Entity],
    lights: &[Light],
    depth: i32,
    background: Color,
) -> (r: Color)
    requires
        scene_wf(entities@, lights@),
        bounded(origin@, ORIGIN_LIMIT as int),
        bounded(dir@, NORM_LIMIT as int),
    ensures
        r == cast_color(origin@, dir@, entities@, lights@, depth as int, background),
    decreases depth + 1,
{
    if depth < 0 {
        return background;
    }
    let h = match scene_intersect(origin, dir, entities) {
        Some(h) => h,
        None => return background,
    };
    let point = clamp_point(&h.point);
    let entity = &entities[h.entity];
    let n = match entity.norm(&point) {
        Some(n) => n,
        None => return background,
    };
    let unit = match dir.normalize() {
        Some(u) => u,
        None => return background,
    };
    let material = entity.material();
    let rd = reflect(&unit, &n);
    let td = refract(&unit, &n, material.refractive_index);
    let ro = offset_origin(&point, &n, &rd);
    let to = offset_origin(&point, &n, &td);
    let rc = cast_ray(&ro, &rd, entities, lights, depth - 1, background);
    let tc = cast_ray(&to, &td, entities, lights, depth - 1, background);
    let sums = accumulate_lights(entities, lights, &point, &n, &unit, material);
    shade(material, sums.0, sums.1, rc, tc)
}


/// Largest accepted magnitude of the camera's focal length.
pub const FOCAL_LIMIT: i64 = 1099511627776;

/// The camera-space direction through the center of pixel `(i, j)` of a
/// `w × h` raster, at twice the pixel scale so that half pixels stay whole:
/// `x` grows to the right, `y` upward, and the screen stands at `z = -f`.
pub open spec fn pixel_dir(i: int, j: int, w: int, h: int, f: int) -> V3 {
    (2 * i + 1 - w, h - 2 * j - 1, -2 * f)
}

/// The colour of pixel `k` of the row-major raster.
pub open spec fn pixel_color(
    k: int,
    w: int,
    h: int,
    f: int,
    entities: Seq<Entity>,
    lights: Seq<Light>,
    depth: int,
    bg: Color,
) -> Color {
    cast_color((0, 0, 0), pixel_dir(k % w, k / w, w, h, f), entities, lights, depth, bg)
}

/// Renders a `width × height` raster, row-major and top to bottom, seen
/// from the origin looking down `-z` with the screen `focal_length` pixels
/// away.
pub fn render(
    entities: &[Entity],
    lights: &[Light],
    width: u32,
    height: u32,
    focal_length: i64,
    max_depth: i32,
    background: Color,
) -> (r: Vec<Color>)
    requires
        scene_wf(entities@, lights@),
        -FOCAL_LIMIT <= focal_length <= FOCAL_LIMIT,
    ensures
        r@.len() == width * height,
        forall|k: int|
            0 <= k < r@.len() ==> #[trigger] r@[k] == pixel_color(
                k,
                width as int,
                height as int,
                focal_length as int,
                entities@,
                lights@,
                max_depth as int,
                background,
            ),
{
    proof {
        assert((width as int) * (height as int) <= 0xffff_ffff * 0xffff_ffff) by (nonlinear_arith)
            requires
                width <= 0xffff_ffff,
                height <= 0xffff_ffff,
        ;
    }
    let total: u64 = (width as u64) * (height as u64);
    let mut out: Vec<Color> = Vec::new();
    let mut k: u64 = 0;
    let eye = Vector3d { x: 0, y: 0, z: 0 };
    let depth_z: i64 = 0 - focal_length - focal_length;
    while k < total
        invariant
            total == width * height,
            0 <= k <= total,
            out@.len() == k,
            scene_wf(entities@, lights@),
            -FOCAL_LIMIT <= focal_length <= FOCAL_LIMIT,
            eye@ == (0int, 0int, 0int),
            depth_z == -2 * focal_length,
            forall|q: int|
                0 <= q < k ==> #[trigger] out@[q] == pixel_color(
                    q,
                    width as int,
                    height as int,
                    focal_length as int,
                    entities@,
                    lights@,
                    max_depth as int,
                    background,
                ),
        decreases total - k,
    {
        proof {
            assert(width > 0) by (nonlinear_arith)
                requires
                    k < total,
                    total == width * height,
                    0 <= k,
            ;
            assert((k as int) / (width as int) < height) by (nonlinear_arith)
                requires
                    k < width * height,
                    width > 0,
                    0 <= k,
            ;
        }
        let i = k % (width as u64);
        let j = k / (width as u64);
        assert(i < width);
        let x = 2 * (i as i64) + 1 - (width as i64);
        let y = (height as i64) - 2 * (j as i64) - 1;
        let dir = Vector3d { x, y, z: depth_z };
        assert(dir@ == pixel_dir(k as int % width as int, k as int / width as int, width as int, height as int, focal_length as int));
        let c = cast_ray(&eye, &dir, entities, lights, max_depth, background);
        out.push(c);
        k = k + 1;
    }
    out
}


/// What `cast_color` gives when the reflected and refracted rays are not
/// followed: the hit point lit by the lights alone, with the background in
/// place of the reflected and refracted colours.
pub open spec fn local_color(
    o: V3,
    d: V3,
    entities: Seq<Entity>,
    lights: Seq<Light>,
    bg: Color,
) -> Color {
    match scene_hit(entities, o, d) {
        None => bg,
        Some(h) => {
            let p = clamp3(h.0);
            let e = entities[h.1];
            match e.normal(p) {
                None => bg,
                Some(n) => {
                    let m = e.matter();
                    let sums = light_sums(entities, p, n, normalize3(d), m, lights);
                    compose(m, sums.0, sums.1, bg, bg)
                },
            }
        },
    }
}

/// Casting into a scene without entities gives the background, for every
/// ray and every depth.
pub proof fn lemma_empty_scene_background(
    o: V3,
    d: V3,
    lights: Seq<Light>,
    depth: int,
    bg: Color,
)
    ensures
        cast_color(o, d, Seq::<Entity>::empty(), lights, depth, bg) == bg,
{
    assert(nearest(Seq::<Entity>::empty(), o, d, 0) is None);
}

/// A light whose line to the hit point is blocked by an entity strictly
/// closer than the light adds neither diffuse nor specular intensity.
pub proof fn lemma_shadowed_light_adds_nothing(
    entities: Seq<Entity>,
    p: V3,
    n: V3,
    dh: V3,
    m: Material,
    light: Light,
)
    requires
        !is_zero3(sub3(light.position@, p)),
        occluded(
            entities,
            nudge(p, n, normalize3(sub3(light.position@, p))),
            normalize3(sub3(light.position@, p)),
            isqrt(len2(sub3(light.position@, p))),
        ),
    ensures
        light_term(entities, p, n, dh, m, light) == (0int, 0int),
{
}

/// Below depth zero no ray is traced at all.
pub proof fn lemma_negative_depth_background(
    o: V3,
    d: V3,
    entities: Seq<Entity>,
    lights: Seq<Light>,
    depth: int,
    bg: Color,
)
    requires
        depth < 0,
    ensures
        cast_color(o, d, entities, lights, depth, bg) == bg,
{
}

/// At depth zero the colour is the locally lit surface (or the background
/// on a miss): the reflected and refracted rays stop at once and contribute
/// the background.
pub proof fn lemma_depth_zero_is_local(
    o: V3,
    d: V3,
    entities: Seq<Entity>,
    lights: Seq<Light>,
    bg: Color,
)
    ensures
        cast_color(o, d, entities, lights, 0, bg) == local_color(o, d, entities, lights, bg),
{
    match scene_hit(entities, o, d) {
        None => {},
        Some(h) => {
            let p = clamp3(h.0);
            let e = entities[h.1];
            match e.normal(p) {
                None => {},
                Some(n) => {
                    let m = e.matter();
                    let dh = normalize3(d);
                    let rd = reflect3(dh, n);
                    let td = refract3(dh, n, m.refractive_index as int);
                    lemma_negative_depth_background(nudge(p, n, rd), rd, entities, lights, -1, bg);
                    lemma_negative_depth_background(nudge(p, n, td), td, entities, lights, -1, bg);
                },
            }
        },
    }
}


/// Reflection keeps the angle with a unit normal: `reflect(i, n)·n` is
/// `-(i·n)`, up to the rounding of fixed point. This holds for every normal
/// that `normalize` returns (squared length within its bounds): with
/// `m = |i·n|`, the two differ by less than
/// `(4 ONE³ + (2m + ONE)(6 ONE + 2)) / ONE²`, that is less than four units of
/// `1 / ONE` plus about `12 m / ONE²`.
pub proof fn lemma_reflect_preserves_angle(i: V3, n: V3)
    requires
        bounded(n, ONE as int),
        (ONE as int) * (ONE as int) - 6 * (ONE as int) - 2 <= len2(n),
        len2(n) <= (ONE as int) * (ONE as int) + 3 * (ONE as int),
    ensures
        ({
            let s = ONE as int;
            let m = if dot3(i, n) >= 0 { dot3(i, n) } else { -dot3(i, n) };
            let bound = 4 * s * s * s + (2 * m + s) * (6 * s + 2);
            -bound < s * s * (dot3(reflect3(i, n), n) + dot3(i, n)) < bound
        }),
{
    let s = ONE as int;
    let dd = dot3(i, n);
    let m = if dd >= 0 { dd } else { -dd };
    let q = len2(n);
    let k = tdiv(2 * dd, s);
    crate::scalar::lemma_tdiv_rem(2 * dd, s);
    let t0 = tdiv(n.0 * k, s);
    let t1 = tdiv(n.1 * k, s);
    let t2 = tdiv(n.2 * k, s);
    crate::scalar::lemma_tdiv_rem(n.0 * k, s);
    crate::scalar::lemma_tdiv_rem(n.1 * k, s);
    crate::scalar::lemma_tdiv_rem(n.2 * k, s);
    let e = 2 * dd - s * k;
    let e0 = n.0 * k - s * t0;
    let e1 = n.1 * k - s * t1;
    let e2 = n.2 * k - s * t2;
    let r = reflect3(i, n);
    assert(r == (i.0 - t0, i.1 - t1, i.2 - t2));
    let rn = dot3(r, n);
    assert(rn == dd - (t0 * n.0 + t1 * n.1 + t2 * n.2)) by (nonlinear_arith)
        requires
            rn == (i.0 - t0) * n.0 + (i.1 - t1) * n.1 + (i.2 - t2) * n.2,
            dd == i.0 * n.0 + i.1 * n.1 + i.2 * n.2,
    ;
    assert(s * (t0 * n.0) == n.0 * n.0 * k - n.0 * e0) by (nonlinear_arith)
        requires
            e0 == n.0 * k - s * t0,
    ;
    assert(s * (t1 * n.1) == n.1 * n.1 * k - n.1 * e1) by (nonlinear_arith)
        requires
            e1 == n.1 * k - s * t1,
    ;
    assert(s * (t2 * n.2) == n.2 * n.2 * k - n.2 * e2) by (nonlinear_arith)
        requires
            e2 == n.2 * k - s * t2,
    ;
    assert(s * (rn + dd) == 2 * (s * dd) - (s * (t0 * n.0) + s * (t1 * n.1) + s * (t2 * n.2)))
        by (nonlinear_arith)
        requires
            rn == dd - (t0 * n.0 + t1 * n.1 + t2 * n.2),
    ;
    assert(n.0 * n.0 * k + n.1 * n.1 * k + n.2 * n.2 * k == k * q) by (nonlinear_arith)
        requires
            n.0 * n.0 + n.1 * n.1 + n.2 * n.2 == q,
    ;
    assert(s * e == 2 * (s * dd) - k * (s * s)) by (nonlinear_arith)
        requires
            e == 2 * dd - s * k,
    ;
    let g = k * (s * s - q);
    assert(g == k * (s * s) - k * q) by (nonlinear_arith)
        requires
            g == k * (s * s - q),
    ;
    assert(s * (rn + dd) == s * e + g + (n.0 * e0 + n.1 * e1 + n.2 * e2));
    lemma_small_product(n.0, e0, s);
    lemma_small_product(n.1, e1, s);
    lemma_small_product(n.2, e2, s);
    assert(-s * s < s * e < s * s) by (nonlinear_arith)
        requires
            -s < e < s,
            s > 0,
    ;
    let ka = if k >= 0 { k } else { -k };
    assert(s * ka < 2 * m + s) by (nonlinear_arith)
        requires
            -s < 2 * dd - s * k < s,
            ka == k || ka == -k,
            ka >= 0,
            m == dd || m == -dd,
            m >= 0,
            s > 0,
    ;
    assert(-(ka * (6 * s + 2)) <= g <= ka * (6 * s + 2)) by (nonlinear_arith)
        requires
            g == k * (s * s - q),
            -(3 * s) <= s * s - q <= 6 * s + 2,
            ka == k || ka == -k,
            ka >= 0,
            s > 0,
    ;
    let x = rn + dd;
    assert(-(4 * (s * s) + ka * (6 * s + 2)) < s * x < 4 * (s * s) + ka * (6 * s + 2));
    assert(-(4 * s * s * s + (2 * m + s) * (6 * s + 2)) < s * s * x < 4 * s * s * s + (2 * m
        + s) * (6 * s + 2)) by (nonlinear_arith)
        requires
            -(4 * (s * s) + ka * (6 * s + 2)) < s * x < 4 * (s * s) + ka * (6 * s + 2),
            s * ka < 2 * m + s,
            ka >= 0,
            s > 0,
    ;
}

/// A component bounded by `s` times a rounding error below `s` is below `s²`.
proof fn lemma_small_product(c: int, e: int, s: int)
    requires
        -s <= c <= s,
        -s < e < s,
        s > 0,
    ensures
        -(s * s) < c * e < s * s,
{
    assert(-(s * s) < c * e < s * s) by (nonlinear_arith)
        requires
            -s <= c <= s,
            -s < e < s,
            s > 0,
    ;
}


/// The light is hidden from the point `p` (unit normal `n`): the shadow ray
/// toward it meets an entity strictly closer than the light.
pub open spec fn blocked(entities: Seq<Entity>, p: V3, n: V3, light: Light) -> bool {
    let ld = sub3(light.position@, p);
    !is_zero3(ld) && occluded(entities, nudge(p, n, normalize3(ld)), normalize3(ld), isqrt(len2(ld)))
}

/// Leaving out a light that adds nothing leaves the summed intensities
/// unchanged.
pub proof fn lemma_light_sums_remove(
    entities: Seq<Entity>,
    p: V3,
    n: V3,
    dh: V3,
    m: Material,
    lights: Seq<Light>,
    k: int,
)
    requires
        0 <= k < lights.len(),
        light_term(entities, p, n, dh, m, lights[k]) == (0int, 0int),
    ensures
        light_sums(entities, p, n, dh, m, lights) == light_sums(
            entities,
            p,
            n,
            dh,
            m,
            lights.remove(k),
        ),
    decreases lights.len(),
{
    if k == lights.len() - 1 {
        assert(lights.remove(k) =~= lights.drop_last());
    } else {
        let rest = lights.drop_last();
        lemma_light_sums_remove(entities, p, n, dh, m, rest, k);
        assert(lights.remove(k).drop_last() =~= rest.remove(k));
        assert(lights.remove(k).last() == lights.last());
    }
}

/// At depth zero, a light blocked from the hit point by a strictly closer
/// entity does not change the colour: the same ray in the same scene without
/// that light gives the same colour.
pub proof fn lemma_blocked_light_leaves_color(
    o: V3,
    d: V3,
    entities: Seq<Entity>,
    lights: Seq<Light>,
    k: int,
    bg: Color,
)
    requires
        0 <= k < lights.len(),
        scene_hit(entities, o, d) matches Some(h) && entities[h.1].normal(clamp3(h.0)) matches Some(
            n,
        ) && blocked(entities, clamp3(h.0), n, lights[k]),
    ensures
        cast_color(o, d, entities, lights, 0, bg) == cast_color(
            o,
            d,
            entities,
            lights.remove(k),
            0,
            bg,
        ),
{
    lemma_depth_zero_is_local(o, d, entities, lights, bg);
    lemma_depth_zero_is_local(o, d, entities, lights.remove(k), bg);
    let h = scene_hit(entities, o, d)->Some_0;
    let p = clamp3(h.0);
    let e = entities[h.1];
    let n = e.normal(p)->Some_0;
    let dh = normalize3(d);
    lemma_shadowed_light_adds_nothing(entities, p, n, dh, e.matter(), lights[k]);
    lemma_light_sums_remove(entities, p, n, dh, e.matter(), lights, k);
}

/// Every entity's albedo weights are non-negative.
pub open spec fn nonneg_weights(entities: Seq<Entity>) -> bool {
    forall|i: int|
        0 <= i < entities.len() ==> {
            let a = (#[trigger] entities[i]).matter().albedo;
            a.diffuse >= 0 && a.specular >= 0 && a.reflection >= 0 && a.refraction >= 0
        }
}

/// Each channel of `a` is at most that of `b`.
pub open spec fn color_le(a: Color, b: Color) -> bool {
    a.r <= b.r && a.g <= b.g && a.b <= b.b
}

/// `lights` with the intensity of light `k` set to `i`.
pub open spec fn with_intensity(lights: Seq<Light>, k: int, i: i64) -> Seq<Light> {
    lights.update(k, Light { position: lights[k].position, intensity: i })
}

/// A fixed-point product of non-negative values grows with either factor.
proof fn lemma_fmul_mono(x1: int, x2: int, y: int)
    requires
        0 <= x1 <= x2,
        y >= 0,
    ensures
        0 <= fmul(x1, y) <= fmul(x2, y),
        0 <= fmul(y, x1) <= fmul(y, x2),
{
    let s = ONE as int;
    assert(0 <= x1 * y <= x2 * y && y * x1 == x1 * y && y * x2 == x2 * y) by (nonlinear_arith)
        requires
            0 <= x1 <= x2,
            y >= 0,
    ;
    vstd::arithmetic::div_mod::lemma_div_is_ordered(x1 * y, x2 * y, s);
    vstd::arithmetic::div_mod::lemma_div_is_ordered(0, x1 * y, s);
}

proof fn lemma_fpow_nonneg(b: int, e: nat)
    requires
        b >= 0,
    ensures
        fpow(b, e) >= 0,
    decreases e,
{
    if e > 0 {
        lemma_fpow_nonneg(b, (e - 1) as nat);
        lemma_fmul_mono(0, fpow(b, (e - 1) as nat), b);
    }
}

/// A brighter light adds at least as much diffuse and specular intensity.
proof fn lemma_light_term_mono(
    entities: Seq<Entity>,
    p: V3,
    n: V3,
    dh: V3,
    m: Material,
    light: Light,
    i: i64,
)
    requires
        0 <= light.intensity <= i,
    ensures
        light_term(entities, p, n, dh, m, light).0 <= light_term(
            entities,
            p,
            n,
            dh,
            m,
            Light { position: light.position, intensity: i },
        ).0,
        light_term(entities, p, n, dh, m, light).1 <= light_term(
            entities,
            p,
            n,
            dh,
            m,
            Light { position: light.position, intensity: i },
        ).1,
{
    let ld = sub3(light.position@, p);
    if !is_zero3(ld) {
        let l = normalize3(ld);
        let one = ONE as int;
        let c = max0(tdiv(dot3(l, n), one));
        lemma_fmul_mono(light.intensity as int, i as int, c);
        let s0 = max0(tdiv(-dot3(reflect3(neg3(l), n), dh), one));
        let sc = if s0 > one { one } else { s0 };
        lemma_fpow_nonneg(sc, m.specular_exponent as nat);
        lemma_fmul_mono(light.intensity as int, i as int, fpow(sc, m.specular_exponent as nat));
    }
}

/// Raising one light's intensity lowers neither summed intensity.
proof fn lemma_light_sums_mono(
    entities: Seq<Entity>,
    p: V3,
    n: V3,
    dh: V3,
    m: Material,
    lights: Seq<Light>,
    k: int,
    i: i64,
)
    requires
        0 <= k < lights.len(),
        0 <= lights[k].intensity <= i,
    ensures
        light_sums(entities, p, n, dh, m, lights).0 <= light_sums(
            entities,
            p,
            n,
            dh,
            m,
            with_intensity(lights, k, i),
        ).0,
        light_sums(entities, p, n, dh, m, lights).1 <= light_sums(
            entities,
            p,
            n,
            dh,
            m,
            with_intensity(lights, k, i),
        ).1,
    decreases lights.len(),
{
    let l2 = with_intensity(lights, k, i);
    if k == lights.len() - 1 {
        assert(l2.drop_last() =~= lights.drop_last());
        lemma_light_term_mono(entities, p, n, dh, m, lights[k], i);
    } else {
        let rest = lights.drop_last();
        lemma_light_sums_mono(entities, p, n, dh, m, rest, k, i);
        assert(l2.drop_last() =~= with_intensity(rest, k, i));
    }
}

/// A channel lies in `0..=255` and, with non-negative weights, grows with the
/// light intensities and with the reflected and refracted channels.
proof fn lemma_channel_mono(
    dc: int,
    d1: int,
    s1: int,
    r1: int,
    t1: int,
    d2: int,
    s2: int,
    r2: int,
    t2: int,
    m: Material,
)
    requires
        dc >= 0,
        d1 <= d2,
        s1 <= s2,
        r1 <= r2,
        t1 <= t2,
        m.albedo.diffuse >= 0 && m.albedo.specular >= 0 && m.albedo.reflection >= 0
            && m.albedo.refraction >= 0,
    ensures
        0 <= channel(dc, d1, s1, r1, t1, m) <= channel(dc, d2, s2, r2, t2, m) <= 255,
{
    let one = ONE as int;
    let a = m.albedo;
    let sum1 = dc * d1 * a.diffuse + 255 * s1 * a.specular + (r1 * a.reflection + t1
        * a.refraction) * one;
    let sum2 = dc * d2 * a.diffuse + 255 * s2 * a.specular + (r2 * a.reflection + t2
        * a.refraction) * one;
    assert(sum1 <= sum2) by (nonlinear_arith)
        requires
            sum1 == dc * d1 * a.diffuse + 255 * s1 * a.specular + (r1 * a.reflection + t1
                * a.refraction) * one,
            sum2 == dc * d2 * a.diffuse + 255 * s2 * a.specular + (r2 * a.reflection + t2
                * a.refraction) * one,
            dc >= 0,
            d1 <= d2,
            s1 <= s2,
            r1 <= r2,
            t1 <= t2,
            a.diffuse >= 0,
            a.specular >= 0,
            a.reflection >= 0,
            a.refraction >= 0,
            one > 0,
    ;
    if sum1 > 0 {
        vstd::arithmetic::div_mod::lemma_div_is_ordered(sum1, sum2, one * one);
        vstd::arithmetic::div_mod::lemma_div_is_ordered(0, sum1, one * one);
    }
    if sum2 > 0 {
        vstd::arithmetic::div_mod::lemma_div_is_ordered(0, sum2, one * one);
    }
}

/// Raising the intensity of one light never darkens any channel of the
/// colour a ray sees, when every material's weights are non-negative.
pub proof fn lemma_brighter_light_never_darkens(
    o: V3,
    d: V3,
    entities: Seq<Entity>,
    lights: Seq<Light>,
    k: int,
    i: i64,
    depth: int,
    bg: Color,
)
    requires
        0 <= k < lights.len(),
        0 <= lights[k].intensity <= i,
        nonneg_weights(entities),
    ensures
        color_le(
            cast_color(o, d, entities, lights, depth, bg),
            cast_color(o, d, entities, with_intensity(lights, k, i), depth, bg),
        ),
    decreases depth + 1,
{
    let l2 = with_intensity(lights, k, i);
    if depth >= 0 {
        match scene_hit(entities, o, d) {
            None => {},
            Some(h) => {
                let p = clamp3(h.0);
                let e = entities[h.1];
                assert(0 <= h.1 < entities.len()) by {
                    lemma_nearest_none(entities, o, d, entities.len() as int);
                }
                assert(e.matter().albedo.diffuse >= 0);
                match e.normal(p) {
                    None => {},
                    Some(n) => {
                        let m = e.matter();
                        let dh = normalize3(d);
                        let rd = reflect3(dh, n);
                        let td = refract3(dh, n, m.refractive_index as int);
                        lemma_brighter_light_never_darkens(nudge(p, n, rd), rd, entities, lights, k, i, depth - 1, bg);
                        lemma_brighter_light_never_darkens(nudge(p, n, td), td, entities, lights, k, i, depth - 1, bg);
                        lemma_light_sums_mono(entities, p, n, dh, m, lights, k, i);
                        let rc1 = cast_color(nudge(p, n, rd), rd, entities, lights, depth - 1, bg);
                        let rc2 = cast_color(nudge(p, n, rd), rd, entities, l2, depth - 1, bg);
                        let tc1 = cast_color(nudge(p, n, td), td, entities, lights, depth - 1, bg);
                        let tc2 = cast_color(nudge(p, n, td), td, entities, l2, depth - 1, bg);
                        let s1 = light_sums(entities, p, n, dh, m, lights);
                        let s2 = light_sums(entities, p, n, dh, m, l2);
                        let dc = m.diffuse_color;
                        lemma_channel_mono(dc.r as int, s1.0, s1.1, rc1.r as int, tc1.r as int, s2.0, s2.1, rc2.r as int, tc2.r as int, m);
                        lemma_channel_mono(dc.g as int, s1.0, s1.1, rc1.g as int, tc1.g as int, s2.0, s2.1, rc2.g as int, tc2.g as int, m);
                        lemma_channel_mono(dc.b as int, s1.0, s1.1, rc1.b as int, tc1.b as int, s2.0, s2.1, rc2.b as int, tc2.b as int, m);
                    },
                }
            },
        }
    }
}

} // verus!
