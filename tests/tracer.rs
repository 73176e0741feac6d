use rusty_raytracer::entity::{Entity, Sphere, Triangle};
use rusty_raytracer::light::Light;
use rusty_raytracer::material::{Albedo, Color, Material};
use rusty_raytracer::scalar::{div_trunc, root_i128, ONE};
use rusty_raytracer::tracer::{
    cast_ray, light_contribution, pow_fixed, reflect, refract, render, scene_intersect,
};
use rusty_raytracer::vector3d::Vector3d;

const BG: Color = Color { r: 51, g: 179, b: 204 };

fn v(x: i64, y: i64, z: i64) -> Vector3d {
    Vector3d::new(x * ONE, y * ONE, z * ONE)
}

fn sphere(c: Vector3d, r: i64, m: Material) -> Entity {
    Entity::Sphere(Sphere::new(c, r, m).unwrap())
}

#[test]
fn vector_constructors() {
    assert_eq!(Vector3d::new(1, 2, 3), Vector3d { x: 1, y: 2, z: 3 });
    assert_eq!(Vector3d::with_value(7), Vector3d { x: 7, y: 7, z: 7 });
}

#[test]
fn vector_products() {
    let a = Vector3d::new(1, 2, 3);
    let b = Vector3d::new(4, 5, 6);
    assert_eq!(a.dot(b), 32);
    assert_eq!(a.cross(b), Vector3d::new(-3, 6, -3));
    assert_eq!(a.length_squared(), 14);
    assert_eq!(a.length(), 3);
    assert_eq!(Vector3d::new(3, 4, 0).length(), 5);
}

#[test]
fn vector_arithmetic() {
    let a = Vector3d::new(1, -2, 3);
    let b = Vector3d::new(10, 20, 30);
    assert_eq!(a.add(b), Vector3d::new(11, 18, 33));
    assert_eq!(a.sub(b), Vector3d::new(-9, -22, -27));
    assert_eq!(a.neg(), Vector3d::new(-1, 2, -3));
    assert_eq!(b.scale(ONE / 2), Vector3d::new(5, 10, 15));
    assert_eq!(Vector3d::new(-3, 0, 0).scale(ONE / 2), Vector3d::new(-1, 0, 0));
}

#[test]
fn scalar_helpers() {
    assert_eq!(root_i128(16), 4);
    assert_eq!(root_i128(17), 4);
    assert_eq!(root_i128(15), 3);
    assert_eq!(root_i128(-5), 0);
    assert_eq!(root_i128(1 << 100), 1 << 50);
    assert_eq!(div_trunc(-7, 2), -3);
    assert_eq!(div_trunc(7, 2), 3);
}

#[test]
fn normalize_zero_is_none() {
    assert_eq!(Vector3d::new(0, 0, 0).normalize(), None);
}

#[test]
fn normalize_gives_unit_length() {
    let u = Vector3d::new(0, 3, -4).normalize().unwrap();
    assert_eq!(u, Vector3d::new(0, 39321, -52428));
    for w in [Vector3d::new(1, 1, 0), Vector3d::new(-7, 2, 9), v(100, -3, 2), Vector3d::new(1, 0, 0)] {
        let u = w.normalize().unwrap();
        let l2 = u.length_squared();
        let one2 = (ONE as i128) * (ONE as i128);
        assert!((l2 - one2).abs() <= 6 * ONE as i128 + 2);
    }
}

#[test]
fn sphere_rejects_bad_radius() {
    assert!(Sphere::new(v(0, 0, -5), 0, Material::ivory()).is_none());
    assert!(Sphere::new(v(0, 0, -5), -ONE, Material::ivory()).is_none());
    assert!(Sphere::new(v(0, 0, -5), ONE, Material::ivory()).is_some());
}

#[test]
fn ray_at_center_hits_at_distance_minus_radius() {
    let s = Sphere::new(v(0, 0, -5), ONE, Material::ivory()).unwrap();
    let t = s.intersect(v(0, 0, 0), Vector3d::new(0, 0, -3)).unwrap();
    assert!((t - 4 * ONE).abs() <= 16);
    let s = Sphere::new(v(3, 4, 0), 2 * ONE, Material::glass()).unwrap();
    let t = s.intersect(v(0, 0, 0), Vector3d::new(3, 4, 0)).unwrap();
    assert!((t - 3 * ONE).abs() <= 16);
    let s = Sphere::new(Vector3d::new(7 * ONE, -13 * ONE, -29 * ONE), ONE / 2, Material::mirror()).unwrap();
    let o = Vector3d::new(ONE / 3, 2 * ONE, -ONE);
    let d = s.center.sub(o);
    let t = s.intersect(o, d).unwrap();
    let expected = d.length() - (ONE / 2) as i128;
    assert!((t as i128 - expected).abs() <= 64);
}

#[test]
fn ray_passing_wide_misses() {
    let s = Sphere::new(v(0, 0, -5), ONE, Material::ivory()).unwrap();
    assert_eq!(s.intersect(v(0, 2, 0), v(0, 0, -1)), None);
    assert_eq!(s.intersect(v(0, 0, 0), v(0, 0, 1)), None);
    assert_eq!(s.intersect(v(0, 0, 0), Vector3d::new(0, 0, 0)), None);
}

#[test]
fn ray_from_inside_exits() {
    let s = Sphere::new(v(0, 0, 0), 2 * ONE, Material::ivory()).unwrap();
    let t = s.intersect(v(0, 0, 0), v(1, 0, 0)).unwrap();
    assert!((t - 2 * ONE).abs() <= 64);
}

#[test]
fn reflect_mirrors_about_normal() {
    let n = Vector3d::new(0, ONE, 0);
    let i = Vector3d::new(ONE / 2, -ONE / 2, 0);
    let r = reflect(&i, &n);
    assert_eq!(r, Vector3d::new(ONE / 2, ONE / 2, 0));
    assert_eq!(r.dot(n), -i.dot(n));
}

#[test]
fn refract_straight_through() {
    let n = Vector3d::new(0, 0, ONE);
    let d = Vector3d::new(0, 0, -ONE);
    assert_eq!(refract(&d, &n, Material::glass().refractive_index), Vector3d::new(0, 0, -ONE));
}

#[test]
fn refract_total_internal_reflection() {
    let n = Vector3d::new(0, ONE, 0);
    let d = Vector3d::new(0, 0, 0).add(Vector3d::new(60000, 26000, 0));
    let d = d.normalize().unwrap();
    assert_eq!(refract(&d, &n, Material::glass().refractive_index), Vector3d::new(0, 0, 0));
}

#[test]
fn fixed_power() {
    assert_eq!(pow_fixed(ONE / 2, 0), ONE);
    assert_eq!(pow_fixed(ONE / 2, 3), ONE / 8);
    assert_eq!(pow_fixed(ONE, 1425), ONE);
}

#[test]
fn empty_scene_gives_background() {
    let lights = vec![Light::new(v(0, 5, 0), ONE)];
    for d in [v(0, 0, -1), v(1, 2, 3), Vector3d::new(0, 0, 0)] {
        assert_eq!(cast_ray(&v(0, 0, 0), &d, &[], &lights, 4, BG), BG);
    }
}

#[test]
fn negative_depth_gives_background() {
    let ents = vec![sphere(v(0, 0, -5), ONE, Material::ivory())];
    let lights = vec![Light::new(v(0, 5, 0), ONE)];
    assert_eq!(cast_ray(&v(0, 0, 0), &v(0, 0, -1), &ents, &lights, -1, BG), BG);
}

#[test]
fn depth_zero_shades_without_recursion() {
    let ents = vec![sphere(v(0, 0, -5), ONE, Material::ivory())];
    let lights = vec![Light::new(v(0, 5, 0), ONE)];
    let c = cast_ray(&v(0, 0, 0), &v(0, 0, -1), &ents, &lights, 0, BG);
    assert_ne!(c, BG);
    let deeper = cast_ray(&v(0, 0, 0), &v(0, 0, -1), &ents, &lights, 4, BG);
    assert_eq!(c, deeper);
}

#[test]
fn scene_query_finds_nearest() {
    let ents = vec![
        sphere(v(0, 0, -10), ONE, Material::ivory()),
        sphere(v(0, 0, -5), ONE, Material::red_rubber()),
    ];
    let h = scene_intersect(&v(0, 0, 0), &v(0, 0, -1), &ents).unwrap();
    assert_eq!(h.entity, 1);
    assert!((h.distance - 4 * ONE).abs() <= 64);
    assert!((h.point.z + 4 * ONE).abs() <= 64);
    assert!(scene_intersect(&v(0, 0, 0), &v(0, 1, 0), &ents).is_none());
}

#[test]
fn shadowed_light_contributes_nothing() {
    let ents = vec![
        sphere(v(0, 0, -5), ONE, Material::ivory()),
        sphere(Vector3d::new(0, 5 * ONE / 2, -2 * ONE), ONE / 2, Material::black_rubber()),
    ];
    let light = Light::new(v(0, 5, 0), 2 * ONE);
    let point = v(0, 0, -4);
    let normal = Vector3d::new(0, 0, ONE);
    let dir = Vector3d::new(0, 0, -ONE);
    let m = Material::ivory();
    assert_eq!(light_contribution(&ents, &point, &normal, &dir, &m, &light), (0, 0));
    let open = vec![ents[0]];
    let (d, _) = light_contribution(&open, &point, &normal, &dir, &m, &light);
    assert!(d > 0);
}

#[test]
fn brighter_light_brightens_pixel() {
    let ents = vec![sphere(v(0, 0, -5), ONE, Material::ivory())];
    let dim = cast_ray(&v(0, 0, 0), &v(0, 0, -1), &ents, &[Light::new(v(0, 5, 0), ONE)], 4, BG);
    let bright =
        cast_ray(&v(0, 0, 0), &v(0, 0, -1), &ents, &[Light::new(v(0, 5, 0), 2 * ONE)], 4, BG);
    assert!(bright.r > dim.r);
    assert!(bright.g > dim.g);
    assert!(bright.b > dim.b);
}

#[test]
fn overbright_channels_clamp() {
    let ents = vec![sphere(v(0, 0, -5), ONE, Material::ivory())];
    let lights = vec![Light::new(v(0, 0, 0), 1000 * ONE)];
    let c = cast_ray(&v(0, 0, 0), &v(0, 0, -1), &ents, &lights, 2, BG);
    assert_eq!(c, Color::new(255, 255, 255));
}

#[test]
fn negative_weights_clamp_to_black() {
    let dark = Material::new(Color::new(200, 200, 200), Albedo::new(-ONE, 0, 0, 0), 10, ONE);
    let ents = vec![sphere(v(0, 0, -5), ONE, dark)];
    let lights = vec![Light::new(v(0, 0, 0), ONE)];
    let c = cast_ray(&v(0, 0, 0), &v(0, 0, -1), &ents, &lights, 2, BG);
    assert_eq!(c, Color::new(0, 0, 0));
}

#[test]
fn render_is_row_major() {
    let ents = vec![sphere(v(0, 0, -5), ONE, Material::ivory())];
    let lights = vec![Light::new(v(0, 5, 0), ONE)];
    let img = render(&ents, &lights, 3, 2, 2, 4, BG);
    assert_eq!(img.len(), 6);
    let k = 1 * 3 + 2;
    let dir = Vector3d::new(2 * 2 + 1 - 3, 2 - 2 * 1 - 1, -4);
    assert_eq!(img[k], cast_ray(&v(0, 0, 0), &dir, &ents, &lights, 4, BG));
    let empty = render(&[], &lights, 4, 4, 4, 4, BG);
    assert!(empty.iter().all(|c| *c == BG));
    assert!(render(&ents, &lights, 0, 5, 4, 4, BG).is_empty());
}

#[test]
fn center_pixel_sees_sphere() {
    let ents = vec![sphere(v(0, 0, -5), ONE, Material::ivory())];
    let lights = vec![Light::new(v(0, 5, 0), ONE)];
    let img = render(&ents, &lights, 1, 1, 10, 4, BG);
    assert_ne!(img[0], BG);
}

fn triangle() -> Triangle {
    Triangle::new([v(-1, -1, -5), v(1, -1, -5), v(0, 1, -5)], Material::red_rubber())
}

#[test]
fn triangle_hit_in_front() {
    let t = triangle().intersect(v(0, 0, 0), v(0, 0, -1)).unwrap();
    assert!((t - 5 * ONE).abs() <= 2);
    let t = triangle().intersect(v(0, 0, 0), Vector3d::new(0, 0, -7)).unwrap();
    assert!((t - 5 * ONE).abs() <= 2);
}

#[test]
fn triangle_misses() {
    assert_eq!(triangle().intersect(v(5, 0, 0), v(0, 0, -1)), None);
    assert_eq!(triangle().intersect(v(0, 0, 0), v(0, 0, 1)), None);
    assert_eq!(triangle().intersect(v(0, 0, 0), v(1, 0, 0)), None);
    assert_eq!(triangle().intersect(v(0, 0, 0), Vector3d::new(0, 0, 0)), None);
}

#[test]
fn triangle_normal_faces_viewer() {
    let n = triangle().norm(&v(0, 0, -5)).unwrap();
    assert_eq!(n.x, 0);
    assert_eq!(n.y, 0);
    assert!((n.z - ONE).abs() <= 2);
    let flat = Triangle::new([v(0, 0, 0), v(1, 0, 0), v(2, 0, 0)], Material::ivory());
    assert_eq!(flat.norm(&v(0, 0, 0)), None);
}

#[test]
fn triangle_in_scene_is_lit() {
    let ents = vec![Entity::Triangle(triangle())];
    let lights = vec![Light::new(v(0, 0, 5), ONE)];
    let c = cast_ray(&v(0, 0, 0), &v(0, 0, -1), &ents, &lights, 4, BG);
    assert_ne!(c, BG);
    assert_eq!(cast_ray(&v(0, 0, 0), &v(0, 0, 1), &ents, &lights, 4, BG), BG);
}

#[test]
fn validity_checks() {
    assert!(Material::glass().is_valid());
    let bad = Material::new(Color::new(1, 2, 3), Albedo::new(0, 0, 0, 0), 1, 0);
    assert!(!bad.is_valid());
    assert!(Sphere::new(v(0, 0, 0), ONE, bad).is_none());
    assert!(Light::new(v(1, 2, 3), ONE).is_valid());
    assert!(!Light::new(v(1, 2, 3), -1).is_valid());
    assert!(!Light::new(Vector3d::new(i64::MAX, 0, 0), ONE).is_valid());
}

#[test]
fn refract_normalizes_its_inputs() {
    let n = Vector3d::new(0, 0, 3 * ONE);
    let d = Vector3d::new(0, 0, -ONE / 2);
    assert_eq!(refract(&d, &n, ONE), Vector3d::new(0, 0, -ONE));
    let d = Vector3d::new(5 * ONE, 0, -5 * ONE);
    let r = refract(&d, &n, ONE);
    let u = d.normalize().unwrap();
    assert!((r.x - u.x).abs() <= 2 && r.y == 0 && (r.z - u.z).abs() <= 2);
    let l2 = r.length_squared();
    let one2 = (ONE as i128) * (ONE as i128);
    assert!((l2 - one2).abs() <= 6 * ONE as i128 + 2);
    assert_eq!(refract(&Vector3d::new(0, 0, 0), &n, ONE), Vector3d::new(0, 0, 0));
}

#[test]
fn thin_triangle_has_normal() {
    let t = Triangle::new([v(0, 0, 0), v(1, 0, 0), Vector3d::new(3 * ONE, 1, 0)], Material::ivory());
    let n = t.norm(&v(0, 0, 0)).unwrap();
    assert_eq!(n, Vector3d::new(0, 0, ONE));
    let ents = vec![Entity::Triangle(t)];
    let lights = vec![Light::new(v(1, 0, 5), ONE)];
    let c = cast_ray(&Vector3d::new(ONE / 2, 0, ONE), &v(0, 0, -1), &ents, &lights, 4, BG);
    assert_ne!(c, BG);
}

#[test]
fn large_triangle_normal() {
    let t = Triangle::new([v(-60000, -60000, -9), v(60000, -60000, -9), v(0, 60000, -9)], Material::ivory());
    assert_eq!(t.norm(&v(0, 0, -9)).unwrap(), Vector3d::new(0, 0, ONE));
}

#[test]
fn query_skips_hits_at_distance_zero() {
    let ents = vec![sphere(v(0, 0, -5), ONE, Material::ivory())];
    assert!(scene_intersect(&v(0, 0, -4), &v(0, 0, 1), &ents).is_none());
    let h = scene_intersect(&v(0, 0, -4), &v(0, 0, -1), &ents).unwrap();
    assert!((h.distance - 2 * ONE).abs() <= 64);
}

#[test]
fn vector_division() {
    assert_eq!(Vector3d::new(7, -7, 8).div(2), Vector3d::new(3, -3, 4));
}

#[test]
fn reflect_long_incident() {
    let n = Vector3d::new(0, ONE, 0);
    let i = Vector3d::new(1000 * ONE, -1000 * ONE, 0);
    assert_eq!(reflect(&i, &n), Vector3d::new(1000 * ONE, 1000 * ONE, 0));
}

#[test]
fn spheres_must_lie_inside_the_cube() {
    assert!(Sphere::new(v(0, 0, -65536), ONE, Material::ivory()).is_none());
    assert!(Sphere::new(v(0, 0, -65535), ONE, Material::ivory()).is_some());
}

#[test]
fn far_hits_are_kept() {
    let ents = vec![sphere(v(0, 0, -65534), ONE, Material::ivory())];
    let origin = v(0, 0, -131071);
    let h = scene_intersect(&origin, &v(0, 0, 1), &ents).unwrap();
    assert_eq!(h.entity, 0);
    assert!((h.distance - 65536 * ONE).abs() <= 64);
    let lights = vec![Light::new(v(0, 0, -65000), ONE)];
    assert_ne!(cast_ray(&origin, &v(0, 0, 1), &ents, &lights, 2, BG), BG);
}

#[test]
fn presets_hold_their_values() {
    let m = Material::glass();
    assert_eq!(m.diffuse_color, Color::new(153, 179, 204));
    assert_eq!(m.albedo, Albedo::new(0, 32768, 6554, 52429));
    assert_eq!(m.specular_exponent, 125);
    assert_eq!(m.refractive_index, 98304);
    assert_eq!(Material::ivory().albedo.diffuse, 39322);
}

#[test]
fn sphere_distances_are_not_negative() {
    let s = Sphere::new(v(0, 0, -5), ONE, Material::ivory()).unwrap();
    for o in [v(0, 0, -4), v(0, 0, -6), v(0, 1, -5), Vector3d::new(0, 0, -4 * ONE + 3)] {
        for d in [v(0, 0, 1), v(0, 0, -1), v(0, 1, 0), v(1, 1, 1)] {
            if let Some(t) = s.intersect(o, d) {
                assert!(t >= 0);
            }
        }
    }
}
