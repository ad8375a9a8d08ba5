use raytracer::hittable::{Hittable, Record, T_MIN};
use raytracer::ray::{Ray, PARAM_UNIT};
use raytracer::sphere::Sphere;
use raytracer::vector::{div_floor, isqrt, Vec3, UNIT};

const TOLERANCE: i64 = 100;

fn fixed(x: f64) -> i64 {
    (x * UNIT as f64).round() as i64
}

fn param(x: f64) -> i128 {
    (x * PARAM_UNIT as f64).round() as i128
}

fn v(x: f64, y: f64, z: f64) -> Vec3 {
    Vec3::new(fixed(x), fixed(y), fixed(z))
}

fn assert_vec3_equal(expected: Vec3, actual: Vec3) {
    assert!((expected.x - actual.x).abs() <= TOLERANCE, "{:?} != {:?}", expected, actual);
    assert!((expected.y - actual.y).abs() <= TOLERANCE, "{:?} != {:?}", expected, actual);
    assert!((expected.z - actual.z).abs() <= TOLERANCE, "{:?} != {:?}", expected, actual);
}

fn reference_sphere() -> Sphere {
    Sphere::new(v(0.0, 0.0, -1.0), fixed(0.5))
}

#[test]
fn at_distance() {
    let ray = Ray::new(v(1.0, 1.0, 1.0), v(3.0, 4.0, 0.0));
    let position = ray.at(param(5.0));
    let expected = v(16.0, 21.0, 1.0);
    assert_vec3_equal(expected, position);
}

#[test]
fn at_distance_is_exact() {
    let ray = Ray::new(v(1.0, 1.0, 1.0), v(3.0, 4.0, 0.0));
    assert_eq!(ray.at(param(5.0)), v(16.0, 21.0, 1.0));
}

#[test]
fn at_zero_is_origin() {
    let ray = Ray::new(v(1.5, -2.25, 3.0), v(-0.3, 0.7, 11.0));
    assert_eq!(ray.at(0), ray.origin);
}

#[test]
fn at_is_affine_within_one_step() {
    let ray = Ray::new(v(1.5, -2.25, 3.0), v(-0.333333, 0.7, 11.0));
    let s = param(-1.234567);
    let t = param(2.5);
    let a = ray.at(t);
    let b = ray.at(s);
    let d = ray.direction;
    for (pa, pb, dc) in [(a.x, b.x, d.x), (a.y, b.y, d.y), (a.z, b.z, d.z)] {
        let lhs = PARAM_UNIT * (pa - pb) as i128;
        let rhs = (t - s) * dc as i128;
        assert!((lhs - rhs).abs() < PARAM_UNIT);
    }
}

#[test]
fn at_negative_parameter() {
    let ray = Ray::new(v(0.0, 0.0, 0.0), v(1.0, -2.0, 0.5));
    assert_eq!(ray.at(param(-2.0)), v(-2.0, 4.0, -1.0));
}

#[test]
fn hit_straight_ahead() {
    let ray = Ray::new(v(0.0, 0.0, 0.0), v(0.0, 0.0, -1.0));
    let rec = reference_sphere().hit(&ray).unwrap();
    assert_eq!(rec.t, param(0.5));
    assert_eq!(rec.p, v(0.0, 0.0, -0.5));
    assert_eq!(rec.normal, v(0.0, 0.0, 1.0));
    assert_eq!(rec.p, ray.at(rec.t));
}

#[test]
fn hit_scaled_direction_same_point() {
    let ray = Ray::new(v(0.0, 0.0, 0.0), v(0.0, 0.0, -4.0));
    let rec = reference_sphere().hit(&ray).unwrap();
    assert_eq!(rec.t, param(0.125));
    assert_eq!(rec.p, v(0.0, 0.0, -0.5));
    assert_eq!(rec.normal, v(0.0, 0.0, 1.0));
}

#[test]
fn hit_point_lies_on_sphere() {
    let sphere = Sphere::new(v(1.0, 2.0, -3.0), fixed(1.5));
    let ray = Ray::new(v(0.1, 0.2, 0.3), v(0.25, 0.5, -0.8));
    let rec = sphere.hit(&ray).unwrap();
    assert_eq!(rec.p, ray.at(rec.t));
    let d = rec.p.sub(sphere.center);
    let len = d.length();
    assert!((len - sphere.radius).abs() <= TOLERANCE);
    let n = rec.normal.length();
    assert!((n - UNIT).abs() <= TOLERANCE);
}

#[test]
fn long_direction_hits_on_surface() {
    let ray = Ray::new(v(0.0, 0.0, 0.0), v(0.0, 0.0, -999.0));
    let rec = reference_sphere().hit(&ray).unwrap();
    assert_eq!(rec.p, ray.at(rec.t));
    assert!((rec.p.z - fixed(-0.5)).abs() <= 4, "{:?}", rec);
    assert!((rec.normal.length() - UNIT).abs() <= TOLERANCE, "{:?}", rec);
    assert_eq!(ray.color(), v(0.5, 0.5, 1.0));
}

#[test]
fn long_oblique_direction_hits_on_surface() {
    let sphere = Sphere::new(v(1.0, 2.0, -3.0), fixed(1.5));
    let ray = Ray::new(v(0.1, 0.2, 0.3), v(250.0, 500.0, -800.0));
    let rec = sphere.hit(&ray).unwrap();
    assert_eq!(rec.p, ray.at(rec.t));
    assert!((rec.p.sub(sphere.center).length() - sphere.radius).abs() <= TOLERANCE);
    assert!((rec.normal.length() - UNIT).abs() <= TOLERANCE);
}

#[test]
fn tangent_ray_misses() {
    let ray = Ray::new(v(0.0, 0.5, 0.0), v(0.0, 0.0, -1.0));
    assert!(reference_sphere().hit(&ray).is_none());
}

#[test]
fn ray_from_center_takes_far_root() {
    let ray = Ray::new(v(0.0, 0.0, -1.0), v(0.0, 0.0, -1.0));
    let rec = reference_sphere().hit(&ray).unwrap();
    assert_eq!(rec.t, param(0.5));
    assert_eq!(rec.p, v(0.0, 0.0, -1.5));
    assert_eq!(rec.normal, v(0.0, 0.0, -1.0));
}

#[test]
fn ray_from_surface_skips_near_root() {
    let ray = Ray::new(v(0.0, 0.0, -0.5), v(0.0, 0.0, -1.0));
    let rec = reference_sphere().hit(&ray).unwrap();
    assert!(rec.t > T_MIN);
    assert_eq!(rec.t, param(1.0));
    assert_eq!(rec.p, v(0.0, 0.0, -1.5));
}

#[test]
fn sphere_behind_ray_misses() {
    let ray = Ray::new(v(0.0, 0.0, 0.0), v(0.0, 0.0, 1.0));
    assert!(reference_sphere().hit(&ray).is_none());
}

#[test]
fn far_away_sphere_beyond_range_misses() {
    let sphere = Sphere::new(v(0.0, 0.0, -1001.0), fixed(1.0));
    let ray = Ray::new(v(0.0, 0.0, 0.0), v(0.0, 0.0, -0.0001));
    assert!(sphere.hit(&ray).is_none());
}

#[test]
fn color_hit_straight_ahead() {
    let ray = Ray::new(v(0.0, 0.0, 0.0), v(0.0, 0.0, -1.0));
    assert_eq!(ray.color(), v(0.5, 0.5, 1.0));
}

#[test]
fn color_zenith() {
    let ray = Ray::new(v(0.0, 0.0, 0.0), v(0.0, 1.0, 0.0));
    assert_eq!(ray.color(), v(0.5, 0.7, 1.0));
}

#[test]
fn color_horizon_along_minus_z() {
    let ray = Ray::new(v(5.0, 0.0, 0.0), v(0.0, 0.0, -1.0));
    assert_eq!(ray.color(), v(0.75, 0.85, 1.0));
}

#[test]
fn color_horizontal_x() {
    let ray = Ray::new(v(0.0, 0.0, 0.0), v(1.0, 0.0, 0.0));
    assert!(reference_sphere().hit(&ray).is_none());
    assert_eq!(ray.color(), v(0.75, 0.85, 1.0));
}

#[test]
fn color_straight_down_is_white() {
    let ray = Ray::new(v(0.0, 0.0, 0.0), v(0.0, -1.0, 0.0));
    assert_eq!(ray.color(), v(1.0, 1.0, 1.0));
}

#[test]
fn color_channels_in_unit_range() {
    for (dx, dy, dz) in [(0.1, 0.1, -1.0), (-0.2, 0.05, -1.0), (0.3, -0.4, 0.2), (0.0, 0.3, -0.9)] {
        let c = Ray::new(v(0.0, 0.0, 0.0), v(dx, dy, dz)).color();
        for ch in [c.x, c.y, c.z] {
            assert!(ch >= 0 && ch <= UNIT, "{:?}", c);
        }
    }
}

#[test]
fn unit_vector_exact() {
    assert_eq!(v(3.0, 4.0, 0.0).unit_vector(), v(0.6, 0.8, 0.0));
    assert_eq!(v(0.0, -0.001, 0.0).unit_vector(), v(0.0, -1.0, 0.0));
}

#[test]
fn unit_vector_has_unit_length() {
    for w in [v(1.0, 1.0, 1.0), v(-0.000003, 0.000001, 0.000002), v(1000.0, -3.0, 7.5), Vec3::new(1, 0, 0)] {
        let u = w.unit_vector();
        let len = ((u.x as f64).powi(2) + (u.y as f64).powi(2) + (u.z as f64).powi(2)).sqrt() / UNIT as f64;
        assert!((len - 1.0).abs() <= 1e-4, "{:?}", u);
    }
}

#[test]
fn unit_vector_of_zero_is_zero() {
    assert_eq!(Vec3::new(0, 0, 0).unit_vector(), Vec3::new(0, 0, 0));
}

#[test]
fn vector_arithmetic() {
    let a = v(1.0, 2.0, 3.0);
    let b = v(-0.5, 4.0, 0.25);
    assert_eq!(a.add(b), v(0.5, 6.0, 3.25));
    assert_eq!(a.sub(b), v(1.5, -2.0, 2.75));
    assert_eq!(a.scale(fixed(2.0)), v(2.0, 4.0, 6.0));
    assert_eq!(Vec3::new(-1, 0, 3).scale(fixed(0.5)), Vec3::new(-1, 0, 1));
    assert_eq!(a.dot(b), 8_250_000 * UNIT as i128);
    assert_eq!(a.length_squared(), 14 * UNIT as i128 * UNIT as i128);
    assert_eq!(v(3.0, 4.0, 0.0).length(), fixed(5.0));
}

#[test]
fn integer_helpers() {
    assert_eq!(isqrt(0), 0);
    assert_eq!(isqrt(15), 3);
    assert_eq!(isqrt(16), 4);
    assert_eq!(isqrt(u128::MAX), u64::MAX);
    assert_eq!(div_floor(7, 2), 3);
    assert_eq!(div_floor(-7, 2), -4);
    assert_eq!(div_floor(-8, 2), -4);
}

#[test]
fn record_new_keeps_fields() {
    let r = Record::new(v(1.0, 2.0, 3.0), v(0.0, 1.0, 0.0), 42);
    assert_eq!(r.p, v(1.0, 2.0, 3.0));
    assert_eq!(r.normal, v(0.0, 1.0, 0.0));
    assert_eq!(r.t, 42);
}

#[test]
fn sphere_new_keeps_fields() {
    let s = Sphere::new(v(1.0, 2.0, 3.0), 7);
    assert_eq!(s.center, v(1.0, 2.0, 3.0));
    assert_eq!(s.radius, 7);
}

#[test]
fn hit_color_encodes_unit_normal() {
    for (dx, dy, dz) in [(0.1, 0.1, -1.0), (-0.2, 0.05, -1.0), (0.0, 0.3, -0.9), (3.0, -2.0, -700.0)] {
        let ray = Ray::new(v(0.0, 0.0, 0.0), v(dx, dy, dz));
        assert!(reference_sphere().hit(&ray).is_some());
        let c = ray.color();
        let m = Vec3::new(2 * c.x - UNIT, 2 * c.y - UNIT, 2 * c.z - UNIT);
        assert!((m.length() - UNIT).abs() <= TOLERANCE, "{:?}", c);
    }
}
