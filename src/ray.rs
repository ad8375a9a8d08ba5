//! Rays and the color a ray sees.
use crate::hittable::Hittable;
use crate::sphere::{lemma_hit_on_ray_near_surface, Sphere};
use crate::vector::{
    div_floor, lemma_len2_zero, lemma_unit_length, Color, Point3, Vec3, COORD_LIMIT, UNIT,
    UNIT_TOLERANCE,
};
use vstd::prelude::*;

verus! {

/// A half-line from `origin` along `direction`; the direction need not have unit length.
#[derive(Clone, Copy, Debug, PartialEq, Eq, Structural)]
pub struct Ray {
    pub origin: Point3,
    pub direction: Vec3,
}

/// The sphere that `Ray::color` shades: center `(0, 0, -1)`, radius `0.5`.
pub open spec fn reference_sphere() -> Sphere {
    Sphere { center: Vec3 { x: 0, y: 0, z: -1_000_000i64 }, radius: 500_000 }
}

/// Color of a unit normal `n`: each coordinate mapped from `[-1, 1]` to `[0, 1]`
/// as `(n + 1) / 2`, rounded down.
pub open spec fn normal_color(n: Vec3) -> Color {
    Vec3 {
        x: ((n.x + UNIT) / 2) as i64,
        y: ((n.y + UNIT) / 2) as i64,
        z: ((n.z + UNIT) / 2) as i64,
    }
}

/// Blend weight of the sky for a unit direction `u`: `(u.y + 1) / 2`, rounded down.
pub open spec fn sky_weight(u: Vec3) -> int {
    (u.y + UNIT) / 2
}

/// The color at the top of the sky, `(0.5, 0.7, 1.0)`.
pub open spec fn zenith() -> Color {
    Vec3 { x: 500_000, y: 700_000, z: 1_000_000 }
}

/// `(1 - t) * white + t * zenith` with `t = sky_weight(u)`.
pub open spec fn sky_color(u: Vec3) -> Color {
    let t = sky_weight(u);
    let z = zenith();
    Vec3 {
        x: (UNIT - t + Vec3::scaled(t, z.x as int)) as i64,
        y: (UNIT - t + Vec3::scaled(t, z.y as int)) as i64,
        z: (UNIT - t + Vec3::scaled(t, z.z as int)) as i64,
    }
}

/// `t * k / UNIT` rounded down, for `t >= 0` and `0 <= k <= UNIT`, lies in `[0, t]`.
proof fn lemma_scaled_small(t: int, k: int)
    requires
        0 <= t,
        0 <= k <= UNIT,
    ensures
        0 <= Vec3::scaled(t, k) <= t,
{
    let u = UNIT as int;
    let p = t * k;
    let w = Vec3::scaled(t, k);
    assert(p == u * w + p % u && 0 <= p % u < u) by (nonlinear_arith)
        requires
            u > 0,
            w == p / u,
    ;
    assert(0 <= p <= t * u) by (nonlinear_arith)
        requires
            0 <= k <= u,
            0 <= t,
            p == t * k,
    ;
    assert(0 <= w <= t) by (nonlinear_arith)
        requires
            p == u * w + p % u,
            0 <= p % u < u,
            u > 0,
            0 <= p <= t * u,
    ;
}

/// Number of parameter steps in one real unit: a ray parameter `t` stands for
/// `t / PARAM_UNIT`. The parameter is finer than the coordinates, so that rounding it
/// moves a point by far less than one coordinate step along any admitted direction.
pub const PARAM_UNIT: i128 = 1_000_000_000_000;

/// Offset of a coordinate at parameter `t` along the direction coordinate `d`,
/// `t * d / PARAM_UNIT`, rounded down.
pub open spec fn advance(t: int, d: int) -> int {
    (t * d) / (PARAM_UNIT as int)
}

pub open spec fn fits_i128(v: int) -> bool {
    i128::MIN <= v <= i128::MAX
}

/// `PARAM_UNIT * delta` is within less than one parameter step of `dt * d`: a coordinate
/// moved by `delta` when the parameter moved by `dt` along a direction coordinate `d`.
pub open spec fn moved_by(delta: int, dt: int, d: int) -> bool {
    -(PARAM_UNIT as int) < PARAM_UNIT * delta - dt * d < PARAM_UNIT
}

proof fn lemma_scaled_difference(s: int, t: int, d: int)
    ensures
        moved_by(advance(t, d) - advance(s, d), t - s, d),
{
    let u = PARAM_UNIT as int;
    let ws = advance(s, d);
    let wt = advance(t, d);
    assert(s * d == u * ws + (s * d) % u && 0 <= (s * d) % u < u) by (nonlinear_arith)
        requires
            u > 0,
            ws == (s * d) / u,
    ;
    assert(t * d == u * wt + (t * d) % u && 0 <= (t * d) % u < u) by (nonlinear_arith)
        requires
            u > 0,
            wt == (t * d) / u,
    ;
    assert((t - s) * d == t * d - s * d) by (nonlinear_arith);
    assert(u * (wt - ws) == u * wt - u * ws) by (nonlinear_arith);
}

/// `at` is affine: the point at parameter zero is the origin, and between any two
/// parameters `s` and `t` each coordinate moves by `(t - s) * direction`, to within
/// the rounding of one parameter step. Both points must be representable (`at_fits`),
/// which is the only condition.
pub proof fn lemma_at_affine(r: Ray, s: int, t: int)
    requires
        r.at_fits(s),
        r.at_fits(t),
    ensures
        r.at_spec(0) == r.origin,
        moved_by(r.at_spec(t).x - r.at_spec(s).x, t - s, r.direction.x as int),
        moved_by(r.at_spec(t).y - r.at_spec(s).y, t - s, r.direction.y as int),
        moved_by(r.at_spec(t).z - r.at_spec(s).z, t - s, r.direction.z as int),
{
    let d = r.direction;
    assert(advance(0, d.x as int) == 0 && advance(0, d.y as int) == 0 && advance(0, d.z as int)
        == 0);
    assert(r.at_spec(0) =~= r.origin);
    lemma_scaled_difference(s, t, d.x as int);
    lemma_scaled_difference(s, t, d.y as int);
    lemma_scaled_difference(s, t, d.z as int);
}

/// One channel `c = (n + UNIT) / 2` of a normal color, turned back into `2 * c - UNIT`,
/// is `n` or `n - 1`.
proof fn lemma_channel_round_trip(n: int)
    requires
        -(UNIT as int) <= n <= UNIT,
    ensures
        ({
            let m = 2 * ((n + UNIT) / 2) - UNIT;
            &&& m * m <= n * n + 2 * UNIT + 1
            &&& m * m >= n * n - 2 * UNIT
        }),
{
    let u = UNIT as int;
    let c = (n + u) / 2;
    let m = 2 * c - u;
    assert(m == n || m == n - 1);
    assert(m * m <= n * n + 2 * u + 1 && m * m >= n * n - 2 * u) by (nonlinear_arith)
        requires
            m == n || m == n - 1,
            -u <= n <= u,
    ;
}

/// Where the ray hits the reference sphere, its color encodes a unit normal: `2 * c - 1`
/// has length one to within `UNIT_TOLERANCE`.
pub proof fn lemma_hit_color_unit_normal(r: Ray)
    requires
        r.in_scene(),
        reference_sphere().intersect(r) is Some,
    ensures
        ({
            let c = r.color_spec();
            let (mx, my, mz) = (2 * c.x - UNIT, 2 * c.y - UNIT, 2 * c.z - UNIT);
            (UNIT - UNIT_TOLERANCE) * (UNIT - UNIT_TOLERANCE) <= mx * mx + my * my + mz * mz <= (
            UNIT + UNIT_TOLERANCE) * (UNIT + UNIT_TOLERANCE)
        }),
{
    let s = reference_sphere();
    lemma_hit_on_ray_near_surface(s, r);
    let h = s.intersect(r)->Some_0;
    let g = h.p.sub_spec(s.center);
    assert(g.len2_spec() == s.dist2(h.p));
    lemma_len2_zero(g);
    assert(g.len2_spec() > 0);
    lemma_unit_length(g);
    let n = g.unit_spec();
    let c = r.color_spec();
    assert(c == normal_color(n));
    lemma_channel_round_trip(n.x as int);
    lemma_channel_round_trip(n.y as int);
    lemma_channel_round_trip(n.z as int);
}

impl Ray {
    /// Origin and direction are within the coordinate limit, and the direction is not zero.
    pub open spec fn in_scene(self) -> bool {
        &&& self.origin.within(COORD_LIMIT as int)
        &&& self.direction.within(COORD_LIMIT as int)
        &&& !self.direction.is_zero()
    }

    /// The point at parameter `t` is representable, and so are the products on the way.
    pub open spec fn at_fits(self, t: int) -> bool {
        let (o, d) = (self.origin, self.direction);
        &&& fits_i128(t * d.x) && fits_i128(t * d.y) && fits_i128(t * d.z)
        &&& Vec3::fits_i64(o.x + advance(t, d.x as int))
        &&& Vec3::fits_i64(o.y + advance(t, d.y as int))
        &&& Vec3::fits_i64(o.z + advance(t, d.z as int))
    }

    /// `origin + t * direction`, with `t` in steps of `1 / PARAM_UNIT` and each product
    /// rounded down.
    pub open spec fn at_spec(self, t: int) -> Point3 {
        let (o, d) = (self.origin, self.direction);
        Vec3 {
            x: (o.x + advance(t, d.x as int)) as i64,
            y: (o.y + advance(t, d.y as int)) as i64,
            z: (o.z + advance(t, d.z as int)) as i64,
        }
    }

    pub fn new(origin: Point3, direction: Vec3) -> (r: Ray)
        ensures
            r.origin == origin && r.direction == direction,
    {
        Ray { origin, direction }
    }

    /// What the ray sees: the shaded normal where it hits the reference sphere,
    /// else the sky gradient along its direction.
    pub open spec fn color_spec(self) -> Color {
        let s = reference_sphere();
        match s.intersect(self) {
            Some(h) => normal_color(h.p.sub_spec(s.center).unit_spec()),
            None => sky_color(self.direction.unit_spec()),
        }
    }

    /// The point at parameter `distance` (in steps of `1 / PARAM_UNIT`) along the ray.
    pub fn at(&self, distance: i128) -> (p: Point3)
        requires
            self.at_fits(distance as int),
        ensures
            p == self.at_spec(distance as int),
    {
        let (o, d) = (self.origin, self.direction);
        let x = o.x as i128 + div_floor(distance * d.x as i128, PARAM_UNIT);
        let y = o.y as i128 + div_floor(distance * d.y as i128, PARAM_UNIT);
        let z = o.z as i128 + div_floor(distance * d.z as i128, PARAM_UNIT);
        Vec3::new(x as i64, y as i64, z as i64)
    }

    /// The color this ray sees (see `color_spec`).
    pub fn color(&self) -> (c: Color)
        requires
            self.in_scene(),
        ensures
            c == self.color_spec(),
            0 <= c.x <= UNIT && 0 <= c.y <= UNIT && 0 <= c.z <= UNIT,
    {
        let sphere = Sphere::new(Vec3::new(0, 0, -1_000_000), 500_000);
        proof {
            lemma_hit_on_ray_near_surface(sphere, *self);
        }
        if let Some(h) = sphere.hit(self) {
            let n = h.p.sub(sphere.center).unit_vector();
            let x = div_floor(n.x as i128 + UNIT as i128, 2);
            let y = div_floor(n.y as i128 + UNIT as i128, 2);
            let z = div_floor(n.z as i128 + UNIT as i128, 2);
            return Vec3::new(x as i64, y as i64, z as i64);
        }
        let unit_direction = self.direction.unit_vector();
        let t = div_floor(unit_direction.y as i128 + UNIT as i128, 2) as i64;
        let zenith = Vec3::new(500_000, 700_000, 1_000_000);
        proof {
            lemma_scaled_small(t as int, zenith.x as int);
            lemma_scaled_small(t as int, zenith.y as int);
            lemma_scaled_small(t as int, zenith.z as int);
        }
        let base = UNIT - t;
        Vec3::new(base, base, base).add(zenith.scale(t))
    }
}

} // verus!
