//! Spheres and the analytic ray-sphere intersection.
use crate::hittable::{t_in_range, Hittable, Record, T_MAX, T_MIN};
use crate::ray::{advance, fits_i128, Ray, PARAM_UNIT};
use crate::vector::{
    div_floor, is_sqrt_floor, isqrt, lemma_len2_nonneg, lemma_len2_zero, lemma_sqrt_floor, sqrt_floor,
    Vec3, COORD_LIMIT, UNIT, UNIT_TOLERANCE,
};
use vstd::prelude::*;

verus! {

/// Slack, in steps, by which a reported point may stand outside the sphere's bounding
/// box in each coordinate; it covers the rounding of the parameter.
pub const BOX_SLACK: i64 = 2048;

/// Smallest radius (0.1 in real units) for which reported normals are of unit length
/// to within `UNIT_TOLERANCE`.
pub const NORMAL_RADIUS_MIN: i64 = 100_000;

/// A sphere given by its center and a positive radius.
#[derive(Clone, Copy, Debug, PartialEq, Eq, Structural)]
pub struct Sphere {
    pub center: Vec3,
    pub radius: i64,
}

impl Sphere {
    /// Center within the coordinate limit, radius positive and within it.
    pub open spec fn wf(self) -> bool {
        self.center.within(COORD_LIMIT as int) && 0 < self.radius <= COORD_LIMIT
    }

    /// `origin - center`.
    pub open spec fn offset(self, r: Ray) -> Vec3 {
        r.origin.sub_spec(self.center)
    }

    /// `a = direction . direction`.
    pub open spec fn coef_a(self, r: Ray) -> int {
        r.direction.len2_spec()
    }

    /// `half_b = offset . direction`.
    pub open spec fn half_b(self, r: Ray) -> int {
        self.offset(r).dot_spec(r.direction)
    }

    /// `c = offset . offset - radius * radius`.
    pub open spec fn coef_c(self, r: Ray) -> int {
        self.offset(r).len2_spec() - self.radius * self.radius
    }

    /// `half_b * half_b - a * c`: positive exactly when the ray's line crosses the sphere.
    pub open spec fn discriminant(self, r: Ray) -> int {
        self.half_b(r) * self.half_b(r) - self.coef_a(r) * self.coef_c(r)
    }

    /// The smaller root `(-half_b - sqrt(discriminant)) / a`, in parameter steps, rounded down.
    pub open spec fn near_root(self, r: Ray) -> int {
        (PARAM_UNIT * (-self.half_b(r) - sqrt_floor(self.discriminant(r)))) / self.coef_a(r)
    }

    /// The larger root `(-half_b + sqrt(discriminant)) / a`, in parameter steps, rounded down.
    pub open spec fn far_root(self, r: Ray) -> int {
        (PARAM_UNIT * (-self.half_b(r) + sqrt_floor(self.discriminant(r)))) / self.coef_a(r)
    }

    /// `(p - center) / radius`, each coordinate rounded down.
    pub open spec fn normal_at(self, p: Vec3) -> Vec3 {
        Vec3 {
            x: ((UNIT * (p.x - self.center.x)) / (self.radius as int)) as i64,
            y: ((UNIT * (p.y - self.center.y)) / (self.radius as int)) as i64,
            z: ((UNIT * (p.z - self.center.z)) / (self.radius as int)) as i64,
        }
    }

    /// The record of the point at parameter `t` on `r`.
    pub open spec fn record_at(self, r: Ray, t: int) -> Record {
        let p = r.at_spec(t);
        Record { p, normal: self.normal_at(p), t: t as i128 }
    }

    /// No hit when the discriminant is not positive (a tangent ray misses); else the
    /// near root when in range, else the far root when in range, else no hit.
    pub open spec fn intersect(self, r: Ray) -> Option<Record> {
        if self.discriminant(r) <= 0 {
            None
        } else if t_in_range(self.near_root(r)) {
            Some(self.record_at(r, self.near_root(r)))
        } else if t_in_range(self.far_root(r)) {
            Some(self.record_at(r, self.far_root(r)))
        } else {
            None
        }
    }

    /// `p` lies in the sphere's bounding box widened by `BOX_SLACK` on each side: each
    /// coordinate of `p - center` is at most `radius + BOX_SLACK` in magnitude.
    pub open spec fn in_box(self, p: Vec3) -> bool {
        let lim = self.radius + BOX_SLACK;
        &&& -lim <= p.x - self.center.x <= lim
        &&& -lim <= p.y - self.center.y <= lim
        &&& -lim <= p.z - self.center.z <= lim
    }

    /// Squared distance of `p` from the center, in squared steps.
    pub open spec fn dist2(self, p: Vec3) -> int {
        (p.x - self.center.x) * (p.x - self.center.x) + (p.y - self.center.y) * (p.y
            - self.center.y) + (p.z - self.center.z) * (p.z - self.center.z)
    }

    /// `p` is at distance `radius` from the center to within a few steps:
    /// `|p - center| <= radius + 4` and `|p - center|^2 >= radius^2 - 10 * radius`.
    pub open spec fn close_to_surface(self, p: Vec3) -> bool {
        let rad = self.radius as int;
        &&& self.dist2(p) <= (rad + 4) * (rad + 4)
        &&& self.dist2(p) >= rad * rad - 10 * rad
    }

    /// `p` is at distance `radius` from the center to within `UNIT_TOLERANCE` steps
    /// (0.0001 in real units).
    pub open spec fn on_surface(self, p: Vec3) -> bool {
        let rad = self.radius as int;
        let tol = UNIT_TOLERANCE as int;
        &&& self.dist2(p) <= (rad + tol) * (rad + tol)
        &&& (rad <= tol || self.dist2(p) >= (rad - tol) * (rad - tol))
    }

    pub fn new(center: Vec3, radius: i64) -> (s: Sphere)
        ensures
            s.center == center && s.radius == radius,
    {
        Sphere { center, radius }
    }
}

/// Magnitude bounds on the quadratic's coefficients; they keep every step of `hit` within `i128`.
proof fn lemma_coefficient_bounds(s: Sphere, r: Ray)
    requires
        s.wf(),
        r.in_scene(),
    ensures
        r.origin.sub_fits(s.center),
        s.offset(r).within(2 * COORD_LIMIT),
        1 <= s.coef_a(r) <= 3 * COORD_LIMIT * COORD_LIMIT,
        -6 * COORD_LIMIT * COORD_LIMIT <= s.half_b(r) <= 6 * COORD_LIMIT * COORD_LIMIT,
        0 <= s.offset(r).len2_spec() <= 12 * COORD_LIMIT * COORD_LIMIT,
        0 < s.radius * s.radius <= COORD_LIMIT * COORD_LIMIT,
        0 <= s.half_b(r) * s.half_b(r) <= 0x24000000000000000000000000000000int,
        -0x3000000000000000000000000000000int <= s.coef_a(r) * s.coef_c(r)
            <= 0x24000000000000000000000000000000int,
{
    let l = COORD_LIMIT as int;
    let o = s.offset(r);
    let d = r.direction;
    lemma_len2_zero(d);
    lemma_len2_nonneg(d);
    lemma_len2_nonneg(o);
    assert(d.len2_spec() <= 3 * l * l) by (nonlinear_arith)
        requires
            -l <= d.x <= l,
            -l <= d.y <= l,
            -l <= d.z <= l,
            d.len2_spec() == d.x * d.x + d.y * d.y + d.z * d.z,
    ;
    assert(o.len2_spec() <= 12 * l * l) by (nonlinear_arith)
        requires
            -2 * l <= o.x <= 2 * l,
            -2 * l <= o.y <= 2 * l,
            -2 * l <= o.z <= 2 * l,
            o.len2_spec() == o.x * o.x + o.y * o.y + o.z * o.z,
    ;
    assert(-6 * l * l <= o.dot_spec(d) <= 6 * l * l) by (nonlinear_arith)
        requires
            -l <= d.x <= l,
            -l <= d.y <= l,
            -l <= d.z <= l,
            -2 * l <= o.x <= 2 * l,
            -2 * l <= o.y <= 2 * l,
            -2 * l <= o.z <= 2 * l,
            o.dot_spec(d) == o.x * d.x + o.y * d.y + o.z * d.z,
    ;
    assert(0 < s.radius * s.radius <= l * l) by (nonlinear_arith)
        requires
            0 < s.radius <= l,
    ;
    let hb = s.half_b(r);
    let a = s.coef_a(r);
    let c = s.coef_c(r);
    assert(0 <= hb * hb <= 36 * l * l * l * l) by (nonlinear_arith)
        requires
            -6 * l * l <= hb <= 6 * l * l,
    ;
    assert(-3 * l * l * l * l <= a * c <= 36 * l * l * l * l) by (nonlinear_arith)
        requires
            0 <= a <= 3 * l * l,
            -(l * l) <= c <= 12 * l * l,
    ;
    assert(l * l * l * l == 0x1000000000000000000000000000000int) by (nonlinear_arith)
        requires
            l == 0x4000_0000,
    ;
}

/// The integer root of a discriminant that fits `i128` fits in 64 bits.
proof fn lemma_root_bound(n: int, s: int)
    requires
        0 <= n < 0x8000_0000_0000_0000_0000_0000_0000_0000int,
        is_sqrt_floor(n, s),
    ensures
        0 <= s < 0x1_0000_0000_0000_0000int,
{
    if s >= 0x1_0000_0000_0000_0000int {
        assert(s * s >= 0x1_0000_0000_0000_0000int * 0x1_0000_0000_0000_0000int) by (nonlinear_arith)
            requires
                s >= 0x1_0000_0000_0000_0000int,
        ;
    }
}

/// A coordinate `e` of `p - center` with `|e| <= radius + BOX_SLACK` gives a normal
/// coordinate that fits comfortably.
proof fn lemma_normal_bound(e: int, rad: int)
    requires
        1 <= rad,
        -(rad + BOX_SLACK) <= e <= rad + BOX_SLACK,
    ensures
        -(UNIT * (BOX_SLACK + 2)) <= (UNIT * e) / rad <= UNIT * (BOX_SLACK + 2),
{
    let k = UNIT * e;
    let q = k / rad;
    assert(k == rad * q + k % rad && 0 <= k % rad < rad) by (nonlinear_arith)
        requires
            rad > 0,
            q == k / rad,
    ;
    assert(-(UNIT * (BOX_SLACK + 2)) <= q <= UNIT * (BOX_SLACK + 2)) by (nonlinear_arith)
        requires
            k == rad * q + k % rad,
            0 <= k % rad < rad,
            k == UNIT * e,
            rad >= 1,
            -(rad + BOX_SLACK) <= e <= rad + BOX_SLACK,
    ;
}

/// `(t * d) / UNIT` for an in-range parameter and a coordinate within the limit
/// stays far inside `i64`.
proof fn lemma_scaled_bound(t: int, d: int)
    requires
        0 <= t <= T_MAX,
        -(COORD_LIMIT as int) <= d <= COORD_LIMIT,
    ensures
        -10_000_000 * COORD_LIMIT <= advance(t, d) <= 10_000_000 * COORD_LIMIT,
        fits_i128(t * d),
{
    let k = t * d;
    let w = advance(t, d);
    let u = PARAM_UNIT as int;
    assert(k == u * w + k % u && 0 <= k % u < u) by (nonlinear_arith)
        requires
            w == k / u,
            u > 0,
    ;
    assert(-9_999_999_000_000_000_000 * 0x4000_0000 <= k <= 9_999_999_000_000_000_000
        * 0x4000_0000) by (nonlinear_arith)
        requires
            0 <= t <= 9_999_999_000_000_000_000,
            -0x4000_0000 <= d <= 0x4000_0000,
            k == t * d,
    ;
    assert(-10_000_000 * 0x4000_0000 <= w <= 10_000_000 * 0x4000_0000) by (nonlinear_arith)
        requires
            k == u * w + k % u,
            0 <= k % u < u,
            u == 1_000_000_000_000,
            -9_999_999_000_000_000_000 * 0x4000_0000 <= k <= 9_999_999_000_000_000_000
                * 0x4000_0000,
    ;
}

/// `(a * o + x * d)^2 == a * a * o * o + 2 * a * x * (o * d) + x * x * (d * d)`.
proof fn lemma_square_of_sum(a: int, x: int, o: int, d: int)
    ensures
        (a * o + x * d) * (a * o + x * d) == a * a * (o * o) + 2 * a * x * (o * d) + x * x * (d
            * d),
{
    let p = a * o;
    let q = x * d;
    assert((p + q) * (p + q) == p * p + 2 * (p * q) + q * q) by (nonlinear_arith);
    assert(p * p == a * a * (o * o)) by (nonlinear_arith)
        requires
            p == a * o,
    ;
    assert(p * q == a * x * (o * d)) by (nonlinear_arith)
        requires
            p == a * o,
            q == x * d,
    ;
    assert(q * q == x * x * (d * d)) by (nonlinear_arith)
        requires
            q == x * d,
    ;
    assert(2 * (p * q) == 2 * a * x * (o * d)) by (nonlinear_arith)
        requires
            p * q == a * x * (o * d),
    ;
}

/// `sum_i (a * o_i + x * d_i)^2 == a * (a * |o|^2 + 2 * x * (o . d) + x * x)`.
proof fn lemma_expand(a: int, x: int, o: Vec3, d: Vec3)
    requires
        a == d.len2_spec(),
    ensures
        (a * o.x + x * d.x) * (a * o.x + x * d.x) + (a * o.y + x * d.y) * (a * o.y + x * d.y) + (a
            * o.z + x * d.z) * (a * o.z + x * d.z) == a * (a * o.len2_spec() + 2 * x * o.dot_spec(
            d,
        ) + x * x),
{
    lemma_square_of_sum(a, x, o.x as int, d.x as int);
    lemma_square_of_sum(a, x, o.y as int, d.y as int);
    lemma_square_of_sum(a, x, o.z as int, d.z as int);
    let n = o.len2_spec();
    let m = o.dot_spec(d);
    assert(a * a * (o.x * o.x) + a * a * (o.y * o.y) + a * a * (o.z * o.z) == a * a * n)
        by (nonlinear_arith)
        requires
            n == o.x * o.x + o.y * o.y + o.z * o.z,
    ;
    assert(2 * a * x * (o.x * d.x) + 2 * a * x * (o.y * d.y) + 2 * a * x * (o.z * d.z) == 2 * a
        * x * m) by (nonlinear_arith)
        requires
            m == o.x * d.x + o.y * d.y + o.z * d.z,
    ;
    assert(x * x * (d.x * d.x) + x * x * (d.y * d.y) + x * x * (d.z * d.z) == x * x * a)
        by (nonlinear_arith)
        requires
            a == d.x * d.x + d.y * d.y + d.z * d.z,
    ;
    assert(a * (a * n + 2 * x * m + x * x) == a * a * n + 2 * a * x * m + x * x * a)
        by (nonlinear_arith);
}

/// `y * y <= b * b` with `b >= 0` bounds `|y|` by `b`.
proof fn lemma_square_bound(y: int, b: int)
    requires
        b >= 0,
        y * y <= b * b,
    ensures
        -b <= y <= b,
{
    if y > b {
        assert(y * y > b * b) by (nonlinear_arith)
            requires
                y > b,
                b >= 0,
        ;
    }
    if y < -b {
        assert(y * y > b * b) by (nonlinear_arith)
            requires
                y < -b,
                b >= 0,
        ;
    }
}

/// One coordinate of the rounded point: from `|a * o + x * d| <= a * rad`, the point at
/// `t = (UNIT * x) / a` is off the center by at most `rad + BOX_SLACK`.
proof fn lemma_rounded_offset(a: int, x: int, o: int, d: int, rad: int, t: int)
    requires
        a >= 1,
        rad >= 0,
        -(a * rad) <= a * o + x * d <= a * rad,
        t == (PARAM_UNIT * x) / a,
        -(COORD_LIMIT as int) <= d <= COORD_LIMIT,
    ensures
        -(rad + BOX_SLACK) <= o + advance(t, d) <= rad + BOX_SLACK,
        -(a * (COORD_LIMIT + PARAM_UNIT)) <= PARAM_UNIT * (a * o + x * d) - PARAM_UNIT * a * (o
            + advance(t, d)) <= a * (COORD_LIMIT + PARAM_UNIT),
{
    let u = PARAM_UNIT as int;
    let l = COORD_LIMIT as int;
    let m = l;
    let w = advance(t, d);
    let f1 = (u * x) % a;
    let f2 = (t * d) % u;
    assert(u * x == a * t + f1 && 0 <= f1 < a) by (nonlinear_arith)
        requires
            a > 0,
            t == (u * x) / a,
            f1 == (u * x) % a,
    ;
    assert(t * d == u * w + f2 && 0 <= f2 < u) by (nonlinear_arith)
        requires
            u > 0,
            w == (t * d) / u,
            f2 == (t * d) % u,
    ;
    assert(a * (u * w) == a * (t * d) - a * f2) by (nonlinear_arith)
        requires
            t * d == u * w + f2,
    ;
    assert(a * (t * d) == (a * t) * d) by (nonlinear_arith);
    assert((a * t) * d == (u * x) * d - f1 * d) by (nonlinear_arith)
        requires
            u * x == a * t + f1,
    ;
    assert(u * a * (o + w) == u * (a * o) + a * (u * w)) by (nonlinear_arith);
    assert(u * (a * o + x * d) == u * (a * o) + (u * x) * d) by (nonlinear_arith);
    assert(u * a * (o + w) == u * (a * o + x * d) - f1 * d - a * f2);
    assert(-(a * l) <= f1 * d <= a * l) by (nonlinear_arith)
        requires
            0 <= f1 < a,
            -l <= d <= l,
    ;
    assert(0 <= a * f2 <= a * u) by (nonlinear_arith)
        requires
            0 <= f2 < u,
            a > 0,
    ;
    assert(-(u * (a * rad)) <= u * (a * o + x * d) <= u * (a * rad)) by (nonlinear_arith)
        requires
            -(a * rad) <= a * o + x * d <= a * rad,
            u > 0,
    ;
    assert(-(a * m) <= f1 * d <= a * m) by (nonlinear_arith)
        requires
            0 <= f1 < a,
            -m <= d <= m,
    ;
    assert(a * (m + u) == a * m + a * u) by (nonlinear_arith);
    assert(a * (u * rad + l + u) == u * (a * rad) + a * l + a * u) by (nonlinear_arith);
    assert(u * a * (o + w) <= a * (u * rad + l + u));
    assert(u * a * (o + w) >= -(a * (u * rad + l + u)));
    assert(u * (o + w) <= u * rad + l + u && u * (o + w) >= -(u * rad + l + u))
        by (nonlinear_arith)
        requires
            u * a * (o + w) <= a * (u * rad + l + u),
            u * a * (o + w) >= -(a * (u * rad + l + u)),
            a > 0,
    ;
}

/// `a * |o|^2 - (o . d)^2` is a sum of squares when `a == |d|^2` (Lagrange's identity),
/// hence not negative.
proof fn lemma_cauchy_schwarz(o: Vec3, d: Vec3)
    ensures
        o.dot_spec(d) * o.dot_spec(d) <= d.len2_spec() * o.len2_spec(),
{
    let (ox, oy, oz) = (o.x as int, o.y as int, o.z as int);
    let (dx, dy, dz) = (d.x as int, d.y as int, d.z as int);
    let (p1, p2, p3) = (ox * dx, oy * dy, oz * dz);
    let (d1, d2, d3) = (dx * dx, dy * dy, dz * dz);
    let (o1, o2, o3) = (ox * ox, oy * oy, oz * oz);
    assert((d1 + d2 + d3) * (o1 + o2 + o3) == d1 * o1 + d1 * o2 + d1 * o3 + d2 * o1 + d2 * o2 + d2
        * o3 + d3 * o1 + d3 * o2 + d3 * o3) by (nonlinear_arith);
    assert((p1 + p2 + p3) * (p1 + p2 + p3) == p1 * p1 + p2 * p2 + p3 * p3 + 2 * (p1 * p2) + 2 * (
    p1 * p3) + 2 * (p2 * p3)) by (nonlinear_arith);
    lemma_cross_square(ox, dx, oy, dy);
    lemma_cross_square(ox, dx, oz, dz);
    lemma_cross_square(oy, dy, oz, dz);
}

/// `(x * e - y * c)^2 == (c * c) * (y * y) + (e * e) * (x * x) - 2 * ((x * c) * (y * e))`
/// and the diagonal products agree, with the square not negative.
proof fn lemma_cross_square(x: int, c: int, y: int, e: int)
    ensures
        (c * c) * (y * y) + (e * e) * (x * x) - 2 * ((x * c) * (y * e)) >= 0,
        (c * c) * (x * x) == (x * c) * (x * c),
        (e * e) * (y * y) == (y * e) * (y * e),
{
    let aa = x * e;
    let bb = y * c;
    assert((aa - bb) * (aa - bb) == aa * aa - 2 * (aa * bb) + bb * bb) by (nonlinear_arith);
    assert(aa * aa == (e * e) * (x * x)) by (nonlinear_arith)
        requires
            aa == x * e,
    ;
    assert(bb * bb == (c * c) * (y * y)) by (nonlinear_arith)
        requires
            bb == y * c,
    ;
    assert(aa * bb == (x * c) * (y * e)) by (nonlinear_arith)
        requires
            aa == x * e,
            bb == y * c,
    ;
    assert((aa - bb) * (aa - bb) >= 0) by (nonlinear_arith);
    assert((c * c) * (x * x) == (x * c) * (x * c)) by (nonlinear_arith);
    assert((e * e) * (y * y) == (y * e) * (y * e)) by (nonlinear_arith);
}

/// One coordinate `g` of the rounded point's offset from the center, against the exact
/// `q / a` with rounding error `e`: bounds on `(UNIT * a * g)^2`.
proof fn lemma_component_error(a: int, g: int, q: int, e: int, rad: int, k: int)
    requires
        a > 0,
        rad >= 0,
        k >= 0,
        e == PARAM_UNIT * q - PARAM_UNIT * a * g,
        -(a * k) <= e <= a * k,
        -(a * rad) <= q <= a * rad,
    ensures
        PARAM_UNIT * PARAM_UNIT * (a * a) * (g * g) <= PARAM_UNIT * PARAM_UNIT * (q * q) + 2
            * PARAM_UNIT * (a * a * rad * k) + a * a * (k * k),
        PARAM_UNIT * PARAM_UNIT * (a * a) * (g * g) >= PARAM_UNIT * PARAM_UNIT * (q * q) - 2
            * PARAM_UNIT * (a * a * rad * k),
{
    let u = PARAM_UNIT as int;
    assert(u * u * (a * a) * (g * g) == (u * q - e) * (u * q - e)) by (nonlinear_arith)
        requires
            e == u * q - u * a * g,
    ;
    assert((u * q - e) * (u * q - e) == u * u * (q * q) - 2 * u * (q * e) + e * e)
        by (nonlinear_arith);
    assert(-(a * a * rad * k) <= q * e <= a * a * rad * k) by (nonlinear_arith)
        requires
            -(a * k) <= e <= a * k,
            -(a * rad) <= q <= a * rad,
            a > 0,
            rad >= 0,
            k >= 0,
    ;
    assert(0 <= e * e <= a * a * (k * k)) by (nonlinear_arith)
        requires
            -(a * k) <= e <= a * k,
            a > 0,
            k >= 0,
    ;
    assert(-(2 * u * (a * a * rad * k)) <= 2 * u * (q * e) <= 2 * u * (a * a * rad * k))
        by (nonlinear_arith)
        requires
            -(a * a * rad * k) <= q * e <= a * a * rad * k,
            u > 0,
    ;
}

/// The two polynomial identities that close the distance bounds of `lemma_root_point`.
proof fn lemma_distance_identities(aa: int, u: int, rad: int, k: int)
    ensures
        aa * ((u * rad + 3 * k) * (u * rad + 3 * k)) == u * u * (aa * (rad * rad)) + 3 * (2 * u * (
        aa * rad * k)) + 9 * (aa * (k * k)),
        aa * (u * u * (rad * rad) - 2 * u * rad * (u + 3 * k)) == u * u * (aa * (rad * rad)) - 2 * (
        u * u * (aa * rad)) - 3 * (2 * u * (aa * rad * k)),
{
    let p = u * rad;
    let q = 3 * k;
    assert((p + q) * (p + q) == p * p + 2 * (p * q) + q * q) by (nonlinear_arith);
    assert(aa * (p * p + 2 * (p * q) + q * q) == aa * (p * p) + 2 * (aa * (p * q)) + aa * (q * q))
        by (nonlinear_arith);
    assert(aa * (p * p) == u * u * (aa * (rad * rad))) by (nonlinear_arith)
        requires
            p == u * rad,
    ;
    assert(aa * (p * q) == 3 * (u * (aa * rad * k))) by (nonlinear_arith)
        requires
            p == u * rad,
            q == 3 * k,
    ;
    assert(aa * (q * q) == 9 * (aa * (k * k))) by (nonlinear_arith)
        requires
            q == 3 * k,
    ;
    assert(3 * (2 * u * (aa * rad * k)) == 6 * (u * (aa * rad * k))) by (nonlinear_arith);
    assert(2 * u * rad * (u + 3 * k) == 2 * (u * u * rad) + 6 * (u * rad * k)) by (nonlinear_arith);
    let xx = u * u * (rad * rad);
    let yy = 2 * u * rad * (u + 3 * k);
    assert(aa * (xx - yy) == aa * xx - aa * yy) by (nonlinear_arith);
    assert(aa * yy == 2 * (aa * (u * u * rad)) + 6 * (aa * (u * rad * k))) by (nonlinear_arith)
        requires
            yy == 2 * (u * u * rad) + 6 * (u * rad * k),
    ;
    assert(aa * (u * u * (rad * rad)) == u * u * (aa * (rad * rad))) by (nonlinear_arith);
    assert(aa * (u * u * rad) == u * u * (aa * rad)) by (nonlinear_arith);
    assert(aa * (u * rad * k) == u * (aa * rad * k)) by (nonlinear_arith);
}

/// A root of the quadratic that lands in range gives a representable point near the surface.
proof fn lemma_root_point(s: Sphere, r: Ray, x: int, t: int)
    requires
        s.wf(),
        r.in_scene(),
        s.discriminant(r) > 0,
        x == -s.half_b(r) - sqrt_floor(s.discriminant(r)) || x == -s.half_b(r) + sqrt_floor(
            s.discriminant(r),
        ),
        t == (PARAM_UNIT * x) / s.coef_a(r),
        t_in_range(t),
    ensures
        r.at_fits(t),
        s.in_box(r.at_spec(t)),
        s.close_to_surface(r.at_spec(t)),
{
    lemma_coefficient_bounds(s, r);
    let o = s.offset(r);
    let d = r.direction;
    let a = s.coef_a(r);
    let hb = s.half_b(r);
    let disc = s.discriminant(r);
    let rt = sqrt_floor(disc);
    let rad = s.radius as int;
    lemma_sqrt_floor(disc);
    lemma_scaled_bound(t, d.x as int);
    lemma_scaled_bound(t, d.y as int);
    lemma_scaled_bound(t, d.z as int);
    assert((x + hb) * (x + hb) == rt * rt) by (nonlinear_arith)
        requires
            x == -hb - rt || x == -hb + rt,
    ;
    lemma_expand(a, x, o, d);
    let n = o.len2_spec();
    let inner = a * n + 2 * x * hb + x * x;
    assert((x + hb) * (x + hb) == x * x + 2 * x * hb + hb * hb) by (nonlinear_arith);
    assert(a * (n - rad * rad) == a * n - a * (rad * rad)) by (nonlinear_arith);
    assert(inner <= a * (rad * rad));
    assert(a * inner <= a * rad * (a * rad)) by (nonlinear_arith)
        requires
            a > 0,
            inner <= a * (rad * rad),
    ;
    let ex = a * o.x + x * d.x;
    let ey = a * o.y + x * d.y;
    let ez = a * o.z + x * d.z;
    assert(ex * ex >= 0 && ey * ey >= 0 && ez * ez >= 0) by (nonlinear_arith);
    assert(a * rad >= 0) by (nonlinear_arith)
        requires
            a > 0,
            rad > 0,
    ;
    lemma_square_bound(ex, a * rad);
    lemma_square_bound(ey, a * rad);
    lemma_square_bound(ez, a * rad);
    lemma_rounded_offset(a, x, o.x as int, d.x as int, rad, t);
    lemma_rounded_offset(a, x, o.y as int, d.y as int, rad, t);
    lemma_rounded_offset(a, x, o.z as int, d.z as int, rad, t);
    // Lower bound on the exact offset: the integer root is at most `a * rad`, and the
    // discriminant exceeds its square by at most twice the root.
    lemma_cauchy_schwarz(o, d);
    assert(rt * rt <= a * (rad * rad));
    assert(a * (rad * rad) <= a * rad * (a * rad)) by (nonlinear_arith)
        requires
            a >= 1,
            rad >= 0,
    ;
    lemma_square_bound(rt, a * rad);
    assert((rt + 1) * (rt + 1) == rt * rt + 2 * rt + 1) by (nonlinear_arith);
    assert(inner >= a * (rad * rad) - 2 * rt);
    assert(a * inner >= a * rad * (a * rad) - 2 * (a * (a * rad))) by (nonlinear_arith)
        requires
            a > 0,
            inner >= a * (rad * rad) - 2 * rt,
            rt <= a * rad,
    ;
    let u = PARAM_UNIT as int;
    let k = COORD_LIMIT + u;
    let g = r.at_spec(t);
    let gx = g.x - s.center.x;
    let gy = g.y - s.center.y;
    let gz = g.z - s.center.z;
    lemma_component_error(a, gx, ex, u * ex - u * a * gx, rad, k);
    lemma_component_error(a, gy, ey, u * ey - u * a * gy, rad, k);
    lemma_component_error(a, gz, ez, u * ez - u * a * gz, rad, k);
    let dist = s.dist2(g);
    let qq = ex * ex + ey * ey + ez * ez;
    let aa = a * a;
    let big_r = aa * rad * k;
    let kk = aa * (k * k);
    let t2 = 2 * u * big_r;
    let g1 = u * u * aa * (gx * gx);
    let g2 = u * u * aa * (gy * gy);
    let g3 = u * u * aa * (gz * gz);
    let q1 = u * u * (ex * ex);
    let q2 = u * u * (ey * ey);
    let q3 = u * u * (ez * ez);
    assert(g1 <= q1 + t2 + kk && g1 >= q1 - t2);
    assert(g2 <= q2 + t2 + kk && g2 >= q2 - t2);
    assert(g3 <= q3 + t2 + kk && g3 >= q3 - t2);
    assert(g1 + g2 + g3 == aa * (u * u * dist)) by (nonlinear_arith)
        requires
            dist == gx * gx + gy * gy + gz * gz,
            g1 == u * u * aa * (gx * gx),
            g2 == u * u * aa * (gy * gy),
            g3 == u * u * aa * (gz * gz),
    ;
    assert(q1 + q2 + q3 == u * u * qq) by (nonlinear_arith)
        requires
            qq == ex * ex + ey * ey + ez * ez,
            q1 == u * u * (ex * ex),
            q2 == u * u * (ey * ey),
            q3 == u * u * (ez * ez),
    ;
    assert(u * u * qq <= u * u * (aa * (rad * rad))) by (nonlinear_arith)
        requires
            qq <= a * rad * (a * rad),
            aa == a * a,
            u > 0,
    ;
    assert(u * u * qq >= u * u * (aa * (rad * rad)) - 2 * (u * u * (aa * rad))) by (nonlinear_arith)
        requires
            qq >= a * rad * (a * rad) - 2 * (a * (a * rad)),
            aa == a * a,
            u > 0,
    ;
    assert(kk >= 0) by (nonlinear_arith)
        requires
            kk == aa * (k * k),
            aa == a * a,
    ;
    lemma_distance_identities(aa, u, rad, k);
    assert(aa * (u * u * dist) <= aa * ((u * rad + 3 * k) * (u * rad + 3 * k)));
    assert(aa * (u * u * dist) >= aa * (u * u * (rad * rad) - 2 * u * rad * (u + 3 * k)));
    assert(aa > 0) by (nonlinear_arith)
        requires
            aa == a * a,
            a > 0,
    ;
    assert(u * u * dist <= (u * rad + 3 * k) * (u * rad + 3 * k)) by (nonlinear_arith)
        requires
            aa * (u * u * dist) <= aa * ((u * rad + 3 * k) * (u * rad + 3 * k)),
            aa > 0,
    ;
    assert(u * u * dist >= u * u * (rad * rad) - 2 * u * rad * (u + 3 * k)) by (nonlinear_arith)
        requires
            aa * (u * u * dist) >= aa * (u * u * (rad * rad) - 2 * u * rad * (u + 3 * k)),
            aa > 0,
    ;
    lemma_fine_to_steps(u, k, rad, dist);
}

/// Dividing the parameter scale out of the distance bounds: with `3 * k <= 4 * u`,
/// the point is within a few coordinate steps of the surface.
proof fn lemma_fine_to_steps(u: int, k: int, rad: int, dist: int)
    requires
        u > 0,
        k >= 0,
        3 * k <= 4 * u,
        rad >= 0,
        u * u * dist <= (u * rad + 3 * k) * (u * rad + 3 * k),
        u * u * dist >= u * u * (rad * rad) - 2 * u * rad * (u + 3 * k),
    ensures
        dist <= (rad + 4) * (rad + 4),
        dist >= rad * rad - 10 * rad,
{
    assert(0 <= u * rad + 3 * k <= u * (rad + 4)) by (nonlinear_arith)
        requires
            u > 0,
            k >= 0,
            3 * k <= 4 * u,
            rad >= 0,
    ;
    assert((u * rad + 3 * k) * (u * rad + 3 * k) <= (u * (rad + 4)) * (u * (rad + 4)))
        by (nonlinear_arith)
        requires
            0 <= u * rad + 3 * k <= u * (rad + 4),
    ;
    assert((u * (rad + 4)) * (u * (rad + 4)) == u * u * ((rad + 4) * (rad + 4)))
        by (nonlinear_arith);
    assert(dist <= (rad + 4) * (rad + 4)) by (nonlinear_arith)
        requires
            u * u * dist <= u * u * ((rad + 4) * (rad + 4)),
            u > 0,
    ;
    assert(2 * u * rad * (u + 3 * k) <= 2 * u * rad * (5 * u)) by (nonlinear_arith)
        requires
            u > 0,
            rad >= 0,
            3 * k <= 4 * u,
    ;
    assert(u * u * (rad * rad) - 2 * u * rad * (5 * u) == u * u * (rad * rad - 10 * rad))
        by (nonlinear_arith);
    assert(dist >= rad * rad - 10 * rad) by (nonlinear_arith)
        requires
            u * u * dist >= u * u * (rad * rad - 10 * rad),
            u > 0,
    ;
}

/// Every reported intersection has its parameter in range and lies exactly on the ray at
/// that parameter; its distance from the center is the radius to within a few steps
/// (`close_to_surface`), hence to within `UNIT_TOLERANCE` (`on_surface`), whatever the
/// length of the direction; and it lies in the bounding box widened by `BOX_SLACK`.
pub proof fn lemma_hit_on_ray_near_surface(s: Sphere, r: Ray)
    requires
        s.wf(),
        r.in_scene(),
    ensures
        s.intersect(r) matches Some(h) ==> {
            &&& t_in_range(h.t as int)
            &&& r.at_fits(h.t as int)
            &&& h.p == r.at_spec(h.t as int)
            &&& s.close_to_surface(h.p)
            &&& s.on_surface(h.p)
            &&& s.in_box(h.p)
        },
{
    if s.discriminant(r) > 0 {
        lemma_coefficient_bounds(s, r);
        let hb = s.half_b(r);
        let rt = sqrt_floor(s.discriminant(r));
        if t_in_range(s.near_root(r)) {
            lemma_root_point(s, r, -hb - rt, s.near_root(r));
            lemma_close_is_on_surface(s, r.at_spec(s.near_root(r)));
        } else if t_in_range(s.far_root(r)) {
            lemma_root_point(s, r, -hb + rt, s.far_root(r));
            lemma_close_is_on_surface(s, r.at_spec(s.far_root(r)));
        }
    }
}

proof fn lemma_close_is_on_surface(s: Sphere, p: Vec3)
    requires
        s.wf(),
        s.close_to_surface(p),
    ensures
        s.on_surface(p),
{
    let rad = s.radius as int;
    let g = s.dist2(p);
    assert((rad + 4) * (rad + 4) <= (rad + 100) * (rad + 100)) by (nonlinear_arith)
        requires
            rad >= 0,
    ;
    if rad > 100 {
        assert((rad - 100) * (rad - 100) <= rad * rad - 10 * rad) by (nonlinear_arith)
            requires
                rad > 100,
        ;
    }
}

/// One coordinate of the normal, `n = (u * g) / rad` rounded down, against its exact
/// value `u * g / rad`, for `|g| <= 2 * rad`.
proof fn lemma_normal_component(u: int, g: int, rad: int)
    requires
        u > 0,
        rad > 0,
        -2 * rad <= g <= 2 * rad,
    ensures
        ({
            let n = (u * g) / rad;
            &&& rad * rad * (n * n) <= u * u * (g * g) + 4 * u * (rad * rad) + rad * rad
            &&& rad * rad * (n * n) >= u * u * (g * g) - 4 * u * (rad * rad)
        }),
{
    let e = u * g;
    let n = e / rad;
    let f = e % rad;
    assert(e == rad * n + f && 0 <= f < rad) by (nonlinear_arith)
        requires
            rad > 0,
            n == e / rad,
            f == e % rad,
    ;
    assert(-2 * u * rad <= e <= 2 * u * rad) by (nonlinear_arith)
        requires
            e == u * g,
            u > 0,
            -2 * rad <= g <= 2 * rad,
    ;
    assert(-(4 * u * (rad * rad)) <= 2 * (e * f) <= 4 * u * (rad * rad)) by (nonlinear_arith)
        requires
            -2 * u * rad <= e <= 2 * u * rad,
            0 <= f < rad,
            u > 0,
    ;
    assert(0 <= f * f <= rad * rad) by (nonlinear_arith)
        requires
            0 <= f < rad,
    ;
    assert((rad * n) * (rad * n) == e * e - 2 * (e * f) + f * f) by (nonlinear_arith)
        requires
            rad * n == e - f,
    ;
    assert(rad * rad * (n * n) == (rad * n) * (rad * n)) by (nonlinear_arith);
    assert(e * e == u * u * (g * g)) by (nonlinear_arith)
        requires
            e == u * g,
    ;
}

/// Closing step of the normal's length: from the three coordinates to the bound.
proof fn lemma_normal_sum(u: int, rad: int, dist: int, nn: int)
    requires
        u == 1_000_000,
        10 * rad >= u,
        rad * rad * nn <= u * u * dist + 12 * u * (rad * rad) + 3 * (rad * rad),
        rad * rad * nn >= u * u * dist - 12 * u * (rad * rad),
        dist <= (rad + 4) * (rad + 4),
        dist >= rad * rad - 10 * rad,
    ensures
        (u - 100) * (u - 100) <= nn <= (u + 100) * (u + 100),
{
    let r2 = rad * rad;
    assert(r2 > 0) by (nonlinear_arith)
        requires
            10 * rad >= u,
            u == 1_000_000,
            r2 == rad * rad,
    ;
    assert(u * u * dist <= u * u * ((rad + 4) * (rad + 4))) by (nonlinear_arith)
        requires
            dist <= (rad + 4) * (rad + 4),
    ;
    assert(u * u * ((rad + 4) * (rad + 4)) == u * u * r2 + 8 * (u * u * rad) + 16 * (u * u))
        by (nonlinear_arith)
        requires
            r2 == rad * rad,
    ;
    assert(8 * (u * u * rad) <= 80 * (u * r2) && 16 * (u * u) <= 1600 * r2) by (nonlinear_arith)
        requires
            10 * rad >= u,
            u > 0,
            r2 == rad * rad,
    ;
    assert(r2 * ((u + 100) * (u + 100)) == u * u * r2 + 200 * (u * r2) + 10000 * r2)
        by (nonlinear_arith);
    assert(12 * u * r2 == 12 * (u * r2)) by (nonlinear_arith);
    assert(r2 * nn <= r2 * ((u + 100) * (u + 100)));
    assert(u * u * dist >= u * u * (r2 - 10 * rad)) by (nonlinear_arith)
        requires
            dist >= r2 - 10 * rad,
    ;
    assert(u * u * (r2 - 10 * rad) == u * u * r2 - 10 * (u * u * rad)) by (nonlinear_arith);
    assert(10 * (u * u * rad) <= 100 * (u * r2)) by (nonlinear_arith)
        requires
            10 * rad >= u,
            u > 0,
            r2 == rad * rad,
    ;
    assert(r2 * ((u - 100) * (u - 100)) == u * u * r2 - 200 * (u * r2) + 10000 * r2)
        by (nonlinear_arith);
    assert(u * r2 >= 0) by (nonlinear_arith)
        requires
            u > 0,
            r2 > 0,
    ;
    assert(r2 * nn >= r2 * ((u - 100) * (u - 100)));
    assert((u - 100) * (u - 100) <= nn <= (u + 100) * (u + 100)) by (nonlinear_arith)
        requires
            r2 * nn <= r2 * ((u + 100) * (u + 100)),
            r2 * nn >= r2 * ((u - 100) * (u - 100)),
            r2 > 0,
    ;
}

/// The normal at a point close to the surface has length one to within
/// `UNIT_TOLERANCE`, for a radius of at least `NORMAL_RADIUS_MIN`.
proof fn lemma_normal_length(s: Sphere, p: Vec3)
    requires
        s.wf(),
        s.radius >= NORMAL_RADIUS_MIN,
        s.close_to_surface(p),
        s.in_box(p),
    ensures
        (UNIT - UNIT_TOLERANCE) * (UNIT - UNIT_TOLERANCE) <= s.normal_at(p).len2_spec() <= (UNIT
            + UNIT_TOLERANCE) * (UNIT + UNIT_TOLERANCE),
{
    let u = UNIT as int;
    let rad = s.radius as int;
    let gx = p.x - s.center.x;
    let gy = p.y - s.center.y;
    let gz = p.z - s.center.z;
    lemma_normal_bound(gx, rad);
    lemma_normal_bound(gy, rad);
    lemma_normal_bound(gz, rad);
    lemma_normal_component(u, gx, rad);
    lemma_normal_component(u, gy, rad);
    lemma_normal_component(u, gz, rad);
    let nx = (u * gx) / rad;
    let ny = (u * gy) / rad;
    let nz = (u * gz) / rad;
    let nn = s.normal_at(p).len2_spec();
    assert(nn == nx * nx + ny * ny + nz * nz);
    let dist = s.dist2(p);
    let r2 = rad * rad;
    assert(r2 * nn == r2 * (nx * nx) + r2 * (ny * ny) + r2 * (nz * nz)) by (nonlinear_arith)
        requires
            nn == nx * nx + ny * ny + nz * nz,
    ;
    assert(u * u * (gx * gx) + u * u * (gy * gy) + u * u * (gz * gz) == u * u * dist)
        by (nonlinear_arith)
        requires
            dist == gx * gx + gy * gy + gz * gz,
    ;
    assert(4 * u * r2 + 4 * u * r2 + 4 * u * r2 == 12 * u * r2) by (nonlinear_arith);
    lemma_normal_sum(u, rad, dist, nn);
}

/// Every reported normal has length one to within `UNIT_TOLERANCE` (0.0001 in real
/// units), for a sphere whose radius is at least `NORMAL_RADIUS_MIN`; smaller spheres
/// fall below what the coordinate grid resolves.
pub proof fn lemma_hit_normal_unit(s: Sphere, r: Ray)
    requires
        s.wf(),
        r.in_scene(),
        s.radius >= NORMAL_RADIUS_MIN,
    ensures
        s.intersect(r) matches Some(h) ==> (UNIT - UNIT_TOLERANCE) * (UNIT - UNIT_TOLERANCE)
            <= h.normal.len2_spec() <= (UNIT + UNIT_TOLERANCE) * (UNIT + UNIT_TOLERANCE),
{
    lemma_hit_on_ray_near_surface(s, r);
    if let Some(h) = s.intersect(r) {
        lemma_normal_length(s, h.p);
    }
}

/// A ray whose discriminant is zero (a tangent ray) is reported as a miss.
pub proof fn lemma_tangent_misses(s: Sphere, r: Ray)
    requires
        s.discriminant(r) == 0,
    ensures
        s.intersect(r) is None,
{
}

/// When the near root is not above `T_MIN` (the ray starts inside the sphere or on its
/// surface), the far root decides: it is reported when in range, and otherwise nothing is.
pub proof fn lemma_near_root_too_close(s: Sphere, r: Ray)
    requires
        s.discriminant(r) > 0,
        s.near_root(r) <= T_MIN,
    ensures
        s.intersect(r) == (if t_in_range(s.far_root(r)) {
            Some(s.record_at(r, s.far_root(r)))
        } else {
            None
        }),
{
}

impl Sphere {
    /// Builds the record of the point at parameter `t`.
    fn record(&self, r: &Ray, t: i128) -> (rec: Record)
        requires
            self.wf(),
            r.at_fits(t as int),
            self.in_box(r.at_spec(t as int)),
        ensures
            rec == self.record_at(*r, t as int),
    {
        let p = r.at(t);
        proof {
            lemma_normal_bound(p.x - self.center.x, self.radius as int);
            lemma_normal_bound(p.y - self.center.y, self.radius as int);
            lemma_normal_bound(p.z - self.center.z, self.radius as int);
        }
        let rad = self.radius as i128;
        let nx = div_floor(UNIT as i128 * (p.x as i128 - self.center.x as i128), rad);
        let ny = div_floor(UNIT as i128 * (p.y as i128 - self.center.y as i128), rad);
        let nz = div_floor(UNIT as i128 * (p.z as i128 - self.center.z as i128), rad);
        Record::new(p, Vec3::new(nx as i64, ny as i64, nz as i64), t)
    }
}

impl Hittable for Sphere {
    open spec fn accepts(&self, r: Ray) -> bool {
        self.wf() && r.in_scene()
    }

    open spec fn hit_spec(&self, r: Ray) -> Option<Record> {
        self.intersect(r)
    }

    fn hit(&self, r: &Ray) -> (res: Option<Record>) {
        proof {
            lemma_coefficient_bounds(*self, *r);
        }
        let oc = r.origin.sub(self.center);
        let a = r.direction.length_squared();
        let half_b = oc.dot(r.direction);
        let c = oc.length_squared() - self.radius as i128 * self.radius as i128;
        let discriminant = half_b * half_b - a * c;
        if discriminant > 0 {
            let root = isqrt(discriminant as u128) as i128;
            proof {
                lemma_sqrt_floor(discriminant as int);
                lemma_root_bound(discriminant as int, root as int);
            }
            let near = div_floor(PARAM_UNIT * (-half_b - root), a);
            if T_MIN < near && near < T_MAX {
                proof {
                    lemma_root_point(*self, *r, -half_b - root, near as int);
                }
                return Some(self.record(r, near));
            }
            let far = div_floor(PARAM_UNIT * (-half_b + root), a);
            if T_MIN < far && far < T_MAX {
                proof {
                    lemma_root_point(*self, *r, -half_b + root, far as int);
                }
                return Some(self.record(r, far));
            }
        }
        None
    }
}

} // verus!
