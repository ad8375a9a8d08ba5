//! Three-component fixed-point vectors: points, directions and colors.
use vstd::prelude::*;

verus! {

/// Number of integer steps in one real unit: a coordinate `k` stands for `k / UNIT`.
pub const UNIT: i64 = 1_000_000;

/// Largest coordinate magnitude of ray origins, ray directions, sphere centers and radii.
pub const COORD_LIMIT: i64 = 0x4000_0000;

/// Largest coordinate magnitude for which the dot product is exact in `i128`.
pub const DOT_LIMIT: i64 = 0x4000_0000_0000_0000;

/// Largest coordinate magnitude that `unit_vector` accepts.
pub const NORM_LIMIT: i64 = 0x100_0000_0000;

/// Tolerance, in steps, on the length of a unit vector (0.0001 in real units).
pub const UNIT_TOLERANCE: i64 = 100;

/// A point, a direction or a color, each coordinate in steps of `1 / UNIT`.
#[derive(Clone, Copy, Debug, PartialEq, Eq, Structural)]
pub struct Vec3 {
    pub x: i64,
    pub y: i64,
    pub z: i64,
}

/// A position in space.
pub type Point3 = Vec3;

/// A color: red, green and blue in `x`, `y` and `z`, each from `0` to `UNIT`.
pub type Color = Vec3;

/// Floor of the square root of `n`, for `n >= 0`.
pub open spec fn sqrt_floor(n: int) -> int
    decreases n,
{
    if n <= 0 {
        0
    } else {
        let r = sqrt_floor(n - 1);
        if (r + 1) * (r + 1) <= n {
            r + 1
        } else {
            r
        }
    }
}

/// `r` is the integer square root of `n`.
pub open spec fn is_sqrt_floor(n: int, r: int) -> bool {
    0 <= r && r * r <= n < (r + 1) * (r + 1)
}

pub proof fn lemma_sqrt_floor(n: int)
    requires
        n >= 0,
    ensures
        is_sqrt_floor(n, sqrt_floor(n)),
    decreases n,
{
    if n > 0 {
        lemma_sqrt_floor(n - 1);
        let r = sqrt_floor(n - 1);
        assert((r + 1) * (r + 1) < (r + 2) * (r + 2)) by (nonlinear_arith)
            requires
                r >= 0,
        ;
    }
}

pub proof fn lemma_sqrt_floor_unique(n: int, r: int)
    requires
        is_sqrt_floor(n, r),
    ensures
        r == sqrt_floor(n),
{
    lemma_sqrt_floor(n);
    let q = sqrt_floor(n);
    if r < q {
        assert((r + 1) * (r + 1) <= q * q) by (nonlinear_arith)
            requires
                0 <= r + 1 <= q,
        ;
    } else if q < r {
        assert((q + 1) * (q + 1) <= r * r) by (nonlinear_arith)
            requires
                0 <= q + 1 <= r,
        ;
    }
}

/// Integer square root: the largest `r` with `r * r <= n`.
pub fn isqrt(n: u128) -> (r: u64)
    ensures
        r == sqrt_floor(n as int),
{
    let mut lo: u128 = 0;
    let mut hi: u128 = 0x1_0000_0000_0000_0000;
    assert(n < hi * hi) by (nonlinear_arith)
        requires
            hi == 0x1_0000_0000_0000_0000u128,
            n <= u128::MAX,
    ;
    while hi - lo > 1
        invariant
            lo < hi <= 0x1_0000_0000_0000_0000u128,
            lo * lo <= n < hi * hi,
        decreases hi - lo,
    {
        let mid: u128 = lo + (hi - lo) / 2;
        assert(mid * mid < 0x1_0000_0000_0000_0000_0000_0000_0000_0000int) by (nonlinear_arith)
            requires
                mid < 0x1_0000_0000_0000_0000u128,
        ;
        if mid * mid <= n {
            lo = mid;
        } else {
            hi = mid;
        }
    }
    proof {
        lemma_sqrt_floor_unique(n as int, lo as int);
    }
    lo as u64
}

/// Floor of `n / d` for a positive `d`.
pub fn div_floor(n: i128, d: i128) -> (q: i128)
    requires
        d > 0,
    ensures
        q == n / d,
{
    proof {
        let q = n as int / d as int;
        let m = n as int % d as int;
        assert(n as int == d * q + m && 0 <= m < d) by (nonlinear_arith)
            requires
                d > 0,
                q == n as int / d as int,
                m == n as int % d as int,
        ;
        assert(i128::MIN <= q <= i128::MAX) by (nonlinear_arith)
            requires
                d >= 1,
                n as int == d * q + m,
                0 <= m < d,
                i128::MIN <= n <= i128::MAX,
        ;
    }
    let r = n.checked_div_euclid(d);
    match r {
        Some(q) => q,
        None => 0,
    }
}

proof fn lemma_product_bound(a: int, b: int, lim: int)
    requires
        -lim <= a <= lim,
        -lim <= b <= lim,
    ensures
        -(lim * lim) <= a * b <= lim * lim,
{
    assert(-(lim * lim) <= a * b <= lim * lim) by (nonlinear_arith)
        requires
            -lim <= a <= lim,
            -lim <= b <= lim,
    ;
}

pub proof fn lemma_len2_nonneg(v: Vec3)
    ensures
        v.len2_spec() >= 0,
        v.x * v.x <= v.len2_spec(),
        v.y * v.y <= v.len2_spec(),
        v.z * v.z <= v.len2_spec(),
{
    assert(v.x * v.x >= 0 && v.y * v.y >= 0 && v.z * v.z >= 0) by (nonlinear_arith);
}

pub proof fn lemma_len2_zero(v: Vec3)
    ensures
        v.len2_spec() == 0 <==> v.is_zero(),
{
    lemma_len2_nonneg(v);
    if v.len2_spec() == 0 {
        assert(v.x == 0) by (nonlinear_arith)
            requires
                v.x * v.x <= 0,
        ;
        assert(v.y == 0) by (nonlinear_arith)
            requires
                v.y * v.y <= 0,
        ;
        assert(v.z == 0) by (nonlinear_arith)
            requires
                v.z * v.z <= 0,
        ;
    }
}

/// A non-zero vector has fine length at least `UNIT`.
proof fn lemma_fine_length_lower(v: Vec3)
    requires
        !v.is_zero(),
    ensures
        v.fine_length() >= UNIT,
{
    lemma_len2_zero(v);
    lemma_len2_nonneg(v);
    let n = UNIT * UNIT * v.len2_spec();
    lemma_sqrt_floor(n);
    let m = v.fine_length();
    assert(n >= UNIT * UNIT) by (nonlinear_arith)
        requires
            n == UNIT * UNIT * v.len2_spec(),
            v.len2_spec() >= 1,
    ;
    if m < UNIT {
        assert((m + 1) * (m + 1) <= UNIT * UNIT) by (nonlinear_arith)
            requires
                0 <= m + 1 <= UNIT,
        ;
    }
}

/// `y * y < (b + 1) * (b + 1)` with `b >= 0` gives `|y| <= b`.
proof fn lemma_below_square(y: int, b: int)
    requires
        b >= 0,
        y * y < (b + 1) * (b + 1),
    ensures
        -b <= y <= b,
{
    if y > b {
        assert(y * y >= (b + 1) * (b + 1)) by (nonlinear_arith)
            requires
                y >= b + 1,
                b >= 0,
        ;
    }
    if y < -b {
        assert(y * y >= (b + 1) * (b + 1)) by (nonlinear_arith)
            requires
                -y >= b + 1,
                b >= 0,
        ;
    }
}

/// Square of one rescaled coordinate, multiplied by `m * m`, against its exact value.
proof fn lemma_unit_coord_square(c: int, n: int, m: int)
    requires
        c * c <= n,
        m >= UNIT,
        m * m <= UNIT * UNIT * n < (m + 1) * (m + 1),
    ensures
        ({
            let q = Vec3::unit_coord(c, m);
            let s = UNIT as int;
            &&& m * m * (q * q) <= s * s * (s * s) * (c * c) + 2 * s * (m * m) + m * m
            &&& m * m * (q * q) >= s * s * (s * s) * (c * c) - 2 * s * (m * m)
        }),
{
    let s = UNIT as int;
    let q = Vec3::unit_coord(c, m);
    let e = s * s * c;
    let f = e % m;
    assert(e == m * q + f && 0 <= f < m) by (nonlinear_arith)
        requires
            m > 0,
            q == e / m,
            f == e % m,
    ;
    assert((s * c) * (s * c) < (m + 1) * (m + 1)) by (nonlinear_arith)
        requires
            c * c <= n,
            s * s * n < (m + 1) * (m + 1),
            s > 0,
    ;
    lemma_below_square(s * c, m);
    assert(e == s * (s * c)) by (nonlinear_arith)
        requires
            e == s * s * c,
    ;
    assert(-(s * m) <= e <= s * m) by (nonlinear_arith)
        requires
            -m <= s * c <= m,
            e == s * (s * c),
            s > 0,
    ;
    assert(-(2 * s * (m * m)) <= 2 * e * f <= 2 * s * (m * m)) by (nonlinear_arith)
        requires
            -(s * m) <= e <= s * m,
            0 <= f < m,
            s > 0,
    ;
    assert(0 <= f * f <= m * m) by (nonlinear_arith)
        requires
            0 <= f < m,
    ;
    assert((m * q) * (m * q) == e * e - 2 * e * f + f * f) by (nonlinear_arith)
        requires
            m * q == e - f,
    ;
    assert(m * m * (q * q) == (m * q) * (m * q)) by (nonlinear_arith);
    assert(e * e == s * s * (s * s) * (c * c)) by (nonlinear_arith)
        requires
            e == s * s * c,
    ;
}

/// Each coordinate of a unit vector lies in `[-UNIT, UNIT]`.
proof fn lemma_unit_coord_range(c: int, n: int, m: int)
    requires
        c * c <= n,
        m >= 1,
        m * m <= UNIT * UNIT * n < (m + 1) * (m + 1),
    ensures
        -(UNIT as int) <= Vec3::unit_coord(c, m) <= UNIT,
{
    let s = UNIT as int;
    let q = Vec3::unit_coord(c, m);
    let e = s * s * c;
    let f = e % m;
    assert(e == m * q + f && 0 <= f < m) by (nonlinear_arith)
        requires
            m > 0,
            q == e / m,
            f == e % m,
    ;
    assert((s * c) * (s * c) < (m + 1) * (m + 1)) by (nonlinear_arith)
        requires
            c * c <= n,
            s * s * n < (m + 1) * (m + 1),
            s > 0,
    ;
    lemma_below_square(s * c, m);
    assert(-(s * m) <= e <= s * m) by (nonlinear_arith)
        requires
            -m <= s * c <= m,
            e == s * s * c,
            s > 0,
    ;
    assert(-s <= q <= s) by (nonlinear_arith)
        requires
            e == m * q + f,
            0 <= f < m,
            -(s * m) <= e <= s * m,
            m > 0,
    ;
}

/// The unit vector of a non-zero vector has length one, to within `UNIT_TOLERANCE` steps.
pub proof fn lemma_unit_length(v: Vec3)
    requires
        !v.is_zero(),
        v.within(NORM_LIMIT as int),
    ensures
        (UNIT - UNIT_TOLERANCE) * (UNIT - UNIT_TOLERANCE) <= v.unit_spec().len2_spec() <= (UNIT
            + UNIT_TOLERANCE) * (UNIT + UNIT_TOLERANCE),
        UNIT * UNIT - 6 * UNIT <= v.unit_spec().len2_spec() <= UNIT * UNIT + 12 * UNIT,
        v.unit_spec().within(UNIT as int),
{
    let s = UNIT as int;
    let n = v.len2_spec();
    let m = v.fine_length();
    let u = v.unit_spec();
    lemma_len2_nonneg(v);
    lemma_fine_length_lower(v);
    lemma_sqrt_floor(s * s * n);
    lemma_unit_coord_square(v.x as int, n, m);
    lemma_unit_coord_square(v.y as int, n, m);
    lemma_unit_coord_square(v.z as int, n, m);
    lemma_unit_coord_range(v.x as int, n, m);
    lemma_unit_coord_range(v.y as int, n, m);
    lemma_unit_coord_range(v.z as int, n, m);
    let qx = Vec3::unit_coord(v.x as int, m);
    let qy = Vec3::unit_coord(v.y as int, m);
    let qz = Vec3::unit_coord(v.z as int, m);
    let l = u.len2_spec();
    assert(l == qx * qx + qy * qy + qz * qz);
    let mm = m * m;
    let s4n = s * s * (s * s) * n;
    assert(s * s * (s * s) * (v.x * v.x) + s * s * (s * s) * (v.y * v.y) + s * s * (s * s) * (v.z
        * v.z) == s4n) by (nonlinear_arith)
        requires
            n == v.x * v.x + v.y * v.y + v.z * v.z,
            s4n == s * s * (s * s) * n,
    ;
    assert(mm * l == mm * (qx * qx) + mm * (qy * qy) + mm * (qz * qz)) by (nonlinear_arith)
        requires
            l == qx * qx + qy * qy + qz * qz,
    ;
    assert(mm * l <= s4n + 6 * s * mm + 3 * mm);
    assert(mm * l >= s4n - 6 * s * mm);
    assert(s * s * mm <= s4n < s * s * ((m + 1) * (m + 1))) by (nonlinear_arith)
        requires
            mm == m * m,
            m * m <= s * s * n < (m + 1) * (m + 1),
            s4n == s * s * (s * s) * n,
            s > 0,
    ;
    assert(s * s * ((m + 1) * (m + 1)) <= s * s * mm + 3 * s * mm) by (nonlinear_arith)
        requires
            mm == m * m,
            m >= s,
            s > 0,
    ;
    assert(3 * mm <= 3 * s * mm) by (nonlinear_arith)
        requires
            mm >= 0,
            s > 0,
    ;
    assert(mm * (s * s + 12 * s) == s * s * mm + 12 * s * mm && mm * (s * s - 6 * s) == s * s
        * mm - 6 * s * mm) by (nonlinear_arith);
    assert(mm > 0) by (nonlinear_arith)
        requires
            mm == m * m,
            m > 0,
    ;
    assert(mm * l <= mm * (s * s + 12 * s)) by (nonlinear_arith)
        requires
            mm * l <= s4n + 6 * s * mm + 3 * mm,
            s4n < s * s * ((m + 1) * (m + 1)),
            s * s * ((m + 1) * (m + 1)) <= s * s * mm + 3 * s * mm,
            3 * mm <= 3 * s * mm,
    ;
    assert(mm * l >= mm * (s * s - 6 * s)) by (nonlinear_arith)
        requires
            mm * l >= s4n - 6 * s * mm,
            s * s * mm <= s4n,
    ;
    assert(s * s - 6 * s <= l <= s * s + 12 * s) by (nonlinear_arith)
        requires
            mm * l <= mm * (s * s + 12 * s),
            mm * l >= mm * (s * s - 6 * s),
            mm > 0,
    ;
}

impl Vec3 {
    /// Every coordinate lies within `[-lim, lim]`.
    pub open spec fn within(self, lim: int) -> bool {
        -lim <= self.x <= lim && -lim <= self.y <= lim && -lim <= self.z <= lim
    }

    pub open spec fn is_zero(self) -> bool {
        self.x == 0 && self.y == 0 && self.z == 0
    }

    /// Exact dot product, in steps of `1 / (UNIT * UNIT)`.
    pub open spec fn dot_spec(self, o: Vec3) -> int {
        self.x * o.x + self.y * o.y + self.z * o.z
    }

    pub open spec fn len2_spec(self) -> int {
        self.dot_spec(self)
    }

    /// Fixed-point product of a scalar `t` and the coordinate `c`, rounded down.
    pub open spec fn scaled(t: int, c: int) -> int {
        (t * c) / (UNIT as int)
    }

    pub open spec fn fits_i64(v: int) -> bool {
        i64::MIN <= v <= i64::MAX
    }

    pub open spec fn add_fits(self, o: Vec3) -> bool {
        Self::fits_i64(self.x + o.x) && Self::fits_i64(self.y + o.y) && Self::fits_i64(self.z + o.z)
    }

    pub open spec fn sub_fits(self, o: Vec3) -> bool {
        Self::fits_i64(self.x - o.x) && Self::fits_i64(self.y - o.y) && Self::fits_i64(self.z - o.z)
    }

    pub open spec fn scale_fits(self, t: int) -> bool {
        Self::fits_i64(Self::scaled(t, self.x as int)) && Self::fits_i64(
            Self::scaled(t, self.y as int),
        ) && Self::fits_i64(Self::scaled(t, self.z as int))
    }

    pub open spec fn add_spec(self, o: Vec3) -> Vec3 {
        Vec3 { x: (self.x + o.x) as i64, y: (self.y + o.y) as i64, z: (self.z + o.z) as i64 }
    }

    pub open spec fn sub_spec(self, o: Vec3) -> Vec3 {
        Vec3 { x: (self.x - o.x) as i64, y: (self.y - o.y) as i64, z: (self.z - o.z) as i64 }
    }

    pub open spec fn scale_spec(self, t: int) -> Vec3 {
        Vec3 {
            x: Self::scaled(t, self.x as int) as i64,
            y: Self::scaled(t, self.y as int) as i64,
            z: Self::scaled(t, self.z as int) as i64,
        }
    }

    /// Length of `self` measured in steps of `1 / (UNIT * UNIT)`, rounded down.
    pub open spec fn fine_length(self) -> int {
        sqrt_floor(UNIT * UNIT * self.len2_spec())
    }

    /// Coordinate `c` of a vector of fine length `m`, rescaled to length `UNIT`.
    pub open spec fn unit_coord(c: int, m: int) -> int {
        (UNIT * UNIT * c) / m
    }

    /// The vector of length one (that is, `UNIT` steps) pointing along `self`; zero stays zero.
    pub open spec fn unit_spec(self) -> Vec3 {
        if self.is_zero() {
            self
        } else {
            let m = self.fine_length();
            Vec3 {
                x: Self::unit_coord(self.x as int, m) as i64,
                y: Self::unit_coord(self.y as int, m) as i64,
                z: Self::unit_coord(self.z as int, m) as i64,
            }
        }
    }

    pub fn new(x: i64, y: i64, z: i64) -> (v: Vec3)
        ensures
            v.x == x && v.y == y && v.z == z,
    {
        Vec3 { x, y, z }
    }

    pub fn add(self, o: Vec3) -> (r: Vec3)
        requires
            self.add_fits(o),
        ensures
            r == self.add_spec(o),
            r.x == self.x + o.x && r.y == self.y + o.y && r.z == self.z + o.z,
    {
        Vec3 { x: self.x + o.x, y: self.y + o.y, z: self.z + o.z }
    }

    pub fn sub(self, o: Vec3) -> (r: Vec3)
        requires
            self.sub_fits(o),
        ensures
            r == self.sub_spec(o),
            r.x == self.x - o.x && r.y == self.y - o.y && r.z == self.z - o.z,
    {
        Vec3 { x: self.x - o.x, y: self.y - o.y, z: self.z - o.z }
    }

    /// Multiplies by the fixed-point scalar `t` (standing for `t / UNIT`), rounding down.
    pub fn scale(self, t: i64) -> (r: Vec3)
        requires
            self.scale_fits(t as int),
        ensures
            r == self.scale_spec(t as int),
            r.x == Self::scaled(t as int, self.x as int),
            r.y == Self::scaled(t as int, self.y as int),
            r.z == Self::scaled(t as int, self.z as int),
    {
        let x = div_floor(t as i128 * self.x as i128, UNIT as i128);
        let y = div_floor(t as i128 * self.y as i128, UNIT as i128);
        let z = div_floor(t as i128 * self.z as i128, UNIT as i128);
        Vec3 { x: x as i64, y: y as i64, z: z as i64 }
    }

    /// Exact dot product, in steps of `1 / (UNIT * UNIT)`.
    pub fn dot(self, o: Vec3) -> (r: i128)
        requires
            self.within(DOT_LIMIT as int),
            o.within(DOT_LIMIT as int),
        ensures
            r == self.dot_spec(o),
    {
        proof {
            lemma_product_bound(self.x as int, o.x as int, DOT_LIMIT as int);
            lemma_product_bound(self.y as int, o.y as int, DOT_LIMIT as int);
            lemma_product_bound(self.z as int, o.z as int, DOT_LIMIT as int);
        }
        self.x as i128 * o.x as i128 + self.y as i128 * o.y as i128 + self.z as i128 * o.z as i128
    }

    pub fn length_squared(self) -> (r: i128)
        requires
            self.within(DOT_LIMIT as int),
        ensures
            r == self.len2_spec(),
            r >= 0,
    {
        proof {
            lemma_len2_nonneg(self);
        }
        self.dot(self)
    }

    /// Length in steps, rounded down.
    pub fn length(self) -> (r: i64)
        requires
            self.within(DOT_LIMIT as int),
        ensures
            r == sqrt_floor(self.len2_spec()),
    {
        let n = self.length_squared();
        let r = isqrt(n as u128);
        proof {
            lemma_sqrt_floor(n as int);
            lemma_product_bound(self.x as int, self.x as int, DOT_LIMIT as int);
            lemma_product_bound(self.y as int, self.y as int, DOT_LIMIT as int);
            lemma_product_bound(self.z as int, self.z as int, DOT_LIMIT as int);
            assert(r < 0x8000_0000_0000_0000int) by (nonlinear_arith)
                requires
                    r * r <= n,
                    n <= 3 * 0x1000_0000_0000_0000_0000_0000_0000_0000int,
                    r >= 0,
            ;
        }
        r as i64
    }

    /// This vector rescaled to length `UNIT`; the zero vector is returned unchanged.
    pub fn unit_vector(self) -> (r: Vec3)
        requires
            self.within(NORM_LIMIT as int),
        ensures
            r == self.unit_spec(),
            r.within(UNIT as int),
    {
        let n = self.length_squared();
        if n == 0 {
            proof {
                lemma_len2_zero(self);
            }
            return self;
        }
        proof {
            lemma_len2_nonneg(self);
            lemma_product_bound(self.x as int, self.x as int, NORM_LIMIT as int);
            lemma_product_bound(self.y as int, self.y as int, NORM_LIMIT as int);
            lemma_product_bound(self.z as int, self.z as int, NORM_LIMIT as int);
            lemma_len2_zero(self);
        }
        let uu: i128 = 1_000_000_000_000;
        assert(uu == UNIT * UNIT);
        let m = isqrt((uu * n) as u128);
        proof {
            lemma_fine_length_lower(self);
            lemma_sqrt_floor(uu * n);
            lemma_unit_coord_range(self.x as int, n as int, m as int);
            lemma_unit_coord_range(self.y as int, n as int, m as int);
            lemma_unit_coord_range(self.z as int, n as int, m as int);
        }
        let x = div_floor(uu * self.x as i128, m as i128);
        let y = div_floor(uu * self.y as i128, m as i128);
        let z = div_floor(uu * self.z as i128, m as i128);
        Vec3 { x: x as i64, y: y as i64, z: z as i64 }
    }
}

} // verus!
