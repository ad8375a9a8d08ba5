//! Intersection results and the capability of reporting them.
use crate::ray::Ray;
use crate::vector::{Point3, Vec3};
use vstd::prelude::*;

verus! {

/// Smallest accepted ray parameter, exclusive, in steps of `1 / PARAM_UNIT`
/// (0.0001 in real units); keeps a surface from hitting itself.
pub const T_MIN: i128 = 100_000_000;

/// Largest accepted ray parameter, exclusive (9,999,999 in real units).
pub const T_MAX: i128 = 9_999_999_000_000_000_000;

/// A ray parameter inside the accepted open range `(T_MIN, T_MAX)`.
pub open spec fn t_in_range(t: int) -> bool {
    T_MIN < t < T_MAX
}

/// One intersection: where it is, the surface normal there, and the ray parameter
/// (in steps of `1 / PARAM_UNIT`).
#[derive(Clone, Copy, Debug, PartialEq, Eq, Structural)]
pub struct Record {
    pub p: Point3,
    pub normal: Vec3,
    pub t: i128,
}

impl Record {
    pub fn new(p: Point3, normal: Vec3, t: i128) -> (r: Record)
        ensures
            r.p == p && r.normal == normal && r.t == t,
    {
        Record { p, normal, t }
    }
}

/// A shape that a ray can hit.
pub trait Hittable {
    /// The rays on which `hit` is defined for this shape.
    spec fn accepts(&self, r: Ray) -> bool;

    /// The intersection that `hit` reports, if any.
    spec fn hit_spec(&self, r: Ray) -> Option<Record>;

    /// The nearest intersection of `r` with this shape whose parameter is in range;
    /// its point lies on the ray at its parameter.
    fn hit(&self, r: &Ray) -> (res: Option<Record>)
        requires
            self.accepts(*r),
        ensures
            res == self.hit_spec(*r),
            res matches Some(h) ==> t_in_range(h.t as int) && r.at_fits(h.t as int) && h.p
                == r.at_spec(h.t as int),
    ;
}

} // verus!
