//! Ray casting against a sphere, with normal shading and a sky gradient.
//!
//! All geometry is exact fixed-point integer arithmetic: a coordinate `k` stands for
//! `k / UNIT` real units, with `UNIT` one million; a ray parameter `t` stands for
//! `t / PARAM_UNIT`, with `PARAM_UNIT` one million million, so that rounding it never
//! moves a point by as much as a coordinate step. Products are formed exactly in
//! `i128`, square roots are integer square roots, and every division rounds down,
//! so each result is pinned to one value by its contract. Rays and spheres keep their
//! coordinates within `COORD_LIMIT` (about 1073 units); a ray direction is never
//! zero and a sphere's radius is positive.

pub mod hittable;
pub mod ray;
pub mod sphere;
pub mod vector;
