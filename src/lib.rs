//! A Monte Carlo path tracer over spheres and planes, in fixed-point arithmetic.
//!
//! Every quantity is an integer scaled by `SCALE` = 10^6: one world unit of
//! length, a unit direction and a color channel of full intensity are all
//! `SCALE`. That sets the precision: a normalized vector's length is within
//! 4·10^-6 of one (`lemma_normalize_length`), coarser than a float's.
//!
//! Limits of the representation: a ray may start only within `COORD_LIMIT`
//! (about 2147 world units) of the origin, where the intersection arithmetic
//! fits in `i128`. Intersections report every hit whose point a `Vector` can
//! hold; a path that reaches a diffuse surface beyond `COORD_LIMIT` ends
//! there, black. Scene primitives lie within that bound, image sizes stay
//! under `MAX_PIXELS` and emissions under `COLOR_LIMIT`.
pub mod accumulator;
pub mod color;
pub mod grid;
pub mod integrator;
pub mod render;
pub mod scene;
pub mod vector;
