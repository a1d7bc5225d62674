//! Narrow-phase collision detection for convex bodies on an integer lattice.
//!
//! Coordinates are fixed-point integers: every geometric test is exact, so the
//! region classification of the simplex search never suffers rounding.
//!
//! - `vec3`: lattice vectors and their mathematical model.
//! - `sphere`: the sphere collider and its support function.
//! - `gjk`: the simplex search for the origin in a Minkowski difference.
//! - `collision`: the driver that tests every pair of bodies and records contacts.
pub mod vec3;
pub mod sphere;
pub mod gjk;
pub mod collision;
