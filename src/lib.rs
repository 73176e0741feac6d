//! A Whitted-style ray tracer over fixed-point integer geometry.
//!
//! Every coordinate, distance and weight is an integer count of `1 / ONE`
//! units (see `scalar`). Each executable function is proved equal to a
//! definition over mathematical integers, and the recursive caster to
//! `tracer::cast_color`.
pub mod scalar;
pub mod vector3d;
pub mod material;
pub mod light;
pub mod entity;
pub mod tracer;
