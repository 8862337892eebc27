//! A ray-marched torus for character terminals, in fixed-point arithmetic.
//!
//! Every scalar is an `i32` that counts millionths, so that each result is
//! the same on every machine and every function can be stated exactly.
//! Results that leave the range of a scalar are clamped, which makes every
//! operation total.
//!
//! - `arith`: elementary facts of integer arithmetic.
//! - `fixed`: scalars, their products and quotients, integer square roots.
//! - `vector`: `Vec2` and `Vec3`, and the mathematical value of a `Vec3`.
//! - `space`: lengths and inner products of vectors of integers.
//! - `sdf`: the torus's signed distance field, its normals, its orientation.
//! - `rotation`: what a turn of the orientation keeps.
//! - `symmetry`: the rotations under which the field stays what it is.
//! - `accuracy`: how close the computed distance is to the true one.
//! - `march`: the ray through a cell and the march along it.
//! - `glyph`, `color`: from the light of a cell to its glyph and its color.
//! - `frame`: the grid of cells.
//! - `render`: one frame, cell by cell, and what a driver of frames needs.

pub mod arith;
pub mod fixed;
pub mod vector;
pub mod space;
pub mod sdf;
pub mod rotation;
pub mod symmetry;
pub mod accuracy;
pub mod march;
pub mod glyph;
pub mod color;
pub mod frame;
pub mod render;
