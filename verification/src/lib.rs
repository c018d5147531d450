//! Core numerics of a Newton-fractal renderer, stripped to the parts that can
//! be stated and proved exactly: symbolic polynomial terms and their
//! derivatives, formula parsing, the compact per-pixel (root, fraction)
//! encoding, nearest-root classification over precomputed distance keys, and
//! block upsampling of low-resolution sample rows.
//!
//! Floating-point evaluation (root finding, per-pixel iteration schemes,
//! color conversion) lives outside this crate; it consumes the exact data
//! prepared here.
use vstd::prelude::*;

pub mod classify;
pub mod colors;
pub mod func;
pub mod methods;
pub mod polynomial_term;
pub mod parse;
pub mod pixel_data;
pub mod polynomial;
pub mod scale_row;

pub use classify::nearest_root;
pub use colors::LightnessMode;
pub use func::Func;
pub use parse::ParseError;
pub use pixel_data::{PixelData, PixelDataDetail};
pub use polynomial::Polynomial;
pub use polynomial_term::PolynomialTerm;
pub use scale_row::write_scaled_block;

verus! {

/// Width and height of the square canvas, in pixels.
pub const CANVAS_SIZE: usize = 800;

} // verus!
