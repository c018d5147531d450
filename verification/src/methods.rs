//! Tags for the root-polishing iteration schemes.
//!
//! A render call selects its per-pixel iteration scheme by an explicit tag.
//! The schemes' update rules work on floating-point complex numbers and live
//! with the renderer outside this crate, implemented over these markers.
use vstd::prelude::*;

verus! {

/// Newton's method: z -= f/f'.
pub struct NewtonsMethod;

/// Schroeder's method: z -= f*f' / (f'^2 - f*f'').
pub struct SchroedersMethod;

/// Schroeder's method, second form: a Newton step, then a correction by
/// f''*f^2 / (2*f'^3).
pub struct SchroedersMethod2;

/// Halley's method: z -= 2*f*f' / (2*f'^2 - f*f'').
pub struct HalleysMethod;

/// Steffensen's method: derivative-free, sampling f at z + f(z).
pub struct SteffensensMethod;

/// First-order Householder scheme of the older renderer.
pub struct Newton;

/// Second-order Householder scheme of the older renderer.
pub struct Halley;

/// Third-order Householder scheme of the older renderer.
pub struct Householder3;

} // verus!
