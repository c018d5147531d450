//! The discrete part of color mapping.
//!
//! Turning a converged sample into a color runs through floating-point
//! brightness and color-space math outside this crate. What is exact is the
//! choice of lightness mode from its render-call tag, and the solid
//! black-or-white color of a sample that never converged.
use vstd::prelude::*;

verus! {

/// How the computed lightness value is reshaped before coloring.
#[derive(Clone, Copy, PartialEq, Eq, Structural, Debug)]
pub enum LightnessMode {
    Normal,
    Inverted,
    Parabola,
    InvertedParabola,
}

/// The mode a render call's integer tag selects; tags above three select
/// nothing.
pub open spec fn lightness_mode_spec(value: u32) -> Option<LightnessMode> {
    if value == 0 {
        Some(LightnessMode::Normal)
    } else if value == 1 {
        Some(LightnessMode::Inverted)
    } else if value == 2 {
        Some(LightnessMode::Parabola)
    } else if value == 3 {
        Some(LightnessMode::InvertedParabola)
    } else {
        None
    }
}

/// Map a render call's integer tag to its lightness mode.
pub fn lightness_mode_from(value: u32) -> (r: Option<LightnessMode>)
    ensures
        r == lightness_mode_spec(value),
{
    match value {
        0 => Some(LightnessMode::Normal),
        1 => Some(LightnessMode::Inverted),
        2 => Some(LightnessMode::Parabola),
        3 => Some(LightnessMode::InvertedParabola),
        _ => None,
    }
}

/// Whether a never-converged sample is painted white: the inverted modes
/// paint it white, and the invert flag flips the choice.
pub open spec fn nonconvergence_white_spec(mode: LightnessMode, invert: bool) -> bool {
    (mode == LightnessMode::Inverted || mode == LightnessMode::InvertedParabola) != invert
}

/// The solid RGBA color of a sample that never converged: black or white,
/// always opaque, visually distinct from any converged color.
pub fn nonconvergence_color(mode: LightnessMode, invert: bool) -> (r: [u8; 4])
    ensures
        nonconvergence_white_spec(mode, invert) ==> r == [255u8, 255u8, 255u8, 255u8],
        !nonconvergence_white_spec(mode, invert) ==> r == [0u8, 0u8, 0u8, 255u8],
{
    let white_mode: bool = match mode {
        LightnessMode::Inverted => true,
        LightnessMode::InvertedParabola => true,
        LightnessMode::Normal => false,
        LightnessMode::Parabola => false,
    };
    let white: bool = if invert {
        !white_mode
    } else {
        white_mode
    };
    if white {
        [255u8, 255u8, 255u8, 255u8]
    } else {
        [0u8, 0u8, 0u8, 255u8]
    }
}

} // verus!
