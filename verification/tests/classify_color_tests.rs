use newton_core::{nearest_root, Func, LightnessMode};
use newton_core::colors::{lightness_mode_from, nonconvergence_color};

#[test]
fn nearest_root_picks_minimum() {
    let keys = vec![9u32, 4, 7, 6];
    assert_eq!(nearest_root(&keys), 1);
    assert_eq!(nearest_root(&vec![3u32]), 0);
}

#[test]
fn nearest_root_tie_resolves_to_lower_index() {
    // A query equidistant from two roots: both distance keys equal.
    let keys = vec![5u32, 2, 2, 7];
    assert_eq!(nearest_root(&keys), 1);
    // Deterministic across repeated calls.
    for _ in 0..10 {
        assert_eq!(nearest_root(&keys), 1);
    }
    let all_equal = vec![4u32, 4, 4];
    assert_eq!(nearest_root(&all_equal), 0);
}

#[test]
fn lightness_mode_tags() {
    assert_eq!(lightness_mode_from(0), Some(LightnessMode::Normal));
    assert_eq!(lightness_mode_from(1), Some(LightnessMode::Inverted));
    assert_eq!(lightness_mode_from(2), Some(LightnessMode::Parabola));
    assert_eq!(lightness_mode_from(3), Some(LightnessMode::InvertedParabola));
    assert_eq!(lightness_mode_from(4), None);
}

#[test]
fn nonconvergence_colors() {
    let black = [0u8, 0, 0, 255];
    let white = [255u8, 255, 255, 255];
    assert_eq!(nonconvergence_color(LightnessMode::Normal, false), black);
    assert_eq!(nonconvergence_color(LightnessMode::Parabola, false), black);
    assert_eq!(nonconvergence_color(LightnessMode::Inverted, false), white);
    assert_eq!(
        nonconvergence_color(LightnessMode::InvertedParabola, false),
        white
    );
    assert_eq!(nonconvergence_color(LightnessMode::Normal, true), white);
    assert_eq!(
        nonconvergence_color(LightnessMode::InvertedParabola, true),
        black
    );
}

#[test]
fn func_formats_formula() {
    let f = Func::from_cp(vec![1, -3, 1, -1], vec![13, 6, 1, 0]);
    assert_eq!(f.to_string(), "z^13-3z^6+z-1");

    assert_eq!(Func::from_cp(vec![-7], vec![0]).to_string(), "-7");
    assert_eq!(Func::from_cp(vec![-1], vec![2]).to_string(), "-z^2");
    assert_eq!(Func::from_cp(vec![2], vec![-2]).to_string(), "2z^-2");
    assert_eq!(Func::from_cp(vec![12, 5], vec![3, 1]).to_string(), "12z^3+5z");
}

#[test]
fn func_consolidates_terms() {
    let f = Func::from_cp(vec![1, -3, 1, -1], vec![13, 6, 1, 0]);
    assert_eq!(f.powers(), vec![13, 6, 1, 0]);
    assert_eq!(f.coefficients(), vec![1, -3, 1, -1]);

    let summed = Func::from_cp(vec![1, 2], vec![3, 3]);
    assert_eq!(summed.powers(), vec![3]);
    assert_eq!(summed.coefficients(), vec![3]);

    let cancelled = Func::from_cp(vec![1, 2, -3], vec![5, 5, 5]);
    assert_eq!(cancelled.powers(), Vec::<i32>::new());
    assert_eq!(cancelled.coefficients(), Vec::<i64>::new());

    let mixed = Func::from_cp(vec![2, 1, -2], vec![4, 0, 4]);
    assert_eq!(mixed.powers(), vec![0]);
    assert_eq!(mixed.coefficients(), vec![1]);
}
