use newton_core::{PixelData, PixelDataDetail};

#[test]
fn encode_decode_exact_value() {
    let half = 0.5f32;
    let pixel = PixelData::encode(3, half.to_bits());
    assert_eq!(pixel.0, 0x3C00);
    let detail = pixel.decode();
    assert_eq!(detail.root_index, 3);
    assert_eq!(f32::from_bits(detail.frac_bits), 0.5);
}

#[test]
fn round_trip_recovers_root_index_for_all_fractions() {
    for root_index in 0..16usize {
        let mut step = 0u32;
        while step < 1000 {
            let frac = step as f32 / 1000.0;
            let detail = PixelData::encode(root_index, frac.to_bits()).decode();
            assert_eq!(detail.root_index, root_index);
            step += 1;
        }
    }
}

#[test]
fn round_trip_recovers_fraction_within_tolerance() {
    // Fractions at or above 2^-7 keep their exponent through the packing;
    // the decoded value sits within one part in 2^9 below the original.
    let tolerance = 1.0f32 / 512.0;
    for root_index in 0..16usize {
        let mut step = 1u32;
        while step < 4096 {
            let frac = step as f32 / 4096.0;
            if frac >= 0.0078125 {
                let detail = PixelData::encode(root_index, frac.to_bits()).decode();
                let decoded = f32::from_bits(detail.frac_bits);
                assert!(decoded <= frac);
                assert!(frac - decoded <= frac * tolerance);
            }
            step += 1;
        }
    }
}

#[test]
fn nonconvergence_fraction_round_trips_exactly() {
    // frac = 1.0 marks a sample that never converged; the color pass tests
    // for it after decoding, so the packing must keep it exact.
    let one = 1.0f32;
    for root_index in 0..16usize {
        let detail = PixelData::encode(root_index, one.to_bits()).decode();
        assert_eq!(f32::from_bits(detail.frac_bits), 1.0);
        assert_eq!(detail.root_index, root_index);
    }
}

#[test]
fn out_of_range_root_index_truncates() {
    let frac = 0.25f32;
    let detail = PixelData::encode(21, frac.to_bits()).decode();
    assert_eq!(detail.root_index, 21 % 16);
}

#[test]
fn default_pixel_is_zero() {
    let pixel: PixelData = Default::default();
    assert_eq!(pixel.0, 0);
    let detail: PixelDataDetail = pixel.decode();
    assert_eq!(detail.root_index, 0);
}

#[test]
fn mask_matches_low_bits() {
    assert_eq!(newton_core::pixel_data::mask(4), 0xF);
    assert_eq!(newton_core::pixel_data::mask(12), 0xFFF);
    assert_eq!(newton_core::pixel_data::mask(3), 0x7);
    assert_eq!(newton_core::pixel_data::mask(0), 0);
}
