use quill::color::{clamp_cmyk_pixels, clamp_cmyk_u8, ConvMode, RgbToCmyk, MAX_CMYK_SAMPLE_SUM};

fn sample_sum(p: [u8; 4]) -> u16 {
    p.iter().map(|&v| v as u16).sum()
}

#[test]
fn clamp_leaves_under_limit_pixels_unchanged() {
    assert_eq!(clamp_cmyk_u8(200, 200, 200, 11), [200, 200, 200, 11]);
    assert_eq!(sample_sum(clamp_cmyk_u8(204, 204, 204, 0)), 612);
    assert_eq!(clamp_cmyk_u8(204, 204, 204, 0), [204, 204, 204, 0]);
    assert_eq!(clamp_cmyk_u8(0, 0, 0, 255), [0, 0, 0, 255]);
}

#[test]
fn clamp_preserves_k_and_scales_cmy() {
    let out = clamp_cmyk_u8(0, 255, 255, 229);
    assert_eq!(out[3], 229, "K is preserved");
    assert_eq!(out[0], 0, "a zero channel stays zero");
    assert!(sample_sum(out) <= MAX_CMYK_SAMPLE_SUM, "clamped within budget");
    assert_eq!(out[1], out[2]);
}

#[test]
fn clamp_scales_by_the_remaining_budget_rounding_down() {
    // budget 612 - 229 = 383 over 510: 255 × 383 / 510 = 191.5, rounded down.
    assert_eq!(clamp_cmyk_u8(0, 255, 255, 229), [0, 191, 191, 229]);
    // Every pixel, however inked, comes out within the limit.
    for c in (0..=255).step_by(15) {
        for k in (0..=255).step_by(17) {
            let out = clamp_cmyk_u8(c, 255, 200, k);
            assert!(sample_sum(out) <= 612);
            assert_eq!(out[3], k);
        }
    }
}

#[test]
fn every_pixel_of_a_buffer_is_clamped() {
    let mut data = vec![0, 255, 255, 229, 10, 20, 30, 40];
    clamp_cmyk_pixels(&mut data);
    assert_eq!(data, vec![0, 191, 191, 229, 10, 20, 30, 40]);
}

#[test]
fn garbage_profile_falls_back_to_naive() {
    let conv = RgbToCmyk::from_output_profile(b"not an icc profile");
    assert_eq!(conv.mode(), ConvMode::Naive);
}

#[test]
fn a_converter_without_a_profile_leaves_the_pixels_to_the_fallback() {
    let conv = RgbToCmyk::from_output_profile(b"");
    assert_eq!(conv.mode(), ConvMode::Naive);
    assert_eq!(conv.convert_with_profile(&[255, 255, 255, 0, 0, 0]), None);
}
