use raytracer::color::{quantize, Rgb, MAX_LEVEL};

#[test]
fn the_largest_level_is_255() {
    assert_eq!(MAX_LEVEL, 255);
}

#[test]
fn levels_in_range_are_kept() {
    assert_eq!(quantize(0), 0);
    assert_eq!(quantize(1), 1);
    assert_eq!(quantize(127), 127);
    assert_eq!(quantize(254), 254);
    assert_eq!(quantize(255), 255);
}

#[test]
fn levels_above_the_range_become_255() {
    assert_eq!(quantize(256), 255);
    assert_eq!(quantize(1000), 255);
    assert_eq!(quantize(u32::MAX), 255);
}

#[test]
fn every_intensity_gives_a_level_from_0_to_255() {
    let mut scaled: u32 = 0;
    for _ in 0..40 {
        let level = quantize(scaled);
        assert!(u32::from(level) <= 255);
        assert_eq!(u32::from(level), scaled.min(255));
        scaled = scaled.wrapping_mul(3).wrapping_add(17);
    }
}

#[test]
fn a_pixel_is_made_of_three_levels() {
    assert_eq!(Rgb::from_levels(12, 255, 0), Rgb { r: 12, g: 255, b: 0 });
    assert_eq!(Rgb::from_levels(256, 70000, 254), Rgb { r: 255, g: 255, b: 254 });
}

#[test]
fn a_pixel_is_written_as_three_numbers_and_a_newline() {
    assert_eq!(Rgb { r: 255, g: 0, b: 12 }.to_string(), "255 0 12\n");
    assert_eq!(Rgb { r: 0, g: 0, b: 0 }.to_string(), "0 0 0\n");
    assert_eq!(Rgb { r: 7, g: 100, b: 99 }.to_string(), "7 100 99\n");
}

#[test]
fn what_is_written_reads_back_as_the_levels() {
    for (r, g, b) in [(0u8, 1u8, 9u8), (10, 11, 99), (100, 101, 199), (200, 254, 255)] {
        let text = Rgb { r, g, b }.to_string();
        assert!(text.ends_with('\n'));
        let fields: Vec<u32> = text.trim_end().split(' ').map(|f| f.parse().unwrap()).collect();
        assert_eq!(fields, vec![u32::from(r), u32::from(g), u32::from(b)]);
    }
}

#[test]
fn gamma_clamp_and_scale_end_in_range_for_any_intensity() {
    // the caller's side of the encoding, as a renderer does it
    let encode = |linear: f64| -> u8 {
        let gamma = if linear > 0.0 { linear.sqrt() } else { 0.0 };
        let clamped = gamma.max(0.0).min(1.0);
        quantize((255.0 * clamped) as u32)
    };
    assert_eq!(encode(0.0), 0);
    assert_eq!(encode(-3.5), 0);
    assert_eq!(encode(0.25), 127);
    assert_eq!(encode(1.0), 255);
    assert_eq!(encode(17.0), 255);
    assert_eq!(encode(f64::MAX), 255);
    assert_eq!(encode(f64::INFINITY), 255);
    assert_eq!(encode(f64::NAN), 0);
}
