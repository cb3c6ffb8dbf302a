use raytracer::color::Rgb;
use raytracer::ppm::{encode, header, push_decimal, push_pixel};
use raytracer::raster::Raster;
use raytracer::render::render_sequential;

fn numeral(n: u32) -> String {
    let mut text = String::new();
    push_decimal(&mut text, n);
    text
}

#[test]
fn numerals_have_no_leading_zeros() {
    assert_eq!(numeral(0), "0");
    assert_eq!(numeral(7), "7");
    assert_eq!(numeral(10), "10");
    assert_eq!(numeral(255), "255");
    assert_eq!(numeral(1200), "1200");
    assert_eq!(numeral(4294967295), "4294967295");
}

#[test]
fn numerals_agree_with_the_standard_formatting() {
    let mut n: u32 = 1;
    for _ in 0..64 {
        assert_eq!(numeral(n), n.to_string());
        n = n.wrapping_mul(2654435761).wrapping_add(12345);
    }
    for n in 0..=1000u32 {
        assert_eq!(numeral(n), n.to_string());
    }
}

#[test]
fn a_numeral_is_appended_to_what_is_there() {
    let mut text = String::from("width ");
    push_decimal(&mut text, 400);
    assert_eq!(text, "width 400");
}

#[test]
fn a_pixel_line_is_appended_to_what_is_there() {
    let mut text = String::from("1 2 3\n");
    push_pixel(&mut text, Rgb { r: 40, g: 5, b: 106 });
    assert_eq!(text, "1 2 3\n40 5 106\n");
}

#[test]
fn the_header_names_format_size_and_largest_level() {
    assert_eq!(header(400, 225), "P3\n400 225\n255\n");
    assert_eq!(header(1200, 675), "P3\n1200 675\n255\n");
    assert_eq!(header(0, 1), "P3\n0 1\n255\n");
    assert_eq!(header(1, 1), "P3\n1 1\n255\n");
}

#[test]
fn an_image_is_its_header_and_one_line_for_each_pixel() {
    let raster = Raster::new(2, 2);
    let pixels = vec![
        Rgb { r: 255, g: 0, b: 0 },
        Rgb { r: 0, g: 255, b: 0 },
        Rgb { r: 0, g: 0, b: 255 },
        Rgb { r: 12, g: 34, b: 56 },
    ];
    assert_eq!(
        encode(&raster, &pixels),
        Some(String::from("P3\n2 2\n255\n255 0 0\n0 255 0\n0 0 255\n12 34 56\n"))
    );
}

#[test]
fn an_image_without_pixels_is_its_header() {
    let raster = Raster::new(0, 3);
    assert_eq!(encode(&raster, &vec![]), Some(String::from("P3\n0 3\n255\n")));
}

#[test]
fn an_image_with_too_few_or_too_many_pixels_is_refused() {
    let raster = Raster::new(2, 2);
    let black = Rgb { r: 0, g: 0, b: 0 };
    assert_eq!(encode(&raster, &vec![black; 3]), None);
    assert_eq!(encode(&raster, &vec![black; 5]), None);
    assert_eq!(encode(&raster, &vec![]), None);
}

#[test]
fn a_sixteen_by_nine_image_of_width_400_has_225_rows_of_valid_triplets() {
    let aspect_ratio: f64 = 16.0 / 9.0;
    let image_width: u32 = 400;
    let image_height = (image_width as f64 / aspect_ratio).floor() as u32;
    let raster = Raster::new(image_width, image_height);
    // a ground that fades with the row and a bright disc in the middle
    let shade = |i: u32, j: u32| {
        let dx = i as i64 - 200;
        let dy = j as i64 - 112;
        if dx * dx + dy * dy < 60 * 60 {
            Rgb::from_levels(300, 200 + j, 180)
        } else {
            Rgb::from_levels(j, i % 256, 128)
        }
    };
    let pixels = render_sequential(&raster, &shade);
    let text = encode(&raster, &pixels).unwrap();
    assert!(text.starts_with("P3\n400 225\n255\n"));
    let body = &text["P3\n400 225\n255\n".len()..];
    assert!(body.ends_with('\n'));
    let lines: Vec<&str> = body.lines().collect();
    assert_eq!(lines.len(), 400 * 225);
    for (k, line) in lines.iter().enumerate() {
        let levels: Vec<u32> = line.split(' ').map(|f| f.parse().unwrap()).collect();
        assert_eq!(levels.len(), 3);
        assert!(levels.iter().all(|level| *level <= 255));
        let expected = pixels[k];
        assert_eq!(levels, vec![expected.r as u32, expected.g as u32, expected.b as u32]);
    }
}
