use gradient::RGB;
use gradient::{Gradient, IMAGE_WIDTH};
use gradient::raster::{buffer_len, render_bands, row_count};
use gradient::RenderError;
use gradient::Weight;

fn tuples(colors: &[RGB]) -> Vec<(u8, u8, u8)> {
    colors.iter().map(|c| c.to_tuple()).collect()
}

fn expected_channel(start: u8, end: u8, idx: usize, steps: usize) -> u8 {
    let a: f64 = idx as f64 / steps as f64;
    let b: f64 = (steps - idx) as f64 / steps as f64;
    ((start as f64 * a) as u8).wrapping_add((end as f64 * b) as u8)
}

#[test]
fn black_to_white_in_four_steps() {
    let start = RGB::from_hex_string("#000000");
    let end = RGB::from_hex_string("#FFFFFF");
    let samples = Gradient::generate_gradient(start, end, 4);
    assert_eq!(
        tuples(&samples),
        vec![(255, 255, 255), (191, 191, 191), (127, 127, 127), (63, 63, 63)]
    );
}

#[test]
fn white_to_black_in_four_steps() {
    let start = RGB::new(255, 255, 255);
    let end = RGB::new(0, 0, 0);
    let samples = Gradient::generate_gradient(start, end, 4);
    assert_eq!(tuples(&samples), vec![(0, 0, 0), (63, 63, 63), (127, 127, 127), (191, 191, 191)]);
}

#[test]
fn has_as_many_samples_as_steps() {
    let a = RGB::new(3, 141, 59);
    let b = RGB::new(26, 53, 58);
    for steps in [0usize, 1, 2, 3, 7, 64, 1024, 5000] {
        assert_eq!(Gradient::generate_gradient(a, b, steps).len(), steps);
        let g = Gradient::new(a, b, steps);
        assert_eq!(g.steps(), steps);
        assert_eq!(g.as_slice().len(), steps);
        assert_eq!(g.into_iter().count(), steps);
    }
}

#[test]
fn no_steps_no_samples() {
    let g = Gradient::new(RGB::new(1, 2, 3), RGB::new(4, 5, 6), 0);
    assert!(g.as_slice().is_empty());
    assert_eq!(g.steps(), 0);
}

#[test]
fn one_step_is_the_end_colour() {
    let g = Gradient::new(RGB::new(1, 2, 3), RGB::new(4, 5, 6), 1);
    assert_eq!(tuples(g.as_slice()), vec![(4, 5, 6)]);
}

#[test]
fn first_sample_is_the_end_colour() {
    let start = RGB::new(17, 200, 3);
    let end = RGB::new(250, 1, 99);
    for steps in [1usize, 2, 3, 10, 49, 1024] {
        let g = Gradient::new(start, end, steps);
        assert_eq!(g.as_slice()[0], end);
    }
}

#[test]
fn last_sample_leans_towards_the_start() {
    let start = RGB::new(17, 200, 3);
    let end = RGB::new(250, 1, 99);
    for steps in [1usize, 2, 3, 10, 49, 1024] {
        let g = Gradient::new(start, end, steps);
        let last = g.as_slice()[steps - 1];
        let on_start = Weight::ratio(steps - 1, steps);
        let on_end = Weight::ratio(1, steps);
        assert_eq!(last, start * on_start + end * on_end);
    }
    let g = Gradient::new(start, end, 10);
    // 17*0.9 + 250*0.1 = 15 + 25, 200*0.9 + 1*0.1 = 180 + 0, 3*0.9 + 99*0.1 = 2 + 9
    assert_eq!(g.as_slice()[9].to_tuple(), (40, 180, 11));
}

#[test]
fn samples_are_what_floats_give() {
    // 90 * 0.7 is 62.99999999999999 in binary64, not 63.
    let g = Gradient::new(RGB::new(90, 0, 0), RGB::new(0, 0, 0), 10);
    assert_eq!(g.as_slice()[7].to_tuple(), (62, 0, 0));
    // 49 * (1 / 49) is 0.9999999999999999 in binary64, not 1.
    let g = Gradient::new(RGB::new(0, 0, 0), RGB::new(49, 0, 0), 49);
    assert_eq!(g.as_slice()[48].to_tuple(), (0, 0, 0));
    let g = Gradient::new(RGB::new(10, 200, 49), RGB::new(250, 0, 49), 49);
    assert_eq!(g.as_slice()[1].to_tuple(), (244, 4, 48));
}

#[test]
fn every_sample_follows_the_formula() {
    let start = RGB::new(10, 200, 49);
    let end = RGB::new(250, 0, 49);
    for steps in [1usize, 2, 7, 10, 49, 100, 255, 256, 1000, 1024] {
        let g = Gradient::new(start, end, steps);
        for (idx, c) in g.as_slice().iter().enumerate() {
            let want = (
                expected_channel(10, 250, idx, steps),
                expected_channel(200, 0, idx, steps),
                expected_channel(49, 49, idx, steps),
            );
            assert_eq!(c.to_tuple(), want);
        }
    }
}

#[test]
fn every_sample_of_every_small_gradient_follows_the_formula() {
    let start = RGB::new(90, 255, 1);
    let end = RGB::new(49, 3, 200);
    for steps in 1..=200usize {
        let samples = Gradient::generate_gradient(start, end, steps);
        for (idx, c) in samples.iter().enumerate() {
            let want = (
                expected_channel(90, 49, idx, steps),
                expected_channel(255, 3, idx, steps),
                expected_channel(1, 200, idx, steps),
            );
            assert_eq!(c.to_tuple(), want);
        }
    }
}

#[test]
fn seven_steps_by_hand() {
    let g = Gradient::new(RGB::new(10, 200, 49), RGB::new(250, 0, 49), 7);
    assert_eq!(
        tuples(g.as_slice()),
        vec![
            (250, 0, 49),
            (215, 28, 49),
            (180, 57, 49),
            (146, 85, 49),
            (112, 114, 49),
            (78, 142, 49),
            (43, 171, 49),
        ]
    );
}

#[test]
fn same_endpoints_lose_at_most_one() {
    let c = RGB::new(49, 128, 255);
    let g = Gradient::new(c, c, 49);
    for sample in g.as_slice() {
        let (r, g, b) = sample.to_tuple();
        assert!(r == 49 || r == 48);
        assert!(g == 128 || g == 127);
        assert!(b == 255 || b == 254);
    }
}

#[test]
fn new_keeps_endpoints_and_samples() {
    let start = RGB::new(1, 2, 3);
    let end = RGB::new(200, 100, 50);
    let g = Gradient::new(start, end, 16);
    assert_eq!(g.start(), start);
    assert_eq!(g.end(), end);
    assert_eq!(g.steps(), 16);
    assert_eq!(g.as_slice(), Gradient::generate_gradient(start, end, 16).as_slice());
}

#[test]
fn into_iter_hands_over_the_samples_in_order() {
    let start = RGB::new(0, 0, 0);
    let end = RGB::new(255, 255, 255);
    let g = Gradient::new(start, end, 4);
    let collected: Vec<(u8, u8, u8)> = g.into_iter().map(|c| c.to_tuple()).collect();
    assert_eq!(collected, vec![(255, 255, 255), (191, 191, 191), (127, 127, 127), (63, 63, 63)]);
}

#[test]
fn image_has_one_band_per_sample() {
    let start = RGB::new(10, 200, 49);
    let end = RGB::new(250, 0, 49);
    let g = Gradient::new(start, end, 5);
    let samples = tuples(g.as_slice());
    let bytes = g.generate_image().unwrap().into_raw();
    assert_eq!(IMAGE_WIDTH, 600);
    assert_eq!(bytes.len(), 3 * 600 * 5);
    let img = image::RgbImage::from_raw(600, 5, bytes).unwrap();
    assert_eq!(img.width(), 600);
    assert_eq!(img.height(), 5);
    for y in 0..5u32 {
        for x in 0..600u32 {
            let p = img.get_pixel(x, y);
            assert_eq!((p.0[0], p.0[1], p.0[2]), samples[y as usize]);
        }
    }
    assert_eq!(img.get_pixel(0, 0).0, [250, 0, 49]);
    assert_eq!(img.get_pixel(599, 4).0, [58, 160, 48]);
}

#[test]
fn image_bytes_run_row_by_row() {
    let g = Gradient::new(RGB::new(0, 0, 0), RGB::new(255, 254, 253), 2);
    let bytes = g.generate_image().unwrap().into_raw();
    assert_eq!(bytes.len(), 3600);
    assert_eq!(&bytes[0..6], &[255, 254, 253, 255, 254, 253]);
    assert_eq!(&bytes[1797..1800], &[255, 254, 253]);
    assert_eq!(&bytes[1800..1806], &[127, 127, 126, 127, 127, 126]);
    assert_eq!(&bytes[3597..3600], &[127, 127, 126]);
}

#[test]
fn image_of_no_samples_has_no_rows() {
    let g = Gradient::new(RGB::new(1, 2, 3), RGB::new(4, 5, 6), 0);
    let bytes = g.generate_image().unwrap().into_raw();
    assert!(bytes.is_empty());
}

#[test]
fn image_of_the_usual_size() {
    let g = Gradient::new(RGB::new(255, 0, 0), RGB::new(0, 0, 255), 1024);
    let samples = tuples(g.as_slice());
    let bytes = g.generate_image().unwrap().into_raw();
    let img = image::RgbImage::from_raw(600, 1024, bytes).unwrap();
    for y in [0u32, 1, 511, 512, 1023] {
        for x in [0u32, 1, 300, 599] {
            let p = img.get_pixel(x, y);
            assert_eq!((p.0[0], p.0[1], p.0[2]), samples[y as usize]);
        }
    }
    assert_eq!(img.get_pixel(0, 0).0, [0, 0, 255]);
    assert_eq!(img.get_pixel(0, 512).0, [127, 0, 127]);
}

#[test]
fn bands_of_any_width() {
    let colors = vec![RGB::new(1, 2, 3), RGB::new(4, 5, 6), RGB::new(7, 8, 9)];
    let bytes = render_bands(&colors, 2).unwrap().into_raw();
    assert_eq!(bytes, vec![1, 2, 3, 1, 2, 3, 4, 5, 6, 4, 5, 6, 7, 8, 9, 7, 8, 9]);
    let bytes = render_bands(&colors, 1).unwrap().into_raw();
    assert_eq!(bytes, vec![1, 2, 3, 4, 5, 6, 7, 8, 9]);
    let bytes = render_bands(&colors, 0).unwrap().into_raw();
    assert!(bytes.is_empty());
    let none: Vec<RGB> = Vec::new();
    assert!(render_bands(&none, 600).unwrap().into_raw().is_empty());
}

#[test]
fn row_count_is_the_number_of_colours() {
    assert_eq!(row_count(0), Ok(0));
    assert_eq!(row_count(1024), Ok(1024));
    assert_eq!(row_count(u32::MAX as usize), Ok(u32::MAX));
}

#[test]
fn row_count_refuses_more_rows_than_fit() {
    if usize::BITS > 32 {
        let too_many: usize = (u32::MAX as u64 + 1) as usize;
        assert_eq!(row_count(too_many), Err(RenderError::TooManyRows));
        assert_eq!(row_count(usize::MAX), Err(RenderError::TooManyRows));
    }
}

#[test]
fn buffer_len_is_three_bytes_per_pixel() {
    assert_eq!(buffer_len(600, 4), Ok(7200));
    assert_eq!(buffer_len(0, 4), Ok(0));
    assert_eq!(buffer_len(600, 0), Ok(0));
    assert_eq!(buffer_len(1, 1), Ok(3));
    assert_eq!(buffer_len(600, 1024), Ok(1_843_200));
}

#[test]
fn buffer_len_refuses_what_cannot_be_addressed() {
    assert_eq!(buffer_len(u32::MAX, u32::MAX), Err(RenderError::TooLarge));
    if usize::BITS == 64 {
        assert_eq!(buffer_len(600, u32::MAX), Ok(1800 * u32::MAX as usize));
        assert_eq!(buffer_len(1 << 31, 1 << 30), Ok(3usize << 61));
        assert_eq!(buffer_len(1 << 31, 1 << 31), Err(RenderError::TooLarge));
        // 3 * 1_537_228_672_809_129_301 is isize::MAX
        assert_eq!(buffer_len(1, 0), Ok(0));
        assert_eq!(buffer_len(3_074_457_345, 1_000_000_000), Ok(9_223_372_035_000_000_000));
        assert_eq!(buffer_len(3_074_457_346, 1_000_000_000), Err(RenderError::TooLarge));
    }
}
