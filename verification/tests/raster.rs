use colorblind_sim::colorblind::{
    simulate_color_blindness, simulate_image_colorblindness, ColorBlindnessType,
};
use colorblind_sim::image_handler::rgb_samples;
use colorblind_sim::raster::RasterImage;

fn gradient(width: u32, height: u32) -> Vec<u8> {
    let mut samples = Vec::new();
    for y in 0..height {
        for x in 0..width {
            samples.push((x * 37 + y * 11) as u8);
            samples.push((x * 5 + y * 71 + 3) as u8);
            samples.push((x * 13 + y * 29 + 200) as u8);
            samples.push((x + 2 * y * width + 1) as u8);
        }
    }
    samples
}

#[test]
fn from_raw_wants_four_samples_to_a_pixel() {
    assert!(RasterImage::from_raw(2, 2, vec![0; 16]).is_some());
    assert!(RasterImage::from_raw(2, 2, vec![0; 15]).is_none());
    assert!(RasterImage::from_raw(2, 2, vec![0; 20]).is_some());
    assert!(RasterImage::from_raw(0, 5, Vec::new()).is_some());
    assert!(RasterImage::from_raw(1, 1, Vec::new()).is_none());
    assert!(RasterImage::from_raw(u32::MAX, u32::MAX, vec![0; 64]).is_none());
}

#[test]
fn an_image_has_its_size_and_pixels() {
    let img = RasterImage::from_raw(3, 2, gradient(3, 2)).unwrap();
    assert_eq!(img.width(), 3);
    assert_eq!(img.height(), 2);
    assert_eq!(img.pixel(0, 0), Some((0, 3, 200, 1)));
    assert_eq!(img.pixel(2, 0), Some((74, 13, 226, 3)));
    assert_eq!(img.pixel(1, 1), Some((48, 79, 242, 8)));
    assert_eq!(img.pixel(3, 0), None);
    assert_eq!(img.pixel(0, 2), None);
    let same = image::RgbaImage::from_raw(3, 2, gradient(3, 2)).unwrap();
    for y in 0..2 {
        for x in 0..3 {
            let image::Rgba([r, g, b, a]) = *same.get_pixel(x, y);
            assert_eq!(img.pixel(x, y), Some((r, g, b, a)));
        }
    }
}

#[test]
fn simulated_image_keeps_size_and_alpha() {
    for kind in [
        ColorBlindnessType::Normal,
        ColorBlindnessType::Protanopia,
        ColorBlindnessType::Tritanomaly,
        ColorBlindnessType::Achromatopsia,
    ] {
        let img = RasterImage::from_raw(7, 5, gradient(7, 5)).unwrap();
        let out = simulate_image_colorblindness(&img, kind);
        assert_eq!(out.width(), 7);
        assert_eq!(out.height(), 5);
        for y in 0..5 {
            for x in 0..7 {
                assert_eq!(out.pixel(x, y).unwrap().3, img.pixel(x, y).unwrap().3);
            }
        }
    }
}

#[test]
fn simulated_image_is_the_simulation_of_each_pixel() {
    for kind in [
        ColorBlindnessType::Normal,
        ColorBlindnessType::Protanopia,
        ColorBlindnessType::Deuteranopia,
        ColorBlindnessType::Tritanopia,
        ColorBlindnessType::Protanomaly,
        ColorBlindnessType::Deuteranomaly,
        ColorBlindnessType::Tritanomaly,
        ColorBlindnessType::Achromatopsia,
    ] {
        let img = RasterImage::from_raw(9, 4, gradient(9, 4)).unwrap();
        let out = simulate_image_colorblindness(&img, kind);
        for y in 0..4 {
            for x in 0..9 {
                let (r, g, b, a) = img.pixel(x, y).unwrap();
                let (sr, sg, sb) = simulate_color_blindness(r, g, b, kind);
                assert_eq!(out.pixel(x, y), Some((sr, sg, sb, a)));
            }
        }
    }
}

#[test]
fn simulation_leaves_the_given_image_as_it_was() {
    let img = RasterImage::from_raw(4, 4, gradient(4, 4)).unwrap();
    let out = simulate_image_colorblindness(&img, ColorBlindnessType::Achromatopsia);
    let untouched = RasterImage::from_raw(4, 4, gradient(4, 4)).unwrap();
    let mut changed = false;
    for y in 0..4 {
        for x in 0..4 {
            assert_eq!(img.pixel(x, y), untouched.pixel(x, y));
            changed = changed || out.pixel(x, y) != img.pixel(x, y);
        }
    }
    assert!(changed);
}

#[test]
fn simulated_image_of_one_red_pixel() {
    let img = RasterImage::from_raw(1, 1, vec![255, 0, 0, 77]).unwrap();
    let out = simulate_image_colorblindness(&img, ColorBlindnessType::Protanopia);
    assert_eq!(out.pixel(0, 0), Some((144, 142, 0, 77)));
    let gray = simulate_image_colorblindness(&img, ColorBlindnessType::Achromatopsia);
    assert_eq!(gray.pixel(0, 0), Some((76, 76, 76, 77)));
}

#[test]
fn simulated_image_without_pixels() {
    let img = RasterImage::from_raw(0, 3, Vec::new()).unwrap();
    let out = simulate_image_colorblindness(&img, ColorBlindnessType::Deuteranopia);
    assert_eq!((out.width(), out.height()), (0, 3));
    assert_eq!(out.pixel(0, 0), None);
}

#[test]
fn samples_beyond_the_last_pixel_belong_to_no_pixel() {
    let mut samples = gradient(2, 2);
    samples.extend([9, 9, 9, 9, 9]);
    let img = RasterImage::from_raw(2, 2, samples).unwrap();
    let out = simulate_image_colorblindness(&img, ColorBlindnessType::Normal);
    assert_eq!((out.width(), out.height()), (2, 2));
    assert_eq!(rgb_samples(&out).len(), 12);
}

#[test]
fn rgb_samples_drop_the_alpha() {
    let img = RasterImage::from_raw(2, 2, (1..=16).collect()).unwrap();
    assert_eq!(rgb_samples(&img), vec![1, 2, 3, 5, 6, 7, 9, 10, 11, 13, 14, 15]);
    let wide = RasterImage::from_raw(5, 3, gradient(5, 3)).unwrap();
    let rgb = rgb_samples(&wide);
    assert_eq!(rgb.len(), 45);
    for y in 0..3u32 {
        for x in 0..5u32 {
            let at = ((y * 5 + x) * 3) as usize;
            let (r, g, b, _) = wide.pixel(x, y).unwrap();
            assert_eq!((rgb[at], rgb[at + 1], rgb[at + 2]), (r, g, b));
        }
    }
    let none = RasterImage::from_raw(0, 0, Vec::new()).unwrap();
    assert!(rgb_samples(&none).is_empty());
}

#[test]
fn into_raw_gives_the_samples_back() {
    let img = RasterImage::from_raw(3, 2, gradient(3, 2)).unwrap();
    assert_eq!(img.into_raw(), gradient(3, 2));
    let mut longer = gradient(2, 2);
    longer.extend([7, 8, 9]);
    let kept = RasterImage::from_raw(2, 2, longer.clone()).unwrap();
    assert_eq!(kept.into_raw(), longer);
}

#[test]
fn into_raw_of_a_simulated_image() {
    let img = RasterImage::from_raw(2, 1, vec![255, 0, 0, 9, 0, 0, 255, 8]).unwrap();
    let out = simulate_image_colorblindness(&img, ColorBlindnessType::Deuteranopia);
    assert_eq!(out.into_raw(), vec![159, 178, 0, 9, 0, 0, 178, 8]);
}

#[test]
fn simulation_keeps_the_samples_that_belong_to_no_pixel() {
    let img = RasterImage::from_raw(1, 1, vec![255, 0, 0, 9, 41, 42]).unwrap();
    let out = simulate_image_colorblindness(&img, ColorBlindnessType::Protanopia);
    assert_eq!(out.into_raw(), vec![144, 142, 0, 9, 41, 42]);
}

#[test]
fn from_raw_of_a_width_whose_fourfold_fits() {
    assert!(RasterImage::from_raw(0x4000_0000, 0, Vec::new()).is_some() == (usize::BITS > 32));
    assert!(RasterImage::from_raw(0x3fff_ffff, 0, Vec::new()).is_some());
}
