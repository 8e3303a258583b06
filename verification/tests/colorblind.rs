use colorblind_sim::colorblind::{simulate_color_blindness, ColorBlindnessType};

#[test]
fn test_normal_vision() {
    let (r, g, b) = simulate_color_blindness(255, 128, 64, ColorBlindnessType::Normal);
    assert_eq!((r, g, b), (255, 128, 64));
}

#[test]
fn test_achromatopsia() {
    let (r, g, b) = simulate_color_blindness(255, 0, 0, ColorBlindnessType::Achromatopsia);
    assert_eq!(r, g);
    assert_eq!(g, b);
}

use colorblind_sim::colorblind::{
    blend_colors, simulate_achromatopsia, simulate_deuteranomaly, simulate_deuteranopia,
    simulate_protanomaly, simulate_protanopia, simulate_tritanomaly, simulate_tritanopia,
    ANOMALY_WEIGHT,
};

const KINDS: [ColorBlindnessType; 8] = [
    ColorBlindnessType::Normal,
    ColorBlindnessType::Protanopia,
    ColorBlindnessType::Deuteranopia,
    ColorBlindnessType::Tritanopia,
    ColorBlindnessType::Protanomaly,
    ColorBlindnessType::Deuteranomaly,
    ColorBlindnessType::Tritanomaly,
    ColorBlindnessType::Achromatopsia,
];

fn float_row(w1: f32, a: u8, w2: f32, b: u8) -> u8 {
    let a = a as f32 / 255.0;
    let b = b as f32 / 255.0;
    let mixed = w1 * a + w2 * b;
    (mixed * 255.0).clamp(0.0, 255.0) as u8
}

fn float_protanopia(r: u8, g: u8, b: u8) -> (u8, u8, u8) {
    (float_row(0.567, r, 0.433, g), float_row(0.558, r, 0.442, g), float_row(0.242, g, 0.758, b))
}

fn float_deuteranopia(r: u8, g: u8, b: u8) -> (u8, u8, u8) {
    (float_row(0.625, r, 0.375, g), float_row(0.7, r, 0.3, g), float_row(0.3, g, 0.7, b))
}

fn float_tritanopia(r: u8, g: u8, b: u8) -> (u8, u8, u8) {
    (float_row(0.95, r, 0.05, g), float_row(0.433, g, 0.567, b), float_row(0.475, g, 0.525, b))
}

fn float_blend(original: u8, simulated: u8, factor: f32) -> u8 {
    (original as f32 * (1.0 - factor) + simulated as f32 * factor) as u8
}

fn float_blend_colors(o: (u8, u8, u8), s: (u8, u8, u8), factor: f32) -> (u8, u8, u8) {
    (float_blend(o.0, s.0, factor), float_blend(o.1, s.1, factor), float_blend(o.2, s.2, factor))
}

fn float_gray(r: u8, g: u8, b: u8) -> u8 {
    (0.299 * r as f32 + 0.587 * g as f32 + 0.114 * b as f32) as u8
}

fn float_simulation(r: u8, g: u8, b: u8, kind: ColorBlindnessType) -> (u8, u8, u8) {
    match kind {
        ColorBlindnessType::Normal => (r, g, b),
        ColorBlindnessType::Protanopia => float_protanopia(r, g, b),
        ColorBlindnessType::Deuteranopia => float_deuteranopia(r, g, b),
        ColorBlindnessType::Tritanopia => float_tritanopia(r, g, b),
        ColorBlindnessType::Protanomaly => {
            float_blend_colors((r, g, b), float_protanopia(r, g, b), 0.6)
        }
        ColorBlindnessType::Deuteranomaly => {
            float_blend_colors((r, g, b), float_deuteranopia(r, g, b), 0.6)
        }
        ColorBlindnessType::Tritanomaly => {
            float_blend_colors((r, g, b), float_tritanopia(r, g, b), 0.6)
        }
        ColorBlindnessType::Achromatopsia => {
            let gray = float_gray(r, g, b);
            (gray, gray, gray)
        }
    }
}

fn samples() -> Vec<u8> {
    let mut values: Vec<u8> = (0..=255u16).step_by(17).map(|v| v as u8).collect();
    values.extend([1, 2, 5, 7, 13, 64, 127, 128, 200, 254]);
    values
}

#[test]
fn normal_vision_is_identity_for_every_colour_sampled() {
    for &r in &samples() {
        for &g in &samples() {
            for &b in &samples() {
                assert_eq!(simulate_color_blindness(r, g, b, ColorBlindnessType::Normal), (r, g, b));
            }
        }
    }
}

#[test]
fn achromatopsia_is_gray_for_every_colour_sampled() {
    for &r in &samples() {
        for &g in &samples() {
            for &b in &samples() {
                let (x, y, z) = simulate_color_blindness(r, g, b, ColorBlindnessType::Achromatopsia);
                assert_eq!(x, y);
                assert_eq!(y, z);
                assert_eq!((x, y, z), simulate_achromatopsia(r, g, b));
            }
        }
    }
}

#[test]
fn protanopia_exact_values() {
    assert_eq!(simulate_protanopia(255, 0, 0), (144, 142, 0));
    assert_eq!(simulate_protanopia(0, 255, 0), (110, 112, 61));
    assert_eq!(simulate_protanopia(0, 0, 255), (0, 0, 193));
    assert_eq!(simulate_protanopia(255, 255, 255), (255, 255, 255));
    assert_eq!(simulate_protanopia(5, 5, 5), (4, 5, 5));
    assert_eq!(simulate_protanopia(255, 128, 64), (200, 198, 79));
    assert_eq!(simulate_protanopia(0, 0, 0), (0, 0, 0));
}

#[test]
fn deuteranopia_exact_values() {
    assert_eq!(simulate_deuteranopia(255, 0, 0), (159, 178, 0));
    assert_eq!(simulate_deuteranopia(0, 255, 0), (95, 76, 76));
    assert_eq!(simulate_deuteranopia(0, 0, 255), (0, 0, 178));
    assert_eq!(simulate_deuteranopia(255, 128, 64), (207, 216, 83));
    assert_eq!(simulate_deuteranopia(12, 200, 99), (82, 68, 129));
}

#[test]
fn tritanopia_exact_values() {
    assert_eq!(simulate_tritanopia(255, 0, 0), (242, 0, 0));
    assert_eq!(simulate_tritanopia(0, 255, 0), (12, 110, 121));
    assert_eq!(simulate_tritanopia(0, 0, 255), (0, 144, 133));
    assert_eq!(simulate_tritanopia(5, 5, 5), (5, 4, 5));
    assert_eq!(simulate_tritanopia(255, 128, 64), (248, 91, 94));
}

#[test]
fn anomaly_exact_values() {
    assert_eq!(simulate_protanomaly(255, 0, 0), (188, 85, 0));
    assert_eq!(simulate_protanomaly(12, 200, 99), (60, 137, 113));
    assert_eq!(simulate_deuteranomaly(255, 0, 0), (197, 106, 0));
    assert_eq!(simulate_deuteranomaly(0, 255, 0), (57, 147, 45));
    assert_eq!(simulate_tritanomaly(0, 0, 255), (0, 86, 181));
    assert_eq!(simulate_tritanomaly(255, 128, 64), (250, 105, 82));
}

#[test]
fn achromatopsia_exact_values() {
    assert_eq!(simulate_achromatopsia(255, 0, 0), (76, 76, 76));
    assert_eq!(simulate_achromatopsia(0, 255, 0), (149, 149, 149));
    assert_eq!(simulate_achromatopsia(0, 0, 255), (29, 29, 29));
    assert_eq!(simulate_achromatopsia(255, 255, 255), (255, 255, 255));
    assert_eq!(simulate_achromatopsia(255, 128, 64), (158, 158, 158));
}

#[test]
fn blend_truncates_below_the_exact_mean() {
    assert_eq!(blend_colors(5, 10, 255, 0, 20, 255, ANOMALY_WEIGHT), (1, 16, 255));
    assert_eq!(blend_colors(0, 255, 0, 255, 0, 0, ANOMALY_WEIGHT), (153, 101, 0));
}

#[test]
fn blend_with_extreme_weights() {
    assert_eq!(blend_colors(10, 20, 30, 200, 210, 220, 0), (10, 20, 30));
    assert_eq!(blend_colors(10, 20, 30, 200, 210, 220, 1000), (200, 210, 220));
}

#[test]
fn blend_agrees_with_float_arithmetic_for_all_pairs() {
    for o in 0..=255u8 {
        for s in 0..=255u8 {
            let (x, _, _) = blend_colors(o, 0, 0, s, 0, 0, ANOMALY_WEIGHT);
            assert_eq!(x, float_blend(o, s, 0.6), "original {} simulated {}", o, s);
        }
    }
}

#[test]
fn dichromacies_agree_with_float_arithmetic_for_all_pairs_of_a_row() {
    for a in 0..=255u8 {
        for b in (0..=255u8).step_by(3) {
            assert_eq!(simulate_protanopia(a, b, a), float_protanopia(a, b, a));
            assert_eq!(simulate_deuteranopia(a, b, a), float_deuteranopia(a, b, a));
            assert_eq!(simulate_tritanopia(a, b, a), float_tritanopia(a, b, a));
        }
    }
}

#[test]
fn grays_agree_with_float_arithmetic() {
    for v in 0..=255u8 {
        for kind in KINDS {
            assert_eq!(
                simulate_color_blindness(v, v, v, kind),
                float_simulation(v, v, v, kind),
                "gray {} under {:?}",
                v,
                kind
            );
        }
    }
}

#[test]
fn every_kind_agrees_with_float_arithmetic_on_sampled_colours() {
    for &r in &samples() {
        for &g in &samples() {
            for &b in &samples() {
                for kind in KINDS {
                    assert_eq!(
                        simulate_color_blindness(r, g, b, kind),
                        float_simulation(r, g, b, kind),
                        "colour ({}, {}, {}) under {:?}",
                        r,
                        g,
                        b,
                        kind
                    );
                }
            }
        }
    }
}

#[test]
fn luminance_agrees_with_float_arithmetic_on_a_grid() {
    for r in (0..=255u8).step_by(5) {
        for g in (0..=255u8).step_by(3) {
            for b in (0..=255u8).step_by(15) {
                let gray = float_gray(r, g, b);
                assert_eq!(simulate_achromatopsia(r, g, b), (gray, gray, gray));
            }
        }
    }
}

#[test]
fn labels_name_the_kinds() {
    let named = ColorBlindnessType::from_label;
    assert_eq!(named("Protanopia (Red-Blind)"), ColorBlindnessType::Protanopia);
    assert_eq!(named("Deuteranopia (Green-Blind)"), ColorBlindnessType::Deuteranopia);
    assert_eq!(named("Tritanopia (Blue-Blind)"), ColorBlindnessType::Tritanopia);
    assert_eq!(named("Protanomaly"), ColorBlindnessType::Protanomaly);
    assert_eq!(named("Deuteranomaly"), ColorBlindnessType::Deuteranomaly);
    assert_eq!(named("Tritanomaly"), ColorBlindnessType::Tritanomaly);
    assert_eq!(named("Achromatopsia"), ColorBlindnessType::Achromatopsia);
    assert_eq!(named("Normal Vision"), ColorBlindnessType::Normal);
    assert_eq!(named(""), ColorBlindnessType::Normal);
    assert_eq!(named("protanomaly"), ColorBlindnessType::Normal);
    assert_eq!(named("Protanopia"), ColorBlindnessType::Normal);
}

fn exact_row(w1: u32, a: u8, w2: u32, b: u8) -> u32 {
    (w1 * a as u32 + w2 * b as u32) / 1000
}

fn exact_or_one_below(value: u8, exact: u32) -> bool {
    value as u32 == exact || value as u32 + 1 == exact
}

#[test]
fn dichromacies_are_exact_or_one_below() {
    for &r in &samples() {
        for &g in &samples() {
            for &b in &samples() {
                let p = simulate_protanopia(r, g, b);
                assert!(exact_or_one_below(p.0, exact_row(567, r, 433, g)));
                assert!(exact_or_one_below(p.1, exact_row(558, r, 442, g)));
                assert!(exact_or_one_below(p.2, exact_row(242, g, 758, b)));
                let d = simulate_deuteranopia(r, g, b);
                assert!(exact_or_one_below(d.0, exact_row(625, r, 375, g)));
                assert!(exact_or_one_below(d.1, exact_row(700, r, 300, g)));
                assert!(exact_or_one_below(d.2, exact_row(300, g, 700, b)));
                let t = simulate_tritanopia(r, g, b);
                assert!(exact_or_one_below(t.0, exact_row(950, r, 50, g)));
                assert!(exact_or_one_below(t.1, exact_row(433, g, 567, b)));
                assert!(exact_or_one_below(t.2, exact_row(475, g, 525, b)));
            }
        }
    }
}

#[test]
fn blends_are_exact_or_one_below() {
    for weight in [0u16, 1, 250, 500, 600, 999, 1000] {
        for o in (0..=255u8).step_by(5) {
            for s in (0..=255u8).step_by(3) {
                let (x, _, _) = blend_colors(o, 0, 0, s, 0, 0, weight);
                let exact = ((1000 - weight as u32) * o as u32 + weight as u32 * s as u32) / 1000;
                assert!(exact_or_one_below(x, exact), "{} {} {}", o, s, weight);
            }
        }
    }
}

#[test]
fn luminance_is_exact_or_one_below() {
    for &r in &samples() {
        for &g in &samples() {
            for &b in &samples() {
                let (gray, _, _) = simulate_achromatopsia(r, g, b);
                let exact = (299 * r as u32 + 587 * g as u32 + 114 * b as u32) / 1000;
                assert!(exact_or_one_below(gray, exact));
            }
        }
    }
}
