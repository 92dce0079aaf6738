use gradient::RGB;
use gradient::Weight;

fn weight(x: f64) -> Weight {
    Weight::from_bits(x.to_bits())
}

fn float_scale(ch: u8, x: f64) -> u8 {
    (ch as f64 * x) as u8
}

#[test]
fn new_keeps_the_channels() {
    assert_eq!(RGB::new(1, 2, 3).to_tuple(), (1, 2, 3));
    assert_eq!(RGB::new(255, 0, 128).to_tuple(), (255, 0, 128));
}

#[test]
fn default_is_black() {
    assert_eq!(RGB::default().to_tuple(), (0, 0, 0));
    assert_eq!(RGB::default(), RGB::new(0, 0, 0));
}

#[test]
fn parses_lower_case_digits() {
    assert_eq!(RGB::from_hex_string("#ff8000").to_tuple(), (255, 128, 0));
    assert_eq!(RGB::from_hex_string("#0a0b0c").to_tuple(), (10, 11, 12));
}

#[test]
fn parses_upper_and_mixed_case_digits() {
    assert_eq!(RGB::from_hex_string("#FF8000").to_tuple(), (255, 128, 0));
    assert_eq!(RGB::from_hex_string("#aBcDeF").to_tuple(), (0xab, 0xcd, 0xef));
    assert_eq!(RGB::from_hex_string("#ABCDEF"), RGB::from_hex_string("#abcdef"));
}

#[test]
fn parses_the_extremes() {
    assert_eq!(RGB::from_hex_string("#000000").to_tuple(), (0, 0, 0));
    assert_eq!(RGB::from_hex_string("#ffffff").to_tuple(), (255, 255, 255));
    assert_eq!(RGB::from_hex_string("#090a0f").to_tuple(), (9, 10, 15));
    assert_eq!(RGB::from_hex_string("#109fa0").to_tuple(), (16, 159, 160));
}

#[test]
fn ignores_what_follows_the_colour() {
    assert_eq!(RGB::from_hex_string("#12345678").to_tuple(), (0x12, 0x34, 0x56));
    assert_eq!(RGB::from_hex_string("#abcdef and more").to_tuple(), (0xab, 0xcd, 0xef));
    assert_eq!(RGB::from_hex_string("#abcdefg").to_tuple(), (0xab, 0xcd, 0xef));
    assert_eq!(RGB::from_hex_string("#00ff00\u{e9}\u{4e2d}").to_tuple(), (0, 255, 0));
}

#[test]
fn try_from_accepts_what_from_accepts() {
    assert_eq!(RGB::try_from_hex_string("#ff8000"), Some(RGB::new(255, 128, 0)));
    assert_eq!(RGB::try_from_hex_string("#FFFFFFtail"), Some(RGB::new(255, 255, 255)));
    assert_eq!(RGB::try_from_hex_string("#00ff00\u{e9}"), Some(RGB::new(0, 255, 0)));
}

#[test]
fn try_from_refuses_short_texts() {
    assert_eq!(RGB::try_from_hex_string(""), None);
    assert_eq!(RGB::try_from_hex_string("#"), None);
    assert_eq!(RGB::try_from_hex_string("#12345"), None);
    assert_eq!(RGB::try_from_hex_string("#fff"), None);
}

#[test]
fn try_from_refuses_a_missing_hash() {
    assert_eq!(RGB::try_from_hex_string("123456"), None);
    assert_eq!(RGB::try_from_hex_string("1234567"), None);
    assert_eq!(RGB::try_from_hex_string(" #123456"), None);
    assert_eq!(RGB::try_from_hex_string("x#123456"), None);
    assert_eq!(RGB::try_from_hex_string("\n#123456"), None);
}

#[test]
fn try_from_refuses_other_characters() {
    assert_eq!(RGB::try_from_hex_string("#12345g"), None);
    assert_eq!(RGB::try_from_hex_string("#G00000"), None);
    assert_eq!(RGB::try_from_hex_string("#12 456"), None);
    assert_eq!(RGB::try_from_hex_string("#12345\u{e9}"), None);
    assert_eq!(RGB::try_from_hex_string("#\u{ff11}23456"), None);
    assert_eq!(RGB::try_from_hex_string("#12345/"), None);
    assert_eq!(RGB::try_from_hex_string("#12345:"), None);
    assert_eq!(RGB::try_from_hex_string("#12345@"), None);
    assert_eq!(RGB::try_from_hex_string("#12345`"), None);
}

#[test]
fn writes_lower_case_with_leading_zeros() {
    assert_eq!(RGB::new(255, 128, 0).to_hex_string(), "#ff8000");
    assert_eq!(RGB::new(0, 0, 0).to_hex_string(), "#000000");
    assert_eq!(RGB::new(1, 10, 15).to_hex_string(), "#010a0f");
    assert_eq!(RGB::new(0xab, 0xcd, 0xef).to_hex_string(), "#abcdef");
    assert_eq!(RGB::new(16, 159, 160).to_hex_string(), "#109fa0");
}

#[test]
fn parse_then_format_gives_the_lower_case_text() {
    let texts = ["#000000", "#FFFFFF", "#aBcDeF", "#0A1b2C", "#123456", "#fedcba", "#9F9f9F"];
    for text in texts {
        assert_eq!(RGB::from_hex_string(text).to_hex_string(), text.to_lowercase());
    }
    assert_eq!(RGB::from_hex_string("#ABCDEFXYZ").to_hex_string(), "#abcdef");
}

#[test]
fn format_then_parse_gives_the_colour() {
    for v in 0..=255u8 {
        let colors = [RGB::new(v, 0, 255), RGB::new(0, v, v), RGB::new(255 - v, 7, v)];
        for c in colors {
            let text = c.to_hex_string();
            assert_eq!(text.len(), 7);
            assert_eq!(RGB::from_hex_string(&text), c);
            assert_eq!(RGB::try_from_hex_string(&text), Some(c));
        }
    }
}

#[test]
fn ratio_by_zero_is_what_floats_give() {
    // 1 / 0 is plus infinity and 0 / 0 is no number
    for ch in [0u8, 1, 49, 255] {
        assert_eq!(Weight::ratio(1, 0).scale(ch), float_scale(ch, 1.0 / 0.0));
        assert_eq!(Weight::ratio(usize::MAX, 0).scale(ch), float_scale(ch, f64::INFINITY));
        assert_eq!(Weight::ratio(0, 0).scale(ch), float_scale(ch, 0.0 / 0.0));
    }
    assert_eq!(Weight::ratio(1, 0).scale(1), 255);
    assert_eq!(Weight::ratio(1, 0).scale(0), 0);
    assert_eq!(Weight::ratio(0, 0).scale(255), 0);
}

#[test]
fn scale_by_what_is_no_finite_number() {
    for ch in [0u8, 1, 49, 255] {
        for x in [f64::NAN, -f64::NAN, f64::INFINITY, f64::NEG_INFINITY] {
            assert_eq!(weight(x).scale(ch), float_scale(ch, x));
        }
        assert_eq!(Weight::from_bits(0x7ff0_0000_0000_0001).scale(ch), 0);
        assert_eq!(Weight::from_bits(0xfff8_0000_0000_0000).scale(ch), 0);
    }
    assert_eq!(weight(f64::INFINITY).scale(1), 255);
    assert_eq!(weight(f64::INFINITY).scale(0), 0);
    assert_eq!(weight(f64::NEG_INFINITY).scale(255), 0);
    assert_eq!(weight(f64::NAN).scale(255), 0);
    assert_eq!(
        (RGB::new(0, 1, 255) * weight(f64::INFINITY)).to_tuple(),
        (0, 255, 255)
    );
}

#[test]
fn from_parts_takes_the_finite_numbers() {
    assert!(Weight::from_parts(false, 0, 0).is_some());
    assert!(Weight::from_parts(true, 1, -1074).is_some());
    assert!(Weight::from_parts(false, (1 << 53) - 1, 971).is_some());
    assert!(Weight::from_parts(false, 1 << 53, 0).is_none());
    assert!(Weight::from_parts(false, 1, -1075).is_none());
    assert!(Weight::from_parts(false, 1, 972).is_none());
    assert!(Weight::from_parts(false, u64::MAX, 0).is_none());
}

#[test]
fn from_parts_and_from_bits_agree() {
    // 0.75 is 3 * 2^-2, 0.7 is 0x1.6666666666666p-1
    for ch in 0..=255u8 {
        assert_eq!(Weight::from_parts(false, 3, -2).unwrap().scale(ch), weight(0.75).scale(ch));
        assert_eq!(
            Weight::from_parts(false, 0x16_6666_6666_6666, -53).unwrap().scale(ch),
            weight(0.7).scale(ch)
        );
        assert_eq!(Weight::from_parts(true, 3, -2).unwrap().scale(ch), 0);
    }
}

#[test]
fn ratio_is_the_float_quotient() {
    let pairs: [(usize, usize); 12] = [
        (0, 1),
        (1, 1),
        (1, 3),
        (2, 3),
        (7, 10),
        (1, 49),
        (48, 49),
        (3, 2),
        (1000, 7),
        (1, usize::MAX),
        (usize::MAX, 3),
        (usize::MAX - 1, usize::MAX),
    ];
    for (num, den) in pairs {
        let x = num as f64 / den as f64;
        for ch in [0u8, 1, 2, 49, 90, 100, 128, 254, 255] {
            assert_eq!(Weight::ratio(num, den).scale(ch), float_scale(ch, x));
        }
    }
}

#[test]
fn scale_is_the_float_product_cut_down() {
    assert_eq!(weight(0.5).scale(255), 127);
    assert_eq!(weight(0.5).scale(1), 0);
    assert_eq!(weight(0.75).scale(255), 191);
    assert_eq!(weight(1.0 / 3.0).scale(100), 33);
    assert_eq!(weight(2.0 / 3.0).scale(100), 66);
    assert_eq!(weight(0.999).scale(255), 254);
}

#[test]
fn scale_rounds_the_product_before_it_is_cut() {
    // 90 * 0.7 is 62.99999999999999 in binary64, and 49 * (1 / 49) is
    // 0.9999999999999999: both products fall short of the next integer.
    assert_eq!(weight(0.7).scale(90), 62);
    assert_eq!(weight(1.0 / 49.0).scale(49), 0);
    assert_eq!(Weight::ratio(7, 10).scale(90), 62);
    assert_eq!(Weight::ratio(1, 49).scale(49), 0);
    // 3 * (1 / 3) is rounded up to one.
    assert_eq!(weight(1.0 / 3.0).scale(3), 1);
    assert_eq!(Weight::ratio(1, 3).scale(3), 1);
}

#[test]
fn scale_agrees_with_floats_on_many_weights() {
    let mut x: u64 = 0x9e37_79b9_7f4a_7c15;
    let mut checked: u32 = 0;
    for round in 0..40000u32 {
        x ^= x << 13;
        x ^= x >> 7;
        x ^= x << 17;
        let f = if round % 2 == 0 {
            f64::from_bits(x)
        } else {
            (x >> 11) as f64 / (1u64 << 53) as f64 * 4.0
        };
        let w = Weight::from_bits(f.to_bits());
        for ch in [0u8, 1, 3, 49, 90, 127, 200, 255] {
            assert_eq!(w.scale(ch), float_scale(ch, f));
        }
        checked += 1;
    }
    assert_eq!(checked, 40000);
}

#[test]
fn scale_agrees_with_floats_on_every_small_ratio() {
    for den in 1..=120usize {
        for num in 0..=den {
            let w = Weight::ratio(num, den);
            let x = num as f64 / den as f64;
            for ch in 0..=255u8 {
                assert_eq!(w.scale(ch), float_scale(ch, x));
            }
        }
    }
}

#[test]
fn scale_by_zero_and_one() {
    for v in 0..=255u8 {
        assert_eq!(weight(0.0).scale(v), 0);
        assert_eq!(weight(-0.0).scale(v), 0);
        assert_eq!(weight(1.0).scale(v), v);
        assert_eq!(Weight::ratio(0, 7).scale(v), 0);
        assert_eq!(Weight::ratio(7, 7).scale(v), v);
    }
}

#[test]
fn scale_stays_within_a_byte() {
    assert_eq!(weight(2.0).scale(100), 200);
    assert_eq!(weight(2.0).scale(128), 255);
    assert_eq!(weight(3.0).scale(100), 255);
    assert_eq!(weight(256.0).scale(1), 255);
    assert_eq!(weight(255.0).scale(1), 255);
    assert_eq!(weight(f64::MAX).scale(1), 255);
    assert_eq!(weight(f64::MAX).scale(255), 255);
    assert_eq!(weight(f64::MAX).scale(0), 0);
    assert_eq!(weight(-0.5).scale(255), 0);
    assert_eq!(weight(-0.001).scale(1), 0);
    assert_eq!(weight(f64::MIN).scale(255), 0);
    assert_eq!(weight(f64::MIN_POSITIVE).scale(255), 0);
    assert_eq!(weight(f64::from_bits(1)).scale(255), 0);
    assert_eq!(weight(0.003921568627450980).scale(255), float_scale(255, 0.003921568627450980));
}

#[test]
fn mul_scales_every_channel() {
    assert_eq!((RGB::new(255, 101, 0) * weight(0.5)).to_tuple(), (127, 50, 0));
    assert_eq!((RGB::new(10, 20, 30) * weight(1.0)).to_tuple(), (10, 20, 30));
    assert_eq!((RGB::new(10, 20, 30) * weight(0.0)).to_tuple(), (0, 0, 0));
    assert_eq!((RGB::new(10, 100, 200) * weight(1.5)).to_tuple(), (15, 150, 255));
    assert_eq!((RGB::new(10, 100, 200) * weight(-1.5)).to_tuple(), (0, 0, 0));
    assert_eq!((RGB::new(90, 49, 3) * weight(0.7)).to_tuple(), (62, 34, 2));
}

#[test]
fn add_sums_every_channel() {
    assert_eq!((RGB::new(1, 2, 3) + RGB::new(10, 20, 30)).to_tuple(), (11, 22, 33));
    assert_eq!((RGB::new(0, 0, 0) + RGB::new(255, 255, 255)).to_tuple(), (255, 255, 255));
}

#[test]
fn add_wraps_around_past_255() {
    assert_eq!((RGB::new(200, 100, 255) + RGB::new(100, 100, 1)).to_tuple(), (44, 200, 0));
    assert_eq!((RGB::new(255, 255, 255) + RGB::new(255, 255, 255)).to_tuple(), (254, 254, 254));
    assert_eq!((RGB::new(128, 0, 0) + RGB::new(128, 0, 0)).to_tuple(), (0, 0, 0));
}

#[test]
fn blend_is_the_weighted_sum() {
    let black = RGB::new(0, 0, 0);
    let white = RGB::new(255, 255, 255);
    assert_eq!(black.blend(white, weight(0.25), weight(0.75)).to_tuple(), (191, 191, 191));
    assert_eq!(white.blend(black, weight(0.25), weight(0.75)).to_tuple(), (63, 63, 63));
    let a = RGB::new(10, 200, 49);
    let b = RGB::new(250, 0, 49);
    let third = 1.0 / 3.0;
    assert_eq!(third + (1.0 - third), 1.0);
    // 10/3 + 2*250/3 = 3 + 166, 200/3 + 0 = 66, 49/3 + 98/3 = 16 + 32
    assert_eq!(a.blend(b, weight(third), weight(1.0 - third)).to_tuple(), (169, 66, 48));
}

#[test]
fn blend_with_the_whole_weight_on_one_side() {
    let a = RGB::new(12, 34, 56);
    let b = RGB::new(65, 43, 21);
    assert_eq!(a.blend(b, weight(0.0), weight(1.0)), b);
    assert_eq!(a.blend(b, weight(1.0), weight(0.0)), a);
}

#[test]
fn blend_with_itself_loses_at_most_one() {
    let colors = [RGB::new(0, 1, 2), RGB::new(49, 100, 200), RGB::new(255, 254, 128)];
    for c in colors {
        for den in 1..=64u32 {
            for num in 0..=den {
                let alpha = num as f64 / den as f64;
                let beta = 1.0 - alpha;
                assert_eq!(alpha + beta, 1.0);
                let out = c.blend(c, weight(alpha), weight(beta));
                let (r, g, b) = c.to_tuple();
                let (r2, g2, b2) = out.to_tuple();
                assert!(r2 <= r && r - r2 <= 1);
                assert!(g2 <= g && g - g2 <= 1);
                assert!(b2 <= b && b - b2 <= 1);
            }
        }
    }
    let c = RGB::new(100, 200, 49);
    let third = 1.0 / 3.0;
    assert_eq!(c.blend(c, weight(third), weight(1.0 - third)).to_tuple(), (99, 199, 48));
    assert_eq!(c.blend(c, weight(0.5), weight(0.5)).to_tuple(), (100, 200, 48));
    assert_eq!(c.blend(c, weight(0.0), weight(1.0)).to_tuple(), (100, 200, 49));
}

#[test]
fn blend_outside_the_unit_interval() {
    let a = RGB::new(100, 200, 0);
    let b = RGB::new(255, 255, 255);
    assert_eq!(a.blend(b, weight(1.5), weight(-0.5)).to_tuple(), (150, 255, 0));
    assert_eq!(a.blend(b, weight(-0.5), weight(1.5)).to_tuple(), (255, 255, 255));
}

#[test]
fn random_covers_the_whole_range() {
    let mut low = [255u8; 3];
    let mut high = [0u8; 3];
    for _ in 0..60000 {
        let (r, g, b) = RGB::random().to_tuple();
        let channels = [r, g, b];
        for k in 0..3 {
            low[k] = low[k].min(channels[k]);
            high[k] = high[k].max(channels[k]);
        }
    }
    assert_eq!(low, [0, 0, 0]);
    assert_eq!(high, [255, 255, 255]);
}

#[test]
fn sample_draws_from_the_given_generator() {
    let mut rng = rand::thread_rng();
    let mut seen = [false; 256];
    for _ in 0..60000 {
        let (r, _, _) = RGB::sample(&mut rng).to_tuple();
        seen[r as usize] = true;
    }
    assert!(seen.iter().all(|s| *s));
}
