use cleave::fraction::{
    is_full_width, is_near_share, share, width_ratio, FULL_WIDTH_THRESHOLD, INFINITE, NOT_A_NUMBER, SIGN,
    WIDTH_TOLERANCE,
};

/// Widths that exercise rounding, limits and special values.
fn widths_to_try() -> Vec<f64> {
    let mut list = vec![
        0.0, -0.0, 1.0, 0.1, 0.3, 599.5, 600.0, 853.3333333333334, 1279.0, 1280.0, 1366.4, 1919.9999999999998,
        1920.0, 1920.0000000000002, 2559.75, 2560.0, 3840.0, 5120.0, 1e9, 1e300, -1.0, -0.5, -640.0, -1920.0,
        f64::MAX, f64::MIN, f64::MIN_POSITIVE, 5e-324, f64::INFINITY, f64::NEG_INFINITY, f64::NAN, -f64::NAN,
    ];
    let mut seed: u64 = 0x9e37_79b9_7f4a_7c15;
    for _ in 0..2000 {
        seed ^= seed << 13;
        seed ^= seed >> 7;
        seed ^= seed << 17;
        list.push((seed % 5_000_000_007) as f64 / 1_000_003.0);
        list.push(f64::from_bits(seed));
    }
    for columns in 1..=40 {
        for monitor in [1280u32, 1366, 1920, 2560, 3440] {
            let edge = monitor as f64 * (1.0 / columns as f64 + 0.04);
            let low = monitor as f64 * (1.0 / columns as f64 - 0.04);
            for base in [edge, low, monitor as f64 * 0.8] {
                list.push(base);
                list.push(f64::from_bits(base.to_bits().wrapping_add(1)));
                list.push(f64::from_bits(base.to_bits().wrapping_sub(1)));
            }
        }
    }
    list
}

#[test]
fn a_fraction_is_the_double_precision_quotient() {
    for width in widths_to_try() {
        for monitor in [0u32, 1, 3, 1280, 1366, 1920, 2560, 3440, 3840, u32::MAX] {
            let quotient = width / monitor as f64;
            let fraction = width_ratio(width.to_bits(), monitor);
            if quotient.is_nan() {
                assert_eq!(fraction, NOT_A_NUMBER);
            } else {
                assert_eq!(fraction, quotient.to_bits());
            }
        }
    }
}

#[test]
fn the_least_widths_are_divided_as_in_double_precision() {
    for bits in (0u64..2000).chain([0xf_ffff_ffff_ffff, 0x10_0000_0000_0000, 0x1f_ffff_ffff_ffff]) {
        for monitor in [1u32, 2, 3, 5, 1920, u32::MAX] {
            let quotient = f64::from_bits(bits) / monitor as f64;
            assert_eq!(width_ratio(bits, monitor), quotient.to_bits());
        }
    }
}

#[test]
fn the_threshold_of_a_maximized_window_is_met_as_in_double_precision() {
    for width in widths_to_try() {
        for monitor in [0u32, 1, 1280, 1366, 1920, 2560, 3440] {
            let expected = width / monitor as f64 > 0.8;
            assert_eq!(is_full_width(width_ratio(width.to_bits(), monitor)), expected);
        }
    }
}

#[test]
fn shares_are_told_as_in_double_precision() {
    for width in widths_to_try() {
        for monitor in [0u32, 1280, 1366, 1920, 2560, 3440] {
            let fraction = width_ratio(width.to_bits(), monitor);
            for columns in (0usize..=40).chain([1_000_003, 9_007_199_254_740_993, usize::MAX]) {
                let expected = (width / monitor as f64 - 1.0 / columns as f64).abs() < 0.04;
                assert_eq!(is_near_share(fraction, columns), expected);
            }
        }
    }
}

#[test]
fn shares_are_told_at_the_very_edge() {
    for columns in 1usize..=60 {
        let share = 1.0 / columns as f64;
        for edge in [share + 0.04, share - 0.04, 0.04 - share] {
            for step in -4i64..=4 {
                let fraction = f64::from_bits(edge.to_bits().wrapping_add_signed(step));
                let expected = (fraction - share).abs() < 0.04;
                assert_eq!(is_near_share(fraction.to_bits(), columns), expected);
                let expected = (-fraction - share).abs() < 0.04;
                assert_eq!(is_near_share((-fraction).to_bits(), columns), expected);
            }
        }
    }
}

#[test]
fn shares_are_the_nearest_doubles() {
    let large = [
        1000, 4_294_967_297, 9_007_199_254_740_991, 9_007_199_254_740_993, 9_007_199_254_740_995,
        18_014_398_509_481_987, 0x7fff_ffff_ffff_fc01, usize::MAX - 1023, usize::MAX - 1024, usize::MAX,
    ];
    for columns in (1usize..=2000).chain(large) {
        assert_eq!(share(columns), (1.0 / columns as f64).to_bits());
    }
    assert_eq!(share(1), 0x3ff0_0000_0000_0000);
    assert_eq!(share(3), 0x3fd5_5555_5555_5555);
    assert_eq!(share(8), 0x3fc0_0000_0000_0000);
}

#[test]
fn the_thresholds_are_the_doubles_they_stand_for() {
    assert_eq!(FULL_WIDTH_THRESHOLD, 0.8f64.to_bits());
    assert_eq!(WIDTH_TOLERANCE, 0.04f64.to_bits());
    assert_eq!(INFINITE, f64::INFINITY.to_bits());
    assert!(f64::from_bits(NOT_A_NUMBER).is_nan());
}

#[test]
fn exact_fractions() {
    assert_eq!(width_ratio(1920f64.to_bits(), 1920), 1f64.to_bits());
    assert_eq!(width_ratio(960f64.to_bits(), 1920), 0.5f64.to_bits());
    assert_eq!(width_ratio((-960f64).to_bits(), 1920), (-0.5f64).to_bits());
    assert_eq!(width_ratio(640f64.to_bits(), 1920), share(3));
    assert_eq!(width_ratio(4800f64.to_bits(), 1920), 2.5f64.to_bits());
    assert_eq!(width_ratio(1f64.to_bits(), 0), INFINITE);
    assert_eq!(width_ratio((-1f64).to_bits(), 0), SIGN + INFINITE);
    assert_eq!(width_ratio(f64::INFINITY.to_bits(), 1920), INFINITE);
    assert_eq!(width_ratio(0, 1920), 0);
    assert_eq!(width_ratio((-0.0f64).to_bits(), 1920), SIGN);
    assert_eq!(width_ratio(0, 0), NOT_A_NUMBER);
    assert_eq!(width_ratio(f64::NAN.to_bits(), 1920), NOT_A_NUMBER);
    assert_eq!(width_ratio(f64::MAX.to_bits(), 1), f64::MAX.to_bits());
}

#[test]
fn the_full_width_begins_above_eight_tenths() {
    assert!(!is_full_width(FULL_WIDTH_THRESHOLD));
    assert!(is_full_width(FULL_WIDTH_THRESHOLD + 1));
    assert!(is_full_width(INFINITE));
    assert!(!is_full_width(NOT_A_NUMBER));
    assert!(!is_full_width(SIGN + INFINITE));
}

#[test]
fn nothing_counts_as_one_zeroth() {
    for fraction in [0, SIGN, 1f64.to_bits(), INFINITE, NOT_A_NUMBER] {
        assert!(!is_near_share(fraction, 0));
    }
}

#[test]
fn what_is_infinite_or_no_number_has_no_share() {
    for columns in [1usize, 2, 3, 100, usize::MAX] {
        for fraction in [INFINITE, SIGN + INFINITE, NOT_A_NUMBER, u64::MAX] {
            assert!(!is_near_share(fraction, columns));
        }
    }
}

#[test]
fn large_shares_are_told_apart() {
    for large in 1usize..=3 {
        for other in 1usize..=8 {
            assert_eq!(is_near_share(share(large), other), large == other);
        }
    }
    assert!(is_near_share(share(4), 4));
    assert!(!is_near_share(share(4), 3));
    assert!(is_near_share(share(6), 5));
}

#[test]
fn a_maximized_window_has_no_share() {
    for columns in 2usize..=8 {
        assert!(!is_near_share(FULL_WIDTH_THRESHOLD + 1, columns));
    }
}
