use captioner::double::Double;
use captioner::natural::Natural;
use captioner::number::parse_double;

fn of(x: f64) -> Double {
    Double::from_bits(x.to_bits())
}

fn back(d: Double) -> f64 {
    f64::from_bits(d.to_bits())
}

fn same(d: Double, x: f64) -> bool {
    if x.is_nan() {
        back(d).is_nan()
    } else {
        d.to_bits() == x.to_bits()
    }
}

fn samples() -> Vec<f64> {
    vec![
        0.0,
        -0.0,
        1.0,
        -1.0,
        1.3,
        2.0,
        0.1,
        0.05,
        1.0 / 3.0,
        3300.0,
        100.0 * 0.000193,
        -7.25,
        123456789.987654321,
        5e-324,
        -5e-324,
        2.2250738585072014e-308,
        2.225073858507201e-308,
        1.7976931348623157e308,
        -1.7976931348623157e308,
        9007199254740993.0,
        1.8446744073709552e19,
        1e22,
        1e-22,
        f64::INFINITY,
        f64::NEG_INFINITY,
        f64::NAN,
    ]
}

#[test]
fn sums_agree() {
    for a in samples() {
        for b in samples() {
            assert!(same(of(a).plus(of(b)), a + b), "{a} + {b}");
        }
    }
}

#[test]
fn differences_agree() {
    for a in samples() {
        for b in samples() {
            assert!(same(of(a).minus(of(b)), a - b), "{a} - {b}");
        }
    }
}

#[test]
fn products_agree() {
    for a in samples() {
        for b in samples() {
            assert!(same(of(a).times(of(b)), a * b), "{a} * {b}");
        }
    }
}

#[test]
fn quotients_agree() {
    for a in samples() {
        for b in samples() {
            assert!(same(of(a).over(of(b)), a / b), "{a} / {b}");
        }
    }
}

#[test]
fn comparisons_agree() {
    for a in samples() {
        for b in samples() {
            assert_eq!(of(a).less(of(b)), a < b, "{a} < {b}");
        }
    }
}

#[test]
fn signs_agree() {
    for a in samples() {
        assert_eq!(of(a).is_sign_negative(), a.is_sign_negative());
        assert_eq!(of(a).is_finite(), a.is_finite());
        assert_eq!(of(a).is_zero(), a == 0.0);
        assert_eq!(of(a).neg().to_bits(), (-a).to_bits());
        assert_eq!(of(a).abs().to_bits(), a.abs().to_bits());
    }
}

#[test]
fn whole_numbers_are_rounded() {
    for n in [0, 1, 2, 3300, 1 << 53, (1 << 53) + 1, (1 << 53) + 3, u64::MAX - 1024, u64::MAX] {
        assert_eq!(back(Double::from_u64(n)), n as f64);
    }
}

#[test]
fn fractions_are_the_nearest_doubles() {
    assert_eq!(back(Double::from_fraction(13, 10)), 1.3);
    assert_eq!(back(Double::from_fraction(193, 1_000_000)), 0.000193);
    assert_eq!(back(Double::from_fraction(5, 100)), 0.05);
}

#[test]
fn rounding_agrees_with_casts() {
    for x in [0.0, 0.4, 0.49999999999999994, 0.5, 1.5, 2.5, 3.7, 1e15 + 0.5, 4e15, 1e19, 1e20, 1e300] {
        assert_eq!(of(x).round_half_up(), x.round() as u64, "{x}");
        assert_eq!(of(x).round_up(), x.ceil() as u64, "{x}");
        assert_eq!(of(x).whole_part(), x as u64, "{x}");
        assert_eq!(of(x).has_fraction(), x.fract() != 0.0, "{x}");
        assert_eq!(of(x).exceeds_u64(), x >= 18446744073709551616.0, "{x}");
    }
    assert_eq!(of(f64::INFINITY).round_half_up(), u64::MAX);
}

#[test]
fn fractions_are_counted_in_parts() {
    assert_eq!(of(3.25).fraction_in(1000), 250);
    assert_eq!(of(0.0625).fraction_in(1000), 62);
    assert_eq!(of(0.9999).fraction_in(1000), 1000);
    assert_eq!(of(7.0).fraction_in(1_000_000_000), 0);
}

#[test]
fn numbers_are_parsed_as_by_the_standard_library() {
    let texts = [
        "0", "-0", "+1", "1.", ".5", "-.5e1", "3.14", "1e10", "1E-10", "1e+3", "0.1", "123456789",
        "1e308", "1.7976931348623157e308", "1.7976931348623159e308", "1e309", "-1e400", "5e-324",
        "2e-324", "2.4703282292062327e-324", "2.4703282292062328e-324", "1e-400", "0e999999999999",
        "9007199254740993", "9007199254740992.5", "9007199254740993.0000000000000000000000001",
        "0.000000000000000000000000000000000000000000000000000001e54",
        "1e99999999999999999999999999", "1e-99999999999999999999999999", "inf", "-INF", "Infinity",
        "+infinity", "nan", "NaN", "-nan", "", "+", "-", ".", "e5", "1e", "1e+", "1 ", " 1", "1.2.3",
        "0x10", "1_000", "infinit", "na", "+-1", "1e5.0", "٣", "1f", "--1",
    ];
    for text in texts {
        match (parse_double(text), text.parse::<f64>()) {
            (Some(d), Ok(x)) => assert!(same(d, x), "{text}"),
            (None, Err(_)) => {}
            (got, want) => panic!("{text}: {got:?} {want:?}"),
        }
    }
}

#[test]
fn signs_of_nans_are_parsed() {
    for text in ["nan", "+NaN", "-nan"] {
        let expected = text.parse::<f64>().unwrap().is_sign_negative();
        assert_eq!(parse_double(text).map(|d| d.is_sign_negative()), Some(expected));
    }
}

#[test]
fn long_numbers_are_parsed() {
    let mut digits = String::from("1");
    for _ in 0..400 {
        digits.push('0');
    }
    assert_eq!(parse_double(&digits).map(back), Some(f64::INFINITY));
    digits.push_str("e-400");
    assert_eq!(parse_double(&digits).map(back), Some(1.0));
}

#[test]
fn naturals_count() {
    let mut n = Natural::from_u128(u128::MAX);
    n.plus(&Natural::from_u128(1));
    let mut m = Natural::from_u128(1);
    m.shift_up(128);
    assert!(!n.less(&m) && !m.less(&n));
    n.minus(&m);
    assert!(n.is_zero());
    m.minus(&Natural::from_u128(1));
    let max = Natural::from_u128(u128::MAX);
    assert!(!m.less(&max) && !max.less(&m));
}
