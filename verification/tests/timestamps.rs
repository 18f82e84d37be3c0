use captioner::double::Double;
use captioner::timestamp::seconds_to_timestamp;

fn stamp(seconds: f64) -> String {
    seconds_to_timestamp(Double::from_bits(seconds.to_bits()))
}

#[test]
fn all_ones() {
    assert!(stamp(3661.3).starts_with("01:01:01,3"));
}

#[test]
fn zero_fract() {
    assert_eq!(stamp(3661.0), "01:01:01");
}

#[test]
fn shows_three_decimals() {
    assert_eq!(stamp(3661.3), "01:01:01,300");
    assert_eq!(stamp(0.5), "00:00:00,500");
    assert_eq!(stamp(59.999), "00:00:59,999");
    assert_eq!(stamp(0.001), "00:00:00,001");
    assert_eq!(stamp(12.3456), "00:00:12,346");
}

#[test]
fn fraction_that_rounds_to_zero_is_shown() {
    assert_eq!(stamp(1.0001), "00:00:01,000");
    assert_eq!(stamp(5e-324), "00:00:00,000");
}

#[test]
fn halves_go_to_the_even_thousandth() {
    assert_eq!(stamp(0.0625), "00:00:00,062");
    assert_eq!(stamp(0.1875), "00:00:00,188");
}

#[test]
fn never_a_full_second() {
    assert_eq!(stamp(0.9996), "00:00:00,999");
    assert_eq!(stamp(7.99999), "00:00:07,999");
}

#[test]
fn zero_is_plain() {
    assert_eq!(stamp(0.0), "00:00:00");
    assert_eq!(stamp(-0.0), "00:00:00");
}

#[test]
fn hours_grow_beyond_two_digits() {
    assert_eq!(stamp(360000.0), "100:00:00");
    assert_eq!(stamp(360000.25), "100:00:00,250");
}

#[test]
fn huge_times_saturate() {
    assert_eq!(stamp(9223372036854775808.0), "2562047788015215:30:07");
    assert_eq!(stamp(1e300), "2562047788015215:30:07");
}

#[test]
fn later_is_not_shown_as_earlier() {
    let mut last = String::new();
    for i in 0..4000u32 {
        let shown = stamp(1.0 + f64::from(i) / 1000.5);
        // a whole second has no thousandths, which sorts before any that are shown
        assert!(last <= shown, "{last} {shown}");
        last = shown;
    }
}

#[test]
fn agrees_with_formatting_of_fractions() {
    for i in 1..2000u32 {
        let seconds = f64::from(i) * 0.0371 + 0.0123;
        let fraction = format!("{:.3}", seconds.fract());
        let expected = match fraction.strip_prefix("0.") {
            Some(digits) => String::from(digits),
            None => String::from("999"),
        };
        let shown = stamp(seconds);
        assert_eq!(shown.split_once(',').map(|(_, f)| f), Some(expected.as_str()));
    }
}

#[test]
fn less_than_a_thousandth_off() {
    for i in 0..2000u32 {
        let seconds = f64::from(i) * 17.123456 + 0.9997;
        let shown = stamp(seconds);
        let (clock, millis) = shown.split_once(',').unwrap_or((shown.as_str(), "0"));
        let parts: Vec<f64> = clock.split(':').map(|p| p.parse().unwrap()).collect();
        let read = parts[0] * 3600.0 + parts[1] * 60.0 + parts[2] + millis.parse::<f64>().unwrap() / 1000.0;
        assert!((read - seconds).abs() < 0.001, "{seconds} {shown}");
    }
}
