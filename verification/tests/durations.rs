use captioner::duration::{iso8601dur, read_duration, DurationError, LONGEST};

fn seconds(text: &str) -> Option<i64> {
    match read_duration(text) {
        Some(Ok(n)) => Some(n),
        _ => None,
    }
}

#[test]
fn units_of_a_time() {
    assert_eq!(seconds("PT1H"), Some(3600));
    assert_eq!(seconds("PT1M"), Some(60));
    assert_eq!(seconds("PT1S"), Some(1));
    assert_eq!(seconds("PT1H30M15S"), Some(5415));
}

#[test]
fn units_of_a_date() {
    assert_eq!(seconds("P1D"), Some(86_400));
    assert_eq!(seconds("P1W"), Some(604_800));
    assert_eq!(seconds("P1M"), Some(30 * 86_400));
    assert_eq!(seconds("P1Y"), Some(365 * 86_400));
    assert_eq!(
        seconds("P1Y2M3W4DT5H6M7S"),
        Some((365 + 60 + 21 + 4) * 86_400 + 5 * 3600 + 6 * 60 + 7)
    );
}

#[test]
fn month_becomes_minute_behind_the_t() {
    assert_eq!(seconds("P2MT2M"), Some(60 * 86_400 + 120));
}

#[test]
fn other_units_mean_the_same_on_both_sides() {
    assert_eq!(seconds("P1H"), Some(3600));
    assert_eq!(seconds("P1S"), Some(1));
    assert_eq!(seconds("PT1D"), Some(86_400));
    assert_eq!(seconds("PT1Y1W"), Some(365 * 86_400 + 604_800));
}

#[test]
fn nothing_is_zero() {
    assert_eq!(seconds("P"), Some(0));
    assert_eq!(seconds("PT"), Some(0));
    assert_eq!(seconds("PTT"), Some(0));
}

#[test]
fn number_before_the_t_is_passed_over() {
    assert_eq!(seconds("P12T1S"), Some(1));
}

#[test]
fn fractions_are_rounded() {
    assert_eq!(seconds("PT1.5S"), Some(2));
    assert_eq!(seconds("PT1.49S"), Some(1));
    assert_eq!(seconds("PT0.5H"), Some(3600));
    assert_eq!(seconds("P0.5M"), Some(15 * 86_400));
    assert_eq!(seconds("P0.5Y"), Some(183 * 86_400));
    assert_eq!(seconds("PT.4S"), Some(0));
    assert_eq!(seconds("PT1.S"), Some(1));
}

#[test]
fn prefix_is_needed() {
    assert!(matches!(iso8601dur("T1H"), Err(DurationError::MissingPrefix)));
    assert!(matches!(iso8601dur(""), Err(DurationError::MissingPrefix)));
    assert!(matches!(iso8601dur("p1D"), Err(DurationError::MissingPrefix)));
}

#[test]
fn unit_is_needed() {
    assert!(matches!(iso8601dur("PT5"), Err(DurationError::MissingUnit)));
    assert!(matches!(iso8601dur("P1D2.5"), Err(DurationError::MissingUnit)));
}

#[test]
fn number_is_needed() {
    match iso8601dur("PTH") {
        Err(DurationError::BadNumber(shown)) => assert_eq!(shown, ""),
        other => panic!("{other:?}"),
    }
    match iso8601dur("PT1,5H30M") {
        Err(DurationError::BadNumber(shown)) => assert_eq!(shown, "30M"),
        other => panic!("{other:?}"),
    }
    match iso8601dur("PT1,5Héa1S") {
        Err(DurationError::BadNumber(shown)) => assert_eq!(shown, "éa"),
        other => panic!("{other:?}"),
    }
}

#[test]
fn bad_number_that_cannot_be_shown() {
    assert!(read_duration("PT1,5H").is_none());
    assert!(read_duration("PT..H€").is_none());
}

#[test]
fn unknown_units() {
    assert!(matches!(iso8601dur("PT3X"), Err(DurationError::BadTimeUnit('X'))));
    assert!(matches!(iso8601dur("P3X"), Err(DurationError::BadDateUnit('X'))));
    assert!(matches!(iso8601dur("PT3é"), Err(DurationError::BadTimeUnit('é'))));
}

#[test]
fn longest_duration() {
    assert_eq!(seconds("PT9223372036854774S"), Some(LONGEST - 1));
    assert_eq!(seconds("PT9223372036854774S1S"), Some(LONGEST));
    assert!(read_duration("PT9223372036854774S2S").is_none());
    assert!(read_duration("PT9223372036854776S").is_none());
    assert_eq!(LONGEST, chrono::TimeDelta::MAX.num_seconds());
}

#[test]
fn too_many_of_each_unit() {
    for text in [
        "P15250284453W", "P106751991168D", "P2562047788016H", "PT153722867280913M", "P99999999999Y",
        "P99999999999M",
    ] {
        assert!(read_duration(text).is_none(), "{text}");
    }
    assert_eq!(seconds("P15250284452W"), Some(15_250_284_452 * 604_800));
    assert_eq!(seconds("P106751991167D"), Some(106_751_991_167 * 86_400));
    assert_eq!(seconds("P2562047788015H"), Some(2_562_047_788_015 * 3600));
    assert_eq!(seconds("PT153722867280912M"), Some(153_722_867_280_912 * 60));
}

#[test]
fn huge_number_saturates_out_of_range() {
    let mut text = String::from("PT");
    for _ in 0..400 {
        text.push('9');
    }
    text.push('S');
    assert!(read_duration(&text).is_none());
}

#[test]
fn parts_add_up() {
    let (front, more) = ("1W2DT3H", "4M5S");
    let whole = format!("P{front}{more}");
    let rest = format!("PT{more}");
    let alone = format!("P{front}");
    assert_eq!(
        seconds(&whole),
        Some(seconds(&alone).unwrap() + seconds(&rest).unwrap())
    );
}
