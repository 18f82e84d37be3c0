use captioner::double::Double;
use captioner::recording::{
    join, media_length, read_delay, recording_name, sound_track, split_name, to_moment, DelayError,
    Moment, Track,
};
use captioner::span::Span;
use captioner::text::trim;
use std::time::Duration;

fn std_span(s: Span) -> Duration {
    Duration::new(s.secs, s.nanos)
}

#[test]
fn names_are_split_at_the_first_point() {
    assert_eq!(split_name("a.b.c"), Some((String::from("a"), String::from("b.c"))));
    assert_eq!(split_name(".x"), Some((String::new(), String::from("x"))));
    assert_eq!(split_name("x."), Some((String::from("x"), String::new())));
    assert_eq!(split_name("plain"), None);
}

#[test]
fn names_say_when_a_file_was_recorded() {
    let (moment, extension) = recording_name("2023-01-02T03:04:05Z.mkv").unwrap();
    assert_eq!(moment, Moment { secs: 1_672_628_645, nanos: 0 });
    assert_eq!(extension, "mkv");
    let (moment, extension) = recording_name("2023-01-02T03:04:05+01:00.tar.mp4").unwrap();
    assert_eq!(moment, Moment { secs: 1_672_625_045, nanos: 0 });
    assert_eq!(extension, "tar.mp4");
    let (moment, _) = recording_name("1969-12-31 23:59:59Z.mkv").unwrap();
    assert_eq!(moment, Moment { secs: -1, nanos: 0 });
}

#[test]
fn other_names_are_passed_over() {
    assert!(recording_name("holiday.mkv").is_none());
    assert!(recording_name("2023-01-02.mkv").is_none());
    assert!(recording_name("2023-01-02T03:04:05.5Z").is_none());
    assert!(recording_name("2023-01-02T03:04:05Z").is_none());
}

#[test]
fn moments_are_taken_over() {
    assert_eq!(to_moment(Some((7, 1_500_000_000))), Some(Moment { secs: 7, nanos: 1_500_000_000 }));
    assert_eq!(to_moment(None), None);
}

#[test]
fn days_are_counted_from_1970() {
    assert_eq!(Moment { secs: 0, nanos: 0 }.day_number(), 0);
    assert_eq!(Moment { secs: 86_399, nanos: 0 }.day_number(), 0);
    assert_eq!(Moment { secs: 86_400, nanos: 0 }.day_number(), 1);
    assert_eq!(Moment { secs: -1, nanos: 0 }.day_number(), -1);
    assert_eq!(Moment { secs: -86_400, nanos: 0 }.day_number(), -1);
    assert_eq!(Moment { secs: -86_401, nanos: 0 }.day_number(), -2);
    assert_eq!(Moment { secs: i64::MIN, nanos: 0 }.day_number(), i64::MIN.div_euclid(86_400));
}

fn track(sound: bool, time_base: Option<(u32, u32)>, n_frames: Option<u64>) -> Track {
    Track { has_channel_layout: sound, time_base, n_frames }
}

#[test]
fn first_track_with_channels_is_the_sound() {
    let picture = track(false, Some((1, 25)), Some(100));
    let first = track(true, Some((1, 48_000)), Some(96_000));
    let second = track(true, Some((1, 1000)), Some(5));
    assert_eq!(sound_track(&vec![picture, first, second]), Some((1, 48_000, 96_000)));
    assert_eq!(sound_track(&vec![picture]), None);
    assert_eq!(sound_track(&vec![]), None);
}

#[test]
fn sound_without_length_is_passed_over() {
    let good = track(true, Some((1, 48_000)), Some(96_000));
    assert_eq!(sound_track(&vec![track(true, None, Some(1)), good]), None);
    assert_eq!(sound_track(&vec![track(true, Some((1, 2)), None), good]), None);
}

#[test]
fn ticks_make_a_length() {
    assert_eq!(media_length(1, 1000, 90_500), Some(Span { secs: 90, nanos: 500_000_000 }));
    assert_eq!(media_length(1, 48_000, 0), Some(Span { secs: 0, nanos: 0 }));
    for (numer, denom, ticks) in [(1001, 30_000, 100), (1, 3, 7), (1, 48_000, 172_799_999), (7, 11, u64::MAX / 8)] {
        let time = symphonia::core::units::TimeBase::new(numer, denom).calc_time(ticks);
        let expected = Duration::from_secs(time.seconds) + Duration::from_secs_f64(time.frac);
        assert_eq!(media_length(numer, denom, ticks).map(std_span), Some(expected));
    }
}

#[test]
fn seconds_and_fraction_are_joined() {
    let of = |x: f64| Double::from_bits(x.to_bits());
    assert_eq!(join(3, of(0.25)), Some(Span { secs: 3, nanos: 250_000_000 }));
    assert_eq!(join(3, of(0.9999999999)), Some(Span { secs: 4, nanos: 0 }));
    assert_eq!(join(u64::MAX, of(0.9999999999)), None);
    assert_eq!(join(3, of(-0.25)), None);
    assert_eq!(join(3, of(f64::NAN)), None);
}

#[test]
fn delays_are_read() {
    assert!(matches!(read_delay("0.021000\n"), Some(Ok(Span { secs: 0, nanos: 21_000_000 }))));
    assert!(matches!(read_delay("  1.5 \r\n"), Some(Ok(Span { secs: 1, nanos: 500_000_000 }))));
    assert!(matches!(read_delay("0"), Some(Ok(Span { secs: 0, nanos: 0 }))));
}

#[test]
fn small_negative_delays_count_as_none() {
    assert!(matches!(read_delay("-0.049"), Some(Ok(Span { secs: 0, nanos: 0 }))));
    assert!(matches!(read_delay("-0.0"), Some(Ok(Span { secs: 0, nanos: 0 }))));
}

#[test]
fn very_negative_delays_are_refused() {
    for (text, value) in [("-0.05", -0.05f64), ("-3", -3.0), ("-inf", f64::NEG_INFINITY)] {
        match read_delay(text) {
            Some(Err(DelayError::VeryNegative(d))) => assert_eq!(d.to_bits(), value.to_bits()),
            other => panic!("{other:?}"),
        }
    }
}

#[test]
fn delays_are_numbers() {
    for text in ["N/A\n", "0.1\n0.2\n"] {
        assert!(matches!(read_delay(text), Some(Err(DelayError::NotANumber))), "{text}");
    }
    for text in ["", " \n"] {
        assert!(matches!(read_delay(text), Some(Err(DelayError::Missing))), "{text}");
    }
}

#[test]
fn delays_are_spans() {
    assert!(read_delay("inf").is_none());
    assert!(read_delay("nan").is_none());
    assert!(read_delay("1e30").is_none());
}

#[test]
fn spans_agree_with_the_standard_library() {
    for x in [0.0, -0.0, 0.1, 1.0 / 3.0, 2.5e-9, 1.5e-9, 0.5e-9, 0.9999999999, 3600.123456789, 1.8446744073709550e19, 1.8446744073709552e19, -1e-10, -1.0, f64::NAN, f64::INFINITY] {
        let ours = Span::from_double(Double::from_bits(x.to_bits()));
        assert_eq!(ours.map(std_span), Duration::try_from_secs_f64(x).ok(), "{x}");
    }
    for (secs, nanos) in [(0, 0), (0, 1), (1, 999_999_999), (3600, 123_456_789), (u64::MAX, 999_999_999)] {
        let (span, expected) = (Span { secs, nanos }, Duration::new(secs, nanos));
        assert_eq!(span.as_double().to_bits(), expected.as_secs_f64().to_bits());
        assert_eq!(span.as_millis(), expected.as_millis());
        assert_eq!(span.is_zero(), expected.is_zero());
        for other in [Duration::new(0, 0), Duration::new(7, 0), Duration::new(1, 2)] {
            let s = Span { secs: other.as_secs(), nanos: other.subsec_nanos() };
            assert_eq!(span.checked_add(&s).map(std_span), expected.checked_add(other));
            assert_eq!(std_span(span.saturating_sub(&s)), expected.saturating_sub(other));
            assert_eq!(span.less(&s), expected < other);
        }
    }
}

#[test]
fn blanks_are_those_of_unicode() {
    for n in 0..0x11_0000u32 {
        if let Some(c) = char::from_u32(n) {
            if n < 0x3100 || n % 64 == 0 {
                assert_eq!(trim(&c.to_string()).is_empty(), c.is_whitespace(), "{n:x}");
            }
        }
    }
    assert_eq!(trim(" \u{3000}a b\t\n"), "a b");
}
