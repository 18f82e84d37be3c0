use captioner::captions::{best_gap, find_cut, Prediction};
use captioner::double::Double;
use captioner::segments::{count_segments, Taken, Transcription};
use captioner::span::Span;
use captioner::srt::srt_entry;
use std::time::Duration;

fn of(x: f64) -> Double {
    Double::from_bits(x.to_bits())
}

fn back(d: Double) -> f64 {
    f64::from_bits(d.to_bits())
}

fn caption(begin: f64, end: f64, text: &str) -> Prediction {
    Prediction { time_begin: of(begin), time_end: of(end), transcription: String::from(text) }
}

const ZERO: Span = Span { secs: 0, nanos: 0 };

fn secs(secs: u64) -> Span {
    Span { secs, nanos: 0 }
}

#[test]
fn longest_gap_wins() {
    let captions = vec![caption(0.0, 1.0, "a"), caption(4.0, 5.0, "b"), caption(6.0, 7.0, "c")];
    let (i, gap) = best_gap(&captions);
    assert_eq!((i, back(gap)), (0, 3.0));
}

#[test]
fn sentence_ends_count_twice() {
    let captions = vec![caption(0.0, 1.0, "a"), caption(4.0, 5.0, "b."), caption(7.0, 8.0, "c")];
    assert_eq!(best_gap(&captions).0, 1);
    for end in ["?", "!", ":"] {
        let captions =
            vec![caption(0.0, 1.0, "a"), caption(4.0, 5.0, end), caption(7.0, 8.0, "c")];
        assert_eq!(best_gap(&captions).0, 1);
    }
}

#[test]
fn pauses_count_a_little() {
    for end in ["b,", "b...", "..."] {
        let near = vec![caption(0.0, 1.0, "a"), caption(4.0, 5.0, end), caption(7.5, 8.0, "c")];
        assert_eq!(best_gap(&near).0, 1, "{end}");
        let far = vec![caption(0.0, 1.0, "a"), caption(4.0, 5.0, end), caption(7.0, 8.0, "c")];
        assert_eq!(best_gap(&far).0, 0, "{end}");
    }
}

#[test]
fn of_equal_gaps_the_better_ending_wins() {
    let endings = ["x.", "x,", "x"];
    for (i, better) in endings.iter().enumerate() {
        for other in &endings[i + 1..] {
            for (first, second, best) in [(better, other, 0), (other, better, 1)] {
                let captions = vec![
                    caption(0.0, 1.0, first),
                    caption(2.0, 3.0, second),
                    caption(4.0, 5.0, "end"),
                ];
                assert_eq!(best_gap(&captions).0, best, "{first} {second}");
            }
        }
    }
}

#[test]
fn later_of_equal_gaps_wins() {
    let captions = vec![
        caption(0.0, 1.0, "a"),
        caption(2.0, 3.0, "b"),
        caption(4.0, 5.0, "c"),
        caption(5.0, 6.0, "d"),
    ];
    assert_eq!(best_gap(&captions).0, 1);
}

#[test]
fn without_a_gap_the_end_wins() {
    let captions = vec![caption(0.0, 2.0, "a"), caption(1.0, 3.0, "b")];
    let (i, gap) = best_gap(&captions);
    assert_eq!((i, back(gap)), (1, 0.0));
}

#[test]
fn only_the_last_twenty_captions_count() {
    let mut captions = vec![caption(0.0, 1.0, "far"), caption(100.0, 101.0, "near")];
    for i in 0..19 {
        let at = 103.0 + f64::from(i);
        captions.push(caption(at, at + 1.0, "x"));
    }
    assert_eq!(captions.len(), 21);
    assert_eq!(best_gap(&captions).0, 1);
    captions.pop();
    assert_eq!(best_gap(&captions).0, 0);
}

#[test]
fn cut_is_in_the_middle_of_the_gap() {
    let captions = vec![caption(0.0, 1.0, "a"), caption(4.0, 5.0, "b")];
    let cut = find_cut(&captions, &secs(100)).unwrap();
    assert_eq!(cut.keep, 1);
    assert_eq!(back(cut.gap), 3.0);
    assert_eq!(cut.at, Span { secs: 102, nanos: 500_000_000 });
}

#[test]
fn cut_agrees_with_the_standard_library() {
    let captions = vec![caption(0.3, 10.1, "a."), caption(11.7, 12.9, "b")];
    let start = Duration::new(2471, 123_456_789);
    let cut = find_cut(&captions, &Span { secs: 2471, nanos: 123_456_789 }).unwrap();
    let expected = start + Duration::from_secs_f64(10.1 + (11.7 - 10.1) / 2.0);
    assert_eq!(Duration::new(cut.at.secs, cut.at.nanos), expected);
}

#[test]
fn cut_before_the_recording_is_refused() {
    let captions = vec![caption(-9.0, -8.0, "a")];
    assert!(find_cut(&captions, &ZERO).is_none());
}

#[test]
fn cut_too_far_away_is_refused() {
    let captions = vec![caption(0.0, 1e19, "a")];
    assert!(find_cut(&captions, &secs(1)).is_some());
    assert!(find_cut(&captions, &secs(1 << 63)).is_none());
}

#[test]
fn segments_are_counted() {
    for (length, count) in [(0, 0), (1, 1), (3300, 1), (3301, 2), (6600, 2), (6601, 3), (10_000, 4)] {
        assert_eq!(count_segments(&secs(length)), count, "{length}");
    }
    assert_eq!(count_segments(&Span { secs: 3300, nanos: 1 }), 2);
    assert_eq!(count_segments(&Span { secs: 0, nanos: 1 }), 1);
    for length in [u64::MAX, 1 << 53, 123_456_789_012] {
        let d = Duration::new(length, 999_999_999);
        let expected = (d.as_secs_f64() / 3300.0).ceil() as u64;
        assert_eq!(count_segments(&Span { secs: length, nanos: 999_999_999 }), expected);
    }
}

#[test]
fn no_segment_is_too_long() {
    for length in (1..50_000u64).step_by(37) {
        let t = Transcription::new(secs(length), ZERO).unwrap();
        assert!(t.seconds <= 3300, "{length}");
    }
}

#[test]
fn empty_recordings_cannot_be_transcribed() {
    assert!(Transcription::new(ZERO, ZERO).is_none());
}

#[test]
fn sound_has_to_start_in_the_first_segment() {
    assert!(Transcription::new(secs(10_000), secs(2500)).is_some());
    assert!(Transcription::new(secs(10_000), secs(2501)).is_none());
    assert!(Transcription::new(secs(100), secs(5000)).is_some());
}

#[test]
fn single_segment_takes_everything() {
    let mut t = Transcription::new(secs(100), secs(3)).unwrap();
    let segment = t.segment().unwrap();
    assert_eq!(segment.start, ZERO);
    assert_eq!(segment.end, secs(100));
    assert_eq!(segment.seconds, None);
    assert!(segment.first);
    assert_eq!(t.take_reply(vec![caption(1.0, 2.0, "a"), caption(3.0, 4.0, "b")]), Taken::All);
    assert_eq!(t.done, t.count);
    assert_eq!(t.captions.len(), 2);
}

#[test]
fn segments_are_cut_and_moved() {
    let mut t = Transcription::new(secs(6000), Span { secs: 2, nanos: 500_000_000 }).unwrap();
    assert_eq!((t.count, t.seconds), (2, 3000));
    let segment = t.segment().unwrap();
    assert_eq!((segment.seconds, segment.first), (Some(2998), true));
    assert_eq!((segment.start, segment.end), (ZERO, secs(2998)));

    let reply = vec![caption(1.0, 2.0, "a."), caption(2990.0, 2995.0, "b."), caption(2997.0, 2998.0, "c")];
    let taken = t.take_reply(reply);
    match taken {
        Taken::UpTo(cut) => {
            assert_eq!(cut.keep, 1);
            assert_eq!(cut.at, secs(1496));
        }
        other => panic!("{other:?}"),
    }
    assert_eq!(t.captions.len(), 1);
    assert_eq!(t.start, secs(1496));

    let segment = t.segment().unwrap();
    assert_eq!((segment.seconds, segment.first), (None, false));
    assert_eq!((segment.start, segment.end), (secs(1496), secs(6000)));
    assert_eq!(t.take_reply(vec![caption(0.5, 1.25, "d")]), Taken::All);
    let times: Vec<(f64, f64)> =
        t.captions.iter().map(|c| (back(c.time_begin), back(c.time_end))).collect();
    assert_eq!(times, [(1.0, 2.0), (1496.5, 1497.25)]);
    assert_eq!(t.captions[1].transcription, "d");
}

#[test]
fn middle_segments_have_the_full_length() {
    let mut t = Transcription::new(secs(9900), secs(10)).unwrap();
    assert_eq!((t.count, t.seconds), (3, 3300));
    assert_eq!(t.segment().unwrap().seconds, Some(3290));
    assert!(matches!(t.take_reply(vec![caption(0.0, 3280.0, "a")]), Taken::UpTo(_)));
    let segment = t.segment().unwrap();
    assert_eq!(segment.seconds, Some(3300));
    assert_eq!(segment.end, secs(6580));
}

#[test]
fn unusable_replies_change_nothing() {
    let mut t = Transcription::new(secs(6000), ZERO).unwrap();
    assert_eq!(t.take_reply(vec![]), Taken::Nothing);
    assert_eq!(t.take_reply(vec![caption(-5.0, -4.0, "a")]), Taken::Nothing);
    assert_eq!((t.done, t.start, t.captions.len()), (0, ZERO, 0));
}

#[test]
fn last_segment_may_have_no_captions() {
    let mut t = Transcription::new(secs(60), ZERO).unwrap();
    assert_eq!(t.take_reply(vec![]), Taken::All);
    assert!(t.captions.is_empty());
}

#[test]
fn entries_are_numbered_from_one() {
    let c = caption(3661.3, 3662.0, "Hello\nthere");
    assert_eq!(
        srt_entry(0, &c).as_deref(),
        Some("1\n01:01:01,300 --> 01:01:02\nHello\nthere\n")
    );
    assert_eq!(
        srt_entry(9, &c).as_deref(),
        Some("\n10\n01:01:01,300 --> 01:01:02\nHello\nthere\n")
    );
}

#[test]
fn entries_need_times_that_can_be_shown() {
    for bad in [-1.0, -5e-324, f64::INFINITY, f64::NEG_INFINITY, f64::NAN] {
        assert_eq!(srt_entry(0, &caption(bad, 1.0, "")), None);
        assert_eq!(srt_entry(0, &caption(1.0, bad, "")), None);
    }
}

#[test]
fn negative_zero_is_shown_as_zero() {
    assert_eq!(
        srt_entry(0, &caption(-0.0, 1.5, "a")).as_deref(),
        Some("1\n00:00:00 --> 00:00:01,500\na\n")
    );
    assert_eq!(
        srt_entry(0, &caption(0.0, -0.0, "a")).as_deref(),
        Some("1\n00:00:00 --> 00:00:00\na\n")
    );
}
