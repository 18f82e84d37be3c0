use captioner::order::{precedes, Keyed};
use captioner::recording::Moment;
use captioner::span::Span;
use captioner::videos::{
    keep_found, match_videos, sort_by_duration, sort_listing, srt_file, srt_name, LocalVideo, PathPart,
    Recordings, Video, YouTubeContentDetails, YouTubeListItem, YouTubeRecordingDetails,
    YouTubeVideoSnippet,
};

const DAY: i64 = 86_400;

fn path(parts: &[&str]) -> Vec<PathPart> {
    let mut out = vec![PathPart::Root];
    for part in parts {
        out.push(PathPart::Named(part.as_bytes().to_vec()));
    }
    out
}

fn file(secs: u64, day: i64, name: &str) -> LocalVideo {
    LocalVideo {
        length: Span { secs, nanos: 0 },
        recorded: Moment { secs: day * DAY, nanos: 0 },
        path: path(&["videos", name]),
        delay: Span { secs: 0, nanos: 0 },
    }
}

fn name_of(video: &LocalVideo) -> String {
    match video.path.last() {
        Some(PathPart::Named(bytes)) => String::from_utf8(bytes.clone()).unwrap(),
        _ => String::new(),
    }
}

fn item(id: &str, duration: i64, day: i64) -> YouTubeListItem {
    YouTubeListItem {
        id: String::from(id),
        snippet: YouTubeVideoSnippet { title: format!("Title of {id}") },
        recording_details: YouTubeRecordingDetails {
            recording_date: Moment { secs: day * DAY, nanos: 0 },
        },
        content_details: YouTubeContentDetails { duration },
    }
}

fn recordings(files: Vec<LocalVideo>) -> Recordings {
    let mut all = Recordings::new();
    for f in files {
        all.insert(f);
    }
    all
}

fn names(all: &Recordings) -> Vec<String> {
    (0..all.len()).map(|i| name_of(all.get(i))).collect()
}

fn found(all: &Recordings, secs: u64, day: i64) -> Option<String> {
    all.find(Span { secs, nanos: 0 }, Moment { secs: day * DAY, nanos: 0 })
        .map(|i| name_of(all.get(i)))
}

#[test]
fn files_are_ordered_by_length_then_moment_then_path() {
    let all = recordings(vec![
        file(30, 1, "c"),
        file(10, 2, "b"),
        file(10, 1, "z"),
        file(10, 2, "a"),
        file(10, 2, "ab"),
    ]);
    assert_eq!(names(&all), ["z", "a", "ab", "b", "c"]);
}

#[test]
fn nanoseconds_and_delays_order_files() {
    let mut late = file(10, 1, "x");
    late.delay = Span { secs: 0, nanos: 5 };
    let mut long = file(10, 0, "y");
    long.length.nanos = 1;
    let mut all = recordings(vec![long, late]);
    assert!(all.insert(file(10, 1, "x")));
    assert_eq!(names(&all), ["x", "x", "y"]);
    assert_eq!(all.get(0).delay, Span { secs: 0, nanos: 0 });
}

#[test]
fn same_file_is_added_once() {
    let mut all = Recordings::new();
    assert!(all.insert(file(10, 1, "a")));
    assert!(!all.insert(file(10, 1, "a")));
    assert!(all.insert(file(10, 1, "b")));
    assert_eq!(all.len(), 2);
}

#[test]
fn paths_are_ordered_by_their_parts() {
    // the separator does not count as a character
    let make = |parts: Vec<PathPart>| LocalVideo { path: parts, ..file(10, 1, "") };
    let a = make(path(&["a", "z"]));
    let b = make(path(&["a-b", "a"]));
    assert!(precedes(&a.make_key(), &b.make_key()));
    assert!(!precedes(&b.make_key(), &a.make_key()));
    let short = make(path(&["a"]));
    assert!(precedes(&short.make_key(), &a.make_key()));
    let root = make(vec![PathPart::Root]);
    let current = make(vec![PathPart::Current]);
    let parent = make(vec![PathPart::Parent]);
    let named = make(vec![PathPart::Named(vec![])]);
    for (x, y) in [(&root, &current), (&current, &parent), (&parent, &named)] {
        assert!(precedes(&x.make_key(), &y.make_key()));
    }
}

#[test]
fn path_order_is_that_of_the_standard_library() {
    let texts = ["/", "/a", "/a/b", "/a-b", "/a/b/c", "b", "../b", "./b", "a/../b", "/\u{e9}", "/a b"];
    let parts = |text: &str| {
        std::path::Path::new(text)
            .components()
            .map(|c| match c {
                std::path::Component::Prefix(_) => unreachable!(),
                std::path::Component::RootDir => PathPart::Root,
                std::path::Component::CurDir => PathPart::Current,
                std::path::Component::ParentDir => PathPart::Parent,
                std::path::Component::Normal(n) => PathPart::Named(n.to_str().unwrap().as_bytes().to_vec()),
            })
            .collect::<Vec<_>>()
    };
    for x in texts {
        for y in texts {
            let a = LocalVideo { path: parts(x), ..file(10, 1, "") };
            let b = LocalVideo { path: parts(y), ..file(10, 1, "") };
            assert_eq!(
                precedes(&a.make_key(), &b.make_key()),
                std::path::Path::new(x) < std::path::Path::new(y),
                "{x} {y}"
            );
        }
    }
}

#[test]
fn lengths_match_within_seven_seconds() {
    let all = recordings(vec![file(100, 5, "a")]);
    assert_eq!(found(&all, 93, 5).as_deref(), Some("a"));
    assert_eq!(found(&all, 107, 5).as_deref(), Some("a"));
    assert_eq!(found(&all, 92, 5), None);
    assert_eq!(found(&all, 108, 5), None);
    let mut long = file(100, 5, "b");
    long.length.nanos = 1;
    let all = recordings(vec![long]);
    assert_eq!(found(&all, 93, 5), None);
    assert_eq!(found(&all, 94, 5).as_deref(), Some("b"));
}

#[test]
fn files_from_before_1970_do_not_match_at_the_edge() {
    let all = recordings(vec![file(100, -1, "old")]);
    assert_eq!(found(&all, 107, 5), None);
    assert_eq!(found(&all, 106, 5).as_deref(), Some("old"));
}

#[test]
fn short_videos_match_from_zero() {
    let all = recordings(vec![file(0, 5, "empty")]);
    assert_eq!(found(&all, 3, 5).as_deref(), Some("empty"));
}

#[test]
fn files_recorded_later_do_not_match() {
    let all = recordings(vec![file(100, 5, "a")]);
    assert_eq!(found(&all, 100, 4).as_deref(), Some("a"));
    assert_eq!(found(&all, 100, 3), None);
    assert_eq!(found(&all, 100, 50).as_deref(), Some("a"));
}

#[test]
fn days_count_not_hours() {
    let mut evening = file(100, 6, "late");
    evening.recorded.secs += DAY - 1;
    let all = recordings(vec![evening]);
    assert_eq!(found(&all, 100, 5).as_deref(), Some("late"));
}

#[test]
fn longest_candidate_matches() {
    let all = recordings(vec![file(99, 5, "a"), file(100, 5, "b"), file(104, 5, "c"), file(105, 9, "d")]);
    assert_eq!(found(&all, 100, 5).as_deref(), Some("c"));
    assert_eq!(found(&all, 100, 9).as_deref(), Some("d"));
}

#[test]
fn videos_are_listed_by_date_then_identifier() {
    let mut early = item("z", 1, 1);
    early.recording_details.recording_date.nanos = 5;
    let list = sort_listing(vec![item("b", 1, 2), early, item("ab", 2, 2), item("a", 3, 2), item("y", 1, 1)]);
    let ids: Vec<&str> = list.iter().map(|v| v.id.as_str()).collect();
    assert_eq!(ids, ["y", "z", "a", "ab", "b"]);
}

#[test]
fn shorter_videos_come_first_and_equal_ones_stay() {
    let video = |id: &str, duration| Video { youtube: item(id, duration, 1), local: 0 };
    let sorted = sort_by_duration(vec![video("c", 30), video("b", 10), video("a", 30), video("d", 20)]);
    let ids: Vec<&str> = sorted.iter().map(|v| v.youtube.id.as_str()).collect();
    assert_eq!(ids, ["b", "d", "c", "a"]);
}

#[test]
fn videos_without_files_are_left_out() {
    let all = recordings(vec![file(100, 5, "a"), file(200, 5, "b")]);
    let matches = match_videos(vec![item("x", 201, 5), item("y", 500, 5), item("z", 99, 5)], &all);
    let locals: Vec<(&str, Option<String>)> = matches
        .iter()
        .map(|m| (m.youtube.id.as_str(), m.local.map(|i| name_of(all.get(i)))))
        .collect();
    assert_eq!(
        locals,
        [("x", Some(String::from("b"))), ("y", None), ("z", Some(String::from("a")))]
    );
    let pairs: Vec<(String, String)> = keep_found(matches)
        .into_iter()
        .map(|v| (v.youtube.id, name_of(all.get(v.local))))
        .collect();
    assert_eq!(
        pairs,
        [(String::from("x"), String::from("b")), (String::from("z"), String::from("a"))]
    );
}

#[test]
fn caption_files_are_named_by_date_identifier_and_title() {
    let mut video = item("abc", 10, 0);
    video.recording_details.recording_date.secs = 1_672_628_645;
    video.snippet.title = String::from("a/b/c");
    assert_eq!(srt_file(&video).as_deref(), Some("2023-01-02-abc-a-b-c.srt"));
    assert_eq!(srt_name("2000-12-31", "id", "/"), "2000-12-31-id--.srt");
}

fn file_on(secs: i64) -> Option<String> {
    let mut video = item("i", 10, 0);
    video.recording_details.recording_date.secs = secs;
    video.snippet.title = String::from("t");
    srt_file(&video)
}

#[test]
fn dates_are_those_of_the_calendar() {
    for (secs, date) in [
        (0, "1970-01-01"),
        (-1, "1969-12-31"),
        (951_782_400, "2000-02-29"),
        (951_868_800, "2000-03-01"),
        (4_107_542_400, "2100-03-01"),
        (-62_167_219_200, "0000-01-01"),
        (-62_167_219_201, "-0001-12-31"),
        (253_402_300_799, "9999-12-31"),
        (253_402_300_800, "+10000-01-01"),
    ] {
        assert_eq!(file_on(secs), Some(format!("{date}-i-t.srt")));
    }
}

#[test]
fn dates_that_are_too_far_away_have_no_file() {
    let (first, last) = (-96_465_292 * DAY, 95_026_236 * DAY + DAY - 1);
    assert_eq!(file_on(first).as_deref(), Some("-262143-01-01-i-t.srt"));
    assert_eq!(file_on(last).as_deref(), Some("+262142-12-31-i-t.srt"));
    for secs in [first - 1, last + 1, i64::MIN, i64::MAX] {
        assert_eq!(file_on(secs), None);
    }
}

#[test]
fn every_video_is_matched_or_missing() {
    let all = recordings(vec![file(100, 5, "a"), file(200, 5, "b")]);
    let items: Vec<YouTubeListItem> = (0..50).map(|i| item("x", 5 * i, 5)).collect();
    let matches = match_videos(items, &all);
    assert_eq!(matches.len(), 50);
    assert_eq!(keep_found(matches).len(), 6);
}
