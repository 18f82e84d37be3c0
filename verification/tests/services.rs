use captioner::audio::{ffmpeg_arguments, judge, Argument, Verdict};
use captioner::budget::{exceeds_budget, price_in_cents, Admission, Budget};
use captioner::cache::{
    cache_file, cached_value, digest_file, failure_report, take_cached, with_cache, CacheAction,
    CacheEvent, CacheFailure,
};
use captioner::listing::{details_url, details_urls, join_ids, search_url, Search};
use captioner::segments::Segment;
use captioner::span::Span;
use serde_json::Value;
use std::time::Duration;

fn text(s: &str) -> String {
    String::from(s)
}

#[test]
fn cache_files_are_named_after_digests() {
    assert_eq!(
        cache_file("abc"),
        "ba7816bf8f01cfea414140de5dae2223b00361a396177a9cb410ff61f20015ad.json"
    );
    assert_eq!(
        cache_file(""),
        "e3b0c44298fc1c149afbf4c8996fb92427ae41e4649b934ca495991b7852b855.json"
    );
    assert_eq!(digest_file("00ff"), "00ff.json");
}

#[test]
fn cache_files_have_lower_case_digits() {
    let name = cache_file("https://example.org/?q=A/B");
    assert_eq!(name.len(), 69);
    assert!(name[..64].chars().all(|c| matches!(c, '0'..='9' | 'a'..='f')));
    assert_eq!(&name[64..], ".json");
}

/// `{"a":[1,"x"]}`
fn reply() -> Value {
    let mut map = serde_json::Map::new();
    map.insert(text("a"), Value::Array(vec![Value::from(1), Value::from("x")]));
    Value::Object(map)
}

fn next(action: CacheAction, event: CacheEvent) -> CacheAction {
    with_cache(action, event).unwrap()
}

#[test]
fn json_is_parsed() {
    assert_eq!(cached_value(&b" {\"a\": [1, \"x\"]}\n".to_vec()), Ok(reply()));
    assert_eq!(cached_value(&b"null".to_vec()), Ok(Value::Null));
}

#[test]
fn other_bytes_are_not_json() {
    for bytes in [&b""[..], b"{", b"[1,]", b"1 2", b"\xff"] {
        let expected = serde_json::from_slice::<Value>(bytes).unwrap_err().to_string();
        assert_eq!(cached_value(&bytes.to_vec()), Err(expected));
    }
}

#[test]
fn found_reply_is_read() {
    let action = next(CacheAction::Probe, CacheEvent::Probed(Some(true)));
    assert_eq!(action, CacheAction::Read);
    let action = next(action, CacheEvent::Loaded(b"{ \"a\" : [1,\"x\"] }".to_vec()));
    assert_eq!(action, CacheAction::Finish(reply()));
}

#[test]
fn missing_reply_is_asked_for_and_kept() {
    for found in [Some(false), None] {
        let action = next(CacheAction::Probe, CacheEvent::Probed(found));
        assert_eq!(action, CacheAction::Request);
        let action = next(action, CacheEvent::Fetched(reply()));
        match &action {
            CacheAction::Store(kept) => assert_eq!(kept.text(), b"{\"a\":[1,\"x\"]}"),
            other => panic!("{other:?}"),
        }
        let action = next(action, CacheEvent::Stored);
        assert_eq!(action, CacheAction::Finish(reply()));
    }
}

#[test]
fn kept_reply_is_handed_out_again() {
    let kept = next(CacheAction::Request, CacheEvent::Fetched(reply()));
    let CacheAction::Store(stored) = &kept else {
        panic!("the reply is kept");
    };
    let file = stored.text().clone();
    let first = next(kept, CacheEvent::Stored);
    let action = next(CacheAction::Probe, CacheEvent::Probed(Some(true)));
    let second = next(action, CacheEvent::Loaded(file));
    assert_eq!(first, second);
}

#[test]
fn file_that_cannot_be_read_is_a_failure() {
    let action = next(CacheAction::Read, CacheEvent::NotLoaded);
    assert_eq!(action, CacheAction::Fail(CacheFailure::NotRead));
    assert_eq!(failure_report(&CacheFailure::NotRead, "f.json"), "read json cache from 'f.json'");
}

#[test]
fn file_without_json_is_a_failure() {
    match next(CacheAction::Read, CacheEvent::Loaded(vec![])) {
        CacheAction::Fail(failure) => {
            assert!(matches!(&failure, CacheFailure::NotJson(m) if m.contains("EOF")));
            assert_eq!(failure_report(&failure, "f.json"), "parse json cache from 'f.json'");
        }
        other => panic!("{other:?}"),
    }
    assert_eq!(
        take_cached(Err(text("why"))),
        CacheAction::Fail(CacheFailure::NotJson(text("why")))
    );
    assert_eq!(take_cached(Ok(reply())), CacheAction::Finish(reply()));
}

#[test]
fn failed_request_keeps_nothing() {
    let action = next(CacheAction::Request, CacheEvent::NotFetched);
    assert_eq!(action, CacheAction::Fail(CacheFailure::NotFetched));
    assert_eq!(failure_report(&CacheFailure::NotFetched, "f.json"), "issue request on miss");
}

#[test]
fn reply_that_is_not_kept_is_not_handed_out() {
    let kept = next(CacheAction::Request, CacheEvent::Fetched(reply()));
    let action = next(kept, CacheEvent::NotStored);
    assert_eq!(action, CacheAction::Fail(CacheFailure::NotKept));
    assert_eq!(failure_report(&CacheFailure::NotKept, "f.json"), "write out json cache");
}

#[test]
fn events_out_of_place_lead_nowhere() {
    assert_eq!(with_cache(CacheAction::Probe, CacheEvent::Stored), None);
    assert_eq!(with_cache(CacheAction::Read, CacheEvent::Fetched(Value::Null)), None);
    assert_eq!(with_cache(CacheAction::Request, CacheEvent::NotLoaded), None);
    assert_eq!(with_cache(CacheAction::Finish(Value::Null), CacheEvent::Stored), None);
    assert_eq!(
        with_cache(CacheAction::Fail(CacheFailure::NotRead), CacheEvent::Probed(None)),
        None
    );
}

#[test]
fn search_urls() {
    let front = "https://youtube.googleapis.com/youtube/v3/search?part=snippet&channelId=CH&key=K&order=date&maxResults=100&type=video&fields=nextPageToken,items(id)&videoDuration=long&videoCaption=none";
    assert_eq!(search_url("CH", "K", &None), front);
    assert_eq!(search_url("CH", "K", &Some(text("T"))), format!("{front}&pageToken=T"));
}

#[test]
fn details_urls_name_the_videos() {
    assert_eq!(
        details_url("a,b", "K"),
        "https://www.googleapis.com/youtube/v3/videos?part=snippet,recordingDetails,contentDetails&fields=items(id,snippet(title),recordingDetails(recordingDate),contentDetails(duration))&id=a,b&maxResults=50&key=K"
    );
}

#[test]
fn identifiers_are_joined_by_commas() {
    let ids = vec![text("a"), text("b"), text("c")];
    assert_eq!(join_ids(&ids, 0, 3), "a,b,c");
    assert_eq!(join_ids(&ids, 1, 2), "b");
    assert_eq!(join_ids(&ids, 1, 1), "");
    assert_eq!(join_ids(&vec![text(""), text("b"), text("")], 0, 3), "b,");
}

#[test]
fn details_are_asked_for_fifty_at_a_time() {
    let ids: Vec<String> = (0..101).map(|i| format!("v{i}")).collect();
    let urls = details_urls(&ids, "K");
    assert_eq!(urls.len(), 3);
    assert_eq!(urls[0], details_url(&ids[..50].join(","), "K"));
    assert_eq!(urls[1], details_url(&ids[50..100].join(","), "K"));
    assert_eq!(urls[2], details_url("v100", "K"));
    assert_eq!(details_urls(&ids[..100].to_vec(), "K").len(), 2);
    assert!(details_urls(&vec![], "K").is_empty());
}

#[test]
fn search_goes_on_while_there_are_pages() {
    let mut search = Search::new();
    assert_eq!(search.token, None);
    assert!(search.take_page(vec![text("a"), text("b")], Some(text("next"))));
    assert_eq!(search.token.as_deref(), Some("next"));
    assert!(!search.take_page(vec![text("c")], None));
    assert_eq!(search.found, [text("a"), text("b"), text("c")]);
}

#[test]
fn prices_are_rounded_to_cents() {
    assert_eq!(price_in_cents(&Span { secs: 3600, nanos: 0 }), 69);
    assert_eq!(price_in_cents(&Span { secs: 0, nanos: 0 }), 0);
    for secs in [1u64, 25, 26, 51, 52, 777, 12_345, 259_067, 1 << 40, u64::MAX] {
        for nanos in [0, 1, 906_735_751, 999_999_999] {
            let expected = (100.0 * 0.000193 * Duration::new(secs, nanos).as_secs_f64()).round() as u64;
            assert_eq!(price_in_cents(&Span { secs, nanos }), expected);
        }
    }
}

#[test]
fn budget_is_thirty() {
    for cents in [0, 2999, 3000, 3001, 5000, u64::MAX] {
        assert_eq!(exceeds_budget(cents), cents as f64 / 100.0 > 30.0);
    }
}

#[test]
fn last_transcription_may_exceed_the_budget() {
    let mut budget = Budget::new();
    assert!(budget.spend(3000));
    assert!(budget.spend(500));
    assert_eq!(budget.spent_cents, 3500);
    assert!(!budget.spend(1));
    assert_eq!(budget.spent_cents, 3500);
}

#[test]
fn nothing_is_spent_on_captioned_videos() {
    let hour = Span { secs: 3600, nanos: 0 };
    let mut budget = Budget::new();
    assert_eq!(budget.consider(true, &hour), Admission::Captioned);
    assert_eq!(budget.spent_cents, 0);
    assert_eq!(budget.consider(false, &hour), Admission::Admitted);
    assert_eq!(budget.spent_cents, 69);
    budget.spent_cents = 3001;
    assert_eq!(budget.consider(false, &hour), Admission::TooExpensive);
    assert_eq!(budget.consider(true, &hour), Admission::Captioned);
    assert_eq!(budget.spent_cents, 3001);
}

fn command(segment: &Segment, delay: Span, place: &str) -> Vec<String> {
    ffmpeg_arguments(segment, &delay, place)
        .into_iter()
        .map(|a| match a {
            Argument::Text(s) => s,
            Argument::Recording => text("<recording>"),
        })
        .collect()
}

fn segment(seconds: Option<u64>, first: bool) -> Segment {
    let zero = Span { secs: 0, nanos: 0 };
    Segment { start: zero, end: zero, seconds, first }
}

#[test]
fn first_segment_is_delayed() {
    let delay = Span { secs: 1, nanos: 21_999_999 };
    assert_eq!(
        command(&segment(Some(2500), true), delay, "0").join(" "),
        "-ss 0 -i <recording> -vn -acodec libvorbis -f ogg -qscale:a 8 -nostdin -hide_banner -loglevel error -af adelay=1021 -t 2500 -"
    );
}

#[test]
fn other_segments_are_not_delayed() {
    let delay = Span { secs: 1, nanos: 0 };
    assert_eq!(
        command(&segment(Some(7), false), delay, "12.5").join(" "),
        "-ss 12.5 -i <recording> -vn -acodec libvorbis -f ogg -qscale:a 8 -nostdin -hide_banner -loglevel error -t 7 -"
    );
}

#[test]
fn only_segment_without_delay() {
    let delay = Span { secs: 0, nanos: 0 };
    assert_eq!(
        command(&segment(None, true), delay, "0").join(" "),
        "-ss 0 -i <recording> -vn -acodec libvorbis -f ogg -qscale:a 8 -nostdin -hide_banner -loglevel error -"
    );
}

#[test]
fn requests_are_judged() {
    assert_eq!(judge(Some(true), true), Verdict::Accepted);
    assert_eq!(judge(Some(true), false), Verdict::Failed);
    assert_eq!(judge(Some(false), true), Verdict::Failed);
    assert_eq!(judge(None, true), Verdict::NotIssued);
    assert_eq!(judge(None, false), Verdict::NotIssued);
}
