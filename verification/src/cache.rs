//! Replies of a service, kept in files that are named after what was asked.

use vstd::prelude::*;

verus! {

/// The SHA-256 digest of a text in hexadecimal.
pub uninterp spec fn sha256_hex(s: Seq<char>) -> Seq<char>;

pub open spec fn is_hex(c: char) -> bool {
    ('0' <= c && c <= '9') || ('a' <= c && c <= 'f')
}

/// `digest` of sha256, on a text: a text of 64 hexadecimal digits in lower case that depends on the
/// text alone. How the digits come about is not spelled out.
#[verifier::external_body]
fn digest(s: &str) -> (r: String)
    ensures
        r@ == sha256_hex(s@),
        r@.len() == 64,
        forall|i: int| 0 <= i < 64 ==> is_hex(#[trigger] r@[i]),
{
    sha256::digest(s)
}

/// The file for a digest.
pub open spec fn file_of_digest(digest: Seq<char>) -> Seq<char> {
    digest + ".json"@
}

/// The file that the reply to a digested question is kept in.
pub fn digest_file(digest: &str) -> (r: String)
    ensures
        r@ == file_of_digest(digest@),
        r@ == digest@ + ".json"@,
{
    let mut out = String::new();
    out.append(digest);
    assert(out@ == digest@);
    out.append(".json");
    out
}

/// The file that the reply to a URL is kept in, always one in the current directory.
pub fn cache_file(url: &str) -> (r: String)
    ensures
        r@ == file_of_digest(sha256_hex(url@)),
        r@ == sha256_hex(url@) + ".json"@,
        r@.len() == 69,
        forall|i: int| 0 <= i < 64 ==> is_hex(#[trigger] r@[i]),
        forall|i: int| 0 <= i < r@.len() ==> #[trigger] r@[i] != '/',
{
    let d = digest(url);
    proof {
        reveal_strlit(".json");
        let f = file_of_digest(d@);
        assert forall|i: int| 0 <= i < f.len() implies #[trigger] f[i] != '/' by {
            if i < 64 {
                assert(is_hex(d@[i]));
            } else {
                assert(f[i] == ".json"@[i - 64]);
            }
        }
        assert forall|i: int| 0 <= i < 64 implies is_hex(#[trigger] f[i]) by {
            assert(f[i] == d@[i]);
        }
    }
    digest_file(d.as_str())
}

/// A JSON value of serde_json.
#[verifier::external_type_specification]
#[verifier::external_body]
pub struct ExValue(serde_json::Value);

/// What a JSON value holds: the text that serde_json writes for it.
pub uninterp spec fn json_text(value: serde_json::Value) -> Seq<u8>;

/// What bytes stand for as JSON: what the value holds, or why they are no JSON.
pub uninterp spec fn json_of(bytes: Seq<u8>) -> Result<Seq<u8>, Seq<char>>;

/// `from_slice` of serde_json, into a `Value`: the value that bytes stand for, or the message of the
/// error. What comes out depends on the bytes alone; which bytes are JSON is not spelled out.
#[verifier::external_body]
fn parse_json(bytes: &Vec<u8>) -> (r: Result<serde_json::Value, String>)
    ensures
        match (r, json_of(bytes@)) {
            (Ok(value), Ok(text)) => json_text(value) == text,
            (Err(message), Err(why)) => message@ == why,
            _ => false,
        },
{
    match serde_json::from_slice(bytes) {
        Ok(value) => Ok(value),
        Err(e) => Err(e.to_string()),
    }
}

/// `to_vec` of serde_json, on a `Value`: the text of a value. It fails only where a `Serialize`
/// does or where a map has other keys than text, and neither is so of a `Value`.
#[verifier::external_body]
fn write_json(value: &serde_json::Value) -> (r: Option<Vec<u8>>)
    ensures
        r is Some,
        r->0@ == json_text(*value),
{
    match serde_json::to_vec(value) {
        Ok(text) => Some(text),
        Err(_) => None,
    }
}

/// The value that the bytes of a file stand for, or why they are no JSON.
pub fn cached_value(bytes: &Vec<u8>) -> (r: Result<serde_json::Value, String>)
    ensures
        match (r, json_of(bytes@)) {
            (Ok(value), Ok(text)) => json_text(value) == text,
            (Err(message), Err(why)) => message@ == why,
            _ => false,
        },
{
    parse_json(bytes)
}

/// A reply of the service, with the text that is kept of it.
#[derive(Debug, PartialEq, Eq)]
pub struct Reply {
    value: serde_json::Value,
    text: Vec<u8>,
}

impl View for Reply {
    type V = Seq<u8>;

    open spec fn view(&self) -> Seq<u8> {
        json_text(self.value())
    }
}

impl Reply {
    /// The value that the service gave.
    pub closed spec fn value(self) -> serde_json::Value {
        self.value
    }

    /// The text is that of the value.
    #[verifier::type_invariant]
    spec fn wf(self) -> bool {
        self.text@ == json_text(self.value)
    }

    pub fn new(value: serde_json::Value) -> (r: Self)
        ensures
            r.value() == value,
    {
        let text = write_json(&value).unwrap();
        Reply { value, text }
    }

    /// What is kept in the file.
    pub fn text(&self) -> (r: &Vec<u8>)
        ensures
            r@ == self@,
    {
        proof {
            use_type_invariant(self);
        }
        &self.text
    }

    pub fn into_value(self) -> (r: serde_json::Value)
        ensures
            r == self.value(),
    {
        self.value
    }
}

/// Why there is no reply.
#[derive(Debug, PartialEq, Eq)]
pub enum CacheFailure {
    /// The file is there but cannot be read.
    NotRead,
    /// The file holds no JSON; the message says why.
    NotJson(String),
    /// The service did not reply.
    NotFetched,
    /// The reply of the service could not be kept.
    NotKept,
}

/// [`CacheFailure`] over mathematical text.
pub enum CacheFailureView {
    NotRead,
    NotJson(Seq<char>),
    NotFetched,
    NotKept,
}

impl View for CacheFailure {
    type V = CacheFailureView;

    open spec fn view(&self) -> CacheFailureView {
        match self {
            CacheFailure::NotRead => CacheFailureView::NotRead,
            CacheFailure::NotJson(message) => CacheFailureView::NotJson(message@),
            CacheFailure::NotFetched => CacheFailureView::NotFetched,
            CacheFailure::NotKept => CacheFailureView::NotKept,
        }
    }
}

/// What a failure is reported as.
pub open spec fn report(failure: CacheFailureView, file: Seq<char>) -> Seq<char> {
    match failure {
        CacheFailureView::NotRead => "read json cache from '"@ + file + "'"@,
        CacheFailureView::NotJson(_) => "parse json cache from '"@ + file + "'"@,
        CacheFailureView::NotFetched => "issue request on miss"@,
        CacheFailureView::NotKept => "write out json cache"@,
    }
}

/// Says what failed, of a reply that is kept in that file.
pub fn failure_report(failure: &CacheFailure, file: &str) -> (r: String)
    ensures
        r@ == report(failure@, file@),
        r@ == match *failure {
            CacheFailure::NotRead => "read json cache from '"@ + file@ + "'"@,
            CacheFailure::NotJson(_) => "parse json cache from '"@ + file@ + "'"@,
            CacheFailure::NotFetched => "issue request on miss"@,
            CacheFailure::NotKept => "write out json cache"@,
        },
{
    let mut out = String::new();
    let (front, named): (&str, bool) = match failure {
        CacheFailure::NotRead => ("read json cache from '", true),
        CacheFailure::NotJson(_) => ("parse json cache from '", true),
        CacheFailure::NotFetched => ("issue request on miss", false),
        CacheFailure::NotKept => ("write out json cache", false),
    };
    out.append(front);
    assert(out@ == front@);
    if named {
        out.append(file);
        out.append("'");
    }
    out
}

/// What is to be done next for a reply.
#[derive(Debug, PartialEq, Eq)]
pub enum CacheAction {
    /// Ask whether the file is there.
    Probe,
    /// Take the reply from the file.
    Read,
    /// Ask the service.
    Request,
    /// Keep the text of the reply of the service in the file.
    Store(Reply),
    /// Hand the reply out.
    Finish(serde_json::Value),
    /// Report that there is none.
    Fail(CacheFailure),
}

/// [`CacheAction`] over what values hold.
pub enum CacheActionView {
    Probe,
    Read,
    Request,
    Store(Seq<u8>),
    Finish(Seq<u8>),
    Fail(CacheFailureView),
}

impl View for CacheAction {
    type V = CacheActionView;

    open spec fn view(&self) -> CacheActionView {
        match self {
            CacheAction::Probe => CacheActionView::Probe,
            CacheAction::Read => CacheActionView::Read,
            CacheAction::Request => CacheActionView::Request,
            CacheAction::Store(reply) => CacheActionView::Store(reply@),
            CacheAction::Finish(value) => CacheActionView::Finish(json_text(*value)),
            CacheAction::Fail(failure) => CacheActionView::Fail(failure@),
        }
    }
}

/// What came of an action.
#[derive(Debug, PartialEq, Eq)]
pub enum CacheEvent {
    /// The file is there or is not; `None` where that could not be found out.
    Probed(Option<bool>),
    /// This was read from the file.
    Loaded(Vec<u8>),
    /// The file could not be read.
    NotLoaded,
    /// This is what the service replied.
    Fetched(serde_json::Value),
    /// The service did not reply.
    NotFetched,
    /// The reply is kept.
    Stored,
    /// The reply could not be kept.
    NotStored,
}

/// [`CacheEvent`] over what values hold.
pub enum CacheEventView {
    Probed(Option<bool>),
    Loaded(Seq<u8>),
    NotLoaded,
    Fetched(Seq<u8>),
    NotFetched,
    Stored,
    NotStored,
}

impl View for CacheEvent {
    type V = CacheEventView;

    open spec fn view(&self) -> CacheEventView {
        match self {
            CacheEvent::Probed(found) => CacheEventView::Probed(*found),
            CacheEvent::Loaded(bytes) => CacheEventView::Loaded(bytes@),
            CacheEvent::NotLoaded => CacheEventView::NotLoaded,
            CacheEvent::Fetched(value) => CacheEventView::Fetched(json_text(*value)),
            CacheEvent::NotFetched => CacheEventView::NotFetched,
            CacheEvent::Stored => CacheEventView::Stored,
            CacheEvent::NotStored => CacheEventView::NotStored,
        }
    }
}

/// What follows the reading of a file, by what its bytes stand for.
pub open spec fn after_reading(parsed: Result<Seq<u8>, Seq<char>>) -> CacheActionView {
    match parsed {
        Ok(text) => CacheActionView::Finish(text),
        Err(why) => CacheActionView::Fail(CacheFailureView::NotJson(why)),
    }
}

/// What follows an action and what came of it; `None` where that cannot have come of it. Nothing
/// follows the last action, be it a reply or a failure.
pub open spec fn followed_by(action: CacheActionView, event: CacheEventView) -> Option<
    CacheActionView,
> {
    match (action, event) {
        (CacheActionView::Probe, CacheEventView::Probed(found)) => Some(
            if found == Some(true) {
                CacheActionView::Read
            } else {
                CacheActionView::Request
            },
        ),
        (CacheActionView::Read, CacheEventView::Loaded(bytes)) => Some(
            after_reading(json_of(bytes)),
        ),
        (CacheActionView::Read, CacheEventView::NotLoaded) => Some(
            CacheActionView::Fail(CacheFailureView::NotRead),
        ),
        (CacheActionView::Request, CacheEventView::Fetched(text)) => Some(
            CacheActionView::Store(text),
        ),
        (CacheActionView::Request, CacheEventView::NotFetched) => Some(
            CacheActionView::Fail(CacheFailureView::NotFetched),
        ),
        (CacheActionView::Store(text), CacheEventView::Stored) => Some(
            CacheActionView::Finish(text),
        ),
        (CacheActionView::Store(_), CacheEventView::NotStored) => Some(
            CacheActionView::Fail(CacheFailureView::NotKept),
        ),
        _ => None,
    }
}

/// Decides what follows the reading of a file, by the value that it holds or why it holds none.
pub fn take_cached(parsed: Result<serde_json::Value, String>) -> (r: CacheAction)
    ensures
        r@ == after_reading(
            match parsed {
                Ok(value) => Ok(json_text(value)),
                Err(message) => Err(message@),
            },
        ),
        parsed matches Ok(value) ==> r == CacheAction::Finish(value),
        parsed matches Err(message) ==> r == CacheAction::Fail(CacheFailure::NotJson(message)),
{
    match parsed {
        Ok(value) => CacheAction::Finish(value),
        Err(message) => CacheAction::Fail(CacheFailure::NotJson(message)),
    }
}

/// Decides what follows an action. A file that cannot be probed counts as missing; one that is there
/// but cannot be read, or holds no JSON, is a failure, and the service is not asked instead.
pub fn with_cache(action: CacheAction, event: CacheEvent) -> (r: Option<CacheAction>)
    ensures
        match (r, followed_by(action@, event@)) {
            (Some(got), Some(want)) => got@ == want,
            (None, None) => true,
            _ => false,
        },
        (action, event) matches (CacheAction::Probe, CacheEvent::Probed(found)) ==> r == Some(
            if found == Some(true) {
                CacheAction::Read
            } else {
                CacheAction::Request
            },
        ),
        (action, event) matches (CacheAction::Read, CacheEvent::Loaded(bytes)) ==> match json_of(
            bytes@,
        ) {
            Ok(text) => r matches Some(CacheAction::Finish(value)) && json_text(value) == text,
            Err(why) => r matches Some(CacheAction::Fail(CacheFailure::NotJson(message)))
                && message@ == why,
        },
        (action, event) matches (CacheAction::Read, CacheEvent::NotLoaded) ==> r == Some(
            CacheAction::Fail(CacheFailure::NotRead),
        ),
        (action, event) matches (CacheAction::Request, CacheEvent::NotFetched) ==> r == Some(
            CacheAction::Fail(CacheFailure::NotFetched),
        ),
        (action, event) matches (CacheAction::Store(_), CacheEvent::NotStored) ==> r == Some(
            CacheAction::Fail(CacheFailure::NotKept),
        ),
        action is Finish || action is Fail ==> r is None,
        action is Probe ==> (r is None <==> !(event is Probed)),
        action is Read ==> (r is None <==> !(event is Loaded || event is NotLoaded)),
        action is Request ==> (r is None <==> !(event is Fetched || event is NotFetched)),
        action is Store ==> (r is None <==> !(event is Stored || event is NotStored)),
        (action, event) matches (CacheAction::Request, CacheEvent::Fetched(value)) ==> {
            &&& r matches Some(CacheAction::Store(reply))
            &&& reply.value() == value
        },
        (action, event) matches (CacheAction::Store(reply), CacheEvent::Stored) ==> r == Some(
            CacheAction::Finish(reply.value()),
        ),
{
    match (action, event) {
        (CacheAction::Probe, CacheEvent::Probed(Some(true))) => Some(CacheAction::Read),
        (CacheAction::Probe, CacheEvent::Probed(_)) => Some(CacheAction::Request),
        (CacheAction::Read, CacheEvent::Loaded(bytes)) => Some(take_cached(cached_value(&bytes))),
        (CacheAction::Read, CacheEvent::NotLoaded) => Some(
            CacheAction::Fail(CacheFailure::NotRead),
        ),
        (CacheAction::Request, CacheEvent::Fetched(value)) => Some(
            CacheAction::Store(Reply::new(value)),
        ),
        (CacheAction::Request, CacheEvent::NotFetched) => Some(
            CacheAction::Fail(CacheFailure::NotFetched),
        ),
        (CacheAction::Store(reply), CacheEvent::Stored) => Some(
            CacheAction::Finish(reply.into_value()),
        ),
        (CacheAction::Store(_), CacheEvent::NotStored) => Some(
            CacheAction::Fail(CacheFailure::NotKept),
        ),
        _ => None,
    }
}

/// The actions that a run of events leads through, up to the first that cannot have come.
pub open spec fn run(action: CacheActionView, events: Seq<CacheEventView>) -> Seq<CacheActionView>
    decreases events.len(),
{
    if events.len() == 0 {
        seq![action]
    } else {
        match followed_by(action, events[0]) {
            Some(next) => seq![action] + run(next, events.skip(1)),
            None => seq![action],
        }
    }
}

/// A reply is handed out only as it stands in its file, or as the service gave it and after it was
/// kept. The service is asked exactly where the file was not found.
pub proof fn lemma_replies_are_kept(events: Seq<CacheEventView>, text: Seq<u8>)
    requires
        run(CacheActionView::Probe, events).last() == CacheActionView::Finish(text),
    ensures
        events.len() >= 2,
        events[0] == CacheEventView::Probed(Some(true)) ==> {
            &&& events[1] matches CacheEventView::Loaded(bytes)
            &&& json_of(bytes) == Ok::<Seq<u8>, Seq<char>>(text)
            &&& run(CacheActionView::Probe, events) == seq![
                CacheActionView::Probe,
                CacheActionView::Read,
                CacheActionView::Finish(text),
            ]
        },
        events[0] != CacheEventView::Probed(Some(true)) ==> {
            &&& events[1] == CacheEventView::Fetched(text)
            &&& run(CacheActionView::Probe, events) == seq![
                CacheActionView::Probe,
                CacheActionView::Request,
                CacheActionView::Store(text),
                CacheActionView::Finish(text),
            ]
        },
{
    reveal_with_fuel(run, 5);
}

/// A failure ends the run. A file that cannot be read, or holds no JSON, is not made up for by the
/// service, and nothing is kept where the service fails; a reply that could not be kept is not
/// handed out.
pub proof fn lemma_failures_end_the_run(events: Seq<CacheEventView>, failure: CacheFailureView)
    requires
        run(CacheActionView::Probe, events).last() == CacheActionView::Fail(failure),
    ensures
        events.len() >= 2,
        match failure {
            CacheFailureView::NotRead => {
                &&& events[0] == CacheEventView::Probed(Some(true))
                &&& events[1] == CacheEventView::NotLoaded
                &&& run(CacheActionView::Probe, events) == seq![
                    CacheActionView::Probe,
                    CacheActionView::Read,
                    CacheActionView::Fail(failure),
                ]
            },
            CacheFailureView::NotJson(why) => {
                &&& events[0] == CacheEventView::Probed(Some(true))
                &&& events[1] matches CacheEventView::Loaded(bytes)
                &&& json_of(bytes) == Err::<Seq<u8>, Seq<char>>(why)
                &&& run(CacheActionView::Probe, events) == seq![
                    CacheActionView::Probe,
                    CacheActionView::Read,
                    CacheActionView::Fail(failure),
                ]
            },
            CacheFailureView::NotFetched => {
                &&& events[0] != CacheEventView::Probed(Some(true))
                &&& events[1] == CacheEventView::NotFetched
                &&& run(CacheActionView::Probe, events) == seq![
                    CacheActionView::Probe,
                    CacheActionView::Request,
                    CacheActionView::Fail(failure),
                ]
            },
            CacheFailureView::NotKept => {
                &&& events[0] != CacheEventView::Probed(Some(true))
                &&& events[1] matches CacheEventView::Fetched(text)
                &&& events.len() >= 3
                &&& events[2] == CacheEventView::NotStored
                &&& run(CacheActionView::Probe, events) == seq![
                    CacheActionView::Probe,
                    CacheActionView::Request,
                    CacheActionView::Store(text),
                    CacheActionView::Fail(failure),
                ]
            },
        },
{
    reveal_with_fuel(run, 5);
}

/// A reply that was kept is handed out again without the service being asked: the second run ends
/// as the first did exactly where the text that was kept reads back as itself, and otherwise with
/// what the text stands for.
pub proof fn lemma_kept_replies_are_reused(
    first: Seq<CacheEventView>,
    second: Seq<CacheEventView>,
    kept: Seq<u8>,
)
    requires
        run(CacheActionView::Probe, first).contains(CacheActionView::Store(kept)),
        run(CacheActionView::Probe, first).last() is Finish,
        second == seq![CacheEventView::Probed(Some(true)), CacheEventView::Loaded(kept)],
    ensures
        run(CacheActionView::Probe, second).last() == after_reading(json_of(kept)),
        run(CacheActionView::Probe, second).last() == run(CacheActionView::Probe, first).last()
            <==> json_of(kept) == Ok::<Seq<u8>, Seq<char>>(kept),
        !run(CacheActionView::Probe, second).contains(CacheActionView::Request),
{
    let last = run(CacheActionView::Probe, first).last();
    lemma_replies_are_kept(first, last->Finish_0);
    assert(second.skip(1) == seq![CacheEventView::Loaded(kept)]);
    assert(second.skip(1).skip(1) == Seq::<CacheEventView>::empty());
    reveal_with_fuel(run, 3);
}

} // verus!
