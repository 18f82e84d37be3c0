//! How the sound of a segment is extracted, and what is made of the reply to it.

use crate::segments::Segment;
use crate::span::Span;
use crate::text;
use vstd::prelude::*;

verus! {

/// An argument of the program that extracts sound.
#[derive(Debug, PartialEq, Eq)]
pub enum Argument {
    Text(String),
    /// The path of the recording.
    Recording,
}

/// What an argument holds.
pub enum ArgumentView {
    Text(Seq<char>),
    Recording,
}

impl View for Argument {
    type V = ArgumentView;

    open spec fn view(&self) -> ArgumentView {
        match self {
            Argument::Text(s) => ArgumentView::Text(s@),
            Argument::Recording => ArgumentView::Recording,
        }
    }
}

pub open spec fn views(arguments: Seq<Argument>) -> Seq<ArgumentView> {
    arguments.map_values(|a: Argument| a@)
}

/// The arguments for the sound from a place on, without pictures, as Ogg Vorbis. The place is
/// written as seconds.
pub open spec fn from_place(place: Seq<char>) -> Seq<ArgumentView> {
    seq![
        ArgumentView::Text("-ss"@),
        ArgumentView::Text(place),
        ArgumentView::Text("-i"@),
        ArgumentView::Recording,
        ArgumentView::Text("-vn"@),
        ArgumentView::Text("-acodec"@),
        ArgumentView::Text("libvorbis"@),
        ArgumentView::Text("-f"@),
        ArgumentView::Text("ogg"@),
        ArgumentView::Text("-qscale:a"@),
        ArgumentView::Text("8"@),
        ArgumentView::Text("-nostdin"@),
        ArgumentView::Text("-hide_banner"@),
        ArgumentView::Text("-loglevel"@),
        ArgumentView::Text("error"@),
    ]
}

/// The arguments that let the sound start later, where it does.
pub open spec fn delayed(first: bool, delay: Span) -> Seq<ArgumentView> {
    if first && delay.total() > 0 {
        seq![
            ArgumentView::Text("-af"@),
            ArgumentView::Text("adelay="@ + text::decimal(delay.total() / 1_000_000)),
        ]
    } else {
        Seq::empty()
    }
}

/// The arguments that end the sound, where more follows.
pub open spec fn limited(seconds: Option<u64>) -> Seq<ArgumentView> {
    match seconds {
        Some(n) => seq![ArgumentView::Text("-t"@), ArgumentView::Text(text::decimal(n as nat))],
        None => Seq::empty(),
    }
}

/// All arguments for the sound of a segment, which is written to the standard output.
pub open spec fn arguments_for(segment: Segment, delay: Span, place: Seq<char>) -> Seq<
    ArgumentView,
> {
    (from_place(place) + delayed(segment.first, delay) + limited(segment.seconds)).push(
        ArgumentView::Text("-"@),
    )
}

fn add_text(out: &mut Vec<Argument>, s: &str)
    ensures
        views(final(out)@) == views(old(out)@).push(ArgumentView::Text(s@)),
{
    let mut copy = String::new();
    copy.append(s);
    assert(copy@ == s@);
    out.push(Argument::Text(copy));
    assert(views(out@) == views(old(out)@).push(ArgumentView::Text(s@)));
}

/// Makes the arguments for the sound of a segment. `place` is where it starts, written as seconds.
pub fn ffmpeg_arguments(segment: &Segment, delay: &Span, place: &str) -> (r: Vec<Argument>)
    requires
        delay.wf(),
    ensures
        views(r@) == arguments_for(*segment, *delay, place@),
        views(r@) == seq![
            ArgumentView::Text("-ss"@),
            ArgumentView::Text(place@),
            ArgumentView::Text("-i"@),
            ArgumentView::Recording,
            ArgumentView::Text("-vn"@),
            ArgumentView::Text("-acodec"@),
            ArgumentView::Text("libvorbis"@),
            ArgumentView::Text("-f"@),
            ArgumentView::Text("ogg"@),
            ArgumentView::Text("-qscale:a"@),
            ArgumentView::Text("8"@),
            ArgumentView::Text("-nostdin"@),
            ArgumentView::Text("-hide_banner"@),
            ArgumentView::Text("-loglevel"@),
            ArgumentView::Text("error"@),
        ] + (if segment.first && (delay.secs > 0 || delay.nanos > 0) {
            seq![
                ArgumentView::Text("-af"@),
                ArgumentView::Text(
                    "adelay="@ + text::decimal(
                        (delay.secs * 1000 + delay.nanos / 1_000_000) as nat,
                    ),
                ),
            ]
        } else {
            Seq::empty()
        }) + (match segment.seconds {
            Some(n) => seq![
                ArgumentView::Text("-t"@),
                ArgumentView::Text(text::decimal(n as nat)),
            ],
            None => Seq::empty(),
        }) + seq![ArgumentView::Text("-"@)],
{
    let mut out: Vec<Argument> = Vec::new();
    assert(views(out@) == Seq::<ArgumentView>::empty());
    add_text(&mut out, "-ss");
    add_text(&mut out, place);
    add_text(&mut out, "-i");
    let ghost before = views(out@);
    out.push(Argument::Recording);
    assert(views(out@) == before.push(ArgumentView::Recording));
    add_text(&mut out, "-vn");
    add_text(&mut out, "-acodec");
    add_text(&mut out, "libvorbis");
    add_text(&mut out, "-f");
    add_text(&mut out, "ogg");
    add_text(&mut out, "-qscale:a");
    add_text(&mut out, "8");
    add_text(&mut out, "-nostdin");
    add_text(&mut out, "-hide_banner");
    add_text(&mut out, "-loglevel");
    add_text(&mut out, "error");
    assert(views(out@) == from_place(place@));
    let ghost before = views(out@);
    if segment.first && !delay.is_zero() {
        let mut filter = String::new();
        filter.append("adelay=");
        assert(filter@ == "adelay="@);
        text::push_decimal(&mut filter, delay.as_millis());
        add_text(&mut out, "-af");
        add_text(&mut out, filter.as_str());
    }
    assert(views(out@) == before + delayed(segment.first, *delay));
    let ghost before = views(out@);
    if let Some(n) = segment.seconds {
        let mut limit = String::new();
        text::push_decimal(&mut limit, n as u128);
        assert(limit@ == text::decimal(n as nat));
        add_text(&mut out, "-t");
        add_text(&mut out, limit.as_str());
    }
    assert(views(out@) == before + limited(segment.seconds));
    add_text(&mut out, "-");
    out
}

/// What is made of a request for a transcription.
#[derive(Clone, Copy, Debug, PartialEq, Eq, Structural)]
pub enum Verdict {
    /// The reply holds the transcription.
    Accepted,
    /// There is a reply, but the service or the extraction failed.
    Failed,
    /// There is no reply.
    NotIssued,
}

/// Judges a request by whether the extraction succeeded and by the reply: whether the service says
/// that it succeeded, or `None` where none came.
pub fn judge(reply: Option<bool>, extracted: bool) -> (r: Verdict)
    ensures
        r is Accepted <==> reply == Some(true) && extracted,
        r is NotIssued <==> reply is None,
{
    match reply {
        Some(success) => if success && extracted {
            Verdict::Accepted
        } else {
            Verdict::Failed
        },
        None => Verdict::NotIssued,
    }
}

} // verus!
