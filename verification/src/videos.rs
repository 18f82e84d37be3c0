//! Recorded files and published videos, and which belongs to which.

use crate::calendar;
use crate::order;
use crate::order::Keyed;
use crate::recording::Moment;
use crate::span;
use crate::span::Span;
use crate::text;
use vstd::prelude::*;

verus! {

/// A part of a path.
#[derive(Debug)]
pub enum PathPart {
    Root,
    Current,
    Parent,
    Named(Vec<u8>),
}

/// A part of a path as positive integers: the parts other than names first, names by their bytes.
pub open spec fn part_key(part: PathPart) -> Seq<i128> {
    match part {
        PathPart::Root => seq![1],
        PathPart::Current => seq![2],
        PathPart::Parent => seq![3],
        PathPart::Named(name) => seq![4] + name@.map_values(|b: u8| (b + 1) as i128),
    }
}

/// The first `n` parts of a path, each followed by a zero: a part that ends comes before one that
/// goes on, and a path that ends before one that goes on.
pub open spec fn path_key(parts: Seq<PathPart>, n: nat) -> Seq<i128>
    decreases n,
{
    if n == 0 {
        Seq::empty()
    } else {
        path_key(parts, (n - 1) as nat) + part_key(parts[n - 1]).push(0)
    }
}

/// A recorded file.
#[derive(Debug)]
pub struct LocalVideo {
    pub length: Span,
    pub recorded: Moment,
    pub path: Vec<PathPart>,
    pub delay: Span,
}

/// The key of a file: its length, when it was recorded, its path, and its delay, in this order.
pub open spec fn video_key(
    length: Span,
    recorded: Moment,
    path: Seq<PathPart>,
    delay: Span,
) -> Seq<i128> {
    seq![
        length.secs as i128,
        length.nanos as i128,
        recorded.secs as i128,
        recorded.nanos as i128,
    ] + path_key(path, path.len()) + seq![0, delay.secs as i128, delay.nanos as i128]
}

impl LocalVideo {
    pub open spec fn wf(self) -> bool {
        self.length.wf() && self.delay.wf()
    }
}

fn push_part(out: &mut Vec<i128>, part: &PathPart)
    ensures
        final(out)@ == old(out)@ + part_key(*part).push(0),
{
    match part {
        PathPart::Root => {
            out.push(1);
        },
        PathPart::Current => {
            out.push(2);
        },
        PathPart::Parent => {
            out.push(3);
        },
        PathPart::Named(name) => {
            out.push(4);
            let mut i: usize = 0;
            let ghost start = out@;
            let ghost bytes = name@.map_values(|b: u8| (b + 1) as i128);
            while i < name.len()
                invariant
                    i <= name@.len(),
                    bytes == name@.map_values(|b: u8| (b + 1) as i128),
                    out@ == start + bytes.take(i as int),
                decreases name@.len() - i,
            {
                out.push(name[i] as i128 + 1);
                assert(bytes.take(i + 1) == bytes.take(i as int).push(bytes[i as int]));
                i = i + 1;
            }
            assert(bytes.take(i as int) == bytes);
        },
    }
    out.push(0);
    assert(out@ == old(out)@ + part_key(*part).push(0));
}

fn make_video_key(length: &Span, recorded: &Moment, path: &Vec<PathPart>, delay: &Span) -> (r: Vec<
    i128,
>)
    ensures
        r@ == video_key(*length, *recorded, path@, *delay),
{
    let mut out: Vec<i128> = Vec::new();
    out.push(length.secs as i128);
    out.push(length.nanos as i128);
    out.push(recorded.secs as i128);
    out.push(recorded.nanos as i128);
    let ghost start = out@;
    let mut i: usize = 0;
    while i < path.len()
        invariant
            i <= path@.len(),
            out@ == start + path_key(path@, i as nat),
        decreases path@.len() - i,
    {
        push_part(&mut out, &path[i]);
        i = i + 1;
    }
    out.push(0);
    out.push(delay.secs as i128);
    out.push(delay.nanos as i128);
    assert(out@ == video_key(*length, *recorded, path@, *delay));
    out
}

impl Keyed for LocalVideo {
    open spec fn key(&self) -> Seq<i128> {
        video_key(self.length, self.recorded, self.path@, self.delay)
    }

    fn make_key(&self) -> (r: Vec<i128>) {
        make_video_key(&self.length, &self.recorded, &self.path, &self.delay)
    }
}

/// Whether two parts of paths are the same.
pub open spec fn same_part(a: PathPart, b: PathPart) -> bool {
    match (a, b) {
        (PathPart::Root, PathPart::Root) => true,
        (PathPart::Current, PathPart::Current) => true,
        (PathPart::Parent, PathPart::Parent) => true,
        (PathPart::Named(x), PathPart::Named(y)) => x@ == y@,
        _ => false,
    }
}

/// Whether two paths are the same, part by part.
pub open spec fn same_path(a: Seq<PathPart>, b: Seq<PathPart>) -> bool {
    a.len() == b.len() && forall|i: int| 0 <= i < a.len() ==> same_part(#[trigger] a[i], b[i])
}

/// The key of a part is not empty, holds no zero, and is that of no other part.
proof fn lemma_part_key(a: PathPart, b: PathPart)
    ensures
        part_key(a).len() > 0,
        forall|i: int| 0 <= i < part_key(a).len() ==> #[trigger] part_key(a)[i] > 0,
        part_key(a) == part_key(b) ==> same_part(a, b),
{
    let (ka, kb) = (part_key(a), part_key(b));
    if ka == kb {
        assert(ka[0] == kb[0]);
        match (a, b) {
            (PathPart::Named(x), PathPart::Named(y)) => {
                assert(ka.len() == x@.len() + 1 && kb.len() == y@.len() + 1);
                assert forall|i: int| 0 <= i < x@.len() implies x@[i] == y@[i] by {
                    assert(ka[i + 1] == x@[i] + 1);
                    assert(kb[i + 1] == y@[i] + 1);
                }
                assert(x@ == y@);
            },
            _ => {},
        }
    }
}

/// Keys of paths that end alike have last parts of the same length.
proof fn lemma_last_part(front_a: Seq<i128>, a: Seq<i128>, front_b: Seq<i128>, b: Seq<i128>)
    requires
        front_a + a.push(0) == front_b + b.push(0),
        front_a.len() == 0 || front_a.last() == 0,
        forall|i: int| 0 <= i < b.len() ==> #[trigger] b[i] > 0,
    ensures
        a.len() >= b.len(),
{
    if a.len() < b.len() {
        // the zero in front of `a` would be in `b`
        let (x, y) = (front_a + a.push(0), front_b + b.push(0));
        assert(x.len() == y.len());
        let at = front_a.len() - 1;
        assert(at >= front_b.len() as int);
        assert(x[at] == 0);
        assert(y[at] == b[at - front_b.len()]);
    }
}

/// The key of a path that is not empty ends with a zero.
proof fn lemma_path_key_end(parts: Seq<PathPart>, n: nat)
    requires
        n <= parts.len(),
    ensures
        n == 0 ==> path_key(parts, n).len() == 0,
        n > 0 ==> path_key(parts, n).len() > 0 && path_key(parts, n).last() == 0,
{
    if n > 0 {
        let last = part_key(parts[n - 1]).push(0);
        assert(path_key(parts, n).last() == last.last());
    }
}

/// The key of a path is that of no other path.
proof fn lemma_path_key(a: Seq<PathPart>, n: nat, b: Seq<PathPart>, m: nat)
    requires
        n <= a.len(),
        m <= b.len(),
        path_key(a, n) == path_key(b, m),
    ensures
        n == m,
        forall|i: int| 0 <= i < n ==> same_part(#[trigger] a[i], b[i]),
    decreases n,
{
    lemma_path_key_end(a, n);
    lemma_path_key_end(b, m);
    if n > 0 {
        let (p, q) = ((n - 1) as nat, (m - 1) as nat);
        let (fa, fb) = (path_key(a, p), path_key(b, q));
        let (ka, kb) = (part_key(a[n - 1]), part_key(b[m - 1]));
        lemma_path_key_end(a, p);
        lemma_path_key_end(b, q);
        lemma_part_key(a[n - 1], b[m - 1]);
        lemma_part_key(b[m - 1], a[n - 1]);
        lemma_last_part(fa, ka, fb, kb);
        lemma_last_part(fb, kb, fa, ka);
        let (x, y) = (fa + ka.push(0), fb + kb.push(0));
        assert(x == y);
        assert(fa.len() == fb.len());
        assert(fa == x.take(fa.len() as int));
        assert(fb == y.take(fb.len() as int));
        assert forall|i: int| 0 <= i < ka.len() implies ka[i] == kb[i] by {
            assert(x[fa.len() + i] == ka[i]);
            assert(y[fb.len() + i] == kb[i]);
        }
        assert(ka == kb);
        lemma_path_key(a, p, b, q);
    }
}

/// A key is that of one file only: files with the same key are the same in all that they are
/// ordered by, down to their paths.
pub proof fn lemma_key_identifies(a: LocalVideo, b: LocalVideo)
    requires
        a.key() == b.key(),
    ensures
        a.length == b.length,
        a.recorded == b.recorded,
        same_path(a.path@, b.path@),
        a.delay == b.delay,
{
    let (ka, kb) = (a.key(), b.key());
    let (pa, pb) = (path_key(a.path@, a.path@.len()), path_key(b.path@, b.path@.len()));
    assert(ka[0] == kb[0] && ka[1] == kb[1] && ka[2] == kb[2] && ka[3] == kb[3]);
    assert(ka.len() == pa.len() + 7 && kb.len() == pb.len() + 7);
    let n = pa.len() as int;
    assert(pa == ka.subrange(4, 4 + n));
    assert(pb == kb.subrange(4, 4 + n));
    assert(ka[n + 5] == a.delay.secs && kb[n + 5] == b.delay.secs);
    assert(ka[n + 6] == a.delay.nanos && kb[n + 6] == b.delay.nanos);
    lemma_path_key(a.path@, a.path@.len(), b.path@, b.path@.len());
}

/// Whether files are ordered by their keys, none of which occurs twice.
pub open spec fn ordered(videos: Seq<LocalVideo>) -> bool {
    forall|i: int, j: int|
        0 <= i < j < videos.len() ==> order::before(
            (#[trigger] videos[i]).key(),
            (#[trigger] videos[j]).key(),
        )
}

/// The recorded files, ordered by length first.
pub struct Recordings {
    videos: Vec<LocalVideo>,
}

impl View for Recordings {
    type V = Seq<LocalVideo>;

    closed spec fn view(&self) -> Seq<LocalVideo> {
        self.videos@
    }
}

impl Recordings {
    /// The files are in order, and their lengths and delays are spans of time.
    pub open spec fn wf(self) -> bool {
        ordered(self@) && forall|i: int| 0 <= i < self@.len() ==> (#[trigger] self@[i]).wf()
    }

    pub fn new() -> (r: Self)
        ensures
            r.wf(),
            r@ == Seq::<LocalVideo>::empty(),
    {
        Recordings { videos: Vec::new() }
    }

    pub fn len(&self) -> (r: usize)
        ensures
            r == self@.len(),
    {
        self.videos.len()
    }

    pub fn get(&self, i: usize) -> (r: &LocalVideo)
        requires
            i < self@.len(),
        ensures
            *r == self@[i as int],
    {
        &self.videos[i]
    }

    /// Adds a file, unless one with its key is there; says whether it was added.
    pub fn insert(&mut self, video: LocalVideo) -> (added: bool)
        requires
            old(self).wf(),
            video.wf(),
        ensures
            final(self).wf(),
            added == forall|i: int|
                0 <= i < old(self)@.len() ==> (#[trigger] old(self)@[i]).key() != video.key(),
            !added ==> final(self)@ == old(self)@,
            added ==> exists|at: int|
                0 <= at <= old(self)@.len() && final(self)@ == #[trigger] old(self)@.insert(
                    at,
                    video,
                ),
    {
        let key = video.make_key();
        let ghost before = self.videos@;
        let mut at: usize = self.videos.len();
        while at > 0 && !order::precedes(&self.videos[at - 1].make_key(), &key)
            invariant
                at <= self.videos@.len(),
                self.videos@ == before,
                key@ == video.key(),
                forall|i: int|
                    at <= i < self.videos@.len() ==> !order::before(
                        (#[trigger] self.videos@[i]).key(),
                        key@,
                    ),
            decreases at,
        {
            at = at - 1;
        }
        if at < self.videos.len() && !order::precedes(&key, &self.videos[at].make_key()) {
            proof {
                order::lemma_total(key@, before[at as int].key());
            }
            return false;
        }
        proof {
            assert forall|i: int| 0 <= i < at implies order::before(
                (#[trigger] before[i]).key(),
                key@,
            ) by {
                if i < at - 1 {
                    order::lemma_transitive(before[i].key(), before[at - 1].key(), key@);
                }
            }
            assert forall|i: int| at <= i < before.len() implies order::before(
                key@,
                (#[trigger] before[i]).key(),
            ) by {
                if i > at {
                    order::lemma_transitive(key@, before[at as int].key(), before[i].key());
                }
            }
            assert forall|i: int| 0 <= i < before.len() implies (#[trigger] before[i]).key()
                != key@ by {
                order::lemma_irreflexive(key@);
            }
        }
        self.videos.insert(at, video);
        proof {
            let after = before.insert(at as int, video);
            assert(self.videos@ == after);
            assert forall|i: int, j: int| 0 <= i < j < after.len() implies order::before(
                (#[trigger] after[i]).key(),
                (#[trigger] after[j]).key(),
            ) by {
                let i0 = if i < at {
                    i
                } else {
                    i - 1
                };
                let j0 = if j < at {
                    j
                } else {
                    j - 1
                };
                if i != at {
                    assert(after[i] == before[i0]);
                }
                if j != at {
                    assert(after[j] == before[j0]);
                }
            }
            assert forall|i: int| 0 <= i < after.len() implies (#[trigger] after[i]).wf() by {
                if i < at {
                    assert(after[i] == before[i]);
                } else if i > at {
                    assert(after[i] == before[i - 1]);
                }
            }
            assert(self@ == old(self)@.insert(at as int, video));
        }
        true
    }
}

/// The title of a published video.
#[derive(Debug)]
pub struct YouTubeVideoSnippet {
    pub title: String,
}

/// When a published video was recorded.
#[derive(Clone, Copy, Debug)]
pub struct YouTubeRecordingDetails {
    pub recording_date: Moment,
}

/// How long a published video is, in seconds.
#[derive(Clone, Copy, Debug)]
pub struct YouTubeContentDetails {
    pub duration: i64,
}

/// A published video.
#[derive(Debug)]
pub struct YouTubeListItem {
    pub id: String,
    pub snippet: YouTubeVideoSnippet,
    pub recording_details: YouTubeRecordingDetails,
    pub content_details: YouTubeContentDetails,
}

/// A published video and the place of its file among the recordings.
#[derive(Debug)]
pub struct Video {
    pub youtube: YouTubeListItem,
    pub local: usize,
}

/// Published videos are listed by when they were recorded, then by identifier.
impl Keyed for YouTubeListItem {
    open spec fn key(&self) -> Seq<i128> {
        let date = self.recording_details.recording_date;
        seq![date.secs as i128, date.nanos as i128] + self.id@.map_values(
            |c: char| c as u32 as i128,
        )
    }

    fn make_key(&self) -> (r: Vec<i128>) {
        let mut out: Vec<i128> = Vec::new();
        out.push(self.recording_details.recording_date.secs as i128);
        out.push(self.recording_details.recording_date.nanos as i128);
        let chars = text::chars_of(self.id.as_str());
        let ghost start = out@;
        let ghost all = self.id@.map_values(|c: char| c as u32 as i128);
        let mut i: usize = 0;
        while i < chars.len()
            invariant
                i <= chars@.len(),
                chars@ == self.id@,
                all == self.id@.map_values(|c: char| c as u32 as i128),
                out@ == start + all.take(i as int),
            decreases chars@.len() - i,
        {
            out.push(chars[i] as u32 as i128);
            assert(all.take(i + 1) == all.take(i as int).push(all[i as int]));
            i = i + 1;
        }
        assert(all.take(i as int) == all);
        assert(out@ == self.key());
        out
    }
}

/// Matched videos are worked on from the shortest to the longest.
impl Keyed for Video {
    open spec fn key(&self) -> Seq<i128> {
        seq![self.youtube.content_details.duration as i128]
    }

    fn make_key(&self) -> (r: Vec<i128>) {
        let mut out: Vec<i128> = Vec::new();
        out.push(self.youtube.content_details.duration as i128);
        assert(out@ == self.key());
        out
    }
}

/// Lists published videos by when they were recorded, then by identifier.
pub fn sort_listing(videos: Vec<YouTubeListItem>) -> (r: Vec<YouTubeListItem>)
    ensures
        order::stably_sorted(videos@, r@),
        r@.to_multiset() == videos@.to_multiset(),
        forall|i: int, j: int|
            0 <= i < j < r@.len() ==> listed_before(#[trigger] r@[i], #[trigger] r@[j]),
        forall|date: Moment, id: Seq<char>| #[trigger]
            recorded_as(r@, date, id) == recorded_as(videos@, date, id),
{
    let r = order::stable_sort(videos);
    proof {
        assert forall|date: Moment, id: Seq<char>| #[trigger]
            recorded_as(r@, date, id) == recorded_as(videos@, date, id) by {
            let k = listing_key(date, id);
            assert(order::with_key(r@, k) == order::with_key(videos@, k));
            lemma_recorded_by_key(r@, date, id);
            lemma_recorded_by_key(videos@, date, id);
        }
        assert forall|i: int, j: int| 0 <= i < j < r@.len() implies listed_before(
            #[trigger] r@[i],
            #[trigger] r@[j],
        ) by {
            lemma_listing_order(r@[i], r@[j]);
        }
    }
    r
}

/// The published videos of a moment and an identifier, in their order.
pub open spec fn recorded_as(videos: Seq<YouTubeListItem>, date: Moment, id: Seq<char>) -> Seq<
    YouTubeListItem,
> {
    videos.filter(
        |v: YouTubeListItem| v.recording_details.recording_date == date && v.id@ == id,
    )
}

spec fn listing_key(date: Moment, id: Seq<char>) -> Seq<i128> {
    seq![date.secs as i128, date.nanos as i128] + id.map_values(|c: char| c as u32 as i128)
}

/// The key of a listing is that of no other moment or identifier.
proof fn lemma_listing_key(a: Moment, s: Seq<char>, b: Moment, t: Seq<char>)
    requires
        listing_key(a, s) == listing_key(b, t),
    ensures
        a == b,
        s == t,
{
    let (ka, kb) = (listing_key(a, s), listing_key(b, t));
    assert(ka[0] == kb[0] && ka[1] == kb[1]);
    assert(ka.len() == s.len() + 2 && kb.len() == t.len() + 2);
    assert forall|i: int| 0 <= i < s.len() implies s[i] == t[i] by {
        assert(ka[i + 2] == s[i] as u32 as i128);
        assert(kb[i + 2] == t[i] as u32 as i128);
        lemma_char_codes(s[i], t[i]);
    }
    assert(s =~= t);
}

proof fn lemma_recorded_by_key(videos: Seq<YouTubeListItem>, date: Moment, id: Seq<char>)
    ensures
        order::with_key(videos, listing_key(date, id)) == recorded_as(videos, date, id),
    decreases videos.len(),
{
    reveal(Seq::filter);
    if videos.len() > 0 {
        lemma_recorded_by_key(videos.drop_last(), date, id);
        let v = videos.last();
        assert(v.key() =~= listing_key(v.recording_details.recording_date, v.id@));
        if v.key() == listing_key(date, id) {
            lemma_listing_key(v.recording_details.recording_date, v.id@, date, id);
        }
    }
}

/// What is listed before another video was not recorded behind it. Where both were recorded at the
/// same moment, its identifier has no larger character at the first place where the two differ,
/// and does not go on behind the end of the other.
pub proof fn lemma_listing_is_by_date_then_identifier(a: YouTubeListItem, b: YouTubeListItem)
    requires
        listed_before(a, b),
    ensures
        ({
            let (x, y) = (a.recording_details.recording_date, b.recording_details.recording_date);
            &&& x.secs <= y.secs
            &&& x.secs == y.secs ==> x.nanos <= y.nanos
            &&& x.secs == y.secs && x.nanos == y.nanos ==> {
                &&& forall|k: int|
                    0 <= k < a.id@.len() && k < b.id@.len() && #[trigger] a.id@.take(k)
                        == b.id@.take(k) ==> a.id@[k] <= b.id@[k]
                &&& b.id@.len() < a.id@.len() ==> a.id@.take(b.id@.len() as int) != b.id@
            }
        }),
{
    let (s, t) = (a.id@, b.id@);
    if text::sorts_before(s, t) {
        let n = choose|n: int| text::first_smaller(s, t, n);
        assert forall|k: int| 0 <= k < s.len() && k < t.len() && #[trigger] s.take(k) == t.take(
            k,
        ) implies s[k] <= t[k] by {
            if k < n {
                assert(s.take(n)[k] == t.take(n)[k]);
            } else if n < k {
                assert(s.take(k)[n] == t.take(k)[n]);
            }
        }
        if t.len() < s.len() && s.take(t.len() as int) == t {
            assert(s.take(t.len() as int)[n] == t[n]);
        }
    }
}

/// Whether a published video may be listed before another: it was recorded before it, or at the
/// same moment and its identifier does not sort behind.
pub open spec fn listed_before(a: YouTubeListItem, b: YouTubeListItem) -> bool {
    let (x, y) = (a.recording_details.recording_date, b.recording_details.recording_date);
    ||| x.secs < y.secs
    ||| x.secs == y.secs && x.nanos < y.nanos
    ||| x == y && (a.id@ == b.id@ || text::sorts_before(a.id@, b.id@))
}

/// Keys that differ first at a place are ordered as they are there.
proof fn lemma_first_difference(a: Seq<i128>, b: Seq<i128>, k: int)
    requires
        0 <= k < a.len(),
        k < b.len(),
        a.take(k) == b.take(k),
        a[k] != b[k],
    ensures
        order::before(a, b) <==> a[k] < b[k],
    decreases k,
{
    if k > 0 {
        assert(a[0] == a.take(k)[0] && b[0] == b.take(k)[0]);
        assert(a.skip(1).take(k - 1) == a.take(k).skip(1));
        assert(b.skip(1).take(k - 1) == b.take(k).skip(1));
        lemma_first_difference(a.skip(1), b.skip(1), k - 1);
    }
}

/// A key that goes on behind the end of another comes behind it.
proof fn lemma_prefix_first(a: Seq<i128>, b: Seq<i128>)
    requires
        a.len() < b.len(),
        a == b.take(a.len() as int),
    ensures
        order::before(a, b),
        !order::before(b, a),
    decreases a.len(),
{
    if a.len() > 0 {
        assert(a[0] == b[0]);
        assert(a.skip(1) == b.skip(1).take(a.len() - 1));
        lemma_prefix_first(a.skip(1), b.skip(1));
    }
}

proof fn lemma_listing_order(a: YouTubeListItem, b: YouTubeListItem)
    requires
        !order::before(b.key(), a.key()),
    ensures
        listed_before(a, b),
{
    let (x, y) = (a.recording_details.recording_date, b.recording_details.recording_date);
    let (ka, kb) = (a.key(), b.key());
    assert(ka[0] == x.secs && ka[1] == x.nanos && kb[0] == y.secs && kb[1] == y.nanos);
    if x.secs != y.secs {
        assert(kb.take(0) == ka.take(0));
        lemma_first_difference(kb, ka, 0);
    } else if x.nanos != y.nanos {
        assert(kb.take(1) == ka.take(1));
        lemma_first_difference(kb, ka, 1);
    } else if a.id@ != b.id@ {
        let (s, t) = (a.id@, b.id@);
        let k = lemma_texts_differ(s, t);
        assert forall|i: int| 0 <= i < s.len() implies ka[i + 2] == s[i] as u32 by {}
        assert forall|i: int| 0 <= i < t.len() implies kb[i + 2] == t[i] as u32 by {}
        assert(ka.take(k + 2) == kb.take(k + 2)) by {
            assert forall|i: int| 0 <= i < k + 2 implies ka[i] == kb[i] by {
                if i >= 2 {
                    assert(s.take(k)[i - 2] == t.take(k)[i - 2]);
                }
            }
        }
        if k < s.len() && k < t.len() {
            assert(ka[k + 2] == s[k] as u32 as i128);
            assert(kb[k + 2] == t[k] as u32 as i128);
            lemma_char_codes(s[k], t[k]);
            lemma_char_codes(t[k], s[k]);
            lemma_first_difference(kb, ka, k + 2);
            assert(text::first_smaller(s, t, k));
        } else if k == s.len() {
            assert(text::first_smaller(s, t, k));
        } else {
            assert(kb == ka.take(kb.len() as int));
            lemma_prefix_first(kb, ka);
        }
    }
}

/// Where two texts first differ.
proof fn lemma_texts_differ(s: Seq<char>, t: Seq<char>) -> (k: int)
    requires
        s != t,
    ensures
        0 <= k <= s.len(),
        k <= t.len(),
        s.take(k) == t.take(k),
        k == s.len() || k == t.len() || s[k] != t[k],
        k == s.len() ==> k < t.len(),
    decreases s.len(),
{
    if s.len() == 0 || t.len() == 0 || s[0] != t[0] {
        assert(s.take(0) == t.take(0));
        if s.len() == 0 && t.len() == 0 {
            assert(s == t);
        }
        0
    } else {
        if s.skip(1) == t.skip(1) {
            assert(s == seq![s[0]] + s.skip(1));
            assert(t == seq![t[0]] + t.skip(1));
        }
        let k = lemma_texts_differ(s.skip(1), t.skip(1));
        assert(s.take(k + 1) == seq![s[0]] + s.skip(1).take(k));
        assert(t.take(k + 1) == seq![t[0]] + t.skip(1).take(k));
        k + 1
    }
}

/// Puts the shorter videos first.
pub fn sort_by_duration(videos: Vec<Video>) -> (r: Vec<Video>)
    ensures
        order::stably_sorted(videos@, r@),
        r@.to_multiset() == videos@.to_multiset(),
        forall|i: int, j: int|
            0 <= i < j < r@.len() ==> (#[trigger] r@[i]).youtube.content_details.duration <= (
            #[trigger] r@[j]).youtube.content_details.duration,
        forall|d: i64| #[trigger] lasting(r@, d) == lasting(videos@, d),
{
    let r = order::stable_sort(videos);
    proof {
        assert forall|i: int, j: int| 0 <= i < j < r@.len() implies (
        #[trigger] r@[i]).youtube.content_details.duration <= (
        #[trigger] r@[j]).youtube.content_details.duration by {
            let (ka, kb) = (r@[i].key(), r@[j].key());
            if ka[0] != kb[0] {
                assert(kb.take(0) == ka.take(0));
                lemma_first_difference(kb, ka, 0);
            }
        }
        assert forall|d: i64| #[trigger] lasting(r@, d) == lasting(videos@, d) by {
            let k = seq![d as i128];
            assert(order::with_key(r@, k) == order::with_key(videos@, k));
            lemma_lasting_by_key(r@, d);
            lemma_lasting_by_key(videos@, d);
        }
    }
    r
}

proof fn lemma_lasting_by_key(videos: Seq<Video>, d: i64)
    ensures
        order::with_key(videos, seq![d as i128]) == lasting(videos, d),
    decreases videos.len(),
{
    reveal(Seq::filter);
    if videos.len() > 0 {
        lemma_lasting_by_key(videos.drop_last(), d);
        let v = videos.last();
        if v.key() == seq![d as i128] {
            assert(v.key()[0] == seq![d as i128][0]);
        }
    }
}

proof fn lemma_char_codes(a: char, b: char)
    ensures
        a as u32 as i128 == b as u32 as i128 <==> a == b,
        (a as u32 as i128) < (b as u32 as i128) <==> a < b,
{
}

/// The videos of a duration, in their order.
pub open spec fn lasting(videos: Seq<Video>, duration: i64) -> Seq<Video> {
    videos.filter(|v: Video| v.youtube.content_details.duration == duration)
}

/// The least key of a file that is long enough: up to seven seconds shorter than the video, and
/// recorded in 1970 or later where it is exactly that much shorter.
pub open spec fn least_key(length: Span) -> Seq<i128> {
    let total = if length.total() >= 7_000_000_000 {
        (length.total() - 7_000_000_000) as nat
    } else {
        0
    };
    video_key(
        Span::of_total(total),
        Moment { secs: 0, nanos: 0 },
        Seq::empty(),
        Span { secs: 0, nanos: 0 },
    )
}

/// Whether a file can be that of a video: its length is within seven seconds of that of the video,
/// and it was recorded no later than the day after.
pub open spec fn candidate(file: LocalVideo, length: Span, recorded: Moment) -> bool {
    &&& !order::before(file.key(), least_key(length))
    &&& file.length.total() <= length.total() + 7_000_000_000
    &&& file.recorded.day() - recorded.day() <= 1
}

/// The last candidate among the first `n` files.
pub open spec fn last_candidate(
    files: Seq<LocalVideo>,
    n: nat,
    length: Span,
    recorded: Moment,
) -> Option<nat>
    decreases n,
{
    if n == 0 {
        None
    } else if candidate(files[n - 1], length, recorded) {
        Some((n - 1) as nat)
    } else {
        last_candidate(files, (n - 1) as nat, length, recorded)
    }
}

/// The file of a video: the last candidate, which is the longest.
pub open spec fn match_of(files: Seq<LocalVideo>, length: Span, recorded: Moment) -> Option<nat> {
    last_candidate(files, files.len(), length, recorded)
}

/// Files in order are not ordered against their lengths.
proof fn lemma_longer(a: LocalVideo, b: LocalVideo)
    requires
        a.wf(),
        b.wf(),
        order::before(a.key(), b.key()),
    ensures
        a.length.total() <= b.length.total(),
{
    let (ka, kb) = (a.key(), b.key());
    assert(ka[0] == a.length.secs && kb[0] == b.length.secs);
    assert(ka[1] == a.length.nanos && kb[1] == b.length.nanos);
    reveal_with_fuel(order::before, 3);
    assert(ka.skip(1)[0] == ka[1]);
    assert(kb.skip(1)[0] == kb[1]);
}

/// No file from `from` on is a candidate.
proof fn lemma_no_candidates(
    files: Seq<LocalVideo>,
    from: nat,
    n: nat,
    length: Span,
    recorded: Moment,
)
    requires
        from <= n,
        forall|i: int| from <= i < n ==> !candidate(#[trigger] files[i], length, recorded),
    ensures
        last_candidate(files, n, length, recorded) == last_candidate(
            files,
            from,
            length,
            recorded,
        ),
    decreases n,
{
    if from < n {
        assert(!candidate(files[n - 1], length, recorded));
        lemma_no_candidates(files, from, (n - 1) as nat, length, recorded);
    }
}

/// A candidate is up to seven seconds shorter or longer than the video.
proof fn lemma_candidate_length(file: LocalVideo, length: Span, recorded: Moment)
    requires
        file.wf(),
        length.wf(),
        candidate(file, length, recorded),
    ensures
        length.total() <= file.length.total() + 7_000_000_000,
{
    let (key, least) = (file.key(), least_key(length));
    if length.total() > file.length.total() + 7_000_000_000 {
        let total = (length.total() - 7_000_000_000) as nat;
        let shortest = Span::of_total(total);
        assert(shortest.wf() && shortest.total() == total);
        assert(key[0] == file.length.secs && least[0] == shortest.secs);
        assert(key[1] == file.length.nanos && least[1] == shortest.nanos);
        reveal_with_fuel(order::before, 3);
        assert(key.skip(1)[0] == key[1]);
        assert(least.skip(1)[0] == least[1]);
    }
}

proof fn lemma_last_candidate(
    files: Seq<LocalVideo>,
    n: nat,
    length: Span,
    recorded: Moment,
)
    requires
        n <= files.len(),
    ensures
        match last_candidate(files, n, length, recorded) {
            Some(i) => {
                &&& i < n
                &&& candidate(files[i as int], length, recorded)
                &&& forall|j: int| i < j < n ==> !candidate(#[trigger] files[j], length, recorded)
            },
            None => forall|j: int|
                0 <= j < n ==> !candidate(#[trigger] files[j], length, recorded),
        },
    decreases n,
{
    if n > 0 && !candidate(files[n - 1], length, recorded) {
        lemma_last_candidate(files, (n - 1) as nat, length, recorded);
    }
}

/// The file that is found for a video is within seven seconds of its length and was recorded no
/// later than the day after, and no file of the kind is longer. None is found only where there is
/// no candidate.
pub proof fn lemma_match_is_near(files: Seq<LocalVideo>, length: Span, recorded: Moment)
    requires
        ordered(files),
        forall|i: int| 0 <= i < files.len() ==> (#[trigger] files[i]).wf(),
        length.wf(),
    ensures
        match match_of(files, length, recorded) {
            Some(i) => {
                let file = files[i as int];
                &&& i < files.len()
                &&& file.length.total() <= length.total() + 7_000_000_000
                &&& length.total() <= file.length.total() + 7_000_000_000
                &&& file.recorded.day() <= recorded.day() + 1
                &&& forall|j: int|
                    0 <= j < files.len() && candidate(#[trigger] files[j], length, recorded)
                        ==> files[j].length.total() <= file.length.total()
            },
            None => forall|j: int|
                0 <= j < files.len() ==> !candidate(#[trigger] files[j], length, recorded),
        },
{
    lemma_last_candidate(files, files.len(), length, recorded);
    match match_of(files, length, recorded) {
        Some(i) => {
            let file = files[i as int];
            assert(file.wf());
            lemma_candidate_length(file, length, recorded);
            assert forall|j: int|
                0 <= j < files.len() && candidate(
                    #[trigger] files[j],
                    length,
                    recorded,
                ) implies files[j].length.total() <= file.length.total() by {
                if j < i {
                    lemma_longer(files[j], file);
                }
            }
        },
        None => {},
    }
}

impl Recordings {
    /// Finds the file of a published video of that length, recorded at that moment.
    pub fn find(&self, length: Span, recorded: Moment) -> (r: Option<usize>)
        requires
            self.wf(),
            length.wf(),
            length.total() + 7_000_000_000 < span::too_long(),
        ensures
            match (r, match_of(self@, length, recorded)) {
                (Some(i), Some(n)) => i == n && i < self@.len(),
                (None, None) => true,
                _ => false,
            },
            r matches Some(i) ==> {
                let file = self@[i as int];
                &&& i < self@.len()
                &&& file.length.total() <= length.total() + 7_000_000_000
                &&& length.total() <= file.length.total() + 7_000_000_000
                &&& file.recorded.secs as int / 86_400 <= recorded.secs as int / 86_400 + 1
            },
            forall|j: int|
                0 <= j < self@.len() && length.total() < (#[trigger] self@[j]).length.total()
                    + 7_000_000_000 && 0 < self@[j].length.total() <= length.total() + 7_000_000_000
                    && self@[j].recorded.secs as int / 86_400 <= recorded.secs as int / 86_400 + 1
                    ==> {
                    &&& r matches Some(i)
                    &&& self@[j].length.total() <= self@[i as int].length.total()
                    &&& j <= i
                },
            forall|j: int|
                0 <= j < self@.len() && ((#[trigger] self@[j]).length.total() + 7_000_000_000
                    == length.total() || (self@[j].length.total() == 0 && length.total()
                    <= 7_000_000_000)) && self@[j].recorded.secs >= 0
                    && self@[j].recorded.secs as int / 86_400 <= recorded.secs as int / 86_400 + 1
                    ==> (r matches Some(i) && j <= i),
    {
        let seven = Span { secs: 7, nanos: 0 };
        let shortest = length.saturating_sub(&seven);
        let longest = length.checked_add(&seven).unwrap();
        let least = make_video_key(
            &shortest,
            &Moment { secs: 0, nanos: 0 },
            &Vec::new(),
            &Span { secs: 0, nanos: 0 },
        );
        proof {
            span::lemma_total_unique(shortest, Span::of_total(shortest.total()));
            assert(least@ == least_key(length));
        }
        let day: i64 = recorded.day_number();
        let mut best: Option<usize> = None;
        let mut i: usize = 0;
        let ghost files = self@;
        while i < self.videos.len()
            invariant
                i <= self.videos@.len(),
                self.wf(),
                files == self@,
                files == self.videos@,
                length.wf(),
                longest.wf(),
                longest.total() == length.total() + 7_000_000_000,
                least@ == least_key(length),
                day == recorded.day(),
                match (best, last_candidate(files, i as nat, length, recorded)) {
                    (Some(b), Some(n)) => b == n && b < i,
                    (None, None) => true,
                    _ => false,
                },
            decreases self.videos@.len() - i,
        {
            let file = &self.videos[i];
            assert(files[i as int].wf());
            if longest.less(&file.length) {
                proof {
                    assert forall|j: int| i <= j < files.len() implies !candidate(
                        #[trigger] files[j],
                        length,
                        recorded,
                    ) by {
                        if j > i {
                            lemma_longer(files[i as int], files[j]);
                        }
                    }
                    lemma_no_candidates(files, i as nat, files.len(), length, recorded);
                    lemma_match_is_exact(files, length, recorded);
                }
                return best;
            }
            let recorded_day: i64 = file.recorded.day_number();
            if !order::precedes(&file.make_key(), &least) && recorded_day as i128 - day as i128
                <= 1 {
                best = Some(i);
            }
            i = i + 1;
        }
        proof {
            lemma_match_is_exact(self@, length, recorded);
        }
        best
    }
}

/// The length of a published video.
pub open spec fn published_length(item: YouTubeListItem) -> Span {
    Span { secs: item.content_details.duration as u64, nanos: 0 }
}

/// A published video and the place of its file among the recordings, where it has one.
#[derive(Debug)]
pub struct Match {
    pub youtube: YouTubeListItem,
    pub local: Option<usize>,
}

/// Whether a match is that of a published video.
pub open spec fn is_match(m: Match, item: YouTubeListItem, files: Seq<LocalVideo>) -> bool {
    let want = match_of(files, published_length(item), item.recording_details.recording_date);
    &&& m.youtube == item
    &&& match (m.local, want) {
        (Some(got), Some(i)) => got == i && got < files.len(),
        (None, None) => true,
        _ => false,
    }
}

/// Finds the file of each published video.
pub fn match_videos(items: Vec<YouTubeListItem>, files: &Recordings) -> (r: Vec<Match>)
    requires
        files.wf(),
        forall|i: int|
            0 <= i < items@.len() ==> (#[trigger] items@[i]).content_details.duration >= 0,
    ensures
        r@.len() == items@.len(),
        forall|i: int| 0 <= i < r@.len() ==> is_match(#[trigger] r@[i], items@[i], files@),
        forall|i: int|
            0 <= i < r@.len() ==> {
                let item = items@[i];
                let length = Span { secs: item.content_details.duration as u64, nanos: 0 };
                &&& (#[trigger] r@[i]).youtube == item
                &&& match (
                    r@[i].local,
                    match_of(files@, length, item.recording_details.recording_date),
                ) {
                    (Some(got), Some(want)) => got == want && got < files@.len(),
                    (None, None) => true,
                    _ => false,
                }
            },
{
    let ghost all = items@;
    let mut rest = items;
    let mut out: Vec<Match> = Vec::new();
    proof {
        assert(all.skip(0) == all);
    }
    while rest.len() > 0
        invariant
            files.wf(),
            out@.len() + rest@.len() == all.len(),
            rest@ == all.skip(out@.len() as int),
            forall|i: int|
                0 <= i < all.len() ==> (#[trigger] all[i]).content_details.duration >= 0,
            forall|i: int| 0 <= i < out@.len() ==> is_match(#[trigger] out@[i], all[i], files@),
        decreases rest@.len(),
    {
        let ghost n = out@.len() as int;
        let item = rest.remove(0);
        assert(item == all[n]);
        assert(all.skip(n).remove(0) == all.skip(n + 1));
        let length = Span::from_secs(item.content_details.duration as u64);
        let local = files.find(length, item.recording_details.recording_date);
        out.push(Match { youtube: item, local });
    }
    out
}

/// The videos among the first `n` matches that have a file.
pub open spec fn found(matches: Seq<Match>, n: nat) -> Seq<Video>
    decreases n,
{
    if n == 0 {
        Seq::empty()
    } else {
        let rest = found(matches, (n - 1) as nat);
        match matches[n - 1].local {
            Some(local) => rest.push(Video { youtube: matches[n - 1].youtube, local }),
            None => rest,
        }
    }
}

/// Leaves out the videos that have no file.
pub fn keep_found(matches: Vec<Match>) -> (r: Vec<Video>)
    ensures
        r@ == found(matches@, matches@.len()),
        r@ == matches@.filter_map(
            |m: Match|
                match m.local {
                    Some(local) => Some(Video { youtube: m.youtube, local }),
                    None => None,
                },
        ),
{
    let ghost all = matches@;
    let mut rest = matches;
    let mut out: Vec<Video> = Vec::new();
    let ghost mut n: nat = 0;
    proof {
        assert(all.skip(0) == all);
    }
    while rest.len() > 0
        invariant
            n + rest@.len() == all.len(),
            rest@ == all.skip(n as int),
            out@ == found(all, n),
        decreases rest@.len(),
    {
        let m = rest.remove(0);
        proof {
            assert(m == all[n as int]);
            assert(all.skip(n as int).remove(0) == all.skip(n as int + 1));
            n = n + 1;
        }
        if let Some(local) = m.local {
            out.push(Video { youtube: m.youtube, local });
        }
    }
    proof {
        lemma_found_is_filter(all, all.len());
        assert(all.take(all.len() as int) == all);
    }
    out
}

proof fn lemma_found_is_filter(matches: Seq<Match>, n: nat)
    requires
        n <= matches.len(),
    ensures
        found(matches, n) == matches.take(n as int).filter_map(
            |m: Match|
                match m.local {
                    Some(local) => Some(Video { youtube: m.youtube, local }),
                    None => None,
                },
        ),
    decreases n,
{
    reveal(Seq::filter_map);
    let s = matches.take(n as int);
    if n > 0 {
        lemma_found_is_filter(matches, (n - 1) as nat);
        assert(s.drop_last() == matches.take(n - 1));
        assert(s.last() == matches[n - 1]);
    }
}

/// Where a match stands among those that have a file: behind those of the matches before it.
pub proof fn lemma_found_in_order(matches: Seq<Match>, n: nat, i: int)
    requires
        n <= matches.len(),
        0 <= i < n,
        matches[i].local is Some,
    ensures
        ({
            let place = found(matches, i as nat).len() as int;
            &&& place < found(matches, n).len()
            &&& found(matches, n)[place] == (Video {
                youtube: matches[i].youtube,
                local: matches[i].local->0,
            })
        }),
    decreases n,
{
    if i < n - 1 {
        lemma_found_in_order(matches, (n - 1) as nat, i);
    }
}

/// The name of the caption file of a video.
pub open spec fn caption_file_name(date: Seq<char>, id: Seq<char>, title: Seq<char>) -> Seq<char> {
    date + "-"@ + id + "-"@ + text::without_slashes(title) + ".srt"@
}

/// The name of the caption file of a video recorded on that date.
pub fn srt_name(date: &str, id: &str, title: &str) -> (r: String)
    ensures
        r@ == caption_file_name(date@, id@, title@),
        r@ == date@ + "-"@ + id@ + "-"@ + title@.map_values(
            |c: char|
                if c == '/' {
                    '-'
                } else {
                    c
                },
        ) + ".srt"@,
{
    let mut out = String::new();
    out.append(date);
    assert(out@ == date@);
    out.append("-");
    out.append(id);
    out.append("-");
    let plain = text::replace_slashes(title);
    out.append(plain.as_str());
    out.append(".srt");
    out
}

/// The name of the caption file of a published video, by the date on which it was recorded; `None`
/// where the year has no dates.
pub fn srt_file(item: &YouTubeListItem) -> (r: Option<String>)
    ensures
        ({
            let number = item.recording_details.recording_date.day();
            match r {
                Some(name) => exists|year: int, month: int, day: int| #[trigger]
                    calendar::is_day(year, month, day, number) && calendar::FIRST_YEAR <= year
                        <= calendar::LAST_YEAR && name@ == caption_file_name(
                        calendar::date_text(year, month, day),
                        item.id@,
                        item.snippet.title@,
                    ),
                None => forall|year: int, month: int, day: int| #[trigger]
                    calendar::is_day(year, month, day, number) ==> !(calendar::FIRST_YEAR <= year
                        <= calendar::LAST_YEAR),
            }
        }),
{
    let secs: i64 = item.recording_details.recording_date.secs;
    match calendar::date_of_moment(secs) {
        Some(date) => {
            let name = srt_name(date.as_str(), item.id.as_str(), item.snippet.title.as_str());
            proof {
                let (year, month, day) = choose|year: int, month: int, day: int| #[trigger]
                    calendar::is_day(year, month, day, secs as int / 86_400)
                        && calendar::FIRST_YEAR <= year <= calendar::LAST_YEAR && date@
                        == calendar::date_text(year, month, day);
                assert(calendar::is_day(
                    year,
                    month,
                    day,
                    item.recording_details.recording_date.day(),
                ));
            }
            Some(name)
        },
        None => None,
    }
}

/// A date holds no slash.
proof fn lemma_date_is_plain(year: int, month: int, day: int)
    requires
        calendar::is_date(year, month, day),
    ensures
        !calendar::date_text(year, month, day).contains('/'),
{
    let size = if year < 0 {
        (-year) as nat
    } else {
        year as nat
    };
    text::lemma_decimal_digits(size);
    text::lemma_decimal_digits(month as nat);
    text::lemma_decimal_digits(day as nat);
}

/// Whatever the title of a video is, its caption file is one in the current directory: there is no
/// slash in the name, unless there is one in the identifier.
pub proof fn lemma_caption_files_are_local(
    year: int,
    month: int,
    day: int,
    id: Seq<char>,
    title: Seq<char>,
)
    requires
        calendar::is_date(year, month, day),
        !id.contains('/'),
    ensures
        !caption_file_name(calendar::date_text(year, month, day), id, title).contains('/'),
{
    reveal_strlit("-");
    reveal_strlit(".srt");
    lemma_date_is_plain(year, month, day);
    let date = calendar::date_text(year, month, day);
    let plain = text::without_slashes(title);
    assert(!plain.contains('/'));
    let (a, b) = ("-"@, ".srt"@);
    assert(!a.contains('/') && !b.contains('/'));
    lemma_no_slash(date, a);
    lemma_no_slash(date + a, id);
    lemma_no_slash(date + a + id, a);
    lemma_no_slash(date + a + id + a, plain);
    lemma_no_slash(date + a + id + a + plain, b);
}

proof fn lemma_no_slash(a: Seq<char>, b: Seq<char>)
    requires
        !a.contains('/'),
        !b.contains('/'),
    ensures
        !(a + b).contains('/'),
{
    if (a + b).contains('/') {
        let i = choose|i: int| 0 <= i < (a + b).len() && (a + b)[i] == '/';
        if i < a.len() {
            assert(a[i] == '/');
        } else {
            assert(b[i - a.len()] == '/');
        }
    }
}

/// What makes a file a candidate: it is at most seven seconds longer than the video and was recorded
/// no later than the day after, and it is less than seven seconds shorter; exactly seven seconds
/// shorter, or empty where the video is no longer than that, it may be if it is from 1970 or later.
pub proof fn lemma_candidate_is(file: LocalVideo, length: Span, recorded: Moment)
    requires
        file.wf(),
        length.wf(),
    ensures
        candidate(file, length, recorded) <==> {
            let t = file.length.total() as int;
            let low = if length.total() >= 7_000_000_000 {
                length.total() - 7_000_000_000
            } else {
                0
            };
            &&& t <= length.total() + 7_000_000_000
            &&& file.recorded.secs as int / 86_400 <= recorded.secs as int / 86_400 + 1
            &&& t > low || (t == low && file.recorded.secs >= 0)
        },
{
    let low = (if length.total() >= 7_000_000_000 {
        length.total() - 7_000_000_000
    } else {
        0
    }) as nat;
    let shortest = Span::of_total(low);
    assert(shortest.wf() && shortest.total() == low);
    let (key, least) = (file.key(), least_key(length));
    let none = path_key(Seq::<PathPart>::empty(), 0);
    assert(none.len() == 0);
    assert(least.len() == 7);
    assert(least[0] == shortest.secs && least[1] == shortest.nanos);
    assert(least[2] == 0 && least[3] == 0 && least[4] == 0 && least[5] == 0 && least[6] == 0);
    assert(key[0] == file.length.secs && key[1] == file.length.nanos);
    assert(key[2] == file.recorded.secs && key[3] == file.recorded.nanos);
    if key[0] != least[0] {
        assert(key.take(0) == least.take(0));
        lemma_first_difference(key, least, 0);
    } else if key[1] != least[1] {
        assert(key.take(1) == least.take(1));
        lemma_first_difference(key, least, 1);
    } else if key[2] != least[2] {
        assert(key.take(2) == least.take(2));
        lemma_first_difference(key, least, 2);
    } else if key[3] != least[3] {
        assert(key.take(3) == least.take(3));
        lemma_first_difference(key, least, 3);
    } else {
        let path = path_key(file.path@, file.path@.len());
        assert(key.take(4) == least.take(4));
        if file.path@.len() > 0 {
            lemma_path_key_start(file.path@, file.path@.len());
            assert(key[4] == path[0]);
            lemma_first_difference(key, least, 4);
        } else {
            assert(path.len() == 0);
            assert(key[4] == 0 && key[5] == file.delay.secs && key[6] == file.delay.nanos);
            assert(key.len() == 7);
            if key[5] != 0 {
                assert(key.take(5) == least.take(5));
                lemma_first_difference(key, least, 5);
            } else if key[6] != 0 {
                assert(key.take(6) == least.take(6));
                lemma_first_difference(key, least, 6);
            } else {
                assert(key == least);
                order::lemma_irreflexive(key);
            }
        }
    }
}

/// The key of a path that is not empty starts with a positive number.
proof fn lemma_path_key_start(parts: Seq<PathPart>, n: nat)
    requires
        0 < n <= parts.len(),
    ensures
        path_key(parts, n).len() > 0,
        path_key(parts, n)[0] > 0,
    decreases n,
{
    lemma_part_key(parts[n - 1], parts[n - 1]);
    if n > 1 {
        lemma_path_key_start(parts, (n - 1) as nat);
        assert(path_key(parts, n)[0] == path_key(parts, (n - 1) as nat)[0]);
    } else {
        assert(path_key(parts, 0).len() == 0);
        assert(path_key(parts, n)[0] == part_key(parts[0])[0]);
    }
}

/// No file is missed: where one is near enough in length and was recorded no later than the day
/// after the video, one is found, and it is the last of those that are in order, hence at least as
/// long as each of them. What is found is near enough.
pub proof fn lemma_match_is_exact(files: Seq<LocalVideo>, length: Span, recorded: Moment)
    requires
        ordered(files),
        forall|i: int| 0 <= i < files.len() ==> (#[trigger] files[i]).wf(),
        length.wf(),
    ensures
        match_of(files, length, recorded) matches Some(i) ==> {
            let file = files[i as int];
            &&& i < files.len()
            &&& file.length.total() <= length.total() + 7_000_000_000
            &&& length.total() <= file.length.total() + 7_000_000_000
            &&& file.recorded.secs as int / 86_400 <= recorded.secs as int / 86_400 + 1
        },
        forall|j: int|
            0 <= j < files.len() && length.total() < (#[trigger] files[j]).length.total()
                + 7_000_000_000 && 0 < files[j].length.total() <= length.total() + 7_000_000_000
                && files[j].recorded.secs as int / 86_400 <= recorded.secs as int / 86_400 + 1 ==> {
                &&& match_of(files, length, recorded) matches Some(i)
                &&& files[j].length.total() <= files[i as int].length.total()
                &&& j <= i
            },
        forall|j: int|
            0 <= j < files.len() && ((#[trigger] files[j]).length.total() + 7_000_000_000
                == length.total() || (files[j].length.total() == 0 && length.total()
                <= 7_000_000_000)) && files[j].recorded.secs >= 0 && files[j].recorded.secs as int
                / 86_400 <= recorded.secs as int / 86_400 + 1 ==> (match_of(files, length, recorded)
                matches Some(i) && j <= i),
{
    lemma_last_candidate(files, files.len(), length, recorded);
    lemma_match_is_near(files, length, recorded);
    assert forall|j: int|
        0 <= j < files.len() && length.total() < (#[trigger] files[j]).length.total()
            + 7_000_000_000 && 0 < files[j].length.total() <= length.total() + 7_000_000_000
            && files[j].recorded.secs as int / 86_400 <= recorded.secs as int / 86_400
            + 1 implies {
        &&& match_of(files, length, recorded) matches Some(i)
        &&& files[j].length.total() <= files[i as int].length.total()
        &&& j <= i
    } by {
        lemma_candidate_is(files[j], length, recorded);
        assert(candidate(files[j], length, recorded));
    }
    assert forall|j: int|
        0 <= j < files.len() && ((#[trigger] files[j]).length.total() + 7_000_000_000
            == length.total() || (files[j].length.total() == 0 && length.total()
            <= 7_000_000_000)) && files[j].recorded.secs >= 0 && files[j].recorded.secs as int
            / 86_400 <= recorded.secs as int / 86_400 + 1 implies (match_of(
        files,
        length,
        recorded,
    ) matches Some(i) && j <= i) by {
        lemma_candidate_is(files[j], length, recorded);
        assert(candidate(files[j], length, recorded));
    }
}

/// Paths that are the same in their first parts have keys that start alike.
proof fn lemma_path_prefix(a: Seq<PathPart>, b: Seq<PathPart>, k: nat)
    requires
        k <= a.len(),
        k <= b.len(),
        forall|i: int| 0 <= i < k ==> same_part(#[trigger] a[i], b[i]),
    ensures
        path_key(a, k) == path_key(b, k),
    decreases k,
{
    if k > 0 {
        lemma_path_prefix(a, b, (k - 1) as nat);
        let (p, q) = (a[k - 1], b[k - 1]);
        assert(same_part(p, q));
        assert(part_key(p) == part_key(q));
    }
}

/// The key of a path starts with that of its first parts.
proof fn lemma_path_start(a: Seq<PathPart>, k: nat, n: nat)
    requires
        k <= n <= a.len(),
    ensures
        path_key(a, k).len() <= path_key(a, n).len(),
        path_key(a, n).take(path_key(a, k).len() as int) == path_key(a, k),
    decreases n,
{
    if k < n {
        lemma_path_start(a, k, (n - 1) as nat);
        let (short, long) = (path_key(a, (n - 1) as nat), path_key(a, n));
        let l = path_key(a, k).len() as int;
        assert(long.take(l) == short.take(l));
    } else {
        assert(path_key(a, n).take(path_key(a, n).len() as int) == path_key(a, n));
    }
}

/// Where the key of a part stands in that of a file, and the zero behind it.
proof fn lemma_part_place(file: LocalVideo, k: nat)
    requires
        k <= file.path@.len(),
    ensures
        ({
            let at = 4 + path_key(file.path@, k).len() as int;
            let key = file.key();
            &&& at < key.len()
            &&& key.take(at) == seq![
                file.length.secs as i128,
                file.length.nanos as i128,
                file.recorded.secs as i128,
                file.recorded.nanos as i128,
            ] + path_key(file.path@, k)
            &&& k == file.path@.len() ==> key.skip(at) == seq![
                0,
                file.delay.secs as i128,
                file.delay.nanos as i128,
            ]
            &&& k < file.path@.len() ==> {
                let part = part_key(file.path@[k as int]).push(0);
                at + part.len() <= key.len() && key.subrange(at, at + part.len()) == part
            }
        }),
{
    let parts = file.path@;
    let n = parts.len();
    let key = file.key();
    let all = path_key(parts, n);
    let head = seq![
        file.length.secs as i128,
        file.length.nanos as i128,
        file.recorded.secs as i128,
        file.recorded.nanos as i128,
    ];
    let end = seq![0, file.delay.secs as i128, file.delay.nanos as i128];
    assert(key == head + all + end);
    lemma_path_start(parts, k, n);
    let first = path_key(parts, k);
    let at = 4 + first.len() as int;
    assert(key.take(at) == head + all.take(first.len() as int));
    if k < n {
        lemma_path_start(parts, k + 1, n);
        let part = part_key(parts[k as int]).push(0);
        let longer = path_key(parts, k + 1);
        assert(longer == first + part);
        assert(all.take(longer.len() as int) == longer);
        assert(key.subrange(at, at + part.len()) == part) by {
            assert forall|i: int| 0 <= i < part.len() implies key[at + i] == part[i] by {
                assert(key[at + i] == all[first.len() + i]);
                assert(all.take(longer.len() as int)[first.len() + i] == longer[first.len() + i]);
            }
        }
    } else {
        assert(key.skip(at) == end);
    }
}

/// Files are in the order of their lengths, of two with the same length in that of their
/// recording, then in that of their paths, and then in that of their delays. Paths are ordered part
/// by part: a path that ends comes first, the root before `.`, that before `..`, that before names,
/// and names by their bytes.
pub proof fn lemma_order_of_files(a: LocalVideo, b: LocalVideo, k: nat)
    requires
        a.wf(),
        b.wf(),
        k <= a.path@.len(),
        k <= b.path@.len(),
        forall|i: int| 0 <= i < k ==> same_part(#[trigger] a.path@[i], b.path@[i]),
    ensures
        a.length.total() < b.length.total() ==> order::before(a.key(), b.key()),
        a.length == b.length && (a.recorded.secs < b.recorded.secs || (a.recorded.secs
            == b.recorded.secs && a.recorded.nanos < b.recorded.nanos)) ==> order::before(
            a.key(),
            b.key(),
        ),
        a.length == b.length && a.recorded == b.recorded ==> {
            let rank = |p: PathPart|
                match p {
                    PathPart::Root => 0int,
                    PathPart::Current => 1,
                    PathPart::Parent => 2,
                    PathPart::Named(_) => 3,
                };
            let (la, lb) = (a.path@.len(), b.path@.len());
            let (p, q) = (a.path@[k as int], b.path@[k as int]);
            &&& k == la && k < lb ==> order::before(a.key(), b.key())
            &&& k < la && k < lb && rank(p) < rank(q) ==> order::before(a.key(), b.key())
            &&& k < la && k < lb && p is Named && q is Named ==> forall|m: int|
                0 <= m <= p->Named_0@.len() && m < q->Named_0@.len() && #[trigger] p->Named_0@.take(
                    m,
                ) == q->Named_0@.take(m) && (m == p->Named_0@.len() || p->Named_0@[m]
                    < q->Named_0@[m]) ==> order::before(a.key(), b.key())
            &&& k == la && k == lb && a.delay.total() < b.delay.total() ==> order::before(
                a.key(),
                b.key(),
            )
        },
{
    let (ka, kb) = (a.key(), b.key());
    lemma_part_place(a, 0);
    lemma_part_place(b, 0);
    assert(ka[0] == a.length.secs && ka[1] == a.length.nanos);
    assert(kb[0] == b.length.secs && kb[1] == b.length.nanos);
    assert(ka[2] == a.recorded.secs && ka[3] == a.recorded.nanos);
    assert(kb[2] == b.recorded.secs && kb[3] == b.recorded.nanos);
    if a.length != b.length {
        if ka[0] != kb[0] {
            assert(ka.take(0) == kb.take(0));
            lemma_first_difference(ka, kb, 0);
        } else {
            assert(ka.take(1) == kb.take(1));
            lemma_first_difference(ka, kb, 1);
        }
    } else if a.recorded != b.recorded {
        if ka[2] != kb[2] {
            assert(ka.take(2) == kb.take(2));
            lemma_first_difference(ka, kb, 2);
        } else {
            assert(ka.take(3) == kb.take(3));
            lemma_first_difference(ka, kb, 3);
        }
    } else {
        lemma_order_of_paths(a, b, k);
    }
}

proof fn lemma_order_of_paths(a: LocalVideo, b: LocalVideo, k: nat)
    requires
        a.wf(),
        b.wf(),
        a.length == b.length,
        a.recorded == b.recorded,
        k <= a.path@.len(),
        k <= b.path@.len(),
        forall|i: int| 0 <= i < k ==> same_part(#[trigger] a.path@[i], b.path@[i]),
    ensures
        ({
            let rank = |p: PathPart|
                match p {
                    PathPart::Root => 0int,
                    PathPart::Current => 1,
                    PathPart::Parent => 2,
                    PathPart::Named(_) => 3,
                };
            let (la, lb) = (a.path@.len(), b.path@.len());
            let (p, q) = (a.path@[k as int], b.path@[k as int]);
            &&& k == la && k < lb ==> order::before(a.key(), b.key())
            &&& k < la && k < lb && rank(p) < rank(q) ==> order::before(a.key(), b.key())
            &&& k < la && k < lb && p is Named && q is Named ==> forall|m: int|
                0 <= m <= p->Named_0@.len() && m < q->Named_0@.len() && #[trigger] p->Named_0@.take(
                    m,
                ) == q->Named_0@.take(m) && (m == p->Named_0@.len() || p->Named_0@[m]
                    < q->Named_0@[m]) ==> order::before(a.key(), b.key())
            &&& k == la && k == lb && a.delay.total() < b.delay.total() ==> order::before(
                a.key(),
                b.key(),
            )
        }),
{
    let (ka, kb) = (a.key(), b.key());
    let (la, lb) = (a.path@.len(), b.path@.len());
    lemma_path_prefix(a.path@, b.path@, k);
    lemma_part_place(a, k);
    lemma_part_place(b, k);
    let at = 4 + path_key(a.path@, k).len() as int;
    assert(ka.take(at) == kb.take(at));
    if k == la && k < lb {
        let q = part_key(b.path@[k as int]).push(0);
        lemma_part_key(b.path@[k as int], b.path@[k as int]);
        assert(ka.skip(at)[0] == ka[at]);
        assert(kb.subrange(at, at + q.len())[0] == kb[at]);
        assert(q[0] == part_key(b.path@[k as int])[0]);
        lemma_first_difference(ka, kb, at);
    } else if k < la && k < lb {
        let (p, q) = (a.path@[k as int], b.path@[k as int]);
        let (kp, kq) = (part_key(p).push(0), part_key(q).push(0));
        assert(ka.subrange(at, at + kp.len())[0] == ka[at]);
        assert(kb.subrange(at, at + kq.len())[0] == kb[at]);
        if kp[0] != kq[0] {
            lemma_first_difference(ka, kb, at);
        } else if p is Named && q is Named {
            let (x, y) = (p->Named_0@, q->Named_0@);
            assert forall|m: int|
                0 <= m <= x.len() && m < y.len() && #[trigger] x.take(m) == y.take(m) && (m
                    == x.len() || x[m] < y[m]) implies order::before(ka, kb) by {
                let place = at + 1 + m;
                assert(kp.len() == x.len() + 2 && kq.len() == y.len() + 2);
                assert forall|i: int| 1 <= i <= m implies #[trigger] kp[i] == kq[i] by {
                    assert(x.take(m)[i - 1] == y.take(m)[i - 1]);
                    assert(kp[i] == x[i - 1] + 1 && kq[i] == y[i - 1] + 1);
                }
                assert(ka.take(place) == kb.take(place)) by {
                    assert forall|i: int| 0 <= i < place implies ka[i] == kb[i] by {
                        if i < at {
                            assert(ka.take(at)[i] == kb.take(at)[i]);
                        } else {
                            assert(ka.subrange(at, at + kp.len())[i - at] == ka[i]);
                            assert(kb.subrange(at, at + kq.len())[i - at] == kb[i]);
                            if i > at {
                                assert(kp[i - at] == kq[i - at]);
                            }
                        }
                    }
                }
                assert(ka.subrange(at, at + kp.len())[1 + m] == ka[place]);
                assert(kb.subrange(at, at + kq.len())[1 + m] == kb[place]);
                assert(kq[1 + m] == y[m] + 1);
                if m < x.len() {
                    assert(kp[1 + m] == x[m] + 1);
                } else {
                    assert(kp[1 + m] == 0);
                }
                lemma_first_difference(ka, kb, place);
            }
        }
    } else if k == la && k == lb && a.delay.total() < b.delay.total() {
        assert(ka.skip(at)[0] == ka[at] && ka.skip(at)[1] == ka[at + 1] && ka.skip(at)[2] == ka[at
            + 2]);
        assert(kb.skip(at)[0] == kb[at] && kb.skip(at)[1] == kb[at + 1] && kb.skip(at)[2] == kb[at
            + 2]);
        if ka[at + 1] != kb[at + 1] {
            assert(ka.take(at + 1) == ka.take(at).push(ka[at]));
            assert(kb.take(at + 1) == kb.take(at).push(kb[at]));
            lemma_first_difference(ka, kb, at + 1);
        } else {
            assert(ka.take(at + 2) == ka.take(at).push(ka[at]).push(ka[at + 1]));
            assert(kb.take(at + 2) == kb.take(at).push(kb[at]).push(kb[at + 1]));
            lemma_first_difference(ka, kb, at + 2);
        }
    }
}

/// The caption file of a video is named by its date, its identifier and its title, in which dashes
/// stand for slashes.
pub proof fn lemma_caption_file_name(date: Seq<char>, id: Seq<char>, title: Seq<char>)
    ensures
        caption_file_name(date, id, title).len() == date.len() + id.len() + title.len() + 6,
        caption_file_name(date, id, title).take(date.len() as int) == date,
        caption_file_name(date, id, title)[date.len() as int] == '-',
        caption_file_name(date, id, title).subrange(
            date.len() as int + 1,
            date.len() as int + 1 + id.len(),
        ) == id,
        caption_file_name(date, id, title)[date.len() as int + 1 + id.len()] == '-',
        forall|i: int|
            0 <= i < title.len() ==> caption_file_name(date, id, title)[#[trigger] (date.len() as int
                + 2 + id.len() + i)] == if title[i] == '/' {
                '-'
            } else {
                title[i]
            },
        caption_file_name(date, id, title).skip(date.len() as int + 2 + id.len() + title.len())
            == seq!['.', 's', 'r', 't'],
{
    reveal_strlit("-");
    reveal_strlit(".srt");
    let name = caption_file_name(date, id, title);
    assert(name.take(date.len() as int) == date);
    assert(name.subrange(date.len() as int + 1, date.len() as int + 1 + id.len()) == id);
    assert(name.skip(date.len() as int + 2 + id.len() + title.len()) == seq!['.', 's', 'r', 't']);
}

} // verus!
