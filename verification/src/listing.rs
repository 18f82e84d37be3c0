//! Questions to the video service: which videos there are, and what they are like.

use vstd::prelude::*;

verus! {

/// How many videos one question for details names.
pub const BATCH: usize = 50;

/// The end of a search URL: the token of the page that is wanted.
pub open spec fn page_parameter(token: Option<Seq<char>>) -> Seq<char> {
    match token {
        Some(t) => "&pageToken="@ + t,
        None => Seq::empty(),
    }
}

/// The URL of a page of the long videos of a channel that have no captions.
pub open spec fn search_address(
    channel: Seq<char>,
    key: Seq<char>,
    token: Option<Seq<char>>,
) -> Seq<char> {
    "https://youtube.googleapis.com/youtube/v3/search?part=snippet&channelId="@ + channel
        + "&key="@ + key
        + "&order=date&maxResults=100&type=video&fields=nextPageToken,items(id)&videoDuration=long&videoCaption=none"@
        + page_parameter(token)
}

/// The URL of the details of videos, their identifiers separated by commas.
pub open spec fn details_address(ids: Seq<char>, key: Seq<char>) -> Seq<char> {
    "https://www.googleapis.com/youtube/v3/videos?part=snippet,recordingDetails,contentDetails&fields=items(id,snippet(title),recordingDetails(recordingDate),contentDetails(duration))&id="@
        + ids + "&maxResults=50&key="@ + key
}

pub open spec fn token_view(token: Option<String>) -> Option<Seq<char>> {
    match token {
        Some(t) => Some(t@),
        None => None,
    }
}

/// Makes the URL of a page of the long videos of a channel that have no captions.
pub fn search_url(channel: &str, key: &str, token: &Option<String>) -> (r: String)
    ensures
        r@ == search_address(channel@, key@, token_view(*token)),
        r@ == "https://youtube.googleapis.com/youtube/v3/search?part=snippet&channelId="@ + channel@
            + "&key="@ + key@
            + "&order=date&maxResults=100&type=video&fields=nextPageToken,items(id)&videoDuration=long&videoCaption=none"@
            + (match *token {
            Some(t) => "&pageToken="@ + t@,
            None => Seq::empty(),
        }),
{
    let mut out = String::new();
    out.append("https://youtube.googleapis.com/youtube/v3/search?part=snippet&channelId=");
    assert(out@
        == "https://youtube.googleapis.com/youtube/v3/search?part=snippet&channelId="@);
    out.append(channel);
    out.append("&key=");
    out.append(key);
    out.append(
        "&order=date&maxResults=100&type=video&fields=nextPageToken,items(id)&videoDuration=long&videoCaption=none",
    );
    match token {
        Some(t) => {
            let ghost front = out@;
            out.append("&pageToken=");
            out.append(t.as_str());
            assert(out@ == front + page_parameter(Some(t@)));
        },
        None => {
            assert(out@ + page_parameter(None) == out@);
        },
    }
    out
}

/// Makes the URL of the details of videos, their identifiers separated by commas.
pub fn details_url(ids: &str, key: &str) -> (r: String)
    ensures
        r@ == details_address(ids@, key@),
        r@ == "https://www.googleapis.com/youtube/v3/videos?part=snippet,recordingDetails,contentDetails&fields=items(id,snippet(title),recordingDetails(recordingDate),contentDetails(duration))&id="@
            + ids@ + "&maxResults=50&key="@ + key@,
{
    let mut out = String::new();
    out.append(
        "https://www.googleapis.com/youtube/v3/videos?part=snippet,recordingDetails,contentDetails&fields=items(id,snippet(title),recordingDetails(recordingDate),contentDetails(duration))&id=",
    );
    assert(out@
        == "https://www.googleapis.com/youtube/v3/videos?part=snippet,recordingDetails,contentDetails&fields=items(id,snippet(title),recordingDetails(recordingDate),contentDetails(duration))&id="@);
    out.append(ids);
    out.append("&maxResults=50&key=");
    out.append(key);
    out
}

/// Identifiers separated by commas; empty ones at the start are left out.
pub open spec fn joined_ids(ids: Seq<String>) -> Seq<char>
    decreases ids.len(),
{
    if ids.len() == 0 {
        Seq::empty()
    } else {
        let front = joined_ids(ids.drop_last());
        if front.len() == 0 {
            ids.last()@
        } else {
            front.push(',') + ids.last()@
        }
    }
}

/// Where a batch of videos ends.
pub open spec fn batch_end(from: int, total: int) -> int {
    if from + BATCH <= total {
        from + BATCH
    } else {
        total
    }
}

/// Joins the identifiers of a batch, separated by commas.
pub fn join_ids(ids: &Vec<String>, from: usize, to: usize) -> (r: String)
    requires
        from <= to <= ids@.len(),
    ensures
        r@ == joined_ids(ids@.subrange(from as int, to as int)),
{
    let mut out = String::new();
    let mut i: usize = from;
    while i < to
        invariant
            from <= i <= to <= ids@.len(),
            out@ == joined_ids(ids@.subrange(from as int, i as int)),
        decreases to - i,
    {
        proof {
            let longer = ids@.subrange(from as int, i + 1);
            assert(longer.drop_last() == ids@.subrange(from as int, i as int));
            assert(longer.last() == ids@[i as int]);
        }
        if out.as_str().unicode_len() == 0 {
            out = ids[i].clone();
        } else {
            out.append(",");
            proof {
                reveal_strlit(",");
                assert(","@ == seq![',']);
            }
            out.append(ids[i].as_str());
        }
        i = i + 1;
    }
    out
}

/// Makes the URLs of the details of videos, for a batch of them at a time.
pub fn details_urls(ids: &Vec<String>, key: &str) -> (r: Vec<String>)
    ensures
        r@.len() == (ids@.len() + BATCH - 1) / BATCH as int,
        r@.len() == (ids@.len() + 49) / 50,
        forall|b: int|
            0 <= b < r@.len() ==> (#[trigger] r@[b])@
                == "https://www.googleapis.com/youtube/v3/videos?part=snippet,recordingDetails,contentDetails&fields=items(id,snippet(title),recordingDetails(recordingDate),contentDetails(duration))&id="@
                + joined_ids(
                ids@.subrange(
                    50 * b,
                    if 50 * b + 50 <= ids@.len() {
                        50 * b + 50
                    } else {
                        ids@.len() as int
                    },
                ),
            ) + "&maxResults=50&key="@ + key@,
        forall|b: int|
            0 <= b < r@.len() ==> (#[trigger] r@[b])@ == details_address(
                joined_ids(
                    ids@.subrange(b * BATCH, batch_end(b * BATCH, ids@.len() as int)),
                ),
                key@,
            ),
{
    let mut out: Vec<String> = Vec::new();
    let mut from: usize = 0;
    while from < ids.len()
        invariant
            from <= ids@.len(),
            from == out@.len() * BATCH || from == ids@.len(),
            out@.len() == (from + BATCH - 1) / BATCH as int,
            forall|b: int|
                0 <= b < out@.len() ==> (#[trigger] out@[b])@ == details_address(
                    joined_ids(
                        ids@.subrange(b * BATCH, batch_end(b * BATCH, ids@.len() as int)),
                    ),
                    key@,
                ),
        decreases ids@.len() - from,
    {
        let to: usize = if ids.len() - from >= BATCH {
            from + BATCH
        } else {
            ids.len()
        };
        let joined = join_ids(ids, from, to);
        out.push(details_url(joined.as_str(), key));
        from = to;
    }
    out
}

/// Each video is asked about in exactly one batch, and no batch is too large.
pub proof fn lemma_batches_cover(total: int, i: int, b: int)
    requires
        0 <= i < total,
        0 <= b < (total + BATCH - 1) / BATCH as int,
    ensures
        0 < batch_end(b * BATCH, total) - b * BATCH <= BATCH,
        b * BATCH <= i < batch_end(b * BATCH, total) <==> b == i / BATCH as int,
        i / (BATCH as int) < (total + BATCH - 1) / (BATCH as int),
{
}

/// The search for videos, page by page.
pub struct Search {
    /// The identifiers found so far.
    pub found: Vec<String>,
    /// The token of the page that is wanted next.
    pub token: Option<String>,
}

impl Search {
    pub fn new() -> (r: Self)
        ensures
            r.found@ == Seq::<String>::empty(),
            r.token is None,
    {
        Search { found: Vec::new(), token: None }
    }

    /// Takes a page of identifiers with the token of the page after it; says whether there is one.
    pub fn take_page(&mut self, ids: Vec<String>, next: Option<String>) -> (more: bool)
        ensures
            final(self).found@ == old(self).found@ + ids@,
            final(self).token == next,
            more == (next is Some),
    {
        let mut page = ids;
        self.found.append(&mut page);
        let more: bool = next.is_some();
        self.token = next;
        more
    }
}

/// Identifiers are joined one after the other, with a comma before each but the first.
pub proof fn lemma_joined_one_by_one(ids: Seq<String>, id: String)
    ensures
        joined_ids(Seq::empty()) == Seq::<char>::empty(),
        joined_ids(seq![id]) == id@,
        joined_ids(ids).len() > 0 ==> joined_ids(ids.push(id)) == joined_ids(ids) + seq![','] + id@,
        joined_ids(ids).len() == 0 ==> joined_ids(ids.push(id)) == id@,
        ids.len() > 0 && (forall|i: int| 0 <= i < ids.len() ==> (#[trigger] ids[i])@.len() > 0)
            ==> joined_ids(ids).len() > 0,
{
    reveal_with_fuel(joined_ids, 2);
    assert(seq![id].drop_last() == Seq::<String>::empty());
    assert(ids.push(id).drop_last() == ids);
    if joined_ids(ids).len() > 0 {
        assert(joined_ids(ids).push(',') + id@ == joined_ids(ids) + seq![','] + id@);
    }
    if ids.len() > 0 && forall|i: int| 0 <= i < ids.len() ==> (#[trigger] ids[i])@.len() > 0 {
        assert(ids[ids.len() - 1]@.len() > 0);
    }
}

} // verus!
