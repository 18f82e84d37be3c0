//! The entries of a subtitle file.

use crate::captions::Prediction;
use crate::double::Double;
use crate::number;
use crate::text;
use crate::timestamp;
use vstd::prelude::*;

verus! {

/// Whether a time stamp can show a moment: it is finite, and not below zero.
pub open spec fn can_show(seconds: Double) -> bool {
    seconds.finite() && seconds.value() >= 0
}

/// An entry: its number, from when to when it is shown, and its text. An empty line stands before
/// each entry but the first.
pub open spec fn entry(index: nat, caption: Prediction) -> Seq<char> {
    let before = if index == 0 {
        Seq::empty()
    } else {
        seq!['\n']
    };
    (before + text::decimal(index + 1)).push('\n') + timestamp::timestamp(caption.time_begin)
        + " --> "@ + timestamp::timestamp(caption.time_end).push('\n')
        + caption.transcription@.push('\n')
}

fn showable(seconds: Double) -> (r: bool)
    ensures
        r == can_show(seconds),
{
    seconds.is_finite() && (!seconds.is_sign_negative() || seconds.is_zero())
}

/// Writes the entry of a caption; `None` where a time stamp cannot show when it begins or ends.
pub fn srt_entry(index: usize, caption: &Prediction) -> (r: Option<String>)
    ensures
        r is Some <==> can_show(caption.time_begin) && can_show(caption.time_end),
        r is Some <==> {
            &&& caption.time_begin.finite() && caption.time_begin.value() >= 0
            &&& caption.time_end.finite() && caption.time_end.value() >= 0
        },
        r matches Some(s) ==> s@ == entry(index as nat, *caption),
{
    let begin = caption.time_begin;
    let end = caption.time_end;
    if !showable(begin) || !showable(end) {
        return None;
    }
    let mut out = String::new();
    if index != 0 {
        out.push('\n');
    }
    let ghost before = out@;
    assert(before == if index == 0 {
        Seq::<char>::empty()
    } else {
        seq!['\n']
    });
    text::push_decimal(&mut out, index as u128 + 1);
    out.push('\n');
    out.append(timestamp::seconds_to_timestamp(begin).as_str());
    out.append(" --> ");
    let ghost front = out@;
    out.append(timestamp::seconds_to_timestamp(end).as_str());
    out.push('\n');
    assert(out@ == front + timestamp::timestamp(end).push('\n'));
    let ghost front = out@;
    out.append(caption.transcription.as_str());
    out.push('\n');
    assert(out@ == front + caption.transcription@.push('\n'));
    Some(out)
}

/// An entry says which one it is, when it is shown, and what it says. Behind an empty line, which
/// the first entry has not, its number stands on a line of its own: digits without a zero in front
/// that read back as one more than the entries before it. On the next line stand the time stamps of
/// its beginning and end, and behind it its text.
pub proof fn lemma_entry_reads_back(index: nat, caption: Prediction)
    ensures
        index > 0 ==> entry(index, caption)[0] == '\n',
        exists|k: int|
            #![trigger entry(index, caption)[k]]
            {
                let e = entry(index, caption);
                let from = if index == 0 {
                    0int
                } else {
                    1
                };
                let number_line = e.subrange(from, k);
                &&& from < k < e.len()
                &&& e[k] == '\n'
                &&& forall|i: int| from <= i < k ==> '0' <= #[trigger] e[i] && e[i] <= '9'
                &&& e[from] != '0'
                &&& number::digits_value(number_line) == index + 1
                &&& e.skip(k + 1) == timestamp::timestamp(caption.time_begin) + " --> "@
                    + timestamp::timestamp(caption.time_end) + seq!['\n'] + caption.transcription@
                    + seq!['\n']
            },
{
    let e = entry(index, caption);
    let before = if index == 0 {
        Seq::empty()
    } else {
        seq!['\n']
    };
    let from = before.len() as int;
    let d = text::decimal(index + 1);
    number::lemma_decimal_reads_back(index + 1);
    let k = from + d.len();
    assert(e.subrange(from, k) == d);
    assert(e[k] == '\n');
    assert forall|i: int| from <= i < k implies '0' <= #[trigger] e[i] && e[i] <= '9' by {
        assert(e[i] == d[i - from]);
    }
    assert(e[from] == d[0]);
    assert(e.skip(k + 1) == timestamp::timestamp(caption.time_begin) + " --> "@
        + timestamp::timestamp(caption.time_end) + seq!['\n'] + caption.transcription@ + seq!['\n']);
}

/// Entries are numbered one after the other: the number of an entry is one more than that of the
/// entry before, whatever the captions are.
pub proof fn lemma_entries_count_up(
    index: nat,
    caption: Prediction,
    next: Prediction,
    j: int,
    k: int,
)
    requires
        ({
            let (e, f) = (entry(index, caption), entry(index + 1, next));
            let from = if index == 0 {
                0int
            } else {
                1
            };
            &&& from <= j < e.len() && e[j] == '\n'
            &&& 1 <= k < f.len() && f[k] == '\n'
            &&& forall|i: int| from <= i < j ==> #[trigger] e[i] != '\n'
            &&& forall|i: int| 1 <= i < k ==> #[trigger] f[i] != '\n'
        }),
    ensures
        ({
            let (e, f) = (entry(index, caption), entry(index + 1, next));
            let from = if index == 0 {
                0int
            } else {
                1
            };
            number::digits_value(f.subrange(1, k)) == number::digits_value(e.subrange(from, j)) + 1
        }),
{
    lemma_entry_reads_back(index, caption);
    lemma_entry_reads_back(index + 1, next);
    let (e, f) = (entry(index, caption), entry(index + 1, next));
    let from = if index == 0 {
        0int
    } else {
        1
    };
    let p = choose|p: int|
        from < p < e.len() && #[trigger] e[p] == '\n' && (forall|i: int|
            from <= i < p ==> '0' <= #[trigger] e[i] && e[i] <= '9') && number::digits_value(
            e.subrange(from, p),
        ) == index + 1;
    let q = choose|q: int|
        1 < q < f.len() && #[trigger] f[q] == '\n' && (forall|i: int|
            1 <= i < q ==> '0' <= #[trigger] f[i] && f[i] <= '9') && number::digits_value(
            f.subrange(1, q),
        ) == index + 2;
    assert(p == j);
    assert(q == k);
}

} // verus!
