//! Append-only, segmented write-ahead log for records. Each frame is
//! `[u64 length LE][postcard((stream, shard_id, record))]`. The length prefix makes a
//! crash-truncated trailing frame detectable on replay. A segment is dropped whole once every
//! stream in it was deleted or has outlived its retention there, so there is never a full-store
//! serialization.
//!
//! The files themselves are read and written by the caller: this module makes and reads the
//! bytes, and decides what is to be written, opened, cut or removed.
pub use crate::store::Entry;
use crate::store::{
    at_most, entries_view, entry_view, find_retention, retention_of, retentions_view, EntryV,
};
use crate::streams::{first_where, lemma_first_where, lemma_first_where_is, Record};
use crate::text::{
    join3, lemma_padded_round_trip, padded, padded_text, parse_decimal, parse_number, push_bytes,
    str_eq, strip_prefix, strip_suffix, without_prefix, without_suffix,
};
use vstd::bytes::{
    lemma_auto_spec_u64_to_from_le_bytes, spec_u64_from_le_bytes, spec_u64_to_le_bytes,
    u64_from_le_bytes, u64_to_le_bytes,
};
use vstd::prelude::*;
use vstd::slice::slice_subrange;
use vstd::string::StringExecFns;

verus! {

// ---- frames ------------------------------------------------------------------

/// The postcard encoding of a log entry.
pub uninterp spec fn entry_bytes(entry: EntryV) -> Seq<u8>;

/// The log entry that postcard reads from the front of bytes; `None` where there is none.
pub uninterp spec fn bytes_entry(bytes: Seq<u8>) -> Option<EntryV>;

/// `postcard::to_allocvec` of the stream name, the shard id and the fields of the record, in
/// this order. It does not fail on them.
#[verifier::external_body]
fn postcard_encode(stream: &str, shard_id: &str, record: &Record) -> (r: Vec<u8>)
    ensures
        r@ == entry_bytes(EntryV { stream: stream@, shard_id: shard_id@, record: record@ }),
{
    let fields = (
        record.seq,
        record.partition_key.as_str(),
        record.data.as_slice(),
        record.timestamp_ms,
    );
    postcard::to_allocvec(&(stream, shard_id, fields)).unwrap_or_default()
}

/// `postcard::from_bytes` into two strings and the fields of a record. Which bytes hold an
/// entry, and which one, is left to the crate's format and named `bytes_entry`. One fact is
/// stated: the encoding of an entry reads back as that entry.
#[verifier::external_body]
fn postcard_decode(bytes: &[u8]) -> (r: Option<Entry>)
    ensures
        match r {
            Some(entry) => bytes_entry(bytes@) == Some(entry_view(entry)),
            None => bytes_entry(bytes@) is None,
        },
        forall|entry: EntryV|
            bytes@ == #[trigger] entry_bytes(entry) ==> r is Some && entry_view(r->0) == entry,
{
    let (stream, shard_id, (seq, partition_key, data, timestamp_ms)) =
        postcard::from_bytes::<(String, String, (u64, String, Vec<u8>, u128))>(bytes).ok()?;
    Some((stream, shard_id, Record { seq, partition_key, data, timestamp_ms }))
}

/// A frame: the length of the body as eight bytes, the least significant one first, and the
/// body.
pub open spec fn framed(body: Seq<u8>) -> Seq<u8> {
    spec_u64_to_le_bytes(body.len() as u64) + body
}

/// The frame of a log entry.
pub open spec fn entry_frame(entry: EntryV) -> Seq<u8> {
    framed(entry_bytes(entry))
}

/// The frames of the entries, one after the other.
pub open spec fn frames(log: Seq<EntryV>) -> Seq<u8>
    decreases log.len(),
{
    if log.len() == 0 {
        Seq::empty()
    } else {
        frames(log.drop_last()) + entry_frame(log.last())
    }
}

/// Encodes one framed entry: 8-byte little-endian length prefix and postcard body.
pub fn encode_frame(stream: &str, shard_id: &str, record: &Record) -> (r: Vec<u8>)
    ensures
        r@ == entry_frame(EntryV { stream: stream@, shard_id: shard_id@, record: record@ }),
{
    let body = postcard_encode(stream, shard_id, record);
    frame(&body)
}

/// Puts the length of a body in front of it.
pub fn frame(body: &[u8]) -> (r: Vec<u8>)
    ensures
        r@ == framed(body@),
{
    let mut frame = u64_to_le_bytes(body.len() as u64);
    push_bytes(&mut frame, body);
    frame
}

/// The body of the first frame, where it is there completely.
pub open spec fn first_body(bytes: Seq<u8>) -> Option<Seq<u8>> {
    if bytes.len() < 8 {
        None
    } else {
        let len = spec_u64_from_le_bytes(bytes.take(8)) as int;
        if len <= bytes.len() - 8 {
            Some(bytes.subrange(8, 8 + len))
        } else {
            None
        }
    }
}

/// The entry of the first frame and what follows it; `None` where the frame is cut off or
/// holds no entry.
pub open spec fn first_entry(bytes: Seq<u8>) -> Option<(EntryV, Seq<u8>)> {
    match first_body(bytes) {
        None => None,
        Some(body) => match bytes_entry(body) {
            None => None,
            Some(entry) => Some((entry, bytes.skip((8 + body.len()) as int))),
        },
    }
}

/// The entries of the complete frames at the front of bytes.
pub open spec fn segment_entries(bytes: Seq<u8>) -> Seq<EntryV>
    decreases bytes.len(),
{
    match first_entry(bytes) {
        None => Seq::empty(),
        Some((entry, rest)) => if rest.len() < bytes.len() {
            seq![entry] + segment_entries(rest)
        } else {
            Seq::empty()
        },
    }
}

/// Where the complete frames at the front of bytes end.
pub open spec fn segment_end(bytes: Seq<u8>) -> int
    decreases bytes.len(),
{
    match first_entry(bytes) {
        None => 0,
        Some((entry, rest)) => if rest.len() < bytes.len() {
            bytes.len() - rest.len() + segment_end(rest)
        } else {
            0
        },
    }
}

/// Whether bytes are the beginning of a frame that is not complete.
pub open spec fn is_torn(bytes: Seq<u8>) -> bool {
    first_body(bytes) is None
}

/// Every beginning of a frame, short of the whole frame, is recognised as torn.
pub proof fn law_cut_frame_is_torn(body: Seq<u8>, n: int)
    requires
        body.len() <= u64::MAX,
        0 <= n < framed(body).len(),
    ensures
        is_torn(framed(body).take(n)),
{
    lemma_auto_spec_u64_to_from_le_bytes();
    let cut = framed(body).take(n);
    assert(framed(body).len() == 8 + body.len());
    if n >= 8 {
        assert(cut.take(8) =~= spec_u64_to_le_bytes(body.len() as u64));
    }
}

proof fn lemma_framed(body: Seq<u8>, rest: Seq<u8>)
    requires
        body.len() <= u64::MAX,
    ensures
        framed(body).len() == 8 + body.len(),
        first_body(framed(body) + rest) == Some(body),
        (framed(body) + rest).skip((8 + body.len()) as int) == rest,
{
    lemma_auto_spec_u64_to_from_le_bytes();
    let all = framed(body) + rest;
    assert(all.take(8) =~= spec_u64_to_le_bytes(body.len() as u64));
    assert(all.subrange(8, (8 + body.len()) as int) =~= body);
    assert(all.skip((8 + body.len()) as int) =~= rest);
}

proof fn lemma_frames_split(log: Seq<EntryV>, k: int)
    requires
        0 <= k <= log.len(),
    ensures
        frames(log) == frames(log.take(k)) + frames(log.skip(k)),
    decreases log.len() - k,
{
    if k == log.len() {
        assert(log.take(k) =~= log);
        assert(log.skip(k) =~= Seq::empty());
        assert(frames(log.take(k)) + frames(log.skip(k)) =~= frames(log));
    } else {
        let short = log.drop_last();
        lemma_frames_split(short, k);
        assert(short.take(k) =~= log.take(k));
        assert(log.skip(k).drop_last() =~= short.skip(k));
        assert(log.skip(k).last() == log.last());
        assert(frames(log.take(k)) + frames(log.skip(k)) =~= frames(log));
    }
}

proof fn lemma_frames_one(entry: EntryV)
    ensures
        frames(seq![entry]) == entry_frame(entry),
{
    let one = seq![entry];
    assert(one.drop_last() =~= Seq::<EntryV>::empty());
    assert(frames(one.drop_last()) =~= Seq::<u8>::empty());
    assert(one.last() == entry);
    assert(frames(one) =~= entry_frame(entry));
}

proof fn lemma_frames_front(log: Seq<EntryV>, k: int)
    requires
        0 <= k < log.len(),
    ensures
        frames(log.skip(k)) == entry_frame(log[k]) + frames(log.skip(k + 1)),
        frames(log.take(k + 1)) == frames(log.take(k)) + entry_frame(log[k]),
{
    lemma_frames_split(log.skip(k), 1);
    assert(log.skip(k).take(1) =~= seq![log[k]]);
    assert(log.skip(k).skip(1) =~= log.skip(k + 1));
    lemma_frames_one(log[k]);
    assert(log.take(k + 1).drop_last() =~= log.take(k));
}

/// The body of the frame that starts at `off`, as the range of its bytes, where the frame is
/// there completely.
pub fn frame_body(bytes: &[u8], off: usize) -> (r: Option<(usize, usize)>)
    requires
        off <= bytes@.len(),
    ensures
        match first_body(bytes@.skip(off as int)) {
            Some(body) => {
                &&& r is Some
                &&& (r->0).0 == off + 8
                &&& (r->0).1 == off + 8 + body.len()
                &&& (r->0).1 <= bytes@.len()
                &&& bytes@.subrange((r->0).0 as int, (r->0).1 as int) == body
            },
            None => r is None,
        },
{
    let rest: usize = bytes.len() - off;
    if rest < 8 {
        return None;
    }
    let start: usize = off + 8;
    let head = slice_subrange(bytes, off, start);
    assert(head@ =~= bytes@.skip(off as int).take(8));
    let len: u64 = u64_from_le_bytes(head);
    if len > (rest - 8) as u64 {
        return None;
    }
    let end: usize = start + len as usize;
    assert(bytes@.subrange(start as int, end as int) =~= bytes@.skip(off as int).subrange(
        8,
        8 + len as int,
    ));
    Some((start, end))
}

/// Reads the frame that starts at `off`: its entry and the offset behind it. The frame of an
/// entry gives the entry back, whatever follows it.
pub fn decode_frame(bytes: &[u8], off: usize) -> (r: Option<(Entry, usize)>)
    requires
        off <= bytes@.len(),
    ensures
        match first_entry(bytes@.skip(off as int)) {
            Some((entry, rest)) => {
                &&& r is Some
                &&& entry_view((r->0).0) == entry
                &&& off < (r->0).1 <= bytes@.len()
                &&& bytes@.skip((r->0).1 as int) == rest
            },
            None => r is None,
        },
        forall|entry: EntryV, rest: Seq<u8>|
            bytes@.skip(off as int) == #[trigger] (entry_frame(entry) + rest) ==> r is Some
                && entry_view((r->0).0) == entry && (r->0).1 == off + entry_frame(entry).len(),
{
    let ghost here = bytes@.skip(off as int);
    let total: usize = bytes.len();
    let found = frame_body(bytes, off);
    let r = match found {
        None => None,
        Some((start, end)) => {
            let body = slice_subrange(bytes, start, end);
            assert(body@ == first_body(here)->0);
            match postcard_decode(body) {
                Some(entry) => {
                    assert(here.skip((8 + body@.len()) as int) =~= bytes@.skip(end as int));
                    Some((entry, end))
                },
                None => None,
            }
        },
    };
    assert forall|entry: EntryV, rest: Seq<u8>|
        here == #[trigger] (entry_frame(entry) + rest) implies r is Some && entry_view((r->0).0)
        == entry && (r->0).1 == off + entry_frame(entry).len() by {
        let body = entry_bytes(entry);
        lemma_auto_spec_u64_to_from_le_bytes();
        assert(here.len() == 8 + body.len() + rest.len());
        assert(here.len() <= total);
        lemma_framed(body, rest);
        assert(first_body(here) == Some(body));
    }
    r
}

/// Decodes all complete frames in a segment's bytes. Gives the entries and the byte offset of
/// the first incomplete or corrupt frame, which is the safe truncation point; for a clean
/// segment it is the length. A segment that was written frame by frame and then, maybe, torn
/// in the middle of a frame gives back every entry that was written completely.
pub fn decode_segment(bytes: &[u8]) -> (r: (Vec<Entry>, usize))
    ensures
        entries_view(r.0@) == segment_entries(bytes@),
        r.1 as int == segment_end(bytes@),
        r.1 <= bytes@.len(),
        forall|log: Seq<EntryV>, torn: Seq<u8>|
            bytes@ == #[trigger] (frames(log) + torn) && is_torn(torn) ==> entries_view(r.0@) == log
                && r.1 == frames(log).len(),
{
    let mut out: Vec<Entry> = Vec::new();
    let mut off: usize = 0;
    assert(bytes@.skip(0) =~= bytes@);
    assert(entries_view(out@) =~= Seq::empty());
    assert(entries_view(out@) + segment_entries(bytes@) =~= segment_entries(bytes@));
    assert forall|log: Seq<EntryV>, torn: Seq<u8>|
        bytes@ == #[trigger] (frames(log) + torn) && is_torn(torn) implies decoded_up_to(
        log,
        out@,
        off,
    ) by {
        assert(log.take(0) =~= Seq::empty());
    }
    loop
        invariant
            off <= bytes@.len(),
            segment_entries(bytes@) == entries_view(out@) + segment_entries(
                bytes@.skip(off as int),
            ),
            segment_end(bytes@) == off + segment_end(bytes@.skip(off as int)),
            forall|log: Seq<EntryV>, torn: Seq<u8>|
                bytes@ == #[trigger] (frames(log) + torn) && is_torn(torn) ==> decoded_up_to(
                    log,
                    out@,
                    off,
                ),
        decreases bytes@.len() - off,
    {
        let ghost here = bytes@.skip(off as int);
        let ghost had = out@;
        let ghost from = off;
        match decode_frame(bytes, off) {
            Some((entry, end)) => {
                let ghost shown = entry_view(entry);
                out.push(entry);
                off = end;
                proof {
                    let rest = bytes@.skip(end as int);
                    assert(first_entry(here) == Some((shown, rest)));
                    assert(entries_view(out@) =~= entries_view(had).push(shown));
                    assert(entries_view(had) + segment_entries(here) =~= entries_view(out@)
                        + segment_entries(rest));
                    assert forall|log: Seq<EntryV>, torn: Seq<u8>|
                        bytes@ == #[trigger] (frames(log) + torn) && is_torn(
                            torn,
                        ) implies decoded_up_to(log, out@, off) by {
                        assert(decoded_up_to(log, had, from));
                        lemma_next_of_log(bytes@, log, torn, had.len() as int, from as int);
                        let k = had.len() as int;
                        if k < log.len() {
                            assert(here == entry_frame(log[k]) + (frames(log.skip(k + 1)) + torn));
                            assert(entries_view(out@) =~= log.take(k + 1));
                        }
                    }
                }
            },
            None => {
                proof {
                    assert(segment_entries(here) =~= Seq::empty());
                    assert(entries_view(out@) + segment_entries(here) =~= entries_view(out@));
                    assert forall|log: Seq<EntryV>, torn: Seq<u8>|
                        bytes@ == #[trigger] (frames(log) + torn) && is_torn(
                            torn,
                        ) implies entries_view(out@) == log && off == frames(log).len() by {
                        assert(decoded_up_to(log, had, from));
                        lemma_next_of_log(bytes@, log, torn, had.len() as int, from as int);
                        let k = had.len() as int;
                        if k < log.len() {
                            assert(here == entry_frame(log[k]) + (frames(log.skip(k + 1)) + torn));
                        } else {
                            assert(log.take(k) =~= log);
                        }
                    }
                }
                return (out, off);
            },
        }
    }
}

/// The first entries of a log have been read, and their frames end at `off`.
spec fn decoded_up_to(log: Seq<EntryV>, out: Seq<Entry>, off: usize) -> bool {
    &&& out.len() <= log.len()
    &&& entries_view(out) == log.take(out.len() as int)
    &&& off == frames(log.take(out.len() as int)).len()
}

/// What follows the first `k` frames of a log.
proof fn lemma_next_of_log(bytes: Seq<u8>, log: Seq<EntryV>, torn: Seq<u8>, k: int, off: int)
    requires
        bytes == frames(log) + torn,
        is_torn(torn),
        0 <= k <= log.len(),
        off == frames(log.take(k)).len(),
    ensures
        k == log.len() ==> bytes.skip(off) == torn && first_entry(bytes.skip(off)) is None,
        k < log.len() ==> bytes.skip(off) == entry_frame(log[k]) + (frames(log.skip(k + 1)) + torn)
            && frames(log.take(k + 1)).len() == off + entry_frame(log[k]).len(),
{
    lemma_frames_split(log, k);
    if k == log.len() {
        assert(log.take(k) =~= log);
        assert(bytes.skip(off) =~= torn);
    } else {
        lemma_frames_front(log, k);
        assert(bytes.skip(off) =~= entry_frame(log[k]) + (frames(log.skip(k + 1)) + torn));
    }
}

// ---- segments ----------------------------------------------------------------

/// The file name of a segment.
pub open spec fn seg_file(id: u64) -> Seq<char> {
    "seg-"@ + padded(id as nat, 10) + ".log"@
}

/// The number of the segment that a file name names; `None` for other files.
pub open spec fn file_segment(name: Seq<char>) -> Option<nat> {
    match without_prefix(name, "seg-"@) {
        None => None,
        Some(rest) => match without_suffix(rest, ".log"@) {
            None => None,
            Some(digits) => parse_decimal(digits, u64::MAX as nat),
        },
    }
}

/// The file name of a segment names the segment.
pub proof fn law_segment_name_names_the_segment(id: u64)
    ensures
        file_segment(seg_file(id)) == Some(id as nat),
{
    let head = "seg-"@;
    let tail = ".log"@;
    let digits = padded(id as nat, 10);
    let name = seg_file(id);
    assert(name.take(head.len() as int) =~= head);
    let rest = name.skip(head.len() as int);
    assert(rest =~= digits + tail);
    assert(rest.skip(rest.len() - tail.len()) =~= tail);
    assert(rest.take(rest.len() - tail.len()) =~= digits);
    lemma_padded_round_trip(id as nat, 10, u64::MAX as nat);
}

/// The file name of a segment.
pub fn seg_name(id: u64) -> (r: String)
    ensures
        r@ == seg_file(id),
{
    let digits = padded_text(id, 10);
    join3("seg-", digits.as_str(), ".log")
}

/// The number of the segment that a file name names; `None` for other files.
pub fn segment_id(name: &str) -> (r: Option<u64>)
    ensures
        match file_segment(name@) {
            Some(id) => r is Some && r->0 as nat == id,
            None => r is None,
        },
{
    match strip_prefix(name, "seg-") {
        None => None,
        Some(rest) => match strip_suffix(rest, ".log") {
            None => None,
            Some(digits) => match parse_number(digits, u64::MAX as u128) {
                Some(id) => Some(id as u64),
                None => None,
            },
        },
    }
}

/// The numbers of the segments among the files of a directory.
pub open spec fn listed_ids(names: Seq<String>) -> Seq<u64>
    decreases names.len(),
{
    if names.len() == 0 {
        Seq::empty()
    } else {
        let before = listed_ids(names.drop_last());
        match file_segment(names.last()@) {
            Some(id) => before.push(id as u64),
            None => before,
        }
    }
}

pub open spec fn sorted(ids: Seq<u64>) -> bool {
    forall|i: int, j: int| 0 <= i <= j < ids.len() ==> ids[i] <= ids[j]
}

/// The segments among the files of a directory, in the order in which they were written.
pub fn segment_ids(names: &Vec<String>) -> (r: Vec<u64>)
    ensures
        sorted(r@),
        r@.to_multiset() == listed_ids(names@).to_multiset(),
{
    let mut ids: Vec<u64> = Vec::new();
    let mut i: usize = 0;
    assert(names@.take(0) =~= Seq::<String>::empty());
    assert(ids@ =~= listed_ids(names@.take(0)));
    while i < names.len()
        invariant
            i <= names@.len(),
            sorted(ids@),
            ids@.to_multiset() == listed_ids(names@.take(i as int)).to_multiset(),
        decreases names@.len() - i,
    {
        assert(names@.take(i + 1).drop_last() =~= names@.take(i as int));
        if let Some(id) = segment_id(names[i].as_str()) {
            let mut at: usize = ids.len();
            while at > 0 && ids[at - 1] > id
                invariant
                    at <= ids@.len(),
                    sorted(ids@),
                    forall|k: int| at <= k < ids@.len() ==> ids@[k] > id,
                decreases at,
            {
                at = at - 1;
            }
            proof {
                vstd::seq_lib::to_multiset_insert(ids@, at as int, id);
                listed_ids(names@.take(i as int)).to_multiset_ensures();
            }
            ids.insert(at, id);
        }
        i = i + 1;
    }
    assert(names@.take(names@.len() as int) =~= names@);
    ids
}

pub open spec fn larger(a: u128, b: u128) -> u128 {
    if b > a {
        b
    } else {
        a
    }
}

/// Whether a pair is that of a stream.
pub open spec fn newest_for(stream: Seq<char>) -> spec_fn((Seq<char>, u128)) -> bool {
    |pair: (Seq<char>, u128)| pair.0 == stream
}

/// The newest timestamps by stream after one more record of a stream.
pub open spec fn noted(
    newest: Seq<(Seq<char>, u128)>,
    stream: Seq<char>,
    timestamp_ms: u128,
) -> Seq<(Seq<char>, u128)> {
    match first_where(newest, newest_for(stream)) {
        Some(i) => newest.update(i, (stream, larger(newest[i].1, timestamp_ms))),
        None => newest.push((stream, timestamp_ms)),
    }
}

/// The newest timestamp of each stream among the entries.
pub open spec fn newest_of(entries: Seq<EntryV>) -> Seq<(Seq<char>, u128)>
    decreases entries.len(),
{
    if entries.len() == 0 {
        Seq::empty()
    } else {
        noted(
            newest_of(entries.drop_last()),
            entries.last().stream,
            entries.last().record.timestamp_ms,
        )
    }
}

/// Whether a stream has a newest timestamp, and that is not before `timestamp_ms`.
pub open spec fn bounds(
    newest: Seq<(Seq<char>, u128)>,
    stream: Seq<char>,
    timestamp_ms: u128,
) -> bool {
    exists|k: int|
        0 <= k < newest.len() && (#[trigger] newest[k]).0 == stream && newest[k].1 >= timestamp_ms
}

/// Whether an entry of a stream has this timestamp.
pub open spec fn has_entry(
    entries: Seq<EntryV>,
    stream: Seq<char>,
    timestamp_ms: u128,
) -> bool {
    exists|i: int|
        0 <= i < entries.len() && (#[trigger] entries[i]).stream == stream
            && entries[i].record.timestamp_ms == timestamp_ms
}

/// The newest timestamps by stream are just that: every stream of an entry has one, none of the
/// entries of the stream is newer, and one of them has it.
pub proof fn law_newest_timestamps_are_by_stream(entries: Seq<EntryV>)
    ensures
        forall|i: int|
            0 <= i < entries.len() ==> bounds(
                newest_of(entries),
                (#[trigger] entries[i]).stream,
                entries[i].record.timestamp_ms,
            ),
        forall|k: int|
            0 <= k < newest_of(entries).len() ==> has_entry(
                entries,
                (#[trigger] newest_of(entries)[k]).0,
                newest_of(entries)[k].1,
            ),
    decreases entries.len(),
{
    if entries.len() > 0 {
        let rest = entries.drop_last();
        let last = entries.last();
        let before = newest_of(rest);
        let after = newest_of(entries);
        law_newest_timestamps_are_by_stream(rest);
        lemma_noted(before, last.stream, last.record.timestamp_ms);
        assert forall|i: int| 0 <= i < entries.len() implies bounds(
            after,
            (#[trigger] entries[i]).stream,
            entries[i].record.timestamp_ms,
        ) by {
            if i < rest.len() {
                assert(rest[i] == entries[i]);
                let k = choose|k: int|
                    0 <= k < before.len() && (#[trigger] before[k]).0 == entries[i].stream
                        && before[k].1 >= entries[i].record.timestamp_ms;
                assert(after[k].0 == before[k].0 && after[k].1 >= before[k].1);
            }
        }
        assert forall|k: int| 0 <= k < after.len() implies has_entry(
            entries,
            (#[trigger] after[k]).0,
            after[k].1,
        ) by {
            if k < before.len() && after[k] == before[k] {
                assert(has_entry(rest, before[k].0, before[k].1));
                let i = choose|i: int|
                    0 <= i < rest.len() && (#[trigger] rest[i]).stream == before[k].0
                        && rest[i].record.timestamp_ms == before[k].1;
                assert(entries[i] == rest[i]);
            } else {
                assert(entries[entries.len() - 1] == last);
            }
        }
    }
}

pub proof fn lemma_noted(newest: Seq<(Seq<char>, u128)>, stream: Seq<char>, timestamp_ms: u128)
    ensures
        ({
            let after = noted(newest, stream, timestamp_ms);
            &&& after.len() >= newest.len()
            &&& forall|k: int|
                0 <= k < newest.len() ==> (#[trigger] after[k]).0 == newest[k].0 && after[k].1
                    >= newest[k].1
            &&& bounds(after, stream, timestamp_ms)
            &&& forall|k: int|
                0 <= k < after.len() ==> #[trigger] after[k] == (stream, timestamp_ms) || (k
                    < newest.len() && after[k] == newest[k])
        }),
{
    let after = noted(newest, stream, timestamp_ms);
    let same = newest_for(stream);
    lemma_first_where(newest, same);
    match first_where(newest, same) {
        Some(i) => {
            assert(after[i].0 == stream && after[i].1 >= timestamp_ms);
        },
        None => {
            assert(after[newest.len() as int] == (stream, timestamp_ms));
        },
    }
}

pub open spec fn newest_view(newest: Seq<(String, u128)>) -> Seq<(Seq<char>, u128)> {
    newest.map_values(|pair: (String, u128)| (pair.0@, pair.1))
}

/// Takes note of one more record of a stream.
fn note(newest: &mut Vec<(String, u128)>, stream: &str, timestamp_ms: u128)
    ensures
        newest_view(final(newest)@) == noted(newest_view(old(newest)@), stream@, timestamp_ms),
{
    let ghost before = newest_view(newest@);
    let ghost same = newest_for(stream@);
    let mut i: usize = 0;
    while i < newest.len()
        invariant
            i <= newest@.len(),
            newest@ == old(newest)@,
            before == newest_view(newest@),
            before == newest_view(old(newest)@),
            same == newest_for(stream@),
            forall|k: int| 0 <= k < i ==> !same(#[trigger] before[k]),
        decreases newest@.len() - i,
    {
        if str_eq(newest[i].0.as_str(), stream) {
            proof {
                lemma_first_where_is(before, same, i as int);
            }
            let known: u128 = newest[i].1;
            let latest: u128 = if timestamp_ms > known {
                timestamp_ms
            } else {
                known
            };
            newest.set(i, (String::from_str(stream), latest));
            assert(newest_view(newest@) =~= noted(before, stream@, timestamp_ms));
            return;
        }
        assert(!same(before[i as int]));
        i = i + 1;
    }
    proof {
        lemma_first_where(before, same);
    }
    newest.push((String::from_str(stream), timestamp_ms));
    assert(newest_view(newest@) =~= noted(before, stream@, timestamp_ms));
}

fn newest(entries: &Vec<Entry>) -> (r: Vec<(String, u128)>)
    ensures
        newest_view(r@) == newest_of(entries_view(entries@)),
{
    let ghost shown = entries_view(entries@);
    let mut out: Vec<(String, u128)> = Vec::new();
    let mut i: usize = 0;
    assert(shown.take(0) =~= Seq::<EntryV>::empty());
    assert(newest_view(out@) =~= Seq::empty());
    while i < entries.len()
        invariant
            i <= entries@.len(),
            shown == entries_view(entries@),
            newest_view(out@) == newest_of(shown.take(i as int)),
        decreases entries@.len() - i,
    {
        assert(shown.take(i + 1).drop_last() =~= shown.take(i as int));
        assert(shown.take(i + 1).last() == entry_view(entries@[i as int]));
        note(&mut out, entries[i].0.as_str(), entries[i].2.timestamp_ms);
        i = i + 1;
    }
    assert(shown.take(shown.len() as int) =~= shown);
    out
}

fn copy_newest(newest: &Vec<(String, u128)>) -> (r: Vec<(String, u128)>)
    ensures
        newest_view(r@) == newest_view(newest@),
{
    let mut out: Vec<(String, u128)> = Vec::with_capacity(newest.len());
    let mut i: usize = 0;
    while i < newest.len()
        invariant
            i <= newest@.len(),
            out@.len() == i,
            forall|k: int|
                0 <= k < i ==> (#[trigger] out@[k]).0@ == newest@[k].0@ && out@[k].1
                    == newest@[k].1,
        decreases newest@.len() - i,
    {
        out.push((newest[i].0.clone(), newest[i].1));
        i = i + 1;
    }
    assert(newest_view(out@) =~= newest_view(newest@));
    out
}

/// Bookkeeping for one segment, used to decide when it can be dropped: its number and the
/// newest timestamp of each stream in it.
#[derive(Debug, PartialEq, Eq)]
pub struct Segment {
    pub id: u64,
    pub max_ts: Vec<(String, u128)>,
}

/// The bookkeeping for one segment as a mathematical value.
pub struct SegmentV {
    pub id: u64,
    pub max_ts: Seq<(Seq<char>, u128)>,
}

impl View for Segment {
    type V = SegmentV;

    open spec fn view(&self) -> SegmentV {
        SegmentV { id: self.id, max_ts: newest_view(self.max_ts@) }
    }
}

pub open spec fn closed_view(closed: Seq<Segment>) -> Seq<SegmentV> {
    closed.map_values(|segment: Segment| segment@)
}

/// The bookkeeping of the log: the closed segments, which are drop candidates, and the active
/// segment, which is appended to. `poisoned` says that a failed append may have torn the
/// active segment, so that the next append has to start a new one.
pub struct Wal {
    pub segment_max: u64,
    pub closed: Vec<Segment>,
    pub active_id: u64,
    pub active_bytes: u64,
    pub active_max_ts: Vec<(String, u128)>,
    pub poisoned: bool,
}

/// The bookkeeping as a mathematical value.
pub struct WalV {
    pub segment_max: u64,
    pub closed: Seq<SegmentV>,
    pub active_id: u64,
    pub active_bytes: u64,
    pub active_max_ts: Seq<(Seq<char>, u128)>,
    pub poisoned: bool,
}

impl View for Wal {
    type V = WalV;

    open spec fn view(&self) -> WalV {
        WalV {
            segment_max: self.segment_max,
            closed: closed_view(self.closed@),
            active_id: self.active_id,
            active_bytes: self.active_bytes,
            active_max_ts: newest_view(self.active_max_ts@),
            poisoned: self.poisoned,
        }
    }
}

// ---- loading -----------------------------------------------------------------

/// What is behind the last complete frame of a segment, and what is to be done about it.
#[derive(Clone, Copy, Debug, PartialEq, Eq, Structural)]
pub enum Tail {
    /// Nothing is there.
    Clean,
    /// A crash-torn trailing frame of the last segment: cut the file to this length, so that
    /// further appends stay readable.
    Truncate(usize),
    /// A corrupt frame inside an older segment: so many bytes stay unreadable, but the
    /// segments after it still replay.
    Skipped(usize),
}

pub open spec fn segment_tail(len: int, end: int, is_last: bool) -> Tail {
    if end < len {
        if is_last {
            Tail::Truncate(end as usize)
        } else {
            Tail::Skipped((len - end) as usize)
        }
    } else {
        Tail::Clean
    }
}

/// Rebuilds the log's bookkeeping from its segments, oldest first.
pub struct Loader {
    pub segment_max: u64,
    pub closed: Vec<Segment>,
    pub last: Option<(Segment, u64)>,
}

/// The segments that were replayed, each with its number, its newest timestamp and the length
/// up to which it is readable.
pub open spec fn loaded(loader: Loader) -> Seq<SegmentV> {
    match loader.last {
        Some((segment, bytes)) => closed_view(loader.closed@).push(segment@),
        None => closed_view(loader.closed@),
    }
}

/// The segment that was replayed last, and the length up to which it is readable.
pub open spec fn last_view(loader: Loader) -> Option<(SegmentV, u64)> {
    match loader.last {
        Some((segment, bytes)) => Some((segment@, bytes)),
        None => None,
    }
}

impl Loader {
    pub fn new(segment_max: u64) -> (r: Self)
        ensures
            r.segment_max == segment_max,
            loaded(r) == Seq::<SegmentV>::empty(),
            r.last is None,
    {
        let r = Loader { segment_max, closed: Vec::new(), last: None };
        assert(loaded(r) =~= Seq::<SegmentV>::empty());
        r
    }

    /// Replays one segment: gives its entries and says what is to be done about the bytes
    /// behind them.
    pub fn replay_segment(&mut self, id: u64, bytes: &[u8], is_last: bool) -> (r: (
        Vec<Entry>,
        Tail,
    ))
        ensures
            entries_view(r.0@) == segment_entries(bytes@),
            r.1 == segment_tail(bytes@.len() as int, segment_end(bytes@), is_last),
            forall|log: Seq<EntryV>, torn: Seq<u8>|
                bytes@ == #[trigger] (frames(log) + torn) && is_torn(torn) ==> entries_view(r.0@)
                    == log && segment_end(bytes@) == frames(log).len(),
            segment_end(bytes@) <= bytes@.len(),
            final(self).segment_max == old(self).segment_max,
            ({
                let segment = SegmentV { id, max_ts: newest_of(segment_entries(bytes@)) };
                &&& loaded(*final(self)) == loaded(*old(self)).push(segment)
                &&& last_view(*final(self)) == Some((segment, segment_end(bytes@) as u64))
            }),
    {
        let (entries, end) = decode_segment(bytes);
        let tail = if end < bytes.len() {
            if is_last {
                Tail::Truncate(end)
            } else {
                Tail::Skipped(bytes.len() - end)
            }
        } else {
            Tail::Clean
        };
        let ghost before = *self;
        if let Some((segment, _)) = self.last.take() {
            self.closed.push(segment);
        }
        assert(closed_view(self.closed@) =~= loaded(before));
        let max_ts = newest(&entries);
        self.last = Some((Segment { id, max_ts }, end as u64));
        (entries, tail)
    }

    /// The log, ready to append: the last segment is the active one, the others are closed.
    /// A log without segments starts with segment 1.
    pub fn finish(self) -> (r: Wal)
        ensures
            r@ == (match self.last {
                Some((segment, bytes)) => WalV {
                    segment_max: self.segment_max,
                    closed: closed_view(self.closed@),
                    active_id: segment.id,
                    active_bytes: bytes,
                    active_max_ts: segment@.max_ts,
                    poisoned: false,
                },
                None => WalV {
                    segment_max: self.segment_max,
                    closed: closed_view(self.closed@),
                    active_id: 1,
                    active_bytes: 0,
                    active_max_ts: Seq::empty(),
                    poisoned: false,
                },
            }),
    {
        match self.last {
            Some((segment, bytes)) => Wal {
                segment_max: self.segment_max,
                closed: self.closed,
                active_id: segment.id,
                active_bytes: bytes,
                active_max_ts: segment.max_ts,
                poisoned: false,
            },
            None => {
                let active_max_ts: Vec<(String, u128)> = Vec::new();
                assert(newest_view(active_max_ts@) =~= Seq::empty());
                Wal {
                    segment_max: self.segment_max,
                    closed: self.closed,
                    active_id: 1,
                    active_bytes: 0,
                    active_max_ts,
                    poisoned: false,
                }
            },
        }
    }
}

/// Segment files: the number and the bytes of each.
pub open spec fn segments_view(segments: Seq<(u64, Vec<u8>)>) -> Seq<(u64, Seq<u8>)> {
    segments.map_values(|segment: (u64, Vec<u8>)| (segment.0, segment.1@))
}

pub open spec fn file_bytes(files: Seq<(u64, Seq<u8>)>) -> Seq<Seq<u8>> {
    files.map_values(|file: (u64, Seq<u8>)| file.1)
}

/// The entries of all files, one file after the other.
pub open spec fn loaded_entries(files: Seq<Seq<u8>>) -> Seq<EntryV>
    decreases files.len(),
{
    if files.len() == 0 {
        Seq::empty()
    } else {
        loaded_entries(files.drop_last()) + segment_entries(files.last())
    }
}

/// The bookkeeping of one file.
pub open spec fn file_segment_info(file: (u64, Seq<u8>)) -> SegmentV {
    SegmentV { id: file.0, max_ts: newest_of(segment_entries(file.1)) }
}

/// The bookkeeping of a log that was loaded from files: the last segment is the active one, the
/// others are closed. A log without segments starts with segment 1.
pub open spec fn loaded_wal(segment_max: u64, files: Seq<(u64, Seq<u8>)>) -> WalV {
    if files.len() == 0 {
        WalV {
            segment_max,
            closed: Seq::empty(),
            active_id: 1,
            active_bytes: 0,
            active_max_ts: Seq::empty(),
            poisoned: false,
        }
    } else {
        WalV {
            segment_max,
            closed: files.drop_last().map_values(
                |file: (u64, Seq<u8>)| file_segment_info(file),
            ),
            active_id: files.last().0,
            active_bytes: segment_end(files.last().1) as u64,
            active_max_ts: file_segment_info(files.last()).max_ts,
            poisoned: false,
        }
    }
}

/// The entries of all segments, one segment after the other.
pub open spec fn whole_log(segments: Seq<Seq<EntryV>>) -> Seq<EntryV>
    decreases segments.len(),
{
    if segments.len() == 0 {
        Seq::empty()
    } else {
        whole_log(segments.drop_last()) + segments.last()
    }
}

/// Whether a file holds the frames of a log, and behind them at most a torn frame.
pub open spec fn file_holds(file: Seq<u8>, log: Seq<EntryV>) -> bool {
    exists|torn: Seq<u8>| file == #[trigger] (frames(log) + torn) && is_torn(torn)
}

/// Whether each file holds the frames of its log.
pub open spec fn files_hold(files: Seq<Seq<u8>>, logs: Seq<Seq<EntryV>>) -> bool {
    &&& files.len() == logs.len()
    &&& forall|i: int| 0 <= i < files.len() ==> file_holds(#[trigger] files[i], logs[i])
}

/// The active segment's file holds the frames of a log and nothing else, and the bookkeeping
/// has its length and the newest timestamp of each stream in it.
pub open spec fn clean(wal: WalV, file: Seq<u8>, log: Seq<EntryV>) -> bool {
    &&& !wal.poisoned
    &&& file == frames(log)
    &&& wal.active_bytes == at_most(file.len() as int, u64::MAX as int)
    &&& wal.active_max_ts == newest_of(log)
}

impl Wal {
    /// Loads a log from its segment files, oldest first: gives the bookkeeping, ready to append,
    /// all entries in the order of their appends, and what is to be done about the tail of each
    /// file. Files that were written frame by frame, and maybe torn in the middle of a frame,
    /// give back every entry that was written completely; and once the last one is cut as its
    /// tail says, it holds complete frames only.
    pub fn load(segment_max: u64, segments: Vec<(u64, Vec<u8>)>) -> (r: (
        Wal,
        Vec<Entry>,
        Vec<Tail>,
    ))
        ensures
            ({
                let files = segments_view(segments@);
                &&& r.0@ == loaded_wal(segment_max, files)
                &&& entries_view(r.1@) == loaded_entries(file_bytes(files))
                &&& r.2@.len() == files.len()
                &&& forall|i: int|
                    0 <= i < files.len() ==> #[trigger] r.2@[i] == segment_tail(
                        files[i].1.len() as int,
                        segment_end(files[i].1),
                        i + 1 == files.len(),
                    )
            }),
            forall|logs: Seq<Seq<EntryV>>| #[trigger]
                files_hold(file_bytes(segments_view(segments@)), logs) ==> {
                    &&& entries_view(r.1@) == whole_log(logs)
                    &&& logs.len() > 0 ==> clean(r.0@, frames(logs.last()), logs.last())
                    &&& logs.len() > 0 ==> r.2@.last() == segment_tail(
                        segments@.last().1@.len() as int,
                        frames(logs.last()).len() as int,
                        true,
                    )
                },
    {
        let ghost files = segments_view(segments@);
        let ghost bytes = file_bytes(files);
        let count: usize = segments.len();
        let mut loader = Loader::new(segment_max);
        let mut entries: Vec<Entry> = Vec::new();
        let mut tails: Vec<Tail> = Vec::new();
        let mut done: usize = 0;
        proof {
            assert(bytes.take(0) =~= Seq::empty());
            assert(entries_view(entries@) =~= Seq::empty());
            assert(loaded(loader) =~= files.take(0).map_values(
                |file: (u64, Seq<u8>)| file_segment_info(file),
            ));
            assert forall|logs: Seq<Seq<EntryV>>| #[trigger]
                files_hold(bytes, logs) implies entries_view(entries@) == whole_log(logs.take(0)) by {
                assert(logs.take(0) =~= Seq::empty());
            }
        }
        for segment in it: segments
            invariant
                segments_view(it.seq()) == files,
                bytes == file_bytes(files),
                count == files.len(),
                done == it.index(),
                done <= count,
                entries_view(entries@) == loaded_entries(bytes.take(done as int)),
                loader.segment_max == segment_max,
                loaded(loader) == files.take(done as int).map_values(
                    |file: (u64, Seq<u8>)| file_segment_info(file),
                ),
                loader.last is Some == (done > 0),
                done > 0 ==> last_view(loader) == Some(
                    (file_segment_info(files[done - 1]), segment_end(files[done - 1].1) as u64),
                ),
                tails@.len() == done,
                forall|i: int|
                    0 <= i < done ==> #[trigger] tails@[i] == segment_tail(
                        files[i].1.len() as int,
                        segment_end(files[i].1),
                        i + 1 == files.len(),
                    ),
                forall|logs: Seq<Seq<EntryV>>| #[trigger]
                    files_hold(bytes, logs) ==> {
                        &&& entries_view(entries@) == whole_log(logs.take(done as int))
                        &&& done > 0 ==> {
                            &&& segment_entries(files[done - 1].1) == logs[done - 1]
                            &&& segment_end(files[done - 1].1) == frames(logs[done - 1]).len()
                            &&& segment_end(files[done - 1].1) <= usize::MAX
                        }
                    },
        {
            let (id, content) = segment;
            let ghost at = done as int;
            let ghost had = entries@;
            proof {
                assert(segments_view(it.seq())[at] == (id, content@));
                assert(files[at] == (id, content@));
                assert(bytes[at] == content@);
                assert(bytes.take(at + 1).drop_last() =~= bytes.take(at));
                assert(bytes.take(at + 1).last() == content@);
            }
            let _len: usize = content.len();
            let (part, tail) = loader.replay_segment(id, content.as_slice(), done + 1 == count);
            let ghost shown = entries_view(part@);
            let mut part = part;
            entries.append(&mut part);
            tails.push(tail);
            done = done + 1;
            proof {
                assert(entries_view(entries@) =~= entries_view(had) + shown);
                assert(loaded(loader) =~= files.take(at + 1).map_values(
                    |file: (u64, Seq<u8>)| file_segment_info(file),
                ));
                assert forall|logs: Seq<Seq<EntryV>>| #[trigger]
                    files_hold(bytes, logs) implies entries_view(entries@) == whole_log(
                    logs.take(at + 1),
                ) && segment_entries(content@) == logs[at] && segment_end(content@) == frames(
                    logs[at],
                ).len() by {
                    assert(file_holds(bytes[at], logs[at]));
                    let torn = choose|torn: Seq<u8>|
                        bytes[at] == #[trigger] (frames(logs[at]) + torn) && is_torn(torn);
                    assert(content@ == frames(logs[at]) + torn);
                    assert(logs.take(at + 1).drop_last() =~= logs.take(at));
                    assert(logs.take(at + 1).last() == logs[at]);
                }
            }
        }
        let wal = loader.finish();
        proof {
            assert(bytes.take(count as int) =~= bytes);
            assert(files.take(count as int) =~= files);
            let infos = files.map_values(|file: (u64, Seq<u8>)| file_segment_info(file));
            if count > 0 {
                assert(closed_view(loader.closed@) =~= infos.drop_last());
                assert(closed_view(loader.closed@) =~= loaded_wal(segment_max, files).closed);
            } else {
                assert(closed_view(loader.closed@) =~= Seq::empty());
            }
            assert forall|logs: Seq<Seq<EntryV>>| #[trigger]
                files_hold(bytes, logs) implies entries_view(entries@) == whole_log(logs) && (
            logs.len() > 0 ==> clean(wal@, frames(logs.last()), logs.last()) && tails@.last()
                == segment_tail(
                segments@.last().1@.len() as int,
                frames(logs.last()).len() as int,
                true,
            )) by {
                assert(logs.take(count as int) =~= logs);
                if count > 0 {
                    assert(files[count - 1] == (segments@.last().0, segments@.last().1@));
                }
            }
        }
        (wal, entries, tails)
    }
}

// ---- appending ---------------------------------------------------------------

/// What has happened in the course of an append.
#[derive(Clone, Copy, Debug, PartialEq, Eq, Structural)]
pub enum AppendEvent {
    /// A record is to be appended.
    Start,
    /// The active file was flushed (or not).
    Flushed(bool),
    /// The active file was let go without a flush.
    Discarded,
    /// The new file was opened (or not).
    Opened(bool),
    /// The frame was written and flushed (or not).
    Written(bool),
}

/// What is to be done next in the course of an append.
#[derive(Clone, Copy, Debug, PartialEq, Eq, Structural)]
pub enum AppendAction {
    /// Flush the active file, which is about to be closed.
    Flush,
    /// Let the active file go without flushing it: what is left in its buffer belongs to a
    /// record that was reported as failed.
    Discard,
    /// Open the file of this segment and make it the active one.
    Open(u64),
    /// Write the frame to the active file and flush it.
    Write,
    /// The record is in the log.
    Done,
    /// The record is not in the log.
    Fail,
}

impl WalV {
    /// Whether the next append starts a new segment.
    pub open spec fn must_roll(self) -> bool {
        self.poisoned || self.active_bytes >= self.segment_max
    }

    /// The active segment is closed, and the next number is up.
    pub open spec fn rolled(self) -> WalV {
        WalV {
            closed: self.closed.push(
                SegmentV { id: self.active_id, max_ts: self.active_max_ts },
            ),
            active_id: (self.active_id + 1) as u64,
            ..self
        }
    }

    /// The bookkeeping after an event in the course of an append to a stream, and what is to be
    /// done next.
    pub open spec fn after(
        self,
        event: AppendEvent,
        frame_len: usize,
        stream: Seq<char>,
        timestamp_ms: u128,
    ) -> (WalV, AppendAction) {
        match event {
            AppendEvent::Start => if self.poisoned {
                (self, AppendAction::Discard)
            } else if self.must_roll() {
                (self, AppendAction::Flush)
            } else {
                (self, AppendAction::Write)
            },
            AppendEvent::Flushed(true) | AppendEvent::Discarded => (
                self.rolled(),
                AppendAction::Open((self.active_id + 1) as u64),
            ),
            AppendEvent::Flushed(false) => (self, AppendAction::Fail),
            AppendEvent::Opened(true) => (
                WalV { active_bytes: 0, active_max_ts: Seq::empty(), poisoned: false, ..self },
                AppendAction::Write,
            ),
            AppendEvent::Opened(false) => (self, AppendAction::Fail),
            AppendEvent::Written(true) => (
                WalV {
                    active_bytes: at_most(self.active_bytes + frame_len, u64::MAX as int) as u64,
                    active_max_ts: noted(self.active_max_ts, stream, timestamp_ms),
                    ..self
                },
                AppendAction::Done,
            ),
            AppendEvent::Written(false) => (
                WalV { poisoned: true, ..self },
                AppendAction::Fail,
            ),
        }
    }
}

impl Wal {
    /// Takes note of what has happened in the course of an append and says what is to be done
    /// next. The active segment is rolled first if it is full or was poisoned by an earlier
    /// append: a partial write may have left a torn frame at its tail, and valid frames must
    /// never sit behind that. What a poisoned segment's writer still holds is discarded, so
    /// that no record reaches the file after it was reported as failed. `frame_len`, `stream`
    /// and `timestamp_ms` are those of the record. (The byte count of a segment stops at
    /// `u64::MAX`.)
    pub fn append(
        &mut self,
        event: AppendEvent,
        frame_len: usize,
        stream: &str,
        timestamp_ms: u128,
    ) -> (r: AppendAction)
        requires
            event == AppendEvent::Flushed(true) || event == AppendEvent::Discarded ==> old(
                self,
            ).active_id < u64::MAX,
        ensures
            (final(self)@, r) == old(self)@.after(event, frame_len, stream@, timestamp_ms),
    {
        let ghost before = self@;
        match event {
            AppendEvent::Start => {
                if self.poisoned {
                    AppendAction::Discard
                } else if self.active_bytes >= self.segment_max {
                    AppendAction::Flush
                } else {
                    AppendAction::Write
                }
            },
            AppendEvent::Flushed(true) | AppendEvent::Discarded => {
                let max_ts = copy_newest(&self.active_max_ts);
                self.closed.push(Segment { id: self.active_id, max_ts });
                self.active_id = self.active_id + 1;
                assert(self@.closed =~= before.rolled().closed);
                AppendAction::Open(self.active_id)
            },
            AppendEvent::Flushed(false) => AppendAction::Fail,
            AppendEvent::Opened(true) => {
                self.active_bytes = 0;
                self.active_max_ts = Vec::new();
                assert(self@.active_max_ts =~= Seq::empty());
                self.poisoned = false;
                AppendAction::Write
            },
            AppendEvent::Opened(false) => AppendAction::Fail,
            AppendEvent::Written(true) => {
                self.active_bytes = self.active_bytes.saturating_add(frame_len as u64);
                note(&mut self.active_max_ts, stream, timestamp_ms);
                AppendAction::Done
            },
            AppendEvent::Written(false) => {
                self.poisoned = true;
                AppendAction::Fail
            },
        }
    }
}

// ---- dropping ----------------------------------------------------------------

/// How the removal of a segment's file went.
#[derive(Clone, Copy, Debug, PartialEq, Eq, Structural)]
pub enum Removal {
    Removed,
    /// The file was gone already.
    Missing,
    Failed,
}

/// Whether a record no longer pins the segment that it is in: its stream was deleted, or it has
/// outlived the retention of its stream. A retention of 0 keeps forever.
pub open spec fn released(
    stream: Seq<char>,
    timestamp_ms: u128,
    now_ms: u128,
    retentions: Seq<(Seq<char>, u64)>,
) -> bool {
    match retention_of(retentions, stream) {
        None => true,
        Some(secs) => secs > 0 && now_ms - timestamp_ms > secs * 1000,
    }
}

/// Whether every stream in a segment is safe: it was deleted, or its newest record there has
/// outlived its retention.
pub open spec fn segment_expired(
    segment: SegmentV,
    now_ms: u128,
    retentions: Seq<(Seq<char>, u64)>,
) -> bool {
    forall|i: int|
        0 <= i < segment.max_ts.len() ==> released(
            (#[trigger] segment.max_ts[i]).0,
            segment.max_ts[i].1,
            now_ms,
            retentions,
        )
}

/// The closed segments that have expired, in their order.
pub open spec fn expired_segments(
    closed: Seq<SegmentV>,
    now_ms: u128,
    retentions: Seq<(Seq<char>, u64)>,
) -> Seq<SegmentV> {
    closed.filter(|segment: SegmentV| segment_expired(segment, now_ms, retentions))
}

/// The closed segments that stay after the expired ones were removed as far as that went:
/// those that have not expired, and those whose removal failed, which stay drop candidates.
pub open spec fn kept_segments(
    closed: Seq<SegmentV>,
    now_ms: u128,
    retentions: Seq<(Seq<char>, u64)>,
    outcomes: Seq<Removal>,
) -> Seq<SegmentV>
    decreases closed.len(),
{
    if closed.len() == 0 {
        Seq::empty()
    } else {
        let rest = closed.drop_last();
        let before = kept_segments(rest, now_ms, retentions, outcomes);
        if !segment_expired(closed.last(), now_ms, retentions) {
            before.push(closed.last())
        } else {
            let at = expired_segments(rest, now_ms, retentions).len() as int;
            if outcomes[at] == Removal::Failed {
                before.push(closed.last())
            } else {
                before
            }
        }
    }
}

impl Wal {
    /// The numbers of the closed segments in which every stream is safe, in their order. The
    /// active segment is never among them. `retentions` holds every current stream with its
    /// retention in seconds: a retention of 0 pins each segment that holds the stream, and a
    /// stream that is not there counts as deleted and pins nothing.
    pub fn expired_ids(&self, now_ms: u128, retentions: &Vec<(String, u64)>) -> (r: Vec<u64>)
        ensures
            r@ == expired_segments(
                self@.closed,
                now_ms,
                retentions_view(retentions@),
            ).map_values(|segment: SegmentV| segment.id),
    {
        let ghost all = self@.closed;
        let ghost expired = |segment: SegmentV|
            segment_expired(segment, now_ms, retentions_view(retentions@));
        let mut out: Vec<u64> = Vec::new();
        let mut i: usize = 0;
        proof {
            reveal(Seq::filter);
            assert(all.take(0) =~= Seq::<SegmentV>::empty());
        }
        assert(out@ =~= all.take(0).filter(expired).map_values(|segment: SegmentV| segment.id));
        while i < self.closed.len()
            invariant
                i <= self.closed@.len(),
                all == closed_view(self.closed@),
                expired == (|segment: SegmentV|
                    segment_expired(segment, now_ms, retentions_view(retentions@))),
                out@ == all.take(i as int).filter(expired).map_values(
                    |segment: SegmentV| segment.id,
                ),
            decreases self.closed@.len() - i,
        {
            let segment = &self.closed[i];
            proof {
                assert(all[i as int] == segment@);
                assert(all.take(i + 1) =~= all.take(i as int).push(segment@));
                all.take(i as int).lemma_filter_push(segment@, expired);
            }
            if is_expired(segment, now_ms, retentions) {
                out.push(segment.id);
            }
            i = i + 1;
            assert(out@ =~= all.take(i as int).filter(expired).map_values(
                |segment: SegmentV| segment.id,
            ));
        }
        assert(all.take(all.len() as int) =~= all);
        out
    }

    /// Takes note of how the removal of the expired segments went, in the order of
    /// `expired_ids`. A segment whose file is removed, or was gone already, is let go; one
    /// whose removal failed stays tracked, so that it is tried again. Gives the number of
    /// segments that were let go; where a removal failed, the place of the first such removal.
    pub fn drop_expired(
        &mut self,
        now_ms: u128,
        retentions: &Vec<(String, u64)>,
        outcomes: &Vec<Removal>,
    ) -> (r: Result<usize, usize>)
        requires
            outcomes@.len() == expired_segments(
                old(self)@.closed,
                now_ms,
                retentions_view(retentions@),
            ).len(),
        ensures
            final(self)@ == (WalV {
                closed: kept_segments(
                    old(self)@.closed,
                    now_ms,
                    retentions_view(retentions@),
                    outcomes@,
                ),
                ..old(self)@
            }),
            match r {
                Ok(dropped) => {
                    &&& forall|i: int|
                        0 <= i < outcomes@.len() ==> #[trigger] outcomes@[i] != Removal::Failed
                    &&& dropped == outcomes@.len()
                },
                Err(first) => {
                    &&& first < outcomes@.len()
                    &&& outcomes@[first as int] == Removal::Failed
                    &&& forall|i: int|
                        0 <= i < first ==> #[trigger] outcomes@[i] != Removal::Failed
                },
            },
    {
        let ghost before = self@.closed;
        let ghost shown = retentions_view(retentions@);
        let ghost expired = |segment: SegmentV| segment_expired(segment, now_ms, shown);
        let mut closed: Vec<Segment> = Vec::new();
        core::mem::swap(&mut self.closed, &mut closed);
        let mut keep: Vec<Segment> = Vec::new();
        let mut first: Option<usize> = None;
        let mut at: usize = 0;
        let total: usize = outcomes.len();
        proof {
            reveal(Seq::filter);
            assert(before.take(0) =~= Seq::<SegmentV>::empty());
            assert(closed_view(keep@) =~= Seq::<SegmentV>::empty());
        }
        for segment in it: closed
            invariant
                closed_view(it.seq()) == before,
                shown == retentions_view(retentions@),
                expired == (|segment: SegmentV| segment_expired(segment, now_ms, shown)),
                outcomes@.len() == before.filter(expired).len(),
                total == outcomes@.len(),
                at == before.take(it.index() as int).filter(expired).len(),
                at <= outcomes@.len(),
                closed_view(keep@) == kept_segments(
                    before.take(it.index() as int),
                    now_ms,
                    shown,
                    outcomes@,
                ),
                match first {
                    None => forall|k: int|
                        0 <= k < at ==> #[trigger] outcomes@[k] != Removal::Failed,
                    Some(first) => first < at && outcomes@[first as int] == Removal::Failed
                        && forall|k: int|
                        0 <= k < first ==> #[trigger] outcomes@[k] != Removal::Failed,
                },
        {
            let ghost i = it.index() as int;
            let ghost info = segment@;
            let ghost had = closed_view(keep@);
            proof {
                assert(closed_view(it.seq())[i] == info);
                assert(before.take(i + 1).drop_last() =~= before.take(i));
                assert(before.take(i + 1) =~= before.take(i).push(info));
                before.take(i).lemma_filter_push(info, expired);
                lemma_filter_prefix(before, i + 1, expired);
            }
            if !is_expired(&segment, now_ms, retentions) {
                keep.push(segment);
                assert(closed_view(keep@) =~= had.push(info));
            } else {
                if outcomes[at] == Removal::Failed {
                    if first.is_none() {
                        first = Some(at);
                    }
                    keep.push(segment);
                    assert(closed_view(keep@) =~= had.push(info));
                }
                at = at + 1;
            }
        }
        assert(before.take(before.len() as int) =~= before);
        self.closed = keep;
        match first {
            Some(first) => Err(first),
            None => Ok(total),
        }
    }
}

/// The first items of a sequence have at most as many matches as the whole.
proof fn lemma_filter_prefix<T>(items: Seq<T>, n: int, wanted: spec_fn(T) -> bool)
    requires
        0 <= n <= items.len(),
    ensures
        items.take(n).filter(wanted).len() <= items.filter(wanted).len(),
    decreases items.len() - n,
{
    if n < items.len() {
        lemma_filter_prefix(items, n + 1, wanted);
        assert(items.take(n + 1) =~= items.take(n).push(items[n]));
        items.take(n).lemma_filter_push(items[n], wanted);
    } else {
        assert(items.take(n) =~= items);
    }
}

fn is_released(
    stream: &str,
    timestamp_ms: u128,
    now_ms: u128,
    retentions: &Vec<(String, u64)>,
) -> (r: bool)
    ensures
        r == released(stream@, timestamp_ms, now_ms, retentions_view(retentions@)),
{
    match find_retention(retentions, stream) {
        None => true,
        Some(secs) => {
            let cutoff: u128 = secs as u128 * 1000;
            secs != 0 && now_ms.saturating_sub(timestamp_ms) > cutoff
        },
    }
}

fn is_expired(segment: &Segment, now_ms: u128, retentions: &Vec<(String, u64)>) -> (r: bool)
    ensures
        r == segment_expired(segment@, now_ms, retentions_view(retentions@)),
{
    let ghost shown = segment@.max_ts;
    let mut i: usize = 0;
    while i < segment.max_ts.len()
        invariant
            i <= segment.max_ts@.len(),
            shown == newest_view(segment.max_ts@),
            shown == segment@.max_ts,
            forall|k: int|
                0 <= k < i ==> released(
                    (#[trigger] shown[k]).0,
                    shown[k].1,
                    now_ms,
                    retentions_view(retentions@),
                ),
        decreases segment.max_ts@.len() - i,
    {
        let pair = &segment.max_ts[i];
        assert(shown[i as int] == (pair.0@, pair.1));
        if !is_released(pair.0.as_str(), pair.1, now_ms, retentions) {
            return false;
        }
        i = i + 1;
    }
    true
}

} // verus!
