//! What the log promises, written out: each step of an append, what a load finds, what is put
//! back, and what stays.
use crate::manifest::{defined, definitions};
use crate::put_promises::same_stream;
use crate::read_promises::first_named;
use crate::store::{
    bumped, max_seq, popped, replayed, restored, restored_all, shard_last, EntryV, StoreV,
};
use crate::store_laws::lemma_max_seq;
use crate::streams::{lemma_first_where, shard_index, RecordV, ShardV, StreamV};
use crate::wal::{
    expired_segments, file_segment, framed, kept_segments, listed_ids, loaded_wal, newest_of, segment_end, segment_entries,
    segment_expired, segment_tail, seg_file, AppendAction, AppendEvent, Removal, SegmentV, Tail, WalV,
};
use vstd::bytes::{lemma_auto_spec_u64_to_from_le_bytes, spec_u64_from_le_bytes};
use vstd::prelude::*;

verus! {

/// Whether two states of the log differ in nothing.
pub open spec fn same_log(a: WalV, b: WalV) -> bool {
    &&& a.segment_max == b.segment_max
    &&& a.closed == b.closed
    &&& a.active_id == b.active_id
    &&& a.active_bytes == b.active_bytes
    &&& a.active_max_ts == b.active_max_ts
    &&& a.poisoned == b.poisoned
}

/// How an append starts: a poisoned segment is given up without a flush, a full one is flushed to
/// be closed, and any other is written to. Nothing changes by that.
pub proof fn law_append_starts_by_the_state(
    wal: WalV,
    frame_len: usize,
    stream: Seq<char>,
    timestamp_ms: u128,
)
    ensures
        ({
            let (after, action) = wal.after(AppendEvent::Start, frame_len, stream, timestamp_ms);
            &&& same_log(after, wal)
            &&& wal.poisoned ==> action == AppendAction::Discard
            &&& !wal.poisoned && wal.active_bytes >= wal.segment_max ==> action
                == AppendAction::Flush
            &&& !wal.poisoned && wal.active_bytes < wal.segment_max ==> action
                == AppendAction::Write
        }),
{
}

/// How a segment gives way to the next: it joins the closed ones with its number and its newest
/// timestamps, the next number is opened, and once that is open it is empty and not poisoned. A
/// step that fails ends the append and changes nothing more.
pub proof fn law_segment_gives_way_to_the_next(
    wal: WalV,
    frame_len: usize,
    stream: Seq<char>,
    timestamp_ms: u128,
)
    requires
        wal.active_id < u64::MAX,
    ensures
        ({
            let gone = wal.after(AppendEvent::Flushed(true), frame_len, stream, timestamp_ms);
            let closed = SegmentV { id: wal.active_id, max_ts: wal.active_max_ts };
            &&& gone == wal.after(AppendEvent::Discarded, frame_len, stream, timestamp_ms)
            &&& gone.1 == AppendAction::Open((wal.active_id + 1) as u64)
            &&& gone.0.closed == wal.closed.push(closed)
            &&& gone.0.active_id == wal.active_id + 1
            &&& gone.0.segment_max == wal.segment_max
            &&& gone.0.active_bytes == wal.active_bytes
            &&& gone.0.active_max_ts == wal.active_max_ts
            &&& gone.0.poisoned == wal.poisoned
        }),
        ({
            let opened = wal.after(AppendEvent::Opened(true), frame_len, stream, timestamp_ms);
            &&& opened.1 == AppendAction::Write
            &&& opened.0.active_bytes == 0
            &&& opened.0.active_max_ts.len() == 0
            &&& !opened.0.poisoned
            &&& opened.0.closed == wal.closed
            &&& opened.0.active_id == wal.active_id
            &&& opened.0.segment_max == wal.segment_max
        }),
        ({
            let unflushed = wal.after(AppendEvent::Flushed(false), frame_len, stream, timestamp_ms);
            let unopened = wal.after(AppendEvent::Opened(false), frame_len, stream, timestamp_ms);
            &&& unflushed.1 == AppendAction::Fail && same_log(unflushed.0, wal)
            &&& unopened.1 == AppendAction::Fail && same_log(unopened.0, wal)
        }),
{
}

/// What a write leaves behind: where it succeeds, the segment is as much longer as the frame is,
/// and the record counts among the newest of its stream; where it fails, the segment is poisoned.
pub proof fn law_write_is_taken_note_of(
    wal: WalV,
    frame_len: usize,
    stream: Seq<char>,
    timestamp_ms: u128,
)
    ensures
        ({
            let (done, action) = wal.after(
                AppendEvent::Written(true),
                frame_len,
                stream,
                timestamp_ms,
            );
            &&& action == AppendAction::Done
            &&& wal.active_bytes + frame_len <= u64::MAX ==> done.active_bytes == wal.active_bytes
                + frame_len
            &&& wal.active_bytes + frame_len > u64::MAX ==> done.active_bytes == u64::MAX
            &&& exists|k: int|
                0 <= k < done.active_max_ts.len() && (#[trigger] done.active_max_ts[k]).0 == stream
                    && done.active_max_ts[k].1 >= timestamp_ms
            &&& forall|k: int|
                0 <= k < wal.active_max_ts.len() ==> done.active_max_ts.len() > k && (
                #[trigger] done.active_max_ts[k]).0 == wal.active_max_ts[k].0
                    && done.active_max_ts[k].1 >= wal.active_max_ts[k].1
            &&& done.closed == wal.closed
            &&& done.active_id == wal.active_id
            &&& done.segment_max == wal.segment_max
            &&& done.poisoned == wal.poisoned
        }),
        ({
            let (torn, action) = wal.after(
                AppendEvent::Written(false),
                frame_len,
                stream,
                timestamp_ms,
            );
            &&& action == AppendAction::Fail
            &&& torn.poisoned
            &&& same_log(WalV { poisoned: wal.poisoned, ..torn }, wal)
        }),
{
    crate::wal::lemma_noted(wal.active_max_ts, stream, timestamp_ms);
    let done = wal.after(AppendEvent::Written(true), frame_len, stream, timestamp_ms).0;
    assert(crate::wal::bounds(done.active_max_ts, stream, timestamp_ms));
}

/// A frame is eight bytes that give the length of the body, the least significant one first, and
/// then the body.
pub proof fn law_frame_gives_the_length_first(body: Seq<u8>)
    requires
        body.len() <= u64::MAX,
    ensures
        framed(body).len() == 8 + body.len(),
        spec_u64_from_le_bytes(framed(body).take(8)) == body.len(),
        framed(body).skip(8) == body,
{
    lemma_auto_spec_u64_to_from_le_bytes();
    let head = vstd::bytes::spec_u64_to_le_bytes(body.len() as u64);
    assert(framed(body).take(8) =~= head);
    assert(framed(body).skip(8) =~= body);
}

/// What a load makes of segment files: the last one is active, with its number, the length of its
/// complete frames and the newest timestamps of its entries; the others are closed, each with its
/// own; and what is behind the complete frames is cut off in the last file, and passed over in
/// the others.
pub proof fn law_load_takes_the_files_as_they_are(
    segment_max: u64,
    files: Seq<(u64, Seq<u8>)>,
    i: int,
)
    requires
        0 <= i < files.len(),
        0 <= segment_end(files[i].1) <= files[i].1.len() <= usize::MAX,
    ensures
        ({
            let wal = loaded_wal(segment_max, files);
            let last = files.len() - 1;
            &&& wal.segment_max == segment_max
            &&& !wal.poisoned
            &&& wal.closed.len() == last
            &&& i < last ==> wal.closed[i].id == files[i].0 && wal.closed[i].max_ts == newest_of(
                segment_entries(files[i].1),
            )
            &&& i == last ==> wal.active_id == files[i].0 && wal.active_bytes == segment_end(
                files[i].1,
            ) && wal.active_max_ts == newest_of(segment_entries(files[i].1))
        }),
        ({
            let len = files[i].1.len() as int;
            let end = segment_end(files[i].1);
            &&& end == len ==> segment_tail(len, end, true) == Tail::Clean && segment_tail(
                len,
                end,
                false,
            ) == Tail::Clean
            &&& end < len ==> segment_tail(len, end, true) == Tail::Truncate(end as usize)
                && segment_tail(len, end, false) == Tail::Skipped((len - end) as usize)
        }),
        ({
            let fresh = loaded_wal(segment_max, Seq::empty());
            &&& fresh.segment_max == segment_max
            &&& fresh.closed.len() == 0
            &&& fresh.active_id == 1
            &&& fresh.active_bytes == 0
            &&& fresh.active_max_ts.len() == 0
            &&& !fresh.poisoned
        }),
{
}

/// A segment whose removal failed stays, so that it is tried again.
pub proof fn law_failed_removal_stays(
    closed: Seq<SegmentV>,
    now_ms: u128,
    retentions: Seq<(Seq<char>, u64)>,
    outcomes: Seq<Removal>,
    i: int,
)
    requires
        0 <= i < closed.len(),
        segment_expired(closed[i], now_ms, retentions),
        outcomes[expired_segments(closed.take(i), now_ms, retentions).len() as int]
            == Removal::Failed,
    ensures
        kept_segments(closed, now_ms, retentions, outcomes).contains(closed[i]),
    decreases closed.len(),
{
    let rest = closed.drop_last();
    let before = kept_segments(rest, now_ms, retentions, outcomes);
    let kept = kept_segments(closed, now_ms, retentions, outcomes);
    if i < rest.len() {
        assert(rest.take(i) =~= closed.take(i));
        law_failed_removal_stays(rest, now_ms, retentions, outcomes, i);
        let k = before.index_of(closed[i]);
        assert(before[k] == closed[i]);
        assert(kept[k] == closed[i]);
    } else {
        assert(closed.take(i) =~= rest);
        assert(kept[kept.len() - 1] == closed[i]);
    }
}

/// What putting a log entry back does: where the stream is there, the entry is not older than it,
/// and a shard has its id, the record stands behind those of the first such shard, as it is and
/// under its own number; the counter and everything else stay. Otherwise nothing is put back.
pub proof fn law_entry_is_put_back_as_it_is(
    store: StoreV,
    name: Seq<char>,
    shard_id: Seq<char>,
    record: RecordV,
)
    ensures
        match restored(store, name, shard_id, record) {
            Some(after) => {
                &&& store.streams.contains_key(name)
                &&& record.timestamp_ms >= store.streams[name].created_ms
                &&& exists|at: int| #[trigger]
                    first_named(store.streams[name].shards, shard_id, at)
                        && puts_behind(store, after, name, at, record)
            },
            None => {
                ||| !store.streams.contains_key(name)
                ||| record.timestamp_ms < store.streams[name].created_ms
                ||| forall|i: int|
                    0 <= i < store.streams[name].shards.len() ==> (
                    #[trigger] store.streams[name].shards[i]).id != shard_id
            },
        },
{
    if store.streams.contains_key(name) {
        let shards = store.streams[name].shards;
        let by_id = |shard: ShardV| shard.id == shard_id;
        lemma_first_where(shards, by_id);
        if let Some(after) = restored(store, name, shard_id, record) {
            let at = shard_index(shards, shard_id)->0;
            assert(first_named(shards, shard_id, at));
            assert(after.streams.dom() =~= store.streams.dom());
            assert(puts_behind(store, after, name, at, record));
        }
    }
}

/// Whether `after` is `store` with a record behind those of shard `at`, and nothing else differs,
/// the counter included.
pub open spec fn puts_behind(
    store: StoreV,
    after: StoreV,
    name: Seq<char>,
    at: int,
    record: RecordV,
) -> bool {
    &&& after.counter == store.counter
    &&& after.order == store.order
    &&& after.default_retention_secs == store.default_retention_secs
    &&& after.streams.dom() == store.streams.dom()
    &&& forall|k: Seq<char>|
        store.streams.contains_key(k) && k != name ==> #[trigger] after.streams[k]
            == store.streams[k]
    &&& same_stream(after.streams[name], store.streams[name])
    &&& forall|i: int|
        0 <= i < store.streams[name].shards.len() ==> (
        #[trigger] after.streams[name].shards[i]).records == if i == at {
            store.streams[name].shards[i].records.push(record)
        } else {
            store.streams[name].shards[i].records
        }
}

/// What taking a record back does: it undoes exactly a record that stands last in the shard and has
/// the number; otherwise nothing is taken.
pub proof fn law_record_is_taken_back_from_the_end(
    store: StoreV,
    name: Seq<char>,
    shard_id: Seq<char>,
    seq: u64,
    at: int,
)
    requires
        store.streams.contains_key(name),
        first_named(store.streams[name].shards, shard_id, at),
    ensures
        ({
            let records = store.streams[name].shards[at].records;
            let last = records[records.len() - 1];
            match popped(store, name, shard_id, seq) {
                Some(after) => {
                    &&& records.len() > 0 && last.seq == seq
                    &&& puts_behind(after, store, name, at, last)
                },
                None => records.len() == 0 || last.seq != seq,
            }
        }),
        ({
            let records = store.streams[name].shards[at].records;
            shard_last(store, name, shard_id) == if records.len() > 0 {
                Some(records[records.len() - 1])
            } else {
                None
            }
        }),
{
    let shards = store.streams[name].shards;
    let by_id = |shard: ShardV| shard.id == shard_id;
    lemma_first_where(shards, by_id);
    assert(by_id(shards[at]));
    assert(shard_index(shards, shard_id) == Some(at));
    let records = shards[at].records;
    if let Some(after) = popped(store, name, shard_id, seq) {
        assert(after.streams.dom() =~= store.streams.dom());
        assert(records =~= records.drop_last().push(records.last()));
        assert(after.streams[name].shards[at].records == records.drop_last());
    }
}

/// Whether a replay owes an entry to a shard of a stream that was created at a given time.
pub open spec fn belongs(
    name: Seq<char>,
    shard_id: Seq<char>,
    created_ms: u128,
) -> spec_fn(EntryV) -> bool {
    |entry: EntryV|
        entry.stream == name && entry.shard_id == shard_id && entry.record.timestamp_ms
            >= created_ms
}

/// Putting a log back appends to each shard the records of its own entries that are not older
/// than the stream, in the order of the log and each as it is. Streams, shards and the counter
/// stay as they are.
pub proof fn law_log_is_put_back_in_its_order(
    store: StoreV,
    log: Seq<EntryV>,
    name: Seq<char>,
    shard_id: Seq<char>,
    i: int,
)
    requires
        store.streams.contains_key(name),
        first_named(store.streams[name].shards, shard_id, i),
    ensures
        ({
            let after = restored_all(store, log);
            let own = belongs(name, shard_id, store.streams[name].created_ms);
            &&& after.counter == store.counter
            &&& after.order == store.order
            &&& after.default_retention_secs == store.default_retention_secs
            &&& after.streams.dom() == store.streams.dom()
            &&& same_stream(after.streams[name], store.streams[name])
            &&& after.streams[name].shards[i].records == store.streams[name].shards[i].records
                + log.filter(own).map_values(|entry: EntryV| entry.record)
        }),
    decreases log.len(),
{
    let own = belongs(name, shard_id, store.streams[name].created_ms);
    let record_of = |entry: EntryV| entry.record;
    let old_records = store.streams[name].shards[i].records;
    reveal(Seq::filter);
    if log.len() == 0 {
        assert(log.filter(own).map_values(record_of) =~= Seq::<RecordV>::empty());
        assert(old_records + Seq::<RecordV>::empty() =~= old_records);
    } else {
        let rest = log.drop_last();
        let entry = log.last();
        let before = restored_all(store, rest);
        law_log_is_put_back_in_its_order(store, rest, name, shard_id, i);
        law_entry_is_put_back_as_it_is(before, entry.stream, entry.shard_id, entry.record);
        let shards = before.streams[name].shards;
        assert forall|j: int| 0 <= j < shards.len() implies (#[trigger] shards[j]).id
            == store.streams[name].shards[j].id by {}
        assert(first_named(shards, shard_id, i)) by {
            assert forall|j: int| 0 <= j < i implies (#[trigger] shards[j]).id != shard_id by {
                assert(store.streams[name].shards[j].id != shard_id);
            }
        }
        let taken = rest.filter(own).map_values(record_of);
        match restored(before, entry.stream, entry.shard_id, entry.record) {
            Some(after) => {
                let at = choose|at: int| #[trigger]
                    first_named(before.streams[entry.stream].shards, entry.shard_id, at)
                        && puts_behind(before, after, entry.stream, at, entry.record);
                if entry.stream == name {
                    assert(shards[i].id == shard_id);
                    assert(shards[at].id == entry.shard_id);
                    assert(entry.shard_id == shard_id ==> at == i);
                    assert(after.streams[name].shards[i].records == if i == at {
                        shards[i].records.push(entry.record)
                    } else {
                        shards[i].records
                    });
                }
                if own(entry) {
                    assert(log.filter(own) =~= rest.filter(own).push(entry));
                    assert(log.filter(own).map_values(record_of) =~= taken.push(entry.record));
                    assert(old_records + taken.push(entry.record) =~= (old_records + taken).push(
                        entry.record,
                    ));
                } else {
                    assert(log.filter(own) =~= rest.filter(own));
                }
                assert(same_stream(after.streams[name], store.streams[name])) by {
                    if entry.stream != name {
                        assert(after.streams[name] == before.streams[name]);
                    }
                    assert forall|j: int| 0 <= j < after.streams[name].shards.len() implies
                        crate::put_promises::same_shard(
                        #[trigger] after.streams[name].shards[j],
                        store.streams[name].shards[j],
                    ) by {
                        assert(crate::put_promises::same_shard(
                            shards[j],
                            store.streams[name].shards[j],
                        ));
                    }
                }
            },
            None => {
                assert(shards[i].id == shard_id);
                assert(!own(entry));
                assert(log.filter(own) =~= rest.filter(own));
            },
        }
    }
}

/// After a replay the counter is not below what it was, nor below any number in the log, and it is
/// one of these.
pub proof fn law_replay_raises_the_counter_to_the_largest(
    store: StoreV,
    log: Seq<EntryV>,
    now: u128,
    i: int,
)
    requires
        0 <= i < log.len(),
    ensures
        ({
            let counter = replayed(store, log, now).counter;
            &&& counter >= store.counter
            &&& counter >= log[i].record.seq
            &&& counter == store.counter || exists|k: int|
                0 <= k < log.len() && (#[trigger] log[k]).record.seq == counter
        }),
{
    lemma_max_seq(log, i);
    lemma_max_is_there(log);
    lemma_counter_stays(store, log);
    let full = restored_all(store, log);
    assert(bumped(full, max_seq(log)).counter == replayed(store, log, now).counter);
}

proof fn lemma_max_is_there(log: Seq<EntryV>)
    ensures
        max_seq(log) == 0 || exists|k: int|
            0 <= k < log.len() && (#[trigger] log[k]).record.seq == max_seq(log),
    decreases log.len(),
{
    if log.len() > 0 {
        let rest = log.drop_last();
        lemma_max_is_there(rest);
        if max_seq(log) == max_seq(rest) && max_seq(rest) != 0 {
            let k = choose|k: int|
                0 <= k < rest.len() && (#[trigger] rest[k]).record.seq == max_seq(rest);
            assert(log[k] == rest[k]);
        } else {
            assert(max_seq(log) != 0 ==> log[log.len() - 1].record.seq == max_seq(log));
        }
    }
}

proof fn lemma_counter_stays(store: StoreV, log: Seq<EntryV>)
    ensures
        restored_all(store, log).counter == store.counter,
    decreases log.len(),
{
    if log.len() > 0 {
        let rest = log.drop_last();
        let entry = log.last();
        lemma_counter_stays(store, rest);
        law_entry_is_put_back_as_it_is(
            restored_all(store, rest),
            entry.stream,
            entry.shard_id,
            entry.record,
        );
    }
}

/// What the manifest holds: each stream under its own name, in the order of the store, with
/// everything but its records.
pub proof fn law_manifest_holds_each_stream(store: StoreV, i: int)
    requires
        0 <= i < store.order.len(),
    ensures
        definitions(store).len() == store.order.len(),
        definitions(store)[i].0 == store.order[i],
        same_stream(definitions(store)[i].1, store.streams[store.order[i]]),
        forall|k: int|
            0 <= k < definitions(store)[i].1.shards.len() ==> (
            #[trigger] definitions(store)[i].1.shards[k]).records.len() == 0,
{
}

/// What is loaded from a manifest: the last definition of a name counts, with everything but its
/// records, and the counter and the default retention are those that came with it.
pub proof fn law_loaded_streams_are_those_of_the_manifest(
    given: Seq<(Seq<char>, StreamV)>,
    i: int,
    counter: u64,
    default_retention_secs: u64,
)
    requires
        0 <= i < given.len(),
        forall|k: int| i < k < given.len() ==> (#[trigger] given[k]).0 != given[i].0,
    ensures
        ({
            let store = defined(given, given.len(), counter, default_retention_secs);
            &&& store.counter == counter
            &&& store.default_retention_secs == default_retention_secs
            &&& store.streams.contains_key(given[i].0)
            &&& same_stream(store.streams[given[i].0], given[i].1)
            &&& forall|k: int|
                0 <= k < given[i].1.shards.len() ==> (
                #[trigger] store.streams[given[i].0].shards[k]).records.len() == 0
            &&& forall|name: Seq<char>| #[trigger]
                store.streams.contains_key(name) ==> exists|k: int|
                    0 <= k < given.len() && (#[trigger] given[k]).0 == name
        }),
{
    lemma_last_counts(given, given.len(), i, counter, default_retention_secs);
}

proof fn lemma_last_counts(
    given: Seq<(Seq<char>, StreamV)>,
    n: nat,
    i: int,
    counter: u64,
    default_retention_secs: u64,
)
    requires
        0 <= i < given.len(),
        n <= given.len(),
        forall|k: int| i < k < given.len() ==> (#[trigger] given[k]).0 != given[i].0,
    ensures
        ({
            let store = defined(given, n, counter, default_retention_secs);
            &&& store.counter == counter
            &&& store.default_retention_secs == default_retention_secs
            &&& i < n ==> {
                &&& store.streams.contains_key(given[i].0)
                &&& same_stream(store.streams[given[i].0], given[i].1)
                &&& forall|k: int|
                    0 <= k < given[i].1.shards.len() ==> (
                    #[trigger] store.streams[given[i].0].shards[k]).records.len() == 0
            }
            &&& forall|name: Seq<char>| #[trigger]
                store.streams.contains_key(name) ==> exists|k: int|
                    0 <= k < n && (#[trigger] given[k]).0 == name
        }),
    decreases n,
{
    if n > 0 {
        let m = (n - 1) as nat;
        lemma_last_counts(given, m, i, counter, default_retention_secs);
        let before = defined(given, m, counter, default_retention_secs);
        let store = defined(given, n, counter, default_retention_secs);
        assert forall|name: Seq<char>| #[trigger] store.streams.contains_key(name) implies exists|
            k: int,
        | 0 <= k < n && (#[trigger] given[k]).0 == name by {
            if name == given[m as int].0 {
                assert(given[m as int].0 == name);
            } else {
                assert(before.streams.contains_key(name));
                let k = choose|k: int| 0 <= k < m && (#[trigger] given[k]).0 == name;
                assert(given[k].0 == name);
            }
        }
    }
}

/// A segment is found in a directory exactly where one of the files there names it.
pub proof fn law_segments_are_found_by_their_names(names: Seq<String>, id: u64)
    ensures
        listed_ids(names).contains(id) <==> exists|i: int|
            0 <= i < names.len() && file_segment((#[trigger] names[i])@) == Some(id as nat),
        forall|i: int|
            0 <= i < names.len() && (#[trigger] names[i])@ == seg_file(id) ==> listed_ids(
                names,
            ).contains(id),
    decreases names.len(),
{
    crate::wal::law_segment_name_names_the_segment(id);
    let all = listed_ids(names);
    if names.len() > 0 {
        let rest = names.drop_last();
        let before = listed_ids(rest);
        law_segments_are_found_by_their_names(rest, id);
        lemma_listed_fits(names.last()@);
        if all.contains(id) {
            let k = all.index_of(id);
            assert(all[k] == id);
            if k < before.len() {
                assert(before[k] == id);
                assert(before.contains(id));
                let i = choose|i: int|
                    0 <= i < rest.len() && file_segment((#[trigger] rest[i])@) == Some(id as nat);
                assert(names[i] == rest[i]);
            } else {
                assert(file_segment(names[names.len() - 1]@) == Some(id as nat));
            }
        }
        assert forall|i: int|
            0 <= i < names.len() && file_segment((#[trigger] names[i])@) == Some(
                id as nat,
            ) implies all.contains(id) by {
            if i < rest.len() {
                assert(rest[i] == names[i]);
                let k = before.index_of(id);
                assert(before[k] == id);
                assert(all[k] == id);
            } else {
                assert(all[all.len() - 1] == id);
            }
        }
    }
}

proof fn lemma_listed_fits(name: Seq<char>)
    ensures
        file_segment(name) is Some ==> file_segment(name)->0 <= u64::MAX,
{
}

/// The file of a segment is named by its number in decimal digits, at least ten of them.
pub proof fn law_segment_file_has_ten_digits(id: u64)
    ensures
        ({
            let digits = crate::text::decimal(id as nat);
            &&& digits.len() >= 10 ==> seg_file(id) == "seg-"@ + digits + ".log"@
            &&& digits.len() < 10 ==> seg_file(id) == "seg-"@ + (Seq::new(
                (10 - digits.len()) as nat,
                |k: int| '0',
            ) + digits) + ".log"@
        }),
{
}

} // verus!
