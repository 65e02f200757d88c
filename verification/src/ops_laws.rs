//! What holds of the operations over several calls: what is read back of a write, and what a
//! refused or a failed request leaves behind.
use crate::json::JsonV;
use crate::ops::{
    batch_settled, batch_stored, begin_outcome, failed_json, place_outcome, placed_json,
    put_request, settled, BatchV, PendingV, PlacedV,
};
use crate::params::required;
use crate::protocol::{base64_bytes, base64_text, is_base64};
use crate::records::{is_start, page_at, page_len, record_json};
use crate::store::{put_at_hash, put_hash, start_seq, StoreV};
use crate::store_laws::{
    covers_ring, distinct_ids, law_put_always_finds_a_shard, law_put_is_read_back, law_rollback_undoes_a_put,
    law_store_stays_sound, sound,
};
use crate::streams::{shard_index, RecordV};
use vstd::prelude::*;

verus! {

/// A read gives back what was written: in the answer to a reader, a record shows the very
/// partition key and the very base64 text of the request that put it.
pub proof fn law_written_data_is_read_back(req: JsonV, seq: u64, now: u128)
    requires
        put_request(req) is Ok,
    ensures
        ({
            let pending = put_request(req)->Ok_0.1;
            let record = RecordV {
                seq,
                partition_key: pending.partition_key,
                data: pending.data,
                timestamp_ms: now,
            };
            let fields = record_json(record)->Object_0;
            &&& fields[2] == ("PartitionKey"@, JsonV::Text(required(req, "PartitionKey"@)->Ok_0))
            &&& fields[3] == ("Data"@, JsonV::Text(required(req, "Data"@)->Ok_0))
        }),
{
    let text = required(req, "Data"@)->Ok_0;
    assert(is_base64(text));
    assert(base64_text(base64_bytes(text)) == text);
}

/// A refused PutRecord request leaves every stream and every record as it was.
pub proof fn law_refused_put_stores_nothing(store: StoreV, req: JsonV, now: u128)
    requires
        begin_outcome(store, req, now).1 is Err,
    ensures
        begin_outcome(store, req, now).0.streams == store.streams,
        begin_outcome(store, req, now).0.order == store.order,
{
}

/// A record of a batch that could not be logged is gone again: the store is as before that
/// record, but for the sequence number, which stays used up.
pub proof fn law_unlogged_member_is_taken_back(
    store: StoreV,
    name: Seq<char>,
    pending: PendingV,
    now: u128,
)
    requires
        sound(store),
        store.streams.contains_key(name),
        store.counter < u64::MAX,
    ensures
        ({
            let (after, answer) = place_outcome(store, name, pending, now);
            let placed = PlacedV { stream: name, shard_id: (answer->0).0, seq: (answer->0).1 };
            &&& answer is Some
            &&& settled(after, placed, false) == store.with_counter((store.counter + 1) as u64)
        }),
{
    let hash = put_hash(pending.partition_key, pending.explicit_hash_key);
    law_put_always_finds_a_shard(
        store,
        name,
        pending.partition_key,
        pending.data,
        hash,
        now,
    );
    law_rollback_undoes_a_put(store, name, pending.partition_key, pending.data, hash, now);
}

/// A record that could not be logged is gone again: the store is as before the request, but
/// for the sequence number, which stays used up.
pub proof fn law_unlogged_record_is_taken_back(store: StoreV, req: JsonV, now: u128)
    requires
        sound(store),
        store.counter < u64::MAX,
        begin_outcome(store, req, now).1 is Ok,
    ensures
        settled(
            begin_outcome(store, req, now).0,
            begin_outcome(store, req, now).1->Ok_0,
            false,
        ) == store.with_counter((store.counter + 1) as u64),
{
    let (name, pending) = put_request(req)->Ok_0;
    law_unlogged_member_is_taken_back(store, name, pending, now);
}

/// Whether a result says that a record was stored under a sequence number.
pub open spec fn is_placed(result: JsonV, seq: u64) -> bool {
    exists|shard_id: Seq<char>| result == #[trigger] placed_json(shard_id, seq)
}

/// A batch that is accepted is stored as a whole: every record finds its shard, and the
/// records get consecutive sequence numbers in their order.
pub proof fn law_accepted_batch_is_stored_whole(
    store: StoreV,
    name: Seq<char>,
    pending: Seq<PendingV>,
    times: Seq<u128>,
    n: nat,
)
    requires
        sound(store),
        store.streams.contains_key(name),
        store.counter + n <= u64::MAX,
    ensures
        ({
            let (after, results) = batch_stored(store, name, pending, times, n);
            &&& sound(after)
            &&& after.streams.contains_key(name)
            &&& after.counter == store.counter + n
            &&& results is Some
            &&& results->0.len() == n
            &&& forall|i: int|
                0 <= i < n ==> is_placed(
                    #[trigger] results->0[i],
                    (store.counter + 1 + i) as u64,
                )
        }),
    decreases n,
{
    if n > 0 {
        let m = (n - 1) as nat;
        law_accepted_batch_is_stored_whole(store, name, pending, times, m);
        let (before, results) = batch_stored(store, name, pending, times, m);
        let item = pending[n - 1];
        let now = times[n - 1];
        let hash = put_hash(item.partition_key, item.explicit_hash_key);
        law_put_always_finds_a_shard(
            before,
            name,
            item.partition_key,
            item.data,
            hash,
            now,
        );
        law_store_stays_sound(
            before,
            name,
            Seq::empty(),
            0,
            None,
            item.partition_key,
            item.data,
            hash,
            RecordV { seq: 0, partition_key: item.partition_key, data: item.data, timestamp_ms: 0 },
            0,
            now,
        );
        let (after, answer) = place_outcome(before, name, item, now);
        let all = batch_stored(store, name, pending, times, n).1->0;
        assert forall|i: int| 0 <= i < n implies is_placed(
            #[trigger] all[i],
            (store.counter + 1 + i) as u64,
        ) by {
            if i < m {
                assert(all[i] == results->0[i]);
            } else {
                assert(all[i] == placed_json((answer->0).0, (answer->0).1));
            }
        }
    }
}

/// The store and the batch after the next record was placed and settled.
pub open spec fn batch_step(store: StoreV, batch: BatchV, now: u128, logged: bool) -> (
    StoreV,
    BatchV,
) {
    let (after, answer) = place_outcome(store, batch.stream, batch.pending[0], now);
    let placed = PlacedV { stream: batch.stream, shard_id: (answer->0).0, seq: (answer->0).1 };
    let rest = BatchV { pending: batch.pending.drop_first(), ..batch };
    (settled(after, placed, logged), batch_settled(rest, placed, logged))
}

/// The store and the batch after its first `n` records, where `logged` tells which of them
/// could be logged.
pub open spec fn batch_run(
    store: StoreV,
    batch: BatchV,
    times: Seq<u128>,
    logged: Seq<bool>,
    n: nat,
) -> (StoreV, BatchV)
    decreases n,
{
    if n == 0 {
        (store, batch)
    } else {
        let (before, rest) = batch_run(store, batch, times, logged, (n - 1) as nat);
        batch_step(before, rest, times[n - 1], logged[n - 1])
    }
}

/// The store after those of the first `n` records that could be logged, where each of the others
/// has only used up its sequence number.
pub open spec fn logged_only(
    store: StoreV,
    name: Seq<char>,
    pending: Seq<PendingV>,
    times: Seq<u128>,
    logged: Seq<bool>,
    n: nat,
) -> StoreV
    decreases n,
{
    if n == 0 {
        store
    } else {
        let before = logged_only(store, name, pending, times, logged, (n - 1) as nat);
        if logged[n - 1] {
            place_outcome(before, name, pending[n - 1], times[n - 1]).0
        } else {
            before.with_counter((before.counter + 1) as u64)
        }
    }
}

/// How many of the first `n` records could not be logged.
pub open spec fn failures(logged: Seq<bool>, n: nat) -> nat
    decreases n,
{
    if n == 0 {
        0
    } else {
        failures(logged, (n - 1) as nat) + if logged[n - 1] {
            0nat
        } else {
            1nat
        }
    }
}

/// A whole batch, with the outcome of each append: the store holds exactly the records that
/// could be logged, the answer has one result for each record in its order, with the sequence
/// number of each that is stored and the failure of each that is not, and it counts the failures.
pub proof fn law_batch_stores_what_was_logged(
    store: StoreV,
    batch: BatchV,
    times: Seq<u128>,
    logged: Seq<bool>,
    n: nat,
)
    requires
        sound(store),
        store.streams.contains_key(batch.stream),
        batch.wf(),
        batch.results.len() == 0,
        n <= batch.pending.len(),
        n <= times.len(),
        n <= logged.len(),
        store.counter + n <= u64::MAX,
    ensures
        ({
            let (after, rest) = batch_run(store, batch, times, logged, n);
            &&& after == logged_only(store, batch.stream, batch.pending, times, logged, n)
            &&& after.counter == store.counter + n
            &&& sound(after)
            &&& after.streams.contains_key(batch.stream)
            &&& rest.stream == batch.stream
            &&& rest.pending == batch.pending.skip(n as int)
            &&& rest.results.len() == n
            &&& rest.failed == failures(logged, n)
            &&& failures(logged, n) <= n
            &&& forall|i: int|
                0 <= i < n ==> if logged[i] {
                    is_placed(#[trigger] rest.results[i], (store.counter + 1 + i) as u64)
                } else {
                    rest.results[i] == failed_json()
                }
        }),
    decreases n,
{
    if n == 0 {
        assert(batch.pending.skip(0) =~= batch.pending);
    } else {
        let m = (n - 1) as nat;
        law_batch_stores_what_was_logged(store, batch, times, logged, m);
        let (before, rest) = batch_run(store, batch, times, logged, m);
        let item = batch.pending[n - 1];
        let now = times[n - 1];
        assert(rest.pending[0] == item);
        assert(rest.pending.drop_first() =~= batch.pending.skip(n as int));
        let hash = put_hash(item.partition_key, item.explicit_hash_key);
        law_unlogged_member_is_taken_back(before, batch.stream, item, now);
        law_store_stays_sound(
            before,
            batch.stream,
            Seq::empty(),
            0,
            None,
            item.partition_key,
            item.data,
            hash,
            RecordV { seq: 0, partition_key: item.partition_key, data: item.data, timestamp_ms: 0 },
            0,
            now,
        );
        let (placed_store, answer) = place_outcome(before, batch.stream, item, now);
        let (after, next) = batch_run(store, batch, times, logged, n);
        assert((answer->0).1 == store.counter + n);
        assert forall|i: int| 0 <= i < n implies if logged[i] {
            is_placed(#[trigger] next.results[i], (store.counter + 1 + i) as u64)
        } else {
            next.results[i] == failed_json()
        } by {
            if i < m {
                assert(next.results[i] == rest.results[i]);
            } else if logged[i] {
                assert(next.results[i] == placed_json((answer->0).0, (answer->0).1));
            }
        }
        if !logged[n - 1] {
            let moved = before.with_counter((before.counter + 1) as u64);
            assert(after == moved);
            assert forall|name: Seq<char>| #[trigger] moved.streams.contains_key(name) implies covers_ring(
                moved.streams[name].shards,
            ) && distinct_ids(moved.streams[name].shards) by {
                assert(before.streams.contains_key(name));
            }
        }
    }
}

/// A reader that stood at the end of a shard (`LATEST`) gets the next record that is put into
/// that shard, and nothing else.
pub proof fn law_waiting_reader_gets_the_put(
    store: StoreV,
    name: Seq<char>,
    partition_key: Seq<char>,
    data: Seq<u8>,
    hash: u128,
    now: u128,
    limit: nat,
    later: u128,
)
    requires
        sound(store),
        store.streams.contains_key(name),
        store.counter < u64::MAX - 1,
        limit > 0,
        forall|i: int, k: int|
            0 <= i < store.streams[name].shards.len() && 0 <= k
                < store.streams[name].shards[i].records.len() ==> (
            #[trigger] store.streams[name].shards[i].records[k]).seq <= store.counter,
    ensures
        ({
            let (after, answer) = put_at_hash(store, name, partition_key, data, hash, now);
            let at = shard_index(after.streams[name].shards, (answer->0).0)->0;
            let before = store.streams[name].shards[at].records;
            let records = after.streams[name].shards[at].records;
            let start = start_seq(before, "LATEST"@, None, None)->0;
            let record = RecordV { seq: (answer->0).1, partition_key, data, timestamp_ms: now };
            let page = page_at(records, start, before.len() as int, limit, later);
            &&& is_start(records, start, before.len() as int)
            &&& page.records == seq![record]
            &&& page.next_seq == record.seq + 1
            &&& page.millis_behind == 0
        }),
{
    reveal_strlit("TRIM_HORIZON");
    reveal_strlit("LATEST");
    assert("TRIM_HORIZON"@.len() == 12);
    assert("LATEST"@.len() == 6);
    law_put_is_read_back(store, name, partition_key, data, hash, now);
    let (after, answer) = put_at_hash(store, name, partition_key, data, hash, now);
    let at = shard_index(after.streams[name].shards, (answer->0).0)->0;
    crate::streams::lemma_first_where(
        after.streams[name].shards,
        |shard: crate::streams::ShardV| shard.id == (answer->0).0,
    );
    let before = store.streams[name].shards[at].records;
    let records = after.streams[name].shards[at].records;
    let record = RecordV { seq: (answer->0).1, partition_key, data, timestamp_ms: now };
    assert(records.drop_last() == before);
    assert(records.last() == record);
    assert(records =~= before.push(record));
    if before.len() > 0 {
        assert(store.streams[name].shards[at].records[before.len() - 1].seq <= store.counter);
    }
    let rest = records.skip(before.len() as int);
    assert(rest =~= seq![record]);
    reveal_with_fuel(page_len, 3);
    assert(page_len(rest, limit, 0) == 1);
    assert(rest.take(1) =~= seq![record]);
}

} // verus!
