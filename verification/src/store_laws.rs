//! What holds of the store over several operations: every hash has its shard, sequence
//! numbers rise and are never given out twice, a put can be read back or taken back, and a
//! restart loses nothing that the log holds.
use crate::store::{
    bumped, created, fresh_shards, lemma_retention_of, max_seq, popped,
    put_at_hash, replayed, restored, restored_all, retained, retentions_of, ring_step, route,
    shard_last, shards_count, store_count, streams_count, takes, trimmed, trimmed_shard, trimmed_stream, EntryV, StoreV,
};
use crate::streams::{first_where, lemma_first_where, shard_index, RecordV, ShardV, StreamV};
use crate::text::{lemma_padded_round_trip, padded};
use crate::wal::released;
use vstd::prelude::*;

verus! {

// ---- the ring ----------------------------------------------------------------

/// The shard of a fresh stream with `count` shards that a hash belongs to.
pub open spec fn ring_shard(hash: u128, count: nat) -> int {
    let i = hash as nat / ring_step(count);
    if i < count {
        i as int
    } else {
        count - 1
    }
}

/// The shards of a fresh stream cut the ring into adjoining parts.
pub proof fn law_shards_adjoin(count: nat)
    requires
        0 < count <= u32::MAX,
    ensures
        fresh_shards(count)[0].hash_start == 0,
        fresh_shards(count)[count - 1].hash_end == u128::MAX,
        forall|i: int|
            0 <= i < count - 1 ==> (#[trigger] fresh_shards(count)[i]).hash_end + 1
                == fresh_shards(count)[i + 1].hash_start,
{
    let step = ring_step(count);
    assert(step >= 1 && count * step <= u128::MAX) by (nonlinear_arith)
        requires
            step == u128::MAX as nat / count,
            0 < count <= u32::MAX,
    ;
    assert forall|i: int| 0 <= i < count - 1 implies (#[trigger] fresh_shards(count)[i]).hash_end
        + 1 == fresh_shards(count)[i + 1].hash_start by {
        assert(1 <= (i + 1) * step <= count * step) by (nonlinear_arith)
            requires
                0 <= i < count - 1,
                step >= 1,
        ;
    }
}

/// The shards of a fresh stream cut the ring into disjoint parts that leave nothing out: each
/// hash is taken by one shard, and by no other.
pub proof fn law_ring_is_partitioned(hash: u128, count: nat)
    requires
        0 < count <= u32::MAX,
    ensures
        0 <= ring_shard(hash, count) < count,
        forall|i: int|
            0 <= i < count ==> takes(#[trigger] fresh_shards(count)[i], hash) == (i == ring_shard(
                hash,
                count,
            )),
        route(fresh_shards(count), hash) == Some(ring_shard(hash, count)),
{
    let step = ring_step(count);
    let at = ring_shard(hash, count);
    let whole = hash as nat / step;
    assert(step >= 1 && count * step <= u128::MAX) by (nonlinear_arith)
        requires
            step == u128::MAX as nat / count,
            0 < count <= u32::MAX,
    ;
    assert(whole * step <= hash < (whole + 1) * step) by (nonlinear_arith)
        requires
            whole == hash as nat / step,
            step >= 1,
    ;
    assert(at * step <= hash) by (nonlinear_arith)
        requires
            at <= whole,
            whole * step <= hash,
            step >= 1,
    ;
    assert forall|i: int| 0 <= i < count implies takes(#[trigger] fresh_shards(count)[i], hash)
        == (i == at) by {
        assert(i * step <= count * step) by (nonlinear_arith)
            requires
                0 <= i < count,
                step >= 1,
        ;
        assert((i + 1) * step <= count * step) by (nonlinear_arith)
            requires
                0 <= i < count,
                step >= 1,
        ;
        assert((i + 1) * step >= 1) by (nonlinear_arith)
            requires
                0 <= i,
                step >= 1,
        ;
        if i < at {
            assert((i + 1) * step <= at * step) by (nonlinear_arith)
                requires
                    i + 1 <= at,
                    step >= 1,
            ;
        } else if i > at {
            assert(at == whole);
            assert(i * step >= (whole + 1) * step) by (nonlinear_arith)
                requires
                    i >= whole + 1,
                    step >= 1,
            ;
        } else if i + 1 < count {
            assert(at == whole);
        }
    }
    let wanted = |shard: ShardV| takes(shard, hash);
    lemma_first_where(fresh_shards(count), wanted);
    assert(wanted(fresh_shards(count)[at]));
}

/// Every hash has a shard that takes it.
pub open spec fn covers_ring(shards: Seq<ShardV>) -> bool {
    forall|hash: u128| (#[trigger] route(shards, hash)) is Some
}

/// No two shards have the same id.
pub open spec fn distinct_ids(shards: Seq<ShardV>) -> bool {
    forall|i: int, j: int|
        0 <= i < shards.len() && 0 <= j < shards.len() && i != j ==> (#[trigger] shards[i]).id != (
        #[trigger] shards[j]).id
}

/// Every stream covers the ring with shards of different ids.
pub open spec fn sound(store: StoreV) -> bool {
    forall|name: Seq<char>| #[trigger]
        store.streams.contains_key(name) ==> covers_ring(store.streams[name].shards)
            && distinct_ids(store.streams[name].shards)
}

proof fn lemma_fresh_shards_sound(count: nat)
    requires
        0 < count <= u32::MAX,
    ensures
        covers_ring(fresh_shards(count)),
        distinct_ids(fresh_shards(count)),
{
    assert forall|hash: u128| (#[trigger] route(fresh_shards(count), hash)) is Some by {
        law_ring_is_partitioned(hash, count);
    }
    let shards = fresh_shards(count);
    assert forall|i: int, j: int|
        0 <= i < shards.len() && 0 <= j < shards.len() && i != j implies (#[trigger] shards[i]).id
        != (#[trigger] shards[j]).id by {
        lemma_padded_round_trip(i as nat, 12, u64::MAX as nat);
        lemma_padded_round_trip(j as nat, 12, u64::MAX as nat);
        let head = "shardId-"@;
        assert(shards[i].id.skip(head.len() as int) =~= padded(i as nat, 12));
        assert(shards[j].id.skip(head.len() as int) =~= padded(j as nat, 12));
    }
}

/// Whether two lists of shards differ in their records alone.
pub open spec fn same_ranges(a: Seq<ShardV>, b: Seq<ShardV>) -> bool {
    &&& a.len() == b.len()
    &&& forall|i: int|
        0 <= i < a.len() ==> (#[trigger] a[i]) == (ShardV { records: a[i].records, ..b[i] })
}

proof fn lemma_same_ranges(a: Seq<ShardV>, b: Seq<ShardV>)
    requires
        same_ranges(a, b),
    ensures
        forall|hash: u128| #[trigger] route(a, hash) == route(b, hash),
        forall|id: Seq<char>| #[trigger] shard_index(a, id) == shard_index(b, id),
        covers_ring(a) == covers_ring(b),
        distinct_ids(a) == distinct_ids(b),
{
    assert forall|i: int| 0 <= i < a.len() implies (#[trigger] a[i]).id == b[i].id && a[i].closed
        == b[i].closed && a[i].hash_start == b[i].hash_start && a[i].hash_end == b[i].hash_end by {}
    assert forall|hash: u128| #[trigger] route(a, hash) == route(b, hash) by {
        let wanted = |shard: ShardV| takes(shard, hash);
        lemma_first_where_same(a, b, wanted);
    }
    assert forall|id: Seq<char>| #[trigger] shard_index(a, id) == shard_index(b, id) by {
        let wanted = |shard: ShardV| shard.id == id;
        lemma_first_where_same(a, b, wanted);
    }
    assert(covers_ring(a) == covers_ring(b)) by {
        if covers_ring(a) {
            assert forall|hash: u128| (#[trigger] route(b, hash)) is Some by {
                assert(route(a, hash) is Some);
            }
        }
        if covers_ring(b) {
            assert forall|hash: u128| (#[trigger] route(a, hash)) is Some by {
                assert(route(b, hash) is Some);
            }
        }
    }
    assert(distinct_ids(a) == distinct_ids(b)) by {
        if distinct_ids(a) {
            assert forall|i: int, j: int|
                0 <= i < b.len() && 0 <= j < b.len() && i != j implies (#[trigger] b[i]).id != (
            #[trigger] b[j]).id by {
                assert(a[i].id != a[j].id);
            }
        }
        if distinct_ids(b) {
            assert forall|i: int, j: int|
                0 <= i < a.len() && 0 <= j < a.len() && i != j implies (#[trigger] a[i]).id != (
            #[trigger] a[j]).id by {
                assert(b[i].id != b[j].id);
            }
        }
    }
}

proof fn lemma_first_where_same(a: Seq<ShardV>, b: Seq<ShardV>, wanted: spec_fn(ShardV) -> bool)
    requires
        a.len() == b.len(),
        forall|i: int| 0 <= i < a.len() ==> wanted(#[trigger] a[i]) == wanted(b[i]),
    ensures
        first_where(a, wanted) == first_where(b, wanted),
    decreases a.len(),
{
    if a.len() > 0 {
        assert(forall|i: int|
            0 <= i < a.drop_last().len() ==> (#[trigger] a.drop_last()[i]) == a[i]
                && b.drop_last()[i] == b[i]);
        assert(wanted(a[a.len() - 1]) == wanted(b[a.len() - 1]));
        lemma_first_where_same(a.drop_last(), b.drop_last(), wanted);
    }
}

proof fn lemma_with_records(stream: StreamV, i: int, records: Seq<RecordV>)
    requires
        0 <= i < stream.shards.len(),
    ensures
        same_ranges(stream.with_records(i, records).shards, stream.shards),
{
}

/// A sound store stays sound, whatever is done with it.
pub proof fn law_store_stays_sound(
    store: StoreV,
    name: Seq<char>,
    shard_id: Seq<char>,
    shard_count: u32,
    retention_secs: Option<u64>,
    partition_key: Seq<char>,
    data: Seq<u8>,
    hash: u128,
    record: RecordV,
    seq: u64,
    now: u128,
)
    requires
        sound(store),
    ensures
        sound(created(store, name, shard_count, retention_secs, now)),
        sound(put_at_hash(store, name, partition_key, data, hash, now).0),
        sound(trimmed(store, now)),
        sound(bumped(store, seq)),
        popped(store, name, shard_id, seq) is Some ==> sound(
            popped(store, name, shard_id, seq)->0,
        ),
        restored(store, name, shard_id, record) is Some ==> sound(
            restored(store, name, shard_id, record)->0,
        ),
        sound(StoreV { streams: store.streams.remove(name), ..store }),
{
    lemma_fresh_shards_sound(
        if shard_count == 0 {
            1
        } else {
            shard_count as nat
        },
    );
    if store.streams.contains_key(name) {
        let stream = store.streams[name];
        let by_hash = |shard: ShardV| takes(shard, hash);
        lemma_first_where(stream.shards, by_hash);
        let by_id = |shard: ShardV| shard.id == shard_id;
        lemma_first_where(stream.shards, by_id);
        assert forall|i: int, records: Seq<RecordV>|
            0 <= i < stream.shards.len() implies covers_ring(
            (#[trigger] stream.with_records(i, records)).shards,
        ) && distinct_ids(stream.with_records(i, records).shards) by {
            lemma_with_records(stream, i, records);
            lemma_same_ranges(stream.with_records(i, records).shards, stream.shards);
        }
    }
    let after = trimmed(store, now);
    assert forall|k: Seq<char>| #[trigger] after.streams.contains_key(k) implies covers_ring(
        after.streams[k].shards,
    ) && distinct_ids(after.streams[k].shards) by {
        assert(store.streams.contains_key(k));
        lemma_same_ranges(after.streams[k].shards, store.streams[k].shards);
    }
}

/// A put into a stream of a sound store always finds its shard.
pub proof fn law_put_always_finds_a_shard(
    store: StoreV,
    name: Seq<char>,
    partition_key: Seq<char>,
    data: Seq<u8>,
    hash: u128,
    now: u128,
)
    requires
        sound(store),
        store.streams.contains_key(name),
    ensures
        put_at_hash(store, name, partition_key, data, hash, now).1 is Some,
{
    assert(route(store.streams[name].shards, hash) is Some);
}

/// A put can be read back: afterwards the record is the last one of the shard that the answer
/// names, under the sequence number that the answer gives, behind the records that were there
/// before; every other shard and every other stream is as it was.
pub proof fn law_put_is_read_back(
    store: StoreV,
    name: Seq<char>,
    partition_key: Seq<char>,
    data: Seq<u8>,
    hash: u128,
    now: u128,
)
    requires
        sound(store),
        store.streams.contains_key(name),
        store.counter < u64::MAX,
    ensures
        ({
            let (after, answer) = put_at_hash(store, name, partition_key, data, hash, now);
            let i = shard_index(after.streams[name].shards, (answer->0).0);
            let shards = store.streams[name].shards;
            &&& answer is Some
            &&& shard_last(after, name, (answer->0).0) == Some(
                RecordV { seq: (answer->0).1, partition_key, data, timestamp_ms: now },
            )
            &&& i is Some
            &&& after.streams[name].shards[i->0].records.drop_last() == shards[i->0].records
            &&& after.streams[name].shards.len() == shards.len()
            &&& forall|k: int|
                0 <= k < shards.len() && k != i->0 ==> (#[trigger] after.streams[name].shards[k])
                    == shards[k]
            &&& after.streams.remove(name) == store.streams.remove(name)
            &&& after.order == store.order
        }),
{
    let stream = store.streams[name];
    let (after, answer) = put_at_hash(store, name, partition_key, data, hash, now);
    law_put_always_finds_a_shard(store, name, partition_key, data, hash, now);
    let by_hash = |shard: ShardV| takes(shard, hash);
    lemma_first_where(stream.shards, by_hash);
    let at = route(stream.shards, hash)->0;
    let id = stream.shards[at].id;
    lemma_index_of_id(stream.shards, at);
    lemma_with_records(stream, at, after.streams[name].shards[at].records);
    lemma_same_ranges(after.streams[name].shards, stream.shards);
    assert(after.streams[name].shards[at].records.drop_last() =~= stream.shards[at].records);
    assert(after.streams.remove(name) =~= store.streams.remove(name));
}

/// A shard is found by its id.
proof fn lemma_index_of_id(shards: Seq<ShardV>, at: int)
    requires
        distinct_ids(shards),
        0 <= at < shards.len(),
    ensures
        shard_index(shards, shards[at].id) == Some(at),
{
    let by_id = |shard: ShardV| shard.id == shards[at].id;
    lemma_first_where(shards, by_id);
    assert(by_id(shards[at]));
}

/// Taking a put back leaves the store as it was, but for the sequence number, which stays
/// used up.
pub proof fn law_rollback_undoes_a_put(
    store: StoreV,
    name: Seq<char>,
    partition_key: Seq<char>,
    data: Seq<u8>,
    hash: u128,
    now: u128,
)
    requires
        sound(store),
        store.streams.contains_key(name),
        store.counter < u64::MAX,
    ensures
        ({
            let (after, answer) = put_at_hash(store, name, partition_key, data, hash, now);
            popped(after, name, (answer->0).0, (answer->0).1) == Some(
                store.with_counter((store.counter + 1) as u64),
            )
        }),
{
    let (after, answer) = put_at_hash(store, name, partition_key, data, hash, now);
    law_put_is_read_back(store, name, partition_key, data, hash, now);
    let stream = store.streams[name];
    let at = shard_index(after.streams[name].shards, (answer->0).0)->0;
    lemma_first_where(
        after.streams[name].shards,
        |shard: ShardV| shard.id == (answer->0).0,
    );
    let back = popped(after, name, (answer->0).0, (answer->0).1);
    let by_hash = |shard: ShardV| takes(shard, hash);
    lemma_first_where(stream.shards, by_hash);
    let routed = route(stream.shards, hash)->0;
    lemma_index_of_id(stream.shards, routed);
    lemma_with_records(stream, routed, after.streams[name].shards[routed].records);
    lemma_same_ranges(after.streams[name].shards, stream.shards);
    assert(at == routed);
    assert(back->0.streams[name].shards =~= stream.shards);
    assert(back->0.streams =~= store.streams);
}

// ---- sequence numbers --------------------------------------------------------

/// The sequence numbers of the records rise.
pub open spec fn rising(records: Seq<RecordV>) -> bool {
    forall|i: int, j: int|
        0 <= i < j < records.len() ==> (#[trigger] records[i]).seq < (#[trigger] records[j]).seq
}

/// No record of the shard has a sequence number above `counter`.
pub open spec fn counted(records: Seq<RecordV>, counter: u64) -> bool {
    forall|i: int| 0 <= i < records.len() ==> (#[trigger] records[i]).seq <= counter
}

/// No sequence number in the store lies above the counter.
pub open spec fn store_counted(store: StoreV) -> bool {
    forall|name: Seq<char>, i: int|
        store.streams.contains_key(name) && 0 <= i < store.streams[name].shards.len() ==> counted(
            (#[trigger] store.streams[name].shards[i]).records,
            store.counter,
        )
}

/// In every shard the sequence numbers rise.
pub open spec fn store_rising(store: StoreV) -> bool {
    forall|name: Seq<char>, i: int|
        store.streams.contains_key(name) && 0 <= i < store.streams[name].shards.len() ==> rising(
            (#[trigger] store.streams[name].shards[i]).records,
        )
}

/// A store without streams is sound, and its sequence numbers are in order.
pub proof fn law_empty_store_is_in_order(store: StoreV)
    requires
        store.streams == Map::<Seq<char>, StreamV>::empty(),
    ensures
        sound(store),
        store_counted(store),
        store_rising(store),
{
}

/// The sequence number of a put lies above every one that the store holds, so that none is
/// given out twice; and in every shard the numbers keep rising.
pub proof fn law_sequence_numbers_rise(
    store: StoreV,
    name: Seq<char>,
    partition_key: Seq<char>,
    data: Seq<u8>,
    hash: u128,
    now: u128,
)
    requires
        store_counted(store),
        store.counter < u64::MAX,
    ensures
        ({
            let (after, answer) = put_at_hash(store, name, partition_key, data, hash, now);
            &&& store_counted(after)
            &&& after.counter == store.counter + 1
            &&& store_rising(store) ==> store_rising(after)
            &&& answer is Some ==> (answer->0).1 == after.counter && forall|
                k: Seq<char>,
                i: int,
                j: int,
            |
                store.streams.contains_key(k) && 0 <= i < store.streams[k].shards.len() && 0 <= j
                    < store.streams[k].shards[i].records.len() ==> (
                #[trigger] store.streams[k].shards[i].records[j]).seq < (answer->0).1
        }),
{
    let (after, answer) = put_at_hash(store, name, partition_key, data, hash, now);
    if store.streams.contains_key(name) {
        let by_hash = |shard: ShardV| takes(shard, hash);
        lemma_first_where(store.streams[name].shards, by_hash);
    }
    assert forall|k: Seq<char>, i: int, j: int|
        store.streams.contains_key(k) && 0 <= i < store.streams[k].shards.len() && 0 <= j
            < store.streams[k].shards[i].records.len() implies (
    #[trigger] store.streams[k].shards[i].records[j]).seq <= store.counter by {
        assert(counted(store.streams[k].shards[i].records, store.counter));
    }
    assert forall|k: Seq<char>, i: int|
        after.streams.contains_key(k) && 0 <= i < after.streams[k].shards.len() implies counted(
        (#[trigger] after.streams[k].shards[i]).records,
        after.counter,
    ) && (store_rising(store) ==> rising(after.streams[k].shards[i].records)) by {
        assert(store.streams.contains_key(k) && i < store.streams[k].shards.len());
        assert(counted(store.streams[k].shards[i].records, store.counter));
        assert(store_rising(store) ==> rising(store.streams[k].shards[i].records));
    }
}

/// Creating, deleting, trimming, taking back and raising the counter keep every sequence
/// number below or at the counter, and the numbers of a shard rising.
pub proof fn law_numbers_stay_ordered(
    store: StoreV,
    name: Seq<char>,
    shard_id: Seq<char>,
    shard_count: u32,
    retention_secs: Option<u64>,
    seq: u64,
    now: u128,
)
    requires
        store_counted(store),
        store_rising(store),
    ensures
        store_counted(created(store, name, shard_count, retention_secs, now)),
        store_rising(created(store, name, shard_count, retention_secs, now)),
        store_counted(StoreV { streams: store.streams.remove(name), ..store }),
        store_rising(StoreV { streams: store.streams.remove(name), ..store }),
        store_counted(trimmed(store, now)),
        store_rising(trimmed(store, now)),
        store_counted(bumped(store, seq)),
        store_rising(bumped(store, seq)),
        popped(store, name, shard_id, seq) is Some ==> store_counted(
            popped(store, name, shard_id, seq)->0,
        ) && store_rising(popped(store, name, shard_id, seq)->0),
{
    let made = created(store, name, shard_count, retention_secs, now);
    assert forall|k: Seq<char>, i: int|
        made.streams.contains_key(k) && 0 <= i < made.streams[k].shards.len() implies counted(
        (#[trigger] made.streams[k].shards[i]).records,
        made.counter,
    ) && rising(made.streams[k].shards[i].records) by {
        if k != name || store.streams.contains_key(name) {
            assert(counted(store.streams[k].shards[i].records, store.counter));
            assert(rising(store.streams[k].shards[i].records));
        }
    }
    let less = StoreV { streams: store.streams.remove(name), ..store };
    assert forall|k: Seq<char>, i: int|
        less.streams.contains_key(k) && 0 <= i < less.streams[k].shards.len() implies counted(
        (#[trigger] less.streams[k].shards[i]).records,
        less.counter,
    ) && rising(less.streams[k].shards[i].records) by {
        assert(counted(store.streams[k].shards[i].records, store.counter));
        assert(rising(store.streams[k].shards[i].records));
    }
    let cut = trimmed(store, now);
    assert forall|k: Seq<char>, i: int|
        cut.streams.contains_key(k) && 0 <= i < cut.streams[k].shards.len() implies counted(
        (#[trigger] cut.streams[k].shards[i]).records,
        cut.counter,
    ) && rising(cut.streams[k].shards[i].records) by {
        let stream = store.streams[k];
        assert(counted(stream.shards[i].records, store.counter));
        assert(rising(stream.shards[i].records));
        lemma_filter_keeps_order(
            stream.shards[i].records,
            |record: RecordV| retained(record, stream.retention_secs, now),
            store.counter,
        );
    }
    let up = bumped(store, seq);
    assert forall|k: Seq<char>, i: int|
        up.streams.contains_key(k) && 0 <= i < up.streams[k].shards.len() implies counted(
        (#[trigger] up.streams[k].shards[i]).records,
        up.counter,
    ) && rising(up.streams[k].shards[i].records) by {
        assert(counted(store.streams[k].shards[i].records, store.counter));
        assert(rising(store.streams[k].shards[i].records));
    }
    if popped(store, name, shard_id, seq) is Some {
        let back = popped(store, name, shard_id, seq)->0;
        lemma_first_where(store.streams[name].shards, |shard: ShardV| shard.id == shard_id);
        assert forall|k: Seq<char>, i: int|
            back.streams.contains_key(k) && 0 <= i < back.streams[k].shards.len() implies counted(
            (#[trigger] back.streams[k].shards[i]).records,
            back.counter,
        ) && rising(back.streams[k].shards[i].records) by {
            assert(counted(store.streams[k].shards[i].records, store.counter));
            assert(rising(store.streams[k].shards[i].records));
        }
    }
}

proof fn lemma_filter_keeps_order(
    records: Seq<RecordV>,
    keep: spec_fn(RecordV) -> bool,
    counter: u64,
)
    requires
        rising(records),
        counted(records, counter),
    ensures
        rising(records.filter(keep)),
        counted(records.filter(keep), counter),
    decreases records.len(),
{
    reveal(Seq::filter);
    if records.len() > 0 {
        let rest = records.drop_last();
        assert(counted(rest, (records.last().seq - 1) as u64)) by {
            assert forall|i: int| 0 <= i < rest.len() implies (#[trigger] rest[i]).seq
                <= (records.last().seq - 1) as u64 by {
                assert(records[i].seq < records[records.len() - 1].seq);
            }
        }
        assert(rising(rest)) by {
            assert forall|i: int, j: int| 0 <= i < j < rest.len() implies (#[trigger] rest[i]).seq
                < (#[trigger] rest[j]).seq by {
                assert(records[i].seq < records[j].seq);
            }
        }
        lemma_filter_keeps_order(rest, keep, (records.last().seq - 1) as u64);
        assert(records[records.len() - 1].seq <= counter);
    }
}

// ---- trimming ----------------------------------------------------------------

/// Trimming keeps exactly the records that have not outlived their stream's retention, trims
/// nothing the second time, and leaves a stream with a retention of 0 as it is.
pub proof fn law_trim_keeps_what_is_retained(stream: StreamV, now: u128)
    ensures
        forall|i: int, record: RecordV|
            0 <= i < stream.shards.len() ==> (trimmed_stream(stream, now).shards[i].records.contains(
                record,
            ) == (#[trigger] stream.shards[i].records.contains(record) && retained(
                record,
                stream.retention_secs,
                now,
            ))),
        trimmed_stream(trimmed_stream(stream, now), now) == trimmed_stream(stream, now),
        stream.retention_secs == 0 ==> trimmed_stream(stream, now) == stream,
{
    let keep = |record: RecordV| retained(record, stream.retention_secs, now);
    let after = trimmed_stream(stream, now);
    assert forall|i: int, record: RecordV| 0 <= i < stream.shards.len() implies (
    after.shards[i].records.contains(record) == (#[trigger] stream.shards[i].records.contains(
        record,
    ) && retained(record, stream.retention_secs, now))) by {
        let records = stream.shards[i].records;
        if records.contains(record) && keep(record) {
            let at = records.index_of(record);
            assert(records[at] == record);
            records.lemma_filter_contains(keep, at);
        }
        if after.shards[i].records.contains(record) {
            let at = records.filter(keep).index_of(record);
            records.lemma_filter_pred(keep, at);
            assert(records.contains(record)) by {
                records.lemma_filter_contains_rev(keep, record);
            }
        }
    }
    let twice = trimmed_stream(after, now);
    assert forall|i: int| 0 <= i < stream.shards.len() implies (#[trigger] twice.shards[i])
        == after.shards[i] by {
        lemma_filter_twice(stream.shards[i].records, keep, keep);
    }
    assert(twice.shards =~= after.shards);
    if stream.retention_secs == 0 {
        assert forall|i: int| 0 <= i < stream.shards.len() implies (#[trigger] after.shards[i])
            == stream.shards[i] by {
            lemma_filter_everything(stream.shards[i].records, keep);
        }
        assert(after.shards =~= stream.shards);
    }
}

/// A trim at one time and then at a later one leaves what the later trim alone leaves, and the
/// two together remove as many records; a second trim at the same time removes none.
pub proof fn law_trims_add_up(store: StoreV, first: u128, second: u128)
    requires
        first <= second,
        forall|i: int|
            0 <= i < store.order.len() ==> store.streams.contains_key(#[trigger] store.order[i]),
    ensures
        trimmed(trimmed(store, first), second) == trimmed(store, second),
        trimmed(trimmed(store, first), first) == trimmed(store, first),
        store_count(trimmed(store, second)) <= store_count(trimmed(store, first)) <= store_count(
            store,
        ),
        (store_count(store) - store_count(trimmed(store, first))) + (store_count(
            trimmed(store, first),
        ) - store_count(trimmed(trimmed(store, first), second))) == store_count(store)
            - store_count(trimmed(store, second)),
        store_count(trimmed(store, first)) - store_count(trimmed(trimmed(store, first), first))
            == 0,
{
    lemma_trim_twice(store, first, second);
    lemma_trim_twice(store, first, first);
    lemma_trim_shrinks(store, first, store.order.len());
    lemma_trim_shrinks(trimmed(store, first), second, store.order.len());
}

proof fn lemma_trim_twice(store: StoreV, first: u128, second: u128)
    requires
        first <= second,
    ensures
        trimmed(trimmed(store, first), second) == trimmed(store, second),
{
    let twice = trimmed(trimmed(store, first), second);
    let once = trimmed(store, second);
    assert forall|name: Seq<char>| #[trigger] once.streams.contains_key(name) implies twice.streams[name]
        == once.streams[name] by {
        let stream = store.streams[name];
        let secs = stream.retention_secs;
        assert forall|i: int| 0 <= i < stream.shards.len() implies (
        #[trigger] twice.streams[name].shards[i]) == once.streams[name].shards[i] by {
            lemma_filter_twice(
                stream.shards[i].records,
                |record: RecordV| retained(record, secs, first),
                |record: RecordV| retained(record, secs, second),
            );
        }
        assert(twice.streams[name].shards =~= once.streams[name].shards);
    }
    assert(twice.streams =~= once.streams);
}

/// A trim adds no record.
proof fn lemma_trim_shrinks(store: StoreV, now: u128, n: nat)
    requires
        forall|i: int|
            0 <= i < n ==> store.streams.contains_key(#[trigger] store.order[i]),
    ensures
        streams_count(trimmed(store, now), n) <= streams_count(store, n),
    decreases n,
{
    if n > 0 {
        lemma_trim_shrinks(store, now, (n - 1) as nat);
        let stream = store.streams[store.order[n - 1]];
        lemma_shards_shrink(stream, now, stream.shards.len());
    }
}

proof fn lemma_shards_shrink(stream: StreamV, now: u128, n: nat)
    requires
        n <= stream.shards.len(),
    ensures
        shards_count(trimmed_stream(stream, now).shards, n) <= shards_count(stream.shards, n),
    decreases n,
{
    if n > 0 {
        lemma_shards_shrink(stream, now, (n - 1) as nat);
        stream.shards[n - 1].records.lemma_filter_len(
            |record: RecordV| retained(record, stream.retention_secs, now),
        );
    }
}

proof fn lemma_filter_twice(
    records: Seq<RecordV>,
    first: spec_fn(RecordV) -> bool,
    second: spec_fn(RecordV) -> bool,
)
    requires
        forall|record: RecordV| #[trigger] second(record) ==> first(record),
    ensures
        records.filter(first).filter(second) == records.filter(second),
    decreases records.len(),
{
    reveal(Seq::filter);
    if records.len() > 0 {
        let rest = records.drop_last();
        lemma_filter_twice(rest, first, second);
        if first(records.last()) {
            rest.filter(first).lemma_filter_push(records.last(), second);
        }
    }
}

proof fn lemma_filter_everything(records: Seq<RecordV>, keep: spec_fn(RecordV) -> bool)
    requires
        forall|i: int| 0 <= i < records.len() ==> keep(#[trigger] records[i]),
    ensures
        records.filter(keep) == records,
    decreases records.len(),
{
    reveal(Seq::filter);
    if records.len() > 0 {
        lemma_filter_everything(records.drop_last(), keep);
        assert(records.drop_last().push(records.last()) =~= records);
    }
}

proof fn lemma_filter_nothing(records: Seq<RecordV>, keep: spec_fn(RecordV) -> bool)
    requires
        forall|i: int| 0 <= i < records.len() ==> !keep(#[trigger] records[i]),
    ensures
        records.filter(keep) == Seq::<RecordV>::empty(),
    decreases records.len(),
{
    reveal(Seq::filter);
    if records.len() > 0 {
        lemma_filter_nothing(records.drop_last(), keep);
    }
}

proof fn lemma_filter_concat(
    a: Seq<RecordV>,
    b: Seq<RecordV>,
    keep: spec_fn(RecordV) -> bool,
)
    ensures
        (a + b).filter(keep) == a.filter(keep) + b.filter(keep),
    decreases b.len(),
{
    if b.len() > 0 {
        lemma_filter_concat(a, b.drop_last(), keep);
        assert((a + b) =~= (a + b.drop_last()).push(b.last()));
        assert(b =~= b.drop_last().push(b.last()));
        (a + b.drop_last()).lemma_filter_push(b.last(), keep);
        b.drop_last().lemma_filter_push(b.last(), keep);
        assert((a + b).filter(keep) =~= a.filter(keep) + b.filter(keep));
    } else {
        assert(a + b =~= a);
        assert(b.filter(keep) =~= Seq::<RecordV>::empty()) by {
            lemma_filter_nothing(b, keep);
        }
        assert(a.filter(keep) + b.filter(keep) =~= a.filter(keep));
    }
}

// ---- restart -----------------------------------------------------------------

pub open spec fn emptied_stream(stream: StreamV) -> StreamV {
    StreamV {
        shards: stream.shards.map_values(
            |shard: ShardV| ShardV { records: Seq::<RecordV>::empty(), ..shard },
        ),
        ..stream
    }
}

/// The state without its records: what the manifest carries over a restart.
pub open spec fn emptied(store: StoreV) -> StoreV {
    StoreV { streams: store.streams.map_values(|stream: StreamV| emptied_stream(stream)), ..store }
}

/// Whether a replay puts a log entry into shard `i` of a stream.
pub open spec fn lands_in(entry: EntryV, name: Seq<char>, stream: StreamV, i: int) -> bool {
    &&& entry.stream == name
    &&& entry.record.timestamp_ms >= stream.created_ms
    &&& shard_index(stream.shards, entry.shard_id) == Some(i)
}

/// The records of a log that a replay puts into shard `i` of a stream, in their order.
pub open spec fn shard_log(
    log: Seq<EntryV>,
    name: Seq<char>,
    stream: StreamV,
    i: int,
) -> Seq<RecordV>
    decreases log.len(),
{
    if log.len() == 0 {
        Seq::empty()
    } else {
        let before = shard_log(log.drop_last(), name, stream, i);
        if lands_in(log.last(), name, stream, i) {
            before.push(log.last().record)
        } else {
            before
        }
    }
}

/// From the moment `since` on, a log holds for every shard the records that the store has not
/// yet to drop, in their order, and nothing else that has not expired.
pub open spec fn log_covers(store: StoreV, log: Seq<EntryV>, since: u128) -> bool {
    forall|name: Seq<char>, i: int, now: u128|
        store.streams.contains_key(name) && 0 <= i < store.streams[name].shards.len() && now
            >= since ==> #[trigger] live(
            shard_log(log, name, store.streams[name], i),
            store.streams[name].retention_secs,
            now,
        ) == live(
            store.streams[name].shards[i].records,
            store.streams[name].retention_secs,
            now,
        )
}

/// The sequence numbers of a log rise, and none lies above `counter`.
pub open spec fn log_in_order(log: Seq<EntryV>, counter: u64) -> bool {
    &&& forall|i: int, j: int|
        0 <= i < j < log.len() ==> (#[trigger] log[i]).record.seq < (#[trigger] log[j]).record.seq
    &&& forall|i: int| 0 <= i < log.len() ==> (#[trigger] log[i]).record.seq <= counter
}

/// The records that have not outlived a retention.
pub open spec fn live(records: Seq<RecordV>, retention_secs: u64, now: u128) -> Seq<RecordV> {
    records.filter(|record: RecordV| retained(record, retention_secs, now))
}

/// What a replay makes of a stream whose shards are empty.
proof fn lemma_replay_of_stream(store: StoreV, log: Seq<EntryV>, name: Seq<char>)
    requires
        store.streams.contains_key(name),
    ensures
        ({
            let base = emptied(store);
            let after = restored_all(base, log);
            &&& after.streams.dom() == store.streams.dom()
            &&& after.order == store.order
            &&& after.counter == store.counter
            &&& after.default_retention_secs == store.default_retention_secs
            &&& same_ranges(after.streams[name].shards, store.streams[name].shards)
            &&& after.streams[name] == (StreamV {
                shards: after.streams[name].shards,
                ..store.streams[name]
            })
            &&& forall|i: int|
                0 <= i < store.streams[name].shards.len() ==> (
                #[trigger] after.streams[name].shards[i]).records == shard_log(
                    log,
                    name,
                    store.streams[name],
                    i,
                )
        }),
    decreases log.len(),
{
    let base = emptied(store);
    let after = restored_all(base, log);
    if log.len() > 0 {
        let rest = log.drop_last();
        let entry = log.last();
        lemma_replay_of_stream(store, rest, name);
        let before = restored_all(base, rest);
        if before.streams.contains_key(entry.stream) {
            lemma_replay_of_stream(store, rest, entry.stream);
            let stream = before.streams[entry.stream];
            lemma_same_ranges(stream.shards, store.streams[entry.stream].shards);
            lemma_first_where(stream.shards, |shard: ShardV| shard.id == entry.shard_id);
        }
        assert(after.streams.dom() =~= store.streams.dom());
    } else {
        assert(after.streams.dom() =~= store.streams.dom());
    }
}

proof fn lemma_shard_log_same(
    log: Seq<EntryV>,
    name: Seq<char>,
    a: StreamV,
    b: StreamV,
    i: int,
)
    requires
        same_ranges(a.shards, b.shards),
        a.created_ms == b.created_ms,
    ensures
        shard_log(log, name, a, i) == shard_log(log, name, b, i),
    decreases log.len(),
{
    lemma_same_ranges(a.shards, b.shards);
    if log.len() > 0 {
        lemma_shard_log_same(log.drop_last(), name, a, b, i);
        assert(shard_index(a.shards, log.last().shard_id) == shard_index(
            b.shards,
            log.last().shard_id,
        ));
    }
}

proof fn lemma_restored_all_counter(store: StoreV, log: Seq<EntryV>, counter: u64)
    ensures
        restored_all(store.with_counter(counter), log) == restored_all(store, log).with_counter(
            counter,
        ),
    decreases log.len(),
{
    if log.len() > 0 {
        lemma_restored_all_counter(store, log.drop_last(), counter);
    }
}

/// No sequence number of a log is above the largest one.
pub proof fn lemma_max_seq(log: Seq<EntryV>, i: int)
    requires
        0 <= i < log.len(),
    ensures
        log[i].record.seq <= max_seq(log),
    decreases log.len(),
{
    if i < log.len() - 1 {
        lemma_max_seq(log.drop_last(), i);
        assert(log.drop_last()[i] == log[i]);
    }
}

/// A restart gives the store back. From the manifest, which holds the streams without their
/// records and some earlier state of the counter, and from a log that covers the store, the
/// replay makes what the store itself would be after a trim, and it raises the counter to at
/// least every sequence number in the log, so that none of them is given out again.
pub proof fn law_restart_gives_the_store_back(
    store: StoreV,
    log: Seq<EntryV>,
    counter: u64,
    since: u128,
    now: u128,
)
    requires
        log_covers(store, log, since),
        now >= since,
    ensures
        ({
            let after = replayed(emptied(store).with_counter(counter), log, now);
            &&& after.streams == trimmed(store, now).streams
            &&& after.order == store.order
            &&& after.default_retention_secs == store.default_retention_secs
            &&& after.counter >= counter
            &&& forall|i: int|
                0 <= i < log.len() ==> (#[trigger] log[i]).record.seq <= after.counter
        }),
{
    let base = emptied(store);
    lemma_restored_all_counter(base, log, counter);
    let all = restored_all(base, log);
    let after = replayed(base.with_counter(counter), log, now);
    let goal = trimmed(store, now);
    assert(after.streams == trimmed(all, now).streams);
    lemma_replay_frame(base, log);
    assert(after.streams.dom() =~= goal.streams.dom());
    assert forall|name: Seq<char>| #[trigger] goal.streams.contains_key(name) implies after.streams[name]
        == goal.streams[name] by {
        lemma_replay_of_stream(store, log, name);
        let secs = store.streams[name].retention_secs;
        assert forall|i: int| 0 <= i < store.streams[name].shards.len() implies (
        #[trigger] after.streams[name].shards[i]) == goal.streams[name].shards[i] by {
            assert(all.streams[name].shards[i].records == shard_log(
                log,
                name,
                store.streams[name],
                i,
            ));
            assert(live(shard_log(log, name, store.streams[name], i), secs, now) == live(
                store.streams[name].shards[i].records,
                secs,
                now,
            ));
            assert(same_ranges(all.streams[name].shards, store.streams[name].shards));
            let left = all.streams[name].shards[i];
            assert(after.streams[name].shards[i] == trimmed_shard(left, secs, now));
            assert(left == (ShardV { records: left.records, ..store.streams[name].shards[i] }));
        }
        assert(after.streams[name].shards =~= goal.streams[name].shards);
    }
    assert(after.streams =~= goal.streams);
    assert forall|i: int| 0 <= i < log.len() implies (#[trigger] log[i]).record.seq
        <= after.counter by {
        lemma_max_seq(log, i);
    }
}

/// Putting records back keeps the streams, their order and the counter.
proof fn lemma_replay_frame(store: StoreV, log: Seq<EntryV>)
    ensures
        restored_all(store, log).streams.dom() == store.streams.dom(),
        restored_all(store, log).order == store.order,
        restored_all(store, log).counter == store.counter,
        restored_all(store, log).default_retention_secs == store.default_retention_secs,
    decreases log.len(),
{
    if log.len() > 0 {
        lemma_replay_frame(store, log.drop_last());
        assert(restored_all(store, log).streams.dom() =~= store.streams.dom());
    }
}

/// A put whose record was appended to the log is covered by the log, as long as the clock has
/// not fallen behind the creation of the stream; and the sequence numbers of the log keep
/// rising.
pub proof fn law_logged_put_survives(
    store: StoreV,
    log: Seq<EntryV>,
    since: u128,
    name: Seq<char>,
    partition_key: Seq<char>,
    data: Seq<u8>,
    hash: u128,
    now: u128,
)
    requires
        sound(store),
        log_covers(store, log, since),
        store.streams.contains_key(name),
        store.counter < u64::MAX,
        now >= store.streams[name].created_ms,
    ensures
        ({
            let (after, answer) = put_at_hash(store, name, partition_key, data, hash, now);
            let record = RecordV { seq: (answer->0).1, partition_key, data, timestamp_ms: now };
            let longer = log.push(EntryV { stream: name, shard_id: (answer->0).0, record });
            &&& log_covers(after, longer, since)
            &&& log_in_order(log, store.counter) ==> log_in_order(longer, after.counter)
        }),
{
    let (after, answer) = put_at_hash(store, name, partition_key, data, hash, now);
    law_put_always_finds_a_shard(store, name, partition_key, data, hash, now);
    let record = RecordV { seq: (answer->0).1, partition_key, data, timestamp_ms: now };
    let entry = EntryV { stream: name, shard_id: (answer->0).0, record };
    let longer = log.push(entry);
    assert(longer.drop_last() =~= log);
    let stream = store.streams[name];
    let by_hash = |shard: ShardV| takes(shard, hash);
    lemma_first_where(stream.shards, by_hash);
    let at = route(stream.shards, hash)->0;
    lemma_index_of_id(stream.shards, at);
    lemma_with_records(stream, at, stream.shards[at].records.push(record));
    lemma_same_ranges(after.streams[name].shards, stream.shards);
    assert forall|k: Seq<char>, i: int, t: u128|
        after.streams.contains_key(k) && 0 <= i < after.streams[k].shards.len() && t
            >= since implies #[trigger] live(
        shard_log(longer, k, after.streams[k], i),
        after.streams[k].retention_secs,
        t,
    ) == live(after.streams[k].shards[i].records, after.streams[k].retention_secs, t) by {
        let secs = store.streams[k].retention_secs;
        assert(live(shard_log(log, k, store.streams[k], i), secs, t) == live(
            store.streams[k].shards[i].records,
            secs,
            t,
        ));
        if k == name {
            lemma_shard_log_same(longer, k, after.streams[k], stream, i);
            if i == at {
                let keep = |record: RecordV| retained(record, secs, t);
                shard_log(log, k, stream, i).lemma_filter_push(record, keep);
                stream.shards[at].records.lemma_filter_push(record, keep);
            }
        }
    }
}

/// Trimming the store leaves it covered by its log from the time of the trim on.
pub proof fn law_trimmed_store_stays_covered(
    store: StoreV,
    log: Seq<EntryV>,
    since: u128,
    now: u128,
)
    requires
        log_covers(store, log, since),
        now >= since,
    ensures
        log_covers(trimmed(store, now), log, now),
{
    let after = trimmed(store, now);
    assert forall|name: Seq<char>, i: int, t: u128|
        after.streams.contains_key(name) && 0 <= i < after.streams[name].shards.len() && t
            >= now implies #[trigger] live(
        shard_log(log, name, after.streams[name], i),
        after.streams[name].retention_secs,
        t,
    ) == live(after.streams[name].shards[i].records, after.streams[name].retention_secs, t) by {
        let stream = store.streams[name];
        assert(live(shard_log(log, name, stream, i), stream.retention_secs, t) == live(
            stream.shards[i].records,
            stream.retention_secs,
            t,
        ));
        lemma_shard_log_same(log, name, after.streams[name], stream, i);
        lemma_filter_twice(
            stream.shards[i].records,
            |record: RecordV| retained(record, stream.retention_secs, now),
            |record: RecordV| retained(record, stream.retention_secs, t),
        );
    }
}

/// A stream that is created under a name whose earlier records in the log are all older does
/// not take them up: the log covers the store with the new, empty stream.
pub proof fn law_created_stream_does_not_resurrect(
    store: StoreV,
    log: Seq<EntryV>,
    since: u128,
    name: Seq<char>,
    shard_count: u32,
    retention_secs: Option<u64>,
    now: u128,
)
    requires
        log_covers(store, log, since),
        !store.streams.contains_key(name),
        forall|i: int|
            0 <= i < log.len() && (#[trigger] log[i]).stream == name ==> log[i].record.timestamp_ms
                < now,
    ensures
        log_covers(created(store, name, shard_count, retention_secs, now), log, since),
{
    let after = created(store, name, shard_count, retention_secs, now);
    assert forall|k: Seq<char>, i: int, t: u128|
        after.streams.contains_key(k) && 0 <= i < after.streams[k].shards.len() && t
            >= since implies #[trigger] live(
        shard_log(log, k, after.streams[k], i),
        after.streams[k].retention_secs,
        t,
    ) == live(after.streams[k].shards[i].records, after.streams[k].retention_secs, t) by {
        if k == name {
            lemma_nothing_lands(log, name, after.streams[k], i);
            assert(shard_log(log, k, after.streams[k], i)
                =~= after.streams[k].shards[i].records);
        } else {
            assert(live(
                shard_log(log, k, store.streams[k], i),
                store.streams[k].retention_secs,
                t,
            ) == live(store.streams[k].shards[i].records, store.streams[k].retention_secs, t));
        }
    }
}

proof fn lemma_nothing_lands(log: Seq<EntryV>, name: Seq<char>, stream: StreamV, i: int)
    requires
        forall|k: int|
            0 <= k < log.len() && (#[trigger] log[k]).stream == name ==> log[k].record.timestamp_ms
                < stream.created_ms,
    ensures
        shard_log(log, name, stream, i) == Seq::<RecordV>::empty(),
    decreases log.len(),
{
    if log.len() > 0 {
        let rest = log.drop_last();
        assert forall|k: int| 0 <= k < rest.len() && (#[trigger] rest[k]).stream
            == name implies rest[k].record.timestamp_ms < stream.created_ms by {
            assert(log[k] == rest[k]);
        }
        lemma_nothing_lands(rest, name, stream, i);
        assert(log[log.len() - 1] == log.last());
    }
}

/// Deleting a stream leaves the others covered by the log.
pub proof fn law_deleted_stream_stays_deleted(
    store: StoreV,
    log: Seq<EntryV>,
    since: u128,
    name: Seq<char>,
)
    requires
        log_covers(store, log, since),
    ensures
        log_covers(StoreV { streams: store.streams.remove(name), ..store }, log, since),
        !replayed(
            emptied(StoreV { streams: store.streams.remove(name), ..store }),
            log,
            since,
        ).streams.contains_key(name),
{
    let after = StoreV { streams: store.streams.remove(name), ..store };
    assert forall|k: Seq<char>, i: int, t: u128|
        after.streams.contains_key(k) && 0 <= i < after.streams[k].shards.len() && t
            >= since implies #[trigger] live(
        shard_log(log, k, after.streams[k], i),
        after.streams[k].retention_secs,
        t,
    ) == live(after.streams[k].shards[i].records, after.streams[k].retention_secs, t) by {
        assert(live(
            shard_log(log, k, store.streams[k], i),
            store.streams[k].retention_secs,
            t,
        ) == live(store.streams[k].shards[i].records, store.streams[k].retention_secs, t));
    }
    lemma_replay_frame(emptied(after), log);
}

/// Leaving a part of the log away changes nothing as long as each entry in that part is of a
/// stream that was deleted, or has outlived the retention of its stream: the rest of the log
/// still covers the store.
pub proof fn law_expired_part_of_the_log_is_not_missed(
    store: StoreV,
    head: Seq<EntryV>,
    expired: Seq<EntryV>,
    tail: Seq<EntryV>,
    since: u128,
    now: u128,
)
    requires
        log_covers(store, head + expired + tail, since),
        now >= since,
        forall|name: Seq<char>| #[trigger]
            store.order.contains(name) == store.streams.contains_key(name),
        forall|i: int|
            0 <= i < expired.len() ==> released(
                (#[trigger] expired[i]).stream,
                expired[i].record.timestamp_ms,
                now,
                retentions_of(store),
            ),
    ensures
        log_covers(store, head + tail, now),
{
    assert forall|name: Seq<char>, i: int, t: u128|
        store.streams.contains_key(name) && 0 <= i < store.streams[name].shards.len() && t
            >= now implies #[trigger] live(
        shard_log(head + tail, name, store.streams[name], i),
        store.streams[name].retention_secs,
        t,
    ) == live(store.streams[name].shards[i].records, store.streams[name].retention_secs, t) by {
        let stream = store.streams[name];
        assert(store.order.contains(name) == store.streams.contains_key(name));
        lemma_retention_of(store, name);
        let keep = |record: RecordV| retained(record, stream.retention_secs, t);
        let a = shard_log(head, name, stream, i);
        let b = shard_log(expired, name, stream, i);
        let c = shard_log(tail, name, stream, i);
        assert(live(
            shard_log(head + expired + tail, name, stream, i),
            stream.retention_secs,
            t,
        ) == live(stream.shards[i].records, stream.retention_secs, t));
        lemma_shard_log_concat(head, expired, name, stream, i);
        lemma_shard_log_concat(head + expired, tail, name, stream, i);
        lemma_shard_log_concat(head, tail, name, stream, i);
        lemma_filter_concat(a, b, keep);
        lemma_filter_concat(a + b, c, keep);
        lemma_filter_concat(a, c, keep);
        assert forall|k: int| 0 <= k < b.len() implies !keep(#[trigger] b[k]) by {
            lemma_landed(expired, name, stream, i, k);
            let at = choose|at: int|
                0 <= at < expired.len() && expired[at].record == b[k] && lands_in(
                    expired[at],
                    name,
                    stream,
                    i,
                );
            assert(released(name, expired[at].record.timestamp_ms, now, retentions_of(store)));
        }
        lemma_filter_nothing(b, keep);
        assert(a.filter(keep) + b.filter(keep) =~= a.filter(keep));
    }
}

proof fn lemma_shard_log_concat(
    a: Seq<EntryV>,
    b: Seq<EntryV>,
    name: Seq<char>,
    stream: StreamV,
    i: int,
)
    ensures
        shard_log(a + b, name, stream, i) == shard_log(a, name, stream, i) + shard_log(
            b,
            name,
            stream,
            i,
        ),
    decreases b.len(),
{
    if b.len() > 0 {
        lemma_shard_log_concat(a, b.drop_last(), name, stream, i);
        assert((a + b).drop_last() =~= a + b.drop_last());
        assert((a + b).last() == b.last());
        assert(shard_log(a + b, name, stream, i) =~= shard_log(a, name, stream, i) + shard_log(
            b,
            name,
            stream,
            i,
        ));
    } else {
        assert(a + b =~= a);
        assert(shard_log(a, name, stream, i) + shard_log(b, name, stream, i) =~= shard_log(
            a,
            name,
            stream,
            i,
        ));
    }
}

/// After a restart no record is older than its stream, and none lies above the counter; where
/// the sequence numbers of the log rise, those of every shard do. A sound store stays sound.
pub proof fn law_replay_brings_back_no_older_record(
    store: StoreV,
    log: Seq<EntryV>,
    now: u128,
)
    ensures
        ({
            let after = replayed(emptied(store), log, now);
            &&& forall|name: Seq<char>, i: int, k: int|
                after.streams.contains_key(name) && 0 <= i < after.streams[name].shards.len() && 0
                    <= k < after.streams[name].shards[i].records.len() ==> (
                #[trigger] after.streams[name].shards[i].records[k]).timestamp_ms
                    >= after.streams[name].created_ms
            &&& store_counted(after)
            &&& log_in_order(log, u64::MAX) ==> store_rising(after)
            &&& sound(store) ==> sound(after)
        }),
{
    let all = restored_all(emptied(store), log);
    let after = replayed(emptied(store), log, now);
    lemma_replay_frame(emptied(store), log);
    assert forall|name: Seq<char>, i: int, k: int|
        after.streams.contains_key(name) && 0 <= i < after.streams[name].shards.len() && 0 <= k
            < after.streams[name].shards[i].records.len() implies (
    #[trigger] after.streams[name].shards[i].records[k]).timestamp_ms
        >= after.streams[name].created_ms && after.streams[name].shards[i].records[k].seq
        <= after.counter by {
        let stream = store.streams[name];
        lemma_replay_of_stream(store, log, name);
        assert(all.streams[name].shards[i].records == shard_log(log, name, stream, i));
        let records = shard_log(log, name, stream, i);
        let keep = |record: RecordV| retained(record, stream.retention_secs, now);
        assert(after.streams[name].shards[i].records == records.filter(keep));
        let record = after.streams[name].shards[i].records[k];
        assert(records.filter(keep).contains(record));
        records.lemma_filter_contains_rev(keep, record);
        let at = records.index_of(record);
        assert(records[at] == record);
        lemma_landed(log, name, stream, i, at);
        let from = choose|from: int|
            0 <= from < log.len() && log[from].record == record && lands_in(
                log[from],
                name,
                stream,
                i,
            );
        lemma_max_seq(log, from);
    }
    assert forall|name: Seq<char>, i: int|
        after.streams.contains_key(name) && 0 <= i < after.streams[name].shards.len() implies counted(
        (#[trigger] after.streams[name].shards[i]).records,
        after.counter,
    ) by {
        assert forall|k: int| 0 <= k < after.streams[name].shards[i].records.len() implies (
        #[trigger] after.streams[name].shards[i].records[k]).seq <= after.counter by {}
    }
    if log_in_order(log, u64::MAX) {
        assert forall|name: Seq<char>, i: int|
            after.streams.contains_key(name) && 0 <= i
                < after.streams[name].shards.len() implies rising(
            (#[trigger] after.streams[name].shards[i]).records,
        ) by {
            let stream = store.streams[name];
            lemma_replay_of_stream(store, log, name);
            lemma_shard_log_rises(log, u64::MAX, name, stream, i);
            lemma_filter_keeps_order(
                shard_log(log, name, stream, i),
                |record: RecordV| retained(record, stream.retention_secs, now),
                u64::MAX,
            );
            assert(all.streams[name].shards[i].records == shard_log(log, name, stream, i));
        }
    }
    if sound(store) {
        assert forall|name: Seq<char>| #[trigger]
            after.streams.contains_key(name) implies covers_ring(after.streams[name].shards)
            && distinct_ids(after.streams[name].shards) by {
            lemma_replay_of_stream(store, log, name);
            assert(store.streams.contains_key(name));
            assert forall|i: int| 0 <= i < after.streams[name].shards.len() implies (
            #[trigger] after.streams[name].shards[i]) == (ShardV {
                records: after.streams[name].shards[i].records,
                ..store.streams[name].shards[i]
            }) by {
                let left = all.streams[name].shards[i];
                assert(left == (ShardV { records: left.records, ..store.streams[name].shards[i] }));
            }
            lemma_same_ranges(after.streams[name].shards, store.streams[name].shards);
        }
    }
}

proof fn lemma_shard_log_rises(
    log: Seq<EntryV>,
    counter: u64,
    name: Seq<char>,
    stream: StreamV,
    i: int,
)
    requires
        log_in_order(log, counter),
    ensures
        rising(shard_log(log, name, stream, i)),
        counted(shard_log(log, name, stream, i), counter),
    decreases log.len(),
{
    if log.len() > 0 {
        let rest = log.drop_last();
        let last = log.last().record.seq;
        let before = shard_log(rest, name, stream, i);
        assert(log[log.len() - 1].record.seq <= counter);
        if last > 0 {
            assert forall|k: int| 0 <= k < rest.len() implies (#[trigger] rest[k]).record.seq
                <= last - 1 by {
                assert(log[k].record.seq < log[log.len() - 1].record.seq);
            }
            assert forall|j: int, k: int| 0 <= j < k < rest.len() implies (
            #[trigger] rest[j]).record.seq < (#[trigger] rest[k]).record.seq by {
                assert(log[j].record.seq < log[k].record.seq);
            }
            lemma_shard_log_rises(rest, (last - 1) as u64, name, stream, i);
        } else {
            if rest.len() > 0 {
                assert(log[0].record.seq < log[log.len() - 1].record.seq);
            }
            assert(before =~= Seq::empty());
        }
        let now_log = shard_log(log, name, stream, i);
        assert forall|k: int| 0 <= k < now_log.len() implies (#[trigger] now_log[k]).seq
            <= counter by {
            if k < before.len() {
                assert(before[k].seq <= last - 1);
            }
        }
        assert forall|j: int, k: int| 0 <= j < k < now_log.len() implies (
        #[trigger] now_log[j]).seq < (#[trigger] now_log[k]).seq by {
            assert(before[j].seq <= last - 1);
            if k < before.len() {
                assert(before[j].seq < before[k].seq);
            }
        }
    }
}

proof fn lemma_landed(log: Seq<EntryV>, name: Seq<char>, stream: StreamV, i: int, k: int)
    requires
        0 <= k < shard_log(log, name, stream, i).len(),
    ensures
        exists|at: int|
            0 <= at < log.len() && log[at].record == shard_log(log, name, stream, i)[k]
                && lands_in(log[at], name, stream, i),
    decreases log.len(),
{
    let rest = log.drop_last();
    let before = shard_log(rest, name, stream, i);
    if k < before.len() {
        lemma_landed(rest, name, stream, i, k);
        let at = choose|at: int|
            0 <= at < rest.len() && rest[at].record == before[k] && lands_in(
                rest[at],
                name,
                stream,
                i,
            );
        assert(log[at].record == before[k] && lands_in(log[at], name, stream, i));
    } else {
        let at = log.len() - 1;
        assert(log[at].record == shard_log(log, name, stream, i)[k] && lands_in(
            log[at],
            name,
            stream,
            i,
        ));
    }
}

} // verus!
