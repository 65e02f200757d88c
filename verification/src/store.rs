//! In-memory data model: streams, shards, records, and shard iterators.
//!
//! Records are ordered by a global monotonic sequence number, which is all that polling
//! consumers rely on. The payloads are carried over a restart by the write-ahead log, the
//! stream and shard metadata by the manifest.
pub use crate::clock::now_ms;
use crate::clock::LAST_MOMENT_MS;
pub use crate::streams::{Record, Shard, Stream, Streams};
use crate::streams::{
    find_shard, first_where, lemma_first_where, lemma_first_where_is, records_view, shard_index,
    shards_view, RecordV, ShardV, StreamV,
};
use crate::text::{join, padded, padded_text, str_eq};
use md5::{Digest, Md5};
use vstd::prelude::*;
use vstd::string::StringExecFns;
use vstd::utf8::encode_utf8;

verus! {

/// Shard iterators expire after 5 minutes.
pub const ITERATOR_TTL_MS: u128 = 300_000;

// ---- the state ---------------------------------------------------------------

/// The state as a mathematical value: the streams by name, the names in the order in which
/// they were added, the last sequence number that was given out, and the default retention.
pub struct StoreV {
    pub streams: Map<Seq<char>, StreamV>,
    pub order: Seq<Seq<char>>,
    pub counter: u64,
    pub default_retention_secs: u64,
}

/// Top-level state: all streams, the global sequence counter, and the default retention
/// applied to streams created without an explicit one.
pub struct Store {
    pub streams: Streams,
    pub seq_counter: u64,
    pub default_retention_secs: u64,
}

impl Store {
    /// No stream name is there twice.
    pub open spec fn wf(self) -> bool {
        self.streams.wf()
    }
}

impl View for Store {
    type V = StoreV;

    open spec fn view(&self) -> StoreV {
        StoreV {
            streams: self.streams.map(),
            order: self.streams.order(),
            counter: self.seq_counter,
            default_retention_secs: self.default_retention_secs,
        }
    }
}

impl StoreV {
    /// The state with another value for one of its streams.
    pub open spec fn with_stream(self, name: Seq<char>, stream: StreamV) -> StoreV {
        StoreV { streams: self.streams.insert(name, stream), ..self }
    }

    pub open spec fn with_counter(self, counter: u64) -> StoreV {
        StoreV { counter, ..self }
    }
}

impl StreamV {
    /// The stream with other records in one of its shards.
    pub open spec fn with_records(self, i: int, records: Seq<RecordV>) -> StreamV {
        StreamV {
            shards: self.shards.update(i, ShardV { records, ..self.shards[i] }),
            ..self
        }
    }
}

// ---- the hash ring -----------------------------------------------------------

/// The number that bytes write, the most significant one first.
pub open spec fn be_value(bytes: Seq<u8>) -> nat
    decreases bytes.len(),
{
    if bytes.len() == 0 {
        0
    } else {
        256 * be_value(bytes.drop_last()) + bytes.last() as nat
    }
}

/// The MD5 digest of bytes.
pub uninterp spec fn md5_digest(bytes: Seq<u8>) -> Seq<u8>;

/// `md5::Md5::digest`: the sixteen bytes of the MD5 digest.
#[verifier::external_body]
fn md5_of(bytes: &[u8]) -> (r: [u8; 16])
    ensures
        r@ == md5_digest(bytes@),
{
    Md5::digest(bytes).into()
}

/// The place of a partition key on the 128-bit ring.
pub open spec fn key_hash(partition_key: Seq<char>) -> u128 {
    be_value(md5_digest(encode_utf8(partition_key))) as u128
}

proof fn lemma_be_value_step(bytes: Seq<u8>, i: int)
    requires
        0 <= i < bytes.len(),
    ensures
        be_value(bytes.take(i + 1)) == 256 * be_value(bytes.take(i)) + bytes[i],
{
    assert(bytes.take(i + 1).drop_last() =~= bytes.take(i));
}

/// Hashes a partition key into the 128-bit ring: its MD5 digest, read as a big-endian number.
pub fn hash_key(partition_key: &str) -> (r: u128)
    ensures
        r == key_hash(partition_key@),
        r as nat == be_value(md5_digest(encode_utf8(partition_key@))),
{
    let digest = md5_of(partition_key.as_bytes());
    let mut value: u128 = 0;
    let mut limit: u128 = 1;
    let mut i: usize = 0;
    while i < 16
        invariant
            i <= 16,
            digest@.len() == 16,
            value as nat == be_value(digest@.take(i as int)),
            i < 16 ==> value < limit,
            i == 0 ==> limit == 1,
            i == 1 ==> limit == 0x100,
            i == 2 ==> limit == 0x1_0000,
            i == 3 ==> limit == 0x100_0000,
            i == 4 ==> limit == 0x1_0000_0000,
            i == 5 ==> limit == 0x100_0000_0000,
            i == 6 ==> limit == 0x1_0000_0000_0000,
            i == 7 ==> limit == 0x100_0000_0000_0000,
            i == 8 ==> limit == 0x1_0000_0000_0000_0000,
            i == 9 ==> limit == 0x100_0000_0000_0000_0000,
            i == 10 ==> limit == 0x1_0000_0000_0000_0000_0000,
            i == 11 ==> limit == 0x100_0000_0000_0000_0000_0000,
            i == 12 ==> limit == 0x1_0000_0000_0000_0000_0000_0000,
            i == 13 ==> limit == 0x100_0000_0000_0000_0000_0000_0000,
            i == 14 ==> limit == 0x1_0000_0000_0000_0000_0000_0000_0000,
            i == 15 ==> limit == 0x100_0000_0000_0000_0000_0000_0000_0000,
        decreases 16 - i,
    {
        proof {
            lemma_be_value_step(digest@, i as int);
        }
        value = value * 256 + digest[i] as u128;
        if i < 15 {
            limit = limit * 256;
        }
        i = i + 1;
    }
    assert(digest@.take(16) =~= digest@);
    value
}

/// Whether a shard takes records with this hash.
pub open spec fn takes(shard: ShardV, hash: u128) -> bool {
    !shard.closed && shard.hash_start <= hash <= shard.hash_end
}

/// The shard that a record with this hash goes to: the first one that takes it.
pub open spec fn route(shards: Seq<ShardV>, hash: u128) -> Option<int> {
    first_where(shards, |shard: ShardV| takes(shard, hash))
}

fn find_route(shards: &Vec<Shard>, hash: u128) -> (r: Option<usize>)
    ensures
        match route(shards_view(shards@), hash) {
            Some(i) => r is Some && r->0 as int == i && 0 <= i < shards@.len(),
            None => r is None,
        },
{
    let ghost wanted = |shard: ShardV| takes(shard, hash);
    let mut i: usize = 0;
    while i < shards.len()
        invariant
            i <= shards@.len(),
            wanted == (|shard: ShardV| takes(shard, hash)),
            forall|k: int| 0 <= k < i ==> !wanted(#[trigger] shards_view(shards@)[k]),
        decreases shards@.len() - i,
    {
        let shard = &shards[i];
        if !shard.closed && hash >= shard.hash_start && hash <= shard.hash_end {
            proof {
                lemma_first_where_is(shards_view(shards@), wanted, i as int);
            }
            return Some(i);
        }
        assert(!wanted(shards_view(shards@)[i as int]));
        i = i + 1;
    }
    proof {
        lemma_first_where(shards_view(shards@), wanted);
    }
    None
}

// ---- creating streams --------------------------------------------------------

pub open spec fn shard_id_text(index: nat) -> Seq<char> {
    "shardId-"@ + padded(index, 12)
}

fn shard_id(index: u32) -> (r: String)
    ensures
        r@ == shard_id_text(index as nat),
{
    let digits = padded_text(index as u64, 12);
    join("shardId-", digits.as_str())
}

/// The width of the hash range of each of `count` shards but the last, which takes the rest.
pub open spec fn ring_step(count: nat) -> nat {
    u128::MAX as nat / count
}

/// Shard `i` of a fresh stream with `count` shards.
pub open spec fn fresh_shard(i: nat, count: nat) -> ShardV {
    ShardV {
        id: shard_id_text(i),
        hash_start: (i * ring_step(count)) as u128,
        hash_end: if i + 1 == count {
            u128::MAX
        } else {
            ((i + 1) * ring_step(count) - 1) as u128
        },
        records: seq![],
        closed: false,
    }
}

pub open spec fn fresh_shards(count: nat) -> Seq<ShardV> {
    Seq::new(count, |i: int| fresh_shard(i as nat, count))
}

/// A stream as it is created: at least one shard, no records.
pub open spec fn fresh_stream(
    name: Seq<char>,
    shard_count: u32,
    retention_secs: u64,
    now: u128,
) -> StreamV {
    StreamV {
        name,
        arn: "arn:aws:kinesis:us-east-1:000000000000:stream/"@ + name,
        shards: fresh_shards(
            if shard_count == 0 {
                1
            } else {
                shard_count as nat
            },
        ),
        retention_secs,
        created_ms: now,
    }
}

/// The state after the creation of a stream: unchanged where the name is taken.
pub open spec fn created(
    store: StoreV,
    name: Seq<char>,
    shard_count: u32,
    retention_secs: Option<u64>,
    now: u128,
) -> StoreV {
    if store.streams.contains_key(name) {
        store
    } else {
        let retention = match retention_secs {
            Some(secs) => secs,
            None => store.default_retention_secs,
        };
        StoreV {
            streams: store.streams.insert(
                name,
                fresh_stream(name, shard_count, retention, now),
            ),
            order: store.order.push(name),
            ..store
        }
    }
}

/// The hash ranges of a fresh stream stay within the ring.
proof fn lemma_ring_bounds(i: nat, count: nat)
    requires
        i < count,
    ensures
        i * ring_step(count) <= u128::MAX,
        (i + 1) * ring_step(count) <= u128::MAX,
        count <= u128::MAX ==> ring_step(count) >= 1,
        count <= u128::MAX ==> (i + 1) * ring_step(count) >= 1,
{
    let step = ring_step(count);
    assert(count * step <= u128::MAX) by (nonlinear_arith)
        requires
            step == u128::MAX as nat / count,
            count > 0,
    ;
    assert((i + 1) * step <= count * step) by (nonlinear_arith)
        requires
            i + 1 <= count,
    ;
    assert(i * step <= (i + 1) * step) by (nonlinear_arith);
    if count <= u128::MAX {
        assert(step >= 1) by (nonlinear_arith)
            requires
                step == u128::MAX as nat / count,
                0 < count <= u128::MAX,
        ;
        assert((i + 1) * step >= 1) by (nonlinear_arith)
            requires
                step >= 1,
        ;
    }
}

fn new_shards(count: u32) -> (r: Vec<Shard>)
    requires
        count > 0,
    ensures
        shards_view(r@) == fresh_shards(count as nat),
{
    let step: u128 = u128::MAX / count as u128;
    let mut shards: Vec<Shard> = Vec::with_capacity(count as usize);
    let mut i: u32 = 0;
    while i < count
        invariant
            i <= count,
            count > 0,
            step == ring_step(count as nat),
            shards@.len() == i,
            forall|k: int|
                0 <= k < i ==> (#[trigger] shards@[k])@ == fresh_shard(k as nat, count as nat),
        decreases count - i,
    {
        proof {
            lemma_ring_bounds(i as nat, count as nat);
        }
        let hash_start: u128 = i as u128 * step;
        let hash_end: u128 = if i == count - 1 {
            u128::MAX
        } else {
            (i as u128 + 1) * step - 1
        };
        let records: Vec<Record> = Vec::new();
        assert(records_view(records@) =~= seq![]);
        shards.push(Shard { id: shard_id(i), hash_start, hash_end, records, closed: false });
        i = i + 1;
    }
    assert(shards_view(shards@) =~= fresh_shards(count as nat));
    shards
}

impl Store {
    pub fn new(default_retention_secs: u64) -> (r: Self)
        ensures
            r.wf(),
            r@ == (StoreV {
                streams: Map::empty(),
                order: Seq::empty(),
                counter: 0,
                default_retention_secs,
            }),
    {
        Store { streams: Streams::new(), seq_counter: 0, default_retention_secs }
    }

    /// Adds a stream whose shards cut the hash ring into equal parts. Says whether it was
    /// added; a name that is taken is left as it is.
    pub fn create_stream(
        &mut self,
        name: &str,
        shard_count: u32,
        retention_secs: Option<u64>,
    ) -> (r: bool)
        requires
            old(self).wf(),
        ensures
            final(self).wf(),
            r == !old(self)@.streams.contains_key(name@),
            exists|now: u128|
                now <= LAST_MOMENT_MS && final(self)@ == #[trigger] created(
                    old(self)@,
                    name@,
                    shard_count,
                    retention_secs,
                    now,
                ),
    {
        let now: u128 = now_ms();
        self.create_stream_at(name, shard_count, retention_secs, now)
    }

    /// `create_stream` at a given time.
    pub fn create_stream_at(
        &mut self,
        name: &str,
        shard_count: u32,
        retention_secs: Option<u64>,
        now: u128,
    ) -> (r: bool)
        requires
            old(self).wf(),
        ensures
            final(self).wf(),
            r == !old(self)@.streams.contains_key(name@),
            final(self)@ == created(old(self)@, name@, shard_count, retention_secs, now),
    {
        if self.streams.contains_key(name) {
            return false;
        }
        let count: u32 = if shard_count == 0 {
            1
        } else {
            shard_count
        };
        let shards = new_shards(count);
        let arn = join("arn:aws:kinesis:us-east-1:000000000000:stream/", name);
        let retention_secs: u64 = match retention_secs {
            Some(secs) => secs,
            None => self.default_retention_secs,
        };
        let stream = Stream {
            name: String::from_str(name),
            arn,
            shards,
            retention_secs,
            created_ms: now,
        };
        self.streams.insert(String::from_str(name), stream);
        true
    }
}

// ---- writing records ---------------------------------------------------------

/// Whether a record has not outlived a retention; a retention of 0 keeps records forever.
pub open spec fn retained(record: RecordV, retention_secs: u64, now: u128) -> bool {
    retention_secs == 0 || now - record.timestamp_ms <= retention_secs * 1000
}

pub open spec fn trimmed_shard(shard: ShardV, retention_secs: u64, now: u128) -> ShardV {
    ShardV {
        records: shard.records.filter(|record: RecordV| retained(record, retention_secs, now)),
        ..shard
    }
}

pub open spec fn trimmed_stream(stream: StreamV, now: u128) -> StreamV {
    StreamV {
        shards: stream.shards.map_values(
            |shard: ShardV| trimmed_shard(shard, stream.retention_secs, now),
        ),
        ..stream
    }
}

/// The state without the records that have outlived their stream's retention.
pub open spec fn trimmed(store: StoreV, now: u128) -> StoreV {
    StoreV { streams: store.streams.map_values(|stream: StreamV| trimmed_stream(stream, now)), ..store }
}

/// How many records the first `n` shards hold.
pub open spec fn shards_count(shards: Seq<ShardV>, n: nat) -> nat
    decreases n,
{
    if n == 0 {
        0
    } else {
        shards_count(shards, (n - 1) as nat) + shards[n - 1].records.len()
    }
}

/// How many records a stream holds.
pub open spec fn stream_count(stream: StreamV) -> nat {
    shards_count(stream.shards, stream.shards.len())
}

/// How many records the first `n` streams hold.
pub open spec fn streams_count(store: StoreV, n: nat) -> nat
    decreases n,
{
    if n == 0 {
        0
    } else {
        streams_count(store, (n - 1) as nat) + stream_count(store.streams[store.order[n - 1]])
    }
}

/// How many records the store holds.
pub open spec fn store_count(store: StoreV) -> nat {
    streams_count(store, store.order.len())
}

pub open spec fn at_most(n: int, max: int) -> int {
    if n <= max {
        n
    } else {
        max
    }
}

/// The state and the answer after a put at a given place of the ring. A sequence number is
/// used up even where the record finds no shard.
pub open spec fn put_at_hash(
    store: StoreV,
    name: Seq<char>,
    partition_key: Seq<char>,
    data: Seq<u8>,
    hash: u128,
    now: u128,
) -> (StoreV, Option<(Seq<char>, u64)>) {
    let seq = (store.counter + 1) as u64;
    let counted = store.with_counter(seq);
    if !store.streams.contains_key(name) {
        (counted, None)
    } else {
        let stream = store.streams[name];
        match route(stream.shards, hash) {
            None => (counted, None),
            Some(i) => {
                let record = RecordV { seq, partition_key, data, timestamp_ms: now };
                (
                    counted.with_stream(
                        name,
                        stream.with_records(i, stream.shards[i].records.push(record)),
                    ),
                    Some((stream.shards[i].id, seq)),
                )
            },
        }
    }
}

/// Where a put goes: the place that was asked for, or that of the partition key.
pub open spec fn put_hash(partition_key: Seq<char>, explicit_hash_key: Option<u128>) -> u128 {
    match explicit_hash_key {
        Some(hash) => hash,
        None => key_hash(partition_key),
    }
}

pub open spec fn put_answer(r: Option<(String, u64)>, answer: Option<(Seq<char>, u64)>) -> bool {
    match r {
        Some(placed) => answer == Some((placed.0@, placed.1)),
        None => answer is None,
    }
}

/// Keeps the records that have not outlived a retention, in their order.
fn keep_retained(records: &mut Vec<Record>, retention_secs: u64, now: u128)
    requires
        retention_secs > 0,
    ensures
        records_view(final(records)@) == records_view(old(records)@).filter(
            |record: RecordV| retained(record, retention_secs, now),
        ),
{
    let cutoff_ms: u128 = (retention_secs as u128) * 1000;
    let ghost keep = |record: RecordV| retained(record, retention_secs, now);
    let ghost all = records_view(records@);
    let mut kept: Vec<Record> = Vec::new();
    let mut rest: Vec<Record> = Vec::new();
    core::mem::swap(records, &mut rest);
    assert(records_view(rest@) =~= all);
    assert(records_view(kept@) =~= all.take(0).filter(keep)) by {
        reveal(Seq::filter);
    }
    for record in it: rest
        invariant
            records_view(it.seq()) == all,
            cutoff_ms == retention_secs * 1000,
            retention_secs > 0,
            keep == (|record: RecordV| retained(record, retention_secs, now)),
            records_view(kept@) == all.take(it.index() as int).filter(keep),
    {
        let ghost before = kept@;
        let ghost shown = record@;
        proof {
            assert(records_view(it.seq())[it.index() as int] == shown);
            assert(all.take(it.index() + 1) =~= all.take(it.index() as int).push(shown));
            all.take(it.index() as int).lemma_filter_push(shown, keep);
        }
        if now.saturating_sub(record.timestamp_ms) <= cutoff_ms {
            kept.push(record);
            assert(records_view(kept@) =~= records_view(before).push(shown));
        }
    }
    assert(all.take(all.len() as int) =~= all);
    *records = kept;
}

impl Store {
    /// Drops the records that are older than their stream's retention and says how many they
    /// were (the count stops at `usize::MAX`). A retention of 0 keeps records forever.
    pub fn trim_expired(&mut self, now: u128) -> (r: usize)
        requires
            old(self).wf(),
        ensures
            final(self).wf(),
            final(self)@ == trimmed(old(self)@, now),
            r == at_most(store_count(old(self)@) - store_count(final(self)@), usize::MAX as int),
    {
        let ghost before = self@;
        let count: usize = self.streams.len();
        let mut removed: usize = 0;
        let mut i: usize = 0;
        let ghost mut gone: int = 0;
        while i < count
            invariant
                i <= count,
                count == before.order.len(),
                self.wf(),
                self@.order == before.order,
                self@.counter == before.counter,
                self@.default_retention_secs == before.default_retention_secs,
                before.order.no_duplicates(),
                before.streams.dom() == self@.streams.dom(),
                forall|k: int| 0 <= k < count ==> before.streams.contains_key(#[trigger] before.order[k]),
                forall|k: int|
                    0 <= k < i ==> self@.streams[#[trigger] before.order[k]] == trimmed_stream(
                        before.streams[before.order[k]],
                        now,
                    ),
                forall|k: int|
                    i <= k < count ==> self@.streams[#[trigger] before.order[k]]
                        == before.streams[before.order[k]],
                gone >= 0,
                gone == streams_count(before, i as nat) - streams_count(trimmed(before, now), i as nat),
                removed == at_most(gone, usize::MAX as int),
            decreases count - i,
        {
            let ghost name = before.order[i as int];
            let ghost stream_before = before.streams[name];
            let stream = self.streams.at_mut(i);
            let dropped: usize = trim_stream(stream, now);
            removed = removed.saturating_add(dropped);
            proof {
                gone = gone + stream_count(stream_before) - stream_count(
                    trimmed_stream(stream_before, now),
                );
            }
            i = i + 1;
        }
        proof {
            assert forall|name: Seq<char>| #[trigger]
                self@.streams.contains_key(name) implies self@.streams[name] == trimmed(
                before,
                now,
            ).streams[name] by {
                let k = before.order.index_of(name);
                assert(before.order.contains(name));
                assert(before.order[k] == name);
            }
            assert(self@.streams =~= trimmed(before, now).streams);
        }
        removed
    }
}

/// `trim_expired` for one stream.
fn trim_stream(stream: &mut Stream, now: u128) -> (r: usize)
    ensures
        final(stream)@ == trimmed_stream(old(stream)@, now),
        stream_count(final(stream)@) <= stream_count(old(stream)@),
        r == at_most(stream_count(old(stream)@) - stream_count(final(stream)@), usize::MAX as int),
{
    let ghost before = stream@;
    let ghost after = trimmed_stream(before, now);
    if stream.retention_secs == 0 {
        proof {
            assert forall|k: int| 0 <= k < before.shards.len() implies (#[trigger] after.shards[k])
                == before.shards[k] by {
                lemma_filter_all(
                    before.shards[k].records,
                    |record: RecordV| retained(record, before.retention_secs, now),
                );
            }
            assert(after.shards =~= before.shards);
        }
        return 0;
    }
    let mut removed: usize = 0;
    let ghost mut gone: int = 0;
    let mut i: usize = 0;
    let count: usize = stream.shards.len();
    while i < count
        invariant
            i <= count,
            count == before.shards.len(),
            stream.shards@.len() == count,
            after == trimmed_stream(before, now),
            stream.retention_secs == before.retention_secs,
            before.retention_secs > 0,
            stream@.name == before.name,
            stream@.arn == before.arn,
            stream@.created_ms == before.created_ms,
            forall|k: int| 0 <= k < i ==> #[trigger] stream@.shards[k] == after.shards[k],
            forall|k: int| i <= k < count ==> #[trigger] stream@.shards[k] == before.shards[k],
            gone >= 0,
            gone == shards_count(before.shards, i as nat) - shards_count(after.shards, i as nat),
            removed == at_most(gone, usize::MAX as int),
        decreases count - i,
    {
        let ghost keep = |record: RecordV| retained(record, before.retention_secs, now);
        let had: usize = stream.shards[i].records.len();
        let ghost now_at = stream@;
        let retention_secs: u64 = stream.retention_secs;
        assert(now_at.shards[i as int] == before.shards[i as int]);
        keep_retained(&mut stream.shards[i].records, retention_secs, now);
        let has: usize = stream.shards[i].records.len();
        proof {
            before.shards[i as int].records.lemma_filter_len(keep);
            assert(stream@.shards[i as int] == after.shards[i as int]);
            assert forall|k: int| 0 <= k < count && k != i implies #[trigger] stream@.shards[k]
                == now_at.shards[k] by {}
            gone = gone + (had - has);
        }
        removed = removed.saturating_add(had - has);
        i = i + 1;
    }
    assert(stream@.shards =~= after.shards);
    removed
}

/// A filter that holds everywhere keeps everything.
proof fn lemma_filter_all<T>(items: Seq<T>, keep: spec_fn(T) -> bool)
    requires
        forall|i: int| 0 <= i < items.len() ==> keep(#[trigger] items[i]),
    ensures
        items.filter(keep) == items,
    decreases items.len(),
{
    reveal(Seq::filter);
    if items.len() > 0 {
        lemma_filter_all(items.drop_last(), keep);
        assert(items.drop_last().push(items.last()) =~= items);
    }
}

impl Store {
    fn next_seq(&mut self) -> (r: u64)
        requires
            old(self).seq_counter < u64::MAX,
        ensures
            r == old(self).seq_counter + 1,
            final(self).wf() == old(self).wf(),
            final(self)@ == old(self)@.with_counter(r),
    {
        self.seq_counter = self.seq_counter + 1;
        self.seq_counter
    }

    /// Routes a record to its shard by hash key and appends it. Gives the shard's id and the
    /// record's sequence number; `None` where there is no such stream or no shard takes it.
    pub fn put(
        &mut self,
        stream: &str,
        partition_key: String,
        data: Vec<u8>,
        explicit_hash_key: Option<u128>,
    ) -> (r: Option<(String, u64)>)
        requires
            old(self).wf(),
            old(self)@.counter < u64::MAX,
        ensures
            final(self).wf(),
            exists|now: u128| now <= LAST_MOMENT_MS && {
                let outcome = #[trigger] put_at_hash(
                    old(self)@,
                    stream@,
                    partition_key@,
                    data@,
                    put_hash(partition_key@, explicit_hash_key),
                    now,
                );
                final(self)@ == outcome.0 && put_answer(r, outcome.1)
            },
    {
        let now: u128 = now_ms();
        self.put_at(stream, partition_key, data, explicit_hash_key, now)
    }

    /// `put` at a given time.
    pub fn put_at(
        &mut self,
        stream: &str,
        partition_key: String,
        data: Vec<u8>,
        explicit_hash_key: Option<u128>,
        now: u128,
    ) -> (r: Option<(String, u64)>)
        requires
            old(self).wf(),
            old(self)@.counter < u64::MAX,
        ensures
            final(self).wf(),
            ({
                let outcome = put_at_hash(
                    old(self)@,
                    stream@,
                    partition_key@,
                    data@,
                    put_hash(partition_key@, explicit_hash_key),
                    now,
                );
                final(self)@ == outcome.0 && put_answer(r, outcome.1)
            }),
    {
        let hash: u128 = match explicit_hash_key {
            Some(hash) => hash,
            None => hash_key(partition_key.as_str()),
        };
        self.put_hashed(stream, partition_key, data, hash, now)
    }

    /// `put` at a given place of the ring and a given time.
    pub fn put_hashed(
        &mut self,
        stream: &str,
        partition_key: String,
        data: Vec<u8>,
        hash: u128,
        now: u128,
    ) -> (r: Option<(String, u64)>)
        requires
            old(self).wf(),
            old(self)@.counter < u64::MAX,
        ensures
            final(self).wf(),
            final(self)@ == put_at_hash(
                old(self)@,
                stream@,
                partition_key@,
                data@,
                hash,
                now,
            ).0,
            put_answer(
                r,
                put_at_hash(old(self)@, stream@, partition_key@, data@, hash, now).1,
            ),
    {
        let ghost before = self@;
        let ghost expected = put_at_hash(before, stream@, partition_key@, data@, hash, now);
        let seq: u64 = self.next_seq();
        let record = Record { seq, partition_key, data, timestamp_ms: now };
        let r = match self.streams.get_mut(stream) {
            None => None,
            Some(found) => match find_route(&found.shards, hash) {
                None => None,
                Some(i) => {
                    assert(found@.shards[i as int].id == found.shards@[i as int].id@);
                    let shard_id = found.shards[i].id.clone();
                    push_record(found, i, record);
                    Some((shard_id, seq))
                },
            },
        };
        assert(self@.streams =~= expected.0.streams);
        r
    }
}

/// Appends a record to a shard.
fn push_record(stream: &mut Stream, i: usize, record: Record)
    requires
        i < old(stream).shards@.len(),
    ensures
        final(stream)@ == old(stream)@.with_records(
            i as int,
            old(stream)@.shards[i as int].records.push(record@),
        ),
{
    let ghost before = *stream;
    let ghost shown = record@;
    stream.shards[i].records.push(record);
    proof {
        assert(stream@.shards[i as int].records =~= before@.shards[i as int].records.push(shown));
        assert(stream@.shards =~= before@.with_records(
            i as int,
            before@.shards[i as int].records.push(shown),
        ).shards);
    }
}

/// The state without the last record of a shard, where that has the given sequence number.
pub open spec fn popped(
    store: StoreV,
    name: Seq<char>,
    shard_id: Seq<char>,
    seq: u64,
) -> Option<StoreV> {
    if !store.streams.contains_key(name) {
        None
    } else {
        let stream = store.streams[name];
        match shard_index(stream.shards, shard_id) {
            None => None,
            Some(i) => {
                let records = stream.shards[i].records;
                if records.len() > 0 && records.last().seq == seq {
                    Some(store.with_stream(name, stream.with_records(i, records.drop_last())))
                } else {
                    None
                }
            },
        }
    }
}

/// The state with a record put back into its shard. `None` where there is no such stream or
/// shard, or where the record is older than the stream: shard ids are deterministic, so a
/// stream that was deleted and created again under its name would otherwise take up the
/// records of its predecessor.
pub open spec fn restored(
    store: StoreV,
    name: Seq<char>,
    shard_id: Seq<char>,
    record: RecordV,
) -> Option<StoreV> {
    if !store.streams.contains_key(name) {
        None
    } else {
        let stream = store.streams[name];
        if record.timestamp_ms < stream.created_ms {
            None
        } else {
            match shard_index(stream.shards, shard_id) {
                None => None,
                Some(i) => Some(
                    store.with_stream(
                        name,
                        stream.with_records(i, stream.shards[i].records.push(record)),
                    ),
                ),
            }
        }
    }
}

pub open spec fn bumped(store: StoreV, seq: u64) -> StoreV {
    store.with_counter(
        if seq > store.counter {
            seq
        } else {
            store.counter
        },
    )
}

/// The last record of a shard.
pub open spec fn shard_last(store: StoreV, name: Seq<char>, shard_id: Seq<char>) -> Option<RecordV> {
    if !store.streams.contains_key(name) {
        None
    } else {
        match shard_index(store.streams[name].shards, shard_id) {
            None => None,
            Some(i) => {
                let records = store.streams[name].shards[i].records;
                if records.len() > 0 {
                    Some(records.last())
                } else {
                    None
                }
            },
        }
    }
}

impl Store {
    /// Takes the last record of a shard back, where it has this sequence number. The number
    /// stays used up. Says whether a record was taken.
    pub fn pop_record(&mut self, stream: &str, shard_id: &str, seq: u64) -> (r: bool)
        requires
            old(self).wf(),
        ensures
            final(self).wf(),
            match popped(old(self)@, stream@, shard_id@, seq) {
                Some(after) => r && final(self)@ == after,
                None => !r && final(self)@ == old(self)@,
            },
    {
        let ghost before = self@;
        let r = match self.streams.get_mut(stream) {
            None => false,
            Some(found) => match find_shard(&found.shards, shard_id) {
                None => false,
                Some(i) => pop_matching(found, i, seq),
            },
        };
        proof {
            match popped(before, stream@, shard_id@, seq) {
                Some(after) => {
                    assert(self@.streams =~= after.streams);
                },
                None => {
                    assert(self@.streams =~= before.streams);
                },
            }
        }
        r
    }

    /// Inserts a record preserving its sequence number; the counter stays as it is. Says
    /// whether the stream and the shard are known and the record is not older than the stream.
    pub fn restore_record(&mut self, stream: &str, shard_id: &str, record: Record) -> (r: bool)
        requires
            old(self).wf(),
        ensures
            final(self).wf(),
            match restored(old(self)@, stream@, shard_id@, record@) {
                Some(after) => r && final(self)@ == after,
                None => !r && final(self)@ == old(self)@,
            },
    {
        let ghost before = self@;
        let ghost shown = record@;
        let r = match self.streams.get_mut(stream) {
            None => false,
            Some(found) => if record.timestamp_ms < found.created_ms {
                false
            } else {
                match find_shard(&found.shards, shard_id) {
                    None => false,
                    Some(i) => {
                        push_record(found, i, record);
                        true
                    },
                }
            },
        };
        proof {
            match restored(before, stream@, shard_id@, shown) {
                Some(after) => {
                    assert(self@.streams =~= after.streams);
                },
                None => {
                    assert(self@.streams =~= before.streams);
                },
            }
        }
        r
    }

    /// Raises the counter to at least `seq`, so that new sequence numbers never collide with
    /// replayed ones.
    pub fn bump_seq_to(&mut self, seq: u64)
        ensures
            final(self).wf() == old(self).wf(),
            final(self)@ == bumped(old(self)@, seq),
    {
        if seq > self.seq_counter {
            self.seq_counter = seq;
        }
    }

    /// The last record appended to a shard, if any.
    pub fn last_record(&self, stream: &str, shard_id: &str) -> (r: Option<&Record>)
        requires
            self.wf(),
        ensures
            match shard_last(self@, stream@, shard_id@) {
                Some(record) => r is Some && r->0@ == record,
                None => r is None,
            },
    {
        match self.streams.get(stream) {
            None => None,
            Some(found) => match find_shard(&found.shards, shard_id) {
                None => None,
                Some(i) => {
                    let records = &found.shards[i].records;
                    assert(found@.shards[i as int].records == records_view(records@));
                    if records.len() == 0 {
                        None
                    } else {
                        Some(&records[records.len() - 1])
                    }
                },
            },
        }
    }

    /// The last sequence number that was given out.
    pub fn seq_high_water(&self) -> (r: u64)
        ensures
            r == self@.counter,
    {
        self.seq_counter
    }

    /// The largest retention of all streams, where 0 keeps forever and wins; the default
    /// retention where there is no stream.
    pub fn max_retention_secs(&self) -> (r: u64)
        requires
            self.wf(),
        ensures
            is_max_retention(self@, r),
    {
        let count: usize = self.streams.len();
        if count == 0 {
            assert forall|name: Seq<char>| !self@.streams.contains_key(name) by {}
            return self.default_retention_secs;
        }
        let mut largest: u64 = 0;
        let mut i: usize = 0;
        let ghost mut at: Seq<char> = self@.order[0];
        while i < count
            invariant
                i <= count,
                count == self@.order.len(),
                self.wf(),
                i == 0 ==> largest == 0,
                i > 0 ==> self@.streams.contains_key(at) && self@.streams[at].retention_secs
                    == largest,
                forall|k: int|
                    0 <= k < i ==> {
                        let secs = self@.streams[#[trigger] self@.order[k]].retention_secs;
                        0 < secs <= largest
                    },
            decreases count - i,
        {
            let secs: u64 = self.streams.at(i).retention_secs;
            proof {
                self.streams.lemma_entry(i as int);
            }
            if secs == 0 {
                return 0;
            }
            if secs >= largest {
                largest = secs;
                proof {
                    at = self@.order[i as int];
                }
            }
            i = i + 1;
        }
        proof {
            assert forall|name: Seq<char>| self@.streams.contains_key(name) implies 0 < (
            #[trigger] self@.streams[name]).retention_secs <= largest by {
                let k = self@.order.index_of(name);
                assert(self@.order.contains(name));
                assert(self@.order[k] == name);
            }
        }
        largest
    }

    /// (stream name, record count, total payload bytes) for every stream; the counts stop at
    /// `u64::MAX`.
    pub fn stream_sizes(&self) -> (r: Vec<(String, u64, u64)>)
        requires
            self.wf(),
        ensures
            r@.len() == self@.order.len(),
            forall|i: int|
                0 <= i < r@.len() ==> {
                    let stream = self@.streams[self@.order[i]];
                    &&& (#[trigger] r@[i]).0@ == self@.order[i]
                    &&& r@[i].1 == at_most(stream_count(stream) as int, u64::MAX as int)
                    &&& r@[i].2 == at_most(stream_bytes(stream) as int, u64::MAX as int)
                },
    {
        let mut out: Vec<(String, u64, u64)> = Vec::with_capacity(self.streams.len());
        let mut i: usize = 0;
        while i < self.streams.len()
            invariant
                i <= self@.order.len(),
                self.wf(),
                out@.len() == i,
                forall|k: int|
                    0 <= k < i ==> {
                        let stream = self@.streams[self@.order[k]];
                        &&& (#[trigger] out@[k]).0@ == self@.order[k]
                        &&& out@[k].1 == at_most(stream_count(stream) as int, u64::MAX as int)
                        &&& out@[k].2 == at_most(stream_bytes(stream) as int, u64::MAX as int)
                    },
            decreases self@.order.len() - i,
        {
            let (records, bytes) = stream_size(self.streams.at(i));
            out.push((self.streams.name_at(i).clone(), records, bytes));
            i = i + 1;
        }
        out
    }
}

/// The retention of every stream, in seconds.
pub open spec fn retentions_of(store: StoreV) -> Seq<(Seq<char>, u64)> {
    store.order.map_values(|name: Seq<char>| (name, store.streams[name].retention_secs))
}

pub open spec fn retentions_view(retentions: Seq<(String, u64)>) -> Seq<(Seq<char>, u64)> {
    retentions.map_values(|pair: (String, u64)| (pair.0@, pair.1))
}

/// Whether a pair is that of a stream.
pub open spec fn retention_for(name: Seq<char>) -> spec_fn((Seq<char>, u64)) -> bool {
    |pair: (Seq<char>, u64)| pair.0 == name
}

/// The retention of a stream; `None` where the stream is not listed.
pub open spec fn retention_of(retentions: Seq<(Seq<char>, u64)>, name: Seq<char>) -> Option<u64> {
    match first_where(retentions, retention_for(name)) {
        Some(i) => Some(retentions[i].1),
        None => None,
    }
}

/// The retentions of a store list each of its streams, and no other.
pub proof fn lemma_retention_of(store: StoreV, name: Seq<char>)
    requires
        store.order.contains(name) == store.streams.contains_key(name),
    ensures
        retention_of(retentions_of(store), name) == if store.streams.contains_key(name) {
            Some(store.streams[name].retention_secs)
        } else {
            None
        },
{
    let all = retentions_of(store);
    let wanted = retention_for(name);
    lemma_first_where(all, wanted);
    match first_where(all, wanted) {
        Some(i) => {
            assert(store.order[i] == name);
            assert(all[i] == (name, store.streams[name].retention_secs));
        },
        None => {
            if store.order.contains(name) {
                let at = store.order.index_of(name);
                assert(store.order[at] == name);
                assert(wanted(all[at]));
            }
        },
    }
}

/// Finds the retention of a stream.
pub fn find_retention(retentions: &Vec<(String, u64)>, name: &str) -> (r: Option<u64>)
    ensures
        r == retention_of(retentions_view(retentions@), name@),
{
    let ghost all = retentions_view(retentions@);
    let ghost wanted = retention_for(name@);
    let mut i: usize = 0;
    while i < retentions.len()
        invariant
            i <= retentions@.len(),
            all == retentions_view(retentions@),
            wanted == retention_for(name@),
            forall|k: int| 0 <= k < i ==> !wanted(#[trigger] all[k]),
        decreases retentions@.len() - i,
    {
        if str_eq(retentions[i].0.as_str(), name) {
            proof {
                lemma_first_where_is(all, wanted, i as int);
            }
            return Some(retentions[i].1);
        }
        assert(!wanted(all[i as int]));
        i = i + 1;
    }
    proof {
        lemma_first_where(all, wanted);
    }
    None
}

impl Store {
    /// Every stream with its retention in seconds.
    pub fn stream_retentions(&self) -> (r: Vec<(String, u64)>)
        requires
            self.wf(),
        ensures
            retentions_view(r@) == retentions_of(self@),
    {
        let mut out: Vec<(String, u64)> = Vec::with_capacity(self.streams.len());
        let mut i: usize = 0;
        while i < self.streams.len()
            invariant
                i <= self@.order.len(),
                self.wf(),
                out@.len() == i,
                forall|k: int|
                    0 <= k < i ==> ((#[trigger] out@[k]).0@, out@[k].1) == retentions_of(self@)[k],
            decreases self@.order.len() - i,
        {
            out.push((self.streams.name_at(i).clone(), self.streams.at(i).retention_secs));
            i = i + 1;
        }
        assert(retentions_view(out@) =~= retentions_of(self@));
        out
    }
}

/// What `max_retention_secs` gives.
pub open spec fn is_max_retention(store: StoreV, secs: u64) -> bool {
    if exists|name: Seq<char>|
        store.streams.contains_key(name) && (#[trigger] store.streams[name]).retention_secs == 0 {
        secs == 0
    } else if exists|name: Seq<char>| store.streams.contains_key(name) {
        &&& exists|name: Seq<char>|
            store.streams.contains_key(name) && (#[trigger] store.streams[name]).retention_secs
                == secs
        &&& forall|name: Seq<char>|
            store.streams.contains_key(name) ==> (#[trigger] store.streams[name]).retention_secs
                <= secs
    } else {
        secs == store.default_retention_secs
    }
}

/// The payload bytes of the first `n` records.
pub open spec fn records_bytes(records: Seq<RecordV>, n: nat) -> nat
    decreases n,
{
    if n == 0 {
        0
    } else {
        records_bytes(records, (n - 1) as nat) + records[n - 1].data.len()
    }
}

/// The payload bytes of the first `n` shards.
pub open spec fn shards_bytes(shards: Seq<ShardV>, n: nat) -> nat
    decreases n,
{
    if n == 0 {
        0
    } else {
        shards_bytes(shards, (n - 1) as nat) + records_bytes(
            shards[n - 1].records,
            shards[n - 1].records.len(),
        )
    }
}

/// The payload bytes of a stream.
pub open spec fn stream_bytes(stream: StreamV) -> nat {
    shards_bytes(stream.shards, stream.shards.len())
}

fn stream_size(stream: &Stream) -> (r: (u64, u64))
    ensures
        r.0 == at_most(stream_count(stream@) as int, u64::MAX as int),
        r.1 == at_most(stream_bytes(stream@) as int, u64::MAX as int),
{
    let mut records: u64 = 0;
    let mut bytes: u64 = 0;
    let mut i: usize = 0;
    while i < stream.shards.len()
        invariant
            i <= stream.shards@.len(),
            records == at_most(shards_count(stream@.shards, i as nat) as int, u64::MAX as int),
            bytes == at_most(shards_bytes(stream@.shards, i as nat) as int, u64::MAX as int),
        decreases stream.shards@.len() - i,
    {
        let shard = &stream.shards[i];
        let ghost shown = stream@.shards[i as int];
        assert(shown == shard@);
        let ghost sum = shards_bytes(stream@.shards, i as nat);
        let mut j: usize = 0;
        while j < shard.records.len()
            invariant
                j <= shard.records@.len(),
                shown == shard@,
                bytes == at_most(
                    (sum + records_bytes(shown.records, j as nat)) as int,
                    u64::MAX as int,
                ),
            decreases shard.records@.len() - j,
        {
            assert(shown.records[j as int] == shard.records@[j as int]@);
            bytes = bytes.saturating_add(shard.records[j].data.len() as u64);
            j = j + 1;
        }
        records = records.saturating_add(shard.records.len() as u64);
        i = i + 1;
    }
    (records, bytes)
}

/// Takes the last record of a shard back, where it has this sequence number.
fn pop_matching(stream: &mut Stream, i: usize, seq: u64) -> (r: bool)
    requires
        i < old(stream).shards@.len(),
    ensures
        ({
            let records = old(stream)@.shards[i as int].records;
            if records.len() > 0 && records.last().seq == seq {
                r && final(stream)@ == old(stream)@.with_records(i as int, records.drop_last())
            } else {
                !r && final(stream)@ == old(stream)@
            }
        }),
{
    let ghost before = *stream;
    let count: usize = stream.shards[i].records.len();
    assert(before@.shards[i as int].records == records_view(before.shards@[i as int].records@));
    if count == 0 || stream.shards[i].records[count - 1].seq != seq {
        return false;
    }
    let _popped = stream.shards[i].records.pop();
    proof {
        assert(stream@.shards[i as int].records
            =~= before@.shards[i as int].records.drop_last());
        assert(stream@.shards =~= before@.with_records(
            i as int,
            before@.shards[i as int].records.drop_last(),
        ).shards);
    }
    true
}

// ---- shard iterators ---------------------------------------------------------

/// A shard iterator as a mathematical value.
pub struct IteratorV {
    pub stream: Seq<char>,
    pub shard_id: Seq<char>,
    pub next_seq: u64,
    pub expires_ms: u128,
}

/// Opaque shard-iterator payload: where a consumer reads on, and until when it may.
pub struct Iterator {
    pub stream: String,
    pub shard_id: String,
    pub next_seq: u64,
    pub expires_ms: u128,
}

impl View for Iterator {
    type V = IteratorV;

    open spec fn view(&self) -> IteratorV {
        IteratorV {
            stream: self.stream@,
            shard_id: self.shard_id@,
            next_seq: self.next_seq,
            expires_ms: self.expires_ms,
        }
    }
}

/// The sequence number of the last record, 0 where there is none.
pub open spec fn latest_seq(records: Seq<RecordV>) -> u64 {
    if records.len() > 0 {
        records.last().seq
    } else {
        0
    }
}

/// The sequence number from which an iterator of this type starts to read.
pub open spec fn start_seq(
    records: Seq<RecordV>,
    iterator_type: Seq<char>,
    starting_seq: Option<u64>,
    timestamp_ms: Option<u128>,
) -> Option<u64> {
    if iterator_type == "TRIM_HORIZON"@ {
        Some(0)
    } else if iterator_type == "LATEST"@ {
        Some((latest_seq(records) + 1) as u64)
    } else if iterator_type == "AT_SEQUENCE_NUMBER"@ {
        starting_seq
    } else if iterator_type == "AFTER_SEQUENCE_NUMBER"@ {
        match starting_seq {
            Some(seq) => Some((seq + 1) as u64),
            None => None,
        }
    } else if iterator_type == "AT_TIMESTAMP"@ {
        match timestamp_ms {
            Some(ts) => match first_where(records, |record: RecordV| record.timestamp_ms >= ts) {
                Some(i) => Some(records[i].seq),
                None => Some((latest_seq(records) + 1) as u64),
            },
            None => None,
        }
    } else {
        None
    }
}

/// The numbers that `start_seq` counts one up are not the last ones of their type.
pub open spec fn start_fits(
    records: Seq<RecordV>,
    iterator_type: Seq<char>,
    starting_seq: Option<u64>,
) -> bool {
    if iterator_type == "AFTER_SEQUENCE_NUMBER"@ {
        starting_seq != Some(u64::MAX)
    } else if iterator_type == "LATEST"@ || iterator_type == "AT_TIMESTAMP"@ {
        latest_seq(records) < u64::MAX
    } else {
        true
    }
}

/// Translates an iterator type into the sequence number to start reading from.
pub fn resolve_start(
    shard: &Shard,
    iterator_type: &str,
    starting_seq: Option<u64>,
    timestamp_ms: Option<u128>,
) -> (r: Option<u64>)
    requires
        start_fits(shard@.records, iterator_type@, starting_seq),
    ensures
        r == start_seq(shard@.records, iterator_type@, starting_seq, timestamp_ms),
{
    let count: usize = shard.records.len();
    let latest: u64 = if count > 0 {
        shard.records[count - 1].seq
    } else {
        0
    };
    assert(latest == latest_seq(shard@.records));
    proof {
        reveal_strlit("TRIM_HORIZON");
        reveal_strlit("LATEST");
        reveal_strlit("AT_SEQUENCE_NUMBER");
        reveal_strlit("AFTER_SEQUENCE_NUMBER");
        reveal_strlit("AT_TIMESTAMP");
        assert("LATEST"@.len() == 6);
        assert("AFTER_SEQUENCE_NUMBER"@.len() == 21);
        assert("AT_TIMESTAMP"@.len() == 12);
    }
    if str_eq(iterator_type, "TRIM_HORIZON") {
        Some(0)
    } else if str_eq(iterator_type, "LATEST") {
        Some(latest + 1)
    } else if str_eq(iterator_type, "AT_SEQUENCE_NUMBER") {
        starting_seq
    } else if str_eq(iterator_type, "AFTER_SEQUENCE_NUMBER") {
        match starting_seq {
            Some(seq) => Some(seq + 1),
            None => None,
        }
    } else if str_eq(iterator_type, "AT_TIMESTAMP") {
        match timestamp_ms {
            None => None,
            Some(ts) => {
                let ghost wanted = |record: RecordV| record.timestamp_ms >= ts;
                let mut i: usize = 0;
                while i < count
                    invariant
                        i <= count,
                        count == shard.records@.len(),
                        wanted == (|record: RecordV| record.timestamp_ms >= ts),
                        forall|k: int| 0 <= k < i ==> !wanted(#[trigger] shard@.records[k]),
                        iterator_type@ == "AT_TIMESTAMP"@,
                        timestamp_ms == Some(ts),
                        start_seq(shard@.records, iterator_type@, starting_seq, timestamp_ms)
                            == match first_where(shard@.records, wanted) {
                            Some(i) => Some(shard@.records[i].seq),
                            None => Some((latest_seq(shard@.records) + 1) as u64),
                        },
                    decreases count - i,
                {
                    if shard.records[i].timestamp_ms >= ts {
                        proof {
                            lemma_first_where_is(shard@.records, wanted, i as int);
                        }
                        return Some(shard.records[i].seq);
                    }
                    i = i + 1;
                }
                proof {
                    lemma_first_where(shard@.records, wanted);
                }
                Some(latest + 1)
            },
        }
    } else {
        None
    }
}

/// What `make_iterator` gives.
pub open spec fn new_iterator(
    store: StoreV,
    name: Seq<char>,
    shard_id: Seq<char>,
    iterator_type: Seq<char>,
    starting_seq: Option<u64>,
    timestamp_ms: Option<u128>,
    now: u128,
) -> Option<IteratorV> {
    if !store.streams.contains_key(name) {
        None
    } else {
        match shard_index(store.streams[name].shards, shard_id) {
            None => None,
            Some(i) => match start_seq(
                store.streams[name].shards[i].records,
                iterator_type,
                starting_seq,
                timestamp_ms,
            ) {
                None => None,
                Some(next_seq) => Some(
                    IteratorV {
                        stream: name,
                        shard_id,
                        next_seq,
                        expires_ms: (now + ITERATOR_TTL_MS) as u128,
                    },
                ),
            },
        }
    }
}

/// The start of such an iterator can be counted.
pub open spec fn iterator_fits(
    store: StoreV,
    name: Seq<char>,
    shard_id: Seq<char>,
    iterator_type: Seq<char>,
    starting_seq: Option<u64>,
) -> bool {
    store.streams.contains_key(name) ==> match shard_index(store.streams[name].shards, shard_id) {
        Some(i) => start_fits(store.streams[name].shards[i].records, iterator_type, starting_seq),
        None => true,
    }
}

pub open spec fn shows_iterator(r: Option<Iterator>, iterator: Option<IteratorV>) -> bool {
    match r {
        Some(it) => iterator == Some(it@),
        None => iterator is None,
    }
}

impl Store {
    /// An iterator of the given type on a shard, to be used within five minutes. `None` where
    /// there is no such stream, shard or iterator type, or where the sequence number or the
    /// timestamp that the type needs is missing.
    pub fn make_iterator(
        &self,
        stream: &str,
        shard_id: &str,
        iterator_type: &str,
        starting_seq: Option<u64>,
        timestamp_ms: Option<u128>,
    ) -> (r: Option<Iterator>)
        requires
            self.wf(),
            iterator_fits(self@, stream@, shard_id@, iterator_type@, starting_seq),
        ensures
            exists|now: u128|
                now <= LAST_MOMENT_MS && shows_iterator(
                    r,
                    #[trigger] new_iterator(
                        self@,
                        stream@,
                        shard_id@,
                        iterator_type@,
                        starting_seq,
                        timestamp_ms,
                        now,
                    ),
                ),
    {
        let now: u128 = now_ms();
        self.make_iterator_at(stream, shard_id, iterator_type, starting_seq, timestamp_ms, now)
    }

    /// Whether the start of such an iterator can be counted.
    pub fn iterator_can_start(
        &self,
        stream: &str,
        shard_id: &str,
        iterator_type: &str,
        starting_seq: Option<u64>,
    ) -> (r: bool)
        requires
            self.wf(),
        ensures
            r == iterator_fits(self@, stream@, shard_id@, iterator_type@, starting_seq),
    {
        let latest: u64 = match self.streams.get(stream) {
            None => {
                return true;
            },
            Some(found) => match find_shard(&found.shards, shard_id) {
                None => {
                    return true;
                },
                Some(i) => {
                    let records = &found.shards[i].records;
                    assert(found@.shards[i as int].records == records_view(records@));
                    if records.len() > 0 {
                        records[records.len() - 1].seq
                    } else {
                        0
                    }
                },
            },
        };
        if str_eq(iterator_type, "AFTER_SEQUENCE_NUMBER") {
            match starting_seq {
                Some(seq) => seq != u64::MAX,
                None => true,
            }
        } else if str_eq(iterator_type, "LATEST") || str_eq(iterator_type, "AT_TIMESTAMP") {
            latest < u64::MAX
        } else {
            true
        }
    }

    /// `make_iterator` at a given time.
    pub fn make_iterator_at(
        &self,
        stream: &str,
        shard_id: &str,
        iterator_type: &str,
        starting_seq: Option<u64>,
        timestamp_ms: Option<u128>,
        now: u128,
    ) -> (r: Option<Iterator>)
        requires
            self.wf(),
            iterator_fits(self@, stream@, shard_id@, iterator_type@, starting_seq),
            now + ITERATOR_TTL_MS <= u128::MAX,
        ensures
            shows_iterator(
                r,
                new_iterator(
                    self@,
                    stream@,
                    shard_id@,
                    iterator_type@,
                    starting_seq,
                    timestamp_ms,
                    now,
                ),
            ),
    {
        match self.streams.get(stream) {
            None => None,
            Some(found) => match find_shard(&found.shards, shard_id) {
                None => None,
                Some(i) => {
                    let shard = &found.shards[i];
                    assert(found@.shards[i as int] == shard@);
                    match resolve_start(shard, iterator_type, starting_seq, timestamp_ms) {
                        None => None,
                        Some(next_seq) => Some(
                            Iterator {
                                stream: String::from_str(stream),
                                shard_id: String::from_str(shard_id),
                                next_seq,
                                expires_ms: now + ITERATOR_TTL_MS,
                            },
                        ),
                    }
                },
            },
        }
    }
}

// ---- replay ------------------------------------------------------------------

/// One log entry: which stream and shard a record belongs to, and the record.
pub type Entry = (String, String, Record);

/// A log entry as a mathematical value.
pub struct EntryV {
    pub stream: Seq<char>,
    pub shard_id: Seq<char>,
    pub record: RecordV,
}

pub open spec fn entry_view(entry: Entry) -> EntryV {
    EntryV { stream: entry.0@, shard_id: entry.1@, record: entry.2@ }
}

pub open spec fn entries_view(entries: Seq<Entry>) -> Seq<EntryV> {
    entries.map_values(|entry: Entry| entry_view(entry))
}

/// The state after the entries were put back one after the other; what cannot be put back is
/// passed over.
pub open spec fn restored_all(store: StoreV, entries: Seq<EntryV>) -> StoreV
    decreases entries.len(),
{
    if entries.len() == 0 {
        store
    } else {
        let before = restored_all(store, entries.drop_last());
        let entry = entries.last();
        match restored(before, entry.stream, entry.shard_id, entry.record) {
            Some(after) => after,
            None => before,
        }
    }
}

/// The largest sequence number in the entries, 0 where there is none.
pub open spec fn max_seq(entries: Seq<EntryV>) -> u64
    decreases entries.len(),
{
    if entries.len() == 0 {
        0
    } else {
        let before = max_seq(entries.drop_last());
        if entries.last().record.seq > before {
            entries.last().record.seq
        } else {
            before
        }
    }
}

/// The state after the replay of a log: the entries are put back, the counter rises above
/// every sequence number in the log, and what has outlived its retention is dropped.
pub open spec fn replayed(store: StoreV, entries: Seq<EntryV>, now: u128) -> StoreV {
    trimmed(bumped(restored_all(store, entries), max_seq(entries)), now)
}

impl Store {
    /// Replays the entries of the log into a store that was loaded from the manifest, and
    /// says how many records had expired meanwhile (the count stops at `usize::MAX`).
    pub fn replay(&mut self, entries: Vec<Entry>, now: u128) -> (r: usize)
        requires
            old(self).wf(),
        ensures
            final(self).wf(),
            final(self)@ == replayed(old(self)@, entries_view(entries@), now),
            r == at_most(
                store_count(restored_all(old(self)@, entries_view(entries@))) - store_count(
                    final(self)@,
                ),
                usize::MAX as int,
            ),
    {
        let ghost before = self@;
        let ghost all = entries_view(entries@);
        let mut highest: u64 = 0;
        assert(all.take(0) =~= seq![]);
        for entry in it: entries
            invariant
                self.wf(),
                entries_view(it.seq()) == all,
                self@ == restored_all(before, all.take(it.index() as int)),
                highest == max_seq(all.take(it.index() as int)),
        {
            proof {
                assert(entries_view(it.seq())[it.index() as int] == entry_view(entry));
                assert(all.take(it.index() + 1).drop_last() =~= all.take(it.index() as int));
                assert(all.take(it.index() + 1).last() == entry_view(entry));
            }
            let (stream, shard_id, record) = entry;
            if record.seq > highest {
                highest = record.seq;
            }
            let _restored = self.restore_record(stream.as_str(), shard_id.as_str(), record);
        }
        assert(all.take(all.len() as int) =~= all);
        let ghost full = self@;
        self.bump_seq_to(highest);
        proof {
            lemma_count_ignores_counter(full, bumped(full, highest), full.order.len());
        }
        self.trim_expired(now)
    }
}

proof fn lemma_count_ignores_counter(a: StoreV, b: StoreV, n: nat)
    requires
        a.streams == b.streams,
        a.order == b.order,
    ensures
        streams_count(a, n) == streams_count(b, n),
    decreases n,
{
    if n > 0 {
        lemma_count_ignores_counter(a, b, (n - 1) as nat);
    }
}

} // verus!
