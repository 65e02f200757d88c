//! The stream-definition manifest: stream metadata and the sequence high-water mark. Records
//! live in the write-ahead log, not here, so the manifest stays tiny and is safe to rewrite
//! often. The file itself is read and written by the caller.
use crate::store::{Store, StoreV};
use crate::store_laws::{emptied, emptied_stream};
use crate::streams::{shards_view, Record, RecordV, Shard, ShardV, Stream, StreamV};
use vstd::prelude::*;

verus! {

pub open spec fn definitions_view(definitions: Seq<(String, Stream)>) -> Seq<(Seq<char>, StreamV)> {
    definitions.map_values(|definition: (String, Stream)| (definition.0@, definition.1@))
}

/// The definitions of all streams: their metadata, without their records.
pub open spec fn definitions(store: StoreV) -> Seq<(Seq<char>, StreamV)> {
    store.order.map_values(|name: Seq<char>| (name, emptied_stream(store.streams[name])))
}

fn bare_shard(shard: &Shard) -> (r: Shard)
    ensures
        r@ == (ShardV { records: Seq::<RecordV>::empty(), ..shard@ }),
{
    let records: Vec<Record> = Vec::new();
    assert(crate::streams::records_view(records@) =~= Seq::<RecordV>::empty());
    Shard {
        id: shard.id.clone(),
        hash_start: shard.hash_start,
        hash_end: shard.hash_end,
        records,
        closed: shard.closed,
    }
}

fn bare_stream(stream: &Stream) -> (r: Stream)
    ensures
        r@ == emptied_stream(stream@),
{
    let mut shards: Vec<Shard> = Vec::with_capacity(stream.shards.len());
    let mut i: usize = 0;
    while i < stream.shards.len()
        invariant
            i <= stream.shards@.len(),
            shards@.len() == i,
            forall|k: int|
                0 <= k < i ==> (#[trigger] shards@[k])@ == emptied_stream(stream@).shards[k],
        decreases stream.shards@.len() - i,
    {
        assert(stream@.shards[i as int] == stream.shards@[i as int]@);
        shards.push(bare_shard(&stream.shards[i]));
        i = i + 1;
    }
    assert(shards_view(shards@) =~= emptied_stream(stream@).shards);
    Stream {
        name: stream.name.clone(),
        arn: stream.arn.clone(),
        shards,
        retention_secs: stream.retention_secs,
        created_ms: stream.created_ms,
    }
}

/// What the manifest holds of the streams. The sequence counter and the default retention of
/// the store go with it.
pub fn save(store: &Store) -> (r: Vec<(String, Stream)>)
    requires
        store.wf(),
    ensures
        definitions_view(r@) == definitions(store@),
{
    let mut out: Vec<(String, Stream)> = Vec::with_capacity(store.streams.len());
    let mut i: usize = 0;
    while i < store.streams.len()
        invariant
            i <= store@.order.len(),
            store.wf(),
            out@.len() == i,
            forall|k: int|
                0 <= k < i ==> ((#[trigger] out@[k]).0@, out@[k].1@) == definitions(store@)[k],
        decreases store@.order.len() - i,
    {
        let name = store.streams.name_at(i).clone();
        let stream = bare_stream(store.streams.at(i));
        out.push((name, stream));
        i = i + 1;
    }
    assert(definitions_view(out@) =~= definitions(store@));
    out
}

/// The store of the first `n` definitions. Of two definitions of one name the later one counts.
pub open spec fn defined(
    definitions: Seq<(Seq<char>, StreamV)>,
    n: nat,
    counter: u64,
    default_retention_secs: u64,
) -> StoreV
    decreases n,
{
    if n == 0 {
        StoreV { streams: Map::empty(), order: Seq::empty(), counter, default_retention_secs }
    } else {
        let before = defined(definitions, (n - 1) as nat, counter, default_retention_secs);
        let (name, stream) = definitions[n - 1];
        StoreV {
            streams: before.streams.insert(name, emptied_stream(stream)),
            order: if before.streams.contains_key(name) {
                before.order
            } else {
                before.order.push(name)
            },
            ..before
        }
    }
}

/// The store that a manifest describes; it has no records yet, they come from the log.
pub fn load(
    definitions: Vec<(String, Stream)>,
    seq_counter: u64,
    default_retention_secs: u64,
) -> (r: Store)
    ensures
        r.wf(),
        r@ == defined(
            definitions_view(definitions@),
            definitions@.len(),
            seq_counter,
            default_retention_secs,
        ),
{
    let ghost shown = definitions_view(definitions@);
    let mut store = Store::new(default_retention_secs);
    store.seq_counter = seq_counter;
    let mut i: usize = 0;
    while i < definitions.len()
        invariant
            i <= definitions@.len(),
            store.wf(),
            shown == definitions_view(definitions@),
            store@ == defined(shown, i as nat, seq_counter, default_retention_secs),
        decreases definitions@.len() - i,
    {
        let ghost before = store@;
        assert(shown[i as int] == (definitions@[i as int].0@, definitions@[i as int].1@));
        let name = definitions[i].0.clone();
        let stream = bare_stream(&definitions[i].1);
        let known = match store.streams.get_mut(name.as_str()) {
            Some(found) => {
                *found = stream;
                None
            },
            None => Some((name, stream)),
        };
        if let Some((name, stream)) = known {
            store.streams.insert(name, stream);
        }
        i = i + 1;
    }
    store
}

/// The manifest of a store gives the store back without its records: every stream with its
/// shards, retention and creation time, and the sequence counter.
pub proof fn law_manifest_gives_back_the_streams(store: StoreV)
    requires
        store.order.no_duplicates(),
        forall|name: Seq<char>| #[trigger]
            store.order.contains(name) == store.streams.contains_key(name),
    ensures
        defined(
            definitions(store),
            definitions(store).len(),
            store.counter,
            store.default_retention_secs,
        ) == emptied(store),
{
    let all = definitions(store);
    let n = all.len();
    lemma_defined(store, n);
    let made = defined(all, n, store.counter, store.default_retention_secs);
    assert(store.order.take(n as int) =~= store.order);
    assert(made.streams.dom() =~= emptied(store).streams.dom()) by {
        assert forall|name: Seq<char>| made.streams.contains_key(name) == emptied(
            store,
        ).streams.contains_key(name) by {
            assert(store.order.contains(name) == store.streams.contains_key(name));
        }
    }
    assert forall|name: Seq<char>| #[trigger] made.streams.contains_key(name) implies made.streams[name]
        == emptied_stream(emptied_stream(store.streams[name])) by {
        let k = store.order.index_of(name);
        assert(store.order[k] == name);
    }
    assert forall|name: Seq<char>| #[trigger] made.streams.contains_key(name) implies made.streams[name]
        == emptied(store).streams[name] by {
        lemma_emptied_twice(store.streams[name]);
    }
    assert(made.streams =~= emptied(store).streams);
}

proof fn lemma_emptied_twice(stream: StreamV)
    ensures
        emptied_stream(emptied_stream(stream)) == emptied_stream(stream),
{
    assert(emptied_stream(emptied_stream(stream)).shards =~= emptied_stream(stream).shards);
}

proof fn lemma_defined(store: StoreV, n: nat)
    requires
        store.order.no_duplicates(),
        n <= store.order.len(),
    ensures
        ({
            let made = defined(
                definitions(store),
                n,
                store.counter,
                store.default_retention_secs,
            );
            &&& made.order == store.order.take(n as int)
            &&& made.counter == store.counter
            &&& made.default_retention_secs == store.default_retention_secs
            &&& forall|name: Seq<char>| #[trigger]
                made.streams.contains_key(name) == store.order.take(n as int).contains(name)
            &&& forall|k: int|
                0 <= k < n ==> made.streams[#[trigger] store.order[k]] == emptied_stream(
                    emptied_stream(store.streams[store.order[k]]),
                )
        }),
    decreases n,
{
    let all = definitions(store);
    let made = defined(all, n, store.counter, store.default_retention_secs);
    if n == 0 {
        assert(made.order =~= store.order.take(0));
        assert forall|name: Seq<char>| #[trigger] made.streams.contains_key(name)
            == store.order.take(0).contains(name) by {}
    } else {
        let m = (n - 1) as nat;
        lemma_defined(store, m);
        let name = store.order[m as int];
        let before = defined(all, m, store.counter, store.default_retention_secs);
        let here = store.order.take(m as int);
        let next = store.order.take(n as int);
        assert(next =~= here.push(name));
        if here.contains(name) {
            let j = here.index_of(name);
            assert(store.order[j] == store.order[m as int]);
        }
        assert(made.order =~= next);
        assert forall|k: Seq<char>| #[trigger] made.streams.contains_key(k) == next.contains(k) by {
            if next.contains(k) {
                let j = next.index_of(k);
                assert(j < m ==> here[j] == k);
            }
            if here.contains(k) {
                let j = here.index_of(k);
                assert(next[j] == k);
            }
            assert(next[m as int] == name);
            assert(before.streams.contains_key(k) == here.contains(k));
        }
    }
}

/// The store that the service starts with: the one that was loaded, or an empty one; the
/// default retention is that of the settings.
pub fn initial_store(loaded: Option<Store>, default_retention_secs: u64) -> (r: Store)
    requires
        loaded is Some ==> loaded->0.wf(),
    ensures
        r.wf(),
        r@ == (match loaded {
            Some(store) => StoreV { default_retention_secs, ..store@ },
            None => StoreV {
                streams: Map::empty(),
                order: Seq::empty(),
                counter: 0,
                default_retention_secs,
            },
        }),
{
    match loaded {
        Some(store) => {
            let mut store = store;
            store.default_retention_secs = default_retention_secs;
            store
        },
        None => Store::new(default_retention_secs),
    }
}

} // verus!
