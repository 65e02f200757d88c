//! What a put promises, written out: which shard takes a record, what is stored there, and what
//! the client is told.
use crate::json::JsonV;
use crate::ops::{
    aggregate_bytes, batch_json, batch_members, batch_outcome, batch_request, batch_stored,
    begin_outcome, member_too_large, place_outcome, put_outcome, put_request, record_request,
    settled, settled_answer, BatchV, PendingV, PlacedV,
};
use crate::ops_laws::{batch_run, law_unlogged_member_is_taken_back};
use crate::params::{arn_name, target_stream};
use crate::protocol::{base64_bytes, base64_text, is_base64, ErrV};
use crate::store::{be_value, md5_digest, put_at_hash, put_hash, route, takes, StoreV};
use crate::store_laws::{law_store_stays_sound, sound};
use crate::streams::{lemma_first_where, RecordV, ShardV, StreamV};
use crate::text::{decimal, parse_decimal};
use vstd::prelude::*;
use vstd::utf8::encode_utf8;

verus! {

// ---- the shard of a record ---------------------------------------------------

/// The place of a record on the ring: the one that was asked for, else the MD5 digest of the
/// partition key, read as a big-endian number.
pub open spec fn ring_place(partition_key: Seq<char>, explicit_hash_key: Option<u128>) -> nat {
    match explicit_hash_key {
        Some(hash) => hash as nat,
        None => be_value(md5_digest(encode_utf8(partition_key))),
    }
}

/// Whether a shard is open and its hash range holds a place of the ring.
pub open spec fn range_holds(shard: ShardV, place: nat) -> bool {
    !shard.closed && shard.hash_start as nat <= place && place <= shard.hash_end as nat
}

/// Whether two shards are the same but for their records.
pub open spec fn same_shard(a: ShardV, b: ShardV) -> bool {
    &&& a.id == b.id
    &&& a.hash_start == b.hash_start
    &&& a.hash_end == b.hash_end
    &&& a.closed == b.closed
}

/// Whether two streams are the same but for the records in their shards.
pub open spec fn same_stream(a: StreamV, b: StreamV) -> bool {
    &&& a.name == b.name
    &&& a.arn == b.arn
    &&& a.retention_secs == b.retention_secs
    &&& a.created_ms == b.created_ms
    &&& a.shards.len() == b.shards.len()
    &&& forall|i: int| 0 <= i < a.shards.len() ==> same_shard(#[trigger] a.shards[i], b.shards[i])
}

/// Whether `at` is the first shard whose range holds a place of the ring.
pub open spec fn first_holder(shards: Seq<ShardV>, place: nat, at: int) -> bool {
    &&& 0 <= at < shards.len()
    &&& range_holds(shards[at], place)
    &&& forall|j: int| 0 <= j < at ==> !range_holds(#[trigger] shards[j], place)
}

/// Whether `after` is `store` with a record behind those of shard `at` of a stream, and with
/// its sequence number used up; nothing else differs.
pub open spec fn stored_behind(
    store: StoreV,
    after: StoreV,
    name: Seq<char>,
    at: int,
    record: RecordV,
) -> bool {
    &&& record.seq == store.counter + 1
    &&& after.counter == record.seq
    &&& after.order == store.order
    &&& after.default_retention_secs == store.default_retention_secs
    &&& after.streams.dom() == store.streams.dom()
    &&& forall|k: Seq<char>|
        store.streams.contains_key(k) && k != name ==> #[trigger] after.streams[k]
            == store.streams[k]
    &&& same_stream(after.streams[name], store.streams[name])
    &&& forall|i: int|
        0 <= i < store.streams[name].shards.len() ==> (
        #[trigger] after.streams[name].shards[i]).records == if i == at {
            store.streams[name].shards[i].records.push(record)
        } else {
            store.streams[name].shards[i].records
        }
}

/// Whether only a sequence number was used up.
pub open spec fn only_counted(store: StoreV, after: StoreV) -> bool {
    &&& after.counter == store.counter + 1
    &&& after.order == store.order
    &&& after.default_retention_secs == store.default_retention_secs
    &&& after.streams == store.streams
}

/// Whether `after` and `answer` are what a put of a record at a place of the ring owes: the
/// first open shard whose hash range holds the place gets the record, under the next sequence
/// number, and the answer names that shard and that number. Where there is no such stream or
/// no such shard, nothing is stored.
pub open spec fn put_is_kept(
    store: StoreV,
    after: StoreV,
    answer: Option<(Seq<char>, u64)>,
    name: Seq<char>,
    partition_key: Seq<char>,
    data: Seq<u8>,
    place: nat,
    now: u128,
) -> bool {
    match answer {
        Some((shard_id, seq)) => {
            &&& store.streams.contains_key(name)
            &&& seq == store.counter + 1
            &&& exists|at: int|
                #[trigger] first_holder(store.streams[name].shards, place, at)
                    && store.streams[name].shards[at].id == shard_id && stored_behind(
                    store,
                    after,
                    name,
                    at,
                    RecordV { seq, partition_key, data, timestamp_ms: now },
                )
        },
        None => {
            &&& only_counted(store, after)
            &&& store.streams.contains_key(name) ==> forall|i: int|
                0 <= i < store.streams[name].shards.len() ==> !range_holds(
                    #[trigger] store.streams[name].shards[i],
                    place,
                )
        },
    }
}

proof fn lemma_be_value_bound(bytes: Seq<u8>)
    requires
        bytes.len() == 16,
    ensures
        be_value(bytes) <= u128::MAX,
{
    reveal_with_fuel(be_value, 17);
    let b1 = bytes.drop_last();
    let b2 = b1.drop_last();
    let b3 = b2.drop_last();
    let b4 = b3.drop_last();
    let b5 = b4.drop_last();
    let b6 = b5.drop_last();
    let b7 = b6.drop_last();
    let b8 = b7.drop_last();
    let b9 = b8.drop_last();
    let b10 = b9.drop_last();
    let b11 = b10.drop_last();
    let b12 = b11.drop_last();
    let b13 = b12.drop_last();
    let b14 = b13.drop_last();
    let b15 = b14.drop_last();
    assert(be_value(b15) <= 0xff);
    assert(be_value(b14) <= 0xffff);
    assert(be_value(b13) <= 0xff_ffff);
    assert(be_value(b12) <= 0xffff_ffff);
    assert(be_value(b11) <= 0xff_ffff_ffff);
    assert(be_value(b10) <= 0xffff_ffff_ffff);
    assert(be_value(b9) <= 0xff_ffff_ffff_ffff);
    assert(be_value(b8) <= 0xffff_ffff_ffff_ffff);
    assert(be_value(b7) <= 0xff_ffff_ffff_ffff_ffff);
    assert(be_value(b6) <= 0xffff_ffff_ffff_ffff_ffff);
    assert(be_value(b5) <= 0xff_ffff_ffff_ffff_ffff_ffff);
    assert(be_value(b4) <= 0xffff_ffff_ffff_ffff_ffff_ffff);
    assert(be_value(b3) <= 0xff_ffff_ffff_ffff_ffff_ffff_ffff);
    assert(be_value(b2) <= 0xffff_ffff_ffff_ffff_ffff_ffff_ffff);
    assert(be_value(b1) <= 0xff_ffff_ffff_ffff_ffff_ffff_ffff_ffff);
}

/// A put goes to the shard of its place on the ring: without an explicit hash key that is the
/// first open one whose range holds the MD5 digest of the partition key (sixteen bytes, read
/// as a big-endian number), with one it is that whose range holds that number. There the record
/// stands afterwards, behind the others, as it was given, under the next sequence number, and
/// the answer names the shard and the number. Nothing else changes.
pub proof fn law_put_goes_where_its_hash_belongs(
    store: StoreV,
    name: Seq<char>,
    partition_key: Seq<char>,
    data: Seq<u8>,
    explicit_hash_key: Option<u128>,
    now: u128,
)
    requires
        store.counter < u64::MAX,
        md5_digest(encode_utf8(partition_key)).len() == 16,
    ensures
        ({
            let (after, answer) = put_at_hash(
                store,
                name,
                partition_key,
                data,
                put_hash(partition_key, explicit_hash_key),
                now,
            );
            put_is_kept(
                store,
                after,
                answer,
                name,
                partition_key,
                data,
                ring_place(partition_key, explicit_hash_key),
                now,
            )
        }),
{
    let hash = put_hash(partition_key, explicit_hash_key);
    let place = ring_place(partition_key, explicit_hash_key);
    lemma_be_value_bound(md5_digest(encode_utf8(partition_key)));
    assert(hash as nat == place);
    let (after, answer) = put_at_hash(store, name, partition_key, data, hash, now);
    if store.streams.contains_key(name) {
        let shards = store.streams[name].shards;
        let wanted = |shard: ShardV| takes(shard, hash);
        lemma_first_where(shards, wanted);
        assert forall|i: int| 0 <= i < shards.len() implies wanted(#[trigger] shards[i])
            == range_holds(shards[i], place) by {}
        match route(shards, hash) {
            Some(at) => {
                assert(first_holder(shards, place, at));
                assert(after.streams.dom() =~= store.streams.dom());
                let record = RecordV {
                    seq: (store.counter + 1) as u64,
                    partition_key,
                    data,
                    timestamp_ms: now,
                };
                assert(stored_behind(store, after, name, at, record));
            },
            None => {},
        }
    }
}

// ---- one record --------------------------------------------------------------

/// Whether a request holds a text under a key.
pub open spec fn says(req: JsonV, key: Seq<char>, text: Seq<char>) -> bool {
    req.get(key) == Some(JsonV::Text(text))
}

/// Whether a request holds no text under a key.
pub open spec fn silent(req: JsonV, key: Seq<char>) -> bool {
    forall|text: Seq<char>| !#[trigger] says(req, key, text)
}

/// Whether a value describes a record that may be put: a partition key, base64 data of at most
/// 1 MiB, and no explicit hash key or one in decimal digits of at most 128 bits.
pub open spec fn describes(
    req: JsonV,
    partition_key: Seq<char>,
    data: Seq<u8>,
    explicit_hash_key: Option<u128>,
) -> bool {
    &&& says(req, "PartitionKey"@, partition_key)
    &&& says(req, "Data"@, base64_text(data))
    &&& data == base64_bytes(base64_text(data))
    &&& data.len() <= 1_048_576
    &&& match explicit_hash_key {
        Some(hash) => exists|text: Seq<char>| #[trigger]
            says(req, "ExplicitHashKey"@, text) && parse_decimal(text, u128::MAX as nat) == Some(
                hash as nat,
            ),
        None => silent(req, "ExplicitHashKey"@),
    }
}

/// What `PutRecord` accepts, and what it makes of it: exactly the requests that name a stream
/// and describe a record, with the partition key, the bytes and the hash key that they give.
pub proof fn law_put_request_is_taken_as_it_is(req: JsonV)
    ensures
        put_request(req) is Ok ==> {
            let (name, pending) = put_request(req)->Ok_0;
            &&& target_stream(req) == Ok::<Seq<char>, ErrV>(name)
            &&& describes(
                req,
                pending.partition_key,
                pending.data,
                pending.explicit_hash_key,
            )
        },
        forall|partition_key: Seq<char>, data: Seq<u8>, explicit_hash_key: Option<u128>|
            target_stream(req) is Ok && #[trigger] describes(
                req,
                partition_key,
                data,
                explicit_hash_key,
            ) ==> put_request(req) == Ok::<(Seq<char>, PendingV), ErrV>(
                (
                    target_stream(req)->Ok_0,
                    PendingV { partition_key, data, explicit_hash_key },
                ),
            ),
{
    if put_request(req) is Ok {
        let (name, pending) = put_request(req)->Ok_0;
        let text = req.get("Data"@)->0->Text_0;
        assert(is_base64(text));
        assert(base64_text(base64_bytes(text)) == text);
        if pending.explicit_hash_key is Some {
            let digits = req.get("ExplicitHashKey"@)->0->Text_0;
            assert(says(req, "ExplicitHashKey"@, digits));
        }
    }
    assert forall|partition_key: Seq<char>, data: Seq<u8>, explicit_hash_key: Option<u128>|
        target_stream(req) is Ok && #[trigger] describes(
            req,
            partition_key,
            data,
            explicit_hash_key,
        ) implies put_request(req) == Ok::<(Seq<char>, PendingV), ErrV>(
        (target_stream(req)->Ok_0, PendingV { partition_key, data, explicit_hash_key }),
    ) by {
        assert(is_base64(base64_text(data)));
        if req.text_of("ExplicitHashKey"@) is Some {
            assert(says(req, "ExplicitHashKey"@, req.text_of("ExplicitHashKey"@)->0));
        }
    }
}

/// What `PutRecord` does for a request that describes a record of an existing stream: the record
/// is kept as a put owes it, and the client is told the sequence number, in decimal digits, and
/// the id of the shard that holds the record.
pub proof fn law_put_record_keeps_and_answers(
    store: StoreV,
    req: JsonV,
    now: u128,
    partition_key: Seq<char>,
    data: Seq<u8>,
    explicit_hash_key: Option<u128>,
)
    requires
        store.counter < u64::MAX,
        target_stream(req) is Ok,
        describes(req, partition_key, data, explicit_hash_key),
        md5_digest(encode_utf8(partition_key)).len() == 16,
    ensures
        ({
            let name = target_stream(req)->Ok_0;
            let (after, answer) = put_outcome(store, req, now);
            let (begun, placed) = begin_outcome(store, req, now);
            let place = ring_place(partition_key, explicit_hash_key);
            let seq = (store.counter + 1) as u64;
            &&& begun == after
            &&& match answer {
                Ok(value) => exists|shard_id: Seq<char>|
                    {
                        &&& #[trigger] put_is_kept(
                            store,
                            after,
                            Some((shard_id, seq)),
                            name,
                            partition_key,
                            data,
                            place,
                            now,
                        )
                        &&& placed == Ok::<PlacedV, ErrV>(
                            PlacedV { stream: name, shard_id, seq },
                        )
                        &&& value == JsonV::Object(
                            seq![
                                ("SequenceNumber"@, JsonV::Text(decimal(seq as nat))),
                                ("ShardId"@, JsonV::Text(shard_id)),
                            ],
                        )
                    },
                Err(error) => {
                    &&& put_is_kept(
                        store,
                        after,
                        None,
                        name,
                        partition_key,
                        data,
                        place,
                        now,
                    )
                    &&& placed == Err::<PlacedV, ErrV>(error)
                    &&& error == (ErrV {
                        kind: "ResourceNotFoundException"@,
                        message: "Stream "@ + name + " not found"@,
                    })
                },
            }
        }),
{
    law_put_request_is_taken_as_it_is(req);
    let name = target_stream(req)->Ok_0;
    law_put_goes_where_its_hash_belongs(
        store,
        name,
        partition_key,
        data,
        explicit_hash_key,
        now,
    );
    let pending = PendingV { partition_key, data, explicit_hash_key };
    assert(put_request(req) == Ok::<(Seq<char>, PendingV), ErrV>((name, pending)));
    let (after, answer) = place_outcome(store, name, pending, now);
    let value = put_outcome(store, req, now).1;
    match answer {
        Some((shard_id, seq)) => {
            assert(put_is_kept(
                store,
                after,
                Some((shard_id, (store.counter + 1) as u64)),
                name,
                partition_key,
                data,
                ring_place(partition_key, explicit_hash_key),
                now,
            ));
            let expected = JsonV::Object(
                seq![
                    ("SequenceNumber"@, JsonV::Text(decimal(seq as nat))),
                    ("ShardId"@, JsonV::Text(shard_id)),
                ],
            );
            assert(value->Ok_0->Object_0 =~= expected->Object_0);
        },
        None => {},
    }
}

/// A `PutRecord` request that is refused leaves the store as it was, and says what is missing or
/// wrong; the first of these that applies: no stream is named, there is no partition key, no
/// data, the data is no base64 or too long, the hash key is no number.
pub proof fn law_put_record_refusals(store: StoreV, req: JsonV, now: u128)
    ensures
        target_stream(req) is Err ==> begin_outcome(store, req, now) == (
            store,
            Err::<PlacedV, ErrV>(target_stream(req)->Err_0),
        ),
        target_stream(req) is Ok && silent(req, "PartitionKey"@) ==> begin_outcome(
            store,
            req,
            now,
        ) == (
            store,
            Err::<PlacedV, ErrV>(
                ErrV {
                    kind: "ValidationException"@,
                    message: "Missing required parameter: "@ + "PartitionKey"@,
                },
            ),
        ),
        target_stream(req) is Ok && !silent(req, "PartitionKey"@) && silent(req, "Data"@)
            ==> begin_outcome(store, req, now) == (
            store,
            Err::<PlacedV, ErrV>(
                ErrV {
                    kind: "ValidationException"@,
                    message: "Missing required parameter: "@ + "Data"@,
                },
            ),
        ),
        forall|text: Seq<char>|
            target_stream(req) is Ok && !silent(req, "PartitionKey"@) && #[trigger] says(
                req,
                "Data"@,
                text,
            ) && (forall|data: Seq<u8>| #[trigger] base64_text(data) != text) ==> begin_outcome(
                store,
                req,
                now,
            ) == (
                store,
                Err::<PlacedV, ErrV>(
                    ErrV {
                        kind: "InvalidArgumentException"@,
                        message: "Data is not valid base64"@,
                    },
                ),
            ),
        forall|data: Seq<u8>|
            target_stream(req) is Ok && !silent(req, "PartitionKey"@) && says(
                req,
                "Data"@,
                #[trigger] base64_text(data),
            ) && data == base64_bytes(base64_text(data)) && data.len() > 1_048_576 ==> {
                let (after, answer) = begin_outcome(store, req, now);
                &&& after == store
                &&& answer is Err && answer->Err_0.kind == "ValidationException"@
            },
        forall|data: Seq<u8>, text: Seq<char>|
            target_stream(req) is Ok && !silent(req, "PartitionKey"@) && says(
                req,
                "Data"@,
                #[trigger] base64_text(data),
            ) && data == base64_bytes(base64_text(data)) && data.len() <= 1_048_576
                && #[trigger] says(req, "ExplicitHashKey"@, text) && parse_decimal(
                text,
                u128::MAX as nat,
            ) is None ==> begin_outcome(store, req, now) == (
                store,
                Err::<PlacedV, ErrV>(
                    ErrV {
                        kind: "ValidationException"@,
                        message: "Invalid "@ + "ExplicitHashKey"@ + ": "@ + text,
                    },
                ),
            ),
{
    lemma_silent(req, "PartitionKey"@);
    lemma_silent(req, "Data"@);
    assert forall|text: Seq<char>|
        target_stream(req) is Ok && !silent(req, "PartitionKey"@) && #[trigger] says(
            req,
            "Data"@,
            text,
        ) && (forall|data: Seq<u8>| #[trigger] base64_text(data) != text) implies begin_outcome(
        store,
        req,
        now,
    ) == (
        store,
        Err::<PlacedV, ErrV>(
            ErrV { kind: "InvalidArgumentException"@, message: "Data is not valid base64"@ },
        ),
    ) by {
        assert(!is_base64(text));
    }
    assert forall|data: Seq<u8>| says(
        req,
        "Data"@,
        #[trigger] base64_text(data),
    ) implies is_base64(base64_text(data)) by {}
}

proof fn lemma_silent(req: JsonV, key: Seq<char>)
    ensures
        silent(req, key) == (req.text_of(key) is None),
        req.text_of(key) is Some ==> says(req, key, req.text_of(key)->0),
{
    if req.text_of(key) is Some {
        assert(says(req, key, req.text_of(key)->0));
    }
}

/// What the client of a placed record is told: its sequence number and shard where it could be
/// logged, and otherwise a failure of the service.
pub proof fn law_settled_put_is_answered(placed: PlacedV)
    ensures
        settled_answer(placed, true) == Ok::<JsonV, ErrV>(
            JsonV::Object(
                seq![
                    ("SequenceNumber"@, JsonV::Text(decimal(placed.seq as nat))),
                    ("ShardId"@, JsonV::Text(placed.shard_id)),
                ],
            ),
        ),
        settled_answer(placed, false) == Err::<JsonV, ErrV>(
            ErrV {
                kind: "InternalFailure"@,
                message: "Record could not be durably persisted"@,
            },
        ),
        forall|store: StoreV| #[trigger] settled(store, placed, true) == store,
{
    let told = settled_answer(placed, true)->Ok_0;
    assert(told->Object_0 =~= seq![
        ("SequenceNumber"@, JsonV::Text(decimal(placed.seq as nat))),
        ("ShardId"@, JsonV::Text(placed.shard_id)),
    ]);
}

// ---- many records ------------------------------------------------------------

/// Whether the result of a stored record of a batch is true: it gives the sequence number and
/// the id of a shard whose range holds the record's place on the ring, and which holds the
/// record under that number, with its partition key and its data.
pub open spec fn result_is_true(
    store: StoreV,
    name: Seq<char>,
    result: JsonV,
    pending: PendingV,
    seq: u64,
    now: u128,
) -> bool {
    exists|at: int|
        0 <= at < store.streams[name].shards.len() && {
            let shard = #[trigger] store.streams[name].shards[at];
            &&& result == JsonV::Object(
                seq![
                    ("SequenceNumber"@, JsonV::Text(decimal(seq as nat))),
                    ("ShardId"@, JsonV::Text(shard.id)),
                ],
            )
            &&& range_holds(
                shard,
                ring_place(pending.partition_key, pending.explicit_hash_key),
            )
            &&& shard.records.contains(
                RecordV {
                    seq,
                    partition_key: pending.partition_key,
                    data: pending.data,
                    timestamp_ms: now,
                },
            )
        }
}

/// A true result stays true when another record is put into the stream.
proof fn lemma_result_stays_true(
    store: StoreV,
    after: StoreV,
    name: Seq<char>,
    at: int,
    record: RecordV,
    result: JsonV,
    pending: PendingV,
    seq: u64,
    now: u128,
)
    requires
        stored_behind(store, after, name, at, record),
        store.streams.contains_key(name),
        result_is_true(store, name, result, pending, seq, now),
    ensures
        result_is_true(after, name, result, pending, seq, now),
{
    let shards = store.streams[name].shards;
    let told = RecordV {
        seq,
        partition_key: pending.partition_key,
        data: pending.data,
        timestamp_ms: now,
    };
    let k = choose|k: int|
        0 <= k < shards.len() && {
            let shard = #[trigger] shards[k];
            &&& result == JsonV::Object(
                seq![
                    ("SequenceNumber"@, JsonV::Text(decimal(seq as nat))),
                    ("ShardId"@, JsonV::Text(shard.id)),
                ],
            )
            &&& range_holds(
                shard,
                ring_place(pending.partition_key, pending.explicit_hash_key),
            )
            &&& shard.records.contains(told)
        };
    let shard = after.streams[name].shards[k];
    assert(same_shard(shard, shards[k]));
    let i = shards[k].records.index_of(told);
    assert(shards[k].records[i] == told);
    assert(shard.records[i] == told);
    assert(shard.records.contains(told));
}

/// What the put of one record of a batch makes true.
proof fn lemma_placed_result(
    store: StoreV,
    name: Seq<char>,
    pending: PendingV,
    now: u128,
    result: JsonV,
)
    requires
        store.counter < u64::MAX,
        store.streams.contains_key(name),
        md5_digest(encode_utf8(pending.partition_key)).len() == 16,
        place_outcome(store, name, pending, now).1 is Some,
        ({
            let (shard_id, seq) = place_outcome(store, name, pending, now).1->0;
            result == JsonV::Object(
                seq![
                    ("SequenceNumber"@, JsonV::Text(decimal(seq as nat))),
                    ("ShardId"@, JsonV::Text(shard_id)),
                ],
            )
        }),
    ensures
        ({
            let after = place_outcome(store, name, pending, now).0;
            let seq = (store.counter + 1) as u64;
            &&& result_is_true(after, name, result, pending, seq, now)
            &&& exists|at: int| #[trigger]
                stored_behind(
                    store,
                    after,
                    name,
                    at,
                    RecordV {
                        seq,
                        partition_key: pending.partition_key,
                        data: pending.data,
                        timestamp_ms: now,
                    },
                )
        }),
{
    let (after, answer) = place_outcome(store, name, pending, now);
    let place = ring_place(pending.partition_key, pending.explicit_hash_key);
    law_put_goes_where_its_hash_belongs(
        store,
        name,
        pending.partition_key,
        pending.data,
        pending.explicit_hash_key,
        now,
    );
    let (shard_id, seq) = answer->0;
    let record = RecordV {
        seq,
        partition_key: pending.partition_key,
        data: pending.data,
        timestamp_ms: now,
    };
    let at = choose|at: int|
        #[trigger] first_holder(store.streams[name].shards, place, at)
            && store.streams[name].shards[at].id == shard_id && stored_behind(
            store,
            after,
            name,
            at,
            record,
        );
    let shard = after.streams[name].shards[at];
    assert(same_shard(shard, store.streams[name].shards[at]));
    assert(shard.records.last() == record);
    assert(shard.records.contains(record)) by {
        assert(shard.records[shard.records.len() - 1] == record);
    }
    assert(result_is_true(after, name, result, pending, seq, now));
}

/// The results of an accepted batch are true: the `i`-th one names the shard that holds the
/// `i`-th record afterwards, under the sequence number that it gives and with the partition key
/// and the data of the `i`-th request; and the numbers are consecutive.
pub proof fn law_batch_results_are_true(
    store: StoreV,
    name: Seq<char>,
    pending: Seq<PendingV>,
    times: Seq<u128>,
    n: nat,
)
    requires
        store.streams.contains_key(name),
        store.counter + n <= u64::MAX,
        n <= pending.len(),
        forall|i: int|
            0 <= i < n ==> md5_digest(encode_utf8((#[trigger] pending[i]).partition_key)).len()
                == 16,
        batch_stored(store, name, pending, times, n).1 is Some,
    ensures
        ({
            let (after, results) = batch_stored(store, name, pending, times, n);
            &&& results->0.len() == n
            &&& after.counter == store.counter + n
            &&& after.streams.contains_key(name)
            &&& forall|i: int|
                0 <= i < n ==> result_is_true(
                    after,
                    name,
                    #[trigger] results->0[i],
                    pending[i],
                    (store.counter + 1 + i) as u64,
                    times[i],
                )
        }),
    decreases n,
{
    if n > 0 {
        let m = (n - 1) as nat;
        law_batch_results_are_true(store, name, pending, times, m);
        let (before, told) = batch_stored(store, name, pending, times, m);
        let (after, results) = batch_stored(store, name, pending, times, n);
        let item = pending[n - 1];
        let now = times[n - 1];
        let (shard_id, seq) = place_outcome(before, name, item, now).1->0;
        let last = results->0[n - 1];
        let expected = JsonV::Object(
            seq![
                ("SequenceNumber"@, JsonV::Text(decimal(seq as nat))),
                ("ShardId"@, JsonV::Text(shard_id)),
            ],
        );
        assert(last->Object_0 =~= expected->Object_0);
        lemma_placed_result(before, name, item, now, last);
        let record = RecordV {
            seq: (before.counter + 1) as u64,
            partition_key: item.partition_key,
            data: item.data,
            timestamp_ms: now,
        };
        let at = choose|at: int| #[trigger] stored_behind(before, after, name, at, record);
        assert forall|i: int| 0 <= i < n implies result_is_true(
            after,
            name,
            #[trigger] results->0[i],
            pending[i],
            (store.counter + 1 + i) as u64,
            times[i],
        ) by {
            if i < m {
                assert(results->0[i] == told->0[i]);
                lemma_result_stays_true(
                    before,
                    after,
                    name,
                    at,
                    record,
                    told->0[i],
                    pending[i],
                    (store.counter + 1 + i) as u64,
                    times[i],
                );
            }
        }
    }
}

/// The results of a batch are true also where some of its records could not be logged: each one
/// that is reported as stored is held as it says, and each of the others is reported as failed.
pub proof fn law_logged_batch_results_are_true(
    store: StoreV,
    batch: BatchV,
    times: Seq<u128>,
    logged: Seq<bool>,
    n: nat,
)
    requires
        sound(store),
        store.streams.contains_key(batch.stream),
        store.counter + n <= u64::MAX,
        batch.results.len() == 0,
        n <= batch.pending.len(),
        n <= times.len(),
        n <= logged.len(),
        forall|i: int|
            0 <= i < n ==> md5_digest(
                encode_utf8((#[trigger] batch.pending[i]).partition_key),
            ).len() == 16,
    ensures
        ({
            let (after, rest) = batch_run(store, batch, times, logged, n);
            &&& sound(after)
            &&& after.counter == store.counter + n
            &&& after.streams.contains_key(batch.stream)
            &&& rest.stream == batch.stream
            &&& rest.pending == batch.pending.skip(n as int)
            &&& rest.results.len() == n
            &&& forall|i: int|
                0 <= i < n ==> if logged[i] {
                    result_is_true(
                        after,
                        batch.stream,
                        #[trigger] rest.results[i],
                        batch.pending[i],
                        (store.counter + 1 + i) as u64,
                        times[i],
                    )
                } else {
                    rest.results[i] == JsonV::Object(
                        seq![
                            ("ErrorCode"@, JsonV::Text("InternalFailure"@)),
                            (
                                "ErrorMessage"@,
                                JsonV::Text("Record could not be durably persisted"@),
                            ),
                        ],
                    )
                }
        }),
    decreases n,
{
    if n == 0 {
        assert(batch.pending.skip(0) =~= batch.pending);
    } else {
        let m = (n - 1) as nat;
        let name = batch.stream;
        law_logged_batch_results_are_true(store, batch, times, logged, m);
        let (before, told) = batch_run(store, batch, times, logged, m);
        let (after, rest) = batch_run(store, batch, times, logged, n);
        let item = batch.pending[n - 1];
        let now = times[n - 1];
        assert(told.pending[0] == item);
        assert(told.pending.drop_first() =~= batch.pending.skip(n as int));
        law_unlogged_member_is_taken_back(before, name, item, now);
        law_store_stays_sound(
            before,
            name,
            Seq::empty(),
            0,
            None,
            item.partition_key,
            item.data,
            put_hash(item.partition_key, item.explicit_hash_key),
            RecordV { seq: 0, partition_key: item.partition_key, data: item.data, timestamp_ms: 0 },
            0,
            now,
        );
        let (shard_id, seq) = place_outcome(before, name, item, now).1->0;
        let expected = JsonV::Object(
            seq![
                ("SequenceNumber"@, JsonV::Text(decimal(seq as nat))),
                ("ShardId"@, JsonV::Text(shard_id)),
            ],
        );
        lemma_placed_result(before, name, item, now, expected);
        let put = place_outcome(before, name, item, now).0;
        let record = RecordV {
            seq: (before.counter + 1) as u64,
            partition_key: item.partition_key,
            data: item.data,
            timestamp_ms: now,
        };
        let at = choose|at: int| #[trigger] stored_behind(before, put, name, at, record);
        let last = rest.results[n - 1];
        if logged[n - 1] {
            assert(after == put);
            assert(last->Object_0 =~= expected->Object_0);
        } else {
            assert(after.streams == before.streams);
            assert(last->Object_0 =~= seq![
                ("ErrorCode"@, JsonV::Text("InternalFailure"@)),
                ("ErrorMessage"@, JsonV::Text("Record could not be durably persisted"@)),
            ]);
            assert forall|k: Seq<char>| #[trigger] after.streams.contains_key(k) implies crate::store_laws::covers_ring(
                after.streams[k].shards,
            ) && crate::store_laws::distinct_ids(after.streams[k].shards) by {
                assert(before.streams.contains_key(k));
            }
        }
        assert forall|i: int| 0 <= i < n implies if logged[i] {
            result_is_true(
                after,
                name,
                #[trigger] rest.results[i],
                batch.pending[i],
                (store.counter + 1 + i) as u64,
                times[i],
            )
        } else {
            rest.results[i] == JsonV::Object(
                seq![
                    ("ErrorCode"@, JsonV::Text("InternalFailure"@)),
                    ("ErrorMessage"@, JsonV::Text("Record could not be durably persisted"@)),
                ],
            )
        } by {
            if i < m {
                assert(rest.results[i] == told.results[i]);
                if logged[i] && logged[n - 1] {
                    lemma_result_stays_true(
                        before,
                        after,
                        name,
                        at,
                        record,
                        told.results[i],
                        batch.pending[i],
                        (store.counter + 1 + i) as u64,
                        times[i],
                    );
                } else if logged[i] {
                    assert(after.streams[name] == before.streams[name]);
                    assert(result_is_true(
                        before,
                        name,
                        told.results[i],
                        batch.pending[i],
                        (store.counter + 1 + i) as u64,
                        times[i],
                    ));
                }
            }
        }
    }
}

/// What a value makes of a record: exactly the one that it describes.
proof fn lemma_record_is_described(req: JsonV, too_large: Seq<char>, pending: PendingV)
    ensures
        (record_request(req, too_large) == Ok::<PendingV, ErrV>(pending)) == describes(
            req,
            pending.partition_key,
            pending.data,
            pending.explicit_hash_key,
        ),
{
    let described = describes(
        req,
        pending.partition_key,
        pending.data,
        pending.explicit_hash_key,
    );
    lemma_silent(req, "ExplicitHashKey"@);
    if record_request(req, too_large) == Ok::<PendingV, ErrV>(pending) {
        let text = req.get("Data"@)->0->Text_0;
        assert(is_base64(text));
        assert(base64_text(base64_bytes(text)) == text);
        if pending.explicit_hash_key is Some {
            let digits = req.get("ExplicitHashKey"@)->0->Text_0;
            assert(says(req, "ExplicitHashKey"@, digits));
        }
        assert(described);
    }
    if described {
        assert(is_base64(base64_text(pending.data)));
        if req.text_of("ExplicitHashKey"@) is Some {
            assert(says(req, "ExplicitHashKey"@, req.text_of("ExplicitHashKey"@)->0));
        }
    }
}

/// The bytes of the data and of the partition keys of the first `n` records together.
pub open spec fn batch_bytes(pending: Seq<PendingV>, n: nat) -> nat
    decreases n,
{
    if n == 0 {
        0
    } else {
        batch_bytes(pending, (n - 1) as nat) + pending[n - 1].data.len() + encode_utf8(
            pending[n - 1].partition_key,
        ).len()
    }
}

/// Whether a request describes a batch: at most 500 records of at most 5 MiB together, each of
/// them as its own object describes it and in their order.
pub open spec fn describes_batch(req: JsonV, pending: Seq<PendingV>) -> bool {
    match req.get("Records"@) {
        Some(JsonV::Array(items)) => {
            &&& items.len() == pending.len()
            &&& items.len() <= 500
            &&& forall|i: int|
                0 <= i < items.len() ==> describes(
                    #[trigger] items[i],
                    pending[i].partition_key,
                    pending[i].data,
                    pending[i].explicit_hash_key,
                )
            &&& batch_bytes(pending, pending.len()) <= 5_242_880
        },
        _ => false,
    }
}

/// What `PutRecords` accepts, and what it makes of it: exactly the requests that name a stream
/// that is there and describe a batch, with the records that they give; every other one is
/// refused as a whole.
pub proof fn law_batch_request_is_taken_as_it_is(
    store: StoreV,
    req: JsonV,
    name: Seq<char>,
    pending: Seq<PendingV>,
)
    ensures
        (batch_request(store, req) == Ok::<(Seq<char>, Seq<PendingV>), ErrV>((name, pending))) == (
        target_stream(req) == Ok::<Seq<char>, ErrV>(name) && store.streams.contains_key(name)
            && describes_batch(req, pending)),
{
    match req.get("Records"@) {
        Some(JsonV::Array(items)) => {
            lemma_members_are_described(items, pending, items.len());
            lemma_batch_bytes(pending, pending.len());
            if batch_members(items, items.len()) is Ok {
                let found = batch_members(items, items.len())->Ok_0;
                lemma_members_count(items, items.len());
                if describes_batch(req, pending) {
                    assert(pending.take(items.len() as int) =~= pending);
                }
                if found == pending {
                    assert(pending.take(items.len() as int) =~= pending);
                }
            } else if describes_batch(req, pending) {
                assert(pending.take(items.len() as int) =~= pending);
            }
        },
        _ => {},
    }
}

proof fn lemma_members_count(items: Seq<JsonV>, n: nat)
    ensures
        batch_members(items, n) is Ok ==> batch_members(items, n)->Ok_0.len() == n,
    decreases n,
{
    if n > 0 {
        lemma_members_count(items, (n - 1) as nat);
    }
}

proof fn lemma_batch_bytes(pending: Seq<PendingV>, n: nat)
    ensures
        aggregate_bytes(pending, n) == batch_bytes(pending, n),
    decreases n,
{
    if n > 0 {
        lemma_batch_bytes(pending, (n - 1) as nat);
    }
}

proof fn lemma_members_are_described(items: Seq<JsonV>, pending: Seq<PendingV>, n: nat)
    requires
        n <= items.len(),
    ensures
        n <= pending.len() ==> ((batch_members(items, n) == Ok::<Seq<PendingV>, ErrV>(
            pending.take(n as int),
        )) == forall|i: int|
            0 <= i < n ==> describes(
                #[trigger] items[i],
                pending[i].partition_key,
                pending[i].data,
                pending[i].explicit_hash_key,
            )),
    decreases n,
{
    if n <= pending.len() {
        if n == 0 {
            assert(pending.take(0) =~= Seq::empty());
        } else {
            let m = (n - 1) as nat;
            lemma_members_are_described(items, pending, m);
            let last = pending[n - 1];
            let whole = pending.take(n as int);
            assert(whole =~= pending.take(m as int).push(last));
            lemma_record_is_described(items[n - 1], member_too_large(m), last);
            let all_described = forall|i: int|
                0 <= i < n ==> describes(
                    #[trigger] items[i],
                    pending[i].partition_key,
                    pending[i].data,
                    pending[i].explicit_hash_key,
                );
            if batch_members(items, n) == Ok::<Seq<PendingV>, ErrV>(whole) {
                let before = batch_members(items, m)->Ok_0;
                let item = record_request(items[n - 1], member_too_large(m))->Ok_0;
                assert(before.push(item) == whole);
                assert(before =~= whole.drop_last());
                assert(whole.drop_last() =~= pending.take(m as int));
                assert(item == whole.last());
                assert forall|i: int| 0 <= i < n implies describes(
                    #[trigger] items[i],
                    pending[i].partition_key,
                    pending[i].data,
                    pending[i].explicit_hash_key,
                ) by {}
                assert(all_described);
            }
            if all_described {
                assert(describes(
                    items[n - 1],
                    last.partition_key,
                    last.data,
                    last.explicit_hash_key,
                ));
            }
        }
    }
}

/// The answer to a batch: how many of its records failed, and the results in their order; and a
/// batch that is refused leaves the store as it was.
pub proof fn law_batch_is_answered(
    store: StoreV,
    req: JsonV,
    times: Seq<u128>,
    failed: u64,
    results: Seq<JsonV>,
)
    ensures
        batch_json(failed, results) == JsonV::Object(
            seq![
                (
                    "FailedRecordCount"@,
                    JsonV::Number { unsigned: Some(failed), text: decimal(failed as nat) },
                ),
                ("Records"@, JsonV::Array(results)),
            ],
        ),
        batch_request(store, req) is Err ==> batch_outcome(store, req, times) == (
            store,
            Err::<JsonV, ErrV>(batch_request(store, req)->Err_0),
        ),
        batch_request(store, req) is Ok ==> {
            let (name, pending) = batch_request(store, req)->Ok_0;
            let (after, told) = batch_stored(store, name, pending, times, pending.len());
            told is Some ==> batch_outcome(store, req, times) == (
                after,
                Ok::<JsonV, ErrV>(batch_json(0, told->0)),
            )
        },
{
    assert(batch_json(failed, results)->Object_0 =~= seq![
        (
            "FailedRecordCount"@,
            JsonV::Number { unsigned: Some(failed), text: decimal(failed as nat) },
        ),
        ("Records"@, JsonV::Array(results)),
    ]);
}

/// A batch that is refused says what is missing or wrong; the first of these that applies: there is
/// no such stream, there are no records or more than 500, one of them is wrong, which is then told
/// of the first such, by its index where its data is too long, or all of them are too long
/// together.
pub proof fn law_batch_refusals(
    store: StoreV,
    req: JsonV,
    name: Seq<char>,
    items: Seq<JsonV>,
    pending: Seq<PendingV>,
    i: int,
    data: Seq<u8>,
)
    requires
        target_stream(req) == Ok::<Seq<char>, ErrV>(name),
        pending.len() == items.len(),
        0 <= i <= items.len(),
        forall|k: int|
            0 <= k < i ==> describes(
                #[trigger] items[k],
                pending[k].partition_key,
                pending[k].data,
                pending[k].explicit_hash_key,
            ),
    ensures
        !store.streams.contains_key(name) ==> refuses_batch(
            store,
            req,
            "ResourceNotFoundException"@,
            "Stream "@ + name + " not found"@,
        ),
        store.streams.contains_key(name) && !(req.get("Records"@) is Some && req.get("Records"@)->0 is Array) ==> refuses_batch(
            store,
            req,
            "ValidationException"@,
            "Missing required parameter: Records"@,
        ),
        store.streams.contains_key(name) && req.get("Records"@) == Some(JsonV::Array(items)) ==> {
            &&& items.len() > 500 ==> refuses_batch(
                store,
                req,
                "ValidationException"@,
                "1 validation error detected: Value at 'records' failed to satisfy constraint: Member must have length less than or equal to 500"@,
            )
            &&& items.len() <= 500 && i < items.len() && silent(items[i], "PartitionKey"@)
                ==> refuses_batch(
                store,
                req,
                "ValidationException"@,
                "Missing required parameter: "@ + "PartitionKey"@,
            )
            &&& items.len() <= 500 && i < items.len() && !silent(items[i], "PartitionKey"@)
                && silent(items[i], "Data"@) ==> refuses_batch(
                store,
                req,
                "ValidationException"@,
                "Missing required parameter: "@ + "Data"@,
            )
            &&& items.len() <= 500 && i < items.len() && !silent(items[i], "PartitionKey"@) && says(
                items[i],
                "Data"@,
                base64_text(data),
            ) && data == base64_bytes(base64_text(data)) && data.len() > 1_048_576 ==> refuses_batch(
                store,
                req,
                "ValidationException"@,
                "1 validation error detected: Value at 'records."@ + decimal(i as nat)
                    + ".member.data' failed to satisfy constraint: Member must have length less than or equal to 1048576"@,
            )
            &&& items.len() <= 500 && i == items.len() && batch_bytes(pending, pending.len())
                > 5_242_880 ==> refuses_batch(
                store,
                req,
                "ValidationException"@,
                "Records size exceeds the maximum allowed of 5 MiB for the entire request"@,
            )
        },
{
    if req.get("Records"@) == Some(JsonV::Array(items)) && items.len() <= 500 {
        lemma_members_are_described(items, pending, i as nat);
        lemma_batch_bytes(pending, pending.len());
        if i < items.len() {
            lemma_silent(items[i], "PartitionKey"@);
            lemma_silent(items[i], "Data"@);
            if says(items[i], "Data"@, base64_text(data)) {
                assert(is_base64(base64_text(data)));
            }
            let n = (i + 1) as nat;
            if batch_members(items, n) is Err {
                lemma_first_error_stays(items, n, items.len());
            }
        } else {
            assert(pending.take(i) =~= pending);
        }
    }
}

/// Whether a batch is refused with this error.
pub open spec fn refuses_batch(
    store: StoreV,
    req: JsonV,
    kind: Seq<char>,
    message: Seq<char>,
) -> bool {
    batch_request(store, req) == Err::<(Seq<char>, Seq<PendingV>), ErrV>(ErrV { kind, message })
}

proof fn lemma_first_error_stays(items: Seq<JsonV>, n: nat, m: nat)
    requires
        n <= m,
        batch_members(items, n) is Err,
    ensures
        batch_members(items, m) == batch_members(items, n),
    decreases m,
{
    if n < m {
        lemma_first_error_stays(items, n, (m - 1) as nat);
    }
}

// ---- the stream of a request -------------------------------------------------

/// Which stream a request names: that of its name, or that of its ARN, or that of both where they
/// agree; and nothing else is accepted.
pub proof fn law_request_names_its_stream(req: JsonV, name: Seq<char>, arn: Seq<char>)
    ensures
        says(req, "StreamName"@, name) && req.get("StreamARN"@) is None ==> target_stream(req)
            == Ok::<Seq<char>, ErrV>(name),
        req.get("StreamName"@) is None && says(req, "StreamARN"@, arn) && arn_name(arn) is Some
            ==> target_stream(req) == Ok::<Seq<char>, ErrV>(arn_name(arn)->0),
        says(req, "StreamName"@, name) && says(req, "StreamARN"@, arn) && arn_name(arn) == Some(
            name,
        ) ==> target_stream(req) == Ok::<Seq<char>, ErrV>(name),
        says(req, "StreamName"@, name) && says(req, "StreamARN"@, arn) && arn_name(arn) != Some(
            name,
        ) ==> target_stream(req) is Err && target_stream(req)->Err_0.kind
            == "ValidationException"@,
        says(req, "StreamARN"@, arn) && arn_name(arn) is None ==> target_stream(req) is Err
            && target_stream(req)->Err_0.kind == "ValidationException"@,
        req.get("StreamName"@) is None && req.get("StreamARN"@) is None ==> target_stream(req)
            == Err::<Seq<char>, ErrV>(
            ErrV {
                kind: "ValidationException"@,
                message: "Missing required parameter: StreamName"@,
            },
        ),
{
}

} // verus!
