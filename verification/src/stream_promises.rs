//! What the operations on streams promise, written out: what is created, what a client is shown
//! of a stream, what a trim keeps, and how the sizes count.
use crate::json::{float_digits, JsonV};
use crate::ops::{
    create_outcome, delete_outcome, describe_answer, is_listing, listing_json, shards_answer,
    summary_answer,
};
use crate::params::{is_name_char, target_stream, valid_name};
use crate::protocol::ErrV;
use crate::put_promises::{same_stream, says};
use crate::store::{
    bumped, is_max_retention, lemma_retention_of, records_bytes, retained, retentions_of, shards_bytes, shards_count,
    store_count, stream_bytes, stream_count, streams_count, trimmed, StoreV,
};
use crate::streams::{RecordV, ShardV, StreamV};
use crate::text::{decimal, padded, text_less};
use crate::wal::released;
use vstd::prelude::*;
use vstd::utf8::encode_utf8;

verus! {

// ---- creating and deleting ---------------------------------------------------

/// Whether a name satisfies `[a-zA-Z0-9_.-]{1,128}`.
pub open spec fn name_fits(name: Seq<char>) -> bool {
    &&& 1 <= encode_utf8(name).len() <= 128
    &&& forall|i: int|
        0 <= i < name.len() ==> {
            let c = #[trigger] name[i];
            ||| 'a' <= c && c <= 'z'
            ||| 'A' <= c && c <= 'Z'
            ||| '0' <= c && c <= '9'
            ||| c == '_'
            ||| c == '.'
            ||| c == '-'
        }
}

/// Whether a request asks for so many shards: 1 to 10000, and 1 where it does not say.
pub open spec fn asks_for_shards(req: JsonV, count: nat) -> bool {
    match req.get("ShardCount"@) {
        None => count == 1,
        Some(JsonV::Number { unsigned: Some(n), text }) => count == n && 1 <= n <= 10_000,
        Some(_) => false,
    }
}

/// Whether a request asks for a retention of so many seconds: full hours that can be counted in
/// seconds, and that of the store where it does not say.
pub open spec fn asks_for_retention(req: JsonV, default_retention_secs: u64, secs: nat) -> bool {
    match req.get("RetentionPeriodHours"@) {
        None => secs == default_retention_secs,
        Some(JsonV::Number { unsigned: Some(hours), text }) => secs == hours * 3600 && secs
            <= u64::MAX,
        Some(_) => false,
    }
}

/// Whether a stream is as it is created: empty shards with running ids that cut the ring into
/// adjoining ranges of equal width, of which the last one takes the rest.
pub open spec fn is_fresh(
    stream: StreamV,
    name: Seq<char>,
    count: nat,
    secs: nat,
    now: u128,
) -> bool {
    &&& stream.name == name
    &&& stream.arn == "arn:aws:kinesis:us-east-1:000000000000:stream/"@ + name
    &&& stream.retention_secs == secs
    &&& stream.created_ms == now
    &&& stream.shards.len() == count
    &&& forall|i: int|
        0 <= i < count ==> {
            let shard = #[trigger] stream.shards[i];
            &&& shard.id == "shardId-"@ + padded(i as nat, 12)
            &&& shard.records.len() == 0
            &&& !shard.closed
            &&& shard.hash_start == i * (u128::MAX as nat / count)
            &&& i < count - 1 ==> shard.hash_end + 1 == (i + 1) * (u128::MAX as nat / count)
            &&& i == count - 1 ==> shard.hash_end == u128::MAX
        }
}

/// Whether a request asks for a stream of a fitting name, number of shards and retention.
pub open spec fn asks_for_stream(
    req: JsonV,
    default_retention_secs: u64,
    name: Seq<char>,
    count: nat,
    secs: nat,
) -> bool {
    &&& says(req, "StreamName"@, name)
    &&& name_fits(name)
    &&& asks_for_shards(req, count)
    &&& asks_for_retention(req, default_retention_secs, secs)
}

/// Whether `after` is `store` with a fresh stream more, and nothing else.
pub open spec fn adds_stream(
    store: StoreV,
    after: StoreV,
    name: Seq<char>,
    count: nat,
    secs: nat,
    now: u128,
) -> bool {
    &&& !store.streams.contains_key(name)
    &&& after.streams.contains_key(name)
    &&& is_fresh(after.streams[name], name, count, secs, now)
    &&& after.streams.remove(name) == store.streams
    &&& after.order == store.order.push(name)
    &&& after.counter == store.counter
    &&& after.default_retention_secs == store.default_retention_secs
}

pub proof fn lemma_name_fits(name: Seq<char>)
    ensures
        name_fits(name) == valid_name(name),
{
    if name_fits(name) {
        assert forall|i: int| 0 <= i < name.len() implies is_name_char(#[trigger] name[i]) by {}
    }
    if valid_name(name) {
        assert forall|i: int| 0 <= i < name.len() implies {
            let c = #[trigger] name[i];
            ||| 'a' <= c && c <= 'z'
            ||| 'A' <= c && c <= 'Z'
            ||| '0' <= c && c <= '9'
            ||| c == '_'
            ||| c == '.'
            ||| c == '-'
        } by {
            assert(is_name_char(name[i]));
        }
    }
}

/// What `CreateStream` does: a request with a fitting name that is free, a fitting number of
/// shards and a fitting retention adds the fresh stream and nothing else, and is answered with an
/// empty object; every other request is refused and changes nothing.
pub proof fn law_create_stream_adds_a_fresh_stream(store: StoreV, req: JsonV, now: u128)
    ensures
        ({
            let (after, answer) = create_outcome(store, req, now);
            match answer {
                Ok(value) => {
                    &&& value == JsonV::Object(Seq::empty())
                    &&& exists|name: Seq<char>, count: nat, secs: nat| #[trigger]
                        asks_for_stream(req, store.default_retention_secs, name, count, secs)
                            && adds_stream(store, after, name, count, secs, now)
                },
                Err(error) => {
                    &&& after == store
                    &&& forall|name: Seq<char>, count: nat, secs: nat| #[trigger]
                        asks_for_stream(req, store.default_retention_secs, name, count, secs)
                            ==> store.streams.contains_key(name) && error == (ErrV {
                            kind: "ResourceInUseException"@,
                            message: "Stream "@ + name + " already exists"@,
                        })
                    &&& (forall|name: Seq<char>| #[trigger]
                        says(req, "StreamName"@, name) ==> !name_fits(name)) ==> error.kind
                        == "ValidationException"@
                },
            }
        }),
{
    let (after, answer) = create_outcome(store, req, now);
    if answer is Ok {
        let name = req.get("StreamName"@)->0->Text_0;
        let count: nat = match req.get("ShardCount"@) {
            None => 1,
            Some(value) => value.as_u64()->0 as nat,
        };
        let secs: nat = match req.get("RetentionPeriodHours"@) {
            None => store.default_retention_secs as nat,
            Some(value) => (value.as_u64()->0 * 3600) as nat,
        };
        lemma_name_fits(name);
        assert(asks_for_stream(req, store.default_retention_secs, name, count, secs));
        let stream = after.streams[name];
        assert forall|i: int| 0 <= i < count implies {
            let shard = #[trigger] stream.shards[i];
            &&& shard.id == "shardId-"@ + padded(i as nat, 12)
            &&& shard.records.len() == 0
            &&& !shard.closed
            &&& shard.hash_start == i * (u128::MAX as nat / count)
            &&& i < count - 1 ==> shard.hash_end + 1 == (i + 1) * (u128::MAX as nat / count)
            &&& i == count - 1 ==> shard.hash_end == u128::MAX
        } by {
            let step = u128::MAX as nat / count;
            assert(step >= 1 && count * step <= u128::MAX) by (nonlinear_arith)
                requires
                    step == u128::MAX as nat / count,
                    0 < count <= 10_000,
            ;
            assert(0 <= i * step <= count * step) by (nonlinear_arith)
                requires
                    0 <= i < count,
                    step >= 1,
            ;
            assert(1 <= (i + 1) * step <= count * step) by (nonlinear_arith)
                requires
                    0 <= i < count,
                    step >= 1,
            ;
        }
        assert(is_fresh(stream, name, count, secs, now));
        assert(after.streams.remove(name) =~= store.streams);
        assert(adds_stream(store, after, name, count, secs, now));
        assert(answer->Ok_0->Object_0 =~= Seq::empty());
    } else {
        let error = answer->Err_0;
        assert forall|name: Seq<char>, count: nat, secs: nat| #[trigger]
            asks_for_stream(
                req,
                store.default_retention_secs,
                name,
                count,
                secs,
            ) implies store.streams.contains_key(name) && error == (ErrV {
            kind: "ResourceInUseException"@,
            message: "Stream "@ + name + " already exists"@,
        }) by {
            lemma_name_fits(name);
        }
        if let Some(name) = req.text_of("StreamName"@) {
            lemma_name_fits(name);
            assert(says(req, "StreamName"@, name));
        }
    }
}

/// Whether a request to create a stream is refused with this error, and changes nothing.
pub open spec fn refuses_create(
    store: StoreV,
    req: JsonV,
    now: u128,
    kind: Seq<char>,
    message: Seq<char>,
) -> bool {
    create_outcome(store, req, now) == (store, Err::<JsonV, ErrV>(ErrV { kind, message }))
}

/// What is told where a stream is not created; the first of these that applies: there is no name,
/// the name is too short or too long, or has another character, the number of shards is none from
/// 1 to 10000, the retention is no number of hours, or too many.
pub proof fn law_create_stream_refusals(
    store: StoreV,
    req: JsonV,
    now: u128,
    name: Seq<char>,
    count: nat,
    hours: u64,
    text: Seq<char>,
)
    ensures
        (forall|other: Seq<char>| !#[trigger] says(req, "StreamName"@, other)) ==> refuses_create(
            store,
            req,
            now,
            "ValidationException"@,
            "Missing required parameter: "@ + "StreamName"@,
        ),
        says(req, "StreamName"@, name) && !(1 <= encode_utf8(name).len() <= 128) ==> refuses_create(
            store,
            req,
            now,
            "ValidationException"@,
            "1 validation error detected: Value '"@ + name
                + "' at 'streamName' failed to satisfy constraint: Member must have length between 1 and 128"@,
        ),
        says(req, "StreamName"@, name) && 1 <= encode_utf8(name).len() <= 128 && !name_fits(name)
            ==> refuses_create(
            store,
            req,
            now,
            "ValidationException"@,
            "1 validation error detected: Value '"@ + name
                + "' at 'streamName' failed to satisfy constraint: Member must satisfy regular expression pattern: [a-zA-Z0-9_.-]+"@,
        ),
        says(req, "StreamName"@, name) && name_fits(name) && (forall|n: nat|
            !#[trigger] asks_for_shards(req, n)) ==> refuses_create(
            store,
            req,
            now,
            "ValidationException"@,
            "ShardCount must be an integer between 1 and 10000"@,
        ),
        says(req, "StreamName"@, name) && name_fits(name) && asks_for_shards(req, count)
            && req.get("RetentionPeriodHours"@) == Some(
            JsonV::Number { unsigned: Some(hours), text },
        ) && hours * 3600 > u64::MAX ==> refuses_create(
            store,
            req,
            now,
            "ValidationException"@,
            "RetentionPeriodHours is too large to represent"@,
        ),
        says(req, "StreamName"@, name) && name_fits(name) && asks_for_shards(req, count)
            && req.get("RetentionPeriodHours"@) is Some && !(req.get(
            "RetentionPeriodHours"@,
        )->0 is Number && req.get("RetentionPeriodHours"@)->0->unsigned is Some)
            ==> refuses_create(
            store,
            req,
            now,
            "ValidationException"@,
            "RetentionPeriodHours must be a non-negative integer"@,
        ),
{
    lemma_name_fits(name);
    if forall|other: Seq<char>| !#[trigger] says(req, "StreamName"@, other) {
        if let Some(other) = req.text_of("StreamName"@) {
            assert(says(req, "StreamName"@, other));
        }
    }
    if forall|n: nat| !#[trigger] asks_for_shards(req, n) {
        assert(!asks_for_shards(req, 1));
        if let Some(value) = req.get("ShardCount"@) {
            if let Some(n) = value.as_u64() {
                assert(!asks_for_shards(req, n as nat));
            }
        }
    }
}

/// The longest retention: none of the streams is kept for longer, it is that of one of them, or the
/// default where there is none, and 0, which keeps forever, is longer than any other.
pub proof fn law_longest_retention_covers_every_stream(store: StoreV, secs: u64, name: Seq<char>)
    requires
        is_max_retention(store, secs),
    ensures
        store.streams.contains_key(name) ==> secs == 0 || 0 < store.streams[name].retention_secs
            <= secs,
        (exists|other: Seq<char>| store.streams.contains_key(other)) ==> exists|other: Seq<char>|
            store.streams.contains_key(other) && (#[trigger] store.streams[other]).retention_secs
                == secs,
        (forall|other: Seq<char>| !store.streams.contains_key(other)) ==> secs
            == store.default_retention_secs,
{
}

/// What `DeleteStream` does: the stream that is named is gone, every other one is as it was, and
/// the answer is an empty object; where there is none of that name, nothing changes.
pub proof fn law_delete_stream_removes_one_stream(store: StoreV, req: JsonV)
    ensures
        ({
            let (after, answer) = delete_outcome(store, req);
            match target_stream(req) {
                Ok(name) => if store.streams.contains_key(name) {
                    &&& answer == Ok::<JsonV, ErrV>(JsonV::Object(Seq::empty()))
                    &&& !after.streams.contains_key(name)
                    &&& forall|k: Seq<char>|
                        k != name ==> (#[trigger] after.streams.contains_key(k)
                            == store.streams.contains_key(k)) && (store.streams.contains_key(k)
                            ==> after.streams[k] == store.streams[k])
                    &&& store.order.contains(name) ==> exists|i: int|
                        0 <= i < store.order.len() && store.order[i] == name && after.order
                            == #[trigger] store.order.remove(i)
                    &&& after.counter == store.counter
                    &&& after.default_retention_secs == store.default_retention_secs
                } else {
                    &&& after == store
                    &&& answer == Err::<JsonV, ErrV>(
                        ErrV {
                            kind: "ResourceNotFoundException"@,
                            message: "Stream "@ + name + " not found"@,
                        },
                    )
                },
                Err(error) => after == store && answer == Err::<JsonV, ErrV>(error),
            }
        }),
{
    let (after, answer) = delete_outcome(store, req);
    if answer is Ok {
        store.order.index_of_first_ensures(target_stream(req)->Ok_0);
        assert(answer->Ok_0->Object_0 =~= Seq::empty());
    }
}

// ---- showing streams ---------------------------------------------------------

/// A shard as a client is shown it: its own hash range and id, and the number of its oldest
/// record, or 0 where it has none.
pub open spec fn shown_shard(shard: ShardV) -> JsonV {
    JsonV::Object(
        seq![
            (
                "HashKeyRange"@,
                JsonV::Object(
                    seq![
                        ("EndingHashKey"@, JsonV::Text(decimal(shard.hash_end as nat))),
                        ("StartingHashKey"@, JsonV::Text(decimal(shard.hash_start as nat))),
                    ],
                ),
            ),
            (
                "SequenceNumberRange"@,
                JsonV::Object(
                    seq![
                        (
                            "StartingSequenceNumber"@,
                            JsonV::Text(
                                decimal(
                                    if shard.records.len() > 0 {
                                        shard.records[0].seq as nat
                                    } else {
                                        0
                                    },
                                ),
                            ),
                        ),
                    ],
                ),
            ),
            ("ShardId"@, JsonV::Text(shard.id)),
        ],
    )
}

/// The shards of a stream as a client is shown them, each as it is and in their order.
pub open spec fn shown_shards(stream: StreamV) -> JsonV {
    JsonV::Array(Seq::new(stream.shards.len(), |i: int| shown_shard(stream.shards[i])))
}

pub open spec fn plain_number(n: nat) -> JsonV {
    JsonV::Number { unsigned: Some(n as u64), text: decimal(n as u64 as nat) }
}

pub open spec fn provisioned() -> JsonV {
    JsonV::Object(seq![("StreamMode"@, JsonV::Text("PROVISIONED"@))])
}

proof fn lemma_shown_shards(stream: StreamV)
    ensures
        crate::ops::shards_shown(stream.shards) == shown_shards(stream),
{
    let items = crate::ops::shards_shown(stream.shards)->Array_0;
    let expected = shown_shards(stream)->Array_0;
    assert forall|i: int| 0 <= i < stream.shards.len() implies #[trigger] items[i]
        == expected[i] by {
        let shard = stream.shards[i];
        let fields = items[i]->Object_0;
        let wanted = shown_shard(shard)->Object_0;
        assert(fields[0].1->Object_0 =~= wanted[0].1->Object_0);
        assert(fields[1].1->Object_0 =~= wanted[1].1->Object_0);
        assert(fields =~= wanted);
    }
    assert(items =~= expected);
}

/// What a client is shown of the stream that it names: the answers to `DescribeStream`,
/// `DescribeStreamSummary` and `ListShards`, field by field.
pub proof fn law_stream_is_shown_as_it_is(store: StoreV, req: JsonV, name: Seq<char>)
    requires
        target_stream(req) == Ok::<Seq<char>, ErrV>(name),
        store.streams.contains_key(name),
    ensures
        ({
            let stream = store.streams[name];
            let created = JsonV::Number {
                unsigned: None,
                text: float_digits((stream.created_ms / 1000) as u128),
            };
            &&& describe_answer(store, req) == Ok::<JsonV, ErrV>(
                JsonV::Object(
                    seq![
                        (
                            "StreamDescription"@,
                            JsonV::Object(
                                seq![
                                    ("EncryptionType"@, JsonV::Text("NONE"@)),
                                    ("EnhancedMonitoring"@, JsonV::Array(Seq::empty())),
                                    ("HasMoreShards"@, JsonV::Bool(false)),
                                    (
                                        "RetentionPeriodHours"@,
                                        plain_number((stream.retention_secs / 3600) as nat),
                                    ),
                                    ("Shards"@, shown_shards(stream)),
                                    ("StreamARN"@, JsonV::Text(stream.arn)),
                                    ("StreamCreationTimestamp"@, created),
                                    ("StreamModeDetails"@, provisioned()),
                                    ("StreamName"@, JsonV::Text(stream.name)),
                                    ("StreamStatus"@, JsonV::Text("ACTIVE"@)),
                                ],
                            ),
                        ),
                    ],
                ),
            )
            &&& summary_answer(store, req) == Ok::<JsonV, ErrV>(
                JsonV::Object(
                    seq![
                        (
                            "StreamDescriptionSummary"@,
                            JsonV::Object(
                                seq![
                                    ("EncryptionType"@, JsonV::Text("NONE"@)),
                                    ("EnhancedMonitoring"@, JsonV::Array(Seq::empty())),
                                    ("OpenShardCount"@, plain_number(stream.shards.len())),
                                    (
                                        "RetentionPeriodHours"@,
                                        plain_number((stream.retention_secs / 3600) as nat),
                                    ),
                                    ("StreamARN"@, JsonV::Text(stream.arn)),
                                    ("StreamCreationTimestamp"@, created),
                                    ("StreamModeDetails"@, provisioned()),
                                    ("StreamName"@, JsonV::Text(stream.name)),
                                    ("StreamStatus"@, JsonV::Text("ACTIVE"@)),
                                ],
                            ),
                        ),
                    ],
                ),
            )
            &&& shards_answer(store, req) == Ok::<JsonV, ErrV>(
                JsonV::Object(seq![("Shards"@, shown_shards(stream))]),
            )
        }),
{
    let stream = store.streams[name];
    lemma_shown_shards(stream);
    assert(crate::ops::mode_json()->Object_0 =~= provisioned()->Object_0);
    let created = JsonV::Number {
        unsigned: None,
        text: float_digits((stream.created_ms / 1000) as u128),
    };
    let hours = plain_number((stream.retention_secs / 3600) as nat);
    let a = describe_answer(store, req)->Ok_0->Object_0;
    assert(a[0].1->Object_0 =~= seq![
        ("EncryptionType"@, JsonV::Text("NONE"@)),
        ("EnhancedMonitoring"@, JsonV::Array(Seq::empty())),
        ("HasMoreShards"@, JsonV::Bool(false)),
        ("RetentionPeriodHours"@, hours),
        ("Shards"@, shown_shards(stream)),
        ("StreamARN"@, JsonV::Text(stream.arn)),
        ("StreamCreationTimestamp"@, created),
        ("StreamModeDetails"@, provisioned()),
        ("StreamName"@, JsonV::Text(stream.name)),
        ("StreamStatus"@, JsonV::Text("ACTIVE"@)),
    ]);
    assert(a =~= seq![("StreamDescription"@, a[0].1)]);
    let b = summary_answer(store, req)->Ok_0->Object_0;
    assert(b[0].1->Object_0 =~= seq![
        ("EncryptionType"@, JsonV::Text("NONE"@)),
        ("EnhancedMonitoring"@, JsonV::Array(Seq::empty())),
        ("OpenShardCount"@, plain_number(stream.shards.len())),
        ("RetentionPeriodHours"@, hours),
        ("StreamARN"@, JsonV::Text(stream.arn)),
        ("StreamCreationTimestamp"@, created),
        ("StreamModeDetails"@, provisioned()),
        ("StreamName"@, JsonV::Text(stream.name)),
        ("StreamStatus"@, JsonV::Text("ACTIVE"@)),
    ]);
    assert(b =~= seq![("StreamDescriptionSummary"@, b[0].1)]);
    let c = shards_answer(store, req)->Ok_0->Object_0;
    assert(c =~= seq![("Shards"@, shown_shards(stream))]);
}

/// A stream that is not there is shown to nobody.
pub proof fn law_missing_stream_is_not_shown(store: StoreV, req: JsonV)
    ensures
        target_stream(req) is Err ==> describe_answer(store, req) == Err::<JsonV, ErrV>(
            target_stream(req)->Err_0,
        ),
        target_stream(req) is Ok && !store.streams.contains_key(target_stream(req)->Ok_0)
            ==> describe_answer(store, req) == Err::<JsonV, ErrV>(
            ErrV {
                kind: "ResourceNotFoundException"@,
                message: "Stream "@ + target_stream(req)->Ok_0 + " not found"@,
            },
        ),
        describe_answer(store, req) is Err ==> summary_answer(store, req) == describe_answer(
            store,
            req,
        ) && shards_answer(store, req) == describe_answer(store, req),
{
}

/// What `ListStreams` shows: the names of all streams, in their order and none twice, and for each
/// of them its own name and ARN.
pub proof fn law_listing_shows_every_stream(store: StoreV, names: Seq<Seq<char>>)
    requires
        is_listing(store, names),
    ensures
        forall|name: Seq<char>| #[trigger]
            store.streams.contains_key(name) ==> exists|i: int|
                0 <= i < names.len() && #[trigger] names[i] == name,
        forall|i: int| 0 <= i < names.len() ==> store.streams.contains_key(#[trigger] names[i]),
        forall|i: int, j: int|
            0 <= i < j < names.len() ==> text_less(#[trigger] names[i], #[trigger] names[j]),
        listing_json(store, names) == JsonV::Object(
            seq![
                ("HasMoreStreams"@, JsonV::Bool(false)),
                (
                    "StreamNames"@,
                    JsonV::Array(Seq::new(names.len(), |i: int| JsonV::Text(names[i]))),
                ),
                (
                    "StreamSummaries"@,
                    JsonV::Array(
                        Seq::new(
                            names.len(),
                            |i: int| shown_in_listing(store.streams[names[i]]),
                        ),
                    ),
                ),
            ],
        ),
{
    assert forall|name: Seq<char>| #[trigger] store.streams.contains_key(name) implies exists|
        i: int,
    |
        0 <= i < names.len() && #[trigger] names[i] == name by {
        assert(names.contains(name));
        let i = names.index_of(name);
        assert(names[i] == name);
    }
    assert forall|i: int| 0 <= i < names.len() implies store.streams.contains_key(
        #[trigger] names[i],
    ) by {
        assert(names.contains(names[i]));
    }
    let fields = listing_json(store, names)->Object_0;
    assert(fields[1].1->Array_0 =~= Seq::new(names.len(), |i: int| JsonV::Text(names[i])));
    let items = fields[2].1->Array_0;
    let wanted = Seq::new(names.len(), |i: int| shown_in_listing(store.streams[names[i]]));
    assert forall|i: int| 0 <= i < names.len() implies #[trigger] items[i] == wanted[i] by {
        assert(items[i]->Object_0 =~= wanted[i]->Object_0);
    }
    assert(items =~= wanted);
    assert(fields =~= seq![fields[0], fields[1], fields[2]]);
}

pub open spec fn shown_in_listing(stream: StreamV) -> JsonV {
    JsonV::Object(
        seq![
            ("StreamARN"@, JsonV::Text(stream.arn)),
            ("StreamName"@, JsonV::Text(stream.name)),
            ("StreamStatus"@, JsonV::Text("ACTIVE"@)),
        ],
    )
}

// ---- retention ---------------------------------------------------------------

/// The records that are at most so many seconds old.
pub open spec fn young(records: Seq<RecordV>, secs: u64, now: u128) -> Seq<RecordV> {
    records.filter(|record: RecordV| now - record.timestamp_ms <= secs * 1000)
}

proof fn lemma_filter_same(
    records: Seq<RecordV>,
    p: spec_fn(RecordV) -> bool,
    q: spec_fn(RecordV) -> bool,
)
    requires
        forall|record: RecordV| #[trigger] p(record) == q(record),
    ensures
        records.filter(p) == records.filter(q),
    decreases records.len(),
{
    reveal(Seq::filter);
    if records.len() > 0 {
        lemma_filter_same(records.drop_last(), p, q);
        assert(p(records.last()) == q(records.last()));
    }
}

/// A trim keeps in each shard, in their order, the records whose age in milliseconds is at most a
/// thousand times the retention of their stream in seconds, and drops the others; where the
/// retention is 0 it keeps all. Everything else stays as it was.
pub proof fn law_trim_keeps_exactly_the_young(store: StoreV, now: u128, name: Seq<char>, i: int)
    requires
        store.streams.contains_key(name),
        0 <= i < store.streams[name].shards.len(),
    ensures
        ({
            let after = trimmed(store, now);
            let stream = store.streams[name];
            let had = stream.shards[i].records;
            let has = after.streams[name].shards[i].records;
            &&& after.streams.dom() == store.streams.dom()
            &&& after.order == store.order
            &&& after.counter == store.counter
            &&& after.default_retention_secs == store.default_retention_secs
            &&& same_stream(after.streams[name], stream)
            &&& stream.retention_secs == 0 ==> has == had
            &&& stream.retention_secs > 0 ==> has == young(had, stream.retention_secs, now)
            &&& stream.retention_secs > 0 ==> forall|record: RecordV| #[trigger]
                has.contains(record) == (had.contains(record) && now - record.timestamp_ms
                    <= stream.retention_secs * 1000)
        }),
{
    let after = trimmed(store, now);
    let stream = store.streams[name];
    let secs = stream.retention_secs;
    let had = stream.shards[i].records;
    let has = after.streams[name].shards[i].records;
    let kept = |record: RecordV| retained(record, secs, now);
    let in_time = |record: RecordV| now - record.timestamp_ms <= secs * 1000;
    assert(after.streams.dom() =~= store.streams.dom());
    assert(has == had.filter(kept));
    if secs == 0 {
        lemma_filter_all_kept(had, kept);
    } else {
        assert forall|record: RecordV| #[trigger] kept(record) == in_time(record) by {}
        lemma_filter_same(had, kept, in_time);
        assert(young(had, secs, now) == had.filter(in_time));
        assert forall|record: RecordV| #[trigger] has.contains(record) == (had.contains(record)
            && now - record.timestamp_ms <= secs * 1000) by {
            if has.contains(record) {
                let at = has.index_of(record);
                had.lemma_filter_pred(in_time, at);
                had.lemma_filter_contains_rev(in_time, record);
            }
            if had.contains(record) && in_time(record) {
                let at = had.index_of(record);
                assert(had[at] == record);
                had.lemma_filter_contains(in_time, at);
            }
        }
    }
}

proof fn lemma_filter_all_kept(records: Seq<RecordV>, kept: spec_fn(RecordV) -> bool)
    requires
        forall|record: RecordV| #[trigger] kept(record),
    ensures
        records.filter(kept) == records,
    decreases records.len(),
{
    reveal(Seq::filter);
    if records.len() > 0 {
        lemma_filter_all_kept(records.drop_last(), kept);
        assert(records.drop_last().push(records.last()) =~= records);
    }
}

/// When a record no longer pins its segment of the log: its stream is not there, or has a
/// retention other than 0 and the record is older than that, in milliseconds.
pub proof fn law_record_is_released_when_it_is_too_old(
    store: StoreV,
    stream: Seq<char>,
    timestamp_ms: u128,
    now: u128,
)
    requires
        store.order.contains(stream) == store.streams.contains_key(stream),
    ensures
        released(stream, timestamp_ms, now, retentions_of(store)) == (
        store.streams.contains_key(stream) ==> store.streams[stream].retention_secs > 0 && now
            - timestamp_ms > store.streams[stream].retention_secs * 1000),
{
    lemma_retention_of(store, stream);
}

/// A trim and the log agree: a record that still pins its segment of the log is kept by the trim,
/// and one that the trim drops pins nothing.
pub proof fn law_trim_and_log_agree(
    store: StoreV,
    now: u128,
    name: Seq<char>,
    i: int,
    record: RecordV,
)
    requires
        store.order.contains(name) == store.streams.contains_key(name),
        store.streams.contains_key(name),
        0 <= i < store.streams[name].shards.len(),
        store.streams[name].shards[i].records.contains(record),
    ensures
        trimmed(store, now).streams[name].shards[i].records.contains(record) == !released(
            name,
            record.timestamp_ms,
            now,
            retentions_of(store),
        ),
{
    law_trim_keeps_exactly_the_young(store, now, name, i);
    law_record_is_released_when_it_is_too_old(store, name, record.timestamp_ms, now);
}

// ---- counting ----------------------------------------------------------------

/// The sizes of a stream count each of its records once: those of a stream without records are 0,
/// and a record more, in whichever shard, is one more and as many bytes as it has.
pub proof fn law_sizes_count_each_record(stream: StreamV, i: int, record: RecordV)
    requires
        0 <= i < stream.shards.len(),
    ensures
        ({
            let more = StreamV {
                shards: stream.shards.update(
                    i,
                    ShardV {
                        records: stream.shards[i].records.push(record),
                        ..stream.shards[i]
                    },
                ),
                ..stream
            };
            &&& stream_count(more) == stream_count(stream) + 1
            &&& stream_bytes(more) == stream_bytes(stream) + record.data.len()
        }),
        (forall|k: int|
            0 <= k < stream.shards.len() ==> (#[trigger] stream.shards[k]).records.len() == 0)
            ==> stream_count(stream) == 0 && stream_bytes(stream) == 0,
{
    lemma_sizes_with(stream.shards, i, record, stream.shards.len());
    if forall|k: int|
        0 <= k < stream.shards.len() ==> (#[trigger] stream.shards[k]).records.len() == 0 {
        lemma_sizes_of_nothing(stream.shards, stream.shards.len());
    }
}

proof fn lemma_sizes_with(shards: Seq<ShardV>, i: int, record: RecordV, n: nat)
    requires
        0 <= i < shards.len(),
        n <= shards.len(),
    ensures
        ({
            let more = shards.update(
                i,
                ShardV { records: shards[i].records.push(record), ..shards[i] },
            );
            &&& shards_count(more, n) == shards_count(shards, n) + if i < n {
                1nat
            } else {
                0nat
            }
            &&& shards_bytes(more, n) == shards_bytes(shards, n) + if i < n {
                record.data.len()
            } else {
                0nat
            }
        }),
    decreases n,
{
    if n > 0 {
        lemma_sizes_with(shards, i, record, (n - 1) as nat);
        if i == n - 1 {
            let records = shards[i].records;
            let longer = records.push(record);
            lemma_bytes_with(records, record, records.len());
            assert(records_bytes(longer, longer.len()) == records_bytes(records, records.len())
                + record.data.len());
        }
    }
}

proof fn lemma_bytes_with(records: Seq<RecordV>, record: RecordV, n: nat)
    requires
        n <= records.len(),
    ensures
        records_bytes(records.push(record), n) == records_bytes(records, n),
    decreases n,
{
    if n > 0 {
        lemma_bytes_with(records, record, (n - 1) as nat);
    }
}

proof fn lemma_sizes_of_nothing(shards: Seq<ShardV>, n: nat)
    requires
        n <= shards.len(),
        forall|k: int| 0 <= k < shards.len() ==> (#[trigger] shards[k]).records.len() == 0,
    ensures
        shards_count(shards, n) == 0,
        shards_bytes(shards, n) == 0,
    decreases n,
{
    if n > 0 {
        lemma_sizes_of_nothing(shards, (n - 1) as nat);
    }
}

/// The number of all records is that of each stream together: the records of the streams that
/// were added first, and those of the one that was added last.
pub proof fn law_store_counts_every_stream(store: StoreV, name: Seq<char>, stream: StreamV)
    requires
        !store.order.contains(name),
    ensures
        store_count(
            StoreV {
                streams: store.streams.insert(name, stream),
                order: store.order.push(name),
                ..store
            },
        ) == store_count(store) + stream_count(stream),
        store.order.len() == 0 ==> store_count(store) == 0,
{
    let more = StoreV {
        streams: store.streams.insert(name, stream),
        order: store.order.push(name),
        ..store
    };
    lemma_count_with(store, more, name, store.order.len());
    assert(more.order[store.order.len() as int] == name);
}

proof fn lemma_count_with(store: StoreV, more: StoreV, name: Seq<char>, n: nat)
    requires
        !store.order.contains(name),
        more.order == store.order.push(name),
        n <= store.order.len(),
        forall|k: Seq<char>| k != name ==> #[trigger] more.streams[k] == store.streams[k],
    ensures
        streams_count(more, n) == streams_count(store, n),
    decreases n,
{
    if n > 0 {
        lemma_count_with(store, more, name, (n - 1) as nat);
        assert(more.order[n - 1] == store.order[n - 1]);
        assert(store.order.contains(store.order[n - 1]));
    }
}

/// Raising the counter gives the larger of the two numbers, and changes nothing else.
pub proof fn law_counter_is_raised_to_the_larger(store: StoreV, seq: u64)
    ensures
        bumped(store, seq).counter >= seq,
        bumped(store, seq).counter >= store.counter,
        bumped(store, seq).counter == seq || bumped(store, seq).counter == store.counter,
        bumped(store, seq).streams == store.streams,
        bumped(store, seq).order == store.order,
        bumped(store, seq).default_retention_secs == store.default_retention_secs,
{
}

} // verus!
