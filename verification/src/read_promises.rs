//! What a read promises, written out: where an iterator stands, which records an answer shows
//! and how, and where the next one goes on.
use crate::json::{float_digits, json_text, JsonV};
use crate::ops::{iterator_answer, placed_json};
use crate::params::target_stream;
use crate::protocol::{base64_text, ApiError, ErrV};
use crate::put_promises::{says, silent};
use crate::read_laws::{law_page_makes_progress, law_start_is_unique};
use crate::records::{
    is_read, is_response, is_start, page_at, page_json, page_len, read_limit, read_request,
    read_response, record_json, records_json, shows_response,
};
use crate::store::{records_bytes, start_seq, IteratorV, StoreV};
use crate::store_laws::rising;
use crate::streams::{first_where, lemma_first_where, shard_index, RecordV, ShardV};
use crate::text::{decimal, parse_decimal};
use crate::token::{iterator_token, token_iterator};
use vstd::prelude::*;
use vstd::utf8::encode_utf8;

verus! {

// ---- how records are shown ---------------------------------------------------

/// A record as a reader is shown it: its own sequence number in decimal digits, the whole
/// seconds of its own timestamp, its own partition key, and its own data in base64.
pub open spec fn shown_record(record: RecordV) -> JsonV {
    JsonV::Object(
        seq![
            ("SequenceNumber"@, JsonV::Text(decimal(record.seq as nat))),
            (
                "ApproximateArrivalTimestamp"@,
                JsonV::Number {
                    unsigned: None,
                    text: float_digits((record.timestamp_ms / 1000) as u128),
                },
            ),
            ("PartitionKey"@, JsonV::Text(record.partition_key)),
            ("Data"@, JsonV::Text(base64_text(record.data))),
        ],
    )
}

/// Whether an answer shows `n` records from index `start` on, each as it is and in their order,
/// with a token and a lag.
pub open spec fn shows_records(
    value: JsonV,
    records: Seq<RecordV>,
    start: int,
    n: int,
    token: Seq<char>,
    lag: u64,
) -> bool {
    value == JsonV::Object(
        seq![
            (
                "Records"@,
                JsonV::Array(Seq::new(n as nat, |k: int| shown_record(records[start + k]))),
            ),
            ("NextShardIterator"@, JsonV::Text(token)),
            (
                "MillisBehindLatest"@,
                JsonV::Number { unsigned: Some(lag), text: decimal(lag as nat) },
            ),
        ],
    )
}

/// The `i`-th object of an answer is that of the `i`-th record of the page, with its own number,
/// timestamp, partition key and data.
pub proof fn law_page_shows_each_record_as_it_is(
    records: Seq<RecordV>,
    token: Seq<char>,
    lag: u64,
)
    ensures
        shows_records(
            page_json(records, token, lag),
            records,
            0,
            records.len() as int,
            token,
            lag,
        ),
{
    lemma_shown_records(records, records, 0, token, lag);
}

proof fn lemma_shown_records(
    page: Seq<RecordV>,
    records: Seq<RecordV>,
    start: int,
    token: Seq<char>,
    lag: u64,
)
    requires
        0 <= start,
        start + page.len() <= records.len(),
        forall|k: int| 0 <= k < page.len() ==> #[trigger] page[k] == records[start + k],
    ensures
        shows_records(page_json(page, token, lag), records, start, page.len() as int, token, lag),
{
    let items = records_json(page);
    let expected = Seq::new(page.len(), |k: int| shown_record(records[start + k]));
    assert forall|k: int| 0 <= k < page.len() implies #[trigger] items[k] == expected[k] by {
        assert(page[k] == records[start + k]);
        assert(record_json(page[k])->Object_0 =~= shown_record(records[start + k])->Object_0);
    }
    assert(items =~= expected);
    assert(page_json(page, token, lag)->Object_0 =~= seq![
        ("Records"@, JsonV::Array(expected)),
        ("NextShardIterator"@, JsonV::Text(token)),
        (
            "MillisBehindLatest"@,
            JsonV::Number { unsigned: Some(lag), text: decimal(lag as nat) },
        ),
    ]);
}

/// The number that a put is answered with is the one that a reader of the record is shown.
pub proof fn law_put_and_read_tell_the_same_number(shard_id: Seq<char>, record: RecordV)
    ensures
        placed_json(shard_id, record.seq)->Object_0[0] == record_json(record)->Object_0[0],
        record_json(record)->Object_0[0] == (
            "SequenceNumber"@,
            JsonV::Text(decimal(record.seq as nat)),
        ),
{
}

// ---- GetRecords --------------------------------------------------------------

/// The payload bytes of `n` records from index `start` on.
pub open spec fn payload_bytes(records: Seq<RecordV>, start: int, n: nat) -> nat
    decreases n,
{
    if n == 0 {
        0
    } else {
        payload_bytes(records, start, (n - 1) as nat) + records[start + n - 1].data.len()
    }
}

/// Whether `n` records from index `start` on are a page for a reader that stands at `next_seq`
/// and wants at most `limit` records: it starts where the numbers reach `next_seq`, holds a record
/// where there is one, keeps the limit and 10 MiB unless it is a single record, and ends only
/// where it has to.
pub open spec fn is_page(
    records: Seq<RecordV>,
    next_seq: u64,
    limit: nat,
    start: int,
    n: nat,
) -> bool {
    &&& 0 <= start && start + n <= records.len()
    &&& start > 0 ==> records[start - 1].seq < next_seq
    &&& start < records.len() ==> records[start].seq >= next_seq
    &&& n <= limit
    &&& start < records.len() ==> n > 0
    &&& n > 1 ==> payload_bytes(records, start, n) <= 10_485_760
    &&& n < limit && start + n < records.len() ==> payload_bytes(records, start, n + 1)
        > 10_485_760
}

/// Whether a lag is right for a page: 0 where it holds nothing or reaches the newest record, and
/// else the age of its last record in milliseconds.
pub open spec fn is_lag(
    records: Seq<RecordV>,
    start: int,
    n: nat,
    next_seq: u64,
    now: u128,
    lag: u64,
) -> bool {
    if n == 0 || next_seq > records.last().seq || now <= records[start + n - 1].timestamp_ms {
        lag == 0
    } else {
        lag == (now - records[start + n - 1].timestamp_ms) % 0x1_0000_0000_0000_0000
    }
}

/// Whether a `GetRecords` answer is right for an iterator: the shard is that of the iterator, the
/// records are a page of it, they are shown as they are, the token stands for the same shard
/// behind the last of them and lives for five minutes, and the two counts are those of the page.
pub open spec fn answers_reader(
    store: StoreV,
    it: IteratorV,
    limit: nat,
    now: u128,
    body: Seq<u8>,
    count: u64,
    bytes: u64,
) -> bool {
    &&& store.streams.contains_key(it.stream)
    &&& exists|at: int, start: int, n: nat, lag: u64|
        #[trigger] answers_with(store, it, limit, now, body, count, bytes, at, start, n, lag)
}

/// Whether a `GetRecords` answer shows `n` records of shard `at` from index `start` on.
pub open spec fn answers_with(
    store: StoreV,
    it: IteratorV,
    limit: nat,
    now: u128,
    body: Seq<u8>,
    count: u64,
    bytes: u64,
    at: int,
    start: int,
    n: nat,
    lag: u64,
) -> bool {
    let shards = store.streams[it.stream].shards;
    let records = shards[at].records;
    let next_seq = if n > 0 {
        (records[start + n - 1].seq + 1) as u64
    } else {
        it.next_seq
    };
    let next = IteratorV {
        stream: it.stream,
        shard_id: it.shard_id,
        next_seq,
        expires_ms: (now + 300_000) as u128,
    };
    &&& 0 <= at < shards.len() && shards[at].id == it.shard_id
    &&& forall|j: int| 0 <= j < at ==> (#[trigger] shards[j]).id != it.shard_id
    &&& is_page(records, it.next_seq, limit, start, n)
    &&& is_lag(records, start, n, next_seq, now, lag)
    &&& count == n
    &&& bytes == payload_bytes(records, start, n)
    &&& exists|value: JsonV|
        body == encode_utf8(#[trigger] json_text(value)) && shows_records(
            value,
            records,
            start,
            n as int,
            iterator_token(next),
            lag,
        )
}

/// Whether a request limits an answer to so many records.
pub open spec fn limits_to(req: JsonV, limit: nat) -> bool {
    match req.get("Limit"@) {
        None => limit == 10_000,
        Some(JsonV::Number { unsigned: Some(n), text }) => limit == n && 1 <= n <= 10_000,
        Some(_) => false,
    }
}

/// What `GetRecords` gives: a request whose token stands for an iterator that has not expired, on
/// a shard that is there, with a limit of 1 to 10000 or none, is answered rightly; every other one
/// is refused.
pub proof fn law_get_records_answers_readers(
    store: StoreV,
    req: JsonV,
    now: u128,
    r: Result<(Vec<u8>, u64, u64), ApiError>,
)
    requires
        is_read(store, req, now, r),
    ensures
        match r {
            Ok(answer) => exists|token: Seq<char>, limit: nat|
                {
                    &&& #[trigger] says(req, "ShardIterator"@, token)
                    &&& #[trigger] limits_to(req, limit)
                    &&& token_iterator(token) is Ok
                    &&& now <= token_iterator(token)->Ok_0.expires_ms
                    &&& answers_reader(
                        store,
                        token_iterator(token)->Ok_0,
                        limit,
                        now,
                        answer.0@,
                        answer.1,
                        answer.2,
                    )
                },
            Err(error) => forall|token: Seq<char>, limit: nat|
                {
                    &&& #[trigger] says(req, "ShardIterator"@, token)
                    &&& #[trigger] limits_to(req, limit)
                    &&& token_iterator(token) is Ok
                    &&& now <= token_iterator(token)->Ok_0.expires_ms
                    &&& store.streams.contains_key(token_iterator(token)->Ok_0.stream)
                } ==> forall|i: int|
                    0 <= i < store.streams[token_iterator(token)->Ok_0.stream].shards.len()
                        ==> (#[trigger] store.streams[token_iterator(
                        token,
                    )->Ok_0.stream].shards[i]).id != token_iterator(token)->Ok_0.shard_id,
        },
{
    if r is Ok {
        let (it, limit) = read_request(req, now)->Ok_0;
        let token = req.get("ShardIterator"@)->0->Text_0;
        assert(says(req, "ShardIterator"@, token));
        assert(limits_to(req, limit));
        let shards = store.streams[it.stream].shards;
        let by_id = |shard: ShardV| shard.id == it.shard_id;
        lemma_first_where(shards, by_id);
        let at = shard_index(shards, it.shard_id)->0;
        let records = shards[at].records;
        assert(is_response(records, it, limit, now, r->Ok_0));
        let start = choose|start: int|
            is_start(records, it.next_seq, start) && shows_response(
                r->Ok_0,
                #[trigger] read_response(records, it, start, limit, now),
            );
        lemma_page_is_right(records, it.next_seq, limit, start, now);
        let page = page_at(records, it.next_seq, start, limit, now);
        let n = page.records.len();
        let next = IteratorV {
            next_seq: page.next_seq,
            expires_ms: (now + 300_000) as u128,
            ..it
        };
        let value = page_json(page.records, iterator_token(next), page.millis_behind);
        assert forall|k: int| 0 <= k < n implies #[trigger] page.records[k] == records[start
            + k] by {}
        lemma_shown_records(
            page.records,
            records,
            start,
            iterator_token(next),
            page.millis_behind,
        );
        let answer = r->Ok_0;
        assert(answer.0@ == encode_utf8(json_text(value)));
        assert(answers_with(
            store,
            it,
            limit,
            now,
            answer.0@,
            answer.1,
            answer.2,
            at,
            start,
            n,
            page.millis_behind,
        ));
    } else {
        assert forall|token: Seq<char>, limit: nat|
            {
                &&& #[trigger] says(req, "ShardIterator"@, token)
                &&& #[trigger] limits_to(req, limit)
                &&& token_iterator(token) is Ok
                &&& now <= token_iterator(token)->Ok_0.expires_ms
                &&& store.streams.contains_key(token_iterator(token)->Ok_0.stream)
            } implies forall|i: int|
            0 <= i < store.streams[token_iterator(token)->Ok_0.stream].shards.len() ==> (
            #[trigger] store.streams[token_iterator(token)->Ok_0.stream].shards[i]).id
                != token_iterator(token)->Ok_0.shard_id by {
            let it = token_iterator(token)->Ok_0;
            let shards = store.streams[it.stream].shards;
            let by_id = |shard: ShardV| shard.id == it.shard_id;
            lemma_first_where(shards, by_id);
            assert(read_limit(req) == Ok::<nat, ErrV>(limit));
            assert(read_request(req, now) == Ok::<(IteratorV, nat), ErrV>((it, limit)));
        }
    }
}

proof fn lemma_payload(records: Seq<RecordV>, start: int, n: nat)
    requires
        0 <= start && start + n <= records.len(),
    ensures
        records_bytes(records.skip(start), n) == payload_bytes(records, start, n),
    decreases n,
{
    if n > 0 {
        lemma_payload(records, start, (n - 1) as nat);
    }
}

proof fn lemma_bytes_of_prefix(records: Seq<RecordV>, n: nat, k: nat)
    requires
        k <= n <= records.len(),
    ensures
        records_bytes(records.take(n as int), k) == records_bytes(records, k),
    decreases k,
{
    if k > 0 {
        lemma_bytes_of_prefix(records, n, (k - 1) as nat);
    }
}

proof fn lemma_page_is_right(
    records: Seq<RecordV>,
    next_seq: u64,
    limit: nat,
    start: int,
    now: u128,
)
    requires
        is_start(records, next_seq, start),
        limit > 0,
    ensures
        ({
            let page = page_at(records, next_seq, start, limit, now);
            let n = page.records.len();
            &&& is_page(records, next_seq, limit, start, n)
            &&& is_lag(records, start, n, page.next_seq, now, page.millis_behind)
            &&& page.payload_bytes == payload_bytes(records, start, n)
            &&& page.records == records.subrange(start, start + n)
            &&& page.next_seq == if n > 0 {
                (records[start + n - 1].seq + 1) as u64
            } else {
                next_seq
            }
        }),
{
    let rest = records.skip(start);
    let page = page_at(records, next_seq, start, limit, now);
    let n = page_len(rest, limit, 0);
    law_page_makes_progress(rest, limit);
    assert(page.records =~= records.subrange(start, start + n));
    lemma_payload(records, start, n);
    lemma_bytes_of_prefix(rest, n, n);
    if n < limit && start + n < records.len() {
        lemma_payload(records, start, n + 1);
    }
    if n > 0 {
        assert(page.records.last() == records[start + n - 1]);
    }
}

// ---- GetShardIterator --------------------------------------------------------

/// Whether an answer holds the token of an iterator that stands at `next_seq` of a shard and
/// lives for five minutes.
pub open spec fn stands_at(
    answer: Result<JsonV, ErrV>,
    name: Seq<char>,
    shard_id: Seq<char>,
    next_seq: int,
    now: u128,
) -> bool {
    answer == Ok::<JsonV, ErrV>(
        JsonV::Object(
            seq![
                (
                    "ShardIterator"@,
                    JsonV::Text(
                        iterator_token(
                            IteratorV {
                                stream: name,
                                shard_id,
                                next_seq: next_seq as u64,
                                expires_ms: (now + 300_000) as u128,
                            },
                        ),
                    ),
                ),
            ],
        ),
    )
}

/// Whether a request gives a sequence number to start from, in decimal digits, or none.
pub open spec fn gives_start(req: JsonV, start: Option<u64>) -> bool {
    match start {
        Some(n) => exists|text: Seq<char>| #[trigger]
            says(req, "StartingSequenceNumber"@, text) && parse_decimal(text, u64::MAX as nat)
                == Some(n as nat),
        None => silent(req, "StartingSequenceNumber"@),
    }
}

/// Whether `at` is the first shard with an id.
pub open spec fn first_named(shards: Seq<ShardV>, id: Seq<char>, at: int) -> bool {
    &&& 0 <= at < shards.len()
    &&& shards[at].id == id
    &&& forall|j: int| 0 <= j < at ==> (#[trigger] shards[j]).id != id
}

/// Behind the last record: one above its number, or 1 where there is none.
pub open spec fn behind(records: Seq<RecordV>) -> int {
    if records.len() > 0 {
        records[records.len() - 1].seq + 1
    } else {
        1
    }
}

/// What `GetShardIterator` gives for a shard that is there: a token for that very shard, at the
/// oldest record for `TRIM_HORIZON`, behind the newest for `LATEST`, at the given number for
/// `AT_SEQUENCE_NUMBER` and one above it for `AFTER_SEQUENCE_NUMBER`, and for `AT_TIMESTAMP` at
/// the first record that is not older, or behind the newest where all are older.
pub proof fn law_iterator_stands_where_it_was_asked_for(
    store: StoreV,
    req: JsonV,
    timestamp_ms: Option<u128>,
    now: u128,
    name: Seq<char>,
    shard_id: Seq<char>,
    kind: Seq<char>,
    start: Option<u64>,
    at: int,
)
    requires
        target_stream(req) == Ok::<Seq<char>, ErrV>(name),
        says(req, "ShardId"@, shard_id),
        says(req, "ShardIteratorType"@, kind),
        gives_start(req, start),
        store.streams.contains_key(name),
        first_named(store.streams[name].shards, shard_id, at),
        now + 300_000 <= u128::MAX,
    ensures
        ({
            let answer = iterator_answer(store, req, timestamp_ms, now);
            let records = store.streams[name].shards[at].records;
            &&& kind == "TRIM_HORIZON"@ ==> stands_at(answer, name, shard_id, 0, now)
            &&& kind == "LATEST"@ && behind(records) <= u64::MAX ==> stands_at(
                answer,
                name,
                shard_id,
                behind(records),
                now,
            )
            &&& kind == "AT_SEQUENCE_NUMBER"@ && start is Some ==> stands_at(
                answer,
                name,
                shard_id,
                start->0 as int,
                now,
            )
            &&& kind == "AFTER_SEQUENCE_NUMBER"@ && start is Some && start->0 < u64::MAX
                ==> stands_at(answer, name, shard_id, start->0 + 1, now)
            &&& kind == "AT_TIMESTAMP"@ && timestamp_ms is Some ==> forall|first: int|
                #![trigger records[first]]
                0 <= first < records.len() && records[first].timestamp_ms >= timestamp_ms->0 && (
                forall|j: int|
                    0 <= j < first ==> (#[trigger] records[j]).timestamp_ms < timestamp_ms->0)
                    ==> stands_at(answer, name, shard_id, records[first].seq as int, now)
            &&& kind == "AT_TIMESTAMP"@ && timestamp_ms is Some && behind(records) <= u64::MAX && (
            forall|j: int|
                0 <= j < records.len() ==> (#[trigger] records[j]).timestamp_ms < timestamp_ms->0)
                ==> stands_at(answer, name, shard_id, behind(records), now)
        }),
{
    lemma_type_names();
    let shards = store.streams[name].shards;
    let records = shards[at].records;
    let by_id = |shard: ShardV| shard.id == shard_id;
    lemma_first_where(shards, by_id);
    assert(by_id(shards[at]));
    assert(shard_index(shards, shard_id) == Some(at));
    lemma_start_given(req, start);
    let answer = iterator_answer(store, req, timestamp_ms, now);
    let next_seq = start_seq(records, kind, start, timestamp_ms);
    if next_seq is Some && is_type(kind, start, timestamp_ms) {
        let it = IteratorV {
            stream: name,
            shard_id,
            next_seq: next_seq->0,
            expires_ms: (now + 300_000) as u128,
        };
        assert(answer->Ok_0->Object_0 =~= seq![("ShardIterator"@, JsonV::Text(iterator_token(it)))]);
        assert(stands_at(answer, name, shard_id, next_seq->0 as int, now));
    }
    if kind == "AT_TIMESTAMP"@ && timestamp_ms is Some {
        let ts = timestamp_ms->0;
        let wanted = |record: RecordV| record.timestamp_ms >= ts;
        lemma_first_where(records, wanted);
        assert forall|first: int|
            #![trigger records[first]]
            0 <= first < records.len() && records[first].timestamp_ms >= ts && (forall|j: int|
                0 <= j < first ==> (#[trigger] records[j]).timestamp_ms < ts) implies stands_at(
            answer,
            name,
            shard_id,
            records[first].seq as int,
            now,
        ) by {
            assert(wanted(records[first]));
            assert(first_where(records, wanted) == Some(first));
        }
    }
}

/// Whether a type is one of the five, and has what it needs.
pub open spec fn is_type(
    kind: Seq<char>,
    start: Option<u64>,
    timestamp_ms: Option<u128>,
) -> bool {
    ||| kind == "TRIM_HORIZON"@
    ||| kind == "LATEST"@
    ||| kind == "AT_TIMESTAMP"@ && timestamp_ms is Some
    ||| (kind == "AT_SEQUENCE_NUMBER"@ || kind == "AFTER_SEQUENCE_NUMBER"@) && start is Some
}

/// What `GetShardIterator` refuses: a type that is none or that lacks its parameter, a stream or
/// a shard that is not there; each in its own way.
pub proof fn law_iterator_refusals(
    store: StoreV,
    req: JsonV,
    timestamp_ms: Option<u128>,
    now: u128,
    name: Seq<char>,
    shard_id: Seq<char>,
    kind: Seq<char>,
    start: Option<u64>,
)
    requires
        target_stream(req) == Ok::<Seq<char>, ErrV>(name),
        says(req, "ShardId"@, shard_id),
        says(req, "ShardIteratorType"@, kind),
        gives_start(req, start),
    ensures
        ({
            let answer = iterator_answer(store, req, timestamp_ms, now);
            &&& (kind == "AT_SEQUENCE_NUMBER"@ || kind == "AFTER_SEQUENCE_NUMBER"@) && start is None
                ==> answer == Err::<JsonV, ErrV>(
                ErrV {
                    kind: "InvalidArgumentException"@,
                    message: "StartingSequenceNumber is required for ShardIteratorType "@ + kind,
                },
            )
            &&& kind == "AT_TIMESTAMP"@ && timestamp_ms is None ==> answer == Err::<JsonV, ErrV>(
                ErrV {
                    kind: "InvalidArgumentException"@,
                    message: "Timestamp is required for ShardIteratorType AT_TIMESTAMP"@,
                },
            )
            &&& kind != "TRIM_HORIZON"@ && kind != "LATEST"@ && kind != "AT_TIMESTAMP"@ && kind
                != "AT_SEQUENCE_NUMBER"@ && kind != "AFTER_SEQUENCE_NUMBER"@ ==> answer == Err::<
                JsonV,
                ErrV,
            >(
                ErrV {
                    kind: "ValidationException"@,
                    message: "Invalid ShardIteratorType: "@ + kind,
                },
            )
            &&& is_type(kind, start, timestamp_ms) && !store.streams.contains_key(name) ==> answer
                == Err::<JsonV, ErrV>(
                ErrV {
                    kind: "ResourceNotFoundException"@,
                    message: "Stream "@ + name + " not found"@,
                },
            )
            &&& is_type(kind, start, timestamp_ms) && store.streams.contains_key(name) && (
            forall|i: int|
                0 <= i < store.streams[name].shards.len() ==> (
                #[trigger] store.streams[name].shards[i]).id != shard_id) ==> answer == Err::<
                JsonV,
                ErrV,
            >(
                ErrV {
                    kind: "ResourceNotFoundException"@,
                    message: "Shard "@ + shard_id + " not found in "@ + name,
                },
            )
        }),
{
    lemma_type_names();
    lemma_start_given(req, start);
    if store.streams.contains_key(name) {
        let by_id = |shard: ShardV| shard.id == shard_id;
        lemma_first_where(store.streams[name].shards, by_id);
    }
}

proof fn lemma_start_given(req: JsonV, start: Option<u64>)
    requires
        gives_start(req, start),
    ensures
        crate::ops::requested_start(req) == Ok::<Option<u64>, ErrV>(start),
{
    if let Some(text) = req.text_of("StartingSequenceNumber"@) {
        assert(says(req, "StartingSequenceNumber"@, text));
    }
}

proof fn lemma_type_names()
    ensures
        "TRIM_HORIZON"@ != "LATEST"@,
        "TRIM_HORIZON"@ != "AT_SEQUENCE_NUMBER"@,
        "TRIM_HORIZON"@ != "AFTER_SEQUENCE_NUMBER"@,
        "TRIM_HORIZON"@ != "AT_TIMESTAMP"@,
        "LATEST"@ != "AT_SEQUENCE_NUMBER"@,
        "LATEST"@ != "AFTER_SEQUENCE_NUMBER"@,
        "LATEST"@ != "AT_TIMESTAMP"@,
        "AT_SEQUENCE_NUMBER"@ != "AFTER_SEQUENCE_NUMBER"@,
        "AT_SEQUENCE_NUMBER"@ != "AT_TIMESTAMP"@,
        "AFTER_SEQUENCE_NUMBER"@ != "AT_TIMESTAMP"@,
{
    reveal_strlit("TRIM_HORIZON");
    reveal_strlit("LATEST");
    reveal_strlit("AT_SEQUENCE_NUMBER");
    reveal_strlit("AFTER_SEQUENCE_NUMBER");
    reveal_strlit("AT_TIMESTAMP");
    assert("TRIM_HORIZON"@.len() == 12 && "TRIM_HORIZON"@[0] == 'T');
    assert("LATEST"@.len() == 6);
    assert("AT_SEQUENCE_NUMBER"@.len() == 18);
    assert("AFTER_SEQUENCE_NUMBER"@.len() == 21);
    assert("AT_TIMESTAMP"@.len() == 12 && "AT_TIMESTAMP"@[0] == 'A');
}

/// Whether a request to read is refused with this error.
pub open spec fn refuses_read(
    store: StoreV,
    req: JsonV,
    now: u128,
    kind: Seq<char>,
    message: Seq<char>,
) -> bool {
    forall|r: Result<(Vec<u8>, u64, u64), ApiError>| #[trigger]
        is_read(store, req, now, r) ==> r is Err && r->Err_0@ == (ErrV { kind, message })
}

/// What a reader is told that is refused; the first of these that applies: there is no token, the
/// token has expired, the limit is none from 1 to 10000, the stream is not there, the shard is not
/// there.
pub proof fn law_read_refusals(
    store: StoreV,
    req: JsonV,
    now: u128,
    token: Seq<char>,
    it: IteratorV,
    limit: nat,
)
    ensures
        silent(req, "ShardIterator"@) ==> refuses_read(
            store,
            req,
            now,
            "ValidationException"@,
            "Missing required parameter: "@ + "ShardIterator"@,
        ),
        says(req, "ShardIterator"@, token) && token_iterator(token) is Err ==> refuses_read(
            store,
            req,
            now,
            "InvalidArgumentException"@,
            "Malformed shard iterator"@,
        ),
        says(req, "ShardIterator"@, token) && token_iterator(token) == Ok::<IteratorV, ErrV>(it) ==> {
            &&& now > it.expires_ms ==> refuses_read(
                store,
                req,
                now,
                "ExpiredIteratorException"@,
                "Iterator expired (5 min TTL)"@,
            )
            &&& now <= it.expires_ms && (forall|n: nat| !#[trigger] limits_to(req, n))
                ==> refuses_read(
                store,
                req,
                now,
                "ValidationException"@,
                "1 validation error detected: Value at 'limit' failed to satisfy constraint: Member must have value between 1 and 10000"@,
            )
            &&& now <= it.expires_ms && limits_to(req, limit) && !store.streams.contains_key(
                it.stream,
            ) ==> refuses_read(
                store,
                req,
                now,
                "ResourceNotFoundException"@,
                "Stream "@ + it.stream + " not found"@,
            )
            &&& now <= it.expires_ms && limits_to(req, limit) && store.streams.contains_key(
                it.stream,
            ) && (forall|i: int|
                0 <= i < store.streams[it.stream].shards.len() ==> (
                #[trigger] store.streams[it.stream].shards[i]).id != it.shard_id) ==> refuses_read(
                store,
                req,
                now,
                "ResourceNotFoundException"@,
                "Shard "@ + it.shard_id + " not found"@,
            )
        },
{
    if let Some(other) = req.text_of("ShardIterator"@) {
        assert(says(req, "ShardIterator"@, other));
    }
    if forall|n: nat| !#[trigger] limits_to(req, n) {
        assert(!limits_to(req, 10_000));
        if let Some(value) = req.get("Limit"@) {
            if let Some(n) = value.as_u64() {
                assert(!limits_to(req, n as nat));
            }
        }
    }
    if store.streams.contains_key(it.stream) {
        let by_id = |shard: ShardV| shard.id == it.shard_id;
        lemma_first_where(store.streams[it.stream].shards, by_id);
    }
}

/// What is told where a request for an iterator lacks a parameter, or gives a starting number that
/// is none.
pub proof fn law_iterator_request_refusals(
    store: StoreV,
    req: JsonV,
    timestamp_ms: Option<u128>,
    now: u128,
    text: Seq<char>,
)
    requires
        target_stream(req) is Ok,
    ensures
        silent(req, "ShardId"@) ==> iterator_answer(store, req, timestamp_ms, now) == Err::<
            JsonV,
            ErrV,
        >(
            ErrV {
                kind: "ValidationException"@,
                message: "Missing required parameter: "@ + "ShardId"@,
            },
        ),
        !silent(req, "ShardId"@) && silent(req, "ShardIteratorType"@) ==> iterator_answer(
            store,
            req,
            timestamp_ms,
            now,
        ) == Err::<JsonV, ErrV>(
            ErrV {
                kind: "ValidationException"@,
                message: "Missing required parameter: "@ + "ShardIteratorType"@,
            },
        ),
        !silent(req, "ShardId"@) && !silent(req, "ShardIteratorType"@) && says(
            req,
            "StartingSequenceNumber"@,
            text,
        ) && parse_decimal(text, u64::MAX as nat) is None ==> iterator_answer(
            store,
            req,
            timestamp_ms,
            now,
        ) == Err::<JsonV, ErrV>(
            ErrV { kind: "ValidationException"@, message: "Invalid StartingSequenceNumber"@ },
        ),
{
    if let Some(other) = req.text_of("ShardId"@) {
        assert(says(req, "ShardId"@, other));
    }
    if let Some(other) = req.text_of("ShardIteratorType"@) {
        assert(says(req, "ShardIteratorType"@, other));
    }
}

/// A reader that resumes after number `n` is shown exactly what lies above it: in a shard whose
/// numbers rise, its page starts behind every record up to `n` and at the first one above.
pub proof fn law_resumed_page_starts_above(
    records: Seq<RecordV>,
    n: u64,
    limit: nat,
    start: int,
    count: nat,
)
    requires
        rising(records),
        n < u64::MAX,
        is_page(records, (n + 1) as u64, limit, start, count),
    ensures
        forall|k: int|
            0 <= k < records.len() ==> ((#[trigger] records[k]).seq > n) == (k >= start),
        forall|k: int, j: int|
            start <= k < j < start + count ==> (#[trigger] records[k]).seq < (
            #[trigger] records[j]).seq,
{
    law_start_is_unique(records, (n + 1) as u64, start, start);
}

} // verus!
