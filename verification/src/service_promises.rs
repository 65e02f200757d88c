//! What the service promises around its operations, written out: how a request is taken, how an
//! error is sent, what is counted, what a scraper is told, and where a setting comes from.
use crate::config::{flag_value, retention_setting, setting, setting_or, Environment};
use crate::json::JsonV;
use crate::maintenance::{step_after, CycleAction, CycleEvent};
use crate::metrics::{
    counted_request, exposition, memory_samples, request_samples, sample, statm_resident,
    stored_records, stream_samples, MetricsV, OPS,
};
use crate::protocol::{error_json, error_status, payload_len, target_operation, ErrV};
use crate::put_promises::says;
use crate::router::{
    accepted, body_error, counted_reply, requested_endpoint, Endpoint, Operation, Reply,
};
use crate::store::{stream_bytes, stream_count, StoreV};
use crate::text::{
    decimal, is_digit, is_space, lemma_decimal_round_trip, lemma_decimal_value, next_where,
    parse_decimal, word,
};
use vstd::prelude::*;
use vstd::utf8::encode_utf8;

verus! {

// ---- requests and errors -----------------------------------------------------

/// Each operation goes by its own name, which no other has.
pub proof fn law_each_operation_has_its_own_name(a: Operation, b: Operation)
    ensures
        Operation::CreateStream.text() == "CreateStream"@,
        Operation::DeleteStream.text() == "DeleteStream"@,
        Operation::PutRecord.text() == "PutRecord"@,
        Operation::PutRecords.text() == "PutRecords"@,
        Operation::ListStreams.text() == "ListStreams"@,
        Operation::DescribeStream.text() == "DescribeStream"@,
        Operation::DescribeStreamSummary.text() == "DescribeStreamSummary"@,
        Operation::ListShards.text() == "ListShards"@,
        Operation::GetShardIterator.text() == "GetShardIterator"@,
        Operation::GetRecords.text() == "GetRecords"@,
        a.text() == b.text() ==> a == b,
{
    reveal_strlit("CreateStream");
    reveal_strlit("DeleteStream");
    reveal_strlit("PutRecord");
    reveal_strlit("PutRecords");
    reveal_strlit("ListStreams");
    reveal_strlit("DescribeStream");
    reveal_strlit("DescribeStreamSummary");
    reveal_strlit("ListShards");
    reveal_strlit("GetShardIterator");
    reveal_strlit("GetRecords");
    if a.text() == b.text() {
        assert(a.text().len() == b.text().len());
        assert(a.text()[0] == b.text()[0]);
        assert(a.text()[4] == b.text()[4]);
    }
}

/// A target header names an operation exactly where it is the name behind the prefix of the
/// service.
pub proof fn law_target_is_the_prefix_and_the_name(header: Seq<char>, name: Seq<char>)
    ensures
        target_operation("Kinesis_20131202."@ + name) == Some(name),
        target_operation(header) == Some(name) ==> header == "Kinesis_20131202."@ + name,
{
    let prefix = "Kinesis_20131202."@;
    let whole = prefix + name;
    assert(whole.take(prefix.len() as int) =~= prefix);
    assert(whole.skip(prefix.len() as int) =~= name);
    if target_operation(header) == Some(name) {
        assert(header =~= prefix + name);
    }
}

/// How a request is taken: one without a target, or with one that lacks the prefix, is for no
/// operation; a body of nothing but white space stands for no parameters; any other is what it
/// parses to, or is refused.
pub proof fn law_request_is_taken_as_it_is(name: Seq<char>, body: Seq<char>, parsed: Option<JsonV>)
    ensures
        ({
            let r = accepted(None, body, parsed);
            &&& r is Err
            &&& r->Err_0.kind == "UnknownOperationException"@
            &&& r->Err_0.message == "Missing or invalid X-Amz-Target"@
        }),
        forall|header: Seq<char>|
            (forall|rest: Seq<char>| header != #[trigger] ("Kinesis_20131202."@ + rest))
                ==> #[trigger] accepted(Some(header), body, parsed) == accepted(None, body, parsed),
        ({
            let r = accepted(Some("Kinesis_20131202."@ + name), body, parsed);
            if forall|i: int| 0 <= i < body.len() ==> is_space(#[trigger] body[i]) {
                r is Ok && (r->Ok_0).0 == name && (r->Ok_0).1 == JsonV::Object(Seq::empty())
            } else if parsed is Some {
                r is Ok && (r->Ok_0).0 == name && (r->Ok_0).1 == parsed->0
            } else {
                r is Err && r->Err_0.kind == "SerializationException"@ && r->Err_0.message
                    == "Request body is not valid JSON"@
            }
        }),
{
    law_target_is_the_prefix_and_the_name(Seq::empty(), name);
    assert forall|header: Seq<char>|
        (forall|rest: Seq<char>| header != #[trigger] ("Kinesis_20131202."@ + rest))
            implies #[trigger] accepted(Some(header), body, parsed) == accepted(
        None,
        body,
        parsed,
    ) by {
        if let Some(rest) = target_operation(header) {
            law_target_is_the_prefix_and_the_name(header, rest);
            assert(header == "Kinesis_20131202."@ + rest);
        }
    }
}

/// An error is sent as its kind and its message, each under its key, with the status of a failure
/// of the service exactly where it is one.
pub proof fn law_error_is_sent_with_kind_and_message(error: ErrV)
    ensures
        error_json(error).get("__type"@) == Some(JsonV::Text(error.kind)),
        error_json(error).get("message"@) == Some(JsonV::Text(error.message)),
        error_json(error)->Object_0.len() == 2,
        error_status(error.kind) == 500 <==> error.kind == "InternalFailure"@,
        error_status(error.kind) == 400 <==> error.kind != "InternalFailure"@,
{
    reveal_strlit("__type");
    reveal_strlit("message");
    assert("__type"@.len() != "message"@.len());
    let fields = error_json(error)->Object_0;
    assert(fields.drop_first()[0] == fields[1]);
    reveal_with_fuel(crate::json::field_value, 3);
}

/// A body is refused exactly where it could not be read, or has more than 16 MiB.
pub proof fn law_body_is_refused_over_the_limit(len: nat)
    ensures
        body_error(Some(len)) is Some <==> len > 16 * 1024 * 1024,
        body_error(Some(len)) is Some ==> (body_error(Some(len))->0).kind == "ValidationException"@
            && (body_error(Some(len))->0).message == "Request body exceeds the 16 MiB limit"@,
        body_error(None) is Some,
        (body_error(None)->0).kind == "SerializationException"@,
        (body_error(None)->0).message == "Unreadable request body"@,
{
}

/// What is not a GET is for an operation; a GET is for the metrics under their path, and for a
/// sign of life under any other.
pub proof fn law_endpoint_goes_by_method_and_path(is_get: bool, url: Seq<char>)
    ensures
        requested_endpoint(is_get, url) == Endpoint::Operation <==> !is_get,
        requested_endpoint(is_get, url) == Endpoint::Metrics <==> is_get && url == "/metrics"@,
        requested_endpoint(is_get, url) == Endpoint::Health <==> is_get && url != "/metrics"@,
{
}

/// Where there is persistence, trimming is followed by a save, and a save that succeeded by the
/// drop of old segments. Everything else waits for the next cycle.
pub proof fn law_cycle_goes_on_while_it_succeeds(event: CycleEvent, persistent: bool)
    ensures
        step_after(event, persistent) == CycleAction::Save <==> event == CycleEvent::Trimmed
            && persistent,
        step_after(event, persistent) == CycleAction::Drop <==> event == CycleEvent::Saved(true),
{
}

// ---- counters ----------------------------------------------------------------

/// What a counter shows that has gone up from `before` by `n`.
pub open spec fn goes_up(before: u64, after: u64, n: int) -> bool {
    after == (before + n) % 0x1_0000_0000_0000_0000
}

/// Whether two states of the counters have the same requests and the same start.
pub open spec fn same_requests(a: MetricsV, b: MetricsV) -> bool {
    a.requests == b.requests && a.start_secs == b.start_secs
}

/// The operations that are counted are those that there are, each at its place; a request for one
/// of them raises its own counter by one and no other; any other request raises none.
pub proof fn law_request_is_counted_for_its_operation(
    metrics: MetricsV,
    operation: Operation,
    other: Seq<char>,
    at: int,
    i: int,
)
    requires
        metrics.requests.len() == 10,
        0 <= at < 10,
        0 <= i < 10,
        OPS@[at]@ == operation.text(),
        forall|known: Operation| #[trigger] known.text() != other,
    ensures
        ({
            let after = counted_request(metrics, operation.text());
            &&& after.requests.len() == 10
            &&& i == at ==> goes_up(metrics.requests[i], after.requests[i], 1)
            &&& i != at ==> after.requests[i] == metrics.requests[i]
            &&& after.put_records == metrics.put_records && after.put_bytes == metrics.put_bytes
            &&& after.get_records == metrics.get_records && after.get_bytes == metrics.get_bytes
            &&& after.start_secs == metrics.start_secs
        }),
        counted_request(metrics, other) == metrics,
{
    lemma_places();
    law_each_operation_has_its_own_name(operation, operation_at(i));
    law_each_operation_has_its_own_name(operation, operation_at(at));
    assert(operation_at(at) == operation);
    assert(i != at ==> operation_at(i) != operation_at(at));
    let same = counted_request(metrics, other);
    assert forall|k: int| 0 <= k < 10 implies #[trigger] same.requests[k] == metrics.requests[k] by {
        assert(operation_at(k).text() != other);
    }
    assert(same.requests =~= metrics.requests);
}

/// The operation whose counter stands at a place.
spec fn operation_at(i: int) -> Operation {
    if i == 0 {
        Operation::CreateStream
    } else if i == 1 {
        Operation::DeleteStream
    } else if i == 2 {
        Operation::PutRecord
    } else if i == 3 {
        Operation::PutRecords
    } else if i == 4 {
        Operation::ListStreams
    } else if i == 5 {
        Operation::DescribeStream
    } else if i == 6 {
        Operation::DescribeStreamSummary
    } else if i == 7 {
        Operation::ListShards
    } else if i == 8 {
        Operation::GetShardIterator
    } else {
        Operation::GetRecords
    }
}

proof fn lemma_places()
    ensures
        forall|i: int| 0 <= i < 10 ==> (#[trigger] OPS@[i])@ == operation_at(i).text(),
{
    assert forall|i: int| 0 <= i < 10 implies (#[trigger] OPS@[i])@ == operation_at(i).text() by {
        assert(i == 0 || i == 1 || i == 2 || i == 3 || i == 4 || i == 5 || i == 6 || i == 7 || i
            == 8 || i == 9);
    }
}

/// Every operation has a counter.
pub proof fn law_every_operation_is_counted(operation: Operation)
    ensures
        exists|i: int| 0 <= i < 10 && (#[trigger] OPS@[i])@ == operation.text(),
{
    lemma_places();
    assert(exists|i: int| 0 <= i < 10 && #[trigger] operation_at(i) == operation) by {
        assert(operation_at(0) == Operation::CreateStream);
        assert(operation_at(1) == Operation::DeleteStream);
        assert(operation_at(2) == Operation::PutRecord);
        assert(operation_at(3) == Operation::PutRecords);
        assert(operation_at(4) == Operation::ListStreams);
        assert(operation_at(5) == Operation::DescribeStream);
        assert(operation_at(6) == Operation::DescribeStreamSummary);
        assert(operation_at(7) == Operation::ListShards);
        assert(operation_at(8) == Operation::GetShardIterator);
        assert(operation_at(9) == Operation::GetRecords);
    }
    let i = choose|i: int| 0 <= i < 10 && #[trigger] operation_at(i) == operation;
    assert(OPS@[i]@ == operation.text());
}

/// The payload length of a padded base64 text: three bytes for each four characters, less the
/// number of `=` that it ends in.
pub proof fn law_payload_length_of_padded_text(body: Seq<u8>, padding: nat)
    requires
        padding <= 2,
        (body.len() + padding) % 4 == 0,
        body.len() >= 2,
        body[body.len() - 1] != 0x3d,
    ensures
        payload_len(body + Seq::new(padding, |i: int| 0x3du8)) == (body.len() + padding) / 4 * 3
            - padding,
        payload_len(Seq::empty()) == 0,
{
    let none = Seq::new(0, |i: int| 0x3du8);
    let one = Seq::new(1, |i: int| 0x3du8);
    let two = Seq::new(2, |i: int| 0x3du8);
    assert(body + none =~= body);
    assert((body + one).drop_last() =~= body);
    assert((body + two).drop_last() =~= body + one);
    assert(crate::protocol::padding_len(body) == 0);
    assert(crate::protocol::padding_len(body + one) == 1);
    assert(crate::protocol::padding_len(body + two) == 2);
}

/// A put that succeeded counts one record and the length of its data. A read counts the records
/// and the bytes that it returned. Nothing else moves, and no other answer counts anything.
pub proof fn law_put_and_read_are_counted(
    metrics: MetricsV,
    operation: Operation,
    req: JsonV,
    reply: Reply,
    text: Seq<char>,
    bytes: nat,
)
    requires
        says(req, "Data"@, text),
        payload_len(encode_utf8(text)) == bytes,
        bytes <= u64::MAX,
    ensures
        ({
            let after = counted_reply(metrics, operation, req, reply);
            &&& same_requests(after, metrics)
            &&& reply is Json && operation == Operation::PutRecord ==> {
                &&& goes_up(metrics.put_records, after.put_records, 1)
                &&& goes_up(metrics.put_bytes, after.put_bytes, bytes as int)
                &&& after.get_records == metrics.get_records
                &&& after.get_bytes == metrics.get_bytes
            }
            &&& reply is Records ==> {
                &&& goes_up(metrics.get_records, after.get_records, reply->1 as int)
                &&& goes_up(metrics.get_bytes, after.get_bytes, reply->2 as int)
                &&& after.put_records == metrics.put_records
                &&& after.put_bytes == metrics.put_bytes
            }
            &&& reply is Json && operation != Operation::PutRecord && operation
                != Operation::PutRecords ==> after == metrics
        }),
{
}

/// What the results of a batch add up to: the first is 1 for each record whose result has no
/// `ErrorCode`, and the second is its payload.
pub open spec fn batch_adds(
    results: Seq<JsonV>,
    sizes: Seq<nat>,
    records: nat,
    bytes: nat,
) -> bool {
    let stored = |i: int| results[i].get("ErrorCode"@) is None;
    let ones = Seq::new(
        results.len(),
        |i: int|
            if stored(i) {
                1nat
            } else {
                0nat
            },
    );
    let lens = Seq::new(
        results.len(),
        |i: int|
            if stored(i) {
                sizes[i]
            } else {
                0nat
            },
    );
    &&& records == ones.fold_left(0nat, |sum: nat, n: nat| sum + n)
    &&& bytes == lens.fold_left(0nat, |sum: nat, n: nat| sum + n)
}

/// A batch counts the records whose results have no `ErrorCode`, each with the length of its own
/// data, and nothing else.
pub proof fn law_batch_counts_what_was_stored(
    metrics: MetricsV,
    req: JsonV,
    value: crate::json::Json,
    requests: Seq<JsonV>,
    results: Seq<JsonV>,
    texts: Seq<Seq<char>>,
    sizes: Seq<nat>,
    records: nat,
    bytes: nat,
)
    requires
        req.get("Records"@) == Some(JsonV::Array(requests)),
        value@.get("Records"@) == Some(JsonV::Array(results)),
        requests.len() == results.len() == texts.len() == sizes.len(),
        forall|i: int|
            0 <= i < requests.len() ==> says(#[trigger] requests[i], "Data"@, texts[i])
                && payload_len(encode_utf8(texts[i])) == sizes[i],
        batch_adds(results, sizes, records, bytes),
        records <= u64::MAX,
        bytes <= u64::MAX,
    ensures
        ({
            let after = counted_reply(metrics, Operation::PutRecords, req, Reply::Json(value));
            &&& same_requests(after, metrics)
            &&& goes_up(metrics.put_records, after.put_records, records as int)
            &&& goes_up(metrics.put_bytes, after.put_bytes, bytes as int)
            &&& after.get_records == metrics.get_records
            &&& after.get_bytes == metrics.get_bytes
        }),
{
    lemma_batch_adds(requests, results, texts, sizes, records, bytes);
}

proof fn lemma_batch_adds(
    requests: Seq<JsonV>,
    results: Seq<JsonV>,
    texts: Seq<Seq<char>>,
    sizes: Seq<nat>,
    records: nat,
    bytes: nat,
)
    requires
        requests.len() == results.len() == texts.len() == sizes.len(),
        forall|i: int|
            0 <= i < requests.len() ==> says(#[trigger] requests[i], "Data"@, texts[i])
                && payload_len(encode_utf8(texts[i])) == sizes[i],
        batch_adds(results, sizes, records, bytes),
    ensures
        stored_records(requests, results, requests.len()) == (records, bytes),
    decreases requests.len(),
{
    let stored = |i: int| results[i].get("ErrorCode"@) is None;
    let one = |i: int|
        if stored(i) {
            1nat
        } else {
            0nat
        };
    let len = |i: int|
        if stored(i) {
            sizes[i]
        } else {
            0nat
        };
    let sum = |sum: nat, n: nat| sum + n;
    lemma_sums(requests, results, texts, sizes, one, len, requests.len());
    assert(records == Seq::new(results.len(), one).fold_left(0nat, sum));
    assert(bytes == Seq::new(results.len(), len).fold_left(0nat, sum));
}

proof fn lemma_sums(
    requests: Seq<JsonV>,
    results: Seq<JsonV>,
    texts: Seq<Seq<char>>,
    sizes: Seq<nat>,
    one: spec_fn(int) -> nat,
    len: spec_fn(int) -> nat,
    n: nat,
)
    requires
        n <= requests.len() == results.len() == texts.len() == sizes.len(),
        forall|i: int|
            0 <= i < requests.len() ==> says(#[trigger] requests[i], "Data"@, texts[i])
                && payload_len(encode_utf8(texts[i])) == sizes[i],
        forall|i: int| #[trigger]
            one(i) == if results[i].get("ErrorCode"@) is None {
                1nat
            } else {
                0nat
            },
        forall|i: int| #[trigger]
            len(i) == if results[i].get("ErrorCode"@) is None {
                sizes[i]
            } else {
                0nat
            },
    ensures
        stored_records(requests, results, n) == (
            Seq::new(n, one).fold_left(0nat, |sum: nat, n: nat| sum + n),
            Seq::new(n, len).fold_left(0nat, |sum: nat, n: nat| sum + n),
        ),
    decreases n,
{
    if n > 0 {
        let m = (n - 1) as nat;
        lemma_sums(requests, results, texts, sizes, one, len, m);
        assert(Seq::new(n, one).drop_last() =~= Seq::new(m, one));
        assert(Seq::new(n, len).drop_last() =~= Seq::new(m, len));
        assert(says(requests[n - 1], "Data"@, texts[n - 1]));
    }
}

// ---- the scraper's text ------------------------------------------------------

/// Whether a text holds a line: what is measured, a blank and the value.
pub open spec fn tells(text: Seq<char>, what: Seq<char>, value: nat) -> bool {
    exists|before: Seq<char>, after: Seq<char>|
        text == #[trigger] (before + (what + " "@ + decimal(value) + "\n"@) + after)
}

proof fn lemma_tells(before: Seq<char>, what: Seq<char>, value: nat, after: Seq<char>)
    ensures
        tells(before + sample(what, value) + after, what, value),
{
    assert(before + sample(what, value) + after == before + (what + " "@ + decimal(value) + "\n"@)
        + after);
}

proof fn lemma_tells_within(
    head: Seq<char>,
    text: Seq<char>,
    tail: Seq<char>,
    what: Seq<char>,
    value: nat,
)
    requires
        tells(text, what, value),
    ensures
        tells(head + text + tail, what, value),
{
    let line = what + " "@ + decimal(value) + "\n"@;
    let (before, after) = choose|before: Seq<char>, after: Seq<char>|
        text == #[trigger] (before + line + after);
    assert(head + text + tail =~= (head + before) + line + (after + tail));
}

/// The scraper is told each counter under its own name, the counter of each operation under the
/// name of that operation, when the process was started, and its memory where that is known.
pub proof fn law_scraper_is_told_every_counter(
    metrics: MetricsV,
    store: StoreV,
    resident: Option<u64>,
    operation: Operation,
    i: int,
)
    requires
        0 <= i < 10,
        OPS@[i]@ == operation.text(),
    ensures
        ({
            let text = exposition(metrics, store, resident);
            &&& tells(text, "fakestream_put_records_total"@, metrics.put_records as nat)
            &&& tells(text, "fakestream_get_records_total"@, metrics.get_records as nat)
            &&& tells(text, "fakestream_put_bytes_total"@, metrics.put_bytes as nat)
            &&& tells(text, "fakestream_get_bytes_total"@, metrics.get_bytes as nat)
            &&& tells(
                text,
                "fakestream_requests_total{op=\""@ + operation.text() + "\"}"@,
                metrics.requests[i] as nat,
            )
            &&& tells(text, "process_start_time_seconds"@, metrics.start_secs as nat)
            &&& resident is Some ==> tells(
                text,
                "process_resident_memory_bytes"@,
                resident->0 as nat,
            )
        }),
{
    let text = exposition(metrics, store, resident);
    let parts = parts_of(metrics, store, resident);
    lemma_parts(metrics, store, resident);
    lemma_tells(parts[0], "fakestream_put_records_total"@, metrics.put_records as nat, parts[1]);
    lemma_tells(parts[2], "fakestream_get_records_total"@, metrics.get_records as nat, parts[3]);
    lemma_tells(parts[4], "fakestream_put_bytes_total"@, metrics.put_bytes as nat, parts[5]);
    lemma_tells(parts[6], "fakestream_get_bytes_total"@, metrics.get_bytes as nat, parts[7]);
    lemma_tells(parts[12], "process_start_time_seconds"@, metrics.start_secs as nat, parts[13]);
    lemma_requests_told(metrics.requests, 10, i);
    lemma_tells_within(
        parts[8],
        request_samples(metrics.requests, 10),
        parts[9],
        "fakestream_requests_total{op=\""@ + OPS@[i]@ + "\"}"@,
        metrics.requests[i] as nat,
    );
    if let Some(bytes) = resident {
        let head = parts[12] + sample("process_start_time_seconds"@, metrics.start_secs as nat)
            + "# TYPE process_resident_memory_bytes gauge\n"@;
        lemma_tells(head, "process_resident_memory_bytes"@, bytes as nat, Seq::empty());
        assert(text =~= head + sample("process_resident_memory_bytes"@, bytes as nat)
            + Seq::empty());
    }
}

/// The scraper is told of each stream how many records and bytes it holds, under its own name.
pub proof fn law_scraper_is_told_every_stream(
    metrics: MetricsV,
    store: StoreV,
    resident: Option<u64>,
    i: int,
)
    requires
        0 <= i < store.order.len(),
    ensures
        ({
            let text = exposition(metrics, store, resident);
            let name = store.order[i];
            let count = stream_count(store.streams[name]);
            let bytes = stream_bytes(store.streams[name]);
            &&& count <= u64::MAX ==> tells(
                text,
                "fakestream_records_stored{stream=\""@ + name + "\"}"@,
                count,
            )
            &&& bytes <= u64::MAX ==> tells(
                text,
                "fakestream_bytes_stored{stream=\""@ + name + "\"}"@,
                bytes,
            )
        }),
{
    let parts = parts_of(metrics, store, resident);
    lemma_parts(metrics, store, resident);
    let name = store.order[i];
    let count = stream_count(store.streams[name]);
    let bytes = stream_bytes(store.streams[name]);
    let told = stream_samples(store, store.order.len());
    lemma_streams_told(store, store.order.len(), i);
    if count <= u64::MAX {
        lemma_tells_within(
            parts[10],
            told,
            parts[11],
            "fakestream_records_stored{stream=\""@ + name + "\"}"@,
            count,
        );
    }
    if bytes <= u64::MAX {
        lemma_tells_within(
            parts[10],
            told,
            parts[11],
            "fakestream_bytes_stored{stream=\""@ + name + "\"}"@,
            bytes,
        );
    }
}

proof fn lemma_requests_told(requests: Seq<u64>, n: nat, i: int)
    requires
        0 <= i < n <= 10,
    ensures
        tells(
            request_samples(requests, n),
            "fakestream_requests_total{op=\""@ + OPS@[i]@ + "\"}"@,
            requests[i] as nat,
        ),
    decreases n,
{
    let m = (n - 1) as nat;
    let before = request_samples(requests, m);
    let what = "fakestream_requests_total{op=\""@ + OPS@[n - 1]@ + "\"}"@;
    let line = sample(what, requests[n - 1] as nat);
    if i == n - 1 {
        lemma_tells(before, what, requests[n - 1] as nat, Seq::empty());
        assert(request_samples(requests, n) =~= before + line + Seq::empty());
    } else {
        lemma_requests_told(requests, m, i);
        lemma_tells_within(
            Seq::empty(),
            before,
            line,
            "fakestream_requests_total{op=\""@ + OPS@[i]@ + "\"}"@,
            requests[i] as nat,
        );
        assert(request_samples(requests, n) =~= Seq::empty() + before + line);
    }
}

proof fn lemma_streams_told(store: StoreV, n: nat, i: int)
    requires
        0 <= i < n,
    ensures
        ({
            let name = store.order[i];
            let count = stream_count(store.streams[name]);
            let bytes = stream_bytes(store.streams[name]);
            &&& count <= u64::MAX ==> tells(
                stream_samples(store, n),
                "fakestream_records_stored{stream=\""@ + name + "\"}"@,
                count,
            )
            &&& bytes <= u64::MAX ==> tells(
                stream_samples(store, n),
                "fakestream_bytes_stored{stream=\""@ + name + "\"}"@,
                bytes,
            )
        }),
    decreases n,
{
    let m = (n - 1) as nat;
    let before = stream_samples(store, m);
    let last = store.order[n - 1];
    let last_count = crate::store::at_most(
        stream_count(store.streams[last]) as int,
        u64::MAX as int,
    ) as nat;
    let last_bytes = crate::store::at_most(
        stream_bytes(store.streams[last]) as int,
        u64::MAX as int,
    ) as nat;
    let what_count = "fakestream_records_stored{stream=\""@ + last + "\"}"@;
    let what_bytes = "fakestream_bytes_stored{stream=\""@ + last + "\"}"@;
    let first = sample(what_count, last_count);
    let second = sample(what_bytes, last_bytes);
    let whole = stream_samples(store, n);
    assert(whole =~= before + first + second);
    if i == n - 1 {
        lemma_tells(before, what_count, last_count, second);
        lemma_tells(before + first, what_bytes, last_bytes, Seq::empty());
        assert(whole =~= (before + first) + second + Seq::empty());
    } else {
        lemma_streams_told(store, m, i);
        let name = store.order[i];
        let count = stream_count(store.streams[name]);
        let bytes = stream_bytes(store.streams[name]);
        assert(whole =~= Seq::empty() + before + (first + second));
        if count <= u64::MAX {
            lemma_tells_within(
                Seq::empty(),
                before,
                first + second,
                "fakestream_records_stored{stream=\""@ + name + "\"}"@,
                count,
            );
        }
        if bytes <= u64::MAX {
            lemma_tells_within(
                Seq::empty(),
                before,
                first + second,
                "fakestream_bytes_stored{stream=\""@ + name + "\"}"@,
                bytes,
            );
        }
    }
}

/// What stands before and behind each of the seven parts of the scraper's text.
spec fn parts_of(metrics: MetricsV, store: StoreV, resident: Option<u64>) -> Seq<Seq<char>> {
    let p = sample("fakestream_put_records_total"@, metrics.put_records as nat);
    let g = sample("fakestream_get_records_total"@, metrics.get_records as nat);
    let pb = sample("fakestream_put_bytes_total"@, metrics.put_bytes as nat);
    let gb = sample("fakestream_get_bytes_total"@, metrics.get_bytes as nat);
    let start = sample("process_start_time_seconds"@, metrics.start_secs as nat);
    let requests = request_samples(metrics.requests, 10);
    let streams = stream_samples(store, store.order.len());
    let h0 = "# TYPE fakestream_put_records_total counter\n"@;
    let h1 = h0 + p + "# TYPE fakestream_get_records_total counter\n"@;
    let h2 = h1 + g + "# TYPE fakestream_put_bytes_total counter\n"@;
    let h3 = h2 + pb + "# TYPE fakestream_get_bytes_total counter\n"@;
    let h4 = h3 + gb + "# TYPE fakestream_requests_total counter\n"@;
    let h5 = h4 + requests + "# TYPE fakestream_records_stored gauge\n"@
        + "# TYPE fakestream_bytes_stored gauge\n"@;
    let h6 = h5 + streams + "# TYPE process_start_time_seconds gauge\n"@;
    let t6 = memory_samples(resident);
    let t5 = "# TYPE process_start_time_seconds gauge\n"@ + start + t6;
    let t4 = "# TYPE fakestream_records_stored gauge\n"@
        + "# TYPE fakestream_bytes_stored gauge\n"@ + streams + t5;
    let t3 = "# TYPE fakestream_requests_total counter\n"@ + requests + t4;
    let t2 = "# TYPE fakestream_get_bytes_total counter\n"@ + gb + t3;
    let t1 = "# TYPE fakestream_put_bytes_total counter\n"@ + pb + t2;
    let t0 = "# TYPE fakestream_get_records_total counter\n"@ + g + t1;
    seq![h0, t0, h1, t1, h2, t2, h3, t3, h4, t4, h5, t5, h6, t6]
}

proof fn lemma_parts(metrics: MetricsV, store: StoreV, resident: Option<u64>)
    ensures
        ({
            let parts = parts_of(metrics, store, resident);
            let text = exposition(metrics, store, resident);
            let p = sample("fakestream_put_records_total"@, metrics.put_records as nat);
            let g = sample("fakestream_get_records_total"@, metrics.get_records as nat);
            let pb = sample("fakestream_put_bytes_total"@, metrics.put_bytes as nat);
            let gb = sample("fakestream_get_bytes_total"@, metrics.get_bytes as nat);
            let start = sample("process_start_time_seconds"@, metrics.start_secs as nat);
            &&& text == parts[0] + p + parts[1]
            &&& text == parts[2] + g + parts[3]
            &&& text == parts[4] + pb + parts[5]
            &&& text == parts[6] + gb + parts[7]
            &&& text == parts[8] + request_samples(metrics.requests, 10) + parts[9]
            &&& text == parts[10] + stream_samples(store, store.order.len()) + parts[11]
            &&& text == parts[12] + start + parts[13]
        }),
{
    let parts = parts_of(metrics, store, resident);
    let text = exposition(metrics, store, resident);
    let p = sample("fakestream_put_records_total"@, metrics.put_records as nat);
    let g = sample("fakestream_get_records_total"@, metrics.get_records as nat);
    let pb = sample("fakestream_put_bytes_total"@, metrics.put_bytes as nat);
    let gb = sample("fakestream_get_bytes_total"@, metrics.get_bytes as nat);
    let start = sample("process_start_time_seconds"@, metrics.start_secs as nat);
    let requests = request_samples(metrics.requests, 10);
    let streams = stream_samples(store, store.order.len());
    let both = "# TYPE fakestream_records_stored gauge\n"@
        + "# TYPE fakestream_bytes_stored gauge\n"@;
    lemma_regrouped(
        parts[10],
        streams,
        "# TYPE process_start_time_seconds gauge\n"@,
        start,
        parts[13],
    );
    lemma_grouped(
        parts[8] + requests,
        "# TYPE fakestream_records_stored gauge\n"@,
        "# TYPE fakestream_bytes_stored gauge\n"@,
    );
    lemma_regrouped(parts[8], requests, both, streams, parts[11]);
    lemma_regrouped(
        parts[6],
        gb,
        "# TYPE fakestream_requests_total counter\n"@,
        requests,
        parts[9],
    );
    lemma_regrouped(parts[4], pb, "# TYPE fakestream_get_bytes_total counter\n"@, gb, parts[7]);
    lemma_regrouped(parts[2], g, "# TYPE fakestream_put_bytes_total counter\n"@, pb, parts[5]);
    lemma_regrouped(parts[0], p, "# TYPE fakestream_get_records_total counter\n"@, g, parts[3]);
}

proof fn lemma_grouped(a: Seq<char>, b: Seq<char>, c: Seq<char>)
    ensures
        a + b + c == a + (b + c),
{
    assert(a + b + c =~= a + (b + c));
}

proof fn lemma_regrouped(a: Seq<char>, b: Seq<char>, c: Seq<char>, d: Seq<char>, e: Seq<char>)
    ensures
        a + b + (c + d + e) == (a + b + c) + d + e,
{
    assert(a + b + (c + d + e) =~= (a + b + c) + d + e);
}

// ---- settings ----------------------------------------------------------------

/// What follows the first occurrence of a flag is its value; where the flag is not there, or
/// nothing follows it, it has none.
pub proof fn law_flag_has_what_follows_it(args: Seq<String>, flag: Seq<char>, i: int)
    requires
        0 <= i <= args.len(),
        forall|k: int| 0 <= k < i ==> (#[trigger] args[k])@ != flag,
    ensures
        i == args.len() ==> flag_value(args, flag) is None,
        i < args.len() && args[i]@ == flag && i + 1 == args.len() ==> flag_value(
            args,
            flag,
        ) is None,
        i < args.len() && args[i]@ == flag && i + 1 < args.len() ==> flag_value(args, flag) == Some(
            args[i + 1]@,
        ),
    decreases args.len(),
{
    if i > 0 {
        let rest = args.drop_first();
        assert(args[0]@ != flag);
        assert forall|k: int| 0 <= k < i - 1 implies (#[trigger] rest[k])@ != flag by {
            assert(rest[k] == args[k + 1]);
        }
        law_flag_has_what_follows_it(rest, flag, i - 1);
        assert(i < args.len() ==> rest[i - 1] == args[i]);
        assert(i + 1 < args.len() ==> rest[i] == args[i + 1]);
    }
}

/// The memory that a text of page counts tells: the second word, where words are parted by white
/// space, counts pages of 4096 bytes.
pub proof fn law_memory_is_the_second_word(
    first: Seq<char>,
    gap: Seq<char>,
    pages: nat,
    tail: Seq<char>,
)
    requires
        first.len() > 0,
        forall|i: int| 0 <= i < first.len() ==> !is_space(#[trigger] first[i]),
        gap.len() > 0,
        forall|i: int| 0 <= i < gap.len() ==> is_space(#[trigger] gap[i]),
        tail.len() > 0 ==> is_space(tail[0]),
        pages * 4096 <= u64::MAX,
    ensures
        statm_resident(first + gap + decimal(pages) + tail) == Some(4096 * pages),
{
    let digits = decimal(pages);
    let s = first + gap + digits + tail;
    let a = first.len() as int;
    let b = a + gap.len();
    let c = b + digits.len();
    lemma_decimal_value(pages);
    lemma_decimal_round_trip(pages, u64::MAX as nat);
    assert forall|i: int| b <= i < c implies !is_space(#[trigger] s[i]) by {
        assert(s[i] == digits[i - b]);
        assert(is_digit(digits[i - b]));
    }
    assert forall|i: int| 0 <= i < a implies !is_space(#[trigger] s[i]) by {
        assert(s[i] == first[i]);
    }
    assert forall|i: int| a <= i < b implies is_space(#[trigger] s[i]) by {
        assert(s[i] == gap[i - a]);
    }
    assert(c < s.len() ==> s[c] == tail[0]);
    lemma_next_where(s, 0, 0, false);
    lemma_next_where(s, 0, a, true);
    lemma_next_where(s, a, b, false);
    lemma_next_where(s, b, c, true);
    reveal_with_fuel(word, 2);
    assert(s.subrange(b, c) =~= digits);
}

proof fn lemma_next_where(s: Seq<char>, from: int, to: int, wanted: bool)
    requires
        0 <= from <= to <= s.len(),
        forall|i: int| from <= i < to ==> is_space(#[trigger] s[i]) != wanted,
        to < s.len() ==> is_space(s[to]) == wanted,
    ensures
        next_where(s, from, wanted) == to,
    decreases to - from,
{
    if from < to {
        lemma_next_where(s, from + 1, to, wanted);
    }
}

/// The environment comes before the command line, and a default counts exactly where neither
/// gives a number that fits.
pub proof fn law_environment_comes_first(
    env: Option<String>,
    args: Seq<String>,
    flag: Seq<char>,
    max: nat,
    default: nat,
    n: nat,
)
    requires
        n <= max,
    ensures
        env is Some ==> setting(env, args, flag) == Some(env->0@),
        env is None ==> setting(env, args, flag) == flag_value(args, flag),
        setting(env, args, flag) == Some(decimal(n)) ==> setting_or(
            setting(env, args, flag),
            max,
            default,
        ) == n,
        setting(env, args, flag) is None ==> setting_or(setting(env, args, flag), max, default)
            == default,
        forall|text: Seq<char>|
            setting(env, args, flag) == Some(text) && #[trigger] parse_decimal(text, max) is None
                ==> setting_or(setting(env, args, flag), max, default) == default,
{
    lemma_decimal_round_trip(n, max);
}

/// The retention is the seconds where they are given, else the hours in seconds, else a day.
pub proof fn law_retention_is_given_in_seconds_or_hours(
    env: Environment,
    args: Seq<String>,
    secs: nat,
    hours: nat,
)
    requires
        secs <= u64::MAX,
        hours * 3600 <= u64::MAX,
    ensures
        ({
            let by_secs = setting(env.ttl_seconds, args, "--ttl-seconds"@);
            let by_hours = setting(env.retention_hours, args, "--retention-hours"@);
            &&& by_secs == Some(decimal(secs)) ==> retention_setting(env, args) == secs
            &&& by_secs is None && by_hours == Some(decimal(hours)) ==> retention_setting(env, args)
                == hours * 3600
            &&& by_secs is None && by_hours is None ==> retention_setting(env, args) == 24 * 3600
        }),
{
    lemma_decimal_round_trip(secs, u64::MAX as nat);
    lemma_decimal_round_trip(hours, u64::MAX as nat);
}

} // verus!
