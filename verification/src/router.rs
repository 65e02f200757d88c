//! From a request to its operation and to its answer.
//!
//! The connections, the locks and the files are the caller's: this module says which endpoint
//! a request is for, accepts or refuses its body, finds the operation, runs it on the store,
//! and counts what came of it.
use crate::json::{items_view, json_parsed, parse, Json, JsonV};
use crate::metrics::{
    data_bytes, sent_bytes, shorter, stored_records, successful_put_metrics, wrapped, Metrics,
    MetricsV,
};
use crate::ops::{
    create_outcome, create_stream_at, delete_outcome, delete_stream, describe_answer,
    describe_stream, describe_stream_summary, empty_json, get_shard_iterator_at, is_listing,
    iterator_answer, list_shards, list_streams, listing_json, request_fits, requested_records,
    shards_answer, summary_answer,
};
use crate::params::shows_json;
use crate::protocol::{
    error_of, parse_target, target_operation, validation_error, ApiError, ErrV,
};
use crate::records::{get_records_at, is_read, seqs_fit};
use crate::store::{at_most, Store, StoreV, ITERATOR_TTL_MS};
use crate::text::{all_blank, blank, join3, str_eq};
use vstd::prelude::*;
use vstd::string::StringExecFns;
use vstd::utf8::encode_utf8;

verus! {

/// 16 MiB, the limit on the body of a request.
pub const MAX_REQUEST_BODY_BYTES: u64 = 16_777_216;

// ---- endpoints ---------------------------------------------------------------

/// What a request is for.
#[derive(Clone, Copy, Debug, PartialEq, Eq, Structural)]
pub enum Endpoint {
    /// The metrics text.
    Metrics,
    /// A sign of life.
    Health,
    /// An operation.
    Operation,
}

pub open spec fn requested_endpoint(is_get: bool, url: Seq<char>) -> Endpoint {
    if !is_get {
        Endpoint::Operation
    } else if url == "/metrics"@ {
        Endpoint::Metrics
    } else {
        Endpoint::Health
    }
}

/// What a request is for: `GET /metrics` asks for the metrics, any other GET for a sign of
/// life, everything else for an operation.
pub fn endpoint(is_get: bool, url: &str) -> (r: Endpoint)
    ensures
        r == requested_endpoint(is_get, url@),
{
    if !is_get {
        Endpoint::Operation
    } else if str_eq(url, "/metrics") {
        Endpoint::Metrics
    } else {
        Endpoint::Health
    }
}

/// The error of a body that could not be read (`len` is `None`) or is over the limit.
pub open spec fn body_error(len: Option<nat>) -> Option<ErrV> {
    match len {
        None => Some(error_of("SerializationException"@, "Unreadable request body"@)),
        Some(len) => if len > MAX_REQUEST_BODY_BYTES {
            Some(validation_error("Request body exceeds the 16 MiB limit"@))
        } else {
            None
        },
    }
}

/// Refuses a body that could not be read (`len` is `None`), or that has more bytes than the
/// limit; the caller need not read more than one byte past it.
pub fn check_body(len: Option<usize>) -> (r: Option<ApiError>)
    ensures
        ({
            let expected = body_error(
                match len {
                    Some(len) => Some(len as nat),
                    None => None,
                },
            );
            match r {
                Some(error) => expected == Some(error@),
                None => expected is None,
            }
        }),
{
    match len {
        None => Some(
            ApiError::new(
                "SerializationException",
                String::from_str("Unreadable request body"),
            ),
        ),
        Some(len) => if len as u64 > MAX_REQUEST_BODY_BYTES {
            Some(ApiError::validation(String::from_str("Request body exceeds the 16 MiB limit")))
        } else {
            None
        },
    }
}

// ---- the operation -----------------------------------------------------------

/// The operation name and the parameters of a request, given its target header, its body, and
/// what the body parses to. A blank body stands for no parameters.
pub open spec fn accepted(
    target: Option<Seq<char>>,
    body: Seq<char>,
    parsed: Option<JsonV>,
) -> Result<(Seq<char>, JsonV), ErrV> {
    let operation = match target {
        Some(header) => target_operation(header),
        None => None,
    };
    match operation {
        None => Err(
            error_of("UnknownOperationException"@, "Missing or invalid X-Amz-Target"@),
        ),
        Some(name) => if blank(body) {
            Ok((name, empty_json()))
        } else {
            match parsed {
                Some(req) => Ok((name, req)),
                None => Err(
                    error_of("SerializationException"@, "Request body is not valid JSON"@),
                ),
            }
        },
    }
}

pub open spec fn shows_accepted(
    r: Result<(String, Json), ApiError>,
    expected: Result<(Seq<char>, JsonV), ErrV>,
) -> bool {
    match r {
        Ok((name, req)) => expected == Ok::<(Seq<char>, JsonV), ErrV>((name@, req@)),
        Err(error) => expected == Err::<(Seq<char>, JsonV), ErrV>(error@),
    }
}

pub open spec fn text_view(text: Option<&str>) -> Option<Seq<char>> {
    match text {
        Some(text) => Some(text@),
        None => None,
    }
}

pub open spec fn json_option(value: Option<Json>) -> Option<JsonV> {
    match value {
        Some(value) => Some(value@),
        None => None,
    }
}

/// Accepts a request whose body parses to `parsed` (`None` where it is no JSON).
pub fn accept(target: Option<&str>, body: &str, parsed: Option<Json>) -> (r: Result<
    (String, Json),
    ApiError,
>)
    ensures
        shows_accepted(r, accepted(text_view(target), body@, json_option(parsed))),
{
    let operation = match target {
        Some(header) => parse_target(header),
        None => None,
    };
    let name = match operation {
        Some(name) => String::from_str(name),
        None => {
            return Err(
                ApiError::new(
                    "UnknownOperationException",
                    String::from_str("Missing or invalid X-Amz-Target"),
                ),
            );
        },
    };
    if all_blank(body) {
        let fields: Vec<(String, Json)> = Vec::new();
        let req = crate::json::to_object(fields);
        assert(req@->Object_0 =~= Seq::empty());
        return Ok((name, req));
    }
    match parsed {
        Some(req) => Ok((name, req)),
        None => Err(
            ApiError::new(
                "SerializationException",
                String::from_str("Request body is not valid JSON"),
            ),
        ),
    }
}

/// The operation name and the parameters of a request.
pub fn plan(target: Option<&str>, body: &str) -> (r: Result<(String, Json), ApiError>)
    ensures
        shows_accepted(r, accepted(text_view(target), body@, json_parsed(encode_utf8(body@)))),
{
    let parsed = parse(body.as_bytes());
    accept(target, body, parsed)
}

/// The operations.
#[derive(Clone, Copy, Debug, PartialEq, Eq, Structural)]
pub enum Operation {
    CreateStream,
    DeleteStream,
    PutRecord,
    PutRecords,
    ListStreams,
    DescribeStream,
    DescribeStreamSummary,
    ListShards,
    GetShardIterator,
    GetRecords,
}

impl Operation {
    pub open spec fn text(self) -> Seq<char> {
        match self {
            Operation::CreateStream => "CreateStream"@,
            Operation::DeleteStream => "DeleteStream"@,
            Operation::PutRecord => "PutRecord"@,
            Operation::PutRecords => "PutRecords"@,
            Operation::ListStreams => "ListStreams"@,
            Operation::DescribeStream => "DescribeStream"@,
            Operation::DescribeStreamSummary => "DescribeStreamSummary"@,
            Operation::ListShards => "ListShards"@,
            Operation::GetShardIterator => "GetShardIterator"@,
            Operation::GetRecords => "GetRecords"@,
        }
    }

    /// The name of the operation.
    pub fn name(self) -> (r: &'static str)
        ensures
            r@ == self.text(),
    {
        match self {
            Operation::CreateStream => "CreateStream",
            Operation::DeleteStream => "DeleteStream",
            Operation::PutRecord => "PutRecord",
            Operation::PutRecords => "PutRecords",
            Operation::ListStreams => "ListStreams",
            Operation::DescribeStream => "DescribeStream",
            Operation::DescribeStreamSummary => "DescribeStreamSummary",
            Operation::ListShards => "ListShards",
            Operation::GetShardIterator => "GetShardIterator",
            Operation::GetRecords => "GetRecords",
        }
    }

    /// The operation of a name, or the error that it is not implemented.
    pub fn of_name(name: &str) -> (r: Result<Operation, ApiError>)
        ensures
            match r {
                Ok(operation) => operation.text() == name@,
                Err(error) => (forall|operation: Operation| #[trigger] operation.text() != name@)
                    && error@ == error_of(
                    "UnknownOperationException"@,
                    "Operation "@ + name@ + " is not implemented by fakestream"@,
                ),
            },
    {
        let all = [
            Operation::CreateStream,
            Operation::DeleteStream,
            Operation::PutRecord,
            Operation::PutRecords,
            Operation::ListStreams,
            Operation::DescribeStream,
            Operation::DescribeStreamSummary,
            Operation::ListShards,
            Operation::GetShardIterator,
            Operation::GetRecords,
        ];
        let mut i: usize = 0;
        while i < 10
            invariant
                i <= 10,
                all@.len() == 10,
                forall|k: int| 0 <= k < i ==> (#[trigger] all@[k]).text() != name@,
            decreases 10 - i,
        {
            let operation = all[i];
            if str_eq(operation.name(), name) {
                return Ok(operation);
            }
            i = i + 1;
        }
        proof {
            assert forall|operation: Operation| #[trigger] operation.text() != name@ by {
                assert(all@[0] == Operation::CreateStream);
                assert(all@[1] == Operation::DeleteStream);
                assert(all@[2] == Operation::PutRecord);
                assert(all@[3] == Operation::PutRecords);
                assert(all@[4] == Operation::ListStreams);
                assert(all@[5] == Operation::DescribeStream);
                assert(all@[6] == Operation::DescribeStreamSummary);
                assert(all@[7] == Operation::ListShards);
                assert(all@[8] == Operation::GetShardIterator);
                assert(all@[9] == Operation::GetRecords);
            }
        }
        Err(
            ApiError::new(
                "UnknownOperationException",
                join3("Operation ", name, " is not implemented by fakestream"),
            ),
        )
    }
}

// ---- running an operation ----------------------------------------------------

/// An answer: a JSON value, or the body of a GetRecords answer with the number of its records
/// and their payload bytes.
pub enum Reply {
    Json(Json),
    Records(Vec<u8>, u64, u64),
}

pub open spec fn replies_json(r: Result<Reply, ApiError>, expected: Result<JsonV, ErrV>) -> bool {
    match r {
        Ok(Reply::Json(value)) => expected == Ok::<JsonV, ErrV>(value@),
        Ok(Reply::Records(body, count, bytes)) => false,
        Err(error) => expected == Err::<JsonV, ErrV>(error@),
    }
}

pub open spec fn replies_records(
    store: StoreV,
    req: JsonV,
    now: u128,
    r: Result<Reply, ApiError>,
) -> bool {
    match r {
        Ok(Reply::Records(body, count, bytes)) => is_read(
            store,
            req,
            now,
            Ok::<(Vec<u8>, u64, u64), ApiError>((body, count, bytes)),
        ),
        Ok(Reply::Json(value)) => false,
        Err(error) => is_read(store, req, now, Err::<(Vec<u8>, u64, u64), ApiError>(error)),
    }
}

/// Whether an operation only reads the store.
pub open spec fn reads_only(operation: Operation) -> bool {
    match operation {
        Operation::CreateStream | Operation::DeleteStream => false,
        Operation::PutRecord | Operation::PutRecords => false,
        _ => true,
    }
}

/// Runs an operation that only reads the store. `timestamp_ms` is the `Timestamp` of the
/// request, in milliseconds.
pub fn run_read(
    operation: Operation,
    store: &Store,
    req: &Json,
    timestamp_ms: Option<u128>,
    now: u128,
) -> (r: Result<Reply, ApiError>)
    requires
        reads_only(operation),
        store.wf(),
        operation == Operation::GetRecords ==> seqs_fit(store@),
        operation == Operation::GetShardIterator ==> request_fits(store@, req@, timestamp_ms),
        now + ITERATOR_TTL_MS <= u128::MAX,
    ensures
        match operation {
            Operation::ListStreams => exists|names: Seq<Seq<char>>|
                is_listing(store@, names) && replies_json(
                    r,
                    Ok(#[trigger] listing_json(store@, names)),
                ),
            Operation::DescribeStream => replies_json(r, describe_answer(store@, req@)),
            Operation::DescribeStreamSummary => replies_json(r, summary_answer(store@, req@)),
            Operation::ListShards => replies_json(r, shards_answer(store@, req@)),
            Operation::GetShardIterator => replies_json(
                r,
                iterator_answer(store@, req@, timestamp_ms, now),
            ),
            _ => replies_records(store@, req@, now, r),
        },
{
    let answer = match operation {
        Operation::ListStreams => list_streams(store, req),
        Operation::DescribeStream => describe_stream(store, req),
        Operation::DescribeStreamSummary => describe_stream_summary(store, req),
        Operation::ListShards => list_shards(store, req),
        Operation::GetShardIterator => get_shard_iterator_at(store, req, timestamp_ms, now),
        _ => {
            return match get_records_at(store, req, now) {
                Ok((body, count, bytes)) => Ok(Reply::Records(body, count, bytes)),
                Err(error) => Err(error),
            };
        },
    };
    match answer {
        Ok(value) => Ok(Reply::Json(value)),
        Err(error) => Err(error),
    }
}

/// The state and the answer after an operation that creates or deletes a stream.
pub open spec fn change_outcome(operation: Operation, store: StoreV, req: JsonV, now: u128) -> (
    StoreV,
    Result<JsonV, ErrV>,
) {
    if operation == Operation::CreateStream {
        create_outcome(store, req, now)
    } else {
        delete_outcome(store, req)
    }
}

/// Runs CreateStream or DeleteStream.
pub fn run_change(operation: Operation, store: &mut Store, req: &Json, now: u128) -> (r: Result<
    Json,
    ApiError,
>)
    requires
        operation == Operation::CreateStream || operation == Operation::DeleteStream,
        old(store).wf(),
    ensures
        final(store).wf(),
        final(store)@ == change_outcome(operation, old(store)@, req@, now).0,
        shows_json(r, change_outcome(operation, old(store)@, req@, now).1),
{
    if operation == Operation::CreateStream {
        create_stream_at(store, req, now)
    } else {
        delete_stream(store, req)
    }
}

/// A request that is refused changes no stream and no record.
pub proof fn law_refused_change_changes_nothing(
    operation: Operation,
    store: StoreV,
    req: JsonV,
    now: u128,
)
    requires
        change_outcome(operation, store, req, now).1 is Err,
    ensures
        change_outcome(operation, store, req, now).0 == store,
{
}

// ---- counting ----------------------------------------------------------------

/// The array under `Records` of a value.
fn records_of(value: &Json) -> (r: Option<&Vec<Json>>)
    ensures
        match requested_records(value@) {
            Some(items) => r is Some && items_view(r->0@) == items,
            None => r is None,
        },
{
    match value.get("Records") {
        Some(records) => records.as_array(),
        None => None,
    }
}

pub open spec fn added_puts(metrics: MetricsV, records: u64, bytes: u64) -> MetricsV {
    MetricsV {
        put_records: wrapped(metrics.put_records, records),
        put_bytes: wrapped(metrics.put_bytes, bytes),
        ..metrics
    }
}

/// The counters after a successful operation: PutRecord counts its record, PutRecords the
/// records that did not fail, GetRecords those that it returned.
pub open spec fn counted_reply(
    metrics: MetricsV,
    operation: Operation,
    req: JsonV,
    reply: Reply,
) -> MetricsV {
    match reply {
        Reply::Records(body, count, bytes) => MetricsV {
            get_records: wrapped(metrics.get_records, count),
            get_bytes: wrapped(metrics.get_bytes, bytes),
            ..metrics
        },
        Reply::Json(value) => match operation {
            Operation::PutRecord => added_puts(metrics, 1, sent_bytes(req) as u64),
            Operation::PutRecords => match (requested_records(req), requested_records(value@)) {
                (Some(requests), Some(results)) => {
                    let (records, bytes) = stored_records(
                        requests,
                        results,
                        shorter(requests.len(), results.len()),
                    );
                    added_puts(
                        metrics,
                        at_most(records as int, u64::MAX as int) as u64,
                        at_most(bytes as int, u64::MAX as int) as u64,
                    )
                },
                _ => metrics,
            },
            _ => metrics,
        },
    }
}

/// Counts what a successful operation has stored or returned.
pub fn count_reply(metrics: &mut Metrics, operation: Operation, req: &Json, reply: &Reply)
    requires
        old(metrics).wf(),
    ensures
        final(metrics).wf(),
        final(metrics)@ == counted_reply(old(metrics)@, operation, req@, *reply),
{
    match reply {
        Reply::Records(_, count, bytes) => {
            metrics.add_get(*count, *bytes);
        },
        Reply::Json(value) => {
            if operation == Operation::PutRecord {
                metrics.add_put(1, data_bytes(req));
            } else if operation == Operation::PutRecords {
                if let (Some(requests), Some(results)) = (records_of(req), records_of(value)) {
                    let (records, bytes) = successful_put_metrics(requests, results);
                    metrics.add_put(records, bytes);
                }
            }
        },
    }
}

/// Settles an operation that has been run: counts what it has stored or returned where it
/// succeeded, and nothing where it was refused, and says whether the manifest is to be saved,
/// which it is after a stream was created or deleted.
pub fn settle_request(
    metrics: &mut Metrics,
    operation: Operation,
    req: &Json,
    result: &Result<Reply, ApiError>,
) -> (save: bool)
    requires
        old(metrics).wf(),
    ensures
        final(metrics).wf(),
        final(metrics)@ == (match *result {
            Ok(reply) => counted_reply(old(metrics)@, operation, req@, reply),
            Err(error) => old(metrics)@,
        }),
        save == (*result is Ok && (operation == Operation::CreateStream || operation
            == Operation::DeleteStream)),
{
    match result {
        Ok(reply) => {
            count_reply(metrics, operation, req, reply);
            operation == Operation::CreateStream || operation == Operation::DeleteStream
        },
        Err(_) => false,
    }
}

} // verus!
