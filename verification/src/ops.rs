//! One handler per supported operation.
//!
//! Scope is deliberately what a polling-consumer setup exercises plus the cheap essentials.
//! A put goes in two steps, so that the record can be appended to the write-ahead log in
//! between: it is placed into its shard, and then settled, or taken back where the log failed.
use crate::clock::{now_ms, LAST_MOMENT_MS};
use crate::json::{
    fields_view, items_view, push_field, seconds_json, to_array, to_object, Json, JsonV,
};
use crate::params::{
    name_error, optional_number, optional_u128, require_str, required, resolve_stream_name, shows,
    shows_json, target_stream, valid_name, validate_stream_name,
};
use crate::protocol::{
    argument_error, error_of, decode_data, decoded_data, internal_error, not_found_error,
    validation_error, ApiError, ErrV,
};
pub use crate::records::get_records;
use crate::store::{
    created, iterator_fits, new_iterator, popped, put_at_hash, put_hash, Store, StoreV,
    ITERATOR_TTL_MS,
};
use crate::streams::{shards_view, Shard, ShardV, Stream, StreamV};
use crate::text::{
    decimal, decimal_text, join, join3, lemma_text_less_transitive, lemma_text_order, less,
    parse_decimal, parse_number, str_eq, text_less,
};
use crate::token::{encode_iterator, iterator_token};
use vstd::prelude::*;
use vstd::string::StringExecFns;
use vstd::utf8::encode_utf8;

verus! {

/// 1 MiB, the limit on the decoded payload of a record.
pub const MAX_RECORD_BYTES: usize = 1_048_576;

pub const MAX_PUT_RECORDS_COUNT: usize = 500;

/// A sanity cap on the number of shards.
pub const MAX_SHARD_COUNT: u64 = 10_000;

/// 5 MiB, data and partition keys of one request together.
pub const MAX_PUT_RECORDS_AGGREGATE_BYTES: usize = 5_242_880;

pub open spec fn stream_not_found(name: Seq<char>) -> ErrV {
    not_found_error("Stream "@ + name + " not found"@)
}

fn no_such_stream(name: &str) -> (r: ApiError)
    ensures
        r@ == stream_not_found(name@),
{
    ApiError::not_found(join3("Stream ", name, " not found"))
}

pub open spec fn empty_json() -> JsonV {
    JsonV::Object(Seq::empty())
}

fn empty_object() -> (r: Json)
    ensures
        r@ == empty_json(),
{
    let fields: Vec<(String, Json)> = Vec::new();
    assert(fields_view(fields@) =~= Seq::empty());
    to_object(fields)
}

// ---- creating and deleting streams -------------------------------------------

/// How many shards a request asks for.
pub open spec fn requested_shards(req: JsonV) -> Result<u32, ErrV> {
    match req.get("ShardCount"@) {
        None => Ok(1),
        Some(value) => match value.as_u64() {
            Some(count) => if 1 <= count <= MAX_SHARD_COUNT {
                Ok(count as u32)
            } else {
                Err(validation_error("ShardCount must be an integer between 1 and 10000"@))
            },
            None => Err(validation_error("ShardCount must be an integer between 1 and 10000"@)),
        },
    }
}

fn parse_shard_count(req: &Json) -> (r: Result<u32, ApiError>)
    ensures
        shows(r, requested_shards(req@)),
{
    match req.get("ShardCount") {
        None => Ok(1),
        Some(value) => match value.as_u64() {
            Some(count) if 1 <= count && count <= MAX_SHARD_COUNT => Ok(count as u32),
            _ => Err(
                ApiError::validation(
                    String::from_str("ShardCount must be an integer between 1 and 10000"),
                ),
            ),
        },
    }
}

/// The retention that a request asks for, in seconds.
pub open spec fn requested_retention(req: JsonV) -> Result<Option<u64>, ErrV> {
    match req.get("RetentionPeriodHours"@) {
        None => Ok(None),
        Some(value) => match value.as_u64() {
            None => Err(
                validation_error("RetentionPeriodHours must be a non-negative integer"@),
            ),
            Some(hours) => if hours * 3600 <= u64::MAX {
                Ok(Some((hours * 3600) as u64))
            } else {
                Err(validation_error("RetentionPeriodHours is too large to represent"@))
            },
        },
    }
}

fn parse_retention(req: &Json) -> (r: Result<Option<u64>, ApiError>)
    ensures
        shows(r, requested_retention(req@)),
{
    match req.get("RetentionPeriodHours") {
        None => Ok(None),
        Some(value) => match value.as_u64() {
            None => Err(
                ApiError::validation(
                    String::from_str("RetentionPeriodHours must be a non-negative integer"),
                ),
            ),
            Some(hours) => match hours.checked_mul(3600) {
                Some(secs) => Ok(Some(secs)),
                None => Err(
                    ApiError::validation(
                        String::from_str("RetentionPeriodHours is too large to represent"),
                    ),
                ),
            },
        },
    }
}

/// The stream that a request asks to create: its name, shard count and retention.
pub open spec fn create_request(req: JsonV) -> Result<(Seq<char>, u32, Option<u64>), ErrV> {
    match required(req, "StreamName"@) {
        Err(error) => Err(error),
        Ok(name) => if !valid_name(name) {
            Err(name_error(name))
        } else {
            match requested_shards(req) {
                Err(error) => Err(error),
                Ok(count) => match requested_retention(req) {
                    Err(error) => Err(error),
                    Ok(retention) => Ok((name, count, retention)),
                },
            }
        },
    }
}

/// The state and the answer after a request to create a stream.
pub open spec fn create_outcome(store: StoreV, req: JsonV, now: u128) -> (
    StoreV,
    Result<JsonV, ErrV>,
) {
    match create_request(req) {
        Err(error) => (store, Err(error)),
        Ok((name, count, retention)) => if store.streams.contains_key(name) {
            (
                store,
                Err(error_of("ResourceInUseException"@, "Stream "@ + name + " already exists"@)),
            )
        } else {
            (created(store, name, count, retention, now), Ok(empty_json()))
        },
    }
}

/// CreateStream.
pub fn create_stream(store: &mut Store, req: &Json) -> (r: Result<Json, ApiError>)
    requires
        old(store).wf(),
    ensures
        final(store).wf(),
        exists|now: u128| now <= LAST_MOMENT_MS && {
            let outcome = #[trigger] create_outcome(old(store)@, req@, now);
            final(store)@ == outcome.0 && shows_json(r, outcome.1)
        },
{
    let now: u128 = now_ms();
    create_stream_at(store, req, now)
}

/// CreateStream at a given time.
pub fn create_stream_at(store: &mut Store, req: &Json, now: u128) -> (r: Result<Json, ApiError>)
    requires
        old(store).wf(),
    ensures
        final(store).wf(),
        final(store)@ == create_outcome(old(store)@, req@, now).0,
        shows_json(r, create_outcome(old(store)@, req@, now).1),
{
    let name = match require_str(req, "StreamName") {
        Ok(name) => name,
        Err(error) => {
            return Err(error);
        },
    };
    if let Err(error) = validate_stream_name(name) {
        return Err(error);
    }
    let count: u32 = match parse_shard_count(req) {
        Ok(count) => count,
        Err(error) => {
            return Err(error);
        },
    };
    let retention = match parse_retention(req) {
        Ok(retention) => retention,
        Err(error) => {
            return Err(error);
        },
    };
    if !store.create_stream_at(name, count, retention, now) {
        return Err(
            ApiError::new("ResourceInUseException", join3("Stream ", name, " already exists")),
        );
    }
    Ok(empty_object())
}

/// The state and the answer after a request to delete a stream.
pub open spec fn delete_outcome(store: StoreV, req: JsonV) -> (StoreV, Result<JsonV, ErrV>) {
    match target_stream(req) {
        Err(error) => (store, Err(error)),
        Ok(name) => if store.streams.contains_key(name) {
            (
                StoreV {
                    streams: store.streams.remove(name),
                    order: store.order.remove_value(name),
                    ..store
                },
                Ok(empty_json()),
            )
        } else {
            (store, Err(stream_not_found(name)))
        },
    }
}

/// DeleteStream.
pub fn delete_stream(store: &mut Store, req: &Json) -> (r: Result<Json, ApiError>)
    requires
        old(store).wf(),
    ensures
        final(store).wf(),
        final(store)@ == delete_outcome(old(store)@, req@).0,
        shows_json(r, delete_outcome(old(store)@, req@).1),
{
    let name = match resolve_stream_name(req) {
        Ok(name) => name,
        Err(error) => {
            return Err(error);
        },
    };
    if !store.streams.contains_key(name) {
        return Err(no_such_stream(name));
    }
    let _removed = store.streams.remove(name);
    Ok(empty_object())
}

// ---- putting one record ------------------------------------------------------

/// A record that a request asks to put, as a mathematical value.
pub struct PendingV {
    pub partition_key: Seq<char>,
    pub data: Seq<u8>,
    pub explicit_hash_key: Option<u128>,
}

/// A record that a request asks to put.
pub struct Pending {
    pub partition_key: String,
    pub data: Vec<u8>,
    pub explicit_hash_key: Option<u128>,
}

impl View for Pending {
    type V = PendingV;

    open spec fn view(&self) -> PendingV {
        PendingV {
            partition_key: self.partition_key@,
            data: self.data@,
            explicit_hash_key: self.explicit_hash_key,
        }
    }
}

/// The record that a value describes; `too_large` is the message for a payload over 1 MiB.
pub open spec fn record_request(req: JsonV, too_large: Seq<char>) -> Result<PendingV, ErrV> {
    match required(req, "PartitionKey"@) {
        Err(error) => Err(error),
        Ok(partition_key) => match required(req, "Data"@) {
            Err(error) => Err(error),
            Ok(text) => match decoded_data(text) {
                Err(error) => Err(error),
                Ok(data) => if data.len() > MAX_RECORD_BYTES {
                    Err(validation_error(too_large))
                } else {
                    match optional_u128(req, "ExplicitHashKey"@) {
                        Err(error) => Err(error),
                        Ok(explicit_hash_key) => Ok(
                            PendingV { partition_key, data, explicit_hash_key },
                        ),
                    }
                },
            },
        },
    }
}

fn parse_record(req: &Json, too_large: &str) -> (r: Result<Pending, ApiError>)
    ensures
        match r {
            Ok(pending) => record_request(req@, too_large@) == Ok::<PendingV, ErrV>(pending@)
                && pending@.data.len() <= MAX_RECORD_BYTES,
            Err(error) => record_request(req@, too_large@) == Err::<PendingV, ErrV>(error@),
        },
{
    let partition_key = match require_str(req, "PartitionKey") {
        Ok(text) => String::from_str(text),
        Err(error) => {
            return Err(error);
        },
    };
    let text = match require_str(req, "Data") {
        Ok(text) => text,
        Err(error) => {
            return Err(error);
        },
    };
    let data = match decode_data(text) {
        Ok(data) => data,
        Err(error) => {
            return Err(error);
        },
    };
    if data.len() > MAX_RECORD_BYTES {
        return Err(ApiError::validation(String::from_str(too_large)));
    }
    match optional_number(req, "ExplicitHashKey") {
        Ok(explicit_hash_key) => Ok(Pending { partition_key, data, explicit_hash_key }),
        Err(error) => Err(error),
    }
}

/// The stream and the record that a PutRecord request names.
pub open spec fn put_request(req: JsonV) -> Result<(Seq<char>, PendingV), ErrV> {
    match target_stream(req) {
        Err(error) => Err(error),
        Ok(name) => match record_request(
            req,
            "1 validation error detected: Value at 'data' failed to satisfy constraint: Member must have length less than or equal to 1048576"@,
        ) {
            Err(error) => Err(error),
            Ok(pending) => Ok((name, pending)),
        },
    }
}

/// A record that was placed into a shard, as a mathematical value.
pub struct PlacedV {
    pub stream: Seq<char>,
    pub shard_id: Seq<char>,
    pub seq: u64,
}

/// A record that was placed into a shard and is yet to be settled.
pub struct Placed {
    pub stream: String,
    pub shard_id: String,
    pub seq: u64,
}

impl View for Placed {
    type V = PlacedV;

    open spec fn view(&self) -> PlacedV {
        PlacedV { stream: self.stream@, shard_id: self.shard_id@, seq: self.seq }
    }
}

/// The answer for a record that is stored.
pub open spec fn placed_json(shard_id: Seq<char>, seq: u64) -> JsonV {
    JsonV::Object(
        seq![
            ("SequenceNumber"@, JsonV::Text(decimal(seq as nat))),
            ("ShardId"@, JsonV::Text(shard_id)),
        ],
    )
}

fn placed_object(placed: &Placed) -> (r: Json)
    ensures
        r@ == placed_json(placed@.shard_id, placed.seq),
{
    let mut fields: Vec<(String, Json)> = Vec::new();
    push_field(&mut fields, "SequenceNumber", Json::Text(decimal_text(placed.seq as u128)));
    push_field(&mut fields, "ShardId", Json::text(placed.shard_id.as_str()));
    assert(fields_view(fields@) =~= placed_json(placed@.shard_id, placed.seq)->Object_0);
    to_object(fields)
}

/// The state after a record was put into a stream, and where it went.
pub open spec fn place_outcome(store: StoreV, name: Seq<char>, pending: PendingV, now: u128) -> (
    StoreV,
    Option<(Seq<char>, u64)>,
) {
    put_at_hash(
        store,
        name,
        pending.partition_key,
        pending.data,
        put_hash(pending.partition_key, pending.explicit_hash_key),
        now,
    )
}

/// The state and the answer after the first step of a PutRecord request.
pub open spec fn begin_outcome(store: StoreV, req: JsonV, now: u128) -> (
    StoreV,
    Result<PlacedV, ErrV>,
) {
    match put_request(req) {
        Err(error) => (store, Err(error)),
        Ok((name, pending)) => {
            let (after, answer) = place_outcome(store, name, pending, now);
            match answer {
                None => (after, Err(stream_not_found(name))),
                Some((shard_id, seq)) => (after, Ok(PlacedV { stream: name, shard_id, seq })),
            }
        },
    }
}

pub open spec fn shows_placed(r: Result<Placed, ApiError>, expected: Result<PlacedV, ErrV>) -> bool {
    match r {
        Ok(placed) => expected == Ok::<PlacedV, ErrV>(placed@),
        Err(error) => expected == Err::<PlacedV, ErrV>(error@),
    }
}

fn place(store: &mut Store, name: &str, pending: Pending, now: u128) -> (r: Option<Placed>)
    requires
        old(store).wf(),
        old(store)@.counter < u64::MAX,
    ensures
        final(store).wf(),
        final(store)@ == place_outcome(old(store)@, name@, pending@, now).0,
        match r {
            Some(placed) => placed@.stream == name@ && place_outcome(
                old(store)@,
                name@,
                pending@,
                now,
            ).1 == Some((placed@.shard_id, placed@.seq)),
            None => place_outcome(old(store)@, name@, pending@, now).1 is None,
        },
{
    match store.put_at(
        name,
        pending.partition_key,
        pending.data,
        pending.explicit_hash_key,
        now,
    ) {
        Some((shard_id, seq)) => Some(Placed { stream: String::from_str(name), shard_id, seq }),
        None => None,
    }
}

/// The first step of PutRecord: checks the request and places the record.
pub fn begin_put_record(store: &mut Store, req: &Json, now: u128) -> (r: Result<Placed, ApiError>)
    requires
        old(store).wf(),
        old(store)@.counter < u64::MAX,
    ensures
        final(store).wf(),
        final(store)@ == begin_outcome(old(store)@, req@, now).0,
        shows_placed(r, begin_outcome(old(store)@, req@, now).1),
{
    let name = match resolve_stream_name(req) {
        Ok(name) => name,
        Err(error) => {
            return Err(error);
        },
    };
    let pending = match parse_record(
        req,
        "1 validation error detected: Value at 'data' failed to satisfy constraint: Member must have length less than or equal to 1048576",
    ) {
        Ok(pending) => pending,
        Err(error) => {
            return Err(error);
        },
    };
    match place(store, name, pending, now) {
        Some(placed) => Ok(placed),
        None => Err(no_such_stream(name)),
    }
}

/// The state after a placed record was settled: taken back where it could not be logged.
pub open spec fn settled(store: StoreV, placed: PlacedV, logged: bool) -> StoreV {
    if logged {
        store
    } else {
        match popped(store, placed.stream, placed.shard_id, placed.seq) {
            Some(after) => after,
            None => store,
        }
    }
}

/// The answer to a PutRecord request whose record was placed.
pub open spec fn settled_answer(placed: PlacedV, logged: bool) -> Result<JsonV, ErrV> {
    if logged {
        Ok(placed_json(placed.shard_id, placed.seq))
    } else {
        Err(internal_error("Record could not be durably persisted"@))
    }
}

/// The second step of PutRecord. A record that was not durably logged is rolled back, so that
/// no sequence number is acknowledged that vanishes on restart.
pub fn end_put_record(store: &mut Store, placed: Placed, logged: bool) -> (r: Result<
    Json,
    ApiError,
>)
    requires
        old(store).wf(),
    ensures
        final(store).wf(),
        final(store)@ == settled(old(store)@, placed@, logged),
        shows_json(r, settled_answer(placed@, logged)),
{
    if logged {
        Ok(placed_object(&placed))
    } else {
        let _popped = store.pop_record(
            placed.stream.as_str(),
            placed.shard_id.as_str(),
            placed.seq,
        );
        Err(ApiError::internal(String::from_str("Record could not be durably persisted")))
    }
}

/// The answer to a PutRecord request without a log.
pub open spec fn put_outcome(store: StoreV, req: JsonV, now: u128) -> (
    StoreV,
    Result<JsonV, ErrV>,
) {
    let (after, answer) = begin_outcome(store, req, now);
    match answer {
        Err(error) => (after, Err(error)),
        Ok(placed) => (after, Ok(placed_json(placed.shard_id, placed.seq))),
    }
}

/// PutRecord without a write-ahead log.
pub fn put_record(store: &mut Store, req: &Json) -> (r: Result<Json, ApiError>)
    requires
        old(store).wf(),
        old(store)@.counter < u64::MAX,
    ensures
        final(store).wf(),
        exists|now: u128| now <= LAST_MOMENT_MS && {
            let outcome = #[trigger] put_outcome(old(store)@, req@, now);
            final(store)@ == outcome.0 && shows_json(r, outcome.1)
        },
{
    let now: u128 = now_ms();
    put_record_at(store, req, now)
}

/// PutRecord without a write-ahead log, at a given time.
pub fn put_record_at(store: &mut Store, req: &Json, now: u128) -> (r: Result<Json, ApiError>)
    requires
        old(store).wf(),
        old(store)@.counter < u64::MAX,
    ensures
        final(store).wf(),
        final(store)@ == put_outcome(old(store)@, req@, now).0,
        shows_json(r, put_outcome(old(store)@, req@, now).1),
{
    match begin_put_record(store, req, now) {
        Ok(placed) => end_put_record(store, placed, true),
        Err(error) => Err(error),
    }
}

// ---- putting many records ----------------------------------------------------

/// The message for the `i`-th record of a batch whose payload is too large.
pub open spec fn member_too_large(i: nat) -> Seq<char> {
    "1 validation error detected: Value at 'records."@ + decimal(i)
        + ".member.data' failed to satisfy constraint: Member must have length less than or equal to 1048576"@
}

/// The first `n` records of a batch, or the error of the first of them that has one.
pub open spec fn batch_members(records: Seq<JsonV>, n: nat) -> Result<Seq<PendingV>, ErrV>
    decreases n,
{
    if n == 0 {
        Ok(Seq::empty())
    } else {
        match batch_members(records, (n - 1) as nat) {
            Err(error) => Err(error),
            Ok(before) => match record_request(
                records[n - 1],
                member_too_large((n - 1) as nat),
            ) {
                Err(error) => Err(error),
                Ok(pending) => Ok(before.push(pending)),
            },
        }
    }
}

/// The bytes of the payloads and the partition keys of the first `n` records together.
pub open spec fn aggregate_bytes(pending: Seq<PendingV>, n: nat) -> nat
    decreases n,
{
    if n == 0 {
        0
    } else {
        aggregate_bytes(pending, (n - 1) as nat) + pending[n - 1].data.len() + encode_utf8(
            pending[n - 1].partition_key,
        ).len()
    }
}

/// The stream and the records that a PutRecords request names.
pub open spec fn batch_request(store: StoreV, req: JsonV) -> Result<
    (Seq<char>, Seq<PendingV>),
    ErrV,
> {
    match target_stream(req) {
        Err(error) => Err(error),
        Ok(name) => if !store.streams.contains_key(name) {
            Err(stream_not_found(name))
        } else {
            match requested_records(req) {
                None => Err(validation_error("Missing required parameter: Records"@)),
                Some(records) => if records.len() > MAX_PUT_RECORDS_COUNT {
                    Err(
                        validation_error(
                            "1 validation error detected: Value at 'records' failed to satisfy constraint: Member must have length less than or equal to 500"@,
                        ),
                    )
                } else {
                    match batch_members(records, records.len()) {
                        Err(error) => Err(error),
                        Ok(pending) => if aggregate_bytes(pending, pending.len())
                            > MAX_PUT_RECORDS_AGGREGATE_BYTES {
                            Err(
                                validation_error(
                                    "Records size exceeds the maximum allowed of 5 MiB for the entire request"@,
                                ),
                            )
                        } else {
                            Ok((name, pending))
                        },
                    }
                },
            }
        },
    }
}

/// The array under `Records`.
pub open spec fn requested_records(req: JsonV) -> Option<Seq<JsonV>> {
    match req.get("Records"@) {
        Some(value) => value.as_array(),
        None => None,
    }
}

/// A batch in the course of being stored, as a mathematical value.
pub struct BatchV {
    pub stream: Seq<char>,
    pub pending: Seq<PendingV>,
    pub results: Seq<JsonV>,
    pub failed: u64,
}

/// A batch in the course of being stored: the records that are yet to be placed, the results
/// of those that are settled, and how many of these failed.
pub struct Batch {
    pub stream: String,
    pub pending: Vec<Pending>,
    pub results: Vec<Json>,
    pub failed: u64,
}

pub open spec fn pending_view(pending: Seq<Pending>) -> Seq<PendingV> {
    pending.map_values(|item: Pending| item@)
}

impl View for Batch {
    type V = BatchV;

    open spec fn view(&self) -> BatchV {
        BatchV {
            stream: self.stream@,
            pending: pending_view(self.pending@),
            results: items_view(self.results@),
            failed: self.failed,
        }
    }
}

impl BatchV {
    /// A batch is never larger than a request may be, and no more records failed than were
    /// settled.
    pub open spec fn wf(self) -> bool {
        &&& self.results.len() + self.pending.len() <= MAX_PUT_RECORDS_COUNT
        &&& self.failed <= self.results.len()
    }
}

/// The result for a record that could not be logged.
pub open spec fn failed_json() -> JsonV {
    JsonV::Object(
        seq![
            ("ErrorCode"@, JsonV::Text("InternalFailure"@)),
            ("ErrorMessage"@, JsonV::Text("Record could not be durably persisted"@)),
        ],
    )
}

/// The answer to a PutRecords request.
pub open spec fn batch_json(failed: u64, results: Seq<JsonV>) -> JsonV {
    JsonV::Object(
        seq![
            ("FailedRecordCount"@, JsonV::number(failed)),
            ("Records"@, JsonV::Array(results)),
        ],
    )
}

/// The batch after a placed record was settled.
pub open spec fn batch_settled(batch: BatchV, placed: PlacedV, logged: bool) -> BatchV {
    if logged {
        BatchV { results: batch.results.push(placed_json(placed.shard_id, placed.seq)), ..batch }
    } else {
        BatchV {
            results: batch.results.push(failed_json()),
            failed: (batch.failed + 1) as u64,
            ..batch
        }
    }
}

fn failed_object() -> (r: Json)
    ensures
        r@ == failed_json(),
{
    let mut fields: Vec<(String, Json)> = Vec::new();
    push_field(&mut fields, "ErrorCode", Json::text("InternalFailure"));
    push_field(&mut fields, "ErrorMessage", Json::text("Record could not be durably persisted"));
    assert(fields_view(fields@) =~= failed_json()->Object_0);
    to_object(fields)
}

fn member_message(i: usize) -> (r: String)
    ensures
        r@ == member_too_large(i as nat),
{
    let digits = decimal_text(i as u128);
    join3(
        "1 validation error detected: Value at 'records.",
        digits.as_str(),
        ".member.data' failed to satisfy constraint: Member must have length less than or equal to 1048576",
    )
}

proof fn lemma_members_error(records: Seq<JsonV>, n: nat, m: nat)
    requires
        n <= m,
        batch_members(records, n) is Err,
    ensures
        batch_members(records, m) == batch_members(records, n),
    decreases m,
{
    if n < m {
        lemma_members_error(records, n, (m - 1) as nat);
    }
}

proof fn lemma_aggregate_push(pending: Seq<PendingV>, last: PendingV, n: nat)
    requires
        n <= pending.len(),
    ensures
        aggregate_bytes(pending.push(last), n) == aggregate_bytes(pending, n),
    decreases n,
{
    if n > 0 {
        lemma_aggregate_push(pending, last, (n - 1) as nat);
    }
}

/// The first step of PutRecords: decodes and checks the whole request before anything is
/// stored, so that a request is refused as a whole or not at all.
pub fn begin_put_records(store: &Store, req: &Json) -> (r: Result<Batch, ApiError>)
    requires
        store.wf(),
    ensures
        match r {
            Ok(batch) => {
                &&& batch_request(store@, req@) == Ok::<(Seq<char>, Seq<PendingV>), ErrV>(
                    (batch@.stream, batch@.pending),
                )
                &&& batch@.results == Seq::<JsonV>::empty()
                &&& batch@.failed == 0
                &&& batch@.wf()
            },
            Err(error) => batch_request(store@, req@) == Err::<(Seq<char>, Seq<PendingV>), ErrV>(
                error@,
            ),
        },
{
    let name = match resolve_stream_name(req) {
        Ok(name) => name,
        Err(error) => {
            return Err(error);
        },
    };
    if !store.streams.contains_key(name) {
        return Err(no_such_stream(name));
    }
    let found = match req.get("Records") {
        Some(value) => value.as_array(),
        None => None,
    };
    let records = match found {
        Some(records) => records,
        None => {
            return Err(
                ApiError::validation(String::from_str("Missing required parameter: Records")),
            );
        },
    };
    let ghost shown = items_view(records@);
    if records.len() > MAX_PUT_RECORDS_COUNT {
        return Err(
            ApiError::validation(
                String::from_str(
                    "1 validation error detected: Value at 'records' failed to satisfy constraint: Member must have length less than or equal to 500",
                ),
            ),
        );
    }
    let mut pending: Vec<Pending> = Vec::with_capacity(records.len());
    let mut aggregate: usize = 0;
    let mut i: usize = 0;
    assert(pending_view(pending@) =~= Seq::empty());
    while i < records.len()
        invariant
            i <= records@.len(),
            records@.len() <= MAX_PUT_RECORDS_COUNT,
            store.wf(),
            shown == items_view(records@),
            requested_records(req@) == Some(shown),
            target_stream(req@) == Ok::<Seq<char>, ErrV>(name@),
            store@.streams.contains_key(name@),
            pending@.len() == i,
            batch_members(shown, i as nat) == Ok::<Seq<PendingV>, ErrV>(pending_view(pending@)),
            aggregate == usize::MAX && aggregate <= aggregate_bytes(
                pending_view(pending@),
                i as nat,
            ) || aggregate == aggregate_bytes(pending_view(pending@), i as nat),
        decreases records@.len() - i,
    {
        let message = member_message(i);
        let record = &records[i];
        assert(shown[i as int] == record@);
        let item = match parse_record(record, message.as_str()) {
            Ok(item) => item,
            Err(error) => {
                proof {
                    lemma_members_error(shown, (i + 1) as nat, shown.len());
                }
                return Err(error);
            },
        };
        let ghost before = pending_view(pending@);
        let size: usize = item.data.len().saturating_add(
            item.partition_key.as_str().as_bytes().len(),
        );
        aggregate = aggregate.saturating_add(size);
        proof {
            lemma_aggregate_push(before, item@, i as nat);
        }
        pending.push(item);
        i = i + 1;
        assert(pending_view(pending@) =~= before.push(item@));
    }
    if aggregate > MAX_PUT_RECORDS_AGGREGATE_BYTES {
        return Err(
            ApiError::validation(
                String::from_str(
                    "Records size exceeds the maximum allowed of 5 MiB for the entire request",
                ),
            ),
        );
    }
    let batch = Batch {
        stream: String::from_str(name),
        pending,
        results: Vec::new(),
        failed: 0,
    };
    assert(batch@.results =~= Seq::<JsonV>::empty());
    Ok(batch)
}

impl Batch {
    /// Places the next record of the batch; `None` where all are placed. The stream was there
    /// when the batch began; should it be gone meanwhile, the error says so.
    pub fn place_next(&mut self, store: &mut Store, now: u128) -> (r: Result<
        Option<Placed>,
        ApiError,
    >)
        requires
            old(store).wf(),
            old(self)@.wf(),
            old(self)@.pending.len() > 0 ==> old(store)@.counter < u64::MAX,
        ensures
            final(store).wf(),
            final(self)@.wf(),
            if old(self)@.pending.len() == 0 {
                &&& r is Ok && r->Ok_0 is None
                &&& final(store)@ == old(store)@
                &&& final(self)@ == old(self)@
            } else {
                let (after, answer) = place_outcome(
                    old(store)@,
                    old(self)@.stream,
                    old(self)@.pending[0],
                    now,
                );
                &&& final(store)@ == after
                &&& final(self)@ == (BatchV {
                    pending: old(self)@.pending.drop_first(),
                    ..old(self)@
                })
                &&& final(self)@.results.len() < MAX_PUT_RECORDS_COUNT
                &&& match answer {
                    Some((shard_id, seq)) => r is Ok && r->Ok_0 is Some && (r->Ok_0->0)@ == (
                    PlacedV { stream: old(self)@.stream, shard_id, seq }),
                    None => r is Err && r->Err_0@ == stream_not_found(old(self)@.stream),
                }
            },
    {
        if self.pending.len() == 0 {
            return Ok(None);
        }
        let ghost before = self@;
        assert(before.pending[0] == self.pending@[0]@);
        let item = self.pending.remove(0);
        assert(self@.pending =~= before.pending.drop_first());
        match place(store, self.stream.as_str(), item, now) {
            Some(placed) => Ok(Some(placed)),
            None => Err(no_such_stream(self.stream.as_str())),
        }
    }

    /// Settles a placed record. One that could not be logged is rolled back and reported as
    /// failed, so that the client can retry it.
    pub fn settle(&mut self, store: &mut Store, placed: Placed, logged: bool)
        requires
            old(store).wf(),
            old(self)@.wf(),
            old(self)@.results.len() + old(self)@.pending.len() < MAX_PUT_RECORDS_COUNT,
        ensures
            final(store).wf(),
            final(self)@.wf(),
            final(store)@ == settled(old(store)@, placed@, logged),
            final(self)@ == batch_settled(old(self)@, placed@, logged),
    {
        let ghost before = self@;
        if logged {
            self.results.push(placed_object(&placed));
        } else {
            let _popped = store.pop_record(
                placed.stream.as_str(),
                placed.shard_id.as_str(),
                placed.seq,
            );
            self.failed = self.failed + 1;
            self.results.push(failed_object());
        }
        assert(self@.results =~= batch_settled(before, placed@, logged).results);
    }

    /// The answer to the request.
    pub fn finish(self) -> (r: Json)
        ensures
            r@ == batch_json(self@.failed, self@.results),
    {
        let mut fields: Vec<(String, Json)> = Vec::new();
        push_field(&mut fields, "FailedRecordCount", Json::number(self.failed));
        push_field(&mut fields, "Records", to_array(self.results));
        assert(fields_view(fields@) =~= batch_json(self@.failed, self@.results)->Object_0);
        to_object(fields)
    }
}

/// The state and the results after the first `n` records of a batch were stored, each at its
/// time; no results where one of them found no shard.
pub open spec fn batch_stored(
    store: StoreV,
    name: Seq<char>,
    pending: Seq<PendingV>,
    times: Seq<u128>,
    n: nat,
) -> (StoreV, Option<Seq<JsonV>>)
    decreases n,
{
    if n == 0 {
        (store, Some(Seq::empty()))
    } else {
        let (before, results) = batch_stored(store, name, pending, times, (n - 1) as nat);
        match results {
            None => (before, None),
            Some(results) => {
                let (after, answer) = place_outcome(before, name, pending[n - 1], times[n - 1]);
                match answer {
                    None => (after, None),
                    Some((shard_id, seq)) => (
                        after,
                        Some(results.push(placed_json(shard_id, seq))),
                    ),
                }
            },
        }
    }
}

/// The state and the answer after a PutRecords request without a log, where the `i`-th record
/// is stored at `times[i]`.
pub open spec fn batch_outcome(store: StoreV, req: JsonV, times: Seq<u128>) -> (
    StoreV,
    Result<JsonV, ErrV>,
) {
    match batch_request(store, req) {
        Err(error) => (store, Err(error)),
        Ok((name, pending)) => {
            let (after, results) = batch_stored(store, name, pending, times, pending.len());
            match results {
                Some(results) => (after, Ok(batch_json(0, results))),
                None => (after, Err(stream_not_found(name))),
            }
        },
    }
}

/// How many records a request holds.
pub open spec fn batch_size(req: JsonV) -> nat {
    match requested_records(req) {
        Some(records) => records.len(),
        None => 0,
    }
}

proof fn lemma_members_len(records: Seq<JsonV>, n: nat)
    ensures
        batch_members(records, n) is Ok ==> batch_members(records, n)->Ok_0.len() == n,
    decreases n,
{
    if n > 0 {
        lemma_members_len(records, (n - 1) as nat);
    }
}

proof fn lemma_stored_none(
    store: StoreV,
    name: Seq<char>,
    pending: Seq<PendingV>,
    times: Seq<u128>,
    n: nat,
    m: nat,
)
    requires
        n <= m,
        batch_stored(store, name, pending, times, n).1 is None,
    ensures
        batch_stored(store, name, pending, times, m) == batch_stored(
            store,
            name,
            pending,
            times,
            n,
        ),
    decreases m,
{
    if n < m {
        lemma_stored_none(store, name, pending, times, n, (m - 1) as nat);
    }
}

proof fn lemma_stored_times(
    store: StoreV,
    name: Seq<char>,
    pending: Seq<PendingV>,
    a: Seq<u128>,
    b: Seq<u128>,
    n: nat,
)
    requires
        forall|i: int| 0 <= i < n ==> a[i] == b[i],
    ensures
        batch_stored(store, name, pending, a, n) == batch_stored(store, name, pending, b, n),
    decreases n,
{
    if n > 0 {
        lemma_stored_times(store, name, pending, a, b, (n - 1) as nat);
    }
}

/// PutRecords without a write-ahead log.
pub fn put_records(store: &mut Store, req: &Json) -> (r: Result<Json, ApiError>)
    requires
        old(store).wf(),
        old(store)@.counter + batch_size(req@) <= u64::MAX,
    ensures
        final(store).wf(),
        exists|times: Seq<u128>|
            {
                let outcome = #[trigger] batch_outcome(old(store)@, req@, times);
                &&& forall|i: int| 0 <= i < times.len() ==> #[trigger] times[i] <= LAST_MOMENT_MS
                &&& final(store)@ == outcome.0
                &&& shows_json(r, outcome.1)
            },
{
    let ghost before = store@;
    let ghost mut times: Seq<u128> = Seq::empty();
    let mut batch = match begin_put_records(store, req) {
        Ok(batch) => batch,
        Err(error) => {
            assert(shows_json(Err::<Json, ApiError>(error), batch_outcome(before, req@, times).1));
            return Err(error);
        },
    };
    let ghost name = batch@.stream;
    let ghost all = batch@.pending;
    proof {
        let records = requested_records(req@)->0;
        lemma_members_len(records, records.len());
    }
    assert(all.skip(0) =~= all);
    while batch.pending.len() > 0
        invariant
            before == old(store)@,
            store.wf(),
            batch@.wf(),
            batch@.stream == name,
            batch@.failed == 0,
            batch_request(before, req@) == Ok::<(Seq<char>, Seq<PendingV>), ErrV>((name, all)),
            all.len() == batch_size(req@),
            before.counter + all.len() <= u64::MAX,
            batch@.results.len() == times.len(),
            times.len() + batch@.pending.len() == all.len(),
            batch@.pending == all.skip(times.len() as int),
            forall|i: int| 0 <= i < times.len() ==> #[trigger] times[i] <= LAST_MOMENT_MS,
            batch_stored(before, name, all, times, times.len()) == (
                store@,
                Some(batch@.results),
            ),
            store@.counter == before.counter + times.len(),
        decreases batch@.pending.len(),
    {
        let now: u128 = now_ms();
        let ghost n = times.len();
        let ghost state = store@;
        proof {
            lemma_stored_times(before, name, all, times, times.push(now), n);
            times = times.push(now);
        }
        assert(all.skip(n as int)[0] == all[n as int]);
        assert(all.skip(n as int).drop_first() =~= all.skip(n as int + 1));
        let placed = match batch.place_next(store, now) {
            Ok(Some(placed)) => placed,
            Ok(None) => {
                assert(false);
                return Ok(batch.finish());
            },
            Err(error) => {
                proof {
                    lemma_stored_none(before, name, all, times, (n + 1) as nat, all.len());
                    let outcome = batch_outcome(before, req@, times);
                    assert(outcome == (store@, Err::<JsonV, ErrV>(error@)));
                }
                return Err(error);
            },
        };
        batch.settle(store, placed, true);
    }
    proof {
        assert(times.len() == all.len());
        assert(batch_outcome(before, req@, times) == (
            store@,
            Ok::<JsonV, ErrV>(batch_json(0, batch@.results)),
        ));
    }
    Ok(batch.finish())
}

// ---- read operations ---------------------------------------------------------

/// The stream that a request names.
pub open spec fn described(store: StoreV, req: JsonV) -> Result<StreamV, ErrV> {
    match target_stream(req) {
        Err(error) => Err(error),
        Ok(name) => if store.streams.contains_key(name) {
            Ok(store.streams[name])
        } else {
            Err(stream_not_found(name))
        },
    }
}

/// Finds the stream that a request names.
fn lookup<'a>(store: &'a Store, req: &Json) -> (r: Result<&'a Stream, ApiError>)
    requires
        store.wf(),
    ensures
        match r {
            Ok(stream) => described(store@, req@) == Ok::<StreamV, ErrV>(stream@),
            Err(error) => described(store@, req@) == Err::<StreamV, ErrV>(error@),
        },
{
    match resolve_stream_name(req) {
        Err(error) => Err(error),
        Ok(name) => match store.streams.get(name) {
            Some(stream) => Ok(stream),
            None => Err(no_such_stream(name)),
        },
    }
}

pub open spec fn hash_range_json(shard: ShardV) -> JsonV {
    JsonV::Object(
        seq![
            ("EndingHashKey"@, JsonV::Text(decimal(shard.hash_end as nat))),
            ("StartingHashKey"@, JsonV::Text(decimal(shard.hash_start as nat))),
        ],
    )
}

fn hash_key_range(shard: &Shard) -> (r: Json)
    ensures
        r@ == hash_range_json(shard@),
{
    let mut fields: Vec<(String, Json)> = Vec::new();
    push_field(&mut fields, "EndingHashKey", Json::Text(decimal_text(shard.hash_end)));
    push_field(&mut fields, "StartingHashKey", Json::Text(decimal_text(shard.hash_start)));
    assert(fields_view(fields@) =~= hash_range_json(shard@)->Object_0);
    to_object(fields)
}

/// A shard in an answer. Its sequence numbers start with its oldest record, or with 0.
pub open spec fn shard_shown(shard: ShardV) -> JsonV {
    let starting = if shard.records.len() > 0 {
        shard.records[0].seq
    } else {
        0
    };
    JsonV::Object(
        seq![
            ("HashKeyRange"@, hash_range_json(shard)),
            (
                "SequenceNumberRange"@,
                JsonV::Object(
                    seq![("StartingSequenceNumber"@, JsonV::Text(decimal(starting as nat)))],
                ),
            ),
            ("ShardId"@, JsonV::Text(shard.id)),
        ],
    )
}

fn shard_json(shard: &Shard) -> (r: Json)
    ensures
        r@ == shard_shown(shard@),
{
    let starting: u64 = if shard.records.len() > 0 {
        shard.records[0].seq
    } else {
        0
    };
    assert(shard.records@.len() > 0 ==> shard@.records[0] == shard.records@[0]@);
    let mut range: Vec<(String, Json)> = Vec::new();
    push_field(&mut range, "StartingSequenceNumber", Json::Text(decimal_text(starting as u128)));
    assert(fields_view(range@) =~= seq![
        ("StartingSequenceNumber"@, JsonV::Text(decimal(starting as nat))),
    ]);
    let mut fields: Vec<(String, Json)> = Vec::new();
    push_field(&mut fields, "HashKeyRange", hash_key_range(shard));
    push_field(&mut fields, "SequenceNumberRange", to_object(range));
    push_field(&mut fields, "ShardId", Json::text(shard.id.as_str()));
    assert(fields_view(fields@) =~= shard_shown(shard@)->Object_0);
    to_object(fields)
}

pub open spec fn shards_shown(shards: Seq<ShardV>) -> JsonV {
    JsonV::Array(shards.map_values(|shard: ShardV| shard_shown(shard)))
}

fn shards_json(shards: &Vec<Shard>) -> (r: Json)
    ensures
        r@ == shards_shown(shards_view(shards@)),
{
    let mut items: Vec<Json> = Vec::with_capacity(shards.len());
    let mut i: usize = 0;
    while i < shards.len()
        invariant
            i <= shards@.len(),
            items@.len() == i,
            forall|k: int| 0 <= k < i ==> (#[trigger] items@[k])@ == shard_shown(shards@[k]@),
        decreases shards@.len() - i,
    {
        items.push(shard_json(&shards[i]));
        i = i + 1;
    }
    assert(items_view(items@) =~= shards_shown(shards_view(shards@))->Array_0);
    to_array(items)
}

pub open spec fn mode_json() -> JsonV {
    JsonV::Object(seq![("StreamMode"@, JsonV::Text("PROVISIONED"@))])
}

fn mode_object() -> (r: Json)
    ensures
        r@ == mode_json(),
{
    let mut fields: Vec<(String, Json)> = Vec::new();
    push_field(&mut fields, "StreamMode", Json::text("PROVISIONED"));
    assert(fields_view(fields@) =~= mode_json()->Object_0);
    to_object(fields)
}

fn empty_array() -> (r: Json)
    ensures
        r@ == JsonV::Array(Seq::empty()),
{
    let items: Vec<Json> = Vec::new();
    assert(items_view(items@) =~= Seq::empty());
    to_array(items)
}

/// The answer to a DescribeStream request.
pub open spec fn description_json(stream: StreamV) -> JsonV {
    JsonV::Object(
        seq![
            (
                "StreamDescription"@,
                JsonV::Object(
                    seq![
                        ("EncryptionType"@, JsonV::Text("NONE"@)),
                        ("EnhancedMonitoring"@, JsonV::Array(Seq::empty())),
                        ("HasMoreShards"@, JsonV::Bool(false)),
                        ("RetentionPeriodHours"@, JsonV::number(stream.retention_secs / 3600)),
                        ("Shards"@, shards_shown(stream.shards)),
                        ("StreamARN"@, JsonV::Text(stream.arn)),
                        ("StreamCreationTimestamp"@, seconds_json(stream.created_ms / 1000)),
                        ("StreamModeDetails"@, mode_json()),
                        ("StreamName"@, JsonV::Text(stream.name)),
                        ("StreamStatus"@, JsonV::Text("ACTIVE"@)),
                    ],
                ),
            ),
        ],
    )
}

pub open spec fn describe_answer(store: StoreV, req: JsonV) -> Result<JsonV, ErrV> {
    match described(store, req) {
        Ok(stream) => Ok(description_json(stream)),
        Err(error) => Err(error),
    }
}

/// DescribeStream.
pub fn describe_stream(store: &Store, req: &Json) -> (r: Result<Json, ApiError>)
    requires
        store.wf(),
    ensures
        shows_json(r, describe_answer(store@, req@)),
{
    let stream = match lookup(store, req) {
        Ok(stream) => stream,
        Err(error) => {
            return Err(error);
        },
    };
    let mut inner: Vec<(String, Json)> = Vec::new();
    push_field(&mut inner, "EncryptionType", Json::text("NONE"));
    push_field(&mut inner, "EnhancedMonitoring", empty_array());
    push_field(&mut inner, "HasMoreShards", Json::Bool(false));
    push_field(&mut inner, "RetentionPeriodHours", Json::number(stream.retention_secs / 3600));
    push_field(&mut inner, "Shards", shards_json(&stream.shards));
    push_field(&mut inner, "StreamARN", Json::text(stream.arn.as_str()));
    push_field(&mut inner, "StreamCreationTimestamp", Json::seconds(stream.created_ms / 1000));
    push_field(&mut inner, "StreamModeDetails", mode_object());
    push_field(&mut inner, "StreamName", Json::text(stream.name.as_str()));
    push_field(&mut inner, "StreamStatus", Json::text("ACTIVE"));
    let ghost expected = description_json(stream@)->Object_0;
    assert(fields_view(inner@) =~= expected[0].1->Object_0);
    let mut fields: Vec<(String, Json)> = Vec::new();
    push_field(&mut fields, "StreamDescription", to_object(inner));
    assert(fields_view(fields@) =~= expected);
    Ok(to_object(fields))
}

/// The answer to a DescribeStreamSummary request.
pub open spec fn summary_json(stream: StreamV) -> JsonV {
    JsonV::Object(
        seq![
            (
                "StreamDescriptionSummary"@,
                JsonV::Object(
                    seq![
                        ("EncryptionType"@, JsonV::Text("NONE"@)),
                        ("EnhancedMonitoring"@, JsonV::Array(Seq::empty())),
                        ("OpenShardCount"@, JsonV::number(stream.shards.len() as u64)),
                        ("RetentionPeriodHours"@, JsonV::number(stream.retention_secs / 3600)),
                        ("StreamARN"@, JsonV::Text(stream.arn)),
                        ("StreamCreationTimestamp"@, seconds_json(stream.created_ms / 1000)),
                        ("StreamModeDetails"@, mode_json()),
                        ("StreamName"@, JsonV::Text(stream.name)),
                        ("StreamStatus"@, JsonV::Text("ACTIVE"@)),
                    ],
                ),
            ),
        ],
    )
}

pub open spec fn summary_answer(store: StoreV, req: JsonV) -> Result<JsonV, ErrV> {
    match described(store, req) {
        Ok(stream) => Ok(summary_json(stream)),
        Err(error) => Err(error),
    }
}

/// DescribeStreamSummary.
pub fn describe_stream_summary(store: &Store, req: &Json) -> (r: Result<Json, ApiError>)
    requires
        store.wf(),
    ensures
        shows_json(r, summary_answer(store@, req@)),
{
    let stream = match lookup(store, req) {
        Ok(stream) => stream,
        Err(error) => {
            return Err(error);
        },
    };
    let mut inner: Vec<(String, Json)> = Vec::new();
    push_field(&mut inner, "EncryptionType", Json::text("NONE"));
    push_field(&mut inner, "EnhancedMonitoring", empty_array());
    push_field(&mut inner, "OpenShardCount", Json::number(stream.shards.len() as u64));
    push_field(&mut inner, "RetentionPeriodHours", Json::number(stream.retention_secs / 3600));
    push_field(&mut inner, "StreamARN", Json::text(stream.arn.as_str()));
    push_field(&mut inner, "StreamCreationTimestamp", Json::seconds(stream.created_ms / 1000));
    push_field(&mut inner, "StreamModeDetails", mode_object());
    push_field(&mut inner, "StreamName", Json::text(stream.name.as_str()));
    push_field(&mut inner, "StreamStatus", Json::text("ACTIVE"));
    let ghost expected = summary_json(stream@)->Object_0;
    assert(fields_view(inner@) =~= expected[0].1->Object_0);
    let mut fields: Vec<(String, Json)> = Vec::new();
    push_field(&mut fields, "StreamDescriptionSummary", to_object(inner));
    assert(fields_view(fields@) =~= expected);
    Ok(to_object(fields))
}

pub open spec fn shards_answer(store: StoreV, req: JsonV) -> Result<JsonV, ErrV> {
    match described(store, req) {
        Ok(stream) => Ok(JsonV::Object(seq![("Shards"@, shards_shown(stream.shards))])),
        Err(error) => Err(error),
    }
}

/// ListShards.
pub fn list_shards(store: &Store, req: &Json) -> (r: Result<Json, ApiError>)
    requires
        store.wf(),
    ensures
        shows_json(r, shards_answer(store@, req@)),
{
    let stream = match lookup(store, req) {
        Ok(stream) => stream,
        Err(error) => {
            return Err(error);
        },
    };
    let mut fields: Vec<(String, Json)> = Vec::new();
    push_field(&mut fields, "Shards", shards_json(&stream.shards));
    assert(fields_view(fields@) =~= seq![("Shards"@, shards_shown(stream@.shards))]);
    Ok(to_object(fields))
}

/// Whether names stand in the order of strings, none of them twice.
pub open spec fn in_order(names: Seq<Seq<char>>) -> bool {
    forall|i: int, j: int|
        0 <= i < j < names.len() ==> text_less(#[trigger] names[i], #[trigger] names[j])
}

/// Whether names are those of all streams, in the order of strings.
pub open spec fn is_listing(store: StoreV, names: Seq<Seq<char>>) -> bool {
    &&& in_order(names)
    &&& forall|name: Seq<char>| #[trigger]
        names.contains(name) == store.streams.contains_key(name)
}

pub open spec fn stream_summary(stream: StreamV) -> JsonV {
    JsonV::Object(
        seq![
            ("StreamARN"@, JsonV::Text(stream.arn)),
            ("StreamName"@, JsonV::Text(stream.name)),
            ("StreamStatus"@, JsonV::Text("ACTIVE"@)),
        ],
    )
}

/// The answer to a ListStreams request.
pub open spec fn listing_json(store: StoreV, names: Seq<Seq<char>>) -> JsonV {
    JsonV::Object(
        seq![
            ("HasMoreStreams"@, JsonV::Bool(false)),
            (
                "StreamNames"@,
                JsonV::Array(names.map_values(|name: Seq<char>| JsonV::Text(name))),
            ),
            (
                "StreamSummaries"@,
                JsonV::Array(
                    names.map_values(|name: Seq<char>| stream_summary(store.streams[name])),
                ),
            ),
        ],
    )
}

pub open spec fn texts(names: Seq<String>) -> Seq<Seq<char>> {
    names.map_values(|name: String| name@)
}

fn summary_object(stream: &Stream) -> (r: Json)
    ensures
        r@ == stream_summary(stream@),
{
    let mut fields: Vec<(String, Json)> = Vec::new();
    push_field(&mut fields, "StreamARN", Json::text(stream.arn.as_str()));
    push_field(&mut fields, "StreamName", Json::text(stream.name.as_str()));
    push_field(&mut fields, "StreamStatus", Json::text("ACTIVE"));
    assert(fields_view(fields@) =~= stream_summary(stream@)->Object_0);
    to_object(fields)
}

/// Puts a name into its place among names in order.
fn insert_name(names: &mut Vec<String>, name: String)
    requires
        in_order(texts(old(names)@)),
        !texts(old(names)@).contains(name@),
    ensures
        in_order(texts(final(names)@)),
        forall|k: Seq<char>| #[trigger]
            texts(final(names)@).contains(k) == (texts(old(names)@).contains(k) || k == name@),
{
    let ghost before = texts(names@);
    let mut at: usize = names.len();
    while at > 0 && less(name.as_str(), names[at - 1].as_str())
        invariant
            at <= names@.len(),
            before == texts(names@),
            forall|k: int| at <= k < before.len() ==> text_less(name@, #[trigger] before[k]),
        decreases at,
    {
        at = at - 1;
    }
    proof {
        if at > 0 {
            let p = at - 1;
            assert(before.contains(before[p]));
            lemma_text_order(name@, before[p]);
            assert forall|k: int| 0 <= k < at implies text_less(#[trigger] before[k], name@) by {
                if k < p {
                    lemma_text_less_transitive(before[k], before[p], name@);
                }
            }
        }
    }
    let ghost shown = name@;
    names.insert(at, name);
    proof {
        let after = texts(names@);
        assert(after =~= before.insert(at as int, shown));
        assert forall|k: Seq<char>| #[trigger] after.contains(k) == (before.contains(k) || k
            == shown) by {
            if after.contains(k) {
                let i = after.index_of(k);
                assert(after[i] == k);
                assert(i < at ==> before[i] == k);
                assert(i > at ==> before[i - 1] == k);
            }
            if before.contains(k) {
                let i = before.index_of(k);
                assert(before[i] == k);
                assert(i < at ==> after[i] == k);
                assert(i >= at ==> after[i + 1] == k);
            }
            assert(after[at as int] == shown);
        }
    }
}

fn sorted_names(store: &Store) -> (r: Vec<String>)
    requires
        store.wf(),
    ensures
        is_listing(store@, texts(r@)),
{
    let mut names: Vec<String> = Vec::with_capacity(store.streams.len());
    let mut i: usize = 0;
    let count: usize = store.streams.len();
    while i < count
        invariant
            i <= count,
            count == store@.order.len(),
            store.wf(),
            in_order(texts(names@)),
            forall|k: Seq<char>| #[trigger]
                texts(names@).contains(k) == store@.order.take(i as int).contains(k),
        decreases count - i,
    {
        let name = store.streams.name_at(i).clone();
        let ghost here = store@.order.take(i as int);
        let ghost next = store@.order.take(i + 1);
        proof {
            assert(next =~= here.push(name@));
            if here.contains(name@) {
                let j = here.index_of(name@);
                assert(store@.order[j] == store@.order[i as int]);
            }
        }
        insert_name(&mut names, name);
        proof {
            assert forall|k: Seq<char>| #[trigger] texts(names@).contains(k) == next.contains(
                k,
            ) by {
                if next.contains(k) {
                    let j = next.index_of(k);
                    assert(j < i ==> here[j] == k);
                }
                if here.contains(k) {
                    let j = here.index_of(k);
                    assert(next[j] == k);
                }
                assert(next[i as int] == name@);
            }
        }
        i = i + 1;
    }
    assert(store@.order.take(count as int) =~= store@.order);
    names
}

/// ListStreams: all streams, in the order of their names.
pub fn list_streams(store: &Store, _req: &Json) -> (r: Result<Json, ApiError>)
    requires
        store.wf(),
    ensures
        r is Ok,
        exists|names: Seq<Seq<char>>|
            is_listing(store@, names) && r->Ok_0@ == #[trigger] listing_json(store@, names),
{
    let names = sorted_names(store);
    let ghost shown = texts(names@);
    let mut listed: Vec<Json> = Vec::with_capacity(names.len());
    let mut summaries: Vec<Json> = Vec::with_capacity(names.len());
    let mut i: usize = 0;
    while i < names.len()
        invariant
            i <= names@.len(),
            store.wf(),
            shown == texts(names@),
            is_listing(store@, shown),
            listed@.len() == i,
            summaries@.len() == i,
            forall|k: int| 0 <= k < i ==> (#[trigger] listed@[k])@ == JsonV::Text(shown[k]),
            forall|k: int|
                0 <= k < i ==> (#[trigger] summaries@[k])@ == stream_summary(
                    store@.streams[shown[k]],
                ),
        decreases names@.len() - i,
    {
        let name = names[i].as_str();
        assert(shown[i as int] == name@);
        assert(shown.contains(name@));
        listed.push(Json::text(name));
        match store.streams.get(name) {
            Some(stream) => {
                summaries.push(summary_object(stream));
            },
            None => {
                assert(false);
            },
        }
        i = i + 1;
    }
    let mut fields: Vec<(String, Json)> = Vec::new();
    let ghost expected = listing_json(store@, shown)->Object_0;
    assert(items_view(listed@) =~= expected[1].1->Array_0);
    assert(items_view(summaries@) =~= expected[2].1->Array_0);
    push_field(&mut fields, "HasMoreStreams", Json::Bool(false));
    push_field(&mut fields, "StreamNames", to_array(listed));
    push_field(&mut fields, "StreamSummaries", to_array(summaries));
    assert(fields_view(fields@) =~= expected);
    Ok(to_object(fields))
}

/// There is just one listing.
pub proof fn law_listing_is_unique(store: StoreV, a: Seq<Seq<char>>, b: Seq<Seq<char>>)
    requires
        is_listing(store, a),
        is_listing(store, b),
    ensures
        a == b,
{
    lemma_same_names(a, b, 0);
    assert(a =~= b);
}

proof fn lemma_same_names(a: Seq<Seq<char>>, b: Seq<Seq<char>>, n: int)
    requires
        in_order(a),
        in_order(b),
        forall|name: Seq<char>| a.contains(name) == b.contains(name),
        0 <= n <= a.len(),
        n <= b.len(),
        forall|i: int| 0 <= i < n ==> a[i] == b[i],
    ensures
        a.len() == b.len(),
        forall|i: int| 0 <= i < a.len() ==> a[i] == b[i],
    decreases a.len() - n,
{
    if n < a.len() {
        assert(a.contains(a[n]));
        let at = b.index_of(a[n]);
        assert(b[at] == a[n]);
        if at < n {
            assert(a[at] == a[n]);
            lemma_text_order(a[at], a[n]);
            assert(text_less(a[at], a[n]));
        }
        assert(b.contains(b[n]));
        let back = a.index_of(b[n]);
        assert(a[back] == b[n]);
        if back < n {
            assert(b[back] == b[n]);
            lemma_text_order(b[back], b[n]);
            assert(text_less(b[back], b[n]));
        }
        if at > n {
            assert(text_less(b[n], b[at]));
            if back > n {
                assert(text_less(a[n], a[back]));
                lemma_text_order(a[n], b[n]);
            }
        }
        assert(a[n] == b[n]);
        lemma_same_names(a, b, n + 1);
    } else if n < b.len() {
        assert(b.contains(b[n]));
        let back = a.index_of(b[n]);
        assert(a[back] == b[n]);
        assert(b[back] == b[n]);
        lemma_text_order(b[back], b[n]);
        assert(text_less(b[back], b[n]));
    }
}

// ---- shard iterators ---------------------------------------------------------

/// What a GetShardIterator request asks for.
pub struct IteratorRequestV {
    pub stream: Seq<char>,
    pub shard_id: Seq<char>,
    pub iterator_type: Seq<char>,
    pub starting_seq: Option<u64>,
}

/// The sequence number that a request gives to start from.
pub open spec fn requested_start(req: JsonV) -> Result<Option<u64>, ErrV> {
    match req.text_of("StartingSequenceNumber"@) {
        None => Ok(None),
        Some(text) => match parse_decimal(text, u64::MAX as nat) {
            Some(n) => Ok(Some(n as u64)),
            None => Err(validation_error("Invalid StartingSequenceNumber"@)),
        },
    }
}

fn parse_start(req: &Json) -> (r: Result<Option<u64>, ApiError>)
    ensures
        shows(r, requested_start(req@)),
{
    match req.text_of("StartingSequenceNumber") {
        None => Ok(None),
        Some(text) => match parse_number(text, u64::MAX as u128) {
            Some(n) => Ok(Some(n as u64)),
            None => Err(
                ApiError::validation(String::from_str("Invalid StartingSequenceNumber")),
            ),
        },
    }
}

/// The error of an iterator type that does not exist, or that lacks the parameter it needs.
pub open spec fn type_error(
    iterator_type: Seq<char>,
    starting_seq: Option<u64>,
    timestamp_ms: Option<u128>,
) -> Option<ErrV> {
    if iterator_type == "TRIM_HORIZON"@ || iterator_type == "LATEST"@ {
        None
    } else if iterator_type == "AT_TIMESTAMP"@ {
        if timestamp_ms is None {
            Some(argument_error("Timestamp is required for ShardIteratorType AT_TIMESTAMP"@))
        } else {
            None
        }
    } else if iterator_type == "AT_SEQUENCE_NUMBER"@ || iterator_type
        == "AFTER_SEQUENCE_NUMBER"@ {
        if starting_seq is None {
            Some(
                argument_error(
                    "StartingSequenceNumber is required for ShardIteratorType "@ + iterator_type,
                ),
            )
        } else {
            None
        }
    } else {
        Some(validation_error("Invalid ShardIteratorType: "@ + iterator_type))
    }
}

fn check_type(
    iterator_type: &str,
    starting_seq: Option<u64>,
    timestamp_ms: Option<u128>,
) -> (r: Option<ApiError>)
    ensures
        match r {
            Some(error) => type_error(iterator_type@, starting_seq, timestamp_ms) == Some(error@),
            None => type_error(iterator_type@, starting_seq, timestamp_ms) is None,
        },
{
    if str_eq(iterator_type, "TRIM_HORIZON") || str_eq(iterator_type, "LATEST") {
        None
    } else if str_eq(iterator_type, "AT_TIMESTAMP") {
        if timestamp_ms.is_none() {
            Some(
                ApiError::new(
                    "InvalidArgumentException",
                    String::from_str("Timestamp is required for ShardIteratorType AT_TIMESTAMP"),
                ),
            )
        } else {
            None
        }
    } else if str_eq(iterator_type, "AT_SEQUENCE_NUMBER") || str_eq(
        iterator_type,
        "AFTER_SEQUENCE_NUMBER",
    ) {
        if starting_seq.is_none() {
            Some(
                ApiError::new(
                    "InvalidArgumentException",
                    join(
                        "StartingSequenceNumber is required for ShardIteratorType ",
                        iterator_type,
                    ),
                ),
            )
        } else {
            None
        }
    } else {
        Some(ApiError::validation(join("Invalid ShardIteratorType: ", iterator_type)))
    }
}

/// What a request asks for, or its error. Errors in the arguments come before the store is
/// looked at, so that none of them masquerades as a deleted shard.
pub open spec fn iterator_request(req: JsonV, timestamp_ms: Option<u128>) -> Result<
    IteratorRequestV,
    ErrV,
> {
    match target_stream(req) {
        Err(error) => Err(error),
        Ok(stream) => match required(req, "ShardId"@) {
            Err(error) => Err(error),
            Ok(shard_id) => match required(req, "ShardIteratorType"@) {
                Err(error) => Err(error),
                Ok(iterator_type) => match requested_start(req) {
                    Err(error) => Err(error),
                    Ok(starting_seq) => match type_error(
                        iterator_type,
                        starting_seq,
                        timestamp_ms,
                    ) {
                        Some(error) => Err(error),
                        None => Ok(
                            IteratorRequestV { stream, shard_id, iterator_type, starting_seq },
                        ),
                    },
                },
            },
        },
    }
}

/// The answer to a GetShardIterator request.
pub open spec fn iterator_answer(
    store: StoreV,
    req: JsonV,
    timestamp_ms: Option<u128>,
    now: u128,
) -> Result<JsonV, ErrV> {
    match iterator_request(req, timestamp_ms) {
        Err(error) => Err(error),
        Ok(asked) => if !store.streams.contains_key(asked.stream) {
            Err(stream_not_found(asked.stream))
        } else {
            match new_iterator(
                store,
                asked.stream,
                asked.shard_id,
                asked.iterator_type,
                asked.starting_seq,
                timestamp_ms,
                now,
            ) {
                None => Err(
                    not_found_error(
                        "Shard "@ + asked.shard_id + " not found in "@ + asked.stream,
                    ),
                ),
                Some(it) => Ok(
                    JsonV::Object(seq![("ShardIterator"@, JsonV::Text(iterator_token(it)))]),
                ),
            }
        },
    }
}

/// The start of the iterator that a request asks for can be counted.
pub open spec fn request_fits(store: StoreV, req: JsonV, timestamp_ms: Option<u128>) -> bool {
    match iterator_request(req, timestamp_ms) {
        Err(error) => true,
        Ok(asked) => iterator_fits(
            store,
            asked.stream,
            asked.shard_id,
            asked.iterator_type,
            asked.starting_seq,
        ),
    }
}

/// What a GetShardIterator request asks for.
struct IteratorRequest<'a> {
    stream: &'a str,
    shard_id: &'a str,
    iterator_type: &'a str,
    starting_seq: Option<u64>,
}

impl<'a> View for IteratorRequest<'a> {
    type V = IteratorRequestV;

    closed spec fn view(&self) -> IteratorRequestV {
        IteratorRequestV {
            stream: self.stream@,
            shard_id: self.shard_id@,
            iterator_type: self.iterator_type@,
            starting_seq: self.starting_seq,
        }
    }
}

fn parse_iterator_request<'a>(req: &'a Json, timestamp_ms: Option<u128>) -> (r: Result<
    IteratorRequest<'a>,
    ApiError,
>)
    ensures
        match r {
            Ok(asked) => iterator_request(req@, timestamp_ms) == Ok::<IteratorRequestV, ErrV>(
                asked@,
            ),
            Err(error) => iterator_request(req@, timestamp_ms) == Err::<IteratorRequestV, ErrV>(
                error@,
            ),
        },
{
    let stream = match resolve_stream_name(req) {
        Ok(stream) => stream,
        Err(error) => {
            return Err(error);
        },
    };
    let shard_id = match require_str(req, "ShardId") {
        Ok(shard_id) => shard_id,
        Err(error) => {
            return Err(error);
        },
    };
    let iterator_type = match require_str(req, "ShardIteratorType") {
        Ok(iterator_type) => iterator_type,
        Err(error) => {
            return Err(error);
        },
    };
    let starting_seq = match parse_start(req) {
        Ok(starting_seq) => starting_seq,
        Err(error) => {
            return Err(error);
        },
    };
    match check_type(iterator_type, starting_seq, timestamp_ms) {
        Some(error) => Err(error),
        None => Ok(IteratorRequest { stream, shard_id, iterator_type, starting_seq }),
    }
}

/// Whether the start of the iterator that a request asks for can be counted: whether it is not
/// behind the last of all sequence numbers.
pub fn start_can_be_counted(store: &Store, req: &Json, timestamp_ms: Option<u128>) -> (r: bool)
    requires
        store.wf(),
    ensures
        r == request_fits(store@, req@, timestamp_ms),
{
    match parse_iterator_request(req, timestamp_ms) {
        Err(_) => true,
        Ok(asked) => store.iterator_can_start(
            asked.stream,
            asked.shard_id,
            asked.iterator_type,
            asked.starting_seq,
        ),
    }
}

/// GetShardIterator. `timestamp_ms` is the `Timestamp` of the request, in milliseconds.
pub fn get_shard_iterator(store: &Store, req: &Json, timestamp_ms: Option<u128>) -> (r: Result<
    Json,
    ApiError,
>)
    requires
        store.wf(),
        request_fits(store@, req@, timestamp_ms),
    ensures
        exists|now: u128|
            now <= LAST_MOMENT_MS && shows_json(
                r,
                #[trigger] iterator_answer(store@, req@, timestamp_ms, now),
            ),
{
    let now: u128 = now_ms();
    get_shard_iterator_at(store, req, timestamp_ms, now)
}

/// GetShardIterator at a given time.
pub fn get_shard_iterator_at(
    store: &Store,
    req: &Json,
    timestamp_ms: Option<u128>,
    now: u128,
) -> (r: Result<Json, ApiError>)
    requires
        store.wf(),
        request_fits(store@, req@, timestamp_ms),
        now + ITERATOR_TTL_MS <= u128::MAX,
    ensures
        shows_json(r, iterator_answer(store@, req@, timestamp_ms, now)),
{
    let asked = match parse_iterator_request(req, timestamp_ms) {
        Ok(asked) => asked,
        Err(error) => {
            return Err(error);
        },
    };
    if !store.streams.contains_key(asked.stream) {
        return Err(no_such_stream(asked.stream));
    }
    match store.make_iterator_at(
        asked.stream,
        asked.shard_id,
        asked.iterator_type,
        asked.starting_seq,
        timestamp_ms,
        now,
    ) {
        None => {
            let mut message = join3("Shard ", asked.shard_id, " not found in ");
            message.append(asked.stream);
            Err(ApiError::not_found(message))
        },
        Some(it) => {
            let mut fields: Vec<(String, Json)> = Vec::new();
            push_field(&mut fields, "ShardIterator", Json::Text(encode_iterator(&it)));
            assert(fields_view(fields@) =~= seq![
                ("ShardIterator"@, JsonV::Text(iterator_token(it@))),
            ]);
            Ok(to_object(fields))
        },
    }
}

} // verus!
