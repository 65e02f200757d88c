//! Reading records: which records a page holds, where the next page goes on, and the response
//! body, written straight into one buffer.
use crate::clock::{now_ms, LAST_MOMENT_MS};
use crate::json::{
    fields_text, float_digits, float_text, items_text, json_string, json_text, lemma_plain_quoted,
    lemma_quoted_len, plain, quoted, seconds_json, Json, JsonV,
};
use crate::params::{require_str, required};
use crate::protocol::{
    all_base64_chars, base64_len, base64_text, error_of, encode_data_into, is_base64_char,
    lemma_base64_ascii, not_found_error, validation_error, ApiError, ErrV,
};
use crate::store::{
    latest_seq, records_bytes, Iterator, IteratorV, Store, StoreV, ITERATOR_TTL_MS,
};
use crate::streams::{find_shard, records_view, shard_index, Record, RecordV};
use crate::text::{
    decimal, decimal_text, join3, lemma_decimal_len, lemma_decimal_value, lemma_utf8_concat, pow10,
    push_text,
};
use crate::token::{decode_iterator, encode_iterator, iterator_token, token_iterator};
use vstd::prelude::*;
use vstd::string::StringExecFns;
use vstd::utf8::{encode_utf8, is_ascii_chars, is_ascii_chars_encode_utf8};

verus! {

pub const MAX_GET_RECORDS: u64 = 10_000;

/// 10 MiB, the cap on the payload of one response.
pub const MAX_GET_RECORDS_BYTES: usize = 10_485_760;

/// Fixed keys, quotes, digits of the sequence number and the timestamp, and the comma.
pub const RECORD_JSON_OVERHEAD: usize = 144;

/// Fixed keys and quotes around the records, and the digits of the lag.
pub const PAGE_JSON_OVERHEAD: usize = 80;

// ---- pages -------------------------------------------------------------------

/// Whether reading from `seq` on may start at index `at`: what is just before has a smaller
/// sequence number, what is there has not. In a shard whose sequence numbers rise there is
/// one such index.
pub open spec fn is_start(records: Seq<RecordV>, seq: u64, at: int) -> bool {
    &&& 0 <= at <= records.len()
    &&& at > 0 ==> records[at - 1].seq < seq
    &&& at < records.len() ==> records[at].seq >= seq
}

/// How many of the records a page takes that has `n` of them already: it ends at the limit,
/// or where the payload would grow over 10 MiB; but one record it always takes.
pub open spec fn page_len(records: Seq<RecordV>, limit: nat, n: nat) -> nat
    decreases records.len() - n,
{
    if n >= records.len() || n >= limit || (n > 0 && records_bytes(records, n + 1)
        > MAX_GET_RECORDS_BYTES) {
        n
    } else {
        page_len(records, limit, n + 1)
    }
}

/// A page as a mathematical value.
pub struct PageV {
    pub records: Seq<RecordV>,
    pub next_seq: u64,
    pub payload_bytes: nat,
    pub millis_behind: u64,
}

/// A page: the records, the sequence number at which the next page starts, the payload bytes,
/// and how far the reader is behind the newest record.
pub struct Page<'a> {
    pub records: Vec<&'a Record>,
    pub next_seq: u64,
    pub payload_bytes: usize,
    pub millis_behind: u64,
}

pub open spec fn refs_view(records: Seq<&Record>) -> Seq<RecordV> {
    records.map_values(|record: &Record| record@)
}

impl<'a> View for Page<'a> {
    type V = PageV;

    open spec fn view(&self) -> PageV {
        PageV {
            records: refs_view(self.records@),
            next_seq: self.next_seq,
            payload_bytes: self.payload_bytes as nat,
            millis_behind: self.millis_behind,
        }
    }
}

/// The page of at most `limit` records that starts at index `start` of a shard.
pub open spec fn page_at(
    records: Seq<RecordV>,
    seq: u64,
    start: int,
    limit: nat,
    now: u128,
) -> PageV {
    let rest = records.skip(start);
    let taken = rest.take(page_len(rest, limit, 0) as int);
    let next_seq = if taken.len() > 0 {
        (taken.last().seq + 1) as u64
    } else {
        seq
    };
    PageV {
        records: taken,
        next_seq,
        payload_bytes: records_bytes(taken, taken.len()),
        millis_behind: if next_seq > latest_seq(records) || taken.len() == 0 || now
            <= taken.last().timestamp_ms {
            0
        } else {
            ((now - taken.last().timestamp_ms) % 0x1_0000_0000_0000_0000) as u64
        },
    }
}

/// No record of the store has the last of all sequence numbers.
pub open spec fn seqs_fit(store: StoreV) -> bool {
    forall|name: Seq<char>, i: int, k: int|
        store.streams.contains_key(name) && 0 <= i < store.streams[name].shards.len() && 0 <= k
            < store.streams[name].shards[i].records.len() ==> (
        #[trigger] store.streams[name].shards[i].records[k]).seq < u64::MAX
}

/// Whether no record of the store has the last of all sequence numbers.
pub fn numbers_fit(store: &Store) -> (r: bool)
    requires
        store.wf(),
    ensures
        r == seqs_fit(store@),
{
    let count: usize = store.streams.len();
    let mut n: usize = 0;
    while n < count
        invariant
            n <= count,
            count == store@.order.len(),
            store.wf(),
            forall|m: int, i: int, k: int|
                0 <= m < n && 0 <= i < store@.streams[store@.order[m]].shards.len() && 0 <= k
                    < store@.streams[store@.order[m]].shards[i].records.len() ==> (
                #[trigger] store@.streams[store@.order[m]].shards[i].records[k]).seq < u64::MAX,
        decreases count - n,
    {
        let stream = store.streams.at(n);
        let ghost name = store@.order[n as int];
        proof {
            store.streams.lemma_entry(n as int);
        }
        let mut s: usize = 0;
        while s < stream.shards.len()
            invariant
                s <= stream.shards@.len(),
                stream@ == store@.streams[name],
                store@.streams.contains_key(name),
                forall|i: int, k: int|
                    0 <= i < s && 0 <= k < stream@.shards[i].records.len() ==> (
                    #[trigger] stream@.shards[i].records[k]).seq < u64::MAX,
            decreases stream.shards@.len() - s,
        {
            let records = &stream.shards[s].records;
            assert(stream@.shards[s as int].records == records_view(records@));
            let mut k: usize = 0;
            while k < records.len()
                invariant
                    k <= records@.len(),
                    s < stream@.shards.len(),
                    stream@ == store@.streams[name],
                    store@.streams.contains_key(name),
                    stream@.shards[s as int].records == records_view(records@),
                    forall|j: int| 0 <= j < k ==> (#[trigger] records@[j]).seq < u64::MAX,
                decreases records@.len() - k,
            {
                if records[k].seq == u64::MAX {
                    assert(store@.streams[name].shards[s as int].records[k as int].seq == u64::MAX);
                    return false;
                }
                k = k + 1;
            }
            s = s + 1;
        }
        n = n + 1;
    }
    assert forall|name: Seq<char>, i: int, k: int|
        store@.streams.contains_key(name) && 0 <= i < store@.streams[name].shards.len() && 0 <= k
            < store@.streams[name].shards[i].records.len() implies (
    #[trigger] store@.streams[name].shards[i].records[k]).seq < u64::MAX by {
        let m = store@.order.index_of(name);
        assert(store@.order.contains(name));
        assert(store@.order[m] == name);
    }
    true
}

/// The records that an iterator reads from, or the error where its stream or its shard is
/// not there.
pub open spec fn iterated(store: StoreV, it: IteratorV) -> Result<Seq<RecordV>, ErrV> {
    if !store.streams.contains_key(it.stream) {
        Err(not_found_error("Stream "@ + it.stream + " not found"@))
    } else {
        match shard_index(store.streams[it.stream].shards, it.shard_id) {
            None => Err(not_found_error("Shard "@ + it.shard_id + " not found"@)),
            Some(i) => Ok(store.streams[it.stream].shards[i].records),
        }
    }
}

/// Binary search for the first record that was not consumed yet: records are in the order of
/// their sequence numbers.
fn find_start(records: &Vec<Record>, seq: u64) -> (r: usize)
    ensures
        is_start(records_view(records@), seq, r as int),
{
    let mut low: usize = 0;
    let mut high: usize = records.len();
    while low < high
        invariant
            low <= high <= records@.len(),
            low > 0 ==> records@[low - 1].seq < seq,
            high < records@.len() ==> records@[high as int].seq >= seq,
        decreases high - low,
    {
        let middle: usize = low + (high - low) / 2;
        if records[middle].seq < seq {
            low = middle + 1;
        } else {
            high = middle;
        }
    }
    low
}

proof fn lemma_bytes_prefix(records: Seq<RecordV>, n: nat, k: nat)
    requires
        k <= n <= records.len(),
    ensures
        records_bytes(records.take(n as int), k) == records_bytes(records, k),
    decreases k,
{
    if k > 0 {
        lemma_bytes_prefix(records, n, (k - 1) as nat);
    }
}

/// Reads the page that starts where an iterator stands. The payload is bounded at 10 MiB, but
/// at least one record is returned, so that an oversize record still makes progress.
pub fn read_page<'a>(store: &'a Store, it: &Iterator, limit: usize, now: u128) -> (r: Result<
    Page<'a>,
    ApiError,
>)
    requires
        store.wf(),
        seqs_fit(store@),
    ensures
        match r {
            Ok(page) => iterated(store@, it@) is Ok && exists|start: int|
                is_start(iterated(store@, it@)->Ok_0, it.next_seq, start) && page@
                    == #[trigger] page_at(
                    iterated(store@, it@)->Ok_0,
                    it.next_seq,
                    start,
                    limit as nat,
                    now,
                ),
            Err(error) => iterated(store@, it@) == Err::<Seq<RecordV>, ErrV>(error@),
        },
{
    let stream = match store.streams.get(it.stream.as_str()) {
        Some(stream) => stream,
        None => {
            return Err(
                ApiError::not_found(join3("Stream ", it.stream.as_str(), " not found")),
            );
        },
    };
    let index: usize = match find_shard(&stream.shards, it.shard_id.as_str()) {
        Some(index) => index,
        None => {
            return Err(
                ApiError::not_found(join3("Shard ", it.shard_id.as_str(), " not found")),
            );
        },
    };
    let records = &stream.shards[index].records;
    let ghost all = records_view(records@);
    assert(store@.streams[it.stream@].shards[index as int].records == all);
    assert(iterated(store@, it@) == Ok::<Seq<RecordV>, ErrV>(all));
    assert forall|k: int| 0 <= k < all.len() implies (#[trigger] all[k]).seq < u64::MAX by {
        assert(store@.streams[it.stream@].shards[index as int].records[k].seq < u64::MAX);
    }
    let start: usize = find_start(records, it.next_seq);
    let ghost rest = all.skip(start as int);
    let mut selected: Vec<&'a Record> = Vec::new();
    let mut payload_bytes: usize = 0;
    let mut next_seq: u64 = it.next_seq;
    let mut last_ts: u128 = 0;
    let mut i: usize = start;
    assert(refs_view(selected@) =~= rest.take(0));
    while i < records.len()
        invariant_except_break
            page_len(rest, limit as nat, 0) == page_len(rest, limit as nat, selected@.len()),
        invariant
            start <= i <= records@.len(),
            all == records_view(records@),
            rest == all.skip(start as int),
            i == start + selected@.len(),
            selected@.len() <= rest.len(),
            refs_view(selected@) == rest.take(selected@.len() as int),
            forall|k: int| 0 <= k < all.len() ==> (#[trigger] all[k]).seq < u64::MAX,
            payload_bytes == records_bytes(rest, selected@.len()),
            selected@.len() == 0 ==> next_seq == it.next_seq && payload_bytes == 0,
            selected@.len() > 0 ==> {
                &&& next_seq == rest[selected@.len() - 1].seq + 1
                &&& last_ts == rest[selected@.len() - 1].timestamp_ms
            },
        ensures
            page_len(rest, limit as nat, 0) == selected@.len(),
        decreases records@.len() - i,
    {
        if selected.len() >= limit {
            break;
        }
        let record: &'a Record = &records[i];
        assert(rest[i - start] == record@);
        let size: usize = record.data.len();
        if selected.len() > 0 && (payload_bytes > MAX_GET_RECORDS_BYTES || size
            > MAX_GET_RECORDS_BYTES - payload_bytes) {
            break;
        }
        payload_bytes = payload_bytes + size;
        next_seq = record.seq + 1;
        last_ts = record.timestamp_ms;
        selected.push(record);
        i = i + 1;
        assert(refs_view(selected@) =~= rest.take(selected@.len() as int));
    }
    let count: usize = records.len();
    let latest: u64 = if count > 0 {
        records[count - 1].seq
    } else {
        0
    };
    assert(latest == latest_seq(all));
    let millis_behind: u64 = if next_seq > latest || selected.len() == 0 {
        0
    } else {
        (now.saturating_sub(last_ts) % 0x1_0000_0000_0000_0000) as u64
    };
    let page = Page { records: selected, next_seq, payload_bytes, millis_behind };
    proof {
        let n = selected@.len();
        lemma_bytes_prefix(rest, n, n);
        let expected = page_at(all, it.next_seq, start as int, limit as nat, now);
        assert(page@.records == expected.records);
        assert(page@.next_seq == expected.next_seq);
        assert(page@ == expected);
        assert(all == iterated(store@, it@)->Ok_0);
        assert(is_start(all, it.next_seq, start as int));
    }
    Ok(page)
}

// ---- the response body -------------------------------------------------------

/// A record in a response.
pub open spec fn record_json(record: RecordV) -> JsonV {
    JsonV::Object(
        seq![
            ("SequenceNumber"@, JsonV::Text(decimal(record.seq as nat))),
            ("ApproximateArrivalTimestamp"@, seconds_json(record.timestamp_ms / 1000)),
            ("PartitionKey"@, JsonV::Text(record.partition_key)),
            ("Data"@, JsonV::Text(base64_text(record.data))),
        ],
    )
}

pub open spec fn records_json(records: Seq<RecordV>) -> Seq<JsonV> {
    records.map_values(|record: RecordV| record_json(record))
}

/// The response: the records, the token of the next iterator, and how far behind it is.
pub open spec fn page_json(records: Seq<RecordV>, token: Seq<char>, millis_behind: u64) -> JsonV {
    JsonV::Object(
        seq![
            ("Records"@, JsonV::Array(records_json(records))),
            ("NextShardIterator"@, JsonV::Text(token)),
            ("MillisBehindLatest"@, JsonV::number(millis_behind)),
        ],
    )
}

/// The room that is set aside for a record in a response.
pub open spec fn record_room(record: RecordV) -> nat {
    RECORD_JSON_OVERHEAD as nat + encode_utf8(record.partition_key).len() * 6 + base64_len(
        record.data.len(),
    )
}

/// The room that is set aside for the first `n` records.
pub open spec fn records_room(records: Seq<RecordV>, n: nat) -> nat
    decreases n,
{
    if n == 0 {
        0
    } else {
        records_room(records, (n - 1) as nat) + record_room(records[n - 1])
    }
}

/// The room that is set aside for a response.
pub open spec fn page_room(records: Seq<RecordV>, token: Seq<char>) -> nat {
    encode_utf8(token).len() + PAGE_JSON_OVERHEAD as nat + records_room(records, records.len())
}

/// The text of a record, as it is put together.
proof fn lemma_record_text(record: RecordV)
    requires
        all_base64_chars(base64_text(record.data)),
    ensures
        json_text(record_json(record)) == "{\"SequenceNumber\":\""@ + decimal(record.seq as nat)
            + "\",\"ApproximateArrivalTimestamp\":"@ + float_digits(record.timestamp_ms / 1000)
            + ",\"PartitionKey\":"@ + quoted(record.partition_key) + ",\"Data\":\""@ + base64_text(
            record.data,
        ) + "\"}"@,
{
    let number = decimal(record.seq as nat);
    let float = float_digits(record.timestamp_ms / 1000);
    let key = quoted(record.partition_key);
    let data = base64_text(record.data);
    lemma_decimal_plain(record.seq as nat);
    lemma_plain_quoted(number);
    law_base64_needs_no_escaping(data);
    lemma_plain_quoted(data);
    lemma_record_keys();
    let fields = record_json(record)->Object_0;
    let quote = seq!['"'];
    reveal_with_fuel(fields_text, 5);
    assert(json_text(fields[0].1) == quoted(number));
    assert(json_text(fields[1].1) == float);
    assert(json_text(fields[2].1) == key);
    assert(json_text(fields[3].1) == quoted(data));
    let f0 = quoted("SequenceNumber"@) + ":"@ + (quote + number + quote);
    let f1 = quoted("ApproximateArrivalTimestamp"@) + ":"@ + float;
    let f2 = quoted("PartitionKey"@) + ":"@ + key;
    let f3 = quoted("Data"@) + ":"@ + (quote + data + quote);
    let s1 = f0 + ","@ + f1;
    let s2 = s1 + ","@ + f2;
    assert(fields_text(fields, 4) == s2 + ","@ + f3);
    assert(json_text(record_json(record)) == "{"@ + fields_text(fields, 4) + "}"@);
    let p1 = "{"@ + quoted("SequenceNumber"@) + ":"@ + quote;
    let p2 = quote + ","@ + quoted("ApproximateArrivalTimestamp"@) + ":"@;
    let p3 = ","@ + quoted("PartitionKey"@) + ":"@;
    lemma_regroup("{"@, s2, ","@, f3);
    lemma_regroup("{"@, s1, ","@, f2);
    lemma_regroup("{"@, f0, ","@, f1);
    lemma_regroup_first("{"@, quoted("SequenceNumber"@), ":"@, quote, number, quote);
    let x0 = p1 + number;
    lemma_regroup_quoted(x0, quote, ","@, quoted("ApproximateArrivalTimestamp"@), ":"@, float);
    let x1 = x0 + p2 + float;
    lemma_regroup_field(x1, ","@, quoted("PartitionKey"@), ":"@, key);
    let x2 = x1 + p3 + key;
    lemma_regroup_last(x2, ","@, quoted("Data"@), ":"@, quote, data, "}"@);
}

proof fn lemma_regroup(b: Seq<char>, s0: Seq<char>, s: Seq<char>, f: Seq<char>)
    ensures
        b + (s0 + s + f) == b + s0 + s + f,
{
    assert(b + (s0 + s + f) =~= b + s0 + s + f);
}

proof fn lemma_regroup_first(
    b: Seq<char>,
    k: Seq<char>,
    c: Seq<char>,
    q: Seq<char>,
    n: Seq<char>,
    e: Seq<char>,
)
    ensures
        b + (k + c + (q + n + e)) == (b + k + c + q) + n + e,
{
    assert(b + (k + c + (q + n + e)) =~= (b + k + c + q) + n + e);
}

proof fn lemma_regroup_quoted(
    x: Seq<char>,
    q: Seq<char>,
    s: Seq<char>,
    k: Seq<char>,
    c: Seq<char>,
    f: Seq<char>,
)
    ensures
        x + q + s + (k + c + f) == x + (q + s + k + c) + f,
{
    assert(x + q + s + (k + c + f) =~= x + (q + s + k + c) + f);
}

proof fn lemma_regroup_field(
    x: Seq<char>,
    s: Seq<char>,
    k: Seq<char>,
    c: Seq<char>,
    f: Seq<char>,
)
    ensures
        x + s + (k + c + f) == x + (s + k + c) + f,
{
    assert(x + s + (k + c + f) =~= x + (s + k + c) + f);
}

proof fn lemma_regroup_last(
    x: Seq<char>,
    s: Seq<char>,
    k: Seq<char>,
    c: Seq<char>,
    q: Seq<char>,
    d: Seq<char>,
    e: Seq<char>,
)
    ensures
        x + s + (k + c + (q + d + q)) + e == x + (s + k + c + q) + d + (q + e),
{
    assert(x + s + (k + c + (q + d + q)) + e =~= x + (s + k + c + q) + d + (q + e));
}

/// The fixed parts of the text of a record.
proof fn lemma_record_keys()
    ensures
        "{\"SequenceNumber\":\""@ == "{"@ + quoted("SequenceNumber"@) + ":"@ + seq!['"'],
        "\",\"ApproximateArrivalTimestamp\":"@ == seq!['"'] + ","@ + quoted(
            "ApproximateArrivalTimestamp"@,
        ) + ":"@,
        ",\"PartitionKey\":"@ == ","@ + quoted("PartitionKey"@) + ":"@,
        ",\"Data\":\""@ == ","@ + quoted("Data"@) + ":"@ + seq!['"'],
        "\"}"@ == seq!['"'] + "}"@,
        "{\"SequenceNumber\":\""@.len() == 19,
        "\",\"ApproximateArrivalTimestamp\":"@.len() == 32,
        ",\"PartitionKey\":"@.len() == 16,
        ",\"Data\":\""@.len() == 9,
        "\"}"@.len() == 2,
        is_ascii_chars("{\"SequenceNumber\":\""@),
        is_ascii_chars("\",\"ApproximateArrivalTimestamp\":"@),
        is_ascii_chars(",\"PartitionKey\":"@),
        is_ascii_chars(",\"Data\":\""@),
        is_ascii_chars("\"}"@),
{
    reveal_strlit("{");
    reveal_strlit("}");
    reveal_strlit(":");
    reveal_strlit(",");
    reveal_strlit("SequenceNumber");
    reveal_strlit("ApproximateArrivalTimestamp");
    reveal_strlit("PartitionKey");
    reveal_strlit("Data");
    reveal_strlit("{\"SequenceNumber\":\"");
    reveal_strlit("\",\"ApproximateArrivalTimestamp\":");
    reveal_strlit(",\"PartitionKey\":");
    reveal_strlit(",\"Data\":\"");
    reveal_strlit("\"}");
    assert(plain("SequenceNumber"@));
    lemma_plain_quoted("SequenceNumber"@);
    assert("{\"SequenceNumber\":\""@ =~= "{"@ + quoted("SequenceNumber"@) + ":"@ + seq!['"']);
    assert(plain("ApproximateArrivalTimestamp"@));
    lemma_plain_quoted("ApproximateArrivalTimestamp"@);
    assert("\",\"ApproximateArrivalTimestamp\":"@ =~= seq!['"'] + ","@ + quoted(
        "ApproximateArrivalTimestamp"@,
    ) + ":"@);
    assert(plain("PartitionKey"@));
    lemma_plain_quoted("PartitionKey"@);
    assert(",\"PartitionKey\":"@ =~= ","@ + quoted("PartitionKey"@) + ":"@);
    assert(plain("Data"@));
    lemma_plain_quoted("Data"@);
    assert(",\"Data\":\""@ =~= ","@ + quoted("Data"@) + ":"@ + seq!['"']);
    assert("\"}"@ =~= seq!['"'] + "}"@);
}

proof fn lemma_decimal_plain(n: nat)
    ensures
        plain(decimal(n)),
        is_ascii_chars(decimal(n)),
{
    lemma_decimal_value(n);
}

/// Base64 stands between quotes as it is.
pub proof fn law_base64_needs_no_escaping(text: Seq<char>)
    requires
        all_base64_chars(text),
    ensures
        plain(text),
        is_ascii_chars(text),
{
    assert forall|i: int| 0 <= i < text.len() implies is_base64_char(#[trigger] text[i]) by {}
}

/// A sequence number has at most twenty digits.
proof fn lemma_u64_digits(n: u64)
    ensures
        decimal(n as nat).len() <= 20,
        encode_utf8(decimal(n as nat)).len() <= 20,
{
    reveal_with_fuel(pow10, 21);
    assert(pow10(20) == 100_000_000_000_000_000_000);
    lemma_decimal_len(n as nat, 20);
    lemma_decimal_plain(n as nat);
    is_ascii_chars_encode_utf8(decimal(n as nat));
}

/// Writes a properly escaped JSON string, including the surrounding quotes.
fn write_json_string(out: &mut Vec<u8>, value: &str)
    ensures
        final(out)@ == old(out)@ + encode_utf8(quoted(value@)),
{
    let text = json_string(value);
    push_text(out, text.as_str());
}

/// Writes a single record object, base64-encoding its data straight into `out`.
fn write_record(out: &mut Vec<u8>, record: &Record)
    ensures
        final(out)@ == old(out)@ + encode_utf8(json_text(record_json(record@))),
        encode_utf8(json_text(record_json(record@))).len() + 1 <= record_room(record@),
{
    let ghost before = out@;
    let number = decimal_text(record.seq as u128);
    let float = float_text(record.timestamp_ms / 1000);
    push_text(out, "{\"SequenceNumber\":\"");
    push_text(out, number.as_str());
    push_text(out, "\",\"ApproximateArrivalTimestamp\":");
    push_text(out, float.as_str());
    push_text(out, ",\"PartitionKey\":");
    write_json_string(out, record.partition_key.as_str());
    push_text(out, ",\"Data\":\"");
    encode_data_into(record.data.as_slice(), out);
    push_text(out, "\"}");
    proof {
        let data = base64_text(record@.data);
        let key = quoted(record@.partition_key);
        let t0 = "{\"SequenceNumber\":\""@;
        let t1 = t0 + number@;
        let t2 = t1 + "\",\"ApproximateArrivalTimestamp\":"@;
        let t3 = t2 + float@;
        let t4 = t3 + ",\"PartitionKey\":"@;
        let t5 = t4 + key;
        let t6 = t5 + ",\"Data\":\""@;
        let t7 = t6 + data;
        let t8 = t7 + "\"}"@;
        lemma_utf8_concat(t0, number@);
        lemma_utf8_concat(t1, "\",\"ApproximateArrivalTimestamp\":"@);
        lemma_utf8_concat(t2, float@);
        lemma_utf8_concat(t3, ",\"PartitionKey\":"@);
        lemma_utf8_concat(t4, key);
        lemma_utf8_concat(t5, ",\"Data\":\""@);
        lemma_utf8_concat(t6, data);
        lemma_utf8_concat(t7, "\"}"@);
        assert(out@ =~= before + encode_utf8(t8));
        lemma_record_text(record@);
        assert(t8 == json_text(record_json(record@)));
        lemma_record_keys();
        is_ascii_chars_encode_utf8(t0);
        is_ascii_chars_encode_utf8("\",\"ApproximateArrivalTimestamp\":"@);
        is_ascii_chars_encode_utf8(",\"PartitionKey\":"@);
        is_ascii_chars_encode_utf8(",\"Data\":\""@);
        is_ascii_chars_encode_utf8("\"}"@);
        lemma_u64_digits(record.seq);
        is_ascii_chars_encode_utf8(float@);
        lemma_quoted_len(record@.partition_key);
        lemma_base64_ascii(data);
    }
}

/// Adds the room for one record; stops at `usize::MAX`.
fn add_room(capacity: usize, record: &Record) -> (r: usize)
    ensures
        r == usize::MAX || r == capacity + record_room(record@),
{
    let key: usize = record.partition_key.as_str().as_bytes().len();
    let data: usize = record.data.len();
    let groups: usize = data / 3 + if data % 3 == 0 {
        0
    } else {
        1
    };
    assert(groups as nat == (record@.data.len() + 2) / 3);
    match (key.checked_mul(6), groups.checked_mul(4)) {
        (Some(key_room), Some(data_room)) => capacity.saturating_add(
            RECORD_JSON_OVERHEAD,
        ).saturating_add(key_room).saturating_add(data_room),
        _ => usize::MAX,
    }
}

/// The room for a response; stops at `usize::MAX`.
fn response_room(records: &Vec<&Record>, next_iterator: &str) -> (r: usize)
    ensures
        r == usize::MAX || r == page_room(refs_view(records@), next_iterator@),
{
    let mut capacity: usize = next_iterator.as_bytes().len().saturating_add(PAGE_JSON_OVERHEAD);
    let mut i: usize = 0;
    while i < records.len()
        invariant
            i <= records@.len(),
            capacity == usize::MAX || capacity == encode_utf8(next_iterator@).len()
                + PAGE_JSON_OVERHEAD + records_room(refs_view(records@), i as nat),
        decreases records@.len() - i,
    {
        assert(refs_view(records@)[i as int] == records@[i as int]@);
        let more: usize = add_room(capacity, records[i]);
        capacity = if capacity == usize::MAX {
            usize::MAX
        } else {
            more
        };
        i = i + 1;
    }
    capacity
}

/// The fixed parts of the text of a response.
proof fn lemma_page_keys()
    ensures
        "{\"Records\":["@ == "{"@ + quoted("Records"@) + ":"@ + "["@,
        "],\"NextShardIterator\":"@ == "]"@ + ","@ + quoted("NextShardIterator"@) + ":"@,
        ",\"MillisBehindLatest\":"@ == ","@ + quoted("MillisBehindLatest"@) + ":"@,
        "{\"Records\":["@.len() == 12,
        "],\"NextShardIterator\":"@.len() == 22,
        ",\"MillisBehindLatest\":"@.len() == 22,
        "}"@.len() == 1,
        ","@.len() == 1,
        is_ascii_chars("{\"Records\":["@),
        is_ascii_chars("],\"NextShardIterator\":"@),
        is_ascii_chars(",\"MillisBehindLatest\":"@),
        is_ascii_chars("}"@),
        is_ascii_chars(","@),
{
    reveal_strlit("{");
    reveal_strlit("}");
    reveal_strlit("[");
    reveal_strlit("]");
    reveal_strlit(":");
    reveal_strlit(",");
    reveal_strlit("Records");
    reveal_strlit("NextShardIterator");
    reveal_strlit("MillisBehindLatest");
    reveal_strlit("{\"Records\":[");
    reveal_strlit("],\"NextShardIterator\":");
    reveal_strlit(",\"MillisBehindLatest\":");
    assert(plain("Records"@));
    lemma_plain_quoted("Records"@);
    assert("{\"Records\":["@ =~= "{"@ + quoted("Records"@) + ":"@ + "["@);
    assert(plain("NextShardIterator"@));
    lemma_plain_quoted("NextShardIterator"@);
    assert("],\"NextShardIterator\":"@ =~= "]"@ + ","@ + quoted("NextShardIterator"@) + ":"@);
    assert(plain("MillisBehindLatest"@));
    lemma_plain_quoted("MillisBehindLatest"@);
    assert(",\"MillisBehindLatest\":"@ =~= ","@ + quoted("MillisBehindLatest"@) + ":"@);
}

/// The text of a response, as it is put together.
proof fn lemma_page_text(records: Seq<RecordV>, token: Seq<char>, millis_behind: u64)
    ensures
        json_text(page_json(records, token, millis_behind)) == "{\"Records\":["@ + items_text(
            records_json(records),
            records.len(),
        ) + "],\"NextShardIterator\":"@ + quoted(token) + ",\"MillisBehindLatest\":"@ + decimal(
            millis_behind as nat,
        ) + "}"@,
{
    lemma_page_keys();
    let fields = page_json(records, token, millis_behind)->Object_0;
    let items = items_text(records_json(records), records.len());
    let digits = decimal(millis_behind as nat);
    reveal_with_fuel(fields_text, 4);
    let f0 = quoted("Records"@) + ":"@ + ("["@ + items + "]"@);
    let f1 = quoted("NextShardIterator"@) + ":"@ + quoted(token);
    let f2 = quoted("MillisBehindLatest"@) + ":"@ + digits;
    assert(json_text(fields[0].1) == "["@ + items + "]"@);
    assert(json_text(fields[1].1) == quoted(token));
    assert(json_text(fields[2].1) == digits);
    assert(fields_text(fields, 3) == f0 + ","@ + f1 + ","@ + f2);
    let s1 = f0 + ","@ + f1;
    let p1 = "{"@ + quoted("Records"@) + ":"@ + "["@;
    let p2 = "]"@ + ","@ + quoted("NextShardIterator"@) + ":"@;
    lemma_regroup("{"@, s1, ","@, f2);
    lemma_regroup("{"@, f0, ","@, f1);
    lemma_regroup_first("{"@, quoted("Records"@), ":"@, "["@, items, "]"@);
    let x0 = p1 + items;
    lemma_regroup_quoted(
        x0,
        "]"@,
        ","@,
        quoted("NextShardIterator"@),
        ":"@,
        quoted(token),
    );
    let x1 = x0 + p2 + quoted(token);
    lemma_regroup_field(x1, ","@, quoted("MillisBehindLatest"@), ":"@, digits);
}

/// Serializes a response into one buffer. The room that is set aside for it is never too
/// small, so that the buffer does not grow while it is filled: with a token in base64, which
/// every token is, the body fits into `page_room`.
pub fn serialize_get_records(
    records: &Vec<&Record>,
    next_iterator: &str,
    millis_behind: u64,
) -> (r: Vec<u8>)
    ensures
        r@ == encode_utf8(
            json_text(page_json(refs_view(records@), next_iterator@, millis_behind)),
        ),
        all_base64_chars(next_iterator@) ==> r@.len() <= page_room(
            refs_view(records@),
            next_iterator@,
        ),
{
    let capacity: usize = response_room(records, next_iterator);
    let mut out: Vec<u8> = Vec::with_capacity(capacity);
    let ghost shown = refs_view(records@);
    let ghost items = records_json(shown);
    let ghost head = "{\"Records\":["@;
    push_text(&mut out, "{\"Records\":[");
    proof {
        assert(head + items_text(items, 0) =~= head);
        assert(out@ =~= encode_utf8(head));
        lemma_page_keys();
        is_ascii_chars_encode_utf8(head);
        is_ascii_chars_encode_utf8(","@);
    }
    let mut i: usize = 0;
    while i < records.len()
        invariant
            i <= records@.len(),
            shown == refs_view(records@),
            items == records_json(shown),
            head == "{\"Records\":["@,
            encode_utf8(","@).len() == 1,
            out@ == encode_utf8(head + items_text(items, i as nat)),
            out@.len() <= 12 + records_room(shown, i as nat),
        decreases records@.len() - i,
    {
        let ghost text = head + items_text(items, i as nat);
        let ghost text2 = if i > 0 {
            text + ","@
        } else {
            text
        };
        if i > 0 {
            push_text(&mut out, ",");
            proof {
                lemma_utf8_concat(text, ","@);
            }
        }
        let record = records[i];
        write_record(&mut out, record);
        proof {
            assert(shown[i as int] == record@);
            assert(items[i as int] == record_json(record@));
            lemma_utf8_concat(text2, json_text(items[i as int]));
            assert(text2 + json_text(items[i as int]) =~= head + items_text(
                items,
                (i + 1) as nat,
            ));
        }
        i = i + 1;
    }
    let ghost t0 = head + items_text(items, shown.len());
    push_text(&mut out, "],\"NextShardIterator\":");
    write_json_string(&mut out, next_iterator);
    push_text(&mut out, ",\"MillisBehindLatest\":");
    let digits = decimal_text(millis_behind as u128);
    push_text(&mut out, digits.as_str());
    push_text(&mut out, "}");
    proof {
        let t1 = t0 + "],\"NextShardIterator\":"@;
        let t2 = t1 + quoted(next_iterator@);
        let t3 = t2 + ",\"MillisBehindLatest\":"@;
        let t4 = t3 + digits@;
        let t5 = t4 + "}"@;
        lemma_utf8_concat(t0, "],\"NextShardIterator\":"@);
        lemma_utf8_concat(t1, quoted(next_iterator@));
        lemma_utf8_concat(t2, ",\"MillisBehindLatest\":"@);
        lemma_utf8_concat(t3, digits@);
        lemma_utf8_concat(t4, "}"@);
        assert(out@ =~= encode_utf8(t5));
        lemma_page_text(shown, next_iterator@, millis_behind);
        assert(t5 == json_text(page_json(shown, next_iterator@, millis_behind)));
        lemma_page_keys();
        is_ascii_chars_encode_utf8("],\"NextShardIterator\":"@);
        is_ascii_chars_encode_utf8(",\"MillisBehindLatest\":"@);
        is_ascii_chars_encode_utf8("}"@);
        if all_base64_chars(next_iterator@) {
            law_base64_needs_no_escaping(next_iterator@);
            lemma_plain_quoted(next_iterator@);
            lemma_utf8_concat(seq!['"'] + next_iterator@, seq!['"']);
            lemma_utf8_concat(seq!['"'], next_iterator@);
            assert(is_ascii_chars(seq!['"']));
            is_ascii_chars_encode_utf8(seq!['"']);
            lemma_u64_digits(millis_behind);
        }
    }
    out
}

// ---- the operation -----------------------------------------------------------

/// What a request asks for: where to read from, and how many records at most.
pub open spec fn read_request(req: JsonV, now: u128) -> Result<(IteratorV, nat), ErrV> {
    match required(req, "ShardIterator"@) {
        Err(error) => Err(error),
        Ok(token) => match token_iterator(token) {
            Err(error) => Err(error),
            Ok(it) => if now > it.expires_ms {
                Err(error_of("ExpiredIteratorException"@, "Iterator expired (5 min TTL)"@))
            } else {
                match read_limit(req) {
                    Err(error) => Err(error),
                    Ok(limit) => Ok((it, limit)),
                }
            },
        },
    }
}

/// How many records a request asks for at most.
pub open spec fn read_limit(req: JsonV) -> Result<nat, ErrV> {
    match req.get("Limit"@) {
        None => Ok(MAX_GET_RECORDS as nat),
        Some(value) => match value.as_u64() {
            Some(limit) => if 1 <= limit <= MAX_GET_RECORDS {
                Ok(limit as nat)
            } else {
                Err(limit_error())
            },
            None => Err(limit_error()),
        },
    }
}

pub open spec fn limit_error() -> ErrV {
    validation_error(
        "1 validation error detected: Value at 'limit' failed to satisfy constraint: Member must have value between 1 and 10000"@,
    )
}

/// The response for an iterator whose page starts at index `start` of its shard: the body,
/// the number of records, and the payload bytes.
pub open spec fn read_response(
    records: Seq<RecordV>,
    it: IteratorV,
    start: int,
    limit: nat,
    now: u128,
) -> (Seq<u8>, nat, nat) {
    let page = page_at(records, it.next_seq, start, limit, now);
    let next = IteratorV {
        next_seq: page.next_seq,
        expires_ms: (now + ITERATOR_TTL_MS) as u128,
        ..it
    };
    (
        encode_utf8(
            json_text(page_json(page.records, iterator_token(next), page.millis_behind)),
        ),
        page.records.len(),
        page.payload_bytes,
    )
}

pub open spec fn shows_response(r: (Vec<u8>, u64, u64), expected: (Seq<u8>, nat, nat)) -> bool {
    r.0@ == expected.0 && r.1 == expected.1 && r.2 == expected.2
}

/// What `get_records` gives at a given time.
pub open spec fn is_read(
    store: StoreV,
    req: JsonV,
    now: u128,
    r: Result<(Vec<u8>, u64, u64), ApiError>,
) -> bool {
    match read_request(req, now) {
        Err(error) => r is Err && r->Err_0@ == error,
        Ok((it, limit)) => match iterated(store, it) {
            Err(error) => r is Err && r->Err_0@ == error,
            Ok(records) => r is Ok && is_response(records, it, limit, now, r->Ok_0),
        },
    }
}

/// Whether a response is that for some index at which the iterator's page may start.
pub open spec fn is_response(
    records: Seq<RecordV>,
    it: IteratorV,
    limit: nat,
    now: u128,
    r: (Vec<u8>, u64, u64),
) -> bool {
    exists|start: int|
        is_start(records, it.next_seq, start) && shows_response(
            r,
            #[trigger] read_response(records, it, start, limit, now),
        )
}

fn parse_limit(req: &Json) -> (r: Result<usize, ApiError>)
    ensures
        match r {
            Ok(limit) => read_limit(req@) == Ok::<nat, ErrV>(limit as nat),
            Err(error) => read_limit(req@) == Err::<nat, ErrV>(error@),
        },
{
    match req.get("Limit") {
        None => Ok(MAX_GET_RECORDS as usize),
        Some(value) => match value.as_u64() {
            Some(limit) if 1 <= limit && limit <= MAX_GET_RECORDS => Ok(limit as usize),
            _ => Err(
                ApiError::validation(
                    String::from_str(
                        "1 validation error detected: Value at 'limit' failed to satisfy constraint: Member must have value between 1 and 10000",
                    ),
                ),
            ),
        },
    }
}

/// Gives the serialized JSON body, the record count, and the raw payload bytes. The count and
/// the bytes are reported to metrics by the caller.
pub fn get_records(store: &Store, req: &Json) -> (r: Result<(Vec<u8>, u64, u64), ApiError>)
    requires
        store.wf(),
        seqs_fit(store@),
    ensures
        exists|now: u128| now <= LAST_MOMENT_MS && #[trigger] is_read(store@, req@, now, r),
{
    let now: u128 = now_ms();
    get_records_at(store, req, now)
}

/// `get_records` at a given time.
pub fn get_records_at(store: &Store, req: &Json, now: u128) -> (r: Result<
    (Vec<u8>, u64, u64),
    ApiError,
>)
    requires
        store.wf(),
        seqs_fit(store@),
        now + ITERATOR_TTL_MS <= u128::MAX,
    ensures
        is_read(store@, req@, now, r),
{
    let token = match require_str(req, "ShardIterator") {
        Ok(token) => token,
        Err(error) => {
            return Err(error);
        },
    };
    let it = match decode_iterator(token) {
        Ok(it) => it,
        Err(error) => {
            return Err(error);
        },
    };
    if now > it.expires_ms {
        return Err(
            ApiError::new(
                "ExpiredIteratorException",
                String::from_str("Iterator expired (5 min TTL)"),
            ),
        );
    }
    let limit: usize = match parse_limit(req) {
        Ok(limit) => limit,
        Err(error) => {
            return Err(error);
        },
    };
    let page = match read_page(store, &it, limit, now) {
        Ok(page) => page,
        Err(error) => {
            return Err(error);
        },
    };
    let ghost start = choose|start: int|
        is_start(iterated(store@, it@)->Ok_0, it.next_seq, start) && page@ == #[trigger] page_at(
            iterated(store@, it@)->Ok_0,
            it.next_seq,
            start,
            limit as nat,
            now,
        );
    let ghost from = it@;
    let next = Iterator {
        stream: it.stream,
        shard_id: it.shard_id,
        next_seq: page.next_seq,
        expires_ms: now + ITERATOR_TTL_MS,
    };
    let next_token = encode_iterator(&next);
    let body = serialize_get_records(&page.records, next_token.as_str(), page.millis_behind);
    let count: u64 = page.records.len() as u64;
    let bytes: u64 = page.payload_bytes as u64;
    let r = (body, count, bytes);
    proof {
        let records = iterated(store@, from)->Ok_0;
        let expected = read_response(records, from, start, limit as nat, now);
        assert(read_request(req@, now) == Ok::<(IteratorV, nat), ErrV>((from, limit as nat)));
        assert(is_start(records, from.next_seq, start));
        assert(shows_response(r, expected));
        assert(iterated(store@, from) == Ok::<Seq<RecordV>, ErrV>(records));
        assert(is_response(records, from, limit as nat, now, r));
    }
    Ok(r)
}

} // verus!
