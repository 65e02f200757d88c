//! Prometheus metrics: cumulative counters plus gauges computed from the store at scrape time.
use crate::clock::{now_ms, LAST_MOMENT_MS};
use crate::json::{items_view, Json, JsonV};
use crate::protocol::{padding_len, payload_len};
use crate::store::{at_most, stream_bytes, stream_count, Store, StoreV};
use crate::text::{decimal, decimal_text, nth_word, parse_decimal, parse_number, str_eq, word};
use vstd::prelude::*;
use vstd::string::StringExecFns;
use vstd::utf8::encode_utf8;

verus! {

/// Every operation that is implemented.
pub const OPS: [&'static str; 10] = [
    "CreateStream",
    "DeleteStream",
    "PutRecord",
    "PutRecords",
    "ListStreams",
    "DescribeStream",
    "DescribeStreamSummary",
    "ListShards",
    "GetShardIterator",
    "GetRecords",
];

/// The counters as a mathematical value; `requests` has one for each operation.
pub struct MetricsV {
    pub put_records: u64,
    pub get_records: u64,
    pub put_bytes: u64,
    pub get_bytes: u64,
    pub requests: Seq<u64>,
    pub start_secs: u64,
}

/// The counters. They start over after `u64::MAX`.
pub struct Metrics {
    pub put_records: u64,
    pub get_records: u64,
    pub put_bytes: u64,
    pub get_bytes: u64,
    pub requests: Vec<u64>,
    pub start_secs: u64,
}

impl View for Metrics {
    type V = MetricsV;

    open spec fn view(&self) -> MetricsV {
        MetricsV {
            put_records: self.put_records,
            get_records: self.get_records,
            put_bytes: self.put_bytes,
            get_bytes: self.get_bytes,
            requests: self.requests@,
            start_secs: self.start_secs,
        }
    }
}

/// A sum that starts over after `u64::MAX`.
pub open spec fn wrapped(a: u64, b: u64) -> u64 {
    if a + b > u64::MAX {
        (a + b - u64::MAX - 1) as u64
    } else {
        (a + b) as u64
    }
}

/// Fresh counters.
pub open spec fn fresh_metrics(start_secs: u64) -> MetricsV {
    MetricsV {
        put_records: 0,
        get_records: 0,
        put_bytes: 0,
        get_bytes: 0,
        requests: Seq::new(10, |i: int| 0u64),
        start_secs,
    }
}

/// The counters after a request for an operation; one that is not implemented is not counted.
pub open spec fn counted_request(metrics: MetricsV, op: Seq<char>) -> MetricsV {
    MetricsV {
        requests: Seq::new(
            metrics.requests.len(),
            |i: int|
                if i < 10 && OPS@[i]@ == op {
                    wrapped(metrics.requests[i], 1)
                } else {
                    metrics.requests[i]
                },
        ),
        ..metrics
    }
}

impl Metrics {
    pub open spec fn wf(self) -> bool {
        self.requests@.len() == 10
    }

    pub fn new() -> (r: Self)
        ensures
            r.wf(),
            exists|now: u128|
                now <= LAST_MOMENT_MS && r@ == #[trigger] fresh_metrics((now / 1000) as u64),
    {
        let now: u128 = now_ms();
        Metrics::new_at((now / 1000) as u64)
    }

    /// Fresh counters of a process that was started at a given time.
    pub fn new_at(start_secs: u64) -> (r: Self)
        ensures
            r.wf(),
            r@ == fresh_metrics(start_secs),
    {
        let mut requests: Vec<u64> = Vec::new();
        requests.resize(10, 0);
        assert(requests@ =~= Seq::new(10, |i: int| 0u64));
        Metrics { put_records: 0, get_records: 0, put_bytes: 0, get_bytes: 0, requests, start_secs }
    }

    /// Counts a request for an operation.
    pub fn record_request(&mut self, op: &str)
        requires
            old(self).wf(),
        ensures
            final(self).wf(),
            final(self)@ == counted_request(old(self)@, op@),
    {
        let ghost before = self@;
        let mut i: usize = 0;
        while i < 10
            invariant
                i <= 10,
                self.wf(),
                before.requests.len() == 10,
                self@ == (MetricsV { requests: self.requests@, ..before }),
                forall|k: int|
                    0 <= k < i ==> #[trigger] self.requests@[k] == counted_request(
                        before,
                        op@,
                    ).requests[k],
                forall|k: int| i <= k < 10 ==> #[trigger] self.requests@[k] == before.requests[k],
            decreases 10 - i,
        {
            if str_eq(OPS[i], op) {
                let count: u64 = self.requests[i];
                self.requests.set(i, count.wrapping_add(1));
            }
            i = i + 1;
        }
        assert(self.requests@ =~= counted_request(before, op@).requests);
    }

    pub fn add_put(&mut self, records: u64, bytes: u64)
        ensures
            final(self).wf() == old(self).wf(),
            final(self)@ == (MetricsV {
                put_records: wrapped(old(self)@.put_records, records),
                put_bytes: wrapped(old(self)@.put_bytes, bytes),
                ..old(self)@
            }),
    {
        self.put_records = self.put_records.wrapping_add(records);
        self.put_bytes = self.put_bytes.wrapping_add(bytes);
    }

    pub fn add_get(&mut self, records: u64, bytes: u64)
        ensures
            final(self).wf() == old(self).wf(),
            final(self)@ == (MetricsV {
                get_records: wrapped(old(self)@.get_records, records),
                get_bytes: wrapped(old(self)@.get_bytes, bytes),
                ..old(self)@
            }),
    {
        self.get_records = self.get_records.wrapping_add(records);
        self.get_bytes = self.get_bytes.wrapping_add(bytes);
    }
}

// ---- the exposition text -----------------------------------------------------

/// A sample: what is measured, a blank, the value, and the end of the line.
pub open spec fn sample(what: Seq<char>, value: nat) -> Seq<char> {
    what + " "@ + decimal(value) + "\n"@
}

/// The samples of the first `n` operations.
pub open spec fn request_samples(requests: Seq<u64>, n: nat) -> Seq<char>
    decreases n,
{
    if n == 0 {
        Seq::empty()
    } else {
        request_samples(requests, (n - 1) as nat) + sample(
            "fakestream_requests_total{op=\""@ + OPS@[n - 1]@ + "\"}"@,
            requests[n - 1] as nat,
        )
    }
}

/// The samples of the first `n` streams.
pub open spec fn stream_samples(store: StoreV, n: nat) -> Seq<char>
    decreases n,
{
    if n == 0 {
        Seq::empty()
    } else {
        let name = store.order[n - 1];
        let stream = store.streams[name];
        stream_samples(store, (n - 1) as nat) + sample(
            "fakestream_records_stored{stream=\""@ + name + "\"}"@,
            at_most(stream_count(stream) as int, u64::MAX as int) as nat,
        ) + sample(
            "fakestream_bytes_stored{stream=\""@ + name + "\"}"@,
            at_most(stream_bytes(stream) as int, u64::MAX as int) as nat,
        )
    }
}

/// The memory gauge, where the memory is known.
pub open spec fn memory_samples(resident: Option<u64>) -> Seq<char> {
    match resident {
        Some(bytes) => "# TYPE process_resident_memory_bytes gauge\n"@ + sample(
            "process_resident_memory_bytes"@,
            bytes as nat,
        ),
        None => Seq::empty(),
    }
}

/// The text that is given to the scraper.
pub open spec fn exposition(metrics: MetricsV, store: StoreV, resident: Option<u64>) -> Seq<char> {
    "# TYPE fakestream_put_records_total counter\n"@ + sample(
        "fakestream_put_records_total"@,
        metrics.put_records as nat,
    ) + "# TYPE fakestream_get_records_total counter\n"@ + sample(
        "fakestream_get_records_total"@,
        metrics.get_records as nat,
    ) + "# TYPE fakestream_put_bytes_total counter\n"@ + sample(
        "fakestream_put_bytes_total"@,
        metrics.put_bytes as nat,
    ) + "# TYPE fakestream_get_bytes_total counter\n"@ + sample(
        "fakestream_get_bytes_total"@,
        metrics.get_bytes as nat,
    ) + "# TYPE fakestream_requests_total counter\n"@ + request_samples(metrics.requests, 10)
        + "# TYPE fakestream_records_stored gauge\n"@ + "# TYPE fakestream_bytes_stored gauge\n"@
        + stream_samples(store, store.order.len()) + "# TYPE process_start_time_seconds gauge\n"@
        + sample("process_start_time_seconds"@, metrics.start_secs as nat) + memory_samples(resident)
}

fn push_sample(out: &mut String, what: &str, value: u64)
    ensures
        final(out)@ == old(out)@ + sample(what@, value as nat),
{
    let digits = decimal_text(value as u128);
    out.append(what);
    out.append(" ");
    out.append(digits.as_str());
    out.append("\n");
    assert(out@ =~= old(out)@ + sample(what@, value as nat));
}

fn push_labelled(out: &mut String, head: &str, label: &str, value: u64)
    ensures
        final(out)@ == old(out)@ + sample(head@ + label@ + "\"}"@, value as nat),
{
    let mut what = String::from_str(head);
    what.append(label);
    what.append("\"}");
    push_sample(out, what.as_str(), value);
}

impl Metrics {
    /// The text that is given to the scraper. `resident` is the resident memory of the process
    /// in bytes, where it is known.
    pub fn render(&self, store: &Store, resident: Option<u64>) -> (r: String)
        requires
            self.wf(),
            store.wf(),
        ensures
            r@ == exposition(self@, store@, resident),
    {
        let mut out = String::from_str("# TYPE fakestream_put_records_total counter\n");
        push_sample(&mut out, "fakestream_put_records_total", self.put_records);
        out.append("# TYPE fakestream_get_records_total counter\n");
        push_sample(&mut out, "fakestream_get_records_total", self.get_records);
        out.append("# TYPE fakestream_put_bytes_total counter\n");
        push_sample(&mut out, "fakestream_put_bytes_total", self.put_bytes);
        out.append("# TYPE fakestream_get_bytes_total counter\n");
        push_sample(&mut out, "fakestream_get_bytes_total", self.get_bytes);
        out.append("# TYPE fakestream_requests_total counter\n");
        let ghost head = out@;
        assert(head + request_samples(self@.requests, 0) =~= head);
        let mut i: usize = 0;
        while i < 10
            invariant
                i <= 10,
                self.wf(),
                out@ == head + request_samples(self@.requests, i as nat),
            decreases 10 - i,
        {
            push_labelled(&mut out, "fakestream_requests_total{op=\"", OPS[i], self.requests[i]);
            i = i + 1;
            assert(out@ =~= head + request_samples(self@.requests, i as nat));
        }
        out.append("# TYPE fakestream_records_stored gauge\n");
        out.append("# TYPE fakestream_bytes_stored gauge\n");
        let sizes = store.stream_sizes();
        let ghost middle = out@;
        assert(middle + stream_samples(store@, 0) =~= middle);
        let mut k: usize = 0;
        while k < sizes.len()
            invariant
                k <= sizes@.len(),
                sizes@.len() == store@.order.len(),
                forall|i: int|
                    0 <= i < sizes@.len() ==> {
                        let stream = store@.streams[store@.order[i]];
                        &&& (#[trigger] sizes@[i]).0@ == store@.order[i]
                        &&& sizes@[i].1 == at_most(stream_count(stream) as int, u64::MAX as int)
                        &&& sizes@[i].2 == at_most(stream_bytes(stream) as int, u64::MAX as int)
                    },
                out@ == middle + stream_samples(store@, k as nat),
            decreases sizes@.len() - k,
        {
            let name = sizes[k].0.as_str();
            push_labelled(&mut out, "fakestream_records_stored{stream=\"", name, sizes[k].1);
            push_labelled(&mut out, "fakestream_bytes_stored{stream=\"", name, sizes[k].2);
            k = k + 1;
            assert(out@ =~= middle + stream_samples(store@, k as nat));
        }
        out.append("# TYPE process_start_time_seconds gauge\n");
        push_sample(&mut out, "process_start_time_seconds", self.start_secs);
        let ghost whole = out@;
        assert(whole + Seq::<char>::empty() =~= whole);
        if let Some(bytes) = resident {
            out.append("# TYPE process_resident_memory_bytes gauge\n");
            push_sample(&mut out, "process_resident_memory_bytes", bytes);
            assert(out@ =~= whole + memory_samples(resident));
        }
        out
    }
}

impl Default for Metrics {
    fn default() -> (r: Self)
        ensures
            r.wf(),
            exists|now: u128|
                now <= LAST_MOMENT_MS && r@ == #[trigger] fresh_metrics((now / 1000) as u64),
    {
        Metrics::new()
    }
}

// ---- counting payload bytes --------------------------------------------------

/// The decoded length of a standard (padded) base64 string, computed without decoding it. For
/// a text that decodes it is the length of what it decodes to.
pub fn b64_decoded_len(s: &str) -> (r: u64)
    ensures
        r == payload_len(encode_utf8(s@)),
{
    let bytes = s.as_bytes();
    let ghost all = bytes@;
    let mut at: usize = bytes.len();
    let mut padding: usize = 0;
    assert(all.take(all.len() as int) =~= all);
    while at > 0 && bytes[at - 1] == 0x3d
        invariant
            at <= bytes@.len(),
            all == bytes@,
            padding + at == bytes@.len(),
            padding_len(all) == padding + padding_len(all.take(at as int)),
        decreases at,
    {
        assert(all.take(at as int).drop_last() =~= all.take(at - 1));
        assert(all.take(at as int).last() == bytes@[at - 1]);
        at = at - 1;
        padding = padding + 1;
    }
    assert(at > 0 ==> all.take(at as int).last() == bytes@[at - 1]);
    let whole: usize = (bytes.len() / 4) * 3;
    whole.saturating_sub(padding) as u64
}

/// The payload bytes of a record in a request, told by its base64 text.
pub open spec fn sent_bytes(record: JsonV) -> nat {
    match record.text_of("Data"@) {
        Some(text) => payload_len(encode_utf8(text)),
        None => 0,
    }
}

/// The payload bytes of a record in a request, told by its base64 text.
pub fn data_bytes(record: &Json) -> (r: u64)
    ensures
        r == sent_bytes(record@),
{
    match record.text_of("Data") {
        Some(text) => b64_decoded_len(text),
        None => 0,
    }
}

/// The number and the payload bytes of those of the first `n` records that were stored.
pub open spec fn stored_records(requests: Seq<JsonV>, results: Seq<JsonV>, n: nat) -> (nat, nat)
    decreases n,
{
    if n == 0 {
        (0, 0)
    } else {
        let (records, bytes) = stored_records(requests, results, (n - 1) as nat);
        if results[n - 1].get("ErrorCode"@) is Some {
            (records, bytes)
        } else {
            (records + 1, bytes + sent_bytes(requests[n - 1]))
        }
    }
}

pub open spec fn shorter(a: nat, b: nat) -> nat {
    if a <= b {
        a
    } else {
        b
    }
}

/// The number and the payload bytes of the records of a batch that were stored; failed entries
/// are left out. (The sums stop at `u64::MAX`.)
pub fn successful_put_metrics(
    request_records: &Vec<Json>,
    response_records: &Vec<Json>,
) -> (r: (u64, u64))
    ensures
        ({
            let requests = items_view(request_records@);
            let results = items_view(response_records@);
            let (records, bytes) = stored_records(
                requests,
                results,
                shorter(requests.len(), results.len()),
            );
            r.0 == at_most(records as int, u64::MAX as int) && r.1 == at_most(
                bytes as int,
                u64::MAX as int,
            )
        }),
{
    let ghost requests = items_view(request_records@);
    let ghost results = items_view(response_records@);
    let mut records: u64 = 0;
    let mut bytes: u64 = 0;
    let mut i: usize = 0;
    while i < request_records.len() && i < response_records.len()
        invariant
            i <= request_records@.len(),
            i <= response_records@.len(),
            requests == items_view(request_records@),
            results == items_view(response_records@),
            ({
                let (n, size) = stored_records(requests, results, i as nat);
                records == at_most(n as int, u64::MAX as int) && bytes == at_most(
                    size as int,
                    u64::MAX as int,
                )
            }),
        decreases request_records@.len() - i,
    {
        assert(requests[i as int] == request_records@[i as int]@);
        assert(results[i as int] == response_records@[i as int]@);
        if response_records[i].get("ErrorCode").is_none() {
            records = records.saturating_add(1);
            bytes = bytes.saturating_add(data_bytes(&request_records[i]));
        }
        i = i + 1;
    }
    (records, bytes)
}

/// The resident memory that the text of `/proc/self/statm` tells: its second word counts pages
/// of 4096 bytes. `None` where there is no such number, or the bytes cannot be counted.
pub open spec fn statm_resident(statm: Seq<char>) -> Option<nat> {
    match word(statm, 0, 1) {
        None => None,
        Some(text) => match parse_decimal(text, u64::MAX as nat) {
            None => None,
            Some(pages) => if pages * 4096 <= u64::MAX {
                Some(pages * 4096)
            } else {
                None
            },
        },
    }
}

/// The resident memory that the text of `/proc/self/statm` tells.
pub fn resident_bytes(statm: &str) -> (r: Option<u64>)
    ensures
        match statm_resident(statm@) {
            Some(bytes) => r is Some && r->0 as nat == bytes,
            None => r is None,
        },
{
    match nth_word(statm, 1) {
        None => None,
        Some(text) => match parse_number(text, u64::MAX as u128) {
            None => None,
            Some(pages) => (pages as u64).checked_mul(4096),
        },
    }
}

} // verus!
