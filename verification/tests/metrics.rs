use fakestream::json::{parse, Json};
use fakestream::metrics::{
    b64_decoded_len, resident_bytes, successful_put_metrics, Metrics,
};
use fakestream::protocol::encode_data;
use fakestream::store::Store;

fn json(text: &str) -> Json {
    parse(text.as_bytes()).unwrap()
}

#[test]
fn counters_render_after_increment() {
    let mut metrics = Metrics::new();
    metrics.record_request("PutRecord");
    metrics.add_put(2, 100);
    metrics.add_get(1, 50);
    let text = metrics.render(&Store::new(0), None);
    assert!(text.contains("fakestream_put_records_total 2"), "{text}");
    assert!(text.contains("fakestream_put_bytes_total 100"), "{text}");
    assert!(text.contains("fakestream_get_records_total 1"), "{text}");
    assert!(text.contains("fakestream_get_bytes_total 50"), "{text}");
    assert!(
        text.contains("fakestream_requests_total{op=\"PutRecord\"} 1"),
        "{text}"
    );
}

#[test]
fn gauges_reflect_store_contents() {
    let mut store = Store::new(0);
    store.create_stream("API-TRANSACTIONS", 1, None);
    // put(stream, partition_key: String, data: Vec<u8>, explicit_hash_key: Option<u128>)
    store.put("API-TRANSACTIONS", "pk".to_string(), vec![1, 2, 3, 4], None);
    let text = Metrics::new().render(&store, None);
    assert!(
        text.contains("fakestream_records_stored{stream=\"API-TRANSACTIONS\"} 1"),
        "{text}"
    );
    assert!(
        text.contains("fakestream_bytes_stored{stream=\"API-TRANSACTIONS\"} 4"),
        "{text}"
    );
}

#[test]
fn b64_len_matches_decoded_size() {
    assert_eq!(b64_decoded_len("AAAA"), 3);
    assert_eq!(b64_decoded_len("AAA="), 2);
    assert_eq!(b64_decoded_len("AA=="), 1);
    assert_eq!(b64_decoded_len(""), 0);
}

#[test]
fn b64_len_of_encoded_data_is_its_length() {
    for n in 0..40usize {
        let text = encode_data(&vec![7u8; n]);
        assert_eq!(b64_decoded_len(&text), n as u64);
    }
    assert_eq!(b64_decoded_len("===="), 0);
    assert_eq!(b64_decoded_len("A"), 0);
}

#[test]
fn whole_exposition_text() {
    let mut metrics = Metrics::new_at(1_700_000_000);
    metrics.record_request("GetRecords");
    metrics.record_request("GetRecords");
    metrics.record_request("Unheard");
    let mut store = Store::new(0);
    store.create_stream("S", 1, None);
    let text = metrics.render(&store, Some(4096));
    let expected = "# TYPE fakestream_put_records_total counter\n\
        fakestream_put_records_total 0\n\
        # TYPE fakestream_get_records_total counter\n\
        fakestream_get_records_total 0\n\
        # TYPE fakestream_put_bytes_total counter\n\
        fakestream_put_bytes_total 0\n\
        # TYPE fakestream_get_bytes_total counter\n\
        fakestream_get_bytes_total 0\n\
        # TYPE fakestream_requests_total counter\n\
        fakestream_requests_total{op=\"CreateStream\"} 0\n\
        fakestream_requests_total{op=\"DeleteStream\"} 0\n\
        fakestream_requests_total{op=\"PutRecord\"} 0\n\
        fakestream_requests_total{op=\"PutRecords\"} 0\n\
        fakestream_requests_total{op=\"ListStreams\"} 0\n\
        fakestream_requests_total{op=\"DescribeStream\"} 0\n\
        fakestream_requests_total{op=\"DescribeStreamSummary\"} 0\n\
        fakestream_requests_total{op=\"ListShards\"} 0\n\
        fakestream_requests_total{op=\"GetShardIterator\"} 0\n\
        fakestream_requests_total{op=\"GetRecords\"} 2\n\
        # TYPE fakestream_records_stored gauge\n\
        # TYPE fakestream_bytes_stored gauge\n\
        fakestream_records_stored{stream=\"S\"} 0\n\
        fakestream_bytes_stored{stream=\"S\"} 0\n\
        # TYPE process_start_time_seconds gauge\n\
        process_start_time_seconds 1700000000\n\
        # TYPE process_resident_memory_bytes gauge\n\
        process_resident_memory_bytes 4096\n";
    assert_eq!(text, expected);
}

#[test]
fn counters_start_over() {
    let mut metrics = Metrics::default();
    metrics.add_put(u64::MAX, 1);
    metrics.add_put(2, 1);
    assert_eq!(metrics.put_records, 1);
    assert_eq!(metrics.put_bytes, 2);
}

#[test]
fn successful_put_metrics_excludes_failed_entries() {
    let request = vec![json("{\"Data\":\"AAAA\"}"), json("{\"Data\":\"AAAA\"}")];
    let response = vec![
        json("{\"ShardId\":\"shardId-000000000000\",\"SequenceNumber\":\"1\"}"),
        json("{\"ErrorCode\":\"InternalFailure\",\"ErrorMessage\":\"boom\"}"),
    ];
    let (records, bytes) = successful_put_metrics(&request, &response);
    assert_eq!(records, 1);
    assert_eq!(bytes, 3); // one "AAAA" decodes to 3 bytes
}

#[test]
fn successful_put_metrics_counts_all_when_none_failed() {
    let request = vec![json("{\"Data\":\"AAAA\"}"), json("{\"Data\":\"AAA=\"}")];
    let response = vec![
        json("{\"ShardId\":\"shardId-000000000000\",\"SequenceNumber\":\"1\"}"),
        json("{\"ShardId\":\"shardId-000000000000\",\"SequenceNumber\":\"2\"}"),
    ];
    let (records, bytes) = successful_put_metrics(&request, &response);
    assert_eq!(records, 2);
    assert_eq!(bytes, 5); // 3 + 2
}

#[test]
fn resident_memory_is_the_second_word() {
    assert_eq!(resident_bytes("1000 25 7 1 0 5 0\n"), Some(102_400));
    assert_eq!(resident_bytes("1000"), None);
    assert_eq!(resident_bytes("1000 many"), None);
    assert_eq!(resident_bytes("  1\t2  "), Some(8192));
    assert_eq!(resident_bytes("1 18446744073709551615"), None);
}
