use fakestream::json::{parse, Json};
use fakestream::ops::{
    begin_put_record, begin_put_records, create_stream, delete_stream, describe_stream,
    describe_stream_summary, end_put_record, get_records, get_shard_iterator, list_shards,
    list_streams, put_record, put_records, start_can_be_counted, MAX_PUT_RECORDS_COUNT,
    MAX_RECORD_BYTES,
};
use fakestream::protocol::{encode_data, ApiError};
use fakestream::records::{get_records_at, MAX_GET_RECORDS, MAX_GET_RECORDS_BYTES};
use fakestream::store::{Record, Store};
use serde_json::Value;

fn json(text: &str) -> Json {
    parse(text.as_bytes()).unwrap()
}

fn obj(fields: Vec<(&str, Json)>) -> Json {
    Json::Object(fields.into_iter().map(|(k, v)| (k.to_string(), v)).collect())
}

fn store_with_stream() -> Store {
    let mut s = Store::new(86_400);
    s.create_stream("S", 1, None);
    s
}

fn put_req(data_bytes: usize) -> Json {
    obj(vec![
        ("StreamName", Json::text("S")),
        ("PartitionKey", Json::text("p")),
        ("Data", Json::Text(encode_data(&vec![0u8; data_bytes]))),
    ])
}

fn records_req(records: Vec<(usize, usize)>) -> Json {
    // each entry = (partition_key_len, data_len)
    let recs: Vec<Json> = records
        .into_iter()
        .map(|(pk, d)| {
            obj(vec![
                ("PartitionKey", Json::Text("x".repeat(pk))),
                ("Data", Json::Text(encode_data(&vec![0u8; d]))),
            ])
        })
        .collect();
    obj(vec![("StreamName", Json::text("S")), ("Records", Json::Array(recs))])
}

fn total(store: &Store) -> u64 {
    store.stream_sizes().iter().map(|(_, n, _)| n).sum::<u64>()
}

#[test]
fn put_records_rejects_too_many() {
    let mut store = store_with_stream();
    let req = records_req(vec![(1, 1); MAX_PUT_RECORDS_COUNT + 1]);
    assert_eq!(
        put_records(&mut store, &req).unwrap_err().kind,
        "ValidationException"
    );
}

#[test]
fn put_records_rejects_oversized_member_without_storing() {
    let mut store = store_with_stream();
    let req = records_req(vec![(1, 10), (1, MAX_RECORD_BYTES + 1)]);
    let error = put_records(&mut store, &req).unwrap_err();
    assert_eq!(error.kind, "ValidationException");
    assert_eq!(
        error.message,
        "1 validation error detected: Value at 'records.1.member.data' failed to satisfy \
         constraint: Member must have length less than or equal to 1048576"
    );
    // atomic: nothing stored
    assert_eq!(
        store.stream_sizes().iter().map(|(_, n, _)| n).sum::<u64>(),
        0
    );
}

#[test]
fn put_records_rejects_over_5mib_aggregate() {
    let mut store = store_with_stream();
    let req = records_req(vec![(1, 900_000); 6]); // 5.4 MB total, each < 1 MiB, count < 500
    assert_eq!(
        put_records(&mut store, &req).unwrap_err().kind,
        "ValidationException"
    );
}

#[test]
fn put_records_accepts_valid_batch() {
    let mut store = store_with_stream();
    let req = records_req(vec![(4, 1000); 10]);
    let out = put_records(&mut store, &req).unwrap();
    assert_eq!(out.get("FailedRecordCount").unwrap().as_u64(), Some(0));
    assert_eq!(total(&store), 10);
}

#[test]
fn put_record_rejects_over_1mib() {
    let mut store = store_with_stream();
    let err = put_record(&mut store, &put_req(MAX_RECORD_BYTES + 1)).unwrap_err();
    assert_eq!(err.kind, "ValidationException");
}

#[test]
fn put_record_accepts_exactly_1mib() {
    let mut store = store_with_stream();
    assert!(put_record(&mut store, &put_req(MAX_RECORD_BYTES)).is_ok());
}

#[test]
fn put_records_rejects_unknown_stream() {
    let mut store = Store::new(86_400); // NO stream created
    let req = obj(vec![
        ("StreamName", Json::text("MISSING")),
        (
            "Records",
            Json::Array(vec![obj(vec![
                ("PartitionKey", Json::text("p")),
                ("Data", Json::Text(encode_data(&[1, 2, 3]))),
            ])]),
        ),
    ]);
    assert_eq!(
        put_records(&mut store, &req).unwrap_err().kind,
        "ResourceNotFoundException"
    );
}

#[test]
fn put_record_answers_with_shard_and_number() {
    let mut store = store_with_stream();
    let out = put_record(&mut store, &put_req(3)).unwrap();
    assert_eq!(
        out.to_text(),
        "{\"SequenceNumber\":\"1\",\"ShardId\":\"shardId-000000000000\"}"
    );
    let batch = put_records(&mut store, &records_req(vec![(1, 1), (1, 1)])).unwrap();
    assert_eq!(
        batch.to_text(),
        "{\"FailedRecordCount\":0,\"Records\":[\
         {\"SequenceNumber\":\"2\",\"ShardId\":\"shardId-000000000000\"},\
         {\"SequenceNumber\":\"3\",\"ShardId\":\"shardId-000000000000\"}]}"
    );
}

#[test]
fn put_record_errors_name_their_cause() {
    let mut store = store_with_stream();
    let mut message = |text: &str| {
        let error = put_record(&mut store, &json(text)).unwrap_err();
        (error.kind, error.message)
    };
    assert_eq!(
        message("{\"StreamName\":\"S\"}"),
        ("ValidationException", "Missing required parameter: PartitionKey".to_string())
    );
    assert_eq!(
        message("{\"StreamName\":\"S\",\"PartitionKey\":\"p\"}"),
        ("ValidationException", "Missing required parameter: Data".to_string())
    );
    assert_eq!(
        message("{\"StreamName\":\"S\",\"PartitionKey\":\"p\",\"Data\":\"?\"}"),
        ("InvalidArgumentException", "Data is not valid base64".to_string())
    );
    assert_eq!(
        message("{\"StreamName\":\"S\",\"PartitionKey\":\"p\",\"Data\":\"\",\"ExplicitHashKey\":\"x\"}"),
        ("ValidationException", "Invalid ExplicitHashKey: x".to_string())
    );
    assert_eq!(
        message("{\"StreamName\":\"T\",\"PartitionKey\":\"p\",\"Data\":\"\"}"),
        ("ResourceNotFoundException", "Stream T not found".to_string())
    );
    assert_eq!(total(&store), 0);
}

#[test]
fn put_records_errors_name_their_cause() {
    let mut store = store_with_stream();
    let mut message = |text: &str| put_records(&mut store, &json(text)).unwrap_err().message;
    assert_eq!(message("{\"StreamName\":\"S\"}"), "Missing required parameter: Records");
    assert_eq!(
        message("{\"StreamName\":\"S\",\"Records\":{}}"),
        "Missing required parameter: Records"
    );
    assert_eq!(
        message("{\"StreamName\":\"S\",\"Records\":[7]}"),
        "Missing required parameter: PartitionKey"
    );
    assert_eq!(
        put_records(&mut store, &records_req(vec![(1, 900_000); 6])).unwrap_err().message,
        "Records size exceeds the maximum allowed of 5 MiB for the entire request"
    );
    assert_eq!(
        put_records(&mut store, &records_req(vec![(1, 1); 501])).unwrap_err().message,
        "1 validation error detected: Value at 'records' failed to satisfy constraint: \
         Member must have length less than or equal to 500"
    );
    assert_eq!(store.seq_high_water(), 0);
}

#[test]
fn unlogged_record_is_rolled_back() {
    let mut store = store_with_stream();
    let placed = begin_put_record(&mut store, &put_req(3), 5).unwrap();
    assert_eq!(total(&store), 1);
    let error = end_put_record(&mut store, placed, false).unwrap_err();
    assert_eq!((error.status(), error.kind), (500, "InternalFailure"));
    assert_eq!(error.message, "Record could not be durably persisted");
    assert_eq!(total(&store), 0);
    assert_eq!(store.seq_high_water(), 1);
}

#[test]
fn batch_reports_the_records_that_were_not_logged() {
    let mut store = store_with_stream();
    let mut batch = begin_put_records(&store, &records_req(vec![(1, 1), (1, 1)])).unwrap();
    let mut logged = true;
    while let Some(placed) = batch.place_next(&mut store, 1).unwrap() {
        batch.settle(&mut store, placed, logged);
        logged = false;
    }
    assert_eq!(
        batch.finish().to_text(),
        "{\"FailedRecordCount\":1,\"Records\":[\
         {\"SequenceNumber\":\"1\",\"ShardId\":\"shardId-000000000000\"},\
         {\"ErrorCode\":\"InternalFailure\",\
         \"ErrorMessage\":\"Record could not be durably persisted\"}]}"
    );
    assert_eq!(total(&store), 1);
}

#[test]
fn describe_stream_accepts_stream_arn() {
    let store = store_with_stream();
    let arn = store.streams.get("S").unwrap().arn.clone();
    let out = describe_stream(&store, &obj(vec![("StreamARN", Json::Text(arn))])).unwrap();
    assert_eq!(out.get("StreamDescription").unwrap().text_of("StreamName"), Some("S"));
}

#[test]
fn describe_stream_rejects_malformed_arn() {
    let store = store_with_stream();
    assert_eq!(
        describe_stream(&store, &obj(vec![("StreamARN", Json::text("not-an-arn"))]))
            .unwrap_err()
            .kind,
        "ValidationException"
    );
}

#[test]
fn describe_stream_rejects_arn_name_mismatch() {
    let store = store_with_stream();
    let arn = store.streams.get("S").unwrap().arn.clone();
    let req = obj(vec![("StreamName", Json::text("other")), ("StreamARN", Json::Text(arn))]);
    assert_eq!(
        describe_stream(&store, &req).unwrap_err().kind,
        "ValidationException"
    );
}

#[test]
fn describe_stream_accepts_matching_name_and_arn() {
    let store = store_with_stream();
    let arn = store.streams.get("S").unwrap().arn.clone();
    let req = obj(vec![("StreamName", Json::text("S")), ("StreamARN", Json::Text(arn))]);
    let out = describe_stream(&store, &req).unwrap();
    assert_eq!(out.get("StreamDescription").unwrap().text_of("StreamName"), Some("S"));
}

#[test]
fn describe_stream_rejects_substring_only_arn() {
    let store = store_with_stream();
    let req = obj(vec![("StreamARN", Json::text("garbage:stream/S"))]);
    let error = describe_stream(&store, &req).unwrap_err();
    assert_eq!(error.kind, "ValidationException");
}

#[test]
fn describe_stream_rejects_extra_arn_resource_components() {
    let store = store_with_stream();
    let arn = "arn:aws:kinesis:us-east-1:000000000000:stream/other/S";
    let error = describe_stream(&store, &obj(vec![("StreamARN", Json::text(arn))])).unwrap_err();
    assert_eq!(error.kind, "ValidationException");
}

#[test]
fn describe_stream_rejects_non_string_stream_name() {
    let store = store_with_stream();
    let arn = store.streams.get("S").unwrap().arn.clone();
    let req = obj(vec![("StreamName", Json::number(123)), ("StreamARN", Json::Text(arn))]);
    let error = describe_stream(&store, &req).unwrap_err();
    assert_eq!(error.kind, "ValidationException");
}

#[test]
fn describe_stream_rejects_non_string_stream_arn() {
    let store = store_with_stream();
    let req = obj(vec![("StreamName", Json::text("S")), ("StreamARN", Json::number(123))]);
    let error = describe_stream(&store, &req).unwrap_err();
    assert_eq!(error.kind, "ValidationException");
}

#[test]
fn descriptions_have_their_exact_text() {
    let mut store = Store::new(7_200);
    store.create_stream_at("S", 1, None, 1_700_000_000_999);
    let req = obj(vec![("StreamName", Json::text("S"))]);
    let shard = "{\"HashKeyRange\":{\"EndingHashKey\":\"340282366920938463463374607431768211455\",\
                 \"StartingHashKey\":\"0\"},\
                 \"SequenceNumberRange\":{\"StartingSequenceNumber\":\"0\"},\
                 \"ShardId\":\"shardId-000000000000\"}";
    assert_eq!(
        describe_stream(&store, &req).unwrap().to_text(),
        format!(
            "{{\"StreamDescription\":{{\"EncryptionType\":\"NONE\",\"EnhancedMonitoring\":[],\
             \"HasMoreShards\":false,\"RetentionPeriodHours\":2,\"Shards\":[{shard}],\
             \"StreamARN\":\"arn:aws:kinesis:us-east-1:000000000000:stream/S\",\
             \"StreamCreationTimestamp\":1700000000.0,\
             \"StreamModeDetails\":{{\"StreamMode\":\"PROVISIONED\"}},\
             \"StreamName\":\"S\",\"StreamStatus\":\"ACTIVE\"}}}}"
        )
    );
    assert_eq!(
        describe_stream_summary(&store, &req).unwrap().to_text(),
        "{\"StreamDescriptionSummary\":{\"EncryptionType\":\"NONE\",\"EnhancedMonitoring\":[],\
         \"OpenShardCount\":1,\"RetentionPeriodHours\":2,\
         \"StreamARN\":\"arn:aws:kinesis:us-east-1:000000000000:stream/S\",\
         \"StreamCreationTimestamp\":1700000000.0,\
         \"StreamModeDetails\":{\"StreamMode\":\"PROVISIONED\"},\
         \"StreamName\":\"S\",\"StreamStatus\":\"ACTIVE\"}}"
    );
    assert_eq!(
        list_shards(&store, &req).unwrap().to_text(),
        format!("{{\"Shards\":[{shard}]}}")
    );
    store.bump_seq_to(8);
    store.put("S", "p".into(), vec![], None);
    let text = list_shards(&store, &req).unwrap().to_text();
    assert!(text.contains("\"StartingSequenceNumber\":\"9\""), "{text}");
    let missing = obj(vec![("StreamName", Json::text("T"))]);
    assert_eq!(list_shards(&store, &missing).unwrap_err().message, "Stream T not found");
    assert_eq!(
        describe_stream_summary(&store, &missing).unwrap_err().kind,
        "ResourceNotFoundException"
    );
}

#[test]
fn streams_are_listed_in_order() {
    let mut store = Store::new(0);
    for name in ["b", "a-2", "a", "B", "a.1"] {
        store.create_stream(name, 1, None);
    }
    let out = list_streams(&store, &json("{}")).unwrap();
    let names: Vec<&str> = out
        .get("StreamNames")
        .unwrap()
        .as_array()
        .unwrap()
        .iter()
        .map(|n| n.as_str().unwrap())
        .collect();
    assert_eq!(names, vec!["B", "a", "a-2", "a.1", "b"]);
    let first = &out.get("StreamSummaries").unwrap().as_array().unwrap()[0];
    assert_eq!(
        first.to_text(),
        "{\"StreamARN\":\"arn:aws:kinesis:us-east-1:000000000000:stream/B\",\
         \"StreamName\":\"B\",\"StreamStatus\":\"ACTIVE\"}"
    );
    assert_eq!(
        list_streams(&Store::new(0), &json("{}")).unwrap().to_text(),
        "{\"HasMoreStreams\":false,\"StreamNames\":[],\"StreamSummaries\":[]}"
    );
}

#[test]
fn delete_stream_removes_it_once() {
    let mut store = store_with_stream();
    let req = obj(vec![("StreamName", Json::text("S"))]);
    assert_eq!(delete_stream(&mut store, &req).unwrap().to_text(), "{}");
    let error = delete_stream(&mut store, &req).unwrap_err();
    assert_eq!(error.kind, "ResourceNotFoundException");
    assert_eq!(error.message, "Stream S not found");
}

// ---- CreateStream name validation ------------------------------------------

fn create(name: &str) -> Result<Json, ApiError> {
    create_stream(&mut Store::new(86_400), &obj(vec![("StreamName", Json::text(name))]))
}

#[test]
fn create_stream_accepts_128_char_name() {
    assert!(create(&"a".repeat(128)).is_ok());
}

#[test]
fn create_stream_rejects_129_char_name() {
    assert_eq!(
        create(&"a".repeat(129)).unwrap_err().kind,
        "ValidationException"
    );
}

#[test]
fn create_stream_rejects_illegal_characters() {
    assert_eq!(create("bad\"name").unwrap_err().kind, "ValidationException");
}

#[test]
fn create_stream_rejects_empty_name() {
    assert_eq!(create("").unwrap_err().kind, "ValidationException");
}

fn create_full(req: &Json) -> Result<Json, ApiError> {
    create_stream(&mut Store::new(86_400), req)
}

fn create_with(key: &str, value: Json) -> Result<Json, ApiError> {
    create_full(&obj(vec![("StreamName", Json::text("S")), (key, value)]))
}

#[test]
fn create_stream_accepts_shard_count_boundaries() {
    assert!(create_with("ShardCount", json("1")).is_ok());
    assert!(create_with("ShardCount", json("10000")).is_ok());
}

#[test]
fn create_stream_rejects_bad_shard_count() {
    for value in ["0", "10001", "1.5"] {
        assert_eq!(
            create_with("ShardCount", json(value)).unwrap_err().kind,
            "ValidationException"
        );
    }
}

#[test]
fn create_stream_accepts_short_retention() {
    let out = create_with("RetentionPeriodHours", json("1"));
    assert!(out.is_ok());
}

#[test]
fn create_stream_rejects_overflowing_retention() {
    assert_eq!(
        create_with("RetentionPeriodHours", Json::number(u64::MAX)).unwrap_err().kind,
        "ValidationException"
    );
}

#[test]
fn create_stream_rejects_mistyped_retention() {
    for value in ["-1", "1.5", "\"24\""] {
        assert_eq!(
            create_with("RetentionPeriodHours", json(value)).unwrap_err().kind,
            "ValidationException"
        );
    }
}

#[test]
fn create_stream_refuses_a_taken_name() {
    let mut store = Store::new(60);
    let req = json("{\"StreamName\":\"S\",\"ShardCount\":3,\"RetentionPeriodHours\":2}");
    assert_eq!(create_stream(&mut store, &req).unwrap().to_text(), "{}");
    assert_eq!(store.streams.get("S").unwrap().retention_secs, 7_200);
    assert_eq!(store.streams.get("S").unwrap().shards.len(), 3);
    let error = create_stream(&mut store, &req).unwrap_err();
    assert_eq!(error.kind, "ResourceInUseException");
    assert_eq!(error.message, "Stream S already exists");
    let plain = json("{\"StreamName\":\"T\"}");
    assert!(create_stream(&mut store, &plain).is_ok());
    assert_eq!(store.streams.get("T").unwrap().retention_secs, 60);
    assert_eq!(
        create_stream(&mut store, &json("{}")).unwrap_err().message,
        "Missing required parameter: StreamName"
    );
}

// ---- GetShardIterator argument classification ------------------------------

fn iterator_req(shard_id: &str, iterator_type: &str) -> Json {
    obj(vec![
        ("StreamName", Json::text("S")),
        ("ShardId", Json::text(shard_id)),
        ("ShardIteratorType", Json::text(iterator_type)),
    ])
}

#[test]
fn get_shard_iterator_rejects_unknown_type() {
    let store = store_with_stream();
    let req = iterator_req("shardId-000000000000", "BOGUS");
    assert_eq!(
        get_shard_iterator(&store, &req, None).unwrap_err().kind,
        "ValidationException"
    );
}

#[test]
fn get_shard_iterator_requires_sequence_number() {
    let store = store_with_stream();
    let req = iterator_req("shardId-000000000000", "AT_SEQUENCE_NUMBER");
    assert_eq!(
        get_shard_iterator(&store, &req, None).unwrap_err().kind,
        "InvalidArgumentException"
    );
}

#[test]
fn get_shard_iterator_requires_timestamp() {
    let store = store_with_stream();
    let req = iterator_req("shardId-000000000000", "AT_TIMESTAMP");
    assert_eq!(
        get_shard_iterator(&store, &req, None).unwrap_err().kind,
        "InvalidArgumentException"
    );
    assert!(get_shard_iterator(&store, &req, Some(5)).is_ok());
}

#[test]
fn get_shard_iterator_unknown_shard_is_not_found() {
    let store = store_with_stream();
    let req = iterator_req("shardId-000000000099", "TRIM_HORIZON");
    let error = get_shard_iterator(&store, &req, None).unwrap_err();
    assert_eq!(error.kind, "ResourceNotFoundException");
    assert_eq!(error.message, "Shard shardId-000000000099 not found in S");
}

#[test]
fn get_shard_iterator_errors_name_their_cause() {
    let store = store_with_stream();
    let message = |text: &str| get_shard_iterator(&store, &json(text), None).unwrap_err().message;
    assert_eq!(message("{\"StreamName\":\"S\"}"), "Missing required parameter: ShardId");
    assert_eq!(
        message("{\"StreamName\":\"S\",\"ShardId\":\"x\"}"),
        "Missing required parameter: ShardIteratorType"
    );
    assert_eq!(
        message("{\"StreamName\":\"S\",\"ShardId\":\"x\",\"ShardIteratorType\":\"LATEST\",\"StartingSequenceNumber\":\"x\"}"),
        "Invalid StartingSequenceNumber"
    );
    assert_eq!(
        message("{\"StreamName\":\"T\",\"ShardId\":\"x\",\"ShardIteratorType\":\"LATEST\"}"),
        "Stream T not found"
    );
    assert_eq!(
        message("{\"StreamName\":\"T\",\"ShardId\":\"x\",\"ShardIteratorType\":\"AFTER_SEQUENCE_NUMBER\"}"),
        "StartingSequenceNumber is required for ShardIteratorType AFTER_SEQUENCE_NUMBER"
    );
    assert_eq!(
        message("{\"StreamName\":\"T\",\"ShardId\":\"x\",\"ShardIteratorType\":\"UP\"}"),
        "Invalid ShardIteratorType: UP"
    );
}

#[test]
fn iterator_behind_the_last_number_is_noticed() {
    let store = store_with_stream();
    let at = |text: &str| {
        obj(vec![
            ("StreamName", Json::text("S")),
            ("ShardId", Json::text("shardId-000000000000")),
            ("ShardIteratorType", Json::text("AFTER_SEQUENCE_NUMBER")),
            ("StartingSequenceNumber", Json::text(text)),
        ])
    };
    assert!(!start_can_be_counted(&store, &at("18446744073709551615"), None));
    assert!(start_can_be_counted(&store, &at("18446744073709551614"), None));
    assert!(start_can_be_counted(&store, &json("{}"), None));
}

// ---- GetRecords serialization + 10 MiB cap ---------------------------------

fn iterator_token(store: &Store, iterator_type: &str) -> String {
    get_shard_iterator(store, &iterator_req("shardId-000000000000", iterator_type), None)
        .unwrap()
        .text_of("ShardIterator")
        .unwrap()
        .to_string()
}

fn get(store: &Store, token: &str, limit: Option<u64>) -> (Value, u64, u64) {
    let mut fields = vec![("ShardIterator", Json::text(token))];
    if let Some(l) = limit {
        fields.push(("Limit", Json::number(l)));
    }
    let (body, count, bytes) = get_records(store, &obj(fields)).unwrap();
    (serde_json::from_slice(&body).unwrap(), count, bytes)
}

#[test]
fn get_records_serializes_fields_and_counts() {
    let mut store = store_with_stream();
    store.put("S", "pk-1".into(), vec![1, 2, 3, 4], None);
    store.put("S", "pk-2".into(), vec![5, 6, 7], None);
    let token = iterator_token(&store, "TRIM_HORIZON");
    let (v, count, bytes) = get(&store, &token, None);
    assert_eq!(count, 2);
    assert_eq!(bytes, 7);
    let recs = v["Records"].as_array().unwrap();
    assert_eq!(recs.len(), 2);
    assert_eq!(recs[0]["PartitionKey"], "pk-1");
    assert_eq!(recs[0]["Data"], encode_data(&[1, 2, 3, 4]));
    assert_eq!(recs[1]["Data"], encode_data(&[5, 6, 7]));
    assert!(recs[0]["SequenceNumber"].is_string());
    assert!(recs[0]["ApproximateArrivalTimestamp"].is_number());
    assert!(v["NextShardIterator"].is_string());
    assert_eq!(v["MillisBehindLatest"], 0);
}

#[test]
fn get_records_respects_limit() {
    let mut store = store_with_stream();
    for i in 0..5 {
        store.put("S", format!("p{i}"), vec![0u8; 10], None);
    }
    let token = iterator_token(&store, "TRIM_HORIZON");
    let (v, count, _) = get(&store, &token, Some(2));
    assert_eq!(count, 2);
    assert_eq!(v["Records"].as_array().unwrap().len(), 2);
}

#[test]
fn get_records_accepts_limit_boundaries() {
    let store = store_with_stream();
    let token = iterator_token(&store, "TRIM_HORIZON");
    for limit in [1u64, MAX_GET_RECORDS] {
        let req = obj(vec![("ShardIterator", Json::text(&token)), ("Limit", Json::number(limit))]);
        assert!(get_records(&store, &req).is_ok());
    }
}

#[test]
fn get_records_rejects_out_of_range_limit() {
    let store = store_with_stream();
    let token = iterator_token(&store, "TRIM_HORIZON");
    for limit in [Json::number(0), Json::number(MAX_GET_RECORDS + 1)] {
        let req = obj(vec![("ShardIterator", Json::text(&token)), ("Limit", limit)]);
        assert_eq!(
            get_records(&store, &req).unwrap_err().kind,
            "ValidationException"
        );
    }
    let req = obj(vec![("ShardIterator", Json::text(&token)), ("Limit", json("1.5"))]);
    assert_eq!(
        get_records(&store, &req).unwrap_err().message,
        "1 validation error detected: Value at 'limit' failed to satisfy constraint: \
         Member must have value between 1 and 10000"
    );
}

#[test]
fn get_records_caps_response_at_10_mib_and_resumes() {
    let mut store = store_with_stream();
    for i in 0..12 {
        store.put("S", format!("pk-{i}"), vec![0u8; 1_048_576], None);
    }
    let token = iterator_token(&store, "TRIM_HORIZON");
    let (v1, count1, bytes1) = get(&store, &token, None);
    assert_eq!(count1, 10, "10 x 1 MiB == 10 MiB cap; 11th would exceed");
    assert!(bytes1 <= MAX_GET_RECORDS_BYTES as u64);
    let next = v1["NextShardIterator"].as_str().unwrap().to_string();
    let (v2, count2, _) = get(&store, &next, None);
    assert_eq!(count2, 2);
    assert_eq!(v2["Records"][0]["PartitionKey"], "pk-10");
}

#[test]
fn get_records_returns_single_oversize_record_alone() {
    let mut store = store_with_stream();
    store.put("S", "big".into(), vec![0u8; 11 * 1_048_576], None);
    store.put("S", "small".into(), vec![1u8; 4], None);
    let token = iterator_token(&store, "TRIM_HORIZON");
    let (v, count, _) = get(&store, &token, None);
    assert_eq!(count, 1, "oversize record must still make progress");
    assert_eq!(v["Records"][0]["PartitionKey"], "big");
}

#[test]
fn get_records_escapes_partition_key() {
    let mut store = store_with_stream();
    // Includes raw control chars that expand to the 6-byte \uXXXX form, the worst case for
    // the buffer-capacity estimate.
    let pk = "a\"b\\c\nd\te\u{0001}\u{1f}";
    store.put("S", pk.into(), vec![1, 2, 3], None);
    let token = iterator_token(&store, "TRIM_HORIZON");
    let (v, _, _) = get(&store, &token, None);
    assert_eq!(v["Records"][0]["PartitionKey"], pk);
}

#[test]
fn get_records_body_matches_reference() {
    let mut state = 12345u64;
    let mut next = |n: u64| {
        state = state.wrapping_mul(6364136223846793005).wrapping_add(1442695040888963407);
        (state >> 33) % n
    };
    for _ in 0..50 {
        let records: Vec<(String, Vec<u8>)> = (0..next(8))
            .map(|_| {
                let key: String = (0..next(12))
                    .map(|_| char::from_u32(next(0x2100) as u32).unwrap_or('x'))
                    .collect();
                let data = (0..next(40)).map(|_| next(256) as u8).collect();
                (key, data)
            })
            .collect();
        let mut store = store_with_stream();
        for (pk, data) in &records {
            store.put("S", pk.clone(), data.clone(), None);
        }
        let token = iterator_token(&store, "TRIM_HORIZON");
        let (got, count, bytes) = get(&store, &token, None);
        let recs = got["Records"].as_array().unwrap();
        assert_eq!(recs.len(), records.len());
        assert_eq!(count as usize, records.len());
        let total: usize = records.iter().map(|(_, d)| d.len()).sum();
        assert_eq!(bytes as usize, total);
        for (i, (pk, data)) in records.iter().enumerate() {
            assert_eq!(recs[i]["PartitionKey"].as_str().unwrap(), pk.as_str());
            assert_eq!(recs[i]["Data"].as_str().unwrap(), encode_data(data));
        }
    }
}

#[test]
fn get_records_has_its_exact_text() {
    let mut store = Store::new(0);
    store.create_stream_at("S", 1, None, 0);
    let rec = |seq: u64, timestamp_ms: u128| Record {
        seq,
        partition_key: "k".into(),
        data: b"foo".to_vec(),
        timestamp_ms,
    };
    store.restore_record("S", "shardId-000000000000", rec(4, 1_999));
    store.restore_record("S", "shardId-000000000000", rec(9, 2_000));
    let it = fakestream::store::Iterator {
        stream: "S".into(),
        shard_id: "shardId-000000000000".into(),
        next_seq: 0,
        expires_ms: 5_000,
    };
    let token = fakestream::token::encode_iterator(&it);
    let req = obj(vec![("ShardIterator", Json::text(&token)), ("Limit", Json::number(1))]);
    let (body, count, bytes) = get_records_at(&store, &req, 5_000).unwrap();
    let next = fakestream::token::encode_iterator(&fakestream::store::Iterator {
        next_seq: 5,
        expires_ms: 305_000,
        ..it
    });
    assert_eq!(
        String::from_utf8(body).unwrap(),
        format!(
            "{{\"Records\":[{{\"SequenceNumber\":\"4\",\"ApproximateArrivalTimestamp\":1.0,\
             \"PartitionKey\":\"k\",\"Data\":\"Zm9v\"}}],\"NextShardIterator\":\"{next}\",\
             \"MillisBehindLatest\":3001}}"
        )
    );
    assert_eq!((count, bytes), (1, 3));
    let error = get_records_at(&store, &req, 5_001).unwrap_err();
    assert_eq!(error.kind, "ExpiredIteratorException");
    assert_eq!(error.message, "Iterator expired (5 min TTL)");
}

#[test]
fn get_records_errors_name_their_cause() {
    let mut store = store_with_stream();
    let message = |store: &Store, token: &str| {
        let req = obj(vec![("ShardIterator", Json::text(token))]);
        get_records(store, &req).unwrap_err().message
    };
    assert_eq!(
        get_records(&store, &json("{}")).unwrap_err().message,
        "Missing required parameter: ShardIterator"
    );
    assert_eq!(message(&store, "?"), "Malformed shard iterator");
    let token = iterator_token(&store, "LATEST");
    store.streams.get_mut("S").unwrap().shards.clear();
    assert_eq!(message(&store, &token), "Shard shardId-000000000000 not found");
    store.streams.remove("S");
    assert_eq!(message(&store, &token), "Stream S not found");
}

#[test]
fn a_waiting_reader_gets_what_is_put_next() {
    let mut store = store_with_stream();
    store.put("S", "old".into(), vec![1], None);
    let token = iterator_token(&store, "LATEST");
    let (before, count, _) = get(&store, &token, None);
    assert_eq!(count, 0);
    let next = before["NextShardIterator"].as_str().unwrap().to_string();
    put_record(&mut store, &put_req(2)).unwrap();
    let (v, count, bytes) = get(&store, &next, None);
    assert_eq!((count, bytes), (1, 2));
    assert_eq!(v["Records"][0]["Data"], encode_data(&[0, 0]));
}
