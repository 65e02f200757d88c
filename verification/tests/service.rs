use fakestream::config::{arg_value, opt, Config, Environment};
use fakestream::json::{parse, Json};
use fakestream::maintenance::{next_step, CycleAction, CycleEvent};
use fakestream::metrics::Metrics;
use fakestream::router::{
    accept, check_body, count_reply, endpoint, plan, run_change, run_read, settle_request, Endpoint,
    Operation, Reply,
};
use fakestream::store::Store;
use fakestream::text::{all_blank, less, nth_word};

fn json(text: &str) -> Json {
    parse(text.as_bytes()).unwrap()
}

fn nothing() -> Environment {
    Environment {
        port: None,
        persist_interval: None,
        ttl_seconds: None,
        retention_hours: None,
        persist_path: None,
        segment_bytes: None,
    }
}

fn args(list: &[&str]) -> Vec<String> {
    list.iter().map(|a| a.to_string()).collect()
}

#[test]
fn settings_have_their_defaults() {
    let config = Config::load(&nothing(), &args(&["fakestream"]));
    assert_eq!(config.port, 4567);
    assert_eq!(config.persist_interval_secs, 5);
    assert_eq!(config.default_retention_secs, 86_400);
    assert_eq!(config.persist_dir, None);
    assert_eq!(config.segment_bytes, 67_108_864);
}

#[test]
fn flags_set_and_environment_wins() {
    let mut env = nothing();
    let line = args(&[
        "fakestream", "--port", "80", "--persist-interval", "0", "--persist", "/data",
        "--segment-bytes", "16", "--retention-hours", "2",
    ]);
    let config = Config::load(&env, &line);
    assert_eq!(config.port, 80);
    assert_eq!(config.persist_interval_secs, 1);
    assert_eq!(config.default_retention_secs, 7_200);
    assert_eq!(config.persist_dir.as_deref(), Some("/data"));
    assert_eq!(config.segment_bytes, 16);
    env.port = Some("81".to_string());
    env.ttl_seconds = Some("9".to_string());
    env.persist_path = Some("".to_string());
    let config = Config::load(&env, &line);
    assert_eq!(config.port, 81);
    assert_eq!(config.default_retention_secs, 9);
    assert_eq!(config.persist_dir, None);
}

#[test]
fn unusable_settings_count_as_not_given() {
    let mut env = nothing();
    env.port = Some("65536".to_string());
    env.ttl_seconds = Some("soon".to_string());
    env.retention_hours = Some("18446744073709551615".to_string());
    let config = Config::load(&env, &args(&[]));
    assert_eq!(config.port, 4567);
    assert_eq!(config.default_retention_secs, 86_400);
    assert_eq!(arg_value(&args(&["a", "--x"]), "--x"), None);
    assert_eq!(arg_value(&args(&["--x", "1", "--x", "2"]), "--x").as_deref(), Some("1"));
    assert_eq!(opt(&Some("e".to_string()), &args(&["--x", "1"]), "--x").as_deref(), Some("e"));
}

#[test]
fn endpoints_are_told_apart() {
    assert_eq!(endpoint(true, "/metrics"), Endpoint::Metrics);
    assert_eq!(endpoint(true, "/"), Endpoint::Health);
    assert_eq!(endpoint(false, "/metrics"), Endpoint::Operation);
}

#[test]
fn bodies_are_bounded() {
    assert!(check_body(Some(16_777_216)).is_none());
    let large = check_body(Some(16_777_217)).unwrap();
    assert_eq!(large.kind, "ValidationException");
    assert_eq!(large.message, "Request body exceeds the 16 MiB limit");
    let broken = check_body(None).unwrap();
    assert_eq!(broken.kind, "SerializationException");
    assert_eq!(broken.message, "Unreadable request body");
}

#[test]
fn requests_are_planned() {
    let target = Some("Kinesis_20131202.ListStreams");
    let (name, req) = plan(target, " \n\u{a0}").unwrap();
    assert_eq!((name.as_str(), req.to_text().as_str()), ("ListStreams", "{}"));
    let (_, req) = plan(target, "{\"a\":1}").unwrap();
    assert_eq!(req.get("a").unwrap().as_u64(), Some(1));
    let error = plan(target, "{").err().unwrap();
    assert_eq!(error.kind, "SerializationException");
    assert_eq!(error.message, "Request body is not valid JSON");
    for target in [None, Some("ListStreams")] {
        let error = plan(target, "{").err().unwrap();
        assert_eq!(error.kind, "UnknownOperationException");
        assert_eq!(error.message, "Missing or invalid X-Amz-Target");
    }
    assert!(accept(target, "{", Some(Json::Null)).is_ok());
    assert!(accept(target, "x", None).is_err());
}

#[test]
fn operations_have_names() {
    for op in fakestream::metrics::OPS {
        assert_eq!(Operation::of_name(op).unwrap().name(), op);
    }
    let error = Operation::of_name("SubscribeToShard").unwrap_err();
    assert_eq!(error.kind, "UnknownOperationException");
    assert_eq!(error.message, "Operation SubscribeToShard is not implemented by fakestream");
}

#[test]
fn operations_run_and_are_counted() {
    let mut store = Store::new(60);
    let mut metrics = Metrics::new_at(0);
    let create = json("{\"StreamName\":\"S\"}");
    assert!(run_change(Operation::CreateStream, &mut store, &create, 5).is_ok());
    assert_eq!(store.streams.get("S").unwrap().created_ms, 5);
    let put = json("{\"StreamName\":\"S\",\"PartitionKey\":\"p\",\"Data\":\"AAAA\"}");
    let answer = fakestream::ops::put_record_at(&mut store, &put, 6).unwrap();
    count_reply(&mut metrics, Operation::PutRecord, &put, &Reply::Json(answer));
    assert_eq!((metrics.put_records, metrics.put_bytes), (1, 3));
    let batch = json("{\"StreamName\":\"S\",\"Records\":[{\"PartitionKey\":\"p\",\"Data\":\"AA==\"}]}");
    let answer = fakestream::ops::put_records(&mut store, &batch).unwrap();
    count_reply(&mut metrics, Operation::PutRecords, &batch, &Reply::Json(answer));
    assert_eq!((metrics.put_records, metrics.put_bytes), (2, 4));
    let ask = json("{\"StreamName\":\"S\",\"ShardId\":\"shardId-000000000000\",\"ShardIteratorType\":\"TRIM_HORIZON\"}");
    let token = match run_read(Operation::GetShardIterator, &store, &ask, None, 7) {
        Ok(Reply::Json(value)) => value.text_of("ShardIterator").unwrap().to_string(),
        _ => panic!("a token was expected"),
    };
    let read = Json::Object(vec![("ShardIterator".to_string(), Json::text(&token))]);
    let reply = run_read(Operation::GetRecords, &store, &read, None, 8).ok().unwrap();
    match &reply {
        Reply::Records(_, count, bytes) => assert_eq!((*count, *bytes), (2, 4)),
        Reply::Json(_) => panic!("records were expected"),
    }
    count_reply(&mut metrics, Operation::GetRecords, &read, &reply);
    assert_eq!((metrics.get_records, metrics.get_bytes), (2, 4));
    for op in [
        Operation::ListStreams,
        Operation::DescribeStream,
        Operation::DescribeStreamSummary,
        Operation::ListShards,
    ] {
        let reply = run_read(op, &store, &create, None, 9).ok().unwrap();
        let before = (metrics.put_records, metrics.get_records);
        count_reply(&mut metrics, op, &create, &reply);
        assert_eq!((metrics.put_records, metrics.get_records), before);
    }
    assert!(run_change(Operation::DeleteStream, &mut store, &create, 9).is_ok());
    assert!(run_change(Operation::DeleteStream, &mut store, &create, 9).is_err());
    assert!(run_read(Operation::DescribeStream, &store, &create, None, 9).is_err());
}

#[test]
fn text_helpers_handle_edges() {
    assert!(all_blank(""));
    assert!(all_blank("\u{2003}\t\r\n\u{3000}"));
    assert!(!all_blank(" x "));
    assert!(!all_blank("\u{200b}"));
    assert!(less("", "a"));
    assert!(less("a", "b"));
    assert!(less("a", "aa"));
    assert!(!less("a", "a"));
    assert!(!less("b", "aa"));
    assert_eq!(nth_word("one two", 1), Some("two"));
    assert_eq!(nth_word("one two ", 2), None);
    for n in [0u128, 9, 10, 1_234, u128::MAX] {
        let text = fakestream::text::decimal_text(n);
        assert_eq!(text, n.to_string());
        assert_eq!(fakestream::text::parse_number(&text, u128::MAX), Some(n));
    }
    assert_eq!(fakestream::text::padded_text(42, 5), "00042");
    assert_eq!(fakestream::text::parse_number("300", 255), None);
    assert_eq!(fakestream::text::parse_number("+007", 255), Some(7));
}

#[test]
fn segments_are_dropped_only_after_a_save() {
    assert_eq!(next_step(CycleEvent::Trimmed, true), CycleAction::Save);
    assert_eq!(next_step(CycleEvent::Trimmed, false), CycleAction::Wait);
    assert_eq!(next_step(CycleEvent::Saved(true), true), CycleAction::Drop);
    assert_eq!(next_step(CycleEvent::Saved(false), true), CycleAction::Wait);
}

#[test]
fn only_what_succeeded_is_counted_and_saved() {
    let mut store = Store::new(60);
    let mut metrics = Metrics::new_at(0);
    let put = json("{\"StreamName\":\"S\",\"PartitionKey\":\"p\",\"Data\":\"AAAA\"}");
    let refused = fakestream::ops::put_record(&mut store, &put).map(Reply::Json);
    assert!(refused.is_err());
    assert!(!settle_request(&mut metrics, Operation::PutRecord, &put, &refused));
    assert_eq!((metrics.put_records, metrics.put_bytes), (0, 0));
    for operation in [Operation::CreateStream, Operation::DeleteStream] {
        let result = run_change(operation, &mut store, &put, 1).map(Reply::Json);
        assert!(settle_request(&mut metrics, operation, &put, &result));
    }
    let again = run_change(Operation::DeleteStream, &mut store, &put, 1).map(Reply::Json);
    assert!(!settle_request(&mut metrics, Operation::DeleteStream, &put, &again));
    store.create_stream("S", 1, None);
    let stored = fakestream::ops::put_record(&mut store, &put).map(Reply::Json);
    assert!(!settle_request(&mut metrics, Operation::PutRecord, &put, &stored));
    assert_eq!((metrics.put_records, metrics.put_bytes), (1, 3));
}
