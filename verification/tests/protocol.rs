use fakestream::json::{parse, Json};
use fakestream::params::{arn_stream_name, parse_u128, resolve_stream_name, validate_stream_name};
use fakestream::protocol::{decode_data, encode_data, encode_data_into, parse_target, ApiError};
use fakestream::store::Iterator;
use fakestream::token::{decode_iterator, encode_iterator};

fn json(text: &str) -> Json {
    parse(text.as_bytes()).unwrap()
}

#[test]
fn target_header_names_the_operation() {
    assert_eq!(parse_target("Kinesis_20131202.PutRecord"), Some("PutRecord"));
    assert_eq!(parse_target("Kinesis_20131202."), Some(""));
    assert_eq!(parse_target("kinesis_20131202.PutRecord"), None);
    assert_eq!(parse_target("Kinesis"), None);
}

#[test]
fn error_bodies_are_json_with_sorted_keys() {
    let error = ApiError::validation("bad \"thing\"\n".to_string());
    assert_eq!(error.status(), 400);
    assert_eq!(error.kind, "ValidationException");
    assert_eq!(
        error.body(),
        "{\"__type\":\"ValidationException\",\"message\":\"bad \\\"thing\\\"\\n\"}"
    );
    assert_eq!(ApiError::not_found("x".to_string()).kind, "ResourceNotFoundException");
    let internal = ApiError::internal("x".to_string());
    assert_eq!((internal.status(), internal.kind), (500, "InternalFailure"));
    let same = ApiError::new("InternalFailure", "x".to_string());
    assert_eq!(same.status(), 500);
    let other = ApiError::new("ResourceInUseException", "y".to_string());
    assert_eq!((other.status(), other.message.as_str()), (400, "y"));
}

#[test]
fn base64_encodes_and_decodes() {
    assert_eq!(encode_data(b""), "");
    assert_eq!(encode_data(b"f"), "Zg==");
    assert_eq!(encode_data(b"fo"), "Zm8=");
    assert_eq!(encode_data(b"foo"), "Zm9v");
    assert_eq!(encode_data(&[0xfb, 0xff]), "+/8=");
    assert_eq!(decode_data("Zm9v").unwrap(), b"foo");
    assert_eq!(decode_data("Zg==").unwrap(), b"f");
    for n in 0..64usize {
        let data: Vec<u8> = (0..n).map(|i| (i * 37) as u8).collect();
        assert_eq!(decode_data(&encode_data(&data)).unwrap(), data);
    }
}

#[test]
fn base64_refuses_what_encode_never_writes() {
    for text in ["Zg", "Zg=", "Zh==", "Zm9v\n", "Z=g=", "====", "Zm-_"] {
        let error = decode_data(text).unwrap_err();
        assert_eq!(error.kind, "InvalidArgumentException");
        assert_eq!(error.message, "Data is not valid base64");
    }
}

#[test]
fn base64_is_appended_in_place() {
    for n in 0..20usize {
        let data: Vec<u8> = (0..n).map(|i| (i * 91) as u8).collect();
        let mut out = b"head:".to_vec();
        encode_data_into(&data, &mut out);
        assert_eq!(out, format!("head:{}", encode_data(&data)).into_bytes());
    }
}

#[test]
fn json_text_is_compact() {
    let value = Json::Object(vec![
        ("a".to_string(), Json::Array(vec![Json::Null, Json::Bool(true), Json::number(7)])),
        ("b".to_string(), Json::Object(vec![])),
        ("c".to_string(), Json::text("\u{1}\u{8}\u{c}\r\t\u{7f}\u{e9}\u{1F600}/")),
        ("d".to_string(), Json::seconds(1_700_000_000)),
        ("e".to_string(), Json::Bool(false)),
    ]);
    assert_eq!(
        value.to_text(),
        "{\"a\":[null,true,7],\"b\":{},\"c\":\"\\u0001\\b\\f\\r\\t\u{7f}\u{e9}\u{1F600}/\",\
         \"d\":1700000000.0,\"e\":false}"
    );
}

#[test]
fn seconds_print_as_floats() {
    assert_eq!(Json::seconds(0).to_text(), "0.0");
    assert_eq!(Json::seconds(999_999_999_999_999).to_text(), "999999999999999.0");
    assert!(Json::seconds(u128::MAX).to_text().len() <= 24);
}

#[test]
fn json_values_are_read() {
    let value = json("{\"n\": 12, \"f\": 1.5, \"neg\": -3, \"s\": \"x\\u0041\", \"l\": [1, [2]], \"t\": true, \"z\": null}");
    assert_eq!(value.get("n").unwrap().as_u64(), Some(12));
    assert_eq!(value.get("f").unwrap().as_u64(), None);
    assert_eq!(value.get("neg").unwrap().as_u64(), None);
    assert_eq!(value.text_of("s"), Some("xA"));
    assert_eq!(value.text_of("n"), None);
    assert_eq!(value.get("l").unwrap().as_array().unwrap().len(), 2);
    assert!(value.get("missing").is_none());
    assert!(Json::Null.get("n").is_none());
    assert!(parse(b"{").is_none());
    assert!(parse(b"").is_none());
    assert!(parse(&[0xff, 0xfe]).is_none());
    assert_eq!(
        value.to_text(),
        "{\"f\":1.5,\"l\":[1,[2]],\"n\":12,\"neg\":-3,\"s\":\"xA\",\"t\":true,\"z\":null}"
    );
    match value.get("f").unwrap() {
        Json::Number { unsigned, text } => {
            assert_eq!(*unsigned, None);
            assert_eq!(text, "1.5");
        }
        _ => panic!("a number was expected"),
    }
}

#[test]
fn iterator_tokens_round_trip() {
    for (stream, shard_id) in [("S", "shardId-000000000000"), ("", ""), ("q\"\\\n", "\u{1}é")] {
        let it = Iterator {
            stream: stream.to_string(),
            shard_id: shard_id.to_string(),
            next_seq: u64::MAX,
            expires_ms: u128::MAX,
        };
        let back = decode_iterator(&encode_iterator(&it)).unwrap();
        assert_eq!(back.stream, stream);
        assert_eq!(back.shard_id, shard_id);
        assert_eq!(back.next_seq, u64::MAX);
        assert_eq!(back.expires_ms, u128::MAX);
    }
}

#[test]
fn iterator_token_has_its_exact_text() {
    let it = Iterator {
        stream: "S".to_string(),
        shard_id: "shardId-000000000000".to_string(),
        next_seq: 5,
        expires_ms: 300,
    };
    let inner = b"{\"expires_ms\":\"300\",\"next_seq\":5,\"shard_id\":\"shardId-000000000000\",\"stream\":\"S\"}";
    assert_eq!(encode_iterator(&it), encode_data(inner));
}

#[test]
fn malformed_tokens_are_refused_and_gaps_are_filled() {
    for token in ["not base64!", &encode_data(b"not json")] {
        let error = decode_iterator(token).err().unwrap();
        assert_eq!(error.kind, "InvalidArgumentException");
        assert_eq!(error.message, "Malformed shard iterator");
    }
    let it = decode_iterator(&encode_data(b"{\"next_seq\":\"5\",\"expires_ms\":\"x\"}")).unwrap();
    assert_eq!((it.stream.as_str(), it.shard_id.as_str()), ("", ""));
    assert_eq!((it.next_seq, it.expires_ms), (0, 0));
    let plus = decode_iterator(&encode_data(b"{\"expires_ms\":\"+12\"}")).unwrap();
    assert_eq!(plus.expires_ms, 12);
    let list = decode_iterator(&encode_data(b"[1]")).unwrap();
    assert_eq!(list.next_seq, 0);
}

#[test]
fn stream_names_come_from_names_or_arns() {
    assert_eq!(arn_stream_name("arn:aws:kinesis:us-east-1:000000000000:stream/S"), Some("S"));
    for partition in ["aws-us-gov", "aws-cn", "aws-"] {
        let arn = format!("arn:{partition}:kinesis:r:123456789012:stream/a.b-c_9");
        assert_eq!(arn_stream_name(&arn), Some("a.b-c_9"));
    }
    for arn in [
        "x:stream/",
        "garbage:stream/S",
        "arn:aws:kinesis:us-east-1:000000000000:stream/",
        "arn:aws:kinesis:us-east-1:000000000000:stream/a/b",
        "arn:aws:kinesis:us-east-1:000000000000:stream/a b",
        "arn:aws:kinesis:us-east-1:000000000000:stream/a:b",
        "arn:aws:kinesis:us-east-1:000000000000:shard/S",
        "arn:aws:kinesis:us-east-1:00000000000:stream/S",
        "arn:aws:kinesis:us-east-1:00000000000x:stream/S",
        "arn:aws:kinesis::000000000000:stream/S",
        "arn:aws:dynamodb:us-east-1:000000000000:stream/S",
        "arn:awsome:kinesis:us-east-1:000000000000:stream/S",
        "urn:aws:kinesis:us-east-1:000000000000:stream/S",
        "arn:aws:kinesis:us-east-1:stream/S",
    ] {
        assert_eq!(arn_stream_name(arn), None, "{arn}");
    }
    assert_eq!(arn_stream_name("x/S"), None);
    assert_eq!(resolve_stream_name(&json("{\"StreamName\":\"S\"}")).unwrap(), "S");
    let arn = "arn:aws:kinesis:us-east-1:000000000000:stream/S";
    let by_arn = json(&format!("{{\"StreamARN\":\"{arn}\"}}"));
    assert_eq!(resolve_stream_name(&by_arn).unwrap(), "S");
    let message = |text: &str| resolve_stream_name(&json(text)).unwrap_err().message;
    assert_eq!(message("{}"), "Missing required parameter: StreamName");
    assert_eq!(message("{\"StreamARN\":\"nope\"}"), "Invalid StreamARN: nope");
    assert_eq!(
        message("{\"StreamARN\":\"nope\",\"StreamName\":\"S\"}"),
        "Invalid StreamARN: nope"
    );
    assert_eq!(
        message(&format!("{{\"StreamARN\":\"{arn}\",\"StreamName\":\"T\"}}")),
        format!("StreamARN {arn} does not match StreamName T")
    );
    assert_eq!(
        message(&format!("{{\"StreamARN\":\"{arn}\",\"StreamName\":123}}")),
        "StreamName must be a string when provided"
    );
    assert_eq!(
        message("{\"StreamARN\":123,\"StreamName\":\"S\"}"),
        "StreamARN must be a string when provided"
    );
    assert_eq!(
        message("{\"StreamARN\":null,\"StreamName\":\"S\"}"),
        "StreamARN must be a string when provided"
    );
}

#[test]
fn name_errors_say_what_is_wrong() {
    assert!(validate_stream_name("aZ09_.-").is_ok());
    assert_eq!(
        validate_stream_name("").unwrap_err().message,
        "1 validation error detected: Value '' at 'streamName' failed to satisfy constraint: \
         Member must have length between 1 and 128"
    );
    assert_eq!(
        validate_stream_name("a b").unwrap_err().message,
        "1 validation error detected: Value 'a b' at 'streamName' failed to satisfy constraint: \
         Member must satisfy regular expression pattern: [a-zA-Z0-9_.-]+"
    );
}

#[test]
fn hash_keys_are_decimal() {
    assert_eq!(parse_u128("0", "F").unwrap(), 0);
    assert_eq!(
        parse_u128("340282366920938463463374607431768211455", "F").unwrap(),
        u128::MAX
    );
    for text in ["340282366920938463463374607431768211456", "", "+", "-1", "1x"] {
        assert_eq!(
            parse_u128(text, "F").unwrap_err().message,
            format!("Invalid F: {text}")
        );
    }
}

#[test]
fn written_json_agrees_with_serde_json() {
    for text in [
        "null",
        "[]",
        "{}",
        "[1,\"two\",[3.5,-4,1e300],{\"k\":null}]",
        "{\"b\":true,\"a\":[false],\"\\u0000\\\"\":\"\\u001f\\u007f/\\\\\\n\"}",
        "{\"nested\":{\"x\":{\"y\":[[],[{}]]}},\"n\":18446744073709551615}",
        "12345678901234567890123",
        "{\"dup\":1,\"dup\":2}",
    ] {
        let value: serde_json::Value = serde_json::from_str(text).unwrap();
        assert_eq!(json(text).to_text(), value.to_string());
    }
    for code in 0u32..0x300 {
        let c = char::from_u32(code).unwrap();
        let text = format!("a{c}b");
        assert_eq!(Json::text(&text).to_text(), serde_json::to_string(&text).unwrap());
    }
    for secs in [0u128, 1, 1_700_000_000, u64::MAX as u128, u128::MAX] {
        assert_eq!(
            Json::seconds(secs).to_text(),
            serde_json::to_string(&(secs as f64)).unwrap()
        );
    }
}
