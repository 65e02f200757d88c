use std::time::{Duration, SystemTime};

use fakestream::store::{hash_key, Record, Store};

const SHARD: &str = "shardId-000000000000";

fn rec(seq: u64) -> Record {
    Record {
        seq,
        partition_key: "p".into(),
        data: vec![1, 2, 3],
        timestamp_ms: 100,
    }
}

fn at(seq: u64, timestamp_ms: u128) -> Record {
    Record {
        seq,
        partition_key: "p".into(),
        data: vec![seq as u8],
        timestamp_ms,
    }
}

fn seqs(store: &Store, stream: &str, shard: usize) -> Vec<u64> {
    store.streams.get(stream).unwrap().shards[shard]
        .records
        .iter()
        .map(|r| r.seq)
        .collect()
}

#[test]
fn restore_record_preserves_seq_and_does_not_increment_counter() {
    let mut s = Store::new(86_400);
    s.create_stream("S", 1, None);
    // rec()'s timestamp predates a real creation clock; float creation back
    // so replay accepts it (the resurrection guard uses created_ms).
    s.streams.get_mut("S").unwrap().created_ms = 0;
    assert!(s.restore_record("S", "shardId-000000000000", rec(42)));
    assert_eq!(s.last_record("S", "shardId-000000000000").unwrap().seq, 42);
    s.bump_seq_to(42);
    let (_, seq) = s.put("S", "p".into(), vec![9], None).unwrap();
    assert_eq!(seq, 43);
}

#[test]
fn manifest_serde_round_trip_drops_records() {
    let mut s = Store::new(86_400);
    s.create_stream("S", 1, None);
    s.restore_record("S", "shardId-000000000000", rec(1));
    let definitions = fakestream::manifest::save(&s);
    assert!(definitions[0].1.shards[0].records.is_empty());
    let back = fakestream::manifest::load(definitions, s.seq_high_water(), 86_400);
    assert!(back.streams.contains_key("S"));
    assert_eq!(back.last_record("S", "shardId-000000000000"), None);
}

#[test]
fn max_retention_is_the_largest_stream() {
    let mut s = Store::new(3600);
    s.create_stream("A", 1, Some(3600));
    s.create_stream("B", 1, Some(86_400));
    assert_eq!(s.max_retention_secs(), 86_400);
}

#[test]
fn max_retention_falls_back_and_zero_wins() {
    let mut s = Store::new(77);
    assert_eq!(s.max_retention_secs(), 77);
    s.create_stream("A", 1, Some(3600));
    s.create_stream("B", 1, Some(0));
    assert_eq!(s.max_retention_secs(), 0);
}

#[test]
fn save_then_load_round_trips_streams_and_seq() {
    let mut store = Store::new(86_400);
    store.create_stream("API-TRANSACTIONS", 1, None);
    store.put("API-TRANSACTIONS", "p".into(), vec![0u8; 10], None);
    let definitions = fakestream::manifest::save(&store);
    let loaded = fakestream::manifest::load(definitions, store.seq_high_water(), 86_400);
    assert!(loaded.streams.contains_key("API-TRANSACTIONS"));
    // records are NOT in the manifest
    assert_eq!(
        loaded.stream_sizes().iter().map(|(_, n, _)| n).sum::<u64>(),
        0
    );
    assert_eq!(loaded.seq_high_water(), 1);
}

#[test]
fn manifest_keeps_the_later_of_two_definitions() {
    let mut a = Store::new(1);
    a.create_stream_at("S", 1, Some(10), 5);
    let mut b = Store::new(1);
    b.create_stream_at("S", 2, Some(20), 6);
    let mut definitions = fakestream::manifest::save(&a);
    definitions.extend(fakestream::manifest::save(&b));
    let loaded = fakestream::manifest::load(definitions, 9, 1);
    assert_eq!(loaded.streams.len(), 1);
    assert_eq!(loaded.streams.get("S").unwrap().retention_secs, 20);
    assert_eq!(loaded.streams.get("S").unwrap().shards.len(), 2);
}

#[test]
fn initial_store_takes_the_configured_retention() {
    let loaded = fakestream::manifest::initial_store(Some(Store::new(1)), 9);
    assert_eq!(loaded.default_retention_secs, 9);
    let empty = fakestream::manifest::initial_store(None, 7);
    assert_eq!(empty.default_retention_secs, 7);
    assert_eq!(empty.streams.len(), 0);
}

#[test]
fn md5_places_keys_on_the_ring() {
    // MD5("") and MD5("a"), read as big-endian numbers.
    assert_eq!(hash_key(""), 0xd41d8cd98f00b204e9800998ecf8427e);
    assert_eq!(hash_key("a"), 0x0cc175b9c0f1b6a831c399e269772661);
}

#[test]
fn shards_cut_the_ring_without_gaps() {
    let mut s = Store::new(0);
    assert!(s.create_stream("S", 3, None));
    let shards = &s.streams.get("S").unwrap().shards;
    let step = u128::MAX / 3;
    assert_eq!(shards[0].hash_start, 0);
    assert_eq!(shards[0].hash_end, step - 1);
    assert_eq!(shards[1].hash_start, step);
    assert_eq!(shards[1].hash_end, 2 * step - 1);
    assert_eq!(shards[2].hash_start, 2 * step);
    assert_eq!(shards[2].hash_end, u128::MAX);
    assert_eq!(shards[2].id, "shardId-000000000002");
    assert!(!s.create_stream("S", 1, None));
    assert_eq!(s.streams.get("S").unwrap().shards.len(), 3);
}

#[test]
fn zero_shards_means_one() {
    let mut s = Store::new(0);
    s.create_stream("S", 0, None);
    assert_eq!(s.streams.get("S").unwrap().shards.len(), 1);
    assert_eq!(
        s.streams.get("S").unwrap().arn,
        "arn:aws:kinesis:us-east-1:000000000000:stream/S"
    );
}

#[test]
fn explicit_hash_key_picks_the_shard() {
    let mut s = Store::new(0);
    s.create_stream("S", 2, None);
    let (low, _) = s.put("S", "p".into(), vec![], Some(0)).unwrap();
    let (high, _) = s.put("S", "p".into(), vec![], Some(u128::MAX)).unwrap();
    assert_eq!(low, "shardId-000000000000");
    assert_eq!(high, "shardId-000000000001");
    // MD5("a") starts with 0x0c: the lower half.
    let (hashed, _) = s.put("S", "a".into(), vec![], None).unwrap();
    assert_eq!(hashed, "shardId-000000000000");
}

#[test]
fn put_into_a_missing_stream_uses_up_a_number() {
    let mut s = Store::new(0);
    assert!(s.put("S", "p".into(), vec![], None).is_none());
    assert_eq!(s.seq_high_water(), 1);
}

#[test]
fn put_then_pop_restores_the_records() {
    let mut s = Store::new(0);
    s.create_stream("S", 1, None);
    s.put("S", "a".into(), vec![1], None);
    let (shard, seq) = s.put("S", "b".into(), vec![2], None).unwrap();
    assert!(!s.pop_record("S", &shard, seq + 1));
    assert!(!s.pop_record("T", &shard, seq));
    assert!(!s.pop_record("S", "nowhere", seq));
    assert!(s.pop_record("S", &shard, seq));
    assert_eq!(seqs(&s, "S", 0), vec![1]);
    // the number stays used up
    let (_, next) = s.put("S", "c".into(), vec![3], None).unwrap();
    assert_eq!(next, 3);
}

#[test]
fn trim_drops_exactly_what_is_too_old() {
    let mut s = Store::new(0);
    s.create_stream_at("S", 1, Some(1), 0);
    s.create_stream_at("FOREVER", 1, Some(0), 0);
    for (seq, ts) in [(1u64, 0u128), (2, 9_000), (3, 8_999), (4, 20_000)] {
        s.restore_record("S", SHARD, at(seq, ts));
        s.restore_record("FOREVER", SHARD, at(seq, ts));
    }
    assert_eq!(s.trim_expired(10_000), 2);
    assert_eq!(seqs(&s, "S", 0), vec![2, 4]);
    assert_eq!(seqs(&s, "FOREVER", 0), vec![1, 2, 3, 4]);
    assert_eq!(s.trim_expired(10_000), 0);
}

#[test]
fn stream_sizes_count_records_and_bytes() {
    let mut s = Store::new(0);
    s.create_stream("A", 2, None);
    s.create_stream("B", 1, None);
    s.put("A", "p".into(), vec![0; 3], Some(0));
    s.put("A", "p".into(), vec![0; 4], Some(u128::MAX));
    assert_eq!(
        s.stream_sizes(),
        vec![("A".to_string(), 2, 7), ("B".to_string(), 0, 0)]
    );
}

#[test]
fn restore_refuses_what_is_older_than_the_stream() {
    let mut s = Store::new(0);
    s.create_stream_at("S", 1, None, 1_000);
    assert!(!s.restore_record("S", SHARD, at(1, 999)));
    assert!(s.restore_record("S", SHARD, at(2, 1_000)));
    assert!(!s.restore_record("S", "nowhere", at(3, 2_000)));
    assert!(!s.restore_record("T", SHARD, at(3, 2_000)));
    assert_eq!(seqs(&s, "S", 0), vec![2]);
    assert_eq!(s.seq_high_water(), 0);
}

#[test]
fn bump_never_lowers_the_counter() {
    let mut s = Store::new(0);
    s.bump_seq_to(5);
    s.bump_seq_to(3);
    assert_eq!(s.seq_high_water(), 5);
}

#[test]
fn iterator_types_resolve_to_their_start() {
    let mut s = Store::new(0);
    s.create_stream_at("S", 1, None, 0);
    for (seq, ts) in [(3u64, 10u128), (5, 20), (9, 30)] {
        s.restore_record("S", SHARD, at(seq, ts));
    }
    let start = |kind: &str, seq: Option<u64>, ts: Option<u128>| {
        s.make_iterator_at("S", SHARD, kind, seq, ts, 1_000)
            .map(|it| (it.next_seq, it.expires_ms))
    };
    assert_eq!(start("TRIM_HORIZON", None, None), Some((0, 301_000)));
    assert_eq!(start("LATEST", None, None), Some((10, 301_000)));
    assert_eq!(start("AT_SEQUENCE_NUMBER", Some(5), None), Some((5, 301_000)));
    assert_eq!(start("AFTER_SEQUENCE_NUMBER", Some(5), None), Some((6, 301_000)));
    assert_eq!(start("AT_TIMESTAMP", None, Some(11)), Some((5, 301_000)));
    assert_eq!(start("AT_TIMESTAMP", None, Some(31)), Some((10, 301_000)));
    assert_eq!(start("AT_TIMESTAMP", None, None), None);
    assert_eq!(start("AT_SEQUENCE_NUMBER", None, None), None);
    assert_eq!(start("AFTER_SEQUENCE_NUMBER", None, None), None);
    assert_eq!(start("SIDEWAYS", None, None), None);
    assert!(s.make_iterator("S", SHARD, "LATEST", None, None).is_some());
    assert!(s.make_iterator("T", SHARD, "LATEST", None, None).is_none());
    assert!(s.make_iterator("S", "nowhere", "LATEST", None, None).is_none());
}

#[test]
fn iterator_start_is_checked_before_it_is_counted() {
    let mut s = Store::new(0);
    s.create_stream_at("S", 1, None, 0);
    assert!(s.iterator_can_start("S", SHARD, "LATEST", None));
    assert!(!s.iterator_can_start("S", SHARD, "AFTER_SEQUENCE_NUMBER", Some(u64::MAX)));
    assert!(s.iterator_can_start("S", SHARD, "AT_SEQUENCE_NUMBER", Some(u64::MAX)));
    assert!(s.iterator_can_start("T", SHARD, "AFTER_SEQUENCE_NUMBER", Some(u64::MAX)));
    s.restore_record("S", SHARD, at(u64::MAX, 1));
    assert!(!s.iterator_can_start("S", SHARD, "LATEST", None));
    assert!(!s.iterator_can_start("S", SHARD, "AT_TIMESTAMP", None));
    assert!(s.iterator_can_start("S", SHARD, "TRIM_HORIZON", None));
}

#[test]
fn replay_restores_raises_the_counter_and_trims() {
    let mut s = Store::new(0);
    s.create_stream_at("S", 1, Some(10), 0);
    let entry = |seq: u64, ts: u128, stream: &str| {
        (stream.to_string(), SHARD.to_string(), at(seq, ts))
    };
    let removed = s.replay(
        vec![
            entry(1, 1_000, "S"),
            entry(2, 50_000, "S"),
            entry(7, 50_000, "GONE"),
            entry(3, 50_001, "S"),
        ],
        60_000,
    );
    assert_eq!(removed, 1);
    assert_eq!(seqs(&s, "S", 0), vec![2, 3]);
    assert_eq!(s.seq_high_water(), 7);
}

#[test]
fn streams_are_found_replaced_and_removed() {
    let mut s = Store::new(0);
    s.create_stream("A", 1, None);
    s.create_stream("B", 1, None);
    s.create_stream("C", 1, None);
    assert!(s.streams.remove("B").is_some());
    assert!(s.streams.remove("B").is_none());
    assert_eq!(s.streams.len(), 2);
    assert_eq!(s.streams.name_at(1), "C");
    assert_eq!(s.streams.at(1).name, "C");
    assert!(s.streams.get("B").is_none());
    s.streams.at_mut(0).retention_secs = 12;
    assert_eq!(s.streams.get("A").unwrap().retention_secs, 12);
}

#[test]
fn the_clock_runs() {
    assert!(fakestream::store::now_ms() > 1_600_000_000_000);
}

#[test]
fn record_clone_keeps_the_fields() {
    assert_eq!(rec(4).clone(), rec(4));
}

#[test]
fn the_last_sequence_number_is_noticed() {
    let mut s = Store::new(0);
    s.create_stream_at("S", 2, None, 0);
    s.restore_record("S", SHARD, at(5, 1));
    assert!(fakestream::records::numbers_fit(&s));
    s.restore_record("S", "shardId-000000000001", at(u64::MAX, 1));
    assert!(!fakestream::records::numbers_fit(&s));
}

#[test]
fn checkpoint_resume_skips_what_was_consumed() {
    let mut s = Store::new(0);
    s.create_stream_at("S", 1, None, 0);
    for seq in [1u64, 2, 3] {
        s.restore_record("S", SHARD, at(seq, 1));
    }
    let it = s
        .make_iterator_at("S", SHARD, "AFTER_SEQUENCE_NUMBER", Some(1), None, 0)
        .unwrap();
    let page = fakestream::records::read_page(&s, &it, 10_000, 0).ok().unwrap();
    let read: Vec<u64> = page.records.iter().map(|r| r.seq).collect();
    assert_eq!(read, vec![2, 3]);
    assert_eq!((page.next_seq, page.payload_bytes, page.millis_behind), (4, 2, 0));
}

#[test]
fn pages_follow_each_other() {
    let mut s = Store::new(0);
    s.create_stream_at("S", 1, None, 0);
    for seq in [2u64, 4, 6, 8, 10] {
        s.restore_record("S", SHARD, at(seq, 100));
    }
    let mut it = s
        .make_iterator_at("S", SHARD, "TRIM_HORIZON", None, None, 0)
        .unwrap();
    let mut read = Vec::new();
    let mut lags = Vec::new();
    loop {
        let page = fakestream::records::read_page(&s, &it, 2, 150).ok().unwrap();
        if page.records.is_empty() {
            break;
        }
        read.extend(page.records.iter().map(|r| r.seq));
        lags.push(page.millis_behind);
        it.next_seq = page.next_seq;
    }
    assert_eq!(read, vec![2, 4, 6, 8, 10]);
    assert_eq!(lags, vec![50, 50, 0]);
}

#[test]
fn clock_readings_count_from_the_epoch() {
    let epoch = SystemTime::UNIX_EPOCH;
    assert_eq!(fakestream::clock::time_ms(&epoch), 0);
    assert_eq!(fakestream::clock::time_ms(&(epoch + Duration::from_micros(1_500_999))), 1_500);
    assert_eq!(fakestream::clock::time_ms(&(epoch - Duration::from_secs(1))), 0);
}

#[test]
fn trims_add_up() {
    let filled = || {
        let mut s = Store::new(0);
        s.create_stream_at("S", 1, Some(1), 0);
        for (seq, ts) in [(1u64, 0u128), (2, 2_000), (3, 4_000), (4, 9_000)] {
            s.restore_record("S", SHARD, at(seq, ts));
        }
        s
    };
    let (mut a, mut b) = (filled(), filled());
    let first = a.trim_expired(2_000);
    let second = a.trim_expired(6_000);
    assert_eq!((first, second, b.trim_expired(6_000)), (1, 2, 3));
    assert_eq!(seqs(&a, "S", 0), seqs(&b, "S", 0));
    assert_eq!(seqs(&a, "S", 0), vec![4]);
}

#[test]
fn retentions_are_listed_by_stream() {
    let mut s = Store::new(7);
    s.create_stream("A", 1, Some(0));
    s.create_stream("B", 1, None);
    assert_eq!(
        s.stream_retentions(),
        vec![("A".to_string(), 0), ("B".to_string(), 7)]
    );
}
