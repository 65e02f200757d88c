use std::collections::BTreeMap;

use fakestream::json::Json;
use fakestream::ops::{begin_put_record, begin_put_records, end_put_record};
use fakestream::protocol::encode_data;
use fakestream::store::{Record, Store};
use fakestream::wal::{
    decode_segment, encode_frame, frame, frame_body, seg_name, segment_id, segment_ids,
    AppendAction, AppendEvent, Entry, Loader, Removal, Segment, Tail, Wal,
};

const SHARD: &str = "shardId-000000000000";

fn rec(seq: u64, data: Vec<u8>) -> Record {
    Record {
        seq,
        partition_key: "pk".into(),
        data,
        timestamp_ms: 7,
    }
}

/// The newest timestamp of stream "S".
fn newest(timestamp_ms: u128) -> Vec<(String, u128)> {
    vec![("S".to_string(), timestamp_ms)]
}

/// The retention of stream "S".
fn keep(retention_secs: u64) -> Vec<(String, u64)> {
    vec![("S".to_string(), retention_secs)]
}

/// Segment files that live in memory, with a buffered writer. Files cannot be opened while the
/// directory is `gone`, and a write takes only `reached` bytes to the file where that is set.
struct Disk {
    files: BTreeMap<String, Vec<u8>>,
    writer: String,
    buffer: Vec<u8>,
    gone: bool,
    reached: Option<usize>,
}

impl Disk {
    fn new() -> Disk {
        Disk {
            files: BTreeMap::new(),
            writer: String::new(),
            buffer: Vec::new(),
            gone: false,
            reached: None,
        }
    }

    fn load(&mut self, segment_max: u64) -> (Wal, Vec<Entry>) {
        let names: Vec<String> = self.files.keys().cloned().collect();
        let segments: Vec<(u64, Vec<u8>)> = segment_ids(&names)
            .into_iter()
            .map(|id| (id, self.files[&seg_name(id)].clone()))
            .collect();
        let last = segments.last().map(|(id, _)| seg_name(*id));
        let (wal, entries, tails) = Wal::load(segment_max, segments);
        if let (Some(name), Some(Tail::Truncate(len))) = (last, tails.last()) {
            self.files.get_mut(&name).unwrap().truncate(*len);
        }
        self.writer = seg_name(wal.active_id);
        self.files.entry(self.writer.clone()).or_default();
        (wal, entries)
    }

    /// Lets the log go: a healthy writer flushes, a poisoned one is discarded.
    fn drop_log(&mut self, wal: Wal) {
        if !wal.poisoned {
            self.flush();
        }
        self.buffer.clear();
    }

    fn flush(&mut self) {
        let file = self.files.get_mut(&self.writer).unwrap();
        file.append(&mut self.buffer);
    }

    fn append(&mut self, wal: &mut Wal, stream: &str, shard_id: &str, record: &Record) -> bool {
        let bytes = encode_frame(stream, shard_id, record);
        let mut event = AppendEvent::Start;
        loop {
            event = match wal.append(event, bytes.len(), stream, record.timestamp_ms) {
                AppendAction::Flush => {
                    self.flush();
                    AppendEvent::Flushed(true)
                }
                AppendAction::Discard => {
                    self.buffer.clear();
                    AppendEvent::Discarded
                }
                AppendAction::Open(id) => {
                    if !self.gone {
                        self.flush();
                        self.writer = seg_name(id);
                        self.files.entry(self.writer.clone()).or_default();
                    }
                    AppendEvent::Opened(!self.gone)
                }
                AppendAction::Write => {
                    self.buffer.extend_from_slice(&bytes);
                    match self.reached {
                        None => {
                            self.flush();
                            AppendEvent::Written(true)
                        }
                        Some(reached) => {
                            let rest = self.buffer.split_off(reached);
                            self.flush();
                            self.buffer = rest;
                            AppendEvent::Written(false)
                        }
                    }
                }
                AppendAction::Done => return true,
                AppendAction::Fail => return false,
            };
        }
    }
}

fn seqs(entries: &[Entry]) -> Vec<u64> {
    entries.iter().map(|(_, _, r)| r.seq).collect()
}

#[test]
fn frame_round_trips() {
    let mut buf = encode_frame("S", "shardId-000000000000", &rec(1, vec![9, 9, 9]));
    buf.extend(encode_frame("S", "shardId-000000000000", &rec(2, vec![8])));
    let (entries, off) = decode_segment(&buf);
    assert_eq!(off, buf.len());
    assert_eq!(entries.len(), 2);
    assert_eq!(entries[0].2.seq, 1);
    assert_eq!(entries[1].2.data, vec![8]);
}

#[test]
fn torn_trailing_frame_is_dropped_at_safe_offset() {
    let mut buf = encode_frame("S", "shardId-000000000000", &rec(1, vec![1, 2, 3]));
    let good_len = buf.len();
    let torn = encode_frame("S", "shardId-000000000000", &rec(2, vec![0u8; 50]));
    buf.extend_from_slice(&torn[..torn.len() - 10]); // chop the tail
    let (entries, off) = decode_segment(&buf);
    assert_eq!(entries.len(), 1);
    assert_eq!(off, good_len); // truncate here to keep appends clean
}

#[test]
fn every_cut_of_a_frame_is_torn() {
    let first = encode_frame("S", SHARD, &rec(1, vec![1, 2, 3]));
    let second = encode_frame("S", SHARD, &rec(2, vec![4; 20]));
    for n in 0..second.len() {
        let mut buf = first.clone();
        buf.extend_from_slice(&second[..n]);
        let (entries, off) = decode_segment(&buf);
        assert_eq!((entries.len(), off), (1, first.len()));
    }
}

#[test]
fn frame_has_its_exact_bytes() {
    let bytes = encode_frame("S", "x", &rec(300, vec![9, 8]));
    // length; "S"; "x"; 300 as a varint; "pk"; two bytes; 7
    let body = [1, b'S', 1, b'x', 0xac, 0x02, 2, b'p', b'k', 2, 9, 8, 7];
    assert_eq!(bytes[..8], [13, 0, 0, 0, 0, 0, 0, 0]);
    assert_eq!(bytes[8..], body);
    assert_eq!(frame(&body), bytes);
    assert_eq!(frame_body(&bytes, 0), Some((8, 21)));
    assert_eq!(frame_body(&bytes, 1), None);
    assert_eq!(frame_body(&bytes[..20], 0), None);
    assert_eq!(frame_body(&bytes[..7], 0), None);
    let (entries, _) = decode_segment(&bytes);
    assert_eq!(entries[0].0, "S");
    assert_eq!(entries[0].1, "x");
    assert_eq!(entries[0].2, rec(300, vec![9, 8]));
}

#[test]
fn corrupt_frame_ends_the_segment() {
    let mut buf = encode_frame("S", SHARD, &rec(1, vec![1]));
    let good = buf.len();
    buf.extend(frame(&[0xff; 3]));
    buf.extend(encode_frame("S", SHARD, &rec(2, vec![2])));
    let (entries, off) = decode_segment(&buf);
    assert_eq!(seqs(&entries), vec![1]);
    assert_eq!(off, good);
    let mut huge = u64::MAX.to_le_bytes().to_vec();
    huge.push(1);
    assert_eq!(decode_segment(&huge).1, 0);
}

#[test]
fn segment_names_name_their_segments() {
    assert_eq!(seg_name(7), "seg-0000000007.log");
    assert_eq!(seg_name(u64::MAX), "seg-18446744073709551615.log");
    for id in [0, 1, 9_999_999_999, 10_000_000_000, u64::MAX] {
        assert_eq!(segment_id(&seg_name(id)), Some(id));
    }
    for name in ["seg-.log", "seg-1.txt", "1.log", "seg-x.log", "seg-18446744073709551616.log"] {
        assert_eq!(segment_id(name), None);
    }
    let names: Vec<String> = ["seg-10.log", "junk", "seg-2.log", "seg-0000000002.log", "seg-1.log"]
        .iter()
        .map(|n| n.to_string())
        .collect();
    assert_eq!(segment_ids(&names), vec![1, 2, 2, 10]);
}

#[test]
fn append_then_reload_returns_entries() {
    let mut disk = Disk::new();
    {
        let (mut wal, entries) = disk.load(1 << 20);
        assert!(entries.is_empty());
        assert!(disk.append(&mut wal, "S", "shardId-000000000000", &rec(1, vec![1])));
        assert!(disk.append(&mut wal, "S", "shardId-000000000000", &rec(2, vec![2])));
    }
    let (_wal, entries) = disk.load(1 << 20);
    assert_eq!(
        entries.iter().map(|(_, _, r)| r.seq).collect::<Vec<_>>(),
        vec![1, 2]
    );
}

#[test]
fn rolls_to_new_segment_when_full() {
    let mut disk = Disk::new();
    let (mut wal, _) = disk.load(32); // tiny cap forces a roll
    assert!(disk.append(&mut wal, "S", "shardId-000000000000", &rec(1, vec![0u8; 40])));
    assert!(disk.append(&mut wal, "S", "shardId-000000000000", &rec(2, vec![0u8; 40])));
    let segs = disk.files.len();
    assert!(segs >= 2, "expected a roll, found {segs} segment(s)");
}

#[test]
fn store_survives_reload_through_manifest_and_wal() {
    let mut disk = Disk::new();
    // first "process": create stream, put records via the store + WAL
    let mut store = Store::new(86_400);
    store.create_stream("S", 1, None);
    let (mut wal, _) = disk.load(1 << 20);
    for i in 0..50u64 {
        let (shard_id, _seq) = store
            .put("S", format!("pk{i}"), vec![i as u8; 100], None)
            .unwrap();
        let r = store.last_record("S", &shard_id).unwrap();
        assert!(disk.append(&mut wal, "S", &shard_id, r));
    }
    let definitions = fakestream::manifest::save(&store);
    // second "process": reload
    let mut reloaded = fakestream::manifest::load(definitions, 0, 86_400);
    let (_wal, entries) = disk.load(1 << 20);
    assert_eq!(reloaded.replay(entries, fakestream::store::now_ms()), 0);
    assert_eq!(
        reloaded
            .stream_sizes()
            .iter()
            .map(|(_, n, _)| n)
            .sum::<u64>(),
        50
    );
    // new puts continue above the replayed high-water
    let (_, seq) = reloaded.put("S", "pk".into(), vec![0], None).unwrap();
    assert_eq!(seq, 51);
}

#[test]
fn recreated_stream_drops_records_predating_creation() {
    let mut disk = Disk::new();
    let shard = "shardId-000000000000";
    // first "process": S existed, took records, was deleted, then recreated
    // under the same name (shard IDs are deterministic, so they collide).
    // The append-only WAL still holds the deleted incarnation's records.
    let mut store = Store::new(86_400);
    store.create_stream("S", 1, None);
    let (mut wal, _) = disk.load(1 << 20);
    for seq in 1..=3u64 {
        let old = Record {
            seq,
            partition_key: "old".into(),
            data: vec![seq as u8],
            timestamp_ms: 100,
        };
        assert!(disk.append(&mut wal, "S", shard, &old));
    }
    store.streams.remove("S");
    store.create_stream("S", 1, None);
    store.streams.get_mut("S").unwrap().created_ms = 1_000;
    // seq 4 lands in the same millisecond as creation and must be kept;
    // seq 5 clearly post-dates it.
    for (seq, ts) in [(4u64, 1_000u128), (5, 2_000)] {
        let new = Record {
            seq,
            partition_key: "new".into(),
            data: vec![seq as u8],
            timestamp_ms: ts,
        };
        assert!(disk.append(&mut wal, "S", shard, &new));
    }
    let definitions = fakestream::manifest::save(&store);
    // second "process": reload via manifest + WAL replay.
    let mut reloaded = fakestream::manifest::load(definitions, 0, 86_400);
    let (_wal, entries) = disk.load(1 << 20);
    for (s, sh, r) in entries {
        reloaded.restore_record(&s, &sh, r);
    }
    assert_eq!(
        reloaded
            .stream_sizes()
            .iter()
            .map(|(_, n, _)| n)
            .sum::<u64>(),
        2,
        "old records must not resurrect; boundary + newer records survive"
    );
    let last = reloaded.last_record("S", shard).unwrap();
    assert_eq!(last.seq, 5);
    assert_eq!(last.partition_key, "new");
}

#[test]
fn replay_reconstructs_records() {
    for n in 0..40usize {
        let payloads: Vec<Vec<u8>> = (0..n)
            .map(|i| (0..(i * 7 + n) % 64).map(|k| (k * 31 + i) as u8).collect())
            .collect();
        let mut disk = Disk::new();
        let mut source = Store::new(86_400);
        source.create_stream("S", 1, None);
        let (mut wal, _) = disk.load(256); // small cap -> exercises rolls
        for p in &payloads {
            let (shard_id, _) = source.put("S", "pk".into(), p.clone(), None).unwrap();
            let record = source.last_record("S", &shard_id).unwrap();
            assert!(disk.append(&mut wal, "S", &shard_id, record));
        }
        let (_wal, entries) = disk.load(256);
        let replayed: Vec<Vec<u8>> = entries.iter().map(|(_, _, r)| r.data.clone()).collect();
        assert_eq!(replayed, payloads);
    }
}

#[test]
fn drops_only_fully_expired_closed_segments() {
    let mut disk = Disk::new();
    let (mut wal, _) = disk.load(16); // tiny -> each append rolls
                                      // segment 1: old record (ts=1000), then a roll
    assert!(disk.append(
        &mut wal,
        "S",
        "shardId-000000000000",
        &Record {
            seq: 1,
            partition_key: "p".into(),
            data: vec![0u8; 20],
            timestamp_ms: 1_000,
        },
    ));
    // segment 2: fresh record (ts=now)
    assert!(disk.append(
        &mut wal,
        "S",
        "shardId-000000000000",
        &Record {
            seq: 2,
            partition_key: "p".into(),
            data: vec![0u8; 20],
            timestamp_ms: 10_000_000,
        },
    ));
    // now = 10_000_000 ms, retention 1s (1000 ms): segment 1 (max_ts 1000) is expired, segment 2 is not.
    assert_eq!(wal.expired_ids(10_000_000, &keep(1)), vec![1]);
    let dropped = wal.drop_expired(10_000_000, &keep(1), &vec![Removal::Removed]).unwrap();
    assert_eq!(dropped, 1);
    // active segment is never dropped even if it looks old
    assert!(wal.expired_ids(u128::MAX, &keep(1)).is_empty());
    assert_eq!(wal.active_id, 2);
}

#[test]
fn retention_zero_drops_nothing() {
    let mut wal = Wal::load(16, vec![]).0;
    wal.closed = vec![Segment { id: 1, max_ts: newest(0) }];
    assert!(wal.expired_ids(u128::MAX, &keep(0)).is_empty());
    assert_eq!(wal.drop_expired(u128::MAX, &keep(0), &vec![]), Ok(0));
    assert_eq!(wal.closed.len(), 1);
    // exactly at the cutoff a segment stays
    assert!(wal.expired_ids(1_000, &keep(1)).is_empty());
    assert_eq!(wal.expired_ids(1_001, &keep(1)), vec![1]);
}

#[test]
fn each_stream_pins_only_the_segments_that_hold_it() {
    let mut disk = Disk::new();
    let (mut wal, _) = disk.load(1); // each record its own segment
    for (seq, stream) in [(1u64, "S"), (2, "LONG"), (3, "FOREVER"), (4, "GONE"), (5, "S")] {
        assert!(disk.append(&mut wal, stream, SHARD, &rec(seq, vec![1])));
    }
    let retentions = vec![
        ("S".to_string(), 1),
        ("LONG".to_string(), 100),
        ("FOREVER".to_string(), 0),
    ];
    // "S" is past its own retention, "GONE" was deleted; the others pin their own segments.
    assert_eq!(wal.expired_ids(2_000, &retentions), vec![1, 4]);
    assert_eq!(wal.expired_ids(200_000, &retentions), vec![1, 2, 4]);
    let outcomes = vec![Removal::Removed, Removal::Removed];
    assert_eq!(wal.drop_expired(2_000, &retentions, &outcomes), Ok(2));
    let left: Vec<u64> = wal.closed.iter().map(|s| s.id).collect();
    assert_eq!(left, vec![2, 3]);
}

#[test]
fn segments_know_the_newest_record_of_each_stream() {
    let mut wal = Wal::load(1 << 20, vec![]).0;
    for (stream, ts) in [("A", 5u128), ("B", 9), ("A", 7), ("A", 6)] {
        wal.append(AppendEvent::Start, 1, stream, ts);
        wal.append(AppendEvent::Written(true), 1, stream, ts);
    }
    let expected = vec![("A".to_string(), 7), ("B".to_string(), 9)];
    assert_eq!(wal.active_max_ts, expected);
    // a mixed segment goes once every stream in it is safe
    wal.closed = vec![Segment { id: 1, max_ts: expected }];
    let both = vec![("A".to_string(), 1), ("B".to_string(), 2)];
    assert!(wal.expired_ids(1_008, &both).is_empty());
    assert!(wal.expired_ids(2_009, &both).is_empty());
    assert_eq!(wal.expired_ids(2_010, &both), vec![1]);
    assert_eq!(wal.expired_ids(1_008, &vec![("A".to_string(), 1)]), vec![1]);
}

#[test]
fn drop_expired_keeps_bookkeeping_when_removal_fails() {
    let mut wal = Wal::load(1 << 20, vec![]).0;
    let (ok1, bad, ok2, gone) = (11, 12, 13, 14);
    wal.closed = vec![
        Segment { id: ok1, max_ts: newest(1) },
        Segment { id: bad, max_ts: newest(1) },
        Segment { id: ok2, max_ts: newest(1) },
        Segment { id: gone, max_ts: newest(1) },
    ];
    // now far in the future, retention 1s: every segment is expired.
    assert_eq!(wal.expired_ids(1_000_000_000, &keep(1)), vec![ok1, bad, ok2, gone]);
    let outcomes = vec![
        Removal::Removed,
        Removal::Failed,
        Removal::Removed,
        Removal::Missing,
    ];
    assert_eq!(wal.drop_expired(1_000_000_000, &keep(1), &outcomes), Err(1));
    // The failed segment stays tracked; the already-missing segment is dropped
    // rather than wedging the list.
    assert_eq!(wal.closed.len(), 1);
    assert_eq!(wal.closed[0].id, bad);
    // Clear the failure, then the survivor drops cleanly on the next call.
    assert_eq!(wal.drop_expired(1_000_000_000, &keep(1), &vec![Removal::Removed]), Ok(1));
    assert!(wal.closed.is_empty());
}

#[test]
fn poisoned_segment_rolls_before_next_append() {
    let mut disk = Disk::new();
    let (mut wal, _) = disk.load(1 << 20); // large cap: no natural roll
    assert!(disk.append(&mut wal, "S", "shardId-000000000000", &rec(1, vec![1])));
    let before = disk.files.len();
    // Stand in for a failed append having torn the active segment.
    wal.poisoned = true;
    assert!(disk.append(&mut wal, "S", "shardId-000000000000", &rec(2, vec![2])));
    let after = disk.files.len();
    assert_eq!(
        after,
        before + 1,
        "poisoned segment must roll to a fresh one"
    );
    let (_w, entries) = disk.load(1 << 20);
    assert_eq!(
        entries.iter().map(|(_, _, r)| r.seq).collect::<Vec<_>>(),
        vec![1, 2]
    );
}

#[test]
fn failed_steps_leave_the_right_bookkeeping() {
    let mut wal = Wal::load(10, vec![]).0;
    assert_eq!((wal.active_id, wal.active_bytes, wal.poisoned), (1, 0, false));
    assert_eq!(wal.append(AppendEvent::Start, 12, "S", 5), AppendAction::Write);
    assert_eq!(wal.append(AppendEvent::Written(true), 12, "S", 5), AppendAction::Done);
    assert_eq!((wal.active_bytes, wal.active_max_ts.clone()), (12, newest(5)));
    // full: flush first; a failed flush changes nothing
    assert_eq!(wal.append(AppendEvent::Start, 3, "S", 9), AppendAction::Flush);
    assert_eq!(wal.append(AppendEvent::Flushed(false), 3, "S", 9), AppendAction::Fail);
    assert_eq!((wal.active_id, wal.closed.len()), (1, 0));
    // a failed open has closed the segment already
    assert_eq!(wal.append(AppendEvent::Start, 3, "S", 9), AppendAction::Flush);
    assert_eq!(wal.append(AppendEvent::Flushed(true), 3, "S", 9), AppendAction::Open(2));
    assert_eq!(wal.append(AppendEvent::Opened(false), 3, "S", 9), AppendAction::Fail);
    assert_eq!(wal.closed, vec![Segment { id: 1, max_ts: newest(5) }]);
    // and the next append tries the number after
    assert_eq!(wal.append(AppendEvent::Start, 3, "S", 9), AppendAction::Flush);
    assert_eq!(wal.append(AppendEvent::Flushed(true), 3, "S", 9), AppendAction::Open(3));
    assert_eq!(wal.append(AppendEvent::Opened(true), 3, "S", 9), AppendAction::Write);
    assert_eq!((wal.active_bytes, wal.active_max_ts.clone()), (0, vec![]));
    // a failed write poisons
    assert_eq!(wal.append(AppendEvent::Written(false), 3, "S", 9), AppendAction::Fail);
    assert!(wal.poisoned);
    // what the writer still holds is discarded, never flushed
    assert_eq!(wal.append(AppendEvent::Start, 3, "S", 9), AppendAction::Discard);
    assert_eq!(wal.append(AppendEvent::Discarded, 3, "S", 9), AppendAction::Open(4));
    assert_eq!(wal.append(AppendEvent::Opened(false), 3, "S", 9), AppendAction::Fail);
    assert_eq!(wal.append(AppendEvent::Start, 3, "S", 9), AppendAction::Discard);
}

#[test]
fn poisoned_drop_discards_buffered_nacked_frame() {
    let mut disk = Disk::new();
    let (mut wal, _) = disk.load(1 << 20);
    assert!(disk.append(&mut wal, "S", SHARD, &rec(1, vec![1])));
    disk.reached = Some(0);
    assert!(!disk.append(&mut wal, "S", SHARD, &rec(2, vec![0xEE; 32])));
    disk.drop_log(wal);
    let (_wal, entries) = disk.load(1 << 20);
    assert_eq!(
        seqs(&entries),
        vec![1],
        "dropping a poisoned WAL must not flush the NACKed record"
    );
}

#[test]
fn poisoned_roll_discards_buffered_nacked_frame() {
    for reached in [0, 1, 8, 20] {
        let mut disk = Disk::new();
        let (mut wal, _) = disk.load(1 << 20);
        assert!(disk.append(&mut wal, "S", SHARD, &rec(1, vec![1])));
        disk.reached = Some(reached);
        assert!(!disk.append(&mut wal, "S", SHARD, &rec(2, vec![0xEE; 32])));
        disk.reached = None;
        assert!(disk.append(&mut wal, "S", SHARD, &rec(3, vec![3])));
        disk.drop_log(wal);
        assert_eq!(seqs(&disk.load(1 << 20).1), vec![1, 3]);
    }
}

#[test]
fn load_gives_exactly_what_was_acknowledged() {
    let mut state = 7u64;
    let mut next = |n: u64| {
        state = state.wrapping_mul(6364136223846793005).wrapping_add(1442695040888963407);
        (state >> 33) % n
    };
    for _ in 0..200 {
        let mut disk = Disk::new();
        let mut acknowledged = Vec::new();
        let mut seq = 0;
        for _ in 0..3 {
            let (mut wal, entries) = disk.load(60 + next(60));
            assert_eq!(seqs(&entries), acknowledged);
            for _ in 0..next(8) {
                seq += 1;
                disk.gone = next(6) == 0;
                disk.reached = if next(4) == 0 { Some(next(20) as usize) } else { None };
                if disk.append(&mut wal, "S", SHARD, &rec(seq, vec![9; 10])) {
                    acknowledged.push(seq);
                }
            }
            disk.drop_log(wal);
        }
        assert_eq!(seqs(&disk.load(1).1), acknowledged);
    }
}

#[test]
fn corrupted_closed_segment_does_not_hide_later_segments() {
    let mut disk = Disk::new();
    let (mut wal, _) = disk.load(16); // tiny cap: each record its own segment
    for seq in 1..=3u64 {
        let record = rec(seq, vec![seq as u8; 20]);
        assert!(disk.append(&mut wal, "S", "shardId-000000000000", &record));
    }
    // Corrupt a closed middle segment; the active (last) segment is the third.
    let garbage = b"garbage-not-a-valid-frame".to_vec();
    disk.files.insert(seg_name(2), garbage.clone());
    let (_w, entries) = disk.load(16);
    let found = seqs(&entries);
    assert!(found.contains(&1));
    assert!(
        found.contains(&3),
        "a later segment must still replay past a corrupt one"
    );
    assert!(
        !found.contains(&2),
        "the corrupt segment's record is dropped"
    );
    assert_eq!(disk.files[&seg_name(2)], garbage);
    let (_, tail) = Loader::new(16).replay_segment(2, &garbage, false);
    assert_eq!(tail, Tail::Skipped(garbage.len()));
}

#[test]
fn torn_last_segment_is_cut_and_appended_to() {
    let mut disk = Disk::new();
    let (mut wal, _) = disk.load(1 << 20);
    assert!(disk.append(&mut wal, "S", SHARD, &rec(1, vec![1])));
    let file = disk.files.get_mut(&seg_name(1)).unwrap();
    let good = file.len();
    file.extend_from_slice(&[5, 0, 0]);
    let (mut wal, entries) = disk.load(1 << 20);
    assert_eq!(seqs(&entries), vec![1]);
    assert_eq!(disk.files[&seg_name(1)].len(), good);
    assert_eq!(wal.active_bytes, good as u64);
    assert_eq!(wal.active_max_ts, newest(7));
    assert!(disk.append(&mut wal, "S", SHARD, &rec(2, vec![2])));
    assert_eq!(seqs(&disk.load(1 << 20).1), vec![1, 2]);
}

fn obj(fields: Vec<(&str, Json)>) -> Json {
    Json::Object(fields.into_iter().map(|(k, v)| (k.to_string(), v)).collect())
}

fn record_fields(pk: &str, data: usize) -> Vec<(&'static str, Json)> {
    vec![
        ("PartitionKey", Json::text(pk)),
        ("Data", Json::Text(encode_data(&vec![0u8; data]))),
    ]
}

#[test]
fn put_record_appends_to_wal() {
    let mut disk = Disk::new();
    let mut store = Store::new(86_400);
    store.create_stream("S", 1, None);
    let (mut wal, _) = disk.load(1 << 20);
    let mut fields = record_fields("p", 10);
    fields.push(("StreamName", Json::text("S")));
    let placed = begin_put_record(&mut store, &obj(fields), fakestream::store::now_ms()).unwrap();
    let record = store.last_record(&placed.stream, &placed.shard_id).unwrap();
    let logged = disk.append(&mut wal, &placed.stream, &placed.shard_id, record);
    end_put_record(&mut store, placed, logged).unwrap();
    let (_w, entries) = disk.load(1 << 20);
    assert_eq!(entries.len(), 1);
    assert_eq!(entries[0].0, "S"); // stream name recorded
}

#[test]
fn put_records_reports_internal_failure_when_append_fails() {
    let mut disk = Disk::new();
    let mut store = Store::new(86_400);
    store.create_stream("S", 1, None);
    // segment_max 0 makes every append roll first; without the directory the
    // roll's create-open fails, forcing a WAL append error.
    let (mut wal, _) = disk.load(0);
    disk.gone = true;
    let req = obj(vec![
        ("StreamName", Json::text("S")),
        ("Records", Json::Array(vec![obj(record_fields("x", 4))])),
    ]);
    let mut batch = begin_put_records(&store, &req).unwrap();
    while let Some(placed) = batch.place_next(&mut store, 1).unwrap() {
        let record = store.last_record(&placed.stream, &placed.shard_id).unwrap();
        let logged = disk.append(&mut wal, &placed.stream, &placed.shard_id, record);
        batch.settle(&mut store, placed, logged);
    }
    let out = batch.finish();
    assert_eq!(out.get("FailedRecordCount").unwrap().as_u64(), Some(1));
    let results = out.get("Records").unwrap().as_array().unwrap();
    assert_eq!(results[0].text_of("ErrorCode"), Some("InternalFailure"));
    // Rolled back: the un-persisted record is not left in the store.
    assert_eq!(
        store.stream_sizes().iter().map(|(_, n, _)| n).sum::<u64>(),
        0
    );
}
