//! What holds of the log over several steps: a segment is written frame by frame and nothing
//! is ever written behind a torn frame, new segments come in rising order, and only segments
//! whose every entry has expired are dropped.
use crate::store::{retentions_of, EntryV, StoreV};
use crate::store_laws::{law_expired_part_of_the_log_is_not_missed, log_covers};
use crate::wal::{
    bounds, clean, entry_bytes, entry_frame, expired_segments, file_bytes, file_holds, files_hold, frames,
    has_entry, is_torn, kept_segments, law_cut_frame_is_torn, law_newest_timestamps_are_by_stream, loaded_wal,
    newest_of, released,
    segment_expired, whole_log, AppendAction, AppendEvent, Removal, SegmentV, WalV,
};
use vstd::prelude::*;

verus! {

/// A frame that was written completely makes the file of a clean segment the frames of the
/// longer log, which `decode_segment` reads back, whatever torn frame may follow later.
pub proof fn law_written_frame_extends_the_log(
    wal: WalV,
    file: Seq<u8>,
    log: Seq<EntryV>,
    entry: EntryV,
)
    requires
        clean(wal, file, log),
        entry_frame(entry).len() <= usize::MAX,
    ensures
        ({
            let frame = entry_frame(entry);
            let (after, action) = wal.after(
                AppendEvent::Written(true),
                frame.len() as usize,
                entry.stream,
                entry.record.timestamp_ms,
            );
            clean(after, file + frame, log.push(entry)) && action == AppendAction::Done
        }),
{
    assert(log.push(entry).drop_last() =~= log);
}

/// A new segment starts clean and is written to at once.
pub proof fn law_new_segment_is_clean(wal: WalV,
    frame_len: usize,
    stream: Seq<char>,
    timestamp_ms: u128,
)
    ensures
        ({
            let (after, action) = wal.after(AppendEvent::Opened(true), frame_len, stream, timestamp_ms);
            clean(after, Seq::empty(), Seq::empty()) && action == AppendAction::Write
        }),
{
}

/// After a failed write nothing more reaches that segment: whatever happens, the log asks for
/// no write and for no flush until another segment was opened.
pub proof fn law_torn_segment_is_not_written_to(
    wal: WalV,
    event: AppendEvent,
    frame_len: usize,
    stream: Seq<char>,
    timestamp_ms: u128,
)
    ensures
        wal.after(AppendEvent::Written(false), frame_len, stream, timestamp_ms).0.poisoned,
        wal.after(AppendEvent::Written(false), frame_len, stream, timestamp_ms).1 == AppendAction::Fail,
        wal.poisoned && event != AppendEvent::Opened(true) ==> {
            let (after, action) = wal.after(event, frame_len, stream, timestamp_ms);
            after.poisoned && action != AppendAction::Write && action != AppendAction::Flush
        },
{
}

/// An append that has to start a new segment and does not get it open is not lost: the next
/// one tries again, with the number after.
pub proof fn law_failed_roll_is_tried_again(wal: WalV,
    frame_len: usize,
    stream: Seq<char>,
    timestamp_ms: u128,
)
    requires
        wal.must_roll(),
        wal.active_id < u64::MAX,
    ensures
        ({
            let start = wal.after(AppendEvent::Start, frame_len, stream, timestamp_ms);
            let released = start.0.after(
                if wal.poisoned {
                    AppendEvent::Discarded
                } else {
                    AppendEvent::Flushed(true)
                },
                frame_len,
                stream,
                timestamp_ms,
            );
            let failed = released.0.after(AppendEvent::Opened(false), frame_len, stream, timestamp_ms);
            let again = failed.0.after(AppendEvent::Start, frame_len, stream, timestamp_ms);
            &&& start.1 == if wal.poisoned {
                AppendAction::Discard
            } else {
                AppendAction::Flush
            }
            &&& released.1 == AppendAction::Open((wal.active_id + 1) as u64)
            &&& failed.1 == AppendAction::Fail
            &&& again.1 == start.1
            &&& again.0.active_id == wal.active_id + 1
        }),
{
}

/// The numbers of the closed segments rise and lie below that of the active one.
pub open spec fn ids_rise(wal: WalV) -> bool {
    &&& forall|i: int, j: int|
        0 <= i < j < wal.closed.len() ==> (#[trigger] wal.closed[i]).id < (
        #[trigger] wal.closed[j]).id
    &&& forall|i: int| 0 <= i < wal.closed.len() ==> (#[trigger] wal.closed[i]).id < wal.active_id
}

/// Segments are numbered in the order in which they are written, so that their replay in the
/// order of their numbers is the order of the appends. Appending keeps that up, and so does
/// dropping.
pub proof fn law_segment_numbers_rise(
    wal: WalV,
    event: AppendEvent,
    frame_len: usize,
    stream: Seq<char>,
    timestamp_ms: u128,
    now_ms: u128,
    retentions: Seq<(Seq<char>, u64)>,
    outcomes: Seq<Removal>,
)
    requires
        ids_rise(wal),
        wal.active_id < u64::MAX,
    ensures
        ids_rise(wal.after(event, frame_len, stream, timestamp_ms).0),
        ids_rise(
            WalV {
                closed: kept_segments(wal.closed, now_ms, retentions, outcomes),
                ..wal
            },
        ),
{
    lemma_kept_rise(wal.closed, now_ms, retentions, outcomes, wal.active_id);
}

proof fn lemma_kept_rise(
    closed: Seq<SegmentV>,
    now_ms: u128,
    retentions: Seq<(Seq<char>, u64)>,
    outcomes: Seq<Removal>,
    below: u64,
)
    requires
        forall|i: int, j: int|
            0 <= i < j < closed.len() ==> (#[trigger] closed[i]).id < (#[trigger] closed[j]).id,
        forall|i: int| 0 <= i < closed.len() ==> (#[trigger] closed[i]).id < below,
    ensures
        ({
            let kept = kept_segments(closed, now_ms, retentions, outcomes);
            &&& forall|i: int, j: int|
                0 <= i < j < kept.len() ==> (#[trigger] kept[i]).id < (#[trigger] kept[j]).id
            &&& forall|i: int| 0 <= i < kept.len() ==> (#[trigger] kept[i]).id < below
        }),
    decreases closed.len(),
{
    if closed.len() > 0 {
        let rest = closed.drop_last();
        let last = closed.last();
        assert forall|i: int| 0 <= i < rest.len() implies (#[trigger] rest[i]).id < last.id by {
            assert(closed[i].id < closed[closed.len() - 1].id);
        }
        assert forall|i: int, j: int| 0 <= i < j < rest.len() implies (#[trigger] rest[i]).id < (
        #[trigger] rest[j]).id by {
            assert(closed[i].id < closed[j].id);
        }
        lemma_kept_rise(rest, now_ms, retentions, outcomes, last.id);
        assert(closed[closed.len() - 1].id < below);
        let before = kept_segments(rest, now_ms, retentions, outcomes);
        let kept = kept_segments(closed, now_ms, retentions, outcomes);
        assert(kept == before || kept == before.push(last));
        assert forall|i: int| 0 <= i < kept.len() implies (#[trigger] kept[i]).id < below by {
            assert(i < before.len() ==> before[i].id < last.id);
        }
        assert forall|i: int, j: int| 0 <= i < j < kept.len() implies (#[trigger] kept[i]).id < (
        #[trigger] kept[j]).id by {
            assert(before[i].id < last.id);
            assert(j < before.len() ==> before[i].id < before[j].id);
        }
    }
}

/// What is dropped has expired: a segment that does not stay is one in which every stream was
/// deleted or has outlived its retention.
pub proof fn law_only_expired_segments_are_dropped(
    closed: Seq<SegmentV>,
    now_ms: u128,
    retentions: Seq<(Seq<char>, u64)>,
    outcomes: Seq<Removal>,
    segment: SegmentV,
)
    requires
        closed.contains(segment),
        !segment_expired(segment, now_ms, retentions),
    ensures
        kept_segments(closed, now_ms, retentions, outcomes).contains(segment),
    decreases closed.len(),
{
    let rest = closed.drop_last();
    let before = kept_segments(rest, now_ms, retentions, outcomes);
    let kept = kept_segments(closed, now_ms, retentions, outcomes);
    let at = closed.index_of(segment);
    assert(closed[at] == segment);
    if at < rest.len() {
        assert(rest[at] == segment);
        law_only_expired_segments_are_dropped(rest, now_ms, retentions, outcomes, segment);
        let i = before.index_of(segment);
        assert(before[i] == segment);
        assert(kept[i] == segment);
    } else {
        assert(kept[kept.len() - 1] == segment);
    }
}

/// Where no removal failed, every segment that stays has not expired.
pub proof fn law_expired_segments_go(
    closed: Seq<SegmentV>,
    now_ms: u128,
    retentions: Seq<(Seq<char>, u64)>,
    outcomes: Seq<Removal>,
    segment: SegmentV,
)
    requires
        outcomes.len() == expired_segments(closed, now_ms, retentions).len(),
        forall|i: int| 0 <= i < outcomes.len() ==> #[trigger] outcomes[i] != Removal::Failed,
        kept_segments(closed, now_ms, retentions, outcomes).contains(segment),
    ensures
        closed.contains(segment),
        !segment_expired(segment, now_ms, retentions),
{
    lemma_expired_segments_go(closed, now_ms, retentions, outcomes, segment);
}

proof fn lemma_expired_segments_go(
    closed: Seq<SegmentV>,
    now_ms: u128,
    retentions: Seq<(Seq<char>, u64)>,
    outcomes: Seq<Removal>,
    segment: SegmentV,
)
    requires
        outcomes.len() >= expired_segments(closed, now_ms, retentions).len(),
        forall|i: int| 0 <= i < outcomes.len() ==> #[trigger] outcomes[i] != Removal::Failed,
        kept_segments(closed, now_ms, retentions, outcomes).contains(segment),
    ensures
        closed.contains(segment),
        !segment_expired(segment, now_ms, retentions),
    decreases closed.len(),
{
    reveal(Seq::filter);
    let kept = kept_segments(closed, now_ms, retentions, outcomes);
    let i = kept.index_of(segment);
    assert(kept[i] == segment);
    if closed.len() > 0 {
        let rest = closed.drop_last();
        let before = kept_segments(rest, now_ms, retentions, outcomes);
        if i < before.len() {
            assert(before[i] == segment);
            lemma_expired_segments_go(rest, now_ms, retentions, outcomes, segment);
            let at = rest.index_of(segment);
            assert(rest[at] == segment);
            assert(closed[at] == segment);
        } else {
            assert(closed[closed.len() - 1] == segment);
        }
    }
}

/// Every entry of an expired segment is of a stream that was deleted, or has outlived the
/// retention of its stream.
pub proof fn law_expired_segment_holds_only_expired_entries(
    segment: SegmentV,
    log: Seq<EntryV>,
    now_ms: u128,
    retentions: Seq<(Seq<char>, u64)>,
)
    requires
        segment.max_ts == newest_of(log),
        segment_expired(segment, now_ms, retentions),
    ensures
        forall|i: int|
            0 <= i < log.len() ==> released(
                (#[trigger] log[i]).stream,
                log[i].record.timestamp_ms,
                now_ms,
                retentions,
            ),
{
    law_newest_timestamps_are_by_stream(log);
    assert forall|i: int| 0 <= i < log.len() implies released(
        (#[trigger] log[i]).stream,
        log[i].record.timestamp_ms,
        now_ms,
        retentions,
    ) by {
        let newest = newest_of(log);
        assert(bounds(newest, log[i].stream, log[i].record.timestamp_ms));
        let k = choose|k: int|
            0 <= k < newest.len() && (#[trigger] newest[k]).0 == log[i].stream && newest[k].1
                >= log[i].record.timestamp_ms;
        assert(released(newest[k].0, newest[k].1, now_ms, retentions));
    }
}

/// Only what a segment holds can keep it: where every entry of a log is of a stream that was
/// deleted, or has outlived the retention of its stream, its segment has expired, whatever the
/// retentions of streams are that have no entry in it.
pub proof fn law_only_its_own_streams_pin_a_segment(
    segment: SegmentV,
    log: Seq<EntryV>,
    now_ms: u128,
    retentions: Seq<(Seq<char>, u64)>,
)
    requires
        segment.max_ts == newest_of(log),
        forall|i: int|
            0 <= i < log.len() ==> released(
                (#[trigger] log[i]).stream,
                log[i].record.timestamp_ms,
                now_ms,
                retentions,
            ),
    ensures
        segment_expired(segment, now_ms, retentions),
{
    law_newest_timestamps_are_by_stream(log);
    let newest = newest_of(log);
    assert forall|k: int| 0 <= k < newest.len() implies released(
        (#[trigger] newest[k]).0,
        newest[k].1,
        now_ms,
        retentions,
    ) by {
        assert(has_entry(log, newest[k].0, newest[k].1));
        let i = choose|i: int|
            0 <= i < log.len() && (#[trigger] log[i]).stream == newest[k].0
                && log[i].record.timestamp_ms == newest[k].1;
        assert(released(log[i].stream, log[i].record.timestamp_ms, now_ms, retentions));
    }
}

proof fn lemma_whole_log_concat(a: Seq<Seq<EntryV>>, b: Seq<Seq<EntryV>>)
    ensures
        whole_log(a + b) == whole_log(a) + whole_log(b),
    decreases b.len(),
{
    if b.len() > 0 {
        lemma_whole_log_concat(a, b.drop_last());
        assert((a + b).drop_last() =~= a + b.drop_last());
        assert((a + b).last() == b.last());
        assert(whole_log(a + b) =~= whole_log(a) + whole_log(b));
    } else {
        assert(a + b =~= a);
        assert(whole_log(a) + whole_log(b) =~= whole_log(a));
    }
}

/// An append to the last segment extends the whole log by its entry, and a new segment leaves
/// the whole log as it is.
pub proof fn law_append_extends_the_whole_log(segments: Seq<Seq<EntryV>>, entry: EntryV)
    requires
        segments.len() > 0,
    ensures
        whole_log(segments.drop_last().push(segments.last().push(entry))) == whole_log(
            segments,
        ).push(entry),
        whole_log(segments.push(Seq::empty())) == whole_log(segments),
{
    let longer = segments.drop_last().push(segments.last().push(entry));
    assert(longer.drop_last() =~= segments.drop_last());
    assert(whole_log(longer) =~= whole_log(segments).push(entry));
    let rolled = segments.push(Seq::empty());
    assert(rolled.drop_last() =~= segments);
    assert(whole_log(rolled) =~= whole_log(segments));
}

/// Dropping a segment takes its entries out of the whole log, and no others.
pub proof fn law_dropped_segment_takes_its_own_entries(segments: Seq<Seq<EntryV>>, i: int)
    requires
        0 <= i < segments.len(),
    ensures
        ({
            let head = whole_log(segments.take(i));
            let tail = whole_log(segments.skip(i + 1));
            &&& whole_log(segments) == head + segments[i] + tail
            &&& whole_log(segments.remove(i)) == head + tail
        }),
{
    let head = segments.take(i);
    let tail = segments.skip(i + 1);
    let middle = seq![segments[i]];
    assert(segments =~= head + middle + tail);
    lemma_whole_log_concat(head + middle, tail);
    lemma_whole_log_concat(head, middle);
    assert(middle.drop_last() =~= Seq::empty());
    assert(whole_log(middle.drop_last()) =~= Seq::<EntryV>::empty());
    assert(whole_log(middle) =~= segments[i]);
    assert(segments.remove(i) =~= head + tail);
    lemma_whole_log_concat(head, tail);
}

/// A segment that has expired by the retentions of a store is not missed: what is left of the
/// log still covers the store.
pub proof fn law_expired_segment_is_not_missed(
    store: StoreV,
    segments: Seq<Seq<EntryV>>,
    i: int,
    info: SegmentV,
    since: u128,
    now: u128,
)
    requires
        0 <= i < segments.len(),
        log_covers(store, whole_log(segments), since),
        now >= since,
        forall|name: Seq<char>| #[trigger]
            store.order.contains(name) == store.streams.contains_key(name),
        info.max_ts == newest_of(segments[i]),
        segment_expired(info, now, retentions_of(store)),
    ensures
        log_covers(store, whole_log(segments.remove(i)), now),
{
    let head = whole_log(segments.take(i));
    let tail = whole_log(segments.skip(i + 1));
    law_dropped_segment_takes_its_own_entries(segments, i);
    law_expired_segment_holds_only_expired_entries(info, segments[i], now, retentions_of(store));
    law_expired_part_of_the_log_is_not_missed(store, head, segments[i], tail, since, now);
}

// ---- runs of appends ---------------------------------------------------------

/// A log with its segment files, of which the last one is written to, and with what the
/// writer's buffer holds for that file.
pub struct LogV {
    pub wal: WalV,
    pub files: Seq<(u64, Seq<u8>)>,
    pub buffer: Seq<u8>,
}

impl LogV {
    /// The files after bytes have reached the last one.
    pub open spec fn with_bytes(self, bytes: Seq<u8>) -> Seq<(u64, Seq<u8>)> {
        self.files.drop_last().push((self.files.last().0, self.files.last().1 + bytes))
    }

    /// The files after the log was let go: what a poisoned log has in its buffer is discarded,
    /// what a healthy one has there is flushed.
    pub open spec fn dropped(self) -> Seq<(u64, Seq<u8>)> {
        if self.wal.poisoned {
            self.files
        } else {
            self.with_bytes(self.buffer)
        }
    }
}

/// One append: the entry, how each step that the log asks for goes, and how many bytes of the
/// frame reach the file where the write fails; the others stay in the buffer.
pub struct TryV {
    pub entry: EntryV,
    pub flushed: bool,
    pub opened: bool,
    pub written: bool,
    pub reached: nat,
}

impl TryV {
    pub open spec fn frame(self) -> Seq<u8> {
        entry_frame(self.entry)
    }

    /// A frame has a length that can be counted, and a write that fails leaves some of it out.
    pub open spec fn wf(self) -> bool {
        &&& self.frame().len() <= usize::MAX
        &&& !self.written ==> self.reached < self.frame().len()
    }
}

/// What an action makes of the files and of the buffer, and what is told to the log about it.
/// A flush takes the buffer to the file, and so does a writer that gives way to a new one.
pub open spec fn carried_out(log: LogV, action: AppendAction, t: TryV) -> (LogV, AppendEvent) {
    match action {
        AppendAction::Flush => (
            if t.flushed {
                LogV { files: log.with_bytes(log.buffer), buffer: Seq::empty(), ..log }
            } else {
                log
            },
            AppendEvent::Flushed(t.flushed),
        ),
        AppendAction::Open(id) => (
            if t.opened {
                LogV {
                    files: log.with_bytes(log.buffer).push((id, Seq::empty())),
                    buffer: Seq::empty(),
                    ..log
                }
            } else {
                log
            },
            AppendEvent::Opened(t.opened),
        ),
        AppendAction::Write => (
            if t.written {
                LogV { files: log.with_bytes(log.buffer + t.frame()), buffer: Seq::empty(), ..log }
            } else {
                let all = log.buffer + t.frame();
                LogV {
                    files: log.with_bytes(all.take(t.reached as int)),
                    buffer: all.skip(t.reached as int),
                    ..log
                }
            },
            AppendEvent::Written(t.written),
        ),
        _ => (LogV { buffer: Seq::empty(), ..log }, AppendEvent::Discarded),
    }
}

/// The log after an event and at most `steps` further actions, and whether it says that the
/// record is in the log.
pub open spec fn driven(log: LogV, event: AppendEvent, t: TryV, steps: nat) -> (LogV, bool)
    decreases steps,
{
    let (wal, action) = log.wal.after(
        event,
        t.frame().len() as usize,
        t.entry.stream,
        t.entry.record.timestamp_ms,
    );
    if action == AppendAction::Done || action == AppendAction::Fail || steps == 0 {
        (LogV { wal, ..log }, action == AppendAction::Done)
    } else {
        let (after, next) = carried_out(LogV { wal, ..log }, action, t);
        driven(after, next, t, (steps - 1) as nat)
    }
}

/// The log after one append, and whether that was acknowledged. No append takes more than
/// three actions.
pub open spec fn appended(log: LogV, t: TryV) -> (LogV, bool) {
    driven(log, AppendEvent::Start, t, 3)
}

/// The log after the first `n` appends.
pub open spec fn log_after(log: LogV, tries: Seq<TryV>, n: nat) -> LogV
    decreases n,
{
    if n == 0 {
        log
    } else {
        appended(log_after(log, tries, (n - 1) as nat), tries[n - 1]).0
    }
}

/// The entries of those of the first `n` appends that were acknowledged.
pub open spec fn acknowledged(log: LogV, tries: Seq<TryV>, n: nat) -> Seq<EntryV>
    decreases n,
{
    if n == 0 {
        Seq::empty()
    } else {
        let before = acknowledged(log, tries, (n - 1) as nat);
        if appended(log_after(log, tries, (n - 1) as nat), tries[n - 1]).1 {
            before.push(tries[n - 1].entry)
        } else {
            before
        }
    }
}

/// The files hold the frames of their logs, each with at most a torn frame behind them, and
/// their numbers rise; unless the log is poisoned, the file that is written to has no torn
/// frame, and nothing is left in the buffer.
pub open spec fn tidy(log: LogV, logs: Seq<Seq<EntryV>>) -> bool {
    &&& log.files.len() > 0
    &&& files_hold(file_bytes(log.files), logs)
    &&& !log.wal.poisoned ==> log.files.last().1 == frames(logs.last()) && log.buffer.len() == 0
    &&& forall|i: int, j: int|
        0 <= i < j < log.files.len() ==> (#[trigger] log.files[i]).0 < (#[trigger] log.files[j]).0
    &&& log.files.last().0 <= log.wal.active_id
}

proof fn lemma_exact_file(log: Seq<EntryV>)
    ensures
        file_holds(frames(log), log),
{
    let none = Seq::<u8>::empty();
    assert(frames(log) + none =~= frames(log));
    assert(is_torn(none));
}

proof fn lemma_nothing_added(log: LogV)
    requires
        log.files.len() > 0,
        log.buffer.len() == 0,
    ensures
        log.with_bytes(log.buffer) == log.files,
{
    assert(log.files.last().1 + log.buffer =~= log.files.last().1);
    assert(log.with_bytes(log.buffer) =~= log.files);
}

/// A write keeps the files tidy, and adds its entry where it succeeds.
proof fn lemma_write(log: LogV, logs: Seq<Seq<EntryV>>, t: TryV)
    requires
        tidy(log, logs),
        !log.wal.poisoned,
        t.wf(),
    ensures
        ({
            let (carried, event) = carried_out(log, AppendAction::Write, t);
            let (after, ok) = driven(carried, event, t, 0);
            &&& ok == t.written
            &&& after.wal.active_id == log.wal.active_id
            &&& exists|next: Seq<Seq<EntryV>>| #[trigger]
                tidy(after, next) && whole_log(next) == if ok {
                    whole_log(logs).push(t.entry)
                } else {
                    whole_log(logs)
                }
        }),
{
    let (carried, event) = carried_out(log, AppendAction::Write, t);
    let (after, ok) = driven(carried, event, t, 0);
    let files = carried.files;
    let last = logs.last();
    let bytes = file_bytes(log.files);
    let new_bytes = file_bytes(files);
    assert(log.buffer + t.frame() =~= t.frame());
    assert(bytes.len() == logs.len());
    assert forall|i: int| 0 <= i < logs.len() - 1 implies new_bytes[i] == bytes[i] by {}
    assert(files.last().1 == new_bytes[logs.len() - 1]);
    if t.written {
        let next = logs.drop_last().push(last.push(t.entry));
        law_append_extends_the_whole_log(logs, t.entry);
        assert(last.push(t.entry).drop_last() =~= last);
        assert(frames(last.push(t.entry)) == frames(last) + t.frame());
        lemma_exact_file(last.push(t.entry));
        assert forall|i: int| 0 <= i < new_bytes.len() implies file_holds(
            #[trigger] new_bytes[i],
            next[i],
        ) by {
            if i < logs.len() - 1 {
                assert(file_holds(bytes[i], logs[i]));
            }
        }
        assert(tidy(after, next));
    } else {
        let torn = t.frame().take(t.reached as int);
        law_cut_frame_is_torn(entry_bytes(t.entry), t.reached as int);
        assert(new_bytes[logs.len() - 1] == frames(last) + torn);
        assert(file_holds(new_bytes[logs.len() - 1], last));
        assert forall|i: int| 0 <= i < new_bytes.len() implies file_holds(
            #[trigger] new_bytes[i],
            logs[i],
        ) by {
            if i < logs.len() - 1 {
                assert(file_holds(bytes[i], logs[i]));
            }
        }
        assert(tidy(after, logs));
    }
}

/// Going on to a new segment keeps the files tidy, and what is written there is added.
proof fn lemma_roll(log: LogV, logs: Seq<Seq<EntryV>>, t: TryV)
    requires
        tidy(log, logs),
        log.buffer.len() == 0,
        log.wal.active_id < u64::MAX,
        t.wf(),
    ensures
        ({
            let (after, ok) = driven(log, AppendEvent::Discarded, t, 2);
            &&& after == driven(log, AppendEvent::Flushed(true), t, 2).0
            &&& ok == driven(log, AppendEvent::Flushed(true), t, 2).1
            &&& ok == (t.opened && t.written)
            &&& after.wal.active_id == log.wal.active_id + 1
            &&& exists|next: Seq<Seq<EntryV>>| #[trigger]
                tidy(after, next) && whole_log(next) == if ok {
                    whole_log(logs).push(t.entry)
                } else {
                    whole_log(logs)
                }
        }),
{
    reveal_with_fuel(driven, 4);
    let (after, ok) = driven(log, AppendEvent::Discarded, t, 2);
    let rolled = log.wal.rolled();
    if t.opened {
        lemma_nothing_added(LogV { wal: rolled, ..log });
        let fresh = WalV { active_bytes: 0, active_max_ts: Seq::empty(), poisoned: false, ..rolled };
        let id = (log.wal.active_id + 1) as u64;
        let files = log.files.push((id, Seq::<u8>::empty()));
        let opened = LogV { wal: fresh, files, buffer: Seq::empty() };
        let more = logs.push(Seq::<EntryV>::empty());
        assert(frames(Seq::<EntryV>::empty()) =~= Seq::<u8>::empty());
        lemma_exact_file(Seq::<EntryV>::empty());
        let bytes = file_bytes(log.files);
        let new_bytes = file_bytes(files);
        assert forall|i: int| 0 <= i < new_bytes.len() implies file_holds(
            #[trigger] new_bytes[i],
            more[i],
        ) by {
            if i < logs.len() {
                assert(file_holds(bytes[i], logs[i]));
                assert(new_bytes[i] == bytes[i]);
            }
        }
        assert(tidy(opened, more)) by {
            assert forall|i: int, j: int| 0 <= i < j < files.len() implies (#[trigger] files[i]).0
                < (#[trigger] files[j]).0 by {
                if i < log.files.len() - 1 {
                    assert(log.files[i].0 < log.files[log.files.len() - 1].0);
                }
            }
        }
        law_append_extends_the_whole_log(logs, t.entry);
        lemma_write(opened, more, t);
        let (carried, event) = carried_out(opened, AppendAction::Write, t);
        assert((after, ok) == driven(carried, event, t, 0));
    } else {
        assert(after == (LogV { wal: rolled, ..log }));
        assert(tidy(after, logs));
    }
}

/// One append keeps the files tidy, and adds its entry exactly where it is acknowledged.
proof fn lemma_appended(log: LogV, logs: Seq<Seq<EntryV>>, t: TryV)
    requires
        tidy(log, logs),
        log.wal.active_id < u64::MAX,
        t.wf(),
    ensures
        ({
            let (after, ok) = appended(log, t);
            &&& after.wal.active_id <= log.wal.active_id + 1
            &&& exists|next: Seq<Seq<EntryV>>| #[trigger]
                tidy(after, next) && whole_log(next) == if ok {
                    whole_log(logs).push(t.entry)
                } else {
                    whole_log(logs)
                }
        }),
{
    let (after, ok) = appended(log, t);
    let (wal, action) = log.wal.after(
        AppendEvent::Start,
        t.frame().len() as usize,
        t.entry.stream,
        t.entry.record.timestamp_ms,
    );
    assert((LogV { wal, ..log }) == log);
    let (carried, event) = carried_out(log, action, t);
    if action == AppendAction::Write {
        lemma_write(log, logs, t);
        reveal_with_fuel(driven, 3);
        assert(appended(log, t) == driven(carried, event, t, 2));
        assert(driven(carried, event, t, 2) == driven(carried, event, t, 0));
    } else if action == AppendAction::Discard || t.flushed {
        if action == AppendAction::Flush {
            lemma_nothing_added(log);
        }
        assert(tidy(carried, logs));
        lemma_roll(carried, logs, t);
        assert(appended(log, t) == driven(carried, event, t, 2));
    } else {
        reveal_with_fuel(driven, 3);
        assert(after == log);
        assert(tidy(after, logs));
        assert(!ok);
    }
}

/// What a load gives after any run of appends, some of which may have failed at any step, once
/// the log was let go: the files are those of logs that are, one after the other, exactly what
/// was there before and the entries whose append was acknowledged, in their order. `Wal::load`
/// reads such files back as that whole log: no entry is missing, and no record whose append was
/// reported as failed is ever replayed, whatever number of segments the appends led to.
pub proof fn law_load_gives_what_was_acknowledged(
    log: LogV,
    logs: Seq<Seq<EntryV>>,
    tries: Seq<TryV>,
    n: nat,
)
    requires
        tidy(log, logs),
        n <= tries.len(),
        log.wal.active_id + n <= u64::MAX,
        forall|i: int| 0 <= i < n ==> (#[trigger] tries[i]).wf(),
    ensures
        exists|next: Seq<Seq<EntryV>>| #[trigger]
            tidy(log_after(log, tries, n), next) && whole_log(next) == whole_log(logs)
                + acknowledged(log, tries, n),
        log_after(log, tries, n).dropped() == log_after(log, tries, n).files,
        log_after(log, tries, n).wal.active_id <= log.wal.active_id + n,
    decreases n,
{
    if !log.wal.poisoned {
        lemma_nothing_added(log);
    }
    if n == 0 {
        assert(whole_log(logs) + acknowledged(log, tries, n) =~= whole_log(logs));
        assert(tidy(log_after(log, tries, n), logs));
    } else {
        let m = (n - 1) as nat;
        law_load_gives_what_was_acknowledged(log, logs, tries, m);
        let before = log_after(log, tries, m);
        let held = choose|held: Seq<Seq<EntryV>>| #[trigger]
            tidy(before, held) && whole_log(held) == whole_log(logs) + acknowledged(log, tries, m);
        let t = tries[n - 1];
        lemma_appended(before, held, t);
        let (after, ok) = appended(before, t);
        let next = choose|next: Seq<Seq<EntryV>>| #[trigger]
            tidy(after, next) && whole_log(next) == if ok {
                whole_log(held).push(t.entry)
            } else {
                whole_log(held)
            };
        assert(log_after(log, tries, n) == after);
        if !after.wal.poisoned {
            lemma_nothing_added(after);
        }
        assert(tidy(log_after(log, tries, n), next));
        assert(whole_log(next) =~= whole_log(logs) + acknowledged(log, tries, n));
    }
}

/// A log that is started without any files and then appended to: its files give back exactly
/// the entries whose append was acknowledged.
pub proof fn law_new_log_gives_what_was_acknowledged(segment_max: u64, tries: Seq<TryV>)
    requires
        tries.len() < u64::MAX,
        forall|i: int| 0 <= i < tries.len() ==> (#[trigger] tries[i]).wf(),
    ensures
        ({
            let wal = loaded_wal(segment_max, Seq::empty());
            let start = LogV {
                wal,
                files: seq![(wal.active_id, Seq::<u8>::empty())],
                buffer: Seq::empty(),
            };
            exists|logs: Seq<Seq<EntryV>>| #[trigger]
                files_hold(file_bytes(log_after(start, tries, tries.len()).dropped()), logs)
                    && whole_log(logs) == acknowledged(start, tries, tries.len())
        }),
{
    let wal = loaded_wal(segment_max, Seq::empty());
    let start = LogV {
        wal,
        files: seq![(wal.active_id, Seq::<u8>::empty())],
        buffer: Seq::empty(),
    };
    let logs = seq![Seq::<EntryV>::empty()];
    assert(frames(Seq::<EntryV>::empty()) =~= Seq::<u8>::empty());
    lemma_exact_file(Seq::<EntryV>::empty());
    assert(tidy(start, logs));
    assert(logs.drop_last() =~= Seq::empty());
    assert(whole_log(logs.drop_last()) =~= Seq::<EntryV>::empty());
    assert(whole_log(logs) =~= Seq::<EntryV>::empty());
    law_load_gives_what_was_acknowledged(start, logs, tries, tries.len());
    let next = choose|next: Seq<Seq<EntryV>>| #[trigger]
        tidy(log_after(start, tries, tries.len()), next) && whole_log(next) == whole_log(logs)
            + acknowledged(start, tries, tries.len());
    assert(whole_log(next) =~= acknowledged(start, tries, tries.len()));
    assert(files_hold(file_bytes(log_after(start, tries, tries.len()).dropped()), next));
}

/// A log that was loaded, and whose last file was cut as its tail says, is tidy again, so that
/// what was acknowledged before and after a restart is given back together.
pub proof fn law_loaded_log_is_tidy(
    wal: WalV,
    files: Seq<(u64, Seq<u8>)>,
    logs: Seq<Seq<EntryV>>,
)
    requires
        files.len() > 0,
        files_hold(file_bytes(files), logs),
        clean(wal, frames(logs.last()), logs.last()),
        wal.active_id == files.last().0,
        forall|i: int, j: int|
            0 <= i < j < files.len() ==> (#[trigger] files[i]).0 < (#[trigger] files[j]).0,
    ensures
        tidy(
            LogV {
                wal,
                files: files.drop_last().push((files.last().0, frames(logs.last()))),
                buffer: Seq::empty(),
            },
            logs,
        ),
{
    let mended = files.drop_last().push((files.last().0, frames(logs.last())));
    let bytes = file_bytes(files);
    let new_bytes = file_bytes(mended);
    lemma_exact_file(logs.last());
    assert forall|i: int| 0 <= i < new_bytes.len() implies file_holds(
        #[trigger] new_bytes[i],
        logs[i],
    ) by {
        if i < files.len() - 1 {
            assert(file_holds(bytes[i], logs[i]));
            assert(new_bytes[i] == bytes[i]);
        }
    }
}

} // verus!
