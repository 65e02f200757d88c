//! What holds of reading over several calls: where a reader starts, what a page holds, and
//! that pages follow each other without a gap and without a repetition.
use crate::json::JsonV;
use crate::params::required;
use crate::protocol::{error_of, ApiError, ErrV};
use crate::records::{
    is_read, is_response, is_start, iterated, page_at, page_len, read_limit, read_request,
    read_response, seqs_fit, shows_response, MAX_GET_RECORDS, MAX_GET_RECORDS_BYTES,
};
use crate::store::{latest_seq, records_bytes, start_seq, IteratorV, StoreV, ITERATOR_TTL_MS};
use crate::store_laws::{counted, rising, store_counted};
use crate::streams::{first_where, lemma_first_where, RecordV};
use crate::token::token_iterator;
use vstd::prelude::*;

verus! {

/// In a shard whose sequence numbers rise there is exactly one place to start from: all
/// records before it are below the number, all others are not.
pub proof fn law_start_is_unique(records: Seq<RecordV>, seq: u64, a: int, b: int)
    requires
        rising(records),
        is_start(records, seq, a),
    ensures
        is_start(records, seq, b) ==> a == b,
        forall|k: int| 0 <= k < a ==> (#[trigger] records[k]).seq < seq,
        forall|k: int| a <= k < records.len() ==> (#[trigger] records[k]).seq >= seq,
{
    assert forall|k: int| 0 <= k < a implies (#[trigger] records[k]).seq < seq by {
        if k < a - 1 {
            assert(records[k].seq < records[a - 1].seq);
        }
    }
    assert forall|k: int| a <= k < records.len() implies (#[trigger] records[k]).seq >= seq by {
        if k > a {
            assert(records[a].seq < records[k].seq);
        }
    }
    if is_start(records, seq, b) {
        if a < b {
            assert(records[b - 1].seq >= seq);
        } else if b < a {
            assert(records[b].seq < seq);
        }
    }
}

/// A page holds at most as many records as were asked for, and at least one where there is
/// one. Its payload stays within 10 MiB, unless it is a single record; and it ends only at the
/// limit, at the end of the shard, or where the next record would take it over 10 MiB.
pub proof fn law_page_makes_progress(records: Seq<RecordV>, limit: nat)
    requires
        limit > 0,
    ensures
        ({
            let n = page_len(records, limit, 0);
            &&& n <= limit
            &&& n <= records.len()
            &&& records.len() > 0 ==> n > 0
            &&& n > 1 ==> records_bytes(records, n) <= MAX_GET_RECORDS_BYTES
            &&& n < limit && n < records.len() ==> records_bytes(records, n + 1)
                > MAX_GET_RECORDS_BYTES
        }),
{
    lemma_page_len(records, limit, 0);
}

proof fn lemma_page_len(records: Seq<RecordV>, limit: nat, n: nat)
    requires
        n <= limit,
        n <= records.len(),
        n > 1 ==> records_bytes(records, n) <= MAX_GET_RECORDS_BYTES,
    ensures
        ({
            let r = page_len(records, limit, n);
            &&& n <= r <= limit
            &&& r <= records.len()
            &&& n == 0 && limit > 0 && records.len() > 0 ==> r > 0
            &&& r > 1 ==> records_bytes(records, r) <= MAX_GET_RECORDS_BYTES
            &&& r < limit && r < records.len() ==> r > 0 && records_bytes(records, r + 1)
                > MAX_GET_RECORDS_BYTES
        }),
    decreases records.len() - n,
{
    if n >= records.len() || n >= limit || (n > 0 && records_bytes(records, n + 1)
        > MAX_GET_RECORDS_BYTES) {
    } else {
        lemma_page_len(records, limit, n + 1);
    }
}

/// Pages follow each other without a gap and without a repetition: the page after one that
/// held records starts right behind its last record, also where more records have come in
/// meanwhile.
pub proof fn law_pages_follow_each_other(
    records: Seq<RecordV>,
    more: Seq<RecordV>,
    seq: u64,
    start: int,
    limit: nat,
    now: u128,
)
    requires
        rising(records + more),
        is_start(records, seq, start),
        limit > 0,
        start < records.len(),
        forall|k: int| 0 <= k < records.len() ==> (#[trigger] records[k]).seq < u64::MAX,
    ensures
        ({
            let page = page_at(records, seq, start, limit, now);
            &&& page.records.len() > 0
            &&& page.records == records.subrange(start, start + page.records.len())
            &&& is_start(records + more, page.next_seq, start + page.records.len())
        }),
{
    let rest = records.skip(start);
    let all = records + more;
    law_page_makes_progress(rest, limit);
    let n = page_len(rest, limit, 0) as int;
    let page = page_at(records, seq, start, limit, now);
    assert(page.records =~= records.subrange(start, start + n));
    assert(page.records.last() == records[start + n - 1]);
    assert(all[start + n - 1] == records[start + n - 1]);
    if start + n < all.len() {
        assert(all[start + n - 1].seq < all[start + n].seq);
    }
}

/// Where reading from `seq` on starts.
pub open spec fn start_of(records: Seq<RecordV>, seq: u64) -> int {
    choose|start: int| is_start(records, seq, start)
}

/// The records of the first `n` pages of a walk over a shard, one page after the other, and the
/// sequence number at which the next page starts. The walk begins at the oldest record, and each
/// page is read where the one before has ended, with a limit and at a time of its own.
pub open spec fn walk(
    records: Seq<RecordV>,
    limits: Seq<nat>,
    times: Seq<u128>,
    n: nat,
) -> (Seq<RecordV>, u64)
    decreases n,
{
    if n == 0 {
        (Seq::empty(), start_seq(records, "TRIM_HORIZON"@, None, None)->0)
    } else {
        let (read, seq) = walk(records, limits, times, (n - 1) as nat);
        let page = page_at(records, seq, start_of(records, seq), limits[n - 1], times[n - 1]);
        (read + page.records, page.next_seq)
    }
}

/// A walk over a shard reads its records, each exactly once and in their order: the pages
/// joined together are always the first records of the shard, the next page starts right behind
/// them, it is empty only where none are left, and after as many pages as there are records all
/// have been read.
pub proof fn law_walk_reads_every_record_once(
    records: Seq<RecordV>,
    limits: Seq<nat>,
    times: Seq<u128>,
    n: nat,
)
    requires
        rising(records),
        forall|k: int| 0 <= k < records.len() ==> (#[trigger] records[k]).seq < u64::MAX,
        n <= limits.len(),
        n <= times.len(),
        forall|i: int| 0 <= i < n ==> 1 <= #[trigger] limits[i] <= MAX_GET_RECORDS,
    ensures
        ({
            let (read, seq) = walk(records, limits, times, n);
            &&& read.len() <= records.len()
            &&& read == records.take(read.len() as int)
            &&& is_start(records, seq, read.len() as int)
            &&& start_of(records, seq) == read.len()
            &&& n > 0 ==> {
                let before = walk(records, limits, times, (n - 1) as nat).0;
                read.len() > before.len() || before == records
            }
            &&& read.len() >= n || read == records
        }),
    decreases n,
{
    let (read, seq) = walk(records, limits, times, n);
    if n == 0 {
        assert(read =~= records.take(0));
        assert(is_start(records, 0, 0));
        law_start_is_unique(records, 0, 0, start_of(records, 0));
        assert(is_start(records, 0, start_of(records, 0)));
    } else {
        let m = (n - 1) as nat;
        law_walk_reads_every_record_once(records, limits, times, m);
        let (before, from) = walk(records, limits, times, m);
        let start = before.len() as int;
        let limit = limits[n - 1];
        let page = page_at(records, from, start, limit, times[n - 1]);
        let none = Seq::<RecordV>::empty();
        assert(records + none =~= records);
        assert(records.take(records.len() as int) =~= records);
        if start < records.len() {
            law_pages_follow_each_other(records, none, from, start, limit, times[n - 1]);
            assert(read =~= records.take(start + page.records.len()));
        } else {
            assert(records.skip(start) =~= none);
            assert(page.records =~= none);
            assert(read =~= before);
        }
        let end = read.len() as int;
        law_start_is_unique(records, seq, end, start_of(records, seq));
        assert(is_start(records, seq, start_of(records, seq)));
    }
}

/// The iterator whose token the answer to a reader holds.
pub open spec fn following(
    records: Seq<RecordV>,
    it: IteratorV,
    limit: nat,
    now: u128,
) -> IteratorV {
    let page = page_at(records, it.next_seq, start_of(records, it.next_seq), limit, now);
    IteratorV {
        next_seq: page.next_seq,
        expires_ms: (now + ITERATOR_TTL_MS) as u128,
        ..it
    }
}

/// A series of GetRecords calls that begins at `TRIM_HORIZON` and goes on with the token of each
/// answer walks over the shard: every call succeeds, the `i`-th answer holds the `i`-th page of
/// the walk, and after as many calls as there are records, all have been returned, each exactly
/// once and in their order. (`its[i]` is the iterator that the token of the `i`-th request stands
/// for; `decode_iterator` gives it back from the token that the answer before holds.)
pub proof fn law_calls_walk_over_the_shard(
    store: StoreV,
    records: Seq<RecordV>,
    reqs: Seq<JsonV>,
    its: Seq<IteratorV>,
    limits: Seq<nat>,
    times: Seq<u128>,
    results: Seq<Result<(Vec<u8>, u64, u64), ApiError>>,
    n: nat,
)
    requires
        rising(records),
        forall|k: int| 0 <= k < records.len() ==> (#[trigger] records[k]).seq < u64::MAX,
        n > 0,
        n <= limits.len(),
        n <= times.len(),
        iterated(store, its[0]) == Ok::<Seq<RecordV>, ErrV>(records),
        its[0].next_seq == start_seq(records, "TRIM_HORIZON"@, None, None)->0,
        forall|i: int| 0 <= i < n ==> is_call(store, reqs, its, limits, times, results, i),
        forall|i: int|
            0 < i < n ==> #[trigger] its[i] == following(
                records,
                its[i - 1],
                limits[i - 1],
                times[i - 1],
            ),
    ensures
        forall|i: int|
            0 <= i < n ==> #[trigger] shows_page(records, its, limits, times, results, i),
        n >= records.len() ==> walk(records, limits, times, n).0 == records,
{
    assert forall|i: int| 0 <= i < n implies 1 <= #[trigger] limits[i] <= MAX_GET_RECORDS by {
        assert(is_call(store, reqs, its, limits, times, results, i));
    }
    lemma_iterators_walk(records, its, limits, times, n);
    assert forall|i: int| 0 <= i < n implies #[trigger] shows_page(
        records,
        its,
        limits,
        times,
        results,
        i,
    ) by {
        assert(is_call(store, reqs, its, limits, times, results, i));
        assert(its[i].stream == its[0].stream && its[i].shard_id == its[0].shard_id);
        law_walk_reads_every_record_once(records, limits, times, i as nat);
        lemma_call_shows_its_page(store, records, reqs, its, limits, times, results, i);
    }
    law_walk_reads_every_record_once(records, limits, times, n);
    if n >= records.len() {
        assert(records.take(records.len() as int) =~= records);
    }
}

/// Whether the `i`-th result of a series holds the `i`-th page of the walk, which goes on where
/// the pages before have ended.
pub open spec fn shows_page(
    records: Seq<RecordV>,
    its: Seq<IteratorV>,
    limits: Seq<nat>,
    times: Seq<u128>,
    results: Seq<Result<(Vec<u8>, u64, u64), ApiError>>,
    i: int,
) -> bool {
    let read = walk(records, limits, times, i as nat).0;
    let start = read.len() as int;
    let page = page_at(records, its[i].next_seq, start, limits[i], times[i]);
    &&& results[i] is Ok
    &&& shows_response(
        results[i]->Ok_0,
        read_response(records, its[i], start, limits[i], times[i]),
    )
    &&& walk(records, limits, times, (i + 1) as nat).0 == read + page.records
}

proof fn lemma_call_shows_its_page(
    store: StoreV,
    records: Seq<RecordV>,
    reqs: Seq<JsonV>,
    its: Seq<IteratorV>,
    limits: Seq<nat>,
    times: Seq<u128>,
    results: Seq<Result<(Vec<u8>, u64, u64), ApiError>>,
    i: int,
)
    requires
        i >= 0,
        rising(records),
        is_call(store, reqs, its, limits, times, results, i),
        iterated(store, its[0]) == Ok::<Seq<RecordV>, ErrV>(records),
        its[i].stream == its[0].stream,
        its[i].shard_id == its[0].shard_id,
        its[i].next_seq == walk(records, limits, times, i as nat).1,
        is_start(
            records,
            its[i].next_seq,
            walk(records, limits, times, i as nat).0.len() as int,
        ),
        start_of(records, its[i].next_seq) == walk(records, limits, times, i as nat).0.len(),
    ensures
        shows_page(records, its, limits, times, results, i),
{
    let it = its[i];
    let at = walk(records, limits, times, i as nat).0.len() as int;
    assert(iterated(store, it) == Ok::<Seq<RecordV>, ErrV>(records));
    assert(is_response(records, it, limits[i], times[i], results[i]->Ok_0));
    let start = choose|start: int|
        is_start(records, it.next_seq, start) && shows_response(
            results[i]->Ok_0,
            #[trigger] read_response(records, it, start, limits[i], times[i]),
        );
    law_start_is_unique(records, it.next_seq, start, at);
}

/// Whether the `i`-th request of a series asks for `its[i]` with its limit at its time, and the
/// `i`-th result is what `get_records` gives for it.
pub open spec fn is_call(
    store: StoreV,
    reqs: Seq<JsonV>,
    its: Seq<IteratorV>,
    limits: Seq<nat>,
    times: Seq<u128>,
    results: Seq<Result<(Vec<u8>, u64, u64), ApiError>>,
    i: int,
) -> bool {
    &&& read_request(reqs[i], times[i]) == Ok::<(IteratorV, nat), ErrV>((its[i], limits[i]))
    &&& is_read(store, reqs[i], times[i], results[i])
}

/// Iterators that follow each other stand where the walk does.
proof fn lemma_iterators_walk(
    records: Seq<RecordV>,
    its: Seq<IteratorV>,
    limits: Seq<nat>,
    times: Seq<u128>,
    n: nat,
)
    requires
        n > 0,
        its[0].next_seq == start_seq(records, "TRIM_HORIZON"@, None, None)->0,
        forall|i: int|
            0 < i < n ==> #[trigger] its[i] == following(
                records,
                its[i - 1],
                limits[i - 1],
                times[i - 1],
            ),
    ensures
        forall|i: int|
            0 <= i < n ==> (#[trigger] its[i]).next_seq == walk(
                records,
                limits,
                times,
                i as nat,
            ).1 && its[i].stream == its[0].stream && its[i].shard_id == its[0].shard_id,
    decreases n,
{
    if n > 1 {
        let m = (n - 1) as nat;
        lemma_iterators_walk(records, its, limits, times, m);
        let last = its[m - 1];
        assert(its[m as int] == following(records, last, limits[m - 1], times[m - 1]));
        assert(last.next_seq == walk(records, limits, times, (m - 1) as nat).1);
    }
}

/// No record lies above the counter, so where the counter has not reached the last of all
/// sequence numbers, none has it.
pub proof fn law_counted_numbers_fit(store: StoreV)
    requires
        store_counted(store),
        store.counter < u64::MAX,
    ensures
        seqs_fit(store),
{
    assert forall|name: Seq<char>, i: int, k: int|
        store.streams.contains_key(name) && 0 <= i < store.streams[name].shards.len() && 0 <= k
            < store.streams[name].shards[i].records.len() implies (
    #[trigger] store.streams[name].shards[i].records[k]).seq < u64::MAX by {
        assert(counted(store.streams[name].shards[i].records, store.counter));
    }
}

/// A reader has caught up, and is told so by a lag of 0, once its next page starts behind the
/// newest record.
pub proof fn law_caught_up_reader_has_no_lag(
    records: Seq<RecordV>,
    seq: u64,
    start: int,
    limit: nat,
    now: u128,
)
    requires
        is_start(records, seq, start),
        limit > 0,
        page_at(records, seq, start, limit, now).next_seq > latest_seq(records),
    ensures
        page_at(records, seq, start, limit, now).millis_behind == 0,
{
}

/// Where the iterator types start in a shard whose sequence numbers rise: `TRIM_HORIZON` at
/// the oldest record, `AT_SEQUENCE_NUMBER` at the record of that number and
/// `AFTER_SEQUENCE_NUMBER` behind it, `LATEST` behind everything that is there, so that it
/// sees just what comes in later.
pub proof fn law_iterator_types_start_where_they_say(
    records: Seq<RecordV>,
    more: Seq<RecordV>,
    k: int,
)
    requires
        rising(records + more),
        forall|i: int| 0 <= i < (records + more).len() ==> 0 < (#[trigger] (records + more)[i]).seq
            < u64::MAX,
        0 <= k < records.len(),
    ensures
        is_start(records, start_seq(records, "TRIM_HORIZON"@, None, None)->0, 0),
        is_start(
            records,
            start_seq(records, "AT_SEQUENCE_NUMBER"@, Some(records[k].seq), None)->0,
            k,
        ),
        is_start(
            records,
            start_seq(records, "AFTER_SEQUENCE_NUMBER"@, Some(records[k].seq), None)->0,
            k + 1,
        ),
        is_start(
            records + more,
            start_seq(records, "LATEST"@, None, None)->0,
            records.len() as int,
        ),
        is_start(more, start_seq(Seq::empty(), "LATEST"@, None, None)->0, 0),
{
    reveal_strlit("TRIM_HORIZON");
    reveal_strlit("LATEST");
    reveal_strlit("AT_SEQUENCE_NUMBER");
    reveal_strlit("AFTER_SEQUENCE_NUMBER");
    assert("TRIM_HORIZON"@.len() == 12);
    assert("LATEST"@.len() == 6);
    assert("AT_SEQUENCE_NUMBER"@.len() == 18);
    assert("AFTER_SEQUENCE_NUMBER"@.len() == 21);
    let all = records + more;
    assert(all[k] == records[k]);
    if k > 0 {
        assert(all[k - 1] == records[k - 1]);
        assert(all[k - 1].seq < all[k].seq);
    }
    if k + 1 < records.len() {
        assert(all[k + 1] == records[k + 1]);
        assert(all[k].seq < all[k + 1].seq);
    }
    let last = records.len() - 1;
    assert(all[last] == records[last]);
    if more.len() > 0 {
        assert(all[last + 1] == more[0]);
        assert(all[last].seq < all[last + 1].seq);
    }
}

/// A consumer that resumes behind its checkpoint (`AFTER_SEQUENCE_NUMBER`) skips exactly what
/// it has consumed: the records from its start on are those above the checkpoint, whether the
/// record of the checkpoint itself is still there or not.
pub proof fn law_checkpoint_skips_what_was_consumed(
    records: Seq<RecordV>,
    checkpoint: u64,
    start: int,
)
    requires
        rising(records),
        checkpoint < u64::MAX,
        is_start(
            records,
            start_seq(records, "AFTER_SEQUENCE_NUMBER"@, Some(checkpoint), None)->0,
            start,
        ),
    ensures
        forall|k: int|
            0 <= k < records.len() ==> ((#[trigger] records[k]).seq > checkpoint) == (k >= start),
{
    reveal_strlit("TRIM_HORIZON");
    reveal_strlit("LATEST");
    reveal_strlit("AT_SEQUENCE_NUMBER");
    reveal_strlit("AFTER_SEQUENCE_NUMBER");
    assert("TRIM_HORIZON"@.len() == 12);
    assert("LATEST"@.len() == 6);
    assert("AT_SEQUENCE_NUMBER"@.len() == 18);
    assert("AFTER_SEQUENCE_NUMBER"@.len() == 21);
    law_start_is_unique(records, (checkpoint + 1) as u64, start, start);
}

/// A shard iterator can be used for five minutes, and not a millisecond longer.
pub proof fn law_iterator_lives_five_minutes(req: JsonV, it: IteratorV, made: u128, used: u128)
    requires
        required(req, "ShardIterator"@) is Ok,
        token_iterator(required(req, "ShardIterator"@)->Ok_0) == Ok::<IteratorV, ErrV>(it),
        it.expires_ms == made + ITERATOR_TTL_MS,
        read_limit(req) is Ok,
    ensures
        (read_request(req, used) is Ok) == (used - made <= 300_000),
        used - made > 300_000 ==> read_request(req, used)->Err_0 == error_of(
            "ExpiredIteratorException"@,
            "Iterator expired (5 min TTL)"@,
        ),
{
}

/// Where `AT_TIMESTAMP` starts: behind every record that is older, at the first that is not.
pub proof fn law_timestamp_starts_at_the_first_record_not_older(records: Seq<RecordV>, ts: u128)
    requires
        rising(records),
        forall|i: int| 0 <= i < records.len() ==> (#[trigger] records[i]).seq < u64::MAX,
    ensures
        ({
            let start = match first_where(records, |record: RecordV| record.timestamp_ms >= ts) {
                Some(i) => i,
                None => records.len() as int,
            };
            &&& is_start(records, start_seq(records, "AT_TIMESTAMP"@, None, Some(ts))->0, start)
            &&& forall|i: int| 0 <= i < start ==> (#[trigger] records[i]).timestamp_ms < ts
        }),
{
    reveal_strlit("TRIM_HORIZON");
    reveal_strlit("LATEST");
    reveal_strlit("AT_SEQUENCE_NUMBER");
    reveal_strlit("AFTER_SEQUENCE_NUMBER");
    reveal_strlit("AT_TIMESTAMP");
    assert("TRIM_HORIZON"@.len() == 12 && "TRIM_HORIZON"@[0] == 'T');
    assert("LATEST"@.len() == 6);
    assert("AT_SEQUENCE_NUMBER"@.len() == 18);
    assert("AFTER_SEQUENCE_NUMBER"@.len() == 21);
    assert("AT_TIMESTAMP"@.len() == 12 && "AT_TIMESTAMP"@[0] == 'A');
    let wanted = |record: RecordV| record.timestamp_ms >= ts;
    lemma_first_where(records, wanted);
    match first_where(records, wanted) {
        Some(i) => {
            if i > 0 {
                assert(records[i - 1].seq < records[i].seq);
            }
        },
        None => {},
    }
}

} // verus!
