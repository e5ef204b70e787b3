use crate::error::StoreError;
use crate::job::{views, Job, JobView};
use crate::report::{count_sum, count_sum_of, AggregatedDelete, BucketKey};
use crate::state::JobState;
use crate::store::rows_valid;
use crate::time::{has_lapsed, hour_floor, hour_start, lapsed, Timestamp};
use vstd::prelude::*;

verus! {

/// Whether the job's lease has gone silent: the job is running and its last heartbeat is
/// older than `now - timeout`.
pub open spec fn stale(job: JobView, now: Timestamp, timeout: i64) -> bool {
    &&& job.state == JobState::Running
    &&& job.last_heartbeat matches Some(heartbeat)
    &&& lapsed(heartbeat, now, timeout)
}

/// [`stale`] as a predicate on jobs.
pub open spec fn stale_at(now: Timestamp, timeout: i64) -> spec_fn(JobView) -> bool {
    |job: JobView| stale(job, now, timeout)
}

/// Whether one of the counters that a reclamation raises is at the top of its range.
pub open spec fn counters_full(job: JobView) -> bool {
    job.transition_count == i16::MAX || job.janitor_touch_count == i16::MAX
}

/// The job after the janitor took it back at `now`: available again, without a lock, and
/// with one more janitor touch and one more transition to its name.
pub open spec fn reclaimed(job: JobView, now: Timestamp) -> JobView {
    JobView {
        state: JobState::Available,
        lock_id: None,
        janitor_touch_count: (job.janitor_touch_count + 1) as i16,
        transition_count: (job.transition_count + 1) as i16,
        last_transition: now,
        ..job
    }
}

/// How reclaiming at `now` the leases that have been silent for longer than `timeout`
/// takes the rows from `before` to `after`, with the result `r`.
///
/// Every stale job is taken back and counted, and no other row changes. Where a stale
/// job's counter would wrap, the counter overflows and nothing changes.
pub open spec fn reclaim_outcome(
    before: Seq<JobView>,
    after: Seq<JobView>,
    r: Result<usize, StoreError>,
    timeout: i64,
    now: Timestamp,
) -> bool {
    let blocked = exists|i: int|
        0 <= i < before.len() && stale(#[trigger] before[i], now, timeout) && counters_full(
            before[i],
        );
    match r {
        Ok(count) => {
            &&& !blocked
            &&& after.len() == before.len()
            &&& forall|i: int|
                0 <= i < before.len() ==> #[trigger] after[i] == if stale(before[i], now, timeout) {
                    reclaimed(before[i], now)
                } else {
                    before[i]
                }
            &&& count == before.filter(stale_at(now, timeout)).len()
        },
        Err(error) => {
            &&& error == StoreError::CounterOverflow
            &&& blocked
            &&& after == before
        },
    }
}

/// Decides [`stale`].
pub fn is_stale(job: &Job, now: Timestamp, timeout: i64) -> (b: bool)
    ensures
        b == stale(job@, now, timeout),
{
    job.state == JobState::Running && match job.last_heartbeat {
        Some(heartbeat) => has_lapsed(heartbeat, now, timeout),
        None => false,
    }
}

/// Takes back every job whose lease has been silent for longer than `timeout`.
pub(crate) fn reclaim(jobs: &mut Vec<Job>, timeout: i64, now: Timestamp) -> (r: Result<
    usize,
    StoreError,
>)
    requires
        rows_valid(views(old(jobs)@)),
    ensures
        rows_valid(views(final(jobs)@)),
        reclaim_outcome(views(old(jobs)@), views(final(jobs)@), r, timeout, now),
{
    let ghost before = views(jobs@);
    let mut c: usize = 0;
    while c < jobs.len()
        invariant
            c <= jobs.len(),
            before == views(jobs@),
            rows_valid(before),
            forall|k: int|
                0 <= k < c ==> !(stale(#[trigger] before[k], now, timeout) && counters_full(
                    before[k],
                )),
        decreases jobs.len() - c,
    {
        if is_stale(&jobs[c], now, timeout) && (jobs[c].transition_count == i16::MAX
            || jobs[c].janitor_touch_count == i16::MAX) {
            assert(stale(before[c as int], now, timeout) && counters_full(before[c as int]));
            return Err(StoreError::CounterOverflow);
        }
        c += 1;
    }
    let mut count: usize = 0;
    let mut i: usize = 0;
    while i < jobs.len()
        invariant
            i <= jobs.len(),
            jobs.len() == before.len(),
            before == views(old(jobs)@),
            rows_valid(before),
            views(jobs@).len() == before.len(),
            forall|k: int|
                0 <= k < before.len() ==> !(stale(#[trigger] before[k], now, timeout)
                    && counters_full(before[k])),
            forall|k: int|
                0 <= k < i ==> #[trigger] views(jobs@)[k] == if stale(before[k], now, timeout) {
                    reclaimed(before[k], now)
                } else {
                    before[k]
                },
            forall|k: int| i <= k < before.len() ==> #[trigger] views(jobs@)[k] == before[k],
            count == before.take(i as int).filter(stale_at(now, timeout)).len(),
            count <= i,
        decreases jobs.len() - i,
    {
        let ghost prev = views(jobs@);
        assert(prev[i as int] == before[i as int]);
        proof {
            assert(before.take(i + 1) =~= before.take(i as int).push(before[i as int]));
            before.take(i as int).lemma_filter_len_push(
                stale_at(now, timeout),
                before[i as int],
            );
        }
        if is_stale(&jobs[i], now, timeout) {
            assert(!counters_full(before[i as int]));
            jobs[i].state = JobState::Available;
            jobs[i].lock_id = None;
            jobs[i].janitor_touch_count = jobs[i].janitor_touch_count + 1;
            jobs[i].transition_count = jobs[i].transition_count + 1;
            jobs[i].last_transition = now;
            count += 1;
            assert(views(jobs@) =~= prev.update(i as int, reclaimed(before[i as int], now)));
        }
        i += 1;
    }
    proof {
        let after = views(jobs@);
        assert(before.take(before.len() as int) =~= before);
        lemma_reclaim_keeps_valid(before, after, timeout, now);
    }
    Ok(count)
}

/// Taking stale jobs back keeps the rows valid.
pub proof fn lemma_reclaim_keeps_valid(
    before: Seq<JobView>,
    after: Seq<JobView>,
    timeout: i64,
    now: Timestamp,
)
    requires
        rows_valid(before),
        after.len() == before.len(),
        forall|i: int|
            0 <= i < before.len() ==> !(stale(#[trigger] before[i], now, timeout) && counters_full(
                before[i],
            )),
        forall|i: int|
            0 <= i < before.len() ==> #[trigger] after[i] == if stale(before[i], now, timeout) {
                reclaimed(before[i], now)
            } else {
                before[i]
            },
    ensures
        rows_valid(after),
{
    assert forall|i: int| 0 <= i < after.len() implies (#[trigger] after[i]).valid() && after[i].id
        == before[i].id && (after[i].lock_id is Some ==> after[i].lock_id == before[i].lock_id) by {
        assert(before[i].valid());
        assert(!(stale(before[i], now, timeout) && counters_full(before[i])));
    }
    assert forall|i: int, j: int| 0 <= i < j < after.len() implies (#[trigger] after[i]).id != (
    #[trigger] after[j]).id by {
        assert(before[i].id != before[j].id);
    }
    assert forall|i: int, j: int|
        0 <= i < after.len() && 0 <= j < after.len() && i != j && after[i].lock_id is Some implies (
    #[trigger] after[i]).lock_id != (#[trigger] after[j]).lock_id by {
        assert(before[i].lock_id != before[j].lock_id);
    }
}

/// Whether the job is finished and has been so since before `cutoff`.
pub open spec fn purgeable(job: JobView, cutoff: Timestamp) -> bool {
    job.state.terminal() && job.last_transition < cutoff
}

/// [`purgeable`] as a predicate on jobs.
pub open spec fn purged_by(cutoff: Timestamp) -> spec_fn(JobView) -> bool {
    |job: JobView| purgeable(job, cutoff)
}

/// The jobs that are not [`purgeable`], as a predicate on jobs.
pub open spec fn kept_by(cutoff: Timestamp) -> spec_fn(JobView) -> bool {
    |job: JobView| !purgeable(job, cutoff)
}

/// The bucket under which a purged job is counted: the hour of its last transition, its
/// team, its function and its state.
pub open spec fn bucket_of(job: JobView) -> BucketKey {
    BucketKey {
        hour: hour_start(job.last_transition),
        team_id: job.team_id as i64,
        function_id: job.function_id,
        state: job.state,
    }
}

/// The jobs that are counted under `key`, as a predicate on jobs.
pub open spec fn in_bucket(key: BucketKey) -> spec_fn(JobView) -> bool {
    |job: JobView| bucket_of(job) == key
}

/// Whether `buckets` counts the jobs `rows` by bucket: no bucket occurs twice, each holds
/// the number of the jobs that fall under it, which is not zero, and every job falls under
/// one of them.
pub open spec fn is_tally(rows: Seq<JobView>, buckets: Seq<AggregatedDelete>) -> bool {
    &&& forall|a: int, b: int|
        0 <= a < b < buckets.len() ==> (#[trigger] buckets[a]).key() != (#[trigger] buckets[b]).key()
    &&& forall|k: int|
        0 <= k < buckets.len() ==> (#[trigger] buckets[k]).count >= 1 && buckets[k].count
            == rows.filter(in_bucket(buckets[k].key())).len()
    &&& forall|i: int|
        0 <= i < rows.len() ==> exists|k: int|
            0 <= k < buckets.len() && (#[trigger] buckets[k]).key() == bucket_of(#[trigger] rows[i])
}

/// Whether no job up to position `upto` falls under `key`.
pub open spec fn none_up_to(rows: Seq<JobView>, key: BucketKey, upto: int) -> bool {
    forall|j: int| 0 <= j <= upto && j < rows.len() ==> bucket_of(#[trigger] rows[j]) != key
}

/// Whether a job of the bucket `first` stands before every job of the bucket `second`.
pub open spec fn comes_first(rows: Seq<JobView>, first: BucketKey, second: BucketKey) -> bool {
    exists|i: int|
        0 <= i < rows.len() && bucket_of(#[trigger] rows[i]) == first && none_up_to(
            rows,
            second,
            i,
        )
}

/// Whether the buckets stand in the order in which the first job of each stands in
/// `rows`.
pub open spec fn in_order_of_arrival(rows: Seq<JobView>, buckets: Seq<AggregatedDelete>) -> bool {
    forall|a: int, b: int|
        0 <= a < b < buckets.len() ==> comes_first(
            rows,
            (#[trigger] buckets[a]).key(),
            (#[trigger] buckets[b]).key(),
        )
}

/// How purging the jobs that finished before `cutoff` takes the rows from `before` to
/// `after`, with the counts `report`.
///
/// Exactly the purgeable jobs leave, the others stay in their order, and the report
/// counts by bucket the jobs that left, the buckets in the order in which their first
/// job stood in the store.
pub open spec fn purge_outcome(
    before: Seq<JobView>,
    after: Seq<JobView>,
    report: Seq<AggregatedDelete>,
    cutoff: Timestamp,
) -> bool {
    &&& after == before.filter(kept_by(cutoff))
    &&& is_tally(before.filter(purged_by(cutoff)), report)
    &&& in_order_of_arrival(before.filter(purged_by(cutoff)), report)
}

/// Decides [`purgeable`].
pub fn is_purgeable(job: &Job, cutoff: Timestamp) -> (b: bool)
    ensures
        b == purgeable(job@, cutoff),
{
    job.state.is_terminal() && job.last_transition < cutoff
}

/// No job falls under a bucket that none of them has.
proof fn lemma_empty_bucket(rows: Seq<JobView>, key: BucketKey)
    requires
        forall|i: int| 0 <= i < rows.len() ==> bucket_of(#[trigger] rows[i]) != key,
    ensures
        rows.filter(in_bucket(key)).len() == 0,
    decreases rows.len(),
{
    if rows.len() > 0 {
        let rest = rows.drop_last();
        assert forall|i: int| 0 <= i < rest.len() implies bucket_of(#[trigger] rest[i]) != key by {
            assert(rest[i] == rows[i]);
        }
        lemma_empty_bucket(rest, key);
        rest.lemma_filter_len_push(in_bucket(key), rows.last());
        assert(rest.push(rows.last()) =~= rows);
        assert(bucket_of(rows[rows.len() - 1]) != key);
    } else {
        rows.lemma_filter_len(in_bucket(key));
    }
}

/// Raising one count by one raises the sum by one.
proof fn lemma_sum_raise(buckets: Seq<AggregatedDelete>, k: int)
    requires
        0 <= k < buckets.len(),
        buckets[k].count < i64::MAX,
    ensures
        count_sum(
            buckets.update(k, AggregatedDelete { count: (buckets[k].count + 1) as i64, ..buckets[k] }),
        ) == count_sum(buckets) + 1,
    decreases buckets.len(),
{
    let raised = buckets.update(
        k,
        AggregatedDelete { count: (buckets[k].count + 1) as i64, ..buckets[k] },
    );
    if k == buckets.len() - 1 {
        assert(raised.drop_last() =~= buckets.drop_last());
    } else {
        lemma_sum_raise(buckets.drop_last(), k);
        assert(raised.drop_last() =~= buckets.drop_last().update(
            k,
            AggregatedDelete { count: (buckets[k].count + 1) as i64, ..buckets[k] },
        ));
    }
}

/// A job that arrives later does not change which of two buckets came first.
proof fn lemma_still_first(rows: Seq<JobView>, job: JobView, first: BucketKey, second: BucketKey)
    requires
        comes_first(rows, first, second),
    ensures
        comes_first(rows.push(job), first, second),
{
    let more = rows.push(job);
    let i = choose|i: int|
        0 <= i < rows.len() && bucket_of(#[trigger] rows[i]) == first && none_up_to(
            rows,
            second,
            i,
        );
    assert(more[i] == rows[i]);
    assert forall|j: int| 0 <= j <= i && j < more.len() implies bucket_of(#[trigger] more[j])
        != second by {
        assert(more[j] == rows[j]);
    }
    assert(none_up_to(more, second, i));
}

/// Counts one more purged job.
#[verifier::loop_isolation(false)]
fn record(buckets: &mut Vec<AggregatedDelete>, job: &Job, Ghost(rows): Ghost<Seq<JobView>>)
    requires
        is_tally(rows, old(buckets)@),
        in_order_of_arrival(rows, old(buckets)@),
        count_sum(old(buckets)@) == rows.len(),
        rows.len() < i64::MAX,
    ensures
        is_tally(rows.push(job@), final(buckets)@),
        in_order_of_arrival(rows.push(job@), final(buckets)@),
        count_sum(final(buckets)@) == rows.len() + 1,
{
    let hour = hour_floor(job.last_transition);
    let team_id = job.team_id as i64;
    let ghost key = bucket_of(job@);
    let ghost tally = buckets@;
    let ghost more = rows.push(job@);
    proof {
        assert forall|k: int| 0 <= k < tally.len() implies more.filter(
            in_bucket(#[trigger] tally[k].key()),
        ).len() == rows.filter(in_bucket(tally[k].key())).len() + (if tally[k].key() == key {
            1int
        } else {
            0int
        }) by {
            rows.lemma_filter_len_push(in_bucket(tally[k].key()), job@);
        }
        rows.lemma_filter_len_push(in_bucket(key), job@);
    }
    let mut k: usize = 0;
    while k < buckets.len()
        invariant
            k <= buckets.len(),
            buckets@ == tally,
            key == bucket_of(job@),
            hour == key.hour,
            team_id == key.team_id,
            forall|j: int| 0 <= j < k ==> (#[trigger] tally[j]).key() != key,
        decreases buckets.len() - k,
    {
        if buckets[k].hour == hour && buckets[k].team_id == team_id && buckets[k].function_id
            == job.function_id && buckets[k].state == job.state {
            assert(tally[k as int].key() == key);
            proof {
                rows.lemma_filter_len(in_bucket(key));
                lemma_sum_raise(tally, k as int);
            }
            buckets[k].count = buckets[k].count + 1;
            proof {
                let raised = buckets@;
                assert(raised =~= tally.update(
                    k as int,
                    AggregatedDelete { count: (tally[k as int].count + 1) as i64, ..tally[k as int] },
                ));
                assert forall|j: int| 0 <= j < raised.len() implies (#[trigger] raised[j]).key()
                    == tally[j].key() by {}
                assert forall|a: int, b: int| 0 <= a < b < raised.len() implies (
                #[trigger] raised[a]).key() != (#[trigger] raised[b]).key() by {
                    assert(tally[a].key() != tally[b].key());
                }
                assert forall|j: int| 0 <= j < raised.len() implies (#[trigger] raised[j]).count
                    >= 1 && raised[j].count == more.filter(in_bucket(raised[j].key())).len() by {
                    assert(tally[j].count >= 1);
                    if j != k {
                        assert(tally[j].key() != tally[k as int].key());
                    }
                }
                assert forall|i: int| 0 <= i < more.len() implies exists|j: int|
                    0 <= j < raised.len() && (#[trigger] raised[j]).key() == bucket_of(
                        #[trigger] more[i],
                    ) by {
                    if i < rows.len() {
                        let j = choose|j: int|
                            0 <= j < tally.len() && (#[trigger] tally[j]).key() == bucket_of(rows[i]);
                        assert(raised[j].key() == bucket_of(more[i]));
                    } else {
                        assert(raised[k as int].key() == bucket_of(more[i]));
                    }
                }
                assert forall|a: int, b: int| 0 <= a < b < raised.len() implies comes_first(
                    more,
                    (#[trigger] raised[a]).key(),
                    (#[trigger] raised[b]).key(),
                ) by {
                    assert(comes_first(rows, tally[a].key(), tally[b].key()));
                    lemma_still_first(rows, job@, tally[a].key(), tally[b].key());
                }
            }
            return ;
        }
        k += 1;
    }
    buckets.push(
        AggregatedDelete { hour, team_id, function_id: job.function_id, state: job.state, count: 1 },
    );
    proof {
        let grown = buckets@;
        let last = tally.len() as int;
        assert(grown.drop_last() =~= tally);
        assert(grown[last].key() == key);
        assert forall|i: int| 0 <= i < rows.len() implies bucket_of(#[trigger] rows[i]) != key by {
            let j = choose|j: int|
                0 <= j < tally.len() && (#[trigger] tally[j]).key() == bucket_of(rows[i]);
            assert(tally[j].key() != key);
        }
        lemma_empty_bucket(rows, key);
        assert forall|a: int, b: int| 0 <= a < b < grown.len() implies (#[trigger] grown[a]).key()
            != (#[trigger] grown[b]).key() by {
            if b < last {
                assert(tally[a].key() != tally[b].key());
            } else {
                assert(tally[a].key() != key);
            }
        }
        assert forall|j: int| 0 <= j < grown.len() implies (#[trigger] grown[j]).count >= 1
            && grown[j].count == more.filter(in_bucket(grown[j].key())).len() by {
            if j < last {
                assert(tally[j].count >= 1);
                assert(tally[j].key() != key);
            }
        }
        assert forall|i: int| 0 <= i < more.len() implies exists|j: int|
            0 <= j < grown.len() && (#[trigger] grown[j]).key() == bucket_of(#[trigger] more[i]) by {
            if i < rows.len() {
                let j = choose|j: int|
                    0 <= j < tally.len() && (#[trigger] tally[j]).key() == bucket_of(rows[i]);
                assert(grown[j].key() == bucket_of(more[i]));
            } else {
                assert(grown[last].key() == bucket_of(more[i]));
            }
        }
        assert forall|a: int, b: int| 0 <= a < b < grown.len() implies comes_first(
            more,
            (#[trigger] grown[a]).key(),
            (#[trigger] grown[b]).key(),
        ) by {
            if b < last {
                assert(comes_first(rows, tally[a].key(), tally[b].key()));
                lemma_still_first(rows, job@, tally[a].key(), tally[b].key());
            } else {
                let i = lemma_bucket_has_job(rows, tally, a);
                assert(more[i] == rows[i]);
                assert forall|j: int| 0 <= j <= i && j < more.len() implies bucket_of(
                    #[trigger] more[j],
                ) != key by {
                    assert(more[j] == rows[j]);
                }
                assert(none_up_to(more, key, i));
            }
        }
    }
}

/// Taking a row out keeps the rows valid.
pub proof fn lemma_remove_keeps_valid(rows: Seq<JobView>, i: int)
    requires
        rows_valid(rows),
        0 <= i < rows.len(),
    ensures
        rows_valid(rows.remove(i)),
{
    let rest = rows.remove(i);
    let from = |k: int|
        if k < i {
            k
        } else {
            k + 1
        };
    assert forall|k: int| 0 <= k < rest.len() implies #[trigger] rest[k] == rows[from(k)] by {}
    assert forall|k: int| 0 <= k < rest.len() implies (#[trigger] rest[k]).valid() by {
        assert(rows[from(k)].valid());
    }
    assert forall|a: int, b: int| 0 <= a < b < rest.len() implies (#[trigger] rest[a]).id != (
    #[trigger] rest[b]).id by {
        assert(rows[from(a)].id != rows[from(b)].id);
    }
    assert forall|a: int, b: int|
        0 <= a < rest.len() && 0 <= b < rest.len() && a != b && rest[a].lock_id is Some implies (
    #[trigger] rest[a]).lock_id != (#[trigger] rest[b]).lock_id by {
        assert(rows[from(a)].lock_id != rows[from(b)].lock_id);
    }
}

/// Removes the jobs that finished before `cutoff` and counts them by bucket.
pub(crate) fn purge(jobs: &mut Vec<Job>, cutoff: Timestamp) -> (report: Vec<AggregatedDelete>)
    requires
        rows_valid(views(old(jobs)@)),
    ensures
        rows_valid(views(final(jobs)@)),
        purge_outcome(views(old(jobs)@), views(final(jobs)@), report@, cutoff),
        count_sum(report@) == old(jobs).len() - final(jobs).len(),
{
    let ghost before = views(jobs@);
    let ghost mut done: int = 0;
    let ghost mut gone: Seq<JobView> = Seq::empty();
    let mut buckets: Vec<AggregatedDelete> = Vec::new();
    let mut i: usize = 0;
    assert(before.take(0) =~= Seq::<JobView>::empty());
    proof {
        before.take(0).lemma_filter_len(kept_by(cutoff));
        before.take(0).lemma_filter_len(purged_by(cutoff));
        assert(before.take(0).filter(kept_by(cutoff)) =~= views(jobs@).take(0));
        assert(before.take(0).filter(purged_by(cutoff)) =~= gone);
        assert(views(jobs@).skip(0) =~= before.skip(0));
    }
    while i < jobs.len()
        invariant
            before == views(old(jobs)@),
            rows_valid(before),
            0 <= done <= before.len(),
            i <= jobs.len(),
            jobs.len() - i == before.len() - done,
            rows_valid(views(jobs@)),
            views(jobs@).take(i as int) == before.take(done).filter(kept_by(cutoff)),
            views(jobs@).skip(i as int) == before.skip(done),
            gone == before.take(done).filter(purged_by(cutoff)),
            gone.len() + i == done,
            is_tally(gone, buckets@),
            in_order_of_arrival(gone, buckets@),
            count_sum(buckets@) == gone.len(),
        decreases jobs.len() - i,
    {
        let ghost rows = views(jobs@);
        proof {
            assert(rows[i as int] == rows.skip(i as int)[0]);
            assert(before[done] == before.skip(done)[0]);
            assert(before.take(done + 1) =~= before.take(done).push(before[done]));
            before.take(done).lemma_filter_push(before[done], kept_by(cutoff));
            before.take(done).lemma_filter_push(before[done], purged_by(cutoff));
        }
        if is_purgeable(&jobs[i], cutoff) {
            let job = jobs.remove(i);
            proof {
                assert(job@ == before[done]);
                assert(views(jobs@) =~= rows.remove(i as int));
                lemma_remove_keeps_valid(rows, i as int);
                assert(views(jobs@).take(i as int) =~= rows.take(i as int));
                assert(views(jobs@).skip(i as int) =~= rows.skip(i as int).skip(1));
                assert(before.skip(done + 1) =~= before.skip(done).skip(1));
            }
            record(&mut buckets, &job, Ghost(gone));
            proof {
                gone = gone.push(job@);
            }
        } else {
            proof {
                assert(rows.take(i + 1) =~= rows.take(i as int).push(rows[i as int]));
                assert(rows.skip(i + 1) =~= rows.skip(i as int).skip(1));
                assert(before.skip(done + 1) =~= before.skip(done).skip(1));
            }
            i += 1;
        }
        proof {
            done = done + 1;
        }
    }
    proof {
        assert(before.take(before.len() as int) =~= before);
        assert(views(jobs@).take(jobs.len() as int) =~= views(jobs@));
    }
    buckets
}

/// Every bucket of a tally has a job that falls under it.
pub proof fn lemma_bucket_has_job(rows: Seq<JobView>, buckets: Seq<AggregatedDelete>, k: int) -> (i:
    int)
    requires
        is_tally(rows, buckets),
        0 <= k < buckets.len(),
    ensures
        0 <= i < rows.len(),
        bucket_of(rows[i]) == buckets[k].key(),
{
    let key = buckets[k].key();
    if forall|j: int| 0 <= j < rows.len() ==> bucket_of(#[trigger] rows[j]) != key {
        lemma_empty_bucket(rows, key);
    }
    choose|j: int| 0 <= j < rows.len() && bucket_of(#[trigger] rows[j]) == key
}

/// Where no count is negative, the counts for one state add up, step by step, to no more
/// than all counts together.
pub proof fn lemma_sum_bounds(buckets: Seq<AggregatedDelete>, state: JobState, n: int)
    requires
        forall|k: int| 0 <= k < buckets.len() ==> (#[trigger] buckets[k]).count >= 0,
        0 <= n <= buckets.len(),
    ensures
        0 <= count_sum_of(buckets.take(n), state) <= count_sum(buckets.take(n)) <= count_sum(
            buckets,
        ),
    decreases buckets.len() - n,
{
    lemma_prefix_bounds(buckets.take(n), state);
    if n < buckets.len() {
        crate::report::lemma_sum_step(buckets, state, n);
        lemma_sum_bounds(buckets, state, n + 1);
    } else {
        assert(buckets.take(n) =~= buckets);
    }
}

/// Where no count is negative, the counts for one state add up to no more than all counts
/// together, and to no less than zero.
pub proof fn lemma_prefix_bounds(buckets: Seq<AggregatedDelete>, state: JobState)
    requires
        forall|k: int| 0 <= k < buckets.len() ==> (#[trigger] buckets[k]).count >= 0,
    ensures
        0 <= count_sum_of(buckets, state) <= count_sum(buckets),
    decreases buckets.len(),
{
    if buckets.len() > 0 {
        let rest = buckets.drop_last();
        assert forall|k: int| 0 <= k < rest.len() implies (#[trigger] rest[k]).count >= 0 by {
            assert(rest[k] == buckets[k]);
        }
        lemma_prefix_bounds(rest, state);
        assert(buckets[buckets.len() - 1].count >= 0);
    }
}

/// Where every bucket is for a finished state, the completed and the failed counts add up
/// to all counts together.
pub proof fn lemma_sum_splits(buckets: Seq<AggregatedDelete>)
    requires
        forall|k: int| 0 <= k < buckets.len() ==> (#[trigger] buckets[k]).state.terminal(),
    ensures
        count_sum(buckets) == count_sum_of(buckets, JobState::Completed) + count_sum_of(
            buckets,
            JobState::Failed,
        ),
    decreases buckets.len(),
{
    if buckets.len() > 0 {
        let rest = buckets.drop_last();
        assert forall|k: int| 0 <= k < rest.len() implies (#[trigger] rest[k]).state.terminal() by {
            assert(rest[k] == buckets[k]);
        }
        lemma_sum_splits(rest);
        assert(buckets[buckets.len() - 1].state.terminal());
    }
}

} // verus!
