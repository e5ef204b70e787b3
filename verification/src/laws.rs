//! What holds of the store's operations, whatever the rows, the clock and the tokens.

use crate::dequeue::{
    dequeue_outcome, eligible, is_selection, lease_outcome, leased, lemma_lease_keeps_valid, picked,
    precedes,
};
use crate::error::StoreError;
use crate::ident::Id;
use crate::janitor::{
    bucket_of, comes_first, in_bucket, in_order_of_arrival, is_tally, kept_by,
    lemma_bucket_has_job, none_up_to, purge_outcome, purgeable, purged_by, reclaim_outcome, stale,
};
use crate::job::{new_job, JobInitView, JobView};
use crate::report::{count_sum, AggregatedDelete, BucketKey};
use crate::state::{folded, parse_state, JobState};
use crate::store::{beats_for, enqueue_outcome, heartbeat_outcome, rows_valid, update_outcome};
use crate::time::Timestamp;
use crate::update::{FieldUpdate, JobUpdateView};
use vstd::prelude::*;

verus! {

/// The name under which a state is persisted reads back as that state, but for `paused`,
/// which cannot be read.
pub proof fn law_names_read_back(state: JobState)
    ensures
        parse_state(state.name()) == if state == JobState::Paused {
            None
        } else {
            Some(state)
        },
{
    reveal_strlit("available");
    reveal_strlit("running");
    reveal_strlit("completed");
    reveal_strlit("failed");
    reveal_strlit("paused");
    let name = state.name();
    assert(folded(name) =~= name);
    assert("running"@[0] == 'r' && "completed"@[0] == 'c' && "failed"@[0] == 'f' && "paused"@[0]
        == 'p' && "available"@[0] == 'a');
}

/// The order in which jobs are served is strict, and it decides between any two jobs
/// with different ids.
pub proof fn law_serving_order(a: JobView, b: JobView, c: JobView)
    ensures
        !precedes(a, a),
        precedes(a, b) ==> !precedes(b, a),
        precedes(a, b) && precedes(b, c) ==> precedes(a, c),
        a.id != b.id ==> precedes(a, b) || precedes(b, a),
{
}

/// A job that is enqueued into a queue with nothing to serve is the one job that the next
/// poll of that queue hands out, once it is due: running, under the first token, and one
/// transition old.
pub proof fn law_enqueue_then_dequeue(
    before: Seq<JobView>,
    between: Seq<JobView>,
    after: Seq<JobView>,
    init: JobInitView,
    id: Id,
    enqueued_at: Timestamp,
    job: JobView,
    out: Seq<JobView>,
    limit: nat,
    now: Timestamp,
    tokens: Seq<Id>,
)
    requires
        forall|i: int|
            0 <= i < before.len() ==> !eligible(#[trigger] before[i], init.queue_name, now),
        enqueue_outcome(before, between, Ok(job), init, id, enqueued_at),
        init.scheduled <= now,
        limit >= 1,
        dequeue_outcome(between, after, Ok(out), init.queue_name, limit, now, tokens),
    ensures
        out.len() == 1,
        out[0] == leased(job, tokens[0], now),
        out[0].id == id,
        out[0].state == JobState::Running,
        out[0].lock_id is Some,
        out[0].last_heartbeat is Some,
        out[0].transition_count == 1,
        after == between.update(before.len() as int, out[0]),
{
    let picks = choose|picks: Seq<int>|
        {
            &&& #[trigger] is_selection(between, init.queue_name, now, limit, picks)
            &&& lease_outcome(between, after, Ok(out), picks, tokens, now)
        };
    let new = before.len() as int;
    assert(between[new] == job);
    assert(job == new_job(init, id, enqueued_at));
    assert(eligible(between[new], init.queue_name, now));
    assert forall|p: int| 0 <= p < picks.len() implies picks[p] == new by {
        assert(eligible(between[picks[p]], init.queue_name, now));
        if picks[p] < new {
            assert(between[picks[p]] == before[picks[p]]);
        }
    }
    if !picks.contains(new) {
        assert(picks.len() == limit);
        assert(picks[0] == new);
    }
    if picks.len() > 1 {
        assert(precedes(between[picks[0]], between[picks[1]]));
    }
    assert(picks.len() == 1);
    assert(picks[0] == new);
    assert(after[picks[0]] == leased(between[picks[0]], tokens[0], now));
    assert(after =~= between.update(new, out[0])) by {
        assert forall|i: int| 0 <= i < between.len() && i != new implies after[i]
            == between[i] by {
            if picks.contains(i) {
                let p = choose|p: int| 0 <= p < picks.len() && picks[p] == i;
            }
        }
    }
}

/// A poll hands out only jobs of the polled queue that were due: none is scheduled later
/// than the instant of the poll. Each comes back running, under a lock and with the
/// instant of the poll as its heartbeat. There are no more of them than the limit, and
/// they come most urgent first.
pub proof fn law_dequeue_serves_due(
    before: Seq<JobView>,
    after: Seq<JobView>,
    out: Seq<JobView>,
    queue: Seq<char>,
    limit: nat,
    now: Timestamp,
    tokens: Seq<Id>,
)
    requires
        dequeue_outcome(before, after, Ok(out), queue, limit, now, tokens),
    ensures
        out.len() <= limit,
        forall|k: int|
            0 <= k < out.len() ==> {
                &&& (#[trigger] out[k]).queue_name == queue
                &&& out[k].scheduled <= now
                &&& out[k].state == JobState::Running
                &&& out[k].lock_id is Some
                &&& out[k].last_heartbeat == Some(now)
            },
        forall|k: int, l: int| 0 <= k < l < out.len() ==> precedes(out[k], out[l]),
{
    let picks = choose|picks: Seq<int>|
        {
            &&& #[trigger] is_selection(before, queue, now, limit, picks)
            &&& lease_outcome(before, after, Ok(out), picks, tokens, now)
        };
    assert forall|k: int| 0 <= k < out.len() implies {
        &&& (#[trigger] out[k]).queue_name == queue
        &&& out[k].scheduled <= now
        &&& out[k].state == JobState::Running
        &&& out[k].lock_id is Some
        &&& out[k].last_heartbeat == Some(now)
    } by {
        assert(after[picks[k]] == leased(before[picks[k]], tokens[k], now));
        assert(eligible(before[picks[k]], queue, now));
    }
    assert forall|k: int, l: int| 0 <= k < l < out.len() implies precedes(out[k], out[l]) by {
        assert(after[picks[k]] == leased(before[picks[k]], tokens[k], now));
        assert(after[picks[l]] == leased(before[picks[l]], tokens[l], now));
        assert(precedes(before[picks[k]], before[picks[l]]));
    }
}

/// A poll that succeeds leaves the rows valid.
pub proof fn law_dequeue_keeps_valid(
    before: Seq<JobView>,
    after: Seq<JobView>,
    out: Seq<JobView>,
    queue: Seq<char>,
    limit: nat,
    now: Timestamp,
    tokens: Seq<Id>,
)
    requires
        rows_valid(before),
        dequeue_outcome(before, after, Ok(out), queue, limit, now, tokens),
    ensures
        rows_valid(after),
{
    let picks = choose|picks: Seq<int>|
        {
            &&& #[trigger] is_selection(before, queue, now, limit, picks)
            &&& lease_outcome(before, after, Ok(out), picks, tokens, now)
        };
    assert forall|p: int, q: int| 0 <= p < q < picks.len() implies #[trigger] picks[p]
        != #[trigger] picks[q] by {
        assert(precedes(before[picks[p]], before[picks[q]]));
    }
    assert forall|i: int|
        0 <= i < before.len() && !picked(picks, picks.len() as int, i) implies #[trigger] after[i]
        == before[i] by {
        if picks.contains(i) {
            let p = choose|p: int| 0 <= p < picks.len() && picks[p] == i;
            assert(picked(picks, picks.len() as int, i));
        }
    }
    lemma_lease_keeps_valid(before, after, picks, tokens, now);
}

/// No job is delivered twice: two polls that the store serves one after the other, of the
/// same queue or of two, hand out different jobs.
pub proof fn law_dequeues_disjoint(
    first: Seq<JobView>,
    second: Seq<JobView>,
    third: Seq<JobView>,
    out1: Seq<JobView>,
    out2: Seq<JobView>,
    queue1: Seq<char>,
    queue2: Seq<char>,
    limit1: nat,
    limit2: nat,
    now1: Timestamp,
    now2: Timestamp,
    tokens1: Seq<Id>,
    tokens2: Seq<Id>,
)
    requires
        rows_valid(first),
        dequeue_outcome(first, second, Ok(out1), queue1, limit1, now1, tokens1),
        dequeue_outcome(second, third, Ok(out2), queue2, limit2, now2, tokens2),
    ensures
        forall|a: int, b: int|
            0 <= a < out1.len() && 0 <= b < out2.len() ==> (#[trigger] out1[a]).id != (
            #[trigger] out2[b]).id,
{
    law_dequeue_keeps_valid(first, second, out1, queue1, limit1, now1, tokens1);
    let picks1 = choose|picks: Seq<int>|
        {
            &&& #[trigger] is_selection(first, queue1, now1, limit1, picks)
            &&& lease_outcome(first, second, Ok(out1), picks, tokens1, now1)
        };
    let picks2 = choose|picks: Seq<int>|
        {
            &&& #[trigger] is_selection(second, queue2, now2, limit2, picks)
            &&& lease_outcome(second, third, Ok(out2), picks, tokens2, now2)
        };
    assert forall|a: int, b: int| 0 <= a < out1.len() && 0 <= b < out2.len() implies (
    #[trigger] out1[a]).id != (#[trigger] out2[b]).id by {
        let i = picks1[a];
        let j = picks2[b];
        assert(second[i] == leased(first[i], tokens1[a], now1));
        assert(third[j] == leased(second[j], tokens2[b], now2));
        assert(eligible(second[j], queue2, now2));
        assert(i != j);
        if i < j {
            assert(second[i].id != second[j].id);
        } else {
            assert(second[j].id != second[i].id);
        }
    }
}

/// A patch under a token that is no lease on any job is refused as an invalid lease, and
/// leaves every row as it was.
pub proof fn law_update_needs_lease(
    before: Seq<JobView>,
    after: Seq<JobView>,
    r: Result<(), StoreError>,
    patch: JobUpdateView,
    now: Timestamp,
)
    requires
        update_outcome(before, after, r, patch, now),
        forall|i: int| 0 <= i < before.len() ==> !(#[trigger] before[i]).leased_by(patch.lock_id),
    ensures
        r == Err::<(), StoreError>(StoreError::LeaseInvalid),
        after == before,
{
}

/// A heartbeat under a token that no running job holds is refused as an invalid lease,
/// and leaves every row as it was.
pub proof fn law_heartbeat_needs_lease(
    before: Seq<JobView>,
    after: Seq<JobView>,
    r: Result<(), StoreError>,
    token: Id,
    now: Timestamp,
)
    requires
        heartbeat_outcome(before, after, r, token, now),
        forall|i: int| 0 <= i < before.len() ==> !beats_for(#[trigger] before[i], token),
    ensures
        r == Err::<(), StoreError>(StoreError::LeaseInvalid),
        after == before,
{
}

/// Whatever a refused operation was, the rows are as they were.
pub proof fn law_refusal_changes_nothing(
    before: Seq<JobView>,
    after: Seq<JobView>,
    error: StoreError,
    patch: JobUpdateView,
    token: Id,
    timeout: i64,
    now: Timestamp,
)
    ensures
        update_outcome(before, after, Err(error), patch, now) ==> after == before,
        heartbeat_outcome(before, after, Err(error), token, now) ==> after == before,
        reclaim_outcome(before, after, Err(error), timeout, now) ==> after == before,
{
}

/// Each payload column follows its own field of a patch, and no other: a field that is
/// absent leaves its column as it was, a field that clears sets it to null, and a field
/// with a value sets it to that value.
pub proof fn law_patch_payload(job: JobView, patch: JobUpdateView, now: Timestamp)
    ensures
        ({
            let after = job.patched(patch, now);
            &&& after.vm_state == match patch.vm_state {
                FieldUpdate::Unchanged => job.vm_state,
                FieldUpdate::SetNull => None,
                FieldUpdate::SetValue(bytes) => Some(bytes),
            }
            &&& after.metadata == match patch.metadata {
                FieldUpdate::Unchanged => job.metadata,
                FieldUpdate::SetNull => None,
                FieldUpdate::SetValue(bytes) => Some(bytes),
            }
            &&& after.parameters == match patch.parameters {
                FieldUpdate::Unchanged => job.parameters,
                FieldUpdate::SetNull => None,
                FieldUpdate::SetValue(bytes) => Some(bytes),
            }
            &&& after.blob == match patch.blob {
                FieldUpdate::Unchanged => job.blob,
                FieldUpdate::SetNull => None,
                FieldUpdate::SetValue(bytes) => Some(bytes),
            }
        }),
{
}

/// The columns that a patch cannot name are never changed by it, and a column whose
/// field is absent keeps its value. The transition counter moves, by one, exactly when
/// the state does.
pub proof fn law_patch_other_columns(job: JobView, patch: JobUpdateView, now: Timestamp)
    ensures
        ({
            let after = job.patched(patch, now);
            &&& after.id == job.id
            &&& after.team_id == job.team_id
            &&& after.function_id == job.function_id
            &&& after.created == job.created
            &&& after.lock_id == job.lock_id
            &&& after.janitor_touch_count == job.janitor_touch_count
            &&& after.last_heartbeat is Some
            &&& patch.state is None ==> after.state == job.state
            &&& patch.queue_name is None ==> after.queue_name == job.queue_name
            &&& patch.priority is None ==> after.priority == job.priority
            &&& patch.scheduled is None ==> after.scheduled == job.scheduled
            &&& after.state == job.state ==> after.transition_count == job.transition_count
                && after.last_transition == job.last_transition
            &&& after.state != job.state && !patch.overflows(job) ==> after.transition_count
                == job.transition_count + 1 && after.last_transition == now
        }),
{
}

/// After a reclamation, every job that was running with a heartbeat older than
/// `now - timeout` is available, has no lock, and has one more janitor touch; every other
/// job is untouched.
pub proof fn law_reclaim(
    before: Seq<JobView>,
    after: Seq<JobView>,
    count: usize,
    timeout: i64,
    now: Timestamp,
)
    requires
        reclaim_outcome(before, after, Ok(count), timeout, now),
    ensures
        after.len() == before.len(),
        forall|i: int|
            0 <= i < before.len() && stale(#[trigger] before[i], now, timeout) ==> {
                &&& after[i].state == JobState::Available
                &&& after[i].lock_id is None
                &&& after[i].janitor_touch_count == before[i].janitor_touch_count + 1
                &&& after[i].transition_count == before[i].transition_count + 1
                &&& after[i].id == before[i].id
            },
        forall|i: int|
            0 <= i < before.len() && !stale(#[trigger] before[i], now, timeout) ==> after[i]
                == before[i],
        forall|i: int| 0 <= i < after.len() ==> !stale(#[trigger] after[i], now, timeout),
{
    assert forall|i: int| 0 <= i < before.len() implies (if stale(
        #[trigger] before[i],
        now,
        timeout,
    ) {
        &&& after[i].state == JobState::Available
        &&& after[i].lock_id is None
        &&& after[i].janitor_touch_count == before[i].janitor_touch_count + 1
        &&& after[i].transition_count == before[i].transition_count + 1
        &&& after[i].id == before[i].id
    } else {
        after[i] == before[i]
    }) && !stale(after[i], now, timeout) by {
        let touched = after[i];
        assert(touched == after[i]);
    }
}

/// A second reclamation at the same instant finds nothing to take back.
pub proof fn law_reclaim_idempotent(
    before: Seq<JobView>,
    after: Seq<JobView>,
    again: Seq<JobView>,
    count: usize,
    r: Result<usize, StoreError>,
    timeout: i64,
    now: Timestamp,
)
    requires
        reclaim_outcome(before, after, Ok(count), timeout, now),
        reclaim_outcome(after, again, r, timeout, now),
    ensures
        r == Ok::<usize, StoreError>(0),
        again == after,
{
    law_reclaim(before, after, count, timeout, now);
    assert(r is Ok) by {
        if r is Err {
            let i = choose|i: int|
                0 <= i < after.len() && stale(#[trigger] after[i], now, timeout);
            assert(!stale(after[i], now, timeout));
        }
    }
    assert(again =~= after) by {
        assert forall|i: int| 0 <= i < after.len() implies again[i] == after[i] by {
            assert(!stale(after[i], now, timeout));
        }
    }
    lemma_none_stale(after, timeout, now);
}

/// Where no job is stale, none is counted as stale.
proof fn lemma_none_stale(rows: Seq<JobView>, timeout: i64, now: Timestamp)
    requires
        forall|i: int| 0 <= i < rows.len() ==> !stale(#[trigger] rows[i], now, timeout),
    ensures
        rows.filter(crate::janitor::stale_at(now, timeout)).len() == 0,
    decreases rows.len(),
{
    let pred = crate::janitor::stale_at(now, timeout);
    if rows.len() > 0 {
        let rest = rows.drop_last();
        assert forall|i: int| 0 <= i < rest.len() implies !stale(
            #[trigger] rest[i],
            now,
            timeout,
        ) by {
            assert(rest[i] == rows[i]);
        }
        lemma_none_stale(rest, timeout, now);
        rest.lemma_filter_len_push(pred, rows.last());
        assert(rest.push(rows.last()) =~= rows);
        assert(!stale(rows[rows.len() - 1], now, timeout));
    } else {
        rows.lemma_filter_len(pred);
    }
}

/// A purge removes no job that is unfinished or that changed state at or after the
/// cutoff, and leaves no job behind that it was to remove.
pub proof fn law_purge_spares(
    before: Seq<JobView>,
    after: Seq<JobView>,
    report: Seq<AggregatedDelete>,
    cutoff: Timestamp,
)
    requires
        purge_outcome(before, after, report, cutoff),
    ensures
        forall|i: int|
            0 <= i < before.len() && ((#[trigger] before[i]).last_transition >= cutoff
                || !before[i].state.terminal()) ==> after.contains(before[i]),
        forall|k: int|
            0 <= k < after.len() ==> !purgeable(#[trigger] after[k], cutoff) && before.contains(
                after[k],
            ),
{
    assert forall|i: int|
        0 <= i < before.len() && ((#[trigger] before[i]).last_transition >= cutoff
            || !before[i].state.terminal()) implies after.contains(before[i]) by {
        before.lemma_filter_contains(kept_by(cutoff), i);
    }
    assert forall|k: int| 0 <= k < after.len() implies !purgeable(#[trigger] after[k], cutoff)
        && before.contains(after[k]) by {
        before.lemma_filter_pred(kept_by(cutoff), k);
        assert(after.contains(after[k]));
        before.lemma_filter_contains_rev(kept_by(cutoff), after[k]);
    }
}

/// Two predicates of which each job meets exactly one part the jobs in two.
proof fn lemma_two_parts(
    rows: Seq<JobView>,
    one: spec_fn(JobView) -> bool,
    other: spec_fn(JobView) -> bool,
)
    requires
        forall|job: JobView| #[trigger] one(job) != other(job),
    ensures
        rows.filter(one).len() + rows.filter(other).len() == rows.len(),
    decreases rows.len(),
{
    if rows.len() > 0 {
        let rest = rows.drop_last();
        lemma_two_parts(rest, one, other);
        rest.lemma_filter_len_push(one, rows.last());
        rest.lemma_filter_len_push(other, rows.last());
        assert(rest.push(rows.last()) =~= rows);
        assert(one(rows.last()) != other(rows.last()));
    } else {
        rows.lemma_filter_len(one);
        rows.lemma_filter_len(other);
    }
}

/// The jobs that are not counted under `key`, as a predicate on jobs.
spec fn outside(key: BucketKey) -> spec_fn(JobView) -> bool {
    |job: JobView| bucket_of(job) != key
}

/// Leaving out the jobs of one bucket does not change how many fall under another.
proof fn lemma_other_bucket(rows: Seq<JobView>, left_out: BucketKey, key: BucketKey)
    requires
        key != left_out,
    ensures
        rows.filter(outside(left_out)).filter(in_bucket(key)).len() == rows.filter(
            in_bucket(key),
        ).len(),
    decreases rows.len(),
{
    if rows.len() > 0 {
        let rest = rows.drop_last();
        let last = rows.last();
        lemma_other_bucket(rest, left_out, key);
        assert(rest.push(last) =~= rows);
        rest.lemma_filter_push(last, outside(left_out));
        rest.lemma_filter_len_push(in_bucket(key), last);
        if outside(left_out)(last) {
            rest.filter(outside(left_out)).lemma_filter_len_push(in_bucket(key), last);
        } else {
            assert(!in_bucket(key)(last));
        }
    } else {
        rows.lemma_filter_len(outside(left_out));
        rows.filter(outside(left_out)).lemma_filter_len(in_bucket(key));
        rows.lemma_filter_len(in_bucket(key));
    }
}

/// The counts of a tally add up to the number of jobs that it counts.
pub proof fn law_tally_counts_every_job(rows: Seq<JobView>, buckets: Seq<AggregatedDelete>)
    requires
        is_tally(rows, buckets),
    ensures
        count_sum(buckets) == rows.len(),
    decreases buckets.len(),
{
    if buckets.len() == 0 {
        if rows.len() > 0 {
            let k = choose|k: int|
                0 <= k < buckets.len() && (#[trigger] buckets[k]).key() == bucket_of(rows[0]);
            assert(false);
        }
    } else {
        let last = buckets.len() - 1;
        let key = buckets[last].key();
        let fewer = buckets.drop_last();
        let others = rows.filter(outside(key));
        assert forall|k: int| 0 <= k < fewer.len() implies (#[trigger] fewer[k]).count >= 1
            && fewer[k].count == others.filter(in_bucket(fewer[k].key())).len() by {
            assert(fewer[k] == buckets[k]);
            assert(buckets[k].key() != buckets[last].key());
            lemma_other_bucket(rows, key, fewer[k].key());
        }
        assert forall|a: int, b: int| 0 <= a < b < fewer.len() implies (#[trigger] fewer[a]).key()
            != (#[trigger] fewer[b]).key() by {
            assert(buckets[a].key() != buckets[b].key());
        }
        assert forall|i: int| 0 <= i < others.len() implies exists|k: int|
            0 <= k < fewer.len() && (#[trigger] fewer[k]).key() == bucket_of(
                #[trigger] others[i],
            ) by {
            rows.lemma_filter_pred(outside(key), i);
            assert(others.contains(others[i]));
            rows.lemma_filter_contains_rev(outside(key), others[i]);
            let at = choose|at: int| 0 <= at < rows.len() && rows[at] == others[i];
            let k = choose|k: int|
                0 <= k < buckets.len() && (#[trigger] buckets[k]).key() == bucket_of(rows[at]);
            assert(k != last);
            assert(fewer[k].key() == bucket_of(others[i]));
        }
        law_tally_counts_every_job(others, fewer);
        assert forall|job: JobView| #[trigger] in_bucket(key)(job) != outside(key)(job) by {}
        lemma_two_parts(rows, in_bucket(key), outside(key));
    }
}

/// The counts that a purge reports add up to the number of rows that it removed.
pub proof fn law_purge_counts_removed(
    before: Seq<JobView>,
    after: Seq<JobView>,
    report: Seq<AggregatedDelete>,
    cutoff: Timestamp,
)
    requires
        purge_outcome(before, after, report, cutoff),
    ensures
        count_sum(report) == before.len() - after.len(),
{
    law_tally_counts_every_job(before.filter(purged_by(cutoff)), report);
    assert forall|job: JobView| #[trigger] purged_by(cutoff)(job) != kept_by(cutoff)(job) by {}
    lemma_two_parts(before, purged_by(cutoff), kept_by(cutoff));
}

/// Two reports on the same jobs that agree on their first `upto` buckets agree on the
/// next one too.
proof fn lemma_same_buckets(
    rows: Seq<JobView>,
    a: Seq<AggregatedDelete>,
    b: Seq<AggregatedDelete>,
    upto: int,
)
    requires
        is_tally(rows, a),
        in_order_of_arrival(rows, a),
        is_tally(rows, b),
        in_order_of_arrival(rows, b),
        0 <= upto <= a.len(),
        upto <= b.len(),
    ensures
        forall|k: int| 0 <= k < upto ==> (#[trigger] a[k]).key() == b[k].key(),
    decreases upto,
{
    if upto > 0 {
        let at = upto - 1;
        lemma_same_buckets(rows, a, b, at);
        let x = a[at].key();
        let y = b[at].key();
        if x != y {
            let in_x = lemma_bucket_has_job(rows, a, at);
            let q = choose|q: int| 0 <= q < b.len() && (#[trigger] b[q]).key() == bucket_of(rows[in_x]);
            if q < at {
                assert(a[q].key() == b[q].key());
                assert(a[q].key() != a[at].key());
            }
            assert(q > at);
            assert(comes_first(rows, b[at].key(), b[q].key()));
            let in_y = lemma_bucket_has_job(rows, b, at);
            let r = choose|r: int| 0 <= r < a.len() && (#[trigger] a[r]).key() == bucket_of(rows[in_y]);
            if r < at {
                assert(a[r].key() == b[r].key());
                assert(b[r].key() != b[at].key());
            }
            assert(r > at);
            assert(comes_first(rows, a[at].key(), a[r].key()));
            let i = choose|i: int|
                0 <= i < rows.len() && bucket_of(#[trigger] rows[i]) == y && none_up_to(rows, x, i);
            let j = choose|j: int|
                0 <= j < rows.len() && bucket_of(#[trigger] rows[j]) == x && none_up_to(rows, y, j);
            if i <= j {
                assert(bucket_of(rows[i]) != y);
            } else {
                assert(bucket_of(rows[j]) != x);
            }
        }
    }
}

/// A report on the same jobs has no bucket left where another one ends, unless both end
/// there.
proof fn lemma_no_more_buckets(rows: Seq<JobView>, a: Seq<AggregatedDelete>, b: Seq<AggregatedDelete>)
    requires
        is_tally(rows, a),
        in_order_of_arrival(rows, a),
        is_tally(rows, b),
        in_order_of_arrival(rows, b),
    ensures
        a.len() >= b.len(),
{
    if a.len() < b.len() {
        let n = a.len() as int;
        lemma_same_buckets(rows, a, b, n);
        let i = lemma_bucket_has_job(rows, b, n);
        let q = choose|q: int| 0 <= q < a.len() && (#[trigger] a[q]).key() == bucket_of(rows[i]);
        assert(a[q].key() == b[q].key());
        assert(b[q].key() != b[n].key());
    }
}

/// What a purge reports is determined by the jobs that it removed, down to the order of
/// the buckets.
pub proof fn law_report_unique(
    rows: Seq<JobView>,
    a: Seq<AggregatedDelete>,
    b: Seq<AggregatedDelete>,
)
    requires
        is_tally(rows, a),
        in_order_of_arrival(rows, a),
        is_tally(rows, b),
        in_order_of_arrival(rows, b),
    ensures
        a == b,
{
    lemma_no_more_buckets(rows, a, b);
    lemma_no_more_buckets(rows, b, a);
    lemma_same_buckets(rows, a, b, a.len() as int);
    assert forall|k: int| 0 <= k < a.len() implies a[k] == b[k] by {
        assert(a[k].key() == b[k].key());
        assert(a[k].count == rows.filter(in_bucket(a[k].key())).len());
        assert(b[k].count == rows.filter(in_bucket(b[k].key())).len());
    }
    assert(a =~= b);
}

/// A second purge with the same cutoff finds nothing to remove and reports nothing.
pub proof fn law_purge_idempotent(
    before: Seq<JobView>,
    after: Seq<JobView>,
    again: Seq<JobView>,
    report: Seq<AggregatedDelete>,
    second: Seq<AggregatedDelete>,
    cutoff: Timestamp,
)
    requires
        purge_outcome(before, after, report, cutoff),
        purge_outcome(after, again, second, cutoff),
    ensures
        again == after,
        second.len() == 0,
{
    law_purge_spares(before, after, report, cutoff);
    lemma_nothing_to_purge(after, cutoff);
    if second.len() > 0 {
        assert(second[0].count >= 1);
    }
}

/// Where no job is purgeable, a purge keeps all and removes none.
proof fn lemma_nothing_to_purge(rows: Seq<JobView>, cutoff: Timestamp)
    requires
        forall|i: int| 0 <= i < rows.len() ==> !purgeable(#[trigger] rows[i], cutoff),
    ensures
        rows.filter(kept_by(cutoff)) == rows,
        rows.filter(crate::janitor::purged_by(cutoff)).len() == 0,
    decreases rows.len(),
{
    let kept = kept_by(cutoff);
    let purged = crate::janitor::purged_by(cutoff);
    if rows.len() > 0 {
        let rest = rows.drop_last();
        assert forall|i: int| 0 <= i < rest.len() implies !purgeable(
            #[trigger] rest[i],
            cutoff,
        ) by {
            assert(rest[i] == rows[i]);
        }
        lemma_nothing_to_purge(rest, cutoff);
        rest.lemma_filter_push(rows.last(), kept);
        rest.lemma_filter_push(rows.last(), purged);
        assert(rest.push(rows.last()) =~= rows);
        assert(!purgeable(rows[rows.len() - 1], cutoff));
    } else {
        rows.lemma_filter_len(kept);
        rows.lemma_filter_len(purged);
        assert(rows.filter(kept) =~= rows);
    }
}

/// Two selections that agree before position `at` cannot part there with `a`'s pick
/// served before `b`'s.
proof fn lemma_no_parting(
    rows: Seq<JobView>,
    queue: Seq<char>,
    now: Timestamp,
    limit: nat,
    a: Seq<int>,
    b: Seq<int>,
    at: int,
)
    requires
        is_selection(rows, queue, now, limit, a),
        is_selection(rows, queue, now, limit, b),
        0 <= at < a.len(),
        at < b.len(),
        forall|m: int| 0 <= m < at ==> a[m] == b[m],
    ensures
        !precedes(rows[a[at]], rows[b[at]]),
{
    let x = a[at];
    if precedes(rows[x], rows[b[at]]) {
        assert(eligible(rows[x], queue, now));
        if b.contains(x) {
            let m = choose|m: int| 0 <= m < b.len() && b[m] == x;
            if m < at {
                assert(a[m] == b[m]);
                assert(precedes(rows[a[m]], rows[a[at]]));
            } else if m > at {
                assert(precedes(rows[b[at]], rows[b[m]]));
            }
        } else {
            assert(precedes(rows[b[at]], rows[x]));
        }
    }
}

/// Two selections from the same rows agree on their first `upto` picks.
proof fn lemma_same_picks(
    rows: Seq<JobView>,
    queue: Seq<char>,
    now: Timestamp,
    limit: nat,
    a: Seq<int>,
    b: Seq<int>,
    upto: int,
)
    requires
        rows_valid(rows),
        is_selection(rows, queue, now, limit, a),
        is_selection(rows, queue, now, limit, b),
        0 <= upto <= a.len(),
        upto <= b.len(),
    ensures
        forall|m: int| 0 <= m < upto ==> a[m] == b[m],
    decreases upto,
{
    if upto > 0 {
        let at = upto - 1;
        lemma_same_picks(rows, queue, now, limit, a, b, at);
        lemma_no_parting(rows, queue, now, limit, a, b, at);
        lemma_no_parting(rows, queue, now, limit, b, a, at);
        let x = a[at];
        let y = b[at];
        assert(0 <= x < rows.len() && 0 <= y < rows.len());
        if x < y {
            assert(rows[x].id != rows[y].id);
        } else if y < x {
            assert(rows[y].id != rows[x].id);
        }
    }
}

/// A selection has no pick left where another one ends, unless both end there.
proof fn lemma_same_length(
    rows: Seq<JobView>,
    queue: Seq<char>,
    now: Timestamp,
    limit: nat,
    a: Seq<int>,
    b: Seq<int>,
)
    requires
        rows_valid(rows),
        is_selection(rows, queue, now, limit, a),
        is_selection(rows, queue, now, limit, b),
    ensures
        a.len() >= b.len(),
{
    if a.len() < b.len() {
        let n = a.len() as int;
        lemma_same_picks(rows, queue, now, limit, a, b, n);
        let z = b[n];
        assert(eligible(rows[z], queue, now));
        if a.contains(z) {
            let m = choose|m: int| 0 <= m < a.len() && a[m] == z;
            assert(b[m] == a[m]);
            assert(precedes(rows[b[m]], rows[b[n]]));
        }
    }
}

/// What a poll hands out is determined by the rows, the queue, the instant and the
/// limit: there is only one selection, wherever the rows are stored.
pub proof fn law_selection_unique(
    rows: Seq<JobView>,
    queue: Seq<char>,
    now: Timestamp,
    limit: nat,
    a: Seq<int>,
    b: Seq<int>,
)
    requires
        rows_valid(rows),
        is_selection(rows, queue, now, limit, a),
        is_selection(rows, queue, now, limit, b),
    ensures
        a == b,
{
    lemma_same_length(rows, queue, now, limit, a, b);
    lemma_same_length(rows, queue, now, limit, b, a);
    lemma_same_picks(rows, queue, now, limit, a, b, a.len() as int);
    assert(a =~= b);
}

} // verus!
