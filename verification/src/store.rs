use crate::dequeue::{
    dequeue_outcome, eligible, indices, is_selection, lease, leased, lemma_picks_distinct, select,
};
use crate::error::StoreError;
use crate::ident::{fresh_id, fresh_ids, Id};
use crate::janitor::{
    kept_by, lemma_bucket_has_job, lemma_sum_bounds, lemma_sum_splits, purgeable, purge,
    purge_outcome, purged_by, reclaim, reclaim_outcome, reclaimed, stale,
};
use crate::job::{new_job, views, Job, JobInit, JobInitView, JobView};
use crate::query::{JobQuery, JobQueryView};
use crate::report::{count_sum, count_sum_of, DeleteSet};
use crate::state::JobState;
use crate::time::{utc_now, Timestamp};
use crate::update::{JobUpdate, JobUpdateView};
use vstd::prelude::*;

verus! {

/// What holds of the rows of a store at all times.
///
/// Every row is valid by itself, no two rows share an id, no two rows carry the same lock
/// token, and there are no more rows than a 64-bit count can tell.
pub open spec fn rows_valid(rows: Seq<JobView>) -> bool {
    &&& rows.len() <= i64::MAX
    &&& forall|i: int| 0 <= i < rows.len() ==> (#[trigger] rows[i]).valid()
    &&& forall|i: int, j: int|
        0 <= i < j < rows.len() ==> (#[trigger] rows[i]).id != (#[trigger] rows[j]).id
    &&& forall|i: int, j: int|
        0 <= i < rows.len() && 0 <= j < rows.len() && i != j && rows[i].lock_id is Some ==> (
        #[trigger] rows[i]).lock_id != (#[trigger] rows[j]).lock_id
}

/// Whether some row has the id `id`.
pub open spec fn has_id(rows: Seq<JobView>, id: Id) -> bool {
    exists|i: int| 0 <= i < rows.len() && (#[trigger] rows[i]).id == id
}

/// The value of a result that holds a job.
pub open spec fn job_result(r: Result<Job, StoreError>) -> Result<JobView, StoreError> {
    match r {
        Ok(job) => Ok(job@),
        Err(error) => Err(error),
    }
}

/// The value of a result that holds jobs.
pub open spec fn jobs_result(r: Result<Vec<Job>, StoreError>) -> Result<
    Seq<JobView>,
    StoreError,
> {
    match r {
        Ok(jobs) => Ok(views(jobs@)),
        Err(error) => Err(error),
    }
}

/// How enqueueing `init` under `id` at `now` takes the rows from `before` to `after`, with
/// the result `r`.
///
/// The store rejects the write exactly where the id is taken or there is no room for
/// another row. Otherwise the new job is appended and handed back.
pub open spec fn enqueue_outcome(
    before: Seq<JobView>,
    after: Seq<JobView>,
    r: Result<JobView, StoreError>,
    init: JobInitView,
    id: Id,
    now: Timestamp,
) -> bool {
    match r {
        Ok(job) => {
            &&& !has_id(before, id)
            &&& before.len() < i64::MAX
            &&& job == new_job(init, id, now)
            &&& after == before.push(job)
        },
        Err(error) => {
            &&& error == StoreError::StorageError
            &&& has_id(before, id) || before.len() >= i64::MAX
            &&& after == before
        },
    }
}

/// How looking up `id` in `rows` ends in `r`.
pub open spec fn get_outcome(rows: Seq<JobView>, r: Result<JobView, StoreError>, id: Id) -> bool {
    match r {
        Ok(job) => exists|i: int| 0 <= i < rows.len() && #[trigger] rows[i] == job && job.id == id,
        Err(error) => error == StoreError::NotFound && !has_id(rows, id),
    }
}

/// Whether the running job `job` is held under the lease `token`.
pub open spec fn beats_for(job: JobView, token: Id) -> bool {
    job.lock_id == Some(token) && job.state == JobState::Running
}

/// How a heartbeat under `token` at `now` takes the rows from `before` to `after`, with
/// the result `r`.
///
/// It succeeds exactly where a running job holds the token, and then sets that job's
/// heartbeat. Otherwise the lease is invalid and nothing changes.
pub open spec fn heartbeat_outcome(
    before: Seq<JobView>,
    after: Seq<JobView>,
    r: Result<(), StoreError>,
    token: Id,
    now: Timestamp,
) -> bool {
    match r {
        Ok(_) => exists|i: int|
            {
                &&& 0 <= i < before.len()
                &&& beats_for(#[trigger] before[i], token)
                &&& after == before.update(
                    i,
                    JobView { last_heartbeat: Some(now), ..before[i] },
                )
            },
        Err(error) => {
            &&& error == StoreError::LeaseInvalid
            &&& after == before
            &&& forall|i: int| 0 <= i < before.len() ==> !beats_for(#[trigger] before[i], token)
        },
    }
}

/// How applying `patch` at `now` takes the rows from `before` to `after`, with the result
/// `r`.
///
/// The patch goes to the one job that its token is a lease on. Where there is none, the
/// lease is invalid; where the patch would wrap the job's transition counter, the counter
/// overflows. A refused patch changes nothing.
pub open spec fn update_outcome(
    before: Seq<JobView>,
    after: Seq<JobView>,
    r: Result<(), StoreError>,
    patch: JobUpdateView,
    now: Timestamp,
) -> bool {
    match r {
        Ok(_) => exists|i: int|
            {
                &&& 0 <= i < before.len()
                &&& (#[trigger] before[i]).leased_by(patch.lock_id)
                &&& !patch.overflows(before[i])
                &&& after == before.update(i, before[i].patched(patch, now))
            },
        Err(StoreError::LeaseInvalid) => {
            &&& after == before
            &&& forall|i: int|
                0 <= i < before.len() ==> !(#[trigger] before[i]).leased_by(patch.lock_id)
        },
        Err(StoreError::CounterOverflow) => {
            &&& after == before
            &&& exists|i: int|
                0 <= i < before.len() && (#[trigger] before[i]).leased_by(patch.lock_id)
                    && patch.overflows(before[i])
        },
        Err(_) => false,
    }
}

/// The jobs that a query made at `now` asks for, as a predicate on jobs.
pub open spec fn asked_by(query: JobQueryView, now: Timestamp) -> spec_fn(JobView) -> bool {
    |job: JobView| query.admits(job, now)
}

/// The first `cap` of `jobs`, or all of them where there are fewer.
pub open spec fn capped(jobs: Seq<JobView>, cap: int) -> Seq<JobView> {
    if jobs.len() <= cap {
        jobs
    } else {
        jobs.take(cap)
    }
}

/// The answer to a query made at `now`: the rows that it asks for, in the order in which
/// they are stored, up to its limit.
pub open spec fn query_outcome(
    rows: Seq<JobView>,
    found: Seq<JobView>,
    query: JobQueryView,
    now: Timestamp,
) -> bool {
    found == capped(rows.filter(asked_by(query, now)), query.cap() as int)
}

/// The index of the row that carries the lock token `token`, if there is one.
pub(crate) fn find_lock(jobs: &Vec<Job>, token: Id) -> (found: Option<usize>)
    ensures
        match found {
            Some(i) => i < jobs.len() && jobs[i as int].lock_id == Some(token),
            None => forall|i: int| 0 <= i < jobs.len() ==> jobs[i].lock_id != Some(token),
        },
{
    let mut i: usize = 0;
    while i < jobs.len()
        invariant
            i <= jobs.len(),
            forall|k: int| 0 <= k < i ==> jobs[k].lock_id != Some(token),
        decreases jobs.len() - i,
    {
        if jobs[i].lock_id == Some(token) {
            return Some(i);
        }
        i += 1;
    }
    None
}

/// The index of the row with the id `id`, if there is one.
pub(crate) fn find_id(jobs: &Vec<Job>, id: Id) -> (found: Option<usize>)
    ensures
        match found {
            Some(i) => i < jobs.len() && jobs[i as int].id == id,
            None => forall|i: int| 0 <= i < jobs.len() ==> jobs[i].id != id,
        },
{
    let mut i: usize = 0;
    while i < jobs.len()
        invariant
            i <= jobs.len(),
            forall|k: int| 0 <= k < i ==> jobs[k].id != id,
        decreases jobs.len() - i,
    {
        if jobs[i].id == id {
            return Some(i);
        }
        i += 1;
    }
    None
}

/// Appends the job that `init` describes, under the identity `id` and as of `now`.
fn append(jobs: &mut Vec<Job>, init: JobInit, id: Id, now: Timestamp) -> (r: Result<Job, StoreError>)
    requires
        rows_valid(views(old(jobs)@)),
    ensures
        rows_valid(views(final(jobs)@)),
        enqueue_outcome(views(old(jobs)@), views(final(jobs)@), job_result(r), init@, id, now),
{
    let ghost before = views(jobs@);
    if jobs.len() as u64 >= i64::MAX as u64 {
        return Err(StoreError::StorageError);
    }
    if let Some(i) = find_id(jobs, id) {
        assert(before[i as int].id == id);
        return Err(StoreError::StorageError);
    }
    assert(!has_id(before, id));
    let job = Job::create(init, id, now);
    let copy = job.duplicate();
    jobs.push(job);
    assert(views(jobs@) =~= before.push(copy@));
    Ok(copy)
}

/// Sets to `now` the heartbeat of the running job that holds the lease `token`.
fn beat(jobs: &mut Vec<Job>, token: Id, now: Timestamp) -> (r: Result<(), StoreError>)
    requires
        rows_valid(views(old(jobs)@)),
    ensures
        rows_valid(views(final(jobs)@)),
        heartbeat_outcome(views(old(jobs)@), views(final(jobs)@), r, token, now),
{
    let ghost before = views(jobs@);
    match find_lock(jobs, token) {
        Some(i) => {
            assert(before[i as int].lock_id == Some(token));
            if jobs[i].state == JobState::Running {
                jobs[i].last_heartbeat = Some(now);
                assert(views(jobs@) =~= before.update(
                    i as int,
                    JobView { last_heartbeat: Some(now), ..before[i as int] },
                ));
                assert(beats_for(before[i as int], token));
                Ok(())
            } else {
                assert forall|k: int| 0 <= k < before.len() implies !beats_for(
                    #[trigger] before[k],
                    token,
                ) by {
                    if k != i {
                        assert(before[i as int].lock_id != before[k].lock_id);
                    }
                }
                Err(StoreError::LeaseInvalid)
            }
        },
        None => {
            assert forall|k: int| 0 <= k < before.len() implies !beats_for(
                #[trigger] before[k],
                token,
            ) by {
                assert(jobs[k].lock_id != Some(token));
            }
            Err(StoreError::LeaseInvalid)
        },
    }
}

/// Applies `patch` at `now` to the job that it holds the lease on.
fn amend(jobs: &mut Vec<Job>, patch: JobUpdate, now: Timestamp) -> (r: Result<(), StoreError>)
    requires
        rows_valid(views(old(jobs)@)),
    ensures
        rows_valid(views(final(jobs)@)),
        update_outcome(views(old(jobs)@), views(final(jobs)@), r, patch@, now),
{
    let ghost before = views(jobs@);
    match find_lock(jobs, patch.lock_id) {
        Some(i) => {
            assert(before[i as int].lock_id == Some(patch.lock_id));
            let r = jobs[i].apply(patch, now);
            proof {
                match r {
                    Ok(_) => {
                        assert(views(jobs@) =~= before.update(
                            i as int,
                            before[i as int].patched(patch@, now),
                        ));
                    },
                    Err(_) => {
                        assert(views(jobs@) =~= before);
                        if !before[i as int].leased_by(patch.lock_id) {
                            assert forall|k: int| 0 <= k < before.len() implies !(
                            #[trigger] before[k]).leased_by(patch.lock_id) by {
                                if k != i {
                                    assert(before[i as int].lock_id != before[k].lock_id);
                                }
                            }
                        }
                    },
                }
            }
            r
        },
        None => {
            assert forall|k: int| 0 <= k < before.len() implies !(#[trigger] before[k]).leased_by(
                patch.lock_id,
            ) by {
                assert(jobs[k].lock_id != Some(patch.lock_id));
            }
            Err(StoreError::LeaseInvalid)
        },
    }
}

/// The jobs of all queues, in the order in which they were enqueued.
///
/// The store serves one caller at a time: every operation that changes it takes it by
/// `&mut`, so that a poll selects and marks its jobs in one step, and a patch, a heartbeat
/// or a reclamation finds the lease as it is at that moment.
pub struct JobStore {
    pub(crate) jobs: Vec<Job>,
}

impl View for JobStore {
    type V = Seq<JobView>;

    closed spec fn view(&self) -> Seq<JobView> {
        views(self.jobs@)
    }
}

impl JobStore {
    /// The invariant of the store: its rows are valid. It holds of every store, so no
    /// operation asks for it.
    #[verifier::type_invariant]
    pub open spec fn wf(&self) -> bool {
        rows_valid(self@)
    }

    /// Takes the rows out of the store, which is empty until they are put back.
    fn take_rows(&mut self) -> (jobs: Vec<Job>)
        ensures
            views(jobs@) == old(self)@,
            rows_valid(views(jobs@)),
            final(self)@ == Seq::<JobView>::empty(),
    {
        proof {
            use_type_invariant(&*self);
        }
        let mut jobs: Vec<Job> = Vec::new();
        assert(views(jobs@) =~= Seq::<JobView>::empty());
        core::mem::swap(&mut self.jobs, &mut jobs);
        jobs
    }

    /// Puts rows into the store, in place of those that it holds.
    fn put_rows(&mut self, jobs: Vec<Job>)
        requires
            rows_valid(views(jobs@)),
        ensures
            final(self)@ == views(jobs@),
            final(self).wf(),
    {
        let mut jobs = jobs;
        core::mem::swap(&mut self.jobs, &mut jobs);
    }

    /// An empty store.
    pub fn new() -> (store: JobStore)
        ensures
            store.wf(),
            store@ == Seq::<JobView>::empty(),
    {
        let store = JobStore { jobs: Vec::new() };
        assert(store@ =~= Seq::<JobView>::empty());
        store
    }

    /// The number of jobs in the store.
    pub fn len(&self) -> (n: usize)
        ensures
            n == self@.len(),
    {
        self.jobs.len()
    }

    /// Copies of all jobs, in the order in which they are stored.
    pub fn rows(&self) -> (all: Vec<Job>)
        ensures
            views(all@) == self@,
    {
        let mut all: Vec<Job> = Vec::new();
        let mut i: usize = 0;
        while i < self.jobs.len()
            invariant
                i <= self.jobs.len(),
                all.len() == i,
                forall|k: int| 0 <= k < i ==> (#[trigger] all[k])@ == self.jobs[k]@,
            decreases self.jobs.len() - i,
        {
            all.push(self.jobs[i].duplicate());
            i += 1;
        }
        assert(views(all@) =~= self@);
        all
    }

    /// Adds the job that `init` describes, under the identity `id` and as of `now`.
    pub fn enqueue_at(&mut self, init: JobInit, id: Id, now: Timestamp) -> (r: Result<
        Job,
        StoreError,
    >)
        ensures
            final(self).wf(),
            enqueue_outcome(old(self)@, final(self)@, job_result(r), init@, id, now),
    {
        let mut jobs = self.take_rows();
        let r = append(&mut jobs, init, id, now);
        self.put_rows(jobs);
        r
    }

    /// Adds the job that `init` describes, under a fresh identity and as of the reading
    /// of the clock.
    pub fn enqueue(&mut self, init: JobInit) -> (r: Result<Job, StoreError>)
        ensures
            final(self).wf(),
            exists|id: Id, now: Timestamp| #[trigger]
                enqueue_outcome(old(self)@, final(self)@, job_result(r), init@, id, now),
    {
        let now = utc_now();
        let id = fresh_id();
        self.enqueue_at(init, id, now)
    }

    /// A copy of the job with the id `id`.
    pub fn get(&self, id: Id) -> (r: Result<Job, StoreError>)
        ensures
            get_outcome(self@, job_result(r), id),
    {
        match find_id(&self.jobs, id) {
            Some(i) => {
                let job = self.jobs[i].duplicate();
                assert(self@[i as int] == job@);
                Ok(job)
            },
            None => {
                assert(!has_id(self@, id));
                Err(StoreError::NotFound)
            },
        }
    }

    /// Records at `now` that the holder of the lease `lock_id` is alive.
    pub fn heartbeat_at(&mut self, lock_id: Id, now: Timestamp) -> (r: Result<(), StoreError>)
        ensures
            final(self).wf(),
            heartbeat_outcome(old(self)@, final(self)@, r, lock_id, now),
    {
        let mut jobs = self.take_rows();
        let r = beat(&mut jobs, lock_id, now);
        self.put_rows(jobs);
        r
    }

    /// Records that the holder of the lease `lock_id` is alive, as of the reading of the
    /// clock.
    pub fn heartbeat(&mut self, lock_id: Id) -> (r: Result<(), StoreError>)
        ensures
            final(self).wf(),
            exists|now: Timestamp| #[trigger]
                heartbeat_outcome(old(self)@, final(self)@, r, lock_id, now),
    {
        let now = utc_now();
        self.heartbeat_at(lock_id, now)
    }

    /// Applies the patch `patch` at `now` to the job that it holds the lease on.
    pub fn update_at(&mut self, patch: JobUpdate, now: Timestamp) -> (r: Result<(), StoreError>)
        ensures
            final(self).wf(),
            update_outcome(old(self)@, final(self)@, r, patch@, now),
    {
        let mut jobs = self.take_rows();
        let r = amend(&mut jobs, patch, now);
        self.put_rows(jobs);
        r
    }

    /// Applies the patch `patch` to the job that it holds the lease on, as of the reading
    /// of the clock.
    pub fn update(&mut self, patch: JobUpdate) -> (r: Result<(), StoreError>)
        ensures
            final(self).wf(),
            exists|now: Timestamp| #[trigger]
                update_outcome(old(self)@, final(self)@, r, patch@, now),
    {
        let now = utc_now();
        self.update_at(patch, now)
    }

    /// Leases to a worker that polls `queue_name` at `now` the most urgent jobs that are
    /// due, at most `max_count` of them and at most one for each of `tokens`, which become
    /// their lock tokens in turn. The jobs are handed back most urgent first.
    pub fn dequeue_at(
        &mut self,
        queue_name: &str,
        max_count: usize,
        now: Timestamp,
        tokens: &Vec<Id>,
    ) -> (r: Result<Vec<Job>, StoreError>)
        ensures
            final(self).wf(),
            dequeue_outcome(
                old(self)@,
                final(self)@,
                jobs_result(r),
                queue_name@,
                vstd::math::min(max_count as int, tokens.len() as int) as nat,
                now,
                tokens@,
            ),
            r matches Ok(out) ==> forall|k: int|
                0 <= k < out.len() ==> {
                    &&& (#[trigger] out[k])@.queue_name == queue_name@
                    &&& out[k]@.scheduled <= now
                    &&& out[k]@.state == JobState::Running
                    &&& out[k]@.lock_id == Some(tokens[k])
                    &&& out[k]@.last_heartbeat == Some(now)
                },
    {
        let queue = queue_name.to_owned();
        let limit = if max_count < tokens.len() {
            max_count
        } else {
            tokens.len()
        };
        let mut jobs = self.take_rows();
        let picks = select(&jobs, &queue, limit, now);
        proof {
            lemma_picks_distinct(old(self)@, queue@, now, limit as nat, picks@);
        }
        let r = lease(&mut jobs, &picks, tokens, now);
        self.put_rows(jobs);
        proof {
            if let Ok(out) = &r {
                let before = old(self)@;
                let ps = indices(picks@);
                assert forall|k: int| 0 <= k < out.len() implies {
                    &&& (#[trigger] out[k])@.queue_name == queue_name@
                    &&& out[k]@.scheduled <= now
                    &&& out[k]@.state == JobState::Running
                    &&& out[k]@.lock_id == Some(tokens[k])
                    &&& out[k]@.last_heartbeat == Some(now)
                } by {
                    assert(self@[ps[k]] == leased(before[ps[k]], tokens[k], now));
                    assert(views(out@)[k] == self@[ps[k]]);
                    assert(eligible(before[ps[k]], queue@, now));
                }
            }
        }
        r
    }

    /// Leases to a worker that polls `queue_name` the most urgent jobs that are due by the
    /// reading of the clock, at most `max_count` of them, each under a lock token of its
    /// own. The jobs are handed back most urgent first.
    ///
    /// Where the queue has no available job, or none is asked for, the call succeeds with
    /// nothing, whatever the clock reads.
    pub fn dequeue(&mut self, queue_name: &str, max_count: usize) -> (r: Result<
        Vec<Job>,
        StoreError,
    >)
        ensures
            final(self).wf(),
            exists|now: Timestamp, tokens: Seq<Id>| #[trigger]
                dequeue_outcome(
                    old(self)@,
                    final(self)@,
                    jobs_result(r),
                    queue_name@,
                    max_count as nat,
                    now,
                    tokens,
                ),
            max_count == 0 || (forall|i: int|
                0 <= i < old(self)@.len() ==> !((#[trigger] old(self)@[i]).queue_name
                    == queue_name@ && old(self)@[i].state == JobState::Available)) ==> {
                &&& r matches Ok(out)
                &&& out.len() == 0
                &&& final(self)@ == old(self)@
            },
            r matches Ok(out) ==> out.len() <= max_count && forall|k: int|
                0 <= k < out.len() ==> {
                    &&& (#[trigger] out[k])@.queue_name == queue_name@
                    &&& out[k]@.state == JobState::Running
                    &&& out[k]@.lock_id is Some
                    &&& out[k]@.last_heartbeat == Some(out[k]@.last_transition)
                    &&& out[k]@.scheduled <= out[k]@.last_transition
                },
    {
        let now = utc_now();
        let queue = queue_name.to_owned();
        let mut jobs = self.take_rows();
        let picks = select(&jobs, &queue, max_count, now);
        proof {
            lemma_picks_distinct(old(self)@, queue@, now, max_count as nat, picks@);
        }
        let tokens = fresh_ids(picks.len());
        let r = lease(&mut jobs, &picks, &tokens, now);
        self.put_rows(jobs);
        proof {
            let before = old(self)@;
            let ps = indices(picks@);
            assert(is_selection(before, queue_name@, now, max_count as nat, ps));
            assert(dequeue_outcome(
                before,
                self@,
                jobs_result(r),
                queue_name@,
                max_count as nat,
                now,
                tokens@,
            ));
            if max_count == 0 || (forall|i: int|
                0 <= i < before.len() ==> !((#[trigger] before[i]).queue_name == queue_name@
                    && before[i].state == JobState::Available)) {
                if ps.len() > 0 {
                    assert(eligible(before[ps[0]], queue@, now));
                }
                assert(ps.len() == 0);
                assert(r is Ok);
                assert forall|i: int| 0 <= i < before.len() implies self@[i] == before[i] by {
                    assert(!ps.contains(i));
                }
                assert(self@ =~= before);
            }
            if let Ok(out) = &r {
                assert forall|k: int| 0 <= k < out.len() implies {
                    &&& (#[trigger] out[k])@.queue_name == queue_name@
                    &&& out[k]@.state == JobState::Running
                    &&& out[k]@.lock_id is Some
                    &&& out[k]@.last_heartbeat == Some(out[k]@.last_transition)
                    &&& out[k]@.scheduled <= out[k]@.last_transition
                } by {
                    assert(self@[ps[k]] == leased(before[ps[k]], tokens[k], now));
                    assert(views(out@)[k] == self@[ps[k]]);
                    assert(eligible(before[ps[k]], queue@, now));
                }
            }
        }
        r
    }

    /// Takes back at `now` every running job whose last heartbeat is older than
    /// `now - timeout`, and says how many there were.
    ///
    /// A job that is taken back is available again and has no lock; its janitor touches
    /// and its transitions are each one more than before. Jobs whose heartbeat is within
    /// the timeout are left as they are.
    pub fn reclaim_expired_leases_at(&mut self, timeout: i64, now: Timestamp) -> (r: Result<
        usize,
        StoreError,
    >)
        ensures
            final(self).wf(),
            reclaim_outcome(old(self)@, final(self)@, r, timeout, now),
            r is Ok ==> forall|i: int|
                0 <= i < old(self)@.len() ==> if stale(#[trigger] old(self)@[i], now, timeout) {
                    &&& final(self)@[i].state == JobState::Available
                    &&& final(self)@[i].lock_id is None
                    &&& final(self)@[i].janitor_touch_count == old(self)@[i].janitor_touch_count
                        + 1
                } else {
                    final(self)@[i] == old(self)@[i]
                },
    {
        let mut jobs = self.take_rows();
        let r = reclaim(&mut jobs, timeout, now);
        self.put_rows(jobs);
        proof {
            if r is Ok {
                assert forall|i: int| 0 <= i < old(self)@.len() implies if stale(
                    #[trigger] old(self)@[i],
                    now,
                    timeout,
                ) {
                    &&& self@[i].state == JobState::Available
                    &&& self@[i].lock_id is None
                    &&& self@[i].janitor_touch_count == old(self)@[i].janitor_touch_count + 1
                } else {
                    self@[i] == old(self)@[i]
                } by {
                    assert(self@[i] == if stale(old(self)@[i], now, timeout) {
                        reclaimed(old(self)@[i], now)
                    } else {
                        old(self)@[i]
                    });
                }
            }
        }
        r
    }

    /// Takes back every running job whose last heartbeat is older than the reading of the
    /// clock less `timeout`, and says how many there were.
    pub fn reclaim_expired_leases(&mut self, timeout: i64) -> (r: Result<usize, StoreError>)
        ensures
            final(self).wf(),
            exists|now: Timestamp| #[trigger]
                reclaim_outcome(old(self)@, final(self)@, r, timeout, now),
    {
        let now = utc_now();
        self.reclaim_expired_leases_at(timeout, now)
    }

    /// Removes every finished job whose last transition is before `retention_cutoff`, and
    /// reports how many were removed from each bucket.
    ///
    /// The counts add up to the number of rows that left. No job that is unfinished, or
    /// that changed state at or after the cutoff, leaves.
    pub fn delete_completed_and_failed_jobs(&mut self, retention_cutoff: Timestamp) -> (report:
        DeleteSet)
        ensures
            final(self).wf(),
            purge_outcome(old(self)@, final(self)@, report.deletes@, retention_cutoff),
            count_sum(report.deletes@) == old(self)@.len() - final(self)@.len(),
            report.sums_fit(JobState::Completed),
            report.sums_fit(JobState::Failed),
            report.total_of(JobState::Completed) + report.total_of(JobState::Failed) == old(
                self,
            )@.len() - final(self)@.len(),
            forall|i: int|
                0 <= i < old(self)@.len() && !purgeable(#[trigger] old(self)@[i], retention_cutoff)
                    ==> final(self)@.contains(old(self)@[i]),
    {
        let mut jobs = self.take_rows();
        let deletes = purge(&mut jobs, retention_cutoff);
        self.put_rows(jobs);
        proof {
            let before = old(self)@;
            let gone = before.filter(purged_by(retention_cutoff));
            let buckets = deletes@;
            assert forall|k: int| 0 <= k < buckets.len() implies (#[trigger] buckets[k]).count >= 0
                && buckets[k].state.terminal() by {
                let i = lemma_bucket_has_job(gone, buckets, k);
                before.lemma_filter_pred(purged_by(retention_cutoff), i);
            }
            lemma_sum_splits(buckets);
            assert forall|n: int| 0 <= n <= buckets.len() implies i64::MIN
                <= #[trigger] count_sum_of(buckets.take(n), JobState::Completed) <= i64::MAX by {
                lemma_sum_bounds(buckets, JobState::Completed, n);
            }
            assert forall|n: int| 0 <= n <= buckets.len() implies i64::MIN
                <= #[trigger] count_sum_of(buckets.take(n), JobState::Failed) <= i64::MAX by {
                lemma_sum_bounds(buckets, JobState::Failed, n);
            }
            assert forall|i: int|
                0 <= i < before.len() && !purgeable(
                    #[trigger] before[i],
                    retention_cutoff,
                ) implies self@.contains(before[i]) by {
                before.lemma_filter_contains(kept_by(retention_cutoff), i);
            }
        }
        DeleteSet::new(deletes)
    }

    /// Copies of the jobs that the query, made at `now`, asks for. The store is only read.
    pub fn query_at(&self, query: &JobQuery, now: Timestamp) -> (found: Vec<Job>)
        ensures
            query_outcome(self@, views(found@), query@, now),
            forall|k: int|
                0 <= k < found.len() ==> (#[trigger] found[k])@.scheduled <= query@.cutoff(now),
    {
        let filter = query.builder_at(now);
        let ghost asked = asked_by(query@, now);
        let ghost cap = query@.cap() as int;
        let mut found: Vec<Job> = Vec::new();
        let mut i: usize = 0;
        proof {
            self@.take(0).lemma_filter_len(asked);
            assert(views(found@) =~= capped(self@.take(0).filter(asked), cap));
        }
        while i < self.jobs.len()
            invariant
                i <= self.jobs.len(),
                asked == asked_by(query@, now),
                cap == query@.cap(),
                filter.limit == cap,
                forall|job: JobView| #[trigger] filter@.admits(job) <==> query@.admits(job, now),
                views(found@) == capped(self@.take(i as int).filter(asked), cap),
                forall|k: int|
                    0 <= k < found.len() ==> (#[trigger] found[k])@.scheduled <= query@.cutoff(now),
            decreases self.jobs.len() - i,
        {
            let ghost so_far = self@.take(i as int).filter(asked);
            let ghost old_found = views(found@);
            proof {
                assert(self@.take(i + 1) =~= self@.take(i as int).push(self@[i as int]));
                self@.take(i as int).lemma_filter_push(self@[i as int], asked);
            }
            if filter.admits(&self.jobs[i]) {
                assert(asked(self@[i as int]));
                if found.len() < filter.limit as usize {
                    found.push(self.jobs[i].duplicate());
                    assert(views(found@) =~= old_found.push(self@[i as int]));
                } else {
                    assert(so_far.push(self@[i as int]).take(cap) =~= so_far.take(cap));
                }
            } else {
                assert(!asked(self@[i as int]));
            }
            i += 1;
        }
        assert(self@.take(self@.len() as int) =~= self@);
        found
    }

    /// Copies of the jobs that the query, made at the reading of the clock, asks for.
    ///
    /// Where the query names its own cutoff, the clock has no part in the answer.
    pub fn query(&self, query: &JobQuery) -> (found: Vec<Job>)
        ensures
            exists|now: Timestamp| #[trigger] query_outcome(self@, views(found@), query@, now),
            query.scheduled_by is Some ==> forall|now: Timestamp| #[trigger]
                query_outcome(self@, views(found@), query@, now),
    {
        let now = utc_now();
        let found = self.query_at(query, now);
        proof {
            if query.scheduled_by is Some {
                assert forall|other: Timestamp| #[trigger]
                    query_outcome(self@, views(found@), query@, other) by {
                    assert(asked_by(query@, other) =~= asked_by(query@, now));
                }
            }
        }
        found
    }
}

} // verus!
