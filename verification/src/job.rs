use crate::ident::Id;
use crate::state::JobState;
use crate::time::Timestamp;
use vstd::prelude::*;

verus! {

/// A payload that the queue stores and hands back without looking inside.
pub type Bytes = Vec<u8>;

/// The mathematical value of an optional payload.
pub open spec fn payload_view(payload: Option<Bytes>) -> Option<Seq<u8>> {
    match payload {
        Some(bytes) => Some(bytes@),
        None => None,
    }
}

/// Copies an optional payload.
pub fn copy_payload(payload: &Option<Bytes>) -> (copy: Option<Bytes>)
    ensures
        payload_view(copy) == payload_view(*payload),
{
    match payload {
        Some(bytes) => Some(bytes.clone()),
        None => None,
    }
}

/// What a producer hands over to enqueue a job. Identity and bookkeeping are assigned by
/// the store.
#[derive(Debug, Clone, PartialEq, Eq)]
pub struct JobInit {
    pub team_id: i32,
    pub queue_name: String,
    pub priority: i16,
    pub scheduled: Timestamp,
    pub function_id: Option<Id>,
    pub vm_state: Option<Bytes>,
    pub parameters: Option<Bytes>,
    pub blob: Option<Bytes>,
    pub metadata: Option<Bytes>,
}

/// The mathematical value of a [`JobInit`].
pub struct JobInitView {
    pub team_id: i32,
    pub queue_name: Seq<char>,
    pub priority: i16,
    pub scheduled: Timestamp,
    pub function_id: Option<Id>,
    pub vm_state: Option<Seq<u8>>,
    pub parameters: Option<Seq<u8>>,
    pub blob: Option<Seq<u8>>,
    pub metadata: Option<Seq<u8>>,
}

impl View for JobInit {
    type V = JobInitView;

    open spec fn view(&self) -> JobInitView {
        JobInitView {
            team_id: self.team_id,
            queue_name: self.queue_name@,
            priority: self.priority,
            scheduled: self.scheduled,
            function_id: self.function_id,
            vm_state: payload_view(self.vm_state),
            parameters: payload_view(self.parameters),
            blob: payload_view(self.blob),
            metadata: payload_view(self.metadata),
        }
    }
}

/// One job, as the store persists it.
#[derive(Debug, Clone, PartialEq, Eq)]
pub struct Job {
    /// Unique and never changed.
    pub id: Id,
    /// The tenant that the job belongs to.
    pub team_id: i32,
    /// The handler that the job is for, if it names one.
    pub function_id: Option<Id>,
    /// When the job was enqueued.
    pub created: Timestamp,
    /// The token of the lease that was last taken on the job and not reclaimed since.
    pub lock_id: Option<Id>,
    /// When the lease holder last showed that it is alive.
    pub last_heartbeat: Option<Timestamp>,
    /// How often the janitor took the job back from a silent worker.
    pub janitor_touch_count: i16,
    /// How often the job changed state.
    pub transition_count: i16,
    /// When the job last changed state.
    pub last_transition: Timestamp,
    /// The virtual queue that workers poll for the job.
    pub queue_name: String,
    pub state: JobState,
    /// Lower values are served first.
    pub priority: i16,
    /// The earliest instant at which the job may be leased.
    pub scheduled: Timestamp,
    pub vm_state: Option<Bytes>,
    pub metadata: Option<Bytes>,
    pub parameters: Option<Bytes>,
    pub blob: Option<Bytes>,
}

/// The mathematical value of a [`Job`].
pub struct JobView {
    pub id: Id,
    pub team_id: i32,
    pub function_id: Option<Id>,
    pub created: Timestamp,
    pub lock_id: Option<Id>,
    pub last_heartbeat: Option<Timestamp>,
    pub janitor_touch_count: i16,
    pub transition_count: i16,
    pub last_transition: Timestamp,
    pub queue_name: Seq<char>,
    pub state: JobState,
    pub priority: i16,
    pub scheduled: Timestamp,
    pub vm_state: Option<Seq<u8>>,
    pub metadata: Option<Seq<u8>>,
    pub parameters: Option<Seq<u8>>,
    pub blob: Option<Seq<u8>>,
}

impl View for Job {
    type V = JobView;

    open spec fn view(&self) -> JobView {
        JobView {
            id: self.id,
            team_id: self.team_id,
            function_id: self.function_id,
            created: self.created,
            lock_id: self.lock_id,
            last_heartbeat: self.last_heartbeat,
            janitor_touch_count: self.janitor_touch_count,
            transition_count: self.transition_count,
            last_transition: self.last_transition,
            queue_name: self.queue_name@,
            state: self.state,
            priority: self.priority,
            scheduled: self.scheduled,
            vm_state: payload_view(self.vm_state),
            metadata: payload_view(self.metadata),
            parameters: payload_view(self.parameters),
            blob: payload_view(self.blob),
        }
    }
}

/// The values of a sequence of jobs, one for one.
pub open spec fn views(jobs: Seq<Job>) -> Seq<JobView> {
    Seq::new(jobs.len(), |i: int| jobs[i]@)
}

/// The job that enqueueing `init` under `id` at `now` creates.
pub open spec fn new_job(init: JobInitView, id: Id, now: Timestamp) -> JobView {
    JobView {
        id,
        team_id: init.team_id,
        function_id: init.function_id,
        created: now,
        lock_id: None,
        last_heartbeat: None,
        janitor_touch_count: 0,
        transition_count: 0,
        last_transition: now,
        queue_name: init.queue_name,
        state: JobState::Available,
        priority: init.priority,
        scheduled: init.scheduled,
        vm_state: init.vm_state,
        metadata: init.metadata,
        parameters: init.parameters,
        blob: init.blob,
    }
}

impl JobView {
    /// What every row of the store satisfies: a running job has a lease and a heartbeat,
    /// and the counters count up from zero.
    pub open spec fn valid(self) -> bool {
        &&& self.state == JobState::Running ==> self.lock_id is Some && self.last_heartbeat is Some
        &&& self.transition_count >= 0
        &&& self.janitor_touch_count >= 0
    }
}

impl Job {
    /// Creates the job that `init` describes, with the identity and the bookkeeping of a
    /// job that was enqueued at `now`.
    pub fn create(init: JobInit, id: Id, now: Timestamp) -> (job: Job)
        ensures
            job@ == new_job(init@, id, now),
    {
        Job {
            id,
            team_id: init.team_id,
            function_id: init.function_id,
            created: now,
            lock_id: None,
            last_heartbeat: None,
            janitor_touch_count: 0,
            transition_count: 0,
            last_transition: now,
            queue_name: init.queue_name,
            state: JobState::Available,
            priority: init.priority,
            scheduled: init.scheduled,
            vm_state: init.vm_state,
            metadata: init.metadata,
            parameters: init.parameters,
            blob: init.blob,
        }
    }

    /// A copy of the job, equal to it in every field.
    pub fn duplicate(&self) -> (copy: Job)
        ensures
            copy@ == self@,
    {
        Job {
            id: self.id,
            team_id: self.team_id,
            function_id: self.function_id,
            created: self.created,
            lock_id: self.lock_id,
            last_heartbeat: self.last_heartbeat,
            janitor_touch_count: self.janitor_touch_count,
            transition_count: self.transition_count,
            last_transition: self.last_transition,
            queue_name: self.queue_name.clone(),
            state: self.state,
            priority: self.priority,
            scheduled: self.scheduled,
            vm_state: copy_payload(&self.vm_state),
            metadata: copy_payload(&self.metadata),
            parameters: copy_payload(&self.parameters),
            blob: copy_payload(&self.blob),
        }
    }
}

} // verus!
