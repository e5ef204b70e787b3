use crate::error::StoreError;
use crate::ident::Id;
use crate::job::{payload_view, Bytes, Job, JobView};
use crate::state::JobState;
use crate::time::{utc_now, Timestamp};
use vstd::prelude::*;

verus! {

/// What a patch does to one nullable column.
#[derive(Debug, Clone, PartialEq, Eq)]
pub enum FieldUpdate<T> {
    /// Leave the column as it is.
    Unchanged,
    /// Set the column to null.
    SetNull,
    /// Set the column to this value.
    SetValue(T),
}

impl<T> FieldUpdate<T> {
    /// The column after the update.
    pub open spec fn apply(self, column: Option<T>) -> Option<T> {
        match self {
            FieldUpdate::Unchanged => column,
            FieldUpdate::SetNull => None,
            FieldUpdate::SetValue(value) => Some(value),
        }
    }
}

/// The mathematical value of an update of a payload column.
pub open spec fn field_view(update: FieldUpdate<Bytes>) -> FieldUpdate<Seq<u8>> {
    match update {
        FieldUpdate::Unchanged => FieldUpdate::Unchanged,
        FieldUpdate::SetNull => FieldUpdate::SetNull,
        FieldUpdate::SetValue(bytes) => FieldUpdate::SetValue(bytes@),
    }
}

/// Applies an update to a payload column.
pub fn update_payload(column: &mut Option<Bytes>, update: FieldUpdate<Bytes>)
    ensures
        payload_view(*final(column)) == field_view(update).apply(payload_view(*old(column))),
{
    match update {
        FieldUpdate::Unchanged => {},
        FieldUpdate::SetNull => {
            *column = None;
        },
        FieldUpdate::SetValue(bytes) => {
            *column = Some(bytes);
        },
    }
}

/// A patch for one job, presented by the worker that holds the lease `lock_id`.
///
/// A field of the patch that is absent leaves its column unchanged.
#[derive(Debug, Clone, PartialEq, Eq)]
pub struct JobUpdate {
    /// The token of the lease under which the patch is made.
    pub lock_id: Id,
    pub state: Option<JobState>,
    pub queue_name: Option<String>,
    pub priority: Option<i16>,
    pub scheduled: Option<Timestamp>,
    pub vm_state: FieldUpdate<Bytes>,
    pub metadata: FieldUpdate<Bytes>,
    pub parameters: FieldUpdate<Bytes>,
    pub blob: FieldUpdate<Bytes>,
    /// The heartbeat that the patch records; where it is absent, the instant at which the
    /// patch is applied is recorded.
    pub last_heartbeat: Option<Timestamp>,
}

/// The mathematical value of a [`JobUpdate`].
pub struct JobUpdateView {
    pub lock_id: Id,
    pub state: Option<JobState>,
    pub queue_name: Option<Seq<char>>,
    pub priority: Option<i16>,
    pub scheduled: Option<Timestamp>,
    pub vm_state: FieldUpdate<Seq<u8>>,
    pub metadata: FieldUpdate<Seq<u8>>,
    pub parameters: FieldUpdate<Seq<u8>>,
    pub blob: FieldUpdate<Seq<u8>>,
    pub last_heartbeat: Option<Timestamp>,
}

impl View for JobUpdate {
    type V = JobUpdateView;

    open spec fn view(&self) -> JobUpdateView {
        JobUpdateView {
            lock_id: self.lock_id,
            state: self.state,
            queue_name: match self.queue_name {
                Some(name) => Some(name@),
                None => None,
            },
            priority: self.priority,
            scheduled: self.scheduled,
            vm_state: field_view(self.vm_state),
            metadata: field_view(self.metadata),
            parameters: field_view(self.parameters),
            blob: field_view(self.blob),
            last_heartbeat: self.last_heartbeat,
        }
    }
}

/// The patch that changes nothing but the heartbeat, which it sets to `now`.
pub open spec fn empty_patch(lock_id: Id, now: Timestamp) -> JobUpdateView {
    JobUpdateView {
        lock_id,
        state: None,
        queue_name: None,
        priority: None,
        scheduled: None,
        vm_state: FieldUpdate::Unchanged,
        metadata: FieldUpdate::Unchanged,
        parameters: FieldUpdate::Unchanged,
        blob: FieldUpdate::Unchanged,
        last_heartbeat: Some(now),
    }
}

impl JobUpdate {
    /// An empty patch under the lease `lock_id`, with the heartbeat `now`.
    pub fn new_at(lock_id: Id, now: Timestamp) -> (patch: JobUpdate)
        ensures
            patch@ == empty_patch(lock_id, now),
    {
        JobUpdate {
            lock_id,
            state: None,
            queue_name: None,
            priority: None,
            scheduled: None,
            vm_state: FieldUpdate::Unchanged,
            metadata: FieldUpdate::Unchanged,
            parameters: FieldUpdate::Unchanged,
            blob: FieldUpdate::Unchanged,
            last_heartbeat: Some(now),
        }
    }

    /// An empty patch under the lease `lock_id`, with the reading of the clock as its
    /// heartbeat.
    pub fn new(lock_id: Id) -> (patch: JobUpdate)
        ensures
            exists|now: Timestamp| patch@ == #[trigger] empty_patch(lock_id, now),
    {
        let now = utc_now();
        JobUpdate::new_at(lock_id, now)
    }
}

impl JobUpdateView {
    /// Whether the patch moves job `job` to another state. Naming the state that the job
    /// already has is no transition.
    pub open spec fn moves(self, job: JobView) -> bool {
        self.state matches Some(state) && state != job.state
    }

    /// Whether applying the patch to `job` would carry the transition counter over the
    /// top of its range.
    pub open spec fn overflows(self, job: JobView) -> bool {
        self.moves(job) && job.transition_count == i16::MAX
    }
}

impl JobView {
    /// Whether `token` is a lease under which the job may be patched: it is the job's
    /// current lock, and the job is not finished.
    pub open spec fn leased_by(self, token: Id) -> bool {
        self.lock_id == Some(token) && !self.state.terminal()
    }

    /// The job after the patch `patch` was applied to it at `now`.
    ///
    /// Each column follows its own field of the patch. The heartbeat is always refreshed.
    /// A change of state counts as a transition and is stamped with `now`.
    pub open spec fn patched(self, patch: JobUpdateView, now: Timestamp) -> JobView {
        JobView {
            state: match patch.state {
                Some(state) => state,
                None => self.state,
            },
            queue_name: match patch.queue_name {
                Some(name) => name,
                None => self.queue_name,
            },
            priority: match patch.priority {
                Some(priority) => priority,
                None => self.priority,
            },
            scheduled: match patch.scheduled {
                Some(scheduled) => scheduled,
                None => self.scheduled,
            },
            vm_state: patch.vm_state.apply(self.vm_state),
            metadata: patch.metadata.apply(self.metadata),
            parameters: patch.parameters.apply(self.parameters),
            blob: patch.blob.apply(self.blob),
            last_heartbeat: Some(
                match patch.last_heartbeat {
                    Some(heartbeat) => heartbeat,
                    None => now,
                },
            ),
            transition_count: if patch.moves(self) {
                (self.transition_count + 1) as i16
            } else {
                self.transition_count
            },
            last_transition: if patch.moves(self) {
                now
            } else {
                self.last_transition
            },
            ..self
        }
    }
}

impl Job {
    /// Applies a patch to the job, if the patch was made under the job's lease.
    ///
    /// The patch is applied as a whole or not at all. It is refused with `LeaseInvalid`
    /// where its token is not a lease on the job, and with `CounterOverflow` where it would
    /// carry the transition counter over the top.
    pub fn apply(&mut self, patch: JobUpdate, now: Timestamp) -> (r: Result<(), StoreError>)
        ensures
            match r {
                Ok(_) => {
                    &&& old(self)@.leased_by(patch.lock_id)
                    &&& !patch@.overflows(old(self)@)
                    &&& final(self)@ == old(self)@.patched(patch@, now)
                },
                Err(error) => {
                    &&& final(self)@ == old(self)@
                    &&& if old(self)@.leased_by(patch.lock_id) {
                        patch@.overflows(old(self)@) && error == StoreError::CounterOverflow
                    } else {
                        error == StoreError::LeaseInvalid
                    }
                },
            },
    {
        if self.lock_id != Some(patch.lock_id) || self.state.is_terminal() {
            return Err(StoreError::LeaseInvalid);
        }
        let moves = match patch.state {
            Some(state) => state != self.state,
            None => false,
        };
        if moves {
            if self.transition_count == i16::MAX {
                return Err(StoreError::CounterOverflow);
            }
            self.transition_count = self.transition_count + 1;
            self.last_transition = now;
        }
        self.last_heartbeat = Some(
            match patch.last_heartbeat {
                Some(heartbeat) => heartbeat,
                None => now,
            },
        );
        if let Some(state) = patch.state {
            self.state = state;
        }
        if let Some(name) = patch.queue_name {
            self.queue_name = name;
        }
        if let Some(priority) = patch.priority {
            self.priority = priority;
        }
        if let Some(scheduled) = patch.scheduled {
            self.scheduled = scheduled;
        }
        update_payload(&mut self.vm_state, patch.vm_state);
        update_payload(&mut self.metadata, patch.metadata);
        update_payload(&mut self.parameters, patch.parameters);
        update_payload(&mut self.blob, patch.blob);
        Ok(())
    }
}

} // verus!
