use crate::ident::Id;
use crate::job::{Job, JobView};
use crate::state::JobState;
use crate::time::{utc_now, Timestamp};
use vstd::prelude::*;

verus! {

/// The number of jobs that a query returns at most when it names no limit.
pub const DEFAULT_LIMIT: u16 = 100;

/// A read filter over the jobs of a store.
///
/// Each field that is present asks for jobs that are equal to it in that column. The jobs
/// must also be scheduled no later than `scheduled_by`, or than the instant of the query
/// where that is absent.
#[derive(Debug, Clone, PartialEq, Eq)]
pub struct JobQuery {
    pub team_id: Option<i32>,
    pub function_id: Option<Id>,
    pub state: Option<JobState>,
    pub queue_name: Option<String>,
    pub scheduled_by: Option<Timestamp>,
    pub limit: Option<u16>,
}

/// The mathematical value of a [`JobQuery`].
pub struct JobQueryView {
    pub team_id: Option<i32>,
    pub function_id: Option<Id>,
    pub state: Option<JobState>,
    pub queue_name: Option<Seq<char>>,
    pub scheduled_by: Option<Timestamp>,
    pub limit: Option<u16>,
}

impl View for JobQuery {
    type V = JobQueryView;

    open spec fn view(&self) -> JobQueryView {
        JobQueryView {
            team_id: self.team_id,
            function_id: self.function_id,
            state: self.state,
            queue_name: match self.queue_name {
                Some(name) => Some(name@),
                None => None,
            },
            scheduled_by: self.scheduled_by,
            limit: self.limit,
        }
    }
}

impl Default for JobQuery {
    /// The query that asks for every job that is due.
    fn default() -> (query: JobQuery)
        ensures
            query@ == (JobQueryView {
                team_id: None,
                function_id: None,
                state: None,
                queue_name: None,
                scheduled_by: None,
                limit: None,
            }),
    {
        JobQuery {
            team_id: None,
            function_id: None,
            state: None,
            queue_name: None,
            scheduled_by: None,
            limit: None,
        }
    }
}

impl JobQueryView {
    /// The instant by which a job must be scheduled, for a query made at `now`.
    pub open spec fn cutoff(self, now: Timestamp) -> Timestamp {
        match self.scheduled_by {
            Some(instant) => instant,
            None => now,
        }
    }

    /// The number of jobs that the query returns at most.
    pub open spec fn cap(self) -> u16 {
        match self.limit {
            Some(limit) => limit,
            None => DEFAULT_LIMIT,
        }
    }

    /// Whether the query, made at `now`, asks for the job: the job is equal to every field
    /// that is present, and it is scheduled by the cutoff.
    pub open spec fn admits(self, job: JobView, now: Timestamp) -> bool {
        &&& self.team_id matches Some(team_id) ==> job.team_id == team_id
        &&& self.function_id matches Some(function_id) ==> job.function_id == Some(function_id)
        &&& self.queue_name matches Some(name) ==> job.queue_name == name
        &&& self.state matches Some(state) ==> job.state == state
        &&& job.scheduled <= self.cutoff(now)
    }
}

/// One fragment of a read predicate.
#[derive(Debug, Clone, PartialEq, Eq)]
pub enum Clause {
    /// The job belongs to this team.
    TeamId(i32),
    /// The job is for this function.
    FunctionId(Id),
    /// The job is in this queue.
    QueueName(String),
    /// The job is in this state.
    State(JobState),
    /// The job is scheduled no later than this instant.
    ScheduledBy(Timestamp),
}

/// The mathematical value of a [`Clause`].
pub enum ClauseView {
    TeamId(i32),
    FunctionId(Id),
    QueueName(Seq<char>),
    State(JobState),
    ScheduledBy(Timestamp),
}

impl View for Clause {
    type V = ClauseView;

    open spec fn view(&self) -> ClauseView {
        match self {
            Clause::TeamId(team_id) => ClauseView::TeamId(*team_id),
            Clause::FunctionId(function_id) => ClauseView::FunctionId(*function_id),
            Clause::QueueName(name) => ClauseView::QueueName(name@),
            Clause::State(state) => ClauseView::State(*state),
            Clause::ScheduledBy(instant) => ClauseView::ScheduledBy(*instant),
        }
    }
}

impl ClauseView {
    /// Whether the clause is true of the job.
    pub open spec fn holds(self, job: JobView) -> bool {
        match self {
            ClauseView::TeamId(team_id) => job.team_id == team_id,
            ClauseView::FunctionId(function_id) => job.function_id == Some(function_id),
            ClauseView::QueueName(name) => job.queue_name == name,
            ClauseView::State(state) => job.state == state,
            ClauseView::ScheduledBy(instant) => job.scheduled <= instant,
        }
    }

    /// The column that the clause is about.
    pub open spec fn column(self) -> Seq<char> {
        match self {
            ClauseView::TeamId(_) => "team_id"@,
            ClauseView::FunctionId(_) => "function_id"@,
            ClauseView::QueueName(_) => "queue_name"@,
            ClauseView::State(_) => "state"@,
            ClauseView::ScheduledBy(_) => "scheduled"@,
        }
    }

    /// The comparison that the clause makes between its column and its value.
    pub open spec fn operator(self) -> Seq<char> {
        match self {
            ClauseView::ScheduledBy(_) => "<="@,
            _ => "="@,
        }
    }
}

impl Clause {
    /// Decides [`ClauseView::holds`].
    pub fn test(&self, job: &Job) -> (b: bool)
        ensures
            b == self@.holds(job@),
    {
        match self {
            Clause::TeamId(team_id) => job.team_id == *team_id,
            Clause::FunctionId(function_id) => job.function_id == Some(*function_id),
            Clause::QueueName(name) => job.queue_name == *name,
            Clause::State(state) => job.state == *state,
            Clause::ScheduledBy(instant) => job.scheduled <= *instant,
        }
    }

    /// The column that the clause is about.
    pub fn column(&self) -> (name: &'static str)
        ensures
            name@ == self@.column(),
    {
        match self {
            Clause::TeamId(_) => "team_id",
            Clause::FunctionId(_) => "function_id",
            Clause::QueueName(_) => "queue_name",
            Clause::State(_) => "state",
            Clause::ScheduledBy(_) => "scheduled",
        }
    }

    /// The comparison that the clause makes between its column and its value.
    pub fn operator(&self) -> (sign: &'static str)
        ensures
            sign@ == self@.operator(),
    {
        match self {
            Clause::ScheduledBy(_) => "<=",
            _ => "=",
        }
    }
}

/// A read predicate: the conjunction of its clauses, with a limit on the number of jobs
/// to return.
#[derive(Debug, Clone, PartialEq, Eq)]
pub struct JobFilter {
    pub clauses: Vec<Clause>,
    pub limit: u16,
}

/// The mathematical value of a [`JobFilter`].
pub struct JobFilterView {
    pub clauses: Seq<ClauseView>,
    pub limit: u16,
}

impl View for JobFilter {
    type V = JobFilterView;

    open spec fn view(&self) -> JobFilterView {
        JobFilterView {
            clauses: Seq::new(self.clauses@.len(), |k: int| self.clauses@[k]@),
            limit: self.limit,
        }
    }
}

impl JobFilterView {
    /// Whether every clause is true of the job.
    pub open spec fn admits(self, job: JobView) -> bool {
        forall|k: int| 0 <= k < self.clauses.len() ==> (#[trigger] self.clauses[k]).holds(job)
    }
}

impl JobFilter {
    /// Decides [`JobFilterView::admits`].
    pub fn admits(&self, job: &Job) -> (b: bool)
        ensures
            b == self@.admits(job@),
    {
        let mut k: usize = 0;
        while k < self.clauses.len()
            invariant
                k <= self.clauses.len(),
                forall|j: int| 0 <= j < k ==> (#[trigger] self@.clauses[j]).holds(job@),
            decreases self.clauses.len() - k,
        {
            if !self.clauses[k].test(job) {
                assert(!self@.clauses[k as int].holds(job@));
                return false;
            }
            k += 1;
        }
        true
    }
}

/// The clause that a field of a query contributes: none where the field is absent.
pub open spec fn optional<T>(field: Option<T>, clause: spec_fn(T) -> ClauseView) -> Seq<
    ClauseView,
> {
    match field {
        Some(value) => seq![clause(value)],
        None => Seq::empty(),
    }
}

/// The read predicate of a query made at `now`: one clause for each field that is
/// present, in the order team, function, queue, state, and then, always, the clause on
/// the schedule.
pub open spec fn filter_of(query: JobQueryView, now: Timestamp) -> JobFilterView {
    JobFilterView {
        clauses: optional(query.team_id, |team_id: i32| ClauseView::TeamId(team_id)) + optional(
            query.function_id,
            |function_id: Id| ClauseView::FunctionId(function_id),
        ) + optional(query.queue_name, |name: Seq<char>| ClauseView::QueueName(name)) + optional(
            query.state,
            |state: JobState| ClauseView::State(state),
        ) + seq![ClauseView::ScheduledBy(query.cutoff(now))],
        limit: query.cap(),
    }
}

/// The predicate of a query admits exactly the jobs that the query asks for.
pub proof fn lemma_filter_meaning(query: JobQueryView, now: Timestamp, job: JobView)
    ensures
        filter_of(query, now).admits(job) <==> query.admits(job, now),
{
    let team = optional(query.team_id, |team_id: i32| ClauseView::TeamId(team_id));
    let function = optional(
        query.function_id,
        |function_id: Id| ClauseView::FunctionId(function_id),
    );
    let queue = optional(query.queue_name, |name: Seq<char>| ClauseView::QueueName(name));
    let state = optional(query.state, |state: JobState| ClauseView::State(state));
    let schedule = seq![ClauseView::ScheduledBy(query.cutoff(now))];
    let clauses = filter_of(query, now).clauses;
    assert(clauses == team + function + queue + state + schedule);
    let a = team.len() as int;
    let b = a + function.len();
    let c = b + queue.len();
    let d = c + state.len();
    assert(clauses.len() == d + 1);
    assert(clauses[d] == ClauseView::ScheduledBy(query.cutoff(now)));
    if query.team_id is Some {
        assert(clauses[0] == ClauseView::TeamId(query.team_id->0));
    }
    if query.function_id is Some {
        assert(clauses[a] == ClauseView::FunctionId(query.function_id->0));
    }
    if query.queue_name is Some {
        assert(clauses[b] == ClauseView::QueueName(query.queue_name->0));
    }
    if query.state is Some {
        assert(clauses[c] == ClauseView::State(query.state->0));
    }
    if query.admits(job, now) {
        assert forall|k: int| 0 <= k < clauses.len() implies (#[trigger] clauses[k]).holds(job) by {
            if k < a {
            } else if k < b {
            } else if k < c {
            } else if k < d {
            } else {
            }
        }
    }
}

impl JobQuery {
    /// The read predicate of the query, made at `now`.
    pub fn builder_at(&self, now: Timestamp) -> (filter: JobFilter)
        ensures
            filter@ == filter_of(self@, now),
            forall|job: JobView| #[trigger] filter@.admits(job) <==> self@.admits(job, now),
    {
        let mut clauses: Vec<Clause> = Vec::new();
        if let Some(team_id) = self.team_id {
            clauses.push(Clause::TeamId(team_id));
        }
        if let Some(function_id) = self.function_id {
            clauses.push(Clause::FunctionId(function_id));
        }
        if let Some(name) = &self.queue_name {
            clauses.push(Clause::QueueName(name.clone()));
        }
        if let Some(state) = self.state {
            clauses.push(Clause::State(state));
        }
        let cutoff = match self.scheduled_by {
            Some(instant) => instant,
            None => now,
        };
        clauses.push(Clause::ScheduledBy(cutoff));
        let limit = match self.limit {
            Some(limit) => limit,
            None => DEFAULT_LIMIT,
        };
        let filter = JobFilter { clauses, limit };
        proof {
            assert(filter@.clauses =~= filter_of(self@, now).clauses);
            assert forall|job: JobView| #[trigger]
                filter@.admits(job) <==> self@.admits(job, now) by {
                lemma_filter_meaning(self@, now, job);
            }
        }
        filter
    }

    /// The read predicate of the query, made at the reading of the clock.
    ///
    /// Where the query names its own cutoff, the clock has no part in the predicate.
    pub fn builder(&self) -> (filter: JobFilter)
        ensures
            exists|now: Timestamp| filter@ == #[trigger] filter_of(self@, now),
            self.scheduled_by is Some ==> forall|now: Timestamp|
                filter@ == #[trigger] filter_of(self@, now),
    {
        let now = utc_now();
        self.builder_at(now)
    }
}

} // verus!
