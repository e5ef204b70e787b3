use crate::ident::Id;
use crate::state::JobState;
use crate::time::Timestamp;
use vstd::prelude::*;

verus! {

/// What the purged jobs of one bucket have in common.
pub struct BucketKey {
    pub hour: Timestamp,
    pub team_id: i64,
    pub function_id: Option<Id>,
    pub state: JobState,
}

/// How many finished jobs of one bucket were purged.
#[derive(Debug, Clone, Copy, PartialEq, Eq)]
pub struct AggregatedDelete {
    /// The hour in which the jobs last changed state.
    pub hour: Timestamp,
    pub team_id: i64,
    pub function_id: Option<Id>,
    /// The state in which the jobs ended.
    pub state: JobState,
    pub count: i64,
}

impl AggregatedDelete {
    /// The bucket that the count is for.
    pub open spec fn key(self) -> BucketKey {
        BucketKey {
            hour: self.hour,
            team_id: self.team_id,
            function_id: self.function_id,
            state: self.state,
        }
    }
}

/// The sum of the counts of the buckets that are for `state`.
pub open spec fn count_sum_of(buckets: Seq<AggregatedDelete>, state: JobState) -> int
    decreases buckets.len(),
{
    if buckets.len() == 0 {
        0
    } else if buckets.last().state == state {
        count_sum_of(buckets.drop_last(), state) + buckets.last().count
    } else {
        count_sum_of(buckets.drop_last(), state)
    }
}

/// The sum of the counts of all buckets.
pub open spec fn count_sum(buckets: Seq<AggregatedDelete>) -> int
    decreases buckets.len(),
{
    if buckets.len() == 0 {
        0
    } else {
        count_sum(buckets.drop_last()) + buckets.last().count
    }
}

/// The report of a purge: one count for each bucket that lost a job.
#[derive(Debug, Clone, PartialEq, Eq)]
pub struct DeleteSet {
    pub deletes: Vec<AggregatedDelete>,
}

impl DeleteSet {
    /// The number of purged jobs that ended in `state`.
    pub open spec fn total_of(&self, state: JobState) -> int {
        count_sum_of(self.deletes@, state)
    }

    /// Whether the counts for `state` can be added up one after the other in 64 bits.
    pub open spec fn sums_fit(&self, state: JobState) -> bool {
        forall|n: int|
            0 <= n <= self.deletes@.len() ==> i64::MIN <= #[trigger] count_sum_of(
                self.deletes@.take(n),
                state,
            ) <= i64::MAX
    }

    /// A report of the given counts.
    pub fn new(deletes: Vec<AggregatedDelete>) -> (set: DeleteSet)
        ensures
            set.deletes == deletes,
    {
        DeleteSet { deletes }
    }

    /// Decides [`DeleteSet::sums_fit`].
    pub fn can_total(&self, state: JobState) -> (fit: bool)
        ensures
            fit == self.sums_fit(state),
    {
        let mut sum: i64 = 0;
        let mut i: usize = 0;
        while i < self.deletes.len()
            invariant
                i <= self.deletes.len(),
                sum == count_sum_of(self.deletes@.take(i as int), state),
                forall|n: int|
                    0 <= n <= i ==> i64::MIN <= #[trigger] count_sum_of(
                        self.deletes@.take(n),
                        state,
                    ) <= i64::MAX,
            decreases self.deletes.len() - i,
        {
            proof {
                lemma_sum_step(self.deletes@, state, i as int);
            }
            if self.deletes[i].state == state {
                match sum.checked_add(self.deletes[i].count) {
                    Some(next) => {
                        sum = next;
                    },
                    None => {
                        return false;
                    },
                }
            }
            i += 1;
        }
        true
    }

    /// The sum of the counts for `state`.
    fn total(&self, state: JobState) -> (sum: i64)
        requires
            self.sums_fit(state),
        ensures
            sum == self.total_of(state),
    {
        let mut sum: i64 = 0;
        let mut i: usize = 0;
        while i < self.deletes.len()
            invariant
                i <= self.deletes.len(),
                self.sums_fit(state),
                sum == count_sum_of(self.deletes@.take(i as int), state),
            decreases self.deletes.len() - i,
        {
            proof {
                lemma_sum_step(self.deletes@, state, i as int);
                assert(i64::MIN <= count_sum_of(self.deletes@.take(i + 1), state) <= i64::MAX);
            }
            if self.deletes[i].state == state {
                sum = sum + self.deletes[i].count;
            }
            i += 1;
        }
        assert(self.deletes@.take(self.deletes@.len() as int) =~= self.deletes@);
        sum
    }

    /// The number of purged jobs that had completed.
    pub fn total_completed(&self) -> (sum: i64)
        requires
            self.sums_fit(JobState::Completed),
        ensures
            sum == self.total_of(JobState::Completed),
    {
        self.total(JobState::Completed)
    }

    /// The number of purged jobs that had failed.
    pub fn total_failed(&self) -> (sum: i64)
        requires
            self.sums_fit(JobState::Failed),
        ensures
            sum == self.total_of(JobState::Failed),
    {
        self.total(JobState::Failed)
    }
}

/// The sum over the first `i + 1` buckets, from the sum over the first `i`.
pub proof fn lemma_sum_step(buckets: Seq<AggregatedDelete>, state: JobState, i: int)
    requires
        0 <= i < buckets.len(),
    ensures
        count_sum_of(buckets.take(i + 1), state) == count_sum_of(buckets.take(i), state) + (if
            buckets[i].state == state {
            buckets[i].count as int
        } else {
            0
        }),
        count_sum(buckets.take(i + 1)) == count_sum(buckets.take(i)) + buckets[i].count,
{
    assert(buckets.take(i + 1).drop_last() =~= buckets.take(i));
    assert(buckets.take(i + 1).last() == buckets[i]);
}

} // verus!
