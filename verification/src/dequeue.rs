use crate::error::StoreError;
use crate::ident::Id;
use crate::job::{views, Job, JobView};
use crate::state::JobState;
use crate::store::{find_lock, rows_valid};
use crate::time::Timestamp;
use vstd::prelude::*;

verus! {

/// Whether a worker that polls `queue` at `now` may be given the job.
pub open spec fn eligible(job: JobView, queue: Seq<char>, now: Timestamp) -> bool {
    &&& job.queue_name == queue
    &&& job.state == JobState::Available
    &&& job.scheduled <= now
}

/// Whether job `a` is served before job `b`: by ascending priority, then by the earlier
/// schedule, then by the earlier creation, then by the lower id.
///
/// Among jobs with different ids this is a strict total order, so the order in which a
/// queue is served never depends on where its rows are stored.
pub open spec fn precedes(a: JobView, b: JobView) -> bool {
    ||| a.priority < b.priority
    ||| a.priority == b.priority && a.scheduled < b.scheduled
    ||| a.priority == b.priority && a.scheduled == b.scheduled && a.created < b.created
    ||| a.priority == b.priority && a.scheduled == b.scheduled && a.created == b.created && a.id
        < b.id
}

/// Whether `picks` lists, most urgent first, the rows that a worker polling `queue` at
/// `now` for at most `limit` jobs is given.
///
/// Every pick is eligible, the picks are in serving order, and an eligible row is passed
/// over only when the limit is reached, and then only in favour of rows that are served
/// before it.
pub open spec fn is_selection(
    rows: Seq<JobView>,
    queue: Seq<char>,
    now: Timestamp,
    limit: nat,
    picks: Seq<int>,
) -> bool {
    &&& picks.len() <= limit
    &&& forall|p: int|
        0 <= p < picks.len() ==> 0 <= #[trigger] picks[p] < rows.len() && eligible(
            rows[picks[p]],
            queue,
            now,
        )
    &&& forall|p: int, q: int|
        0 <= p < q < picks.len() ==> precedes(rows[#[trigger] picks[p]], rows[#[trigger] picks[q]])
    &&& forall|i: int|
        0 <= i < rows.len() && eligible(#[trigger] rows[i], queue, now) && !picks.contains(i)
            ==> picks.len() == limit && forall|p: int|
            0 <= p < picks.len() ==> precedes(rows[#[trigger] picks[p]], rows[i])
}

/// The job after it was leased at `now` under the lock token `token`.
pub open spec fn leased(job: JobView, token: Id, now: Timestamp) -> JobView {
    JobView {
        state: JobState::Running,
        lock_id: Some(token),
        last_heartbeat: Some(now),
        transition_count: (job.transition_count + 1) as i16,
        last_transition: now,
        ..job
    }
}

/// Whether `tokens` can serve as new lock tokens: they differ from each other and from
/// every lock token that a row carries.
pub open spec fn tokens_fresh(rows: Seq<JobView>, tokens: Seq<Id>) -> bool {
    &&& forall|a: int, b: int| 0 <= a < b < tokens.len() ==> tokens[a] != tokens[b]
    &&& forall|a: int, i: int|
        0 <= a < tokens.len() && 0 <= i < rows.len() ==> (#[trigger] rows[i]).lock_id != Some(
            #[trigger] tokens[a],
        )
}

/// How leasing the rows `picks`, in that order, with the lock tokens `tokens` at `now`
/// takes the rows from `before` to `after`, with the result `r`.
///
/// Where a picked row's transition counter is at the top of its range, the counter
/// overflows. Otherwise, where the tokens that would be used are not fresh, the store
/// rejects the write. Otherwise each picked row is leased under its own token and handed
/// back in the order of the picks. No other row changes, and a refusal changes none.
pub open spec fn lease_outcome(
    before: Seq<JobView>,
    after: Seq<JobView>,
    r: Result<Seq<JobView>, StoreError>,
    picks: Seq<int>,
    tokens: Seq<Id>,
    now: Timestamp,
) -> bool {
    let full = exists|p: int|
        0 <= p < picks.len() && (#[trigger] before[picks[p]]).transition_count == i16::MAX;
    match r {
        Ok(out) => {
            &&& !full
            &&& picks.len() <= tokens.len()
            &&& tokens_fresh(before, tokens.take(picks.len() as int))
            &&& after.len() == before.len()
            &&& out.len() == picks.len()
            &&& forall|p: int|
                0 <= p < picks.len() ==> #[trigger] after[picks[p]] == leased(
                    before[picks[p]],
                    tokens[p],
                    now,
                ) && out[p] == after[picks[p]]
            &&& forall|i: int|
                0 <= i < before.len() && !picks.contains(i) ==> #[trigger] after[i] == before[i]
        },
        Err(StoreError::CounterOverflow) => after == before && full,
        Err(StoreError::StorageError) => {
            &&& after == before
            &&& !full
            &&& picks.len() <= tokens.len()
            &&& !tokens_fresh(before, tokens.take(picks.len() as int))
        },
        Err(_) => false,
    }
}

/// How a worker's poll of `queue` at `now` for at most `limit` jobs, served with the lock
/// tokens `tokens`, takes the rows from `before` to `after`, with the result `r`.
pub open spec fn dequeue_outcome(
    before: Seq<JobView>,
    after: Seq<JobView>,
    r: Result<Seq<JobView>, StoreError>,
    queue: Seq<char>,
    limit: nat,
    now: Timestamp,
    tokens: Seq<Id>,
) -> bool {
    exists|picks: Seq<int>|
        {
            &&& #[trigger] is_selection(before, queue, now, limit, picks)
            &&& lease_outcome(before, after, r, picks, tokens, now)
        }
}

/// Row numbers as integers.
pub open spec fn indices(picks: Seq<usize>) -> Seq<int> {
    Seq::new(picks.len(), |p: int| picks[p] as int)
}

/// A row number as an integer, where there is one.
pub open spec fn as_floor(floor: Option<usize>) -> Option<int> {
    match floor {
        Some(f) => Some(f as int),
        None => None,
    }
}

/// Whether row `i` can be the next pick after the row `floor`: it is eligible and, where
/// there is a floor, served after it.
pub open spec fn candidate(
    rows: Seq<JobView>,
    queue: Seq<char>,
    now: Timestamp,
    floor: Option<int>,
    i: int,
) -> bool {
    &&& 0 <= i < rows.len()
    &&& eligible(rows[i], queue, now)
    &&& floor matches Some(f) ==> precedes(rows[f], rows[i])
}

/// Decides [`eligible`].
pub fn is_eligible(job: &Job, queue: &String, now: Timestamp) -> (b: bool)
    ensures
        b == eligible(job@, queue@, now),
{
    job.state == JobState::Available && job.scheduled <= now && job.queue_name == *queue
}

/// Decides [`precedes`].
pub fn comes_before(a: &Job, b: &Job) -> (r: bool)
    ensures
        r == precedes(a@, b@),
{
    if a.priority != b.priority {
        a.priority < b.priority
    } else if a.scheduled != b.scheduled {
        a.scheduled < b.scheduled
    } else if a.created != b.created {
        a.created < b.created
    } else {
        a.id < b.id
    }
}

/// The most urgent of the rows that can be picked after `floor`.
fn most_urgent(jobs: &Vec<Job>, queue: &String, now: Timestamp, floor: Option<usize>) -> (best:
    Option<usize>)
    requires
        rows_valid(views(jobs@)),
        floor matches Some(f) ==> f < jobs.len(),
    ensures
        ({
            let rows = views(jobs@);
            match best {
                Some(b) => {
                    &&& candidate(rows, queue@, now, as_floor(floor), b as int)
                    &&& forall|i: int|
                        #[trigger] candidate(rows, queue@, now, as_floor(floor), i) && i != b
                            ==> precedes(rows[b as int], rows[i])
                },
                None => forall|i: int| !#[trigger] candidate(rows, queue@, now, as_floor(floor), i),
            }
        }),
{
    let ghost rows = views(jobs@);
    let ghost fl = as_floor(floor);
    let mut best: Option<usize> = None;
    let mut i: usize = 0;
    while i < jobs.len()
        invariant
            i <= jobs.len(),
            rows == views(jobs@),
            rows_valid(rows),
            floor matches Some(f) ==> f < jobs.len(),
            fl == as_floor(floor),
            match best {
                Some(b) => {
                    &&& b < i
                    &&& candidate(rows, queue@, now, fl, b as int)
                    &&& forall|k: int|
                        0 <= k < i && #[trigger] candidate(rows, queue@, now, fl, k) && k != b
                            ==> precedes(rows[b as int], rows[k])
                },
                None => forall|k: int| 0 <= k < i ==> !#[trigger] candidate(rows, queue@, now, fl, k),
            },
        decreases jobs.len() - i,
    {
        let open = is_eligible(&jobs[i], queue, now) && match floor {
            Some(f) => comes_before(&jobs[f], &jobs[i]),
            None => true,
        };
        assert(open == candidate(rows, queue@, now, fl, i as int));
        if open {
            match best {
                Some(b) => {
                    assert(rows[b as int].id != rows[i as int].id);
                    if comes_before(&jobs[i], &jobs[b]) {
                        best = Some(i);
                    }
                },
                None => {
                    best = Some(i);
                },
            }
        }
        i += 1;
    }
    best
}

/// The rows that a worker polling `queue` at `now` for at most `limit` jobs is given,
/// most urgent first.
pub(crate) fn select(jobs: &Vec<Job>, queue: &String, limit: usize, now: Timestamp) -> (picks:
    Vec<usize>)
    requires
        rows_valid(views(jobs@)),
    ensures
        is_selection(views(jobs@), queue@, now, limit as nat, indices(picks@)),
        forall|p: int| 0 <= p < picks.len() ==> picks[p] < jobs.len(),
{
    let ghost rows = views(jobs@);
    let mut picks: Vec<usize> = Vec::new();
    let mut floor: Option<usize> = None;
    let mut done = false;
    while picks.len() < limit && !done
        invariant
            rows == views(jobs@),
            rows_valid(rows),
            picks.len() <= limit,
            floor == (if picks.len() == 0 {
                None
            } else {
                Some(picks[picks.len() - 1])
            }),
            forall|p: int|
                0 <= p < picks.len() ==> 0 <= #[trigger] picks[p] < rows.len() && eligible(
                    rows[picks[p] as int],
                    queue@,
                    now,
                ),
            forall|p: int, q: int|
                0 <= p < q < picks.len() ==> precedes(
                    rows[#[trigger] picks[p] as int],
                    rows[#[trigger] picks[q] as int],
                ),
            forall|i: int|
                0 <= i < rows.len() && eligible(#[trigger] rows[i], queue@, now) && !indices(
                    picks@,
                ).contains(i) ==> !done && forall|p: int|
                    0 <= p < picks.len() ==> precedes(rows[#[trigger] picks[p] as int], rows[i]),
        decreases
                limit - picks.len(),
                if done {
                    0int
                } else {
                    1int
                },
    {
        let ghost fl = as_floor(floor);
        let ghost old_picks = picks@;
        match most_urgent(jobs, queue, now, floor) {
            Some(b) => {
                picks.push(b);
                floor = Some(b);
                proof {
                    assert forall|i: int|
                        0 <= i < rows.len() && eligible(#[trigger] rows[i], queue@, now)
                            && !indices(picks@).contains(i) implies forall|p: int|
                        0 <= p < picks.len() ==> precedes(
                            rows[#[trigger] picks[p] as int],
                            rows[i],
                        ) by {
                        assert(indices(picks@)[old_picks.len() as int] == b);
                        assert(i != b);
                        if !indices(old_picks).contains(i) {
                            assert(candidate(rows, queue@, now, fl, i));
                        } else {
                            let p = choose|p: int|
                                0 <= p < old_picks.len() && indices(old_picks)[p] == i;
                            assert(indices(picks@)[p] == i);
                        }
                    }
                }
            },
            None => {
                done = true;
                proof {
                    assert forall|i: int|
                        0 <= i < rows.len() && eligible(
                            #[trigger] rows[i],
                            queue@,
                            now,
                        ) implies indices(picks@).contains(i) by {
                        assert(!candidate(rows, queue@, now, fl, i));
                        if !indices(picks@).contains(i) {
                            assert(picks.len() > 0);
                            assert(precedes(rows[picks[picks.len() - 1] as int], rows[i]));
                        }
                    }
                }
            },
        }
    }
    proof {
        let ps = indices(picks@);
        assert forall|i: int|
            0 <= i < rows.len() && eligible(#[trigger] rows[i], queue@, now) && !ps.contains(
                i,
            ) implies picks.len() == limit && forall|p: int|
            0 <= p < ps.len() ==> precedes(rows[#[trigger] ps[p]], rows[i]) by {
            assert forall|p: int| 0 <= p < ps.len() implies precedes(
                rows[#[trigger] ps[p]],
                rows[i],
            ) by {
                assert(precedes(rows[picks[p] as int], rows[i]));
            }
        }
        assert forall|p: int, q: int| 0 <= p < q < ps.len() implies precedes(
            rows[#[trigger] ps[p]],
            rows[#[trigger] ps[q]],
        ) by {
            assert(precedes(rows[picks[p] as int], rows[picks[q] as int]));
        }
        assert forall|p: int| 0 <= p < ps.len() implies 0 <= #[trigger] ps[p] < rows.len()
            && eligible(rows[ps[p]], queue@, now) by {
            assert(0 <= picks[p] < rows.len());
        }
    }
    picks
}

/// The picks of a selection are different rows.
pub proof fn lemma_picks_distinct(
    rows: Seq<JobView>,
    queue: Seq<char>,
    now: Timestamp,
    limit: nat,
    picks: Seq<usize>,
)
    requires
        is_selection(rows, queue, now, limit, indices(picks)),
    ensures
        forall|p: int, q: int| 0 <= p < q < picks.len() ==> picks[p] != picks[q],
        forall|p: int| 0 <= p < picks.len() ==> picks[p] < rows.len(),
{
    let ps = indices(picks);
    assert forall|p: int, q: int| 0 <= p < q < picks.len() implies picks[p] != picks[q] by {
        assert(precedes(rows[ps[p]], rows[ps[q]]));
    }
    assert forall|p: int| 0 <= p < picks.len() implies picks[p] < rows.len() by {
        assert(0 <= ps[p] < rows.len());
    }
}

/// Whether row `i` is among the first `upto` picks.
pub open spec fn picked(picks: Seq<int>, upto: int, i: int) -> bool {
    exists|q: int| 0 <= q < upto && #[trigger] picks[q] == i
}

/// Leasing picked rows under fresh tokens keeps the rows valid.
pub proof fn lemma_lease_keeps_valid(
    before: Seq<JobView>,
    after: Seq<JobView>,
    picks: Seq<int>,
    tokens: Seq<Id>,
    now: Timestamp,
)
    requires
        rows_valid(before),
        picks.len() <= tokens.len(),
        tokens_fresh(before, tokens.take(picks.len() as int)),
        after.len() == before.len(),
        forall|p: int| 0 <= p < picks.len() ==> 0 <= #[trigger] picks[p] < before.len(),
        forall|p: int, q: int|
            0 <= p < q < picks.len() ==> #[trigger] picks[p] != #[trigger] picks[q],
        forall|p: int|
            0 <= p < picks.len() ==> (#[trigger] before[picks[p]]).transition_count < i16::MAX,
        forall|p: int|
            0 <= p < picks.len() ==> #[trigger] after[picks[p]] == leased(
                before[picks[p]],
                tokens[p],
                now,
            ),
        forall|i: int|
            0 <= i < before.len() && !picked(picks, picks.len() as int, i) ==> #[trigger] after[i]
                == before[i],
    ensures
        rows_valid(after),
{
    let n = picks.len() as int;
    let used = tokens.take(n);
    assert forall|i: int| 0 <= i < after.len() implies (#[trigger] after[i]).valid() && after[i].id
        == before[i].id by {
        assert(before[i].valid());
        if picked(picks, n, i) {
            let q = choose|q: int| 0 <= q < n && #[trigger] picks[q] == i;
            assert(after[picks[q]] == leased(before[picks[q]], tokens[q], now));
            assert(before[picks[q]].transition_count < i16::MAX);
        }
    }
    assert forall|i: int, j: int|
        0 <= i < after.len() && 0 <= j < after.len() && i != j && after[i].lock_id is Some implies (
    #[trigger] after[i]).lock_id != (#[trigger] after[j]).lock_id by {
        if picked(picks, n, i) {
            let q = choose|q: int| 0 <= q < n && #[trigger] picks[q] == i;
            assert(after[picks[q]] == leased(before[picks[q]], tokens[q], now));
            assert(used[q] == tokens[q]);
            if picked(picks, n, j) {
                let r = choose|r: int| 0 <= r < n && #[trigger] picks[r] == j;
                assert(after[picks[r]] == leased(before[picks[r]], tokens[r], now));
                assert(used[r] == tokens[r]);
                assert(q != r);
            } else {
                assert(before[j].lock_id != Some(used[q]));
            }
        } else {
            if picked(picks, n, j) {
                let r = choose|r: int| 0 <= r < n && #[trigger] picks[r] == j;
                assert(after[picks[r]] == leased(before[picks[r]], tokens[r], now));
                assert(used[r] == tokens[r]);
                assert(before[i].lock_id != Some(used[r]));
            } else {
                assert(before[i].lock_id != before[j].lock_id);
            }
        }
    }
    assert forall|i: int, j: int| 0 <= i < j < after.len() implies (#[trigger] after[i]).id != (
    #[trigger] after[j]).id by {
        assert(before[i].id != before[j].id);
    }
}

/// Whether the first `n` of `tokens` can serve as new lock tokens.
fn all_fresh(jobs: &Vec<Job>, tokens: &Vec<Id>, n: usize) -> (fresh: bool)
    requires
        n <= tokens.len(),
    ensures
        fresh == tokens_fresh(views(jobs@), tokens@.take(n as int)),
{
    let ghost rows = views(jobs@);
    let ghost used = tokens@.take(n as int);
    let mut a: usize = 0;
    while a < n
        invariant
            a <= n <= tokens.len(),
            rows == views(jobs@),
            used == tokens@.take(n as int),
            forall|x: int, y: int| 0 <= x < y < a ==> used[x] != used[y],
            forall|x: int, i: int|
                0 <= x < a && 0 <= i < rows.len() ==> (#[trigger] rows[i]).lock_id != Some(
                    #[trigger] used[x],
                ),
        decreases n - a,
    {
        let token = tokens[a];
        assert(used[a as int] == token);
        match find_lock(jobs, token) {
            Some(i) => {
                assert(rows[i as int].lock_id == Some(used[a as int]));
                return false;
            },
            None => {
                assert forall|i: int| 0 <= i < rows.len() implies (#[trigger] rows[i]).lock_id
                    != Some(token) by {
                    assert(jobs[i].lock_id != Some(token));
                }
            },
        }
        let mut b: usize = 0;
        while b < a
            invariant
                b <= a < n <= tokens.len(),
                used == tokens@.take(n as int),
                token == tokens[a as int],
                forall|x: int| 0 <= x < b ==> used[x] != token,
            decreases a - b,
        {
            if tokens[b] == token {
                assert(used[b as int] == used[a as int]);
                return false;
            }
            b += 1;
        }
        a += 1;
    }
    true
}

/// Leases the rows `picks`, in that order, each under its own token of `tokens`.
pub(crate) fn lease(jobs: &mut Vec<Job>, picks: &Vec<usize>, tokens: &Vec<Id>, now: Timestamp) -> (r:
    Result<Vec<Job>, StoreError>)
    requires
        rows_valid(views(old(jobs)@)),
        picks.len() <= tokens.len(),
        forall|p: int| 0 <= p < picks.len() ==> picks[p] < old(jobs).len(),
        forall|p: int, q: int| 0 <= p < q < picks.len() ==> picks[p] != picks[q],
    ensures
        rows_valid(views(final(jobs)@)),
        lease_outcome(
            views(old(jobs)@),
            views(final(jobs)@),
            crate::store::jobs_result(r),
            indices(picks@),
            tokens@,
            now,
        ),
{
    let ghost before = views(jobs@);
    let ghost ps = indices(picks@);
    let n = picks.len();
    let mut c: usize = 0;
    while c < n
        invariant
            c <= n == picks.len(),
            before == views(jobs@),
            rows_valid(before),
            ps == indices(picks@),
            forall|p: int| 0 <= p < picks.len() ==> picks[p] < jobs.len(),
            forall|p: int| 0 <= p < c ==> (#[trigger] before[ps[p]]).transition_count < i16::MAX,
        decreases n - c,
    {
        if jobs[picks[c]].transition_count == i16::MAX {
            assert(before[ps[c as int]].transition_count == i16::MAX);
            return Err(StoreError::CounterOverflow);
        }
        c += 1;
    }
    if !all_fresh(jobs, tokens, n) {
        return Err(StoreError::StorageError);
    }
    let mut out: Vec<Job> = Vec::new();
    let mut p: usize = 0;
    while p < n
        invariant
            p <= n == picks.len() <= tokens.len(),
            ps == indices(picks@),
            before == views(old(jobs)@),
            rows_valid(before),
            views(jobs@).len() == before.len(),
            jobs.len() == before.len(),
            out.len() == p,
            forall|q: int| 0 <= q < picks.len() ==> picks[q] < jobs.len(),
            forall|q: int, r: int| 0 <= q < r < picks.len() ==> picks[q] != picks[r],
            forall|q: int| 0 <= q < n ==> (#[trigger] before[ps[q]]).transition_count < i16::MAX,
            forall|q: int|
                0 <= q < p ==> #[trigger] views(jobs@)[ps[q]] == leased(
                    before[ps[q]],
                    tokens[q],
                    now,
                ) && views(out@)[q] == views(jobs@)[ps[q]],
            forall|i: int|
                0 <= i < before.len() && !picked(ps, p as int, i) ==> #[trigger] views(jobs@)[i]
                    == before[i],
        decreases n - p,
    {
        let i = picks[p];
        let token = tokens[p];
        let ghost prev = views(jobs@);
        let ghost prev_out = views(out@);
        assert(!picked(ps, p as int, i as int)) by {
            if picked(ps, p as int, i as int) {
                let q = choose|q: int| 0 <= q < p && #[trigger] ps[q] == i;
                assert(picks[q] != picks[p as int]);
            }
        }
        assert(prev[i as int] == before[i as int]);
        assert(before[ps[p as int]].transition_count < i16::MAX);
        jobs[i].lock_id = Some(token);
        jobs[i].last_heartbeat = Some(now);
        jobs[i].state = JobState::Running;
        jobs[i].transition_count = jobs[i].transition_count + 1;
        jobs[i].last_transition = now;
        let copy = jobs[i].duplicate();
        out.push(copy);
        proof {
            let cur = views(jobs@);
            assert(cur =~= prev.update(i as int, leased(before[i as int], token, now)));
            assert(views(out@) =~= prev_out.push(cur[i as int]));
            assert forall|q: int| 0 <= q < p + 1 implies #[trigger] cur[ps[q]] == leased(
                before[ps[q]],
                tokens[q],
                now,
            ) && views(out@)[q] == cur[ps[q]] by {
                if q < p {
                    assert(picks[q] != picks[p as int]);
                    assert(prev[ps[q]] == leased(before[ps[q]], tokens[q], now));
                }
            }
            assert forall|k: int|
                0 <= k < before.len() && !picked(ps, p + 1, k) implies #[trigger] cur[k]
                == before[k] by {
                assert(ps[p as int] == i);
                assert(k != i);
                if picked(ps, p as int, k) {
                    let q = choose|q: int| 0 <= q < p && #[trigger] ps[q] == k;
                    assert(picked(ps, p + 1, k));
                }
            }
        }
        p += 1;
    }
    proof {
        let after = views(jobs@);
        assert forall|k: int| 0 <= k < before.len() && !ps.contains(k) implies #[trigger] after[k]
            == before[k] by {
            if picked(ps, n as int, k) {
                let q = choose|q: int| 0 <= q < n && #[trigger] ps[q] == k;
                assert(ps.contains(k));
            }
        }
        assert forall|k: int|
            0 <= k < before.len() && !picked(ps, ps.len() as int, k) implies #[trigger] after[k]
            == before[k] by {
            assert(!picked(ps, n as int, k));
        }
        assert forall|q: int, r: int| 0 <= q < r < ps.len() implies #[trigger] ps[q]
            != #[trigger] ps[r] by {
            assert(picks[q] != picks[r]);
        }
        lemma_lease_keeps_valid(before, after, ps, tokens@, now);
        assert(!(exists|q: int|
            0 <= q < ps.len() && (#[trigger] before[ps[q]]).transition_count == i16::MAX));
    }
    Ok(out)
}

} // verus!
