use cyclotron_core::janitor::{is_purgeable, is_stale};
use cyclotron_core::{
    AggregatedDelete, DeleteSet, Job, JobInit, JobState, JobStore, JobUpdate, StoreError, Timestamp,
};

const EPOCH: Timestamp = 1_704_110_400_000_000; // 2024-01-01T12:00:00Z
const SEC: i64 = 1_000_000;
const HOUR: i64 = 3_600 * SEC;

fn plain(queue: &str, team_id: i32, function_id: Option<u128>) -> JobInit {
    JobInit {
        team_id,
        queue_name: queue.to_string(),
        priority: 0,
        scheduled: i64::MIN,
        function_id,
        vm_state: None,
        parameters: None,
        blob: None,
        metadata: None,
    }
}

/// Enqueues a job under `id`, leases it under the token `id + 1000` at `leased_at`.
fn add_running(store: &mut JobStore, id: u128, team_id: i32, function_id: Option<u128>, leased_at: Timestamp) {
    let queue = format!("queue-{}", id);
    store
        .enqueue_at(plain(&queue, team_id, function_id), id, leased_at)
        .unwrap();
    let out = store
        .dequeue_at(&queue, 1, leased_at, &vec![id + 1000])
        .unwrap();
    assert_eq!(out.len(), 1);
}

/// Finishes the job `id` in `state` at `at`.
fn finish(store: &mut JobStore, id: u128, state: JobState, at: Timestamp) {
    let mut patch = JobUpdate::new_at(id + 1000, at);
    patch.state = Some(state);
    store.update_at(patch, at).unwrap();
}

#[test]
fn reclaim_takes_back_silent_leases_only() {
    let mut store = JobStore::new();
    add_running(&mut store, 1, 1, None, EPOCH); // heartbeat at EPOCH
    add_running(&mut store, 2, 1, None, EPOCH + 50 * SEC); // heartbeat within the timeout
    add_running(&mut store, 3, 1, None, EPOCH + 10 * SEC);
    store
        .enqueue_at(plain("idle", 1, None), 4, EPOCH)
        .unwrap();
    let before = store.rows();
    let now = EPOCH + 100 * SEC;
    let timeout = 60 * SEC;
    assert_eq!(store.reclaim_expired_leases_at(timeout, now), Ok(2));
    let after = store.rows();
    for k in [0usize, 2] {
        assert_eq!(
            after[k],
            Job {
                state: JobState::Available,
                lock_id: None,
                janitor_touch_count: 1,
                transition_count: 2,
                last_transition: now,
                ..before[k].clone()
            }
        );
        assert_eq!(after[k].janitor_touch_count, before[k].janitor_touch_count + 1);
    }
    assert_eq!(after[1], before[1]);
    assert_eq!(after[3], before[3]);
}

#[test]
fn reclaim_boundary_is_strict() {
    let mut store = JobStore::new();
    add_running(&mut store, 1, 1, None, EPOCH);
    // The heartbeat is exactly `now - timeout`: not older.
    assert_eq!(
        store.reclaim_expired_leases_at(60 * SEC, EPOCH + 60 * SEC),
        Ok(0)
    );
    assert_eq!(store.get(1).unwrap().state, JobState::Running);
    assert_eq!(
        store.reclaim_expired_leases_at(60 * SEC, EPOCH + 60 * SEC + 1),
        Ok(1)
    );
    assert_eq!(store.get(1).unwrap().state, JobState::Available);
}

#[test]
fn reclaim_is_idempotent() {
    let mut store = JobStore::new();
    add_running(&mut store, 1, 1, None, EPOCH);
    add_running(&mut store, 2, 1, None, EPOCH);
    let now = EPOCH + HOUR;
    assert_eq!(store.reclaim_expired_leases_at(SEC, now), Ok(2));
    let once = store.rows();
    assert_eq!(store.reclaim_expired_leases_at(SEC, now), Ok(0));
    assert_eq!(store.rows(), once);
}

#[test]
fn a_worker_whose_lease_was_reclaimed_sees_an_invalid_lease() {
    let mut store = JobStore::new();
    add_running(&mut store, 1, 1, None, EPOCH);
    assert_eq!(store.reclaim_expired_leases_at(SEC, EPOCH + HOUR), Ok(1));
    let before = store.rows();
    assert_eq!(
        store.heartbeat_at(1001, EPOCH + HOUR + 1),
        Err(StoreError::LeaseInvalid)
    );
    let mut patch = JobUpdate::new_at(1001, EPOCH + HOUR + 1);
    patch.state = Some(JobState::Completed);
    assert_eq!(
        store.update_at(patch, EPOCH + HOUR + 1),
        Err(StoreError::LeaseInvalid)
    );
    assert_eq!(store.rows(), before);
    // The job is handed out again.
    let out = store
        .dequeue_at("queue-1", 1, EPOCH + HOUR + 2, &vec![5])
        .unwrap();
    assert_eq!(out.len(), 1);
    assert_eq!(out[0].janitor_touch_count, 1);
    assert_eq!(out[0].transition_count, 3);
}

#[test]
fn a_late_heartbeat_that_arrives_first_keeps_the_lease() {
    let mut store = JobStore::new();
    add_running(&mut store, 1, 1, None, EPOCH);
    assert_eq!(store.heartbeat_at(1001, EPOCH + HOUR), Ok(()));
    assert_eq!(store.reclaim_expired_leases_at(SEC, EPOCH + HOUR), Ok(0));
    assert_eq!(store.get(1).unwrap().state, JobState::Running);
}

#[test]
fn reclaim_leaves_paused_and_finished_jobs() {
    let mut store = JobStore::new();
    add_running(&mut store, 1, 1, None, EPOCH);
    add_running(&mut store, 2, 1, None, EPOCH);
    add_running(&mut store, 3, 1, None, EPOCH);
    finish(&mut store, 1, JobState::Paused, EPOCH + 1);
    finish(&mut store, 2, JobState::Completed, EPOCH + 1);
    finish(&mut store, 3, JobState::Failed, EPOCH + 1);
    let before = store.rows();
    assert_eq!(store.reclaim_expired_leases_at(0, i64::MAX), Ok(0));
    assert_eq!(store.rows(), before);
}

#[test]
fn reclaim_with_extreme_arguments_does_not_wrap() {
    let mut store = JobStore::new();
    add_running(&mut store, 1, 1, None, EPOCH);
    // `now - timeout` is far below every instant.
    assert_eq!(store.reclaim_expired_leases_at(i64::MAX, i64::MIN), Ok(0));
    // `now - timeout` is far above every instant.
    assert_eq!(store.reclaim_expired_leases_at(i64::MIN, i64::MAX), Ok(1));
}

#[test]
fn reclaim_refuses_to_wrap_a_counter() {
    let mut store = JobStore::new();
    add_running(&mut store, 1, 1, None, EPOCH);
    add_running(&mut store, 2, 1, None, EPOCH);
    // Take the first job back and lease it again until its transition counter is at the
    // top: each round is a reclamation and a lease.
    let mut now = EPOCH;
    let mut token = 5000u128;
    for round in 0..16383i64 {
        now = EPOCH + (round + 1) * HOUR;
        assert_eq!(store.heartbeat_at(1002, now), Ok(()));
        assert_eq!(store.reclaim_expired_leases_at(SEC, now), Ok(1));
        token += 1;
        let out = store.dequeue_at("queue-1", 1, now, &vec![token]).unwrap();
        assert_eq!(out.len(), 1);
    }
    let row = store.get(1).unwrap();
    assert_eq!(row.janitor_touch_count, 16383);
    assert_eq!(row.transition_count, i16::MAX);
    // Both jobs are stale now; the first cannot be counted once more.
    let before = store.rows();
    assert_eq!(
        store.reclaim_expired_leases_at(SEC, now + HOUR),
        Err(StoreError::CounterOverflow)
    );
    assert_eq!(store.rows(), before);
}

#[test]
fn reclaim_with_the_clock() {
    let mut store = JobStore::new();
    add_running(&mut store, 1, 1, None, EPOCH);
    let fresh = store.enqueue(plain("live", 1, None)).unwrap();
    let out = store.dequeue("live", 1).unwrap();
    assert_eq!(out[0].id, fresh.id);
    // The first lease went silent in 2024; the second is a moment old.
    assert_eq!(store.reclaim_expired_leases(60 * SEC), Ok(1));
    assert_eq!(store.get(1).unwrap().state, JobState::Available);
    assert_eq!(store.get(fresh.id).unwrap().state, JobState::Running);
}

#[test]
fn purge_removes_old_finished_jobs_and_counts_them() {
    let mut store = JobStore::new();
    // Two completed jobs of team 1, function 9, in the hour of EPOCH.
    add_running(&mut store, 1, 1, Some(9), EPOCH);
    add_running(&mut store, 2, 1, Some(9), EPOCH);
    // One failed job of the same team and function in the same hour.
    add_running(&mut store, 3, 1, Some(9), EPOCH);
    // One completed job of another team.
    add_running(&mut store, 4, 2, Some(9), EPOCH);
    // One completed job without a function.
    add_running(&mut store, 5, 1, None, EPOCH);
    // One completed job in the next hour.
    add_running(&mut store, 6, 1, Some(9), EPOCH);
    // Jobs that stay: finished too late, running, available.
    add_running(&mut store, 7, 1, Some(9), EPOCH);
    add_running(&mut store, 8, 1, Some(9), EPOCH);
    store.enqueue_at(plain("idle", 1, Some(9)), 9, EPOCH).unwrap();

    finish(&mut store, 1, JobState::Completed, EPOCH + 5 * SEC);
    finish(&mut store, 2, JobState::Completed, EPOCH + HOUR - 1);
    finish(&mut store, 3, JobState::Failed, EPOCH + 7 * SEC);
    finish(&mut store, 4, JobState::Completed, EPOCH + 8 * SEC);
    finish(&mut store, 5, JobState::Completed, EPOCH + 9 * SEC);
    finish(&mut store, 6, JobState::Completed, EPOCH + HOUR);
    let cutoff = EPOCH + 2 * HOUR;
    finish(&mut store, 7, JobState::Completed, cutoff);

    let before = store.rows();
    let report = store.delete_completed_and_failed_jobs(cutoff);
    let after = store.rows();

    assert_eq!(
        after,
        vec![before[6].clone(), before[7].clone(), before[8].clone()]
    );
    assert_eq!(
        report.deletes,
        vec![
            AggregatedDelete {
                hour: EPOCH,
                team_id: 1,
                function_id: Some(9),
                state: JobState::Completed,
                count: 2,
            },
            AggregatedDelete {
                hour: EPOCH,
                team_id: 1,
                function_id: Some(9),
                state: JobState::Failed,
                count: 1,
            },
            AggregatedDelete {
                hour: EPOCH,
                team_id: 2,
                function_id: Some(9),
                state: JobState::Completed,
                count: 1,
            },
            AggregatedDelete {
                hour: EPOCH,
                team_id: 1,
                function_id: None,
                state: JobState::Completed,
                count: 1,
            },
            AggregatedDelete {
                hour: EPOCH + HOUR,
                team_id: 1,
                function_id: Some(9),
                state: JobState::Completed,
                count: 1,
            },
        ]
    );
    assert_eq!(report.total_completed(), 5);
    assert_eq!(report.total_failed(), 1);
    let removed = (before.len() - after.len()) as i64;
    assert_eq!(removed, 6);
    assert_eq!(report.total_completed() + report.total_failed(), removed);
    let sum: i64 = report.deletes.iter().map(|bucket| bucket.count).sum();
    assert_eq!(sum, removed);
}

#[test]
fn purge_cutoff_is_strict() {
    let mut store = JobStore::new();
    add_running(&mut store, 1, 1, None, EPOCH);
    finish(&mut store, 1, JobState::Failed, EPOCH + 10);
    let before = store.rows();
    let report = store.delete_completed_and_failed_jobs(EPOCH + 10);
    assert_eq!(report.deletes, vec![]);
    assert_eq!(store.rows(), before);
    let report = store.delete_completed_and_failed_jobs(EPOCH + 11);
    assert_eq!(report.deletes.len(), 1);
    assert_eq!(report.total_failed(), 1);
    assert_eq!(report.total_completed(), 0);
    assert_eq!(store.len(), 0);
}

#[test]
fn purge_never_removes_unfinished_jobs() {
    let mut store = JobStore::new();
    add_running(&mut store, 1, 1, None, EPOCH);
    add_running(&mut store, 2, 1, None, EPOCH);
    finish(&mut store, 2, JobState::Paused, EPOCH);
    store.enqueue_at(plain("idle", 1, None), 3, EPOCH).unwrap();
    let before = store.rows();
    let report = store.delete_completed_and_failed_jobs(i64::MAX);
    assert_eq!(report, DeleteSet::new(vec![]));
    assert_eq!(report.total_completed(), 0);
    assert_eq!(report.total_failed(), 0);
    assert_eq!(store.rows(), before);
}

#[test]
fn purge_is_idempotent() {
    let mut store = JobStore::new();
    add_running(&mut store, 1, 1, None, EPOCH);
    add_running(&mut store, 2, 1, None, EPOCH);
    finish(&mut store, 1, JobState::Completed, EPOCH);
    let first = store.delete_completed_and_failed_jobs(EPOCH + 1);
    assert_eq!(first.total_completed(), 1);
    let once = store.rows();
    let second = store.delete_completed_and_failed_jobs(EPOCH + 1);
    assert_eq!(second.deletes, vec![]);
    assert_eq!(store.rows(), once);
}

#[test]
fn purge_buckets_by_the_hour_before_the_epoch_too() {
    let mut store = JobStore::new();
    add_running(&mut store, 1, 3, None, -2 * HOUR);
    add_running(&mut store, 2, 3, None, -2 * HOUR);
    finish(&mut store, 1, JobState::Completed, -1);
    finish(&mut store, 2, JobState::Completed, -HOUR - 1);
    let report = store.delete_completed_and_failed_jobs(0);
    assert_eq!(
        report.deletes,
        vec![
            AggregatedDelete {
                hour: -HOUR,
                team_id: 3,
                function_id: None,
                state: JobState::Completed,
                count: 1,
            },
            AggregatedDelete {
                hour: -2 * HOUR,
                team_id: 3,
                function_id: None,
                state: JobState::Completed,
                count: 1,
            },
        ]
    );
}

#[test]
fn delete_set_totals_by_state() {
    let bucket = |state: JobState, count: i64| AggregatedDelete {
        hour: EPOCH,
        team_id: 1,
        function_id: None,
        state,
        count,
    };
    let set = DeleteSet::new(vec![
        bucket(JobState::Completed, 3),
        bucket(JobState::Failed, 4),
        bucket(JobState::Completed, 5),
        bucket(JobState::Running, 100),
        bucket(JobState::Failed, 6),
    ]);
    assert_eq!(set.deletes.len(), 5);
    assert!(set.can_total(JobState::Completed));
    assert!(set.can_total(JobState::Failed));
    assert_eq!(set.total_completed(), 8);
    assert_eq!(set.total_failed(), 10);
    assert_eq!(DeleteSet::new(vec![]).total_completed(), 0);
    assert_eq!(DeleteSet::new(vec![]).total_failed(), 0);
}

#[test]
fn delete_set_knows_when_its_counts_do_not_add_up_in_64_bits() {
    let bucket = |state: JobState, count: i64| AggregatedDelete {
        hour: EPOCH,
        team_id: 1,
        function_id: None,
        state,
        count,
    };
    let set = DeleteSet::new(vec![
        bucket(JobState::Completed, i64::MAX),
        bucket(JobState::Failed, i64::MAX),
        bucket(JobState::Completed, 1),
        bucket(JobState::Failed, -1),
    ]);
    assert!(!set.can_total(JobState::Completed));
    assert!(set.can_total(JobState::Failed));
    assert_eq!(set.total_failed(), i64::MAX - 1);
    // A sum that would fit in the end, but not on the way.
    let set = DeleteSet::new(vec![
        bucket(JobState::Completed, i64::MAX),
        bucket(JobState::Completed, 1),
        bucket(JobState::Completed, -1),
    ]);
    assert!(!set.can_total(JobState::Completed));
}

#[test]
fn staleness_and_purgeability_of_single_jobs() {
    let mut store = JobStore::new();
    add_running(&mut store, 1, 1, None, EPOCH);
    let running = store.get(1).unwrap();
    assert!(is_stale(&running, EPOCH + 61, 60));
    assert!(!is_stale(&running, EPOCH + 60, 60));
    assert!(!is_purgeable(&running, i64::MAX));
    finish(&mut store, 1, JobState::Completed, EPOCH + 5);
    let done = store.get(1).unwrap();
    assert!(!is_stale(&done, i64::MAX, 0));
    assert!(is_purgeable(&done, EPOCH + 6));
    assert!(!is_purgeable(&done, EPOCH + 5));
}
