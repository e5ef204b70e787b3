use cyclotron_core::{
    FieldUpdate, Job, JobInit, JobState, JobStore, JobUpdate, StoreError, Timestamp,
};

const T0: Timestamp = 1_700_000_000_000_000;
const SECOND: i64 = 1_000_000;

fn init(queue: &str, priority: i16, scheduled: Timestamp) -> JobInit {
    JobInit {
        team_id: 1,
        queue_name: queue.to_string(),
        priority,
        scheduled,
        function_id: None,
        vm_state: None,
        parameters: None,
        blob: None,
        metadata: None,
    }
}

fn full_init() -> JobInit {
    JobInit {
        team_id: 42,
        queue_name: "hog".to_string(),
        priority: -3,
        scheduled: T0 + 5 * SECOND,
        function_id: Some(0xfeed),
        vm_state: Some(vec![1, 2, 3]),
        parameters: Some(vec![]),
        blob: Some(vec![9; 4]),
        metadata: Some(vec![0xff]),
    }
}

/// A store with one job, leased under the token 900 at `T0`.
fn leased_store() -> (JobStore, Job) {
    let mut store = JobStore::new();
    store.enqueue_at(full_init(), 7, T0).unwrap();
    let mut out = store
        .dequeue_at("hog", 1, T0 + 10 * SECOND, &vec![900])
        .unwrap();
    assert_eq!(out.len(), 1);
    let job = out.pop().unwrap();
    (store, job)
}

#[test]
fn new_store_is_empty() {
    let store = JobStore::new();
    assert_eq!(store.len(), 0);
    assert_eq!(store.rows(), vec![]);
}

#[test]
fn enqueue_assigns_identity_and_bookkeeping() {
    let mut store = JobStore::new();
    let job = store.enqueue_at(full_init(), 7, T0).unwrap();
    let expected = Job {
        id: 7,
        team_id: 42,
        function_id: Some(0xfeed),
        created: T0,
        lock_id: None,
        last_heartbeat: None,
        janitor_touch_count: 0,
        transition_count: 0,
        last_transition: T0,
        queue_name: "hog".to_string(),
        state: JobState::Available,
        priority: -3,
        scheduled: T0 + 5 * SECOND,
        vm_state: Some(vec![1, 2, 3]),
        metadata: Some(vec![0xff]),
        parameters: Some(vec![]),
        blob: Some(vec![9; 4]),
    };
    assert_eq!(job, expected);
    assert_eq!(store.len(), 1);
    assert_eq!(store.rows(), vec![expected.clone()]);
    assert_eq!(store.get(7), Ok(expected));
}

#[test]
fn enqueue_keeps_the_order_of_arrival() {
    let mut store = JobStore::new();
    store.enqueue_at(init("a", 0, T0), 3, T0).unwrap();
    store.enqueue_at(init("b", 0, T0), 1, T0 + 1).unwrap();
    store.enqueue_at(init("c", 0, T0), 2, T0 + 2).unwrap();
    let ids: Vec<u128> = store.rows().iter().map(|job| job.id).collect();
    assert_eq!(ids, vec![3, 1, 2]);
}

#[test]
fn enqueue_rejects_an_id_that_is_taken() {
    let mut store = JobStore::new();
    store.enqueue_at(init("a", 0, T0), 3, T0).unwrap();
    let before = store.rows();
    assert_eq!(
        store.enqueue_at(init("b", 1, T0), 3, T0 + 1),
        Err(StoreError::StorageError)
    );
    assert_eq!(store.rows(), before);
}

#[test]
fn enqueue_with_clock_and_fresh_identity() {
    let mut store = JobStore::new();
    let first = store.enqueue(init("a", 0, T0)).unwrap();
    let second = store.enqueue(init("a", 0, T0)).unwrap();
    assert_ne!(first.id, second.id);
    assert_eq!(first.state, JobState::Available);
    assert_eq!(first.transition_count, 0);
    assert_eq!(first.janitor_touch_count, 0);
    assert_eq!(first.created, first.last_transition);
    assert_eq!(first.lock_id, None);
    assert_eq!(first.last_heartbeat, None);
    // The clock reads some instant after the year 2020.
    assert!(first.created > 1_577_836_800_000_000);
    assert!(second.created >= first.created);
    assert_eq!(store.rows(), vec![first, second]);
}

#[test]
fn get_reports_a_missing_job() {
    let mut store = JobStore::new();
    assert_eq!(store.get(1), Err(StoreError::NotFound));
    store.enqueue_at(init("a", 0, T0), 2, T0).unwrap();
    assert_eq!(store.get(1), Err(StoreError::NotFound));
    assert_eq!(store.get(2).map(|job| job.id), Ok(2));
}

#[test]
fn heartbeat_refreshes_the_lease() {
    let (mut store, job) = leased_store();
    assert_eq!(job.last_heartbeat, Some(T0 + 10 * SECOND));
    assert_eq!(store.heartbeat_at(900, T0 + 20 * SECOND), Ok(()));
    let after = store.get(7).unwrap();
    assert_eq!(
        after,
        Job {
            last_heartbeat: Some(T0 + 20 * SECOND),
            ..job
        }
    );
}

#[test]
fn heartbeat_with_a_wrong_token_changes_nothing() {
    let (mut store, _) = leased_store();
    let before = store.rows();
    assert_eq!(
        store.heartbeat_at(901, T0 + 20 * SECOND),
        Err(StoreError::LeaseInvalid)
    );
    assert_eq!(store.rows(), before);
}

#[test]
fn heartbeat_on_an_empty_store_is_an_invalid_lease() {
    let mut store = JobStore::new();
    assert_eq!(store.heartbeat_at(1, T0), Err(StoreError::LeaseInvalid));
    assert_eq!(store.heartbeat(1), Err(StoreError::LeaseInvalid));
}

#[test]
fn heartbeat_needs_a_running_job() {
    let (mut store, _) = leased_store();
    let mut patch = JobUpdate::new_at(900, T0 + 11 * SECOND);
    patch.state = Some(JobState::Paused);
    assert_eq!(store.update_at(patch, T0 + 11 * SECOND), Ok(()));
    let before = store.rows();
    assert_eq!(
        store.heartbeat_at(900, T0 + 12 * SECOND),
        Err(StoreError::LeaseInvalid)
    );
    assert_eq!(store.rows(), before);
}

#[test]
fn heartbeat_with_the_clock() {
    let (mut store, job) = leased_store();
    assert_eq!(store.heartbeat(900), Ok(()));
    let after = store.get(7).unwrap();
    assert!(after.last_heartbeat.unwrap() > T0 + 10 * SECOND);
    assert_eq!(
        after,
        Job {
            last_heartbeat: after.last_heartbeat,
            ..job
        }
    );
}

#[test]
fn empty_patch_refreshes_only_the_heartbeat() {
    let (mut store, job) = leased_store();
    let patch = JobUpdate::new_at(900, T0 + 30 * SECOND);
    assert_eq!(store.update_at(patch, T0 + 31 * SECOND), Ok(()));
    assert_eq!(
        store.get(7).unwrap(),
        Job {
            last_heartbeat: Some(T0 + 30 * SECOND),
            ..job
        }
    );
}

#[test]
fn patch_without_heartbeat_records_the_instant_of_the_update() {
    let (mut store, job) = leased_store();
    let mut patch = JobUpdate::new_at(900, T0);
    patch.last_heartbeat = None;
    assert_eq!(store.update_at(patch, T0 + 31 * SECOND), Ok(()));
    assert_eq!(
        store.get(7).unwrap(),
        Job {
            last_heartbeat: Some(T0 + 31 * SECOND),
            ..job
        }
    );
}

#[test]
fn patch_with_a_wrong_token_changes_nothing() {
    let (mut store, _) = leased_store();
    let before = store.rows();
    let mut patch = JobUpdate::new_at(901, T0 + 30 * SECOND);
    patch.state = Some(JobState::Completed);
    patch.queue_name = Some("elsewhere".to_string());
    patch.priority = Some(9);
    patch.scheduled = Some(0);
    patch.vm_state = FieldUpdate::SetNull;
    patch.metadata = FieldUpdate::SetValue(vec![1]);
    patch.parameters = FieldUpdate::SetNull;
    patch.blob = FieldUpdate::SetValue(vec![]);
    assert_eq!(
        store.update_at(patch, T0 + 30 * SECOND),
        Err(StoreError::LeaseInvalid)
    );
    assert_eq!(store.rows(), before);
}

#[test]
fn patch_sets_the_plain_columns() {
    let (mut store, job) = leased_store();
    let mut patch = JobUpdate::new_at(900, T0 + 30 * SECOND);
    patch.queue_name = Some("elsewhere".to_string());
    patch.priority = Some(9);
    patch.scheduled = Some(T0 + 99 * SECOND);
    assert_eq!(store.update_at(patch, T0 + 30 * SECOND), Ok(()));
    assert_eq!(
        store.get(7).unwrap(),
        Job {
            queue_name: "elsewhere".to_string(),
            priority: 9,
            scheduled: T0 + 99 * SECOND,
            last_heartbeat: Some(T0 + 30 * SECOND),
            ..job
        }
    );
}

#[test]
fn patch_vm_state_absent_clear_and_value() {
    let (mut store, job) = leased_store();
    assert_eq!(job.vm_state, Some(vec![1, 2, 3]));

    let patch = JobUpdate::new_at(900, T0 + 30 * SECOND);
    assert_eq!(patch.vm_state, FieldUpdate::Unchanged);
    store.update_at(patch, T0 + 30 * SECOND).unwrap();
    assert_eq!(store.get(7).unwrap().vm_state, Some(vec![1, 2, 3]));

    let mut patch = JobUpdate::new_at(900, T0 + 30 * SECOND);
    patch.vm_state = FieldUpdate::SetValue(vec![7, 7]);
    store.update_at(patch, T0 + 30 * SECOND).unwrap();
    let after = store.get(7).unwrap();
    assert_eq!(
        after,
        Job {
            vm_state: Some(vec![7, 7]),
            last_heartbeat: Some(T0 + 30 * SECOND),
            ..job.clone()
        }
    );

    let mut patch = JobUpdate::new_at(900, T0 + 30 * SECOND);
    patch.vm_state = FieldUpdate::SetNull;
    store.update_at(patch, T0 + 30 * SECOND).unwrap();
    assert_eq!(
        store.get(7).unwrap(),
        Job {
            vm_state: None,
            last_heartbeat: Some(T0 + 30 * SECOND),
            ..job
        }
    );
}

#[test]
fn patch_metadata_absent_clear_and_value() {
    let (mut store, job) = leased_store();
    assert_eq!(job.metadata, Some(vec![0xff]));

    store
        .update_at(JobUpdate::new_at(900, T0 + 30 * SECOND), T0)
        .unwrap();
    assert_eq!(store.get(7).unwrap().metadata, Some(vec![0xff]));

    let mut patch = JobUpdate::new_at(900, T0 + 30 * SECOND);
    patch.metadata = FieldUpdate::SetValue(vec![]);
    store.update_at(patch, T0).unwrap();
    assert_eq!(
        store.get(7).unwrap(),
        Job {
            metadata: Some(vec![]),
            last_heartbeat: Some(T0 + 30 * SECOND),
            ..job.clone()
        }
    );

    let mut patch = JobUpdate::new_at(900, T0 + 30 * SECOND);
    patch.metadata = FieldUpdate::SetNull;
    store.update_at(patch, T0).unwrap();
    assert_eq!(
        store.get(7).unwrap(),
        Job {
            metadata: None,
            last_heartbeat: Some(T0 + 30 * SECOND),
            ..job
        }
    );
}

#[test]
fn patch_parameters_absent_clear_and_value() {
    let (mut store, job) = leased_store();
    assert_eq!(job.parameters, Some(vec![]));

    store
        .update_at(JobUpdate::new_at(900, T0 + 30 * SECOND), T0)
        .unwrap();
    assert_eq!(store.get(7).unwrap().parameters, Some(vec![]));

    let mut patch = JobUpdate::new_at(900, T0 + 30 * SECOND);
    patch.parameters = FieldUpdate::SetNull;
    store.update_at(patch, T0).unwrap();
    assert_eq!(
        store.get(7).unwrap(),
        Job {
            parameters: None,
            last_heartbeat: Some(T0 + 30 * SECOND),
            ..job.clone()
        }
    );

    let mut patch = JobUpdate::new_at(900, T0 + 30 * SECOND);
    patch.parameters = FieldUpdate::SetValue(vec![5, 6]);
    store.update_at(patch, T0).unwrap();
    assert_eq!(
        store.get(7).unwrap(),
        Job {
            parameters: Some(vec![5, 6]),
            last_heartbeat: Some(T0 + 30 * SECOND),
            ..job
        }
    );
}

#[test]
fn patch_blob_absent_clear_and_value() {
    let (mut store, job) = leased_store();
    assert_eq!(job.blob, Some(vec![9; 4]));

    store
        .update_at(JobUpdate::new_at(900, T0 + 30 * SECOND), T0)
        .unwrap();
    assert_eq!(store.get(7).unwrap().blob, Some(vec![9; 4]));

    let mut patch = JobUpdate::new_at(900, T0 + 30 * SECOND);
    patch.blob = FieldUpdate::SetNull;
    store.update_at(patch, T0).unwrap();
    assert_eq!(
        store.get(7).unwrap(),
        Job {
            blob: None,
            last_heartbeat: Some(T0 + 30 * SECOND),
            ..job.clone()
        }
    );

    let mut patch = JobUpdate::new_at(900, T0 + 30 * SECOND);
    patch.blob = FieldUpdate::SetValue(vec![0, 1, 2, 3, 4]);
    store.update_at(patch, T0).unwrap();
    assert_eq!(
        store.get(7).unwrap(),
        Job {
            blob: Some(vec![0, 1, 2, 3, 4]),
            last_heartbeat: Some(T0 + 30 * SECOND),
            ..job
        }
    );
}

#[test]
fn a_change_of_state_is_a_transition() {
    let (mut store, job) = leased_store();
    assert_eq!(job.transition_count, 1);
    let mut patch = JobUpdate::new_at(900, T0 + 30 * SECOND);
    patch.state = Some(JobState::Completed);
    assert_eq!(store.update_at(patch, T0 + 31 * SECOND), Ok(()));
    assert_eq!(
        store.get(7).unwrap(),
        Job {
            state: JobState::Completed,
            transition_count: 2,
            last_transition: T0 + 31 * SECOND,
            last_heartbeat: Some(T0 + 30 * SECOND),
            ..job
        }
    );
}

#[test]
fn naming_the_same_state_is_no_transition() {
    let (mut store, job) = leased_store();
    let mut patch = JobUpdate::new_at(900, T0 + 30 * SECOND);
    patch.state = Some(JobState::Running);
    assert_eq!(store.update_at(patch, T0 + 31 * SECOND), Ok(()));
    assert_eq!(
        store.get(7).unwrap(),
        Job {
            last_heartbeat: Some(T0 + 30 * SECOND),
            ..job
        }
    );
}

#[test]
fn a_finished_job_keeps_its_lock_but_takes_no_more_patches() {
    let (mut store, _) = leased_store();
    let mut patch = JobUpdate::new_at(900, T0 + 30 * SECOND);
    patch.state = Some(JobState::Failed);
    assert_eq!(store.update_at(patch, T0 + 30 * SECOND), Ok(()));
    let finished = store.rows();
    assert_eq!(finished[0].lock_id, Some(900));
    assert_eq!(finished[0].state, JobState::Failed);

    let mut again = JobUpdate::new_at(900, T0 + 40 * SECOND);
    again.state = Some(JobState::Available);
    assert_eq!(
        store.update_at(again, T0 + 40 * SECOND),
        Err(StoreError::LeaseInvalid)
    );
    assert_eq!(
        store.heartbeat_at(900, T0 + 40 * SECOND),
        Err(StoreError::LeaseInvalid)
    );
    assert_eq!(store.rows(), finished);
}

#[test]
fn a_patch_that_would_wrap_the_transition_counter_is_refused() {
    let (mut store, _) = leased_store();
    // Move the job back and forth until its counter is at the top.
    let mut state = JobState::Paused;
    let mut count = 1;
    while count < i16::MAX {
        let mut patch = JobUpdate::new_at(900, T0);
        patch.state = Some(state);
        assert_eq!(store.update_at(patch, T0), Ok(()));
        count += 1;
        state = if state == JobState::Paused {
            JobState::Running
        } else {
            JobState::Paused
        };
    }
    let before = store.rows();
    assert_eq!(before[0].transition_count, i16::MAX);

    let mut patch = JobUpdate::new_at(900, T0 + 1);
    patch.state = Some(state);
    patch.priority = Some(5);
    assert_eq!(
        store.update_at(patch, T0 + 1),
        Err(StoreError::CounterOverflow)
    );
    assert_eq!(store.rows(), before);

    // A patch that does not move the state is still taken.
    let mut patch = JobUpdate::new_at(900, T0 + 2);
    patch.priority = Some(5);
    assert_eq!(store.update_at(patch, T0 + 2), Ok(()));
    let after = store.rows();
    assert_eq!(after[0].priority, 5);
    assert_eq!(after[0].transition_count, i16::MAX);
}

#[test]
fn update_with_the_clock() {
    let (mut store, job) = leased_store();
    let mut patch = JobUpdate::new(900);
    let stamped = patch.last_heartbeat.unwrap();
    assert!(stamped > T0 + 10 * SECOND);
    patch.state = Some(JobState::Completed);
    assert_eq!(store.update(patch), Ok(()));
    let after = store.get(7).unwrap();
    assert!(after.last_transition >= stamped);
    assert_eq!(
        after,
        Job {
            state: JobState::Completed,
            transition_count: 2,
            last_heartbeat: Some(stamped),
            last_transition: after.last_transition,
            ..job
        }
    );
}

#[test]
fn new_patch_is_empty_but_for_the_heartbeat() {
    let patch = JobUpdate::new_at(5, T0);
    assert_eq!(
        patch,
        JobUpdate {
            lock_id: 5,
            state: None,
            queue_name: None,
            priority: None,
            scheduled: None,
            vm_state: FieldUpdate::Unchanged,
            metadata: FieldUpdate::Unchanged,
            parameters: FieldUpdate::Unchanged,
            blob: FieldUpdate::Unchanged,
            last_heartbeat: Some(T0),
        }
    );
    let live = JobUpdate::new(5);
    assert!(live.last_heartbeat.is_some());
    assert_eq!(
        JobUpdate {
            last_heartbeat: Some(T0),
            ..live
        },
        patch
    );
}

#[test]
fn apply_on_a_single_job() {
    let (_, job) = leased_store();
    let mut mine = job.duplicate();
    assert_eq!(mine, job);
    let mut patch = JobUpdate::new_at(900, T0 + 1);
    patch.state = Some(JobState::Available);
    assert_eq!(mine.apply(patch, T0 + 2), Ok(()));
    assert_eq!(mine.state, JobState::Available);
    assert_eq!(mine.lock_id, Some(900));
    assert_eq!(mine.transition_count, 2);
    assert_eq!(mine.last_transition, T0 + 2);
    assert_eq!(mine.last_heartbeat, Some(T0 + 1));

    let mut theirs = job.duplicate();
    assert_eq!(
        theirs.apply(JobUpdate::new_at(1, T0 + 1), T0 + 2),
        Err(StoreError::LeaseInvalid)
    );
    assert_eq!(theirs, job);
}
