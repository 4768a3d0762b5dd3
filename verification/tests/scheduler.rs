//! Scheduler behaviour: admission order, reaping, enforcement gating, the
//! control dispatcher, and the state invariant on concrete runs.

use clobber::clobberd::{ReapVerdict, RuntimeEvent, SharedState};
use clobber::comms::{ClobberConfig, Command, Response, User};
use clobber::gpu::GPUprocess;
use clobber::pings::Ping;

fn config() -> ClobberConfig {
    ClobberConfig { pings_api_key: "SECRET-REDACTED".to_string() }
}

fn user(uid: usize, name: &str) -> User {
    User { name: name.to_string(), uid }
}

fn proc_on(device: usize, pid: usize, uid: usize, name: &str) -> GPUprocess {
    GPUprocess { name: "python".to_string(), pid, device_number: device, user: user(uid, name) }
}

/// Queue a job and admit + start it, returning its id.
fn run_job(state: &mut SharedState, owner: User, gpus: Vec<u32>) -> u16 {
    let id = state.enqueue_job(owner, "img".to_string(), gpus);
    let job = state.pop_first_qualified_job().expect("admissible");
    assert_eq!(job.id, id);
    let ping = state.apply_start_event(job, RuntimeEvent::Started("ctr".to_string()));
    assert_eq!(ping, Ping::JobStarted { id });
    id
}

#[test]
fn fresh_state_reports_empty_locks() {
    let mut state = SharedState::new(4, config());
    match state.sock_communicate(Command::Status) {
        Some(Response::GPUStatus { locks }) => {
            assert_eq!(locks.len(), 4);
            assert!(locks.iter().all(|l| l.is_none()));
        }
        other => panic!("unexpected reply: {:?}", other),
    }
}

#[test]
fn queue_job_always_succeeds_and_appends() {
    let mut state = SharedState::new(4, config());
    // a device set naming a non-existent device is deliberately accepted
    let reply = state.sock_communicate(Command::QueueJob {
        user: user(1000, "alice"),
        image_id: "img".to_string(),
        gpus: vec![99],
    });
    assert_eq!(reply, Some(Response::Success));
    assert_eq!(state.queued_jobs.len(), 1);
    assert_eq!(state.queued_jobs[0].owner.uid, 1000);
    assert_eq!(state.queued_jobs[0].requested_gpus, vec![99]);
    assert!(state.queued_jobs[0].container.is_none());

    let reply = state.sock_communicate(Command::QueueJob {
        user: user(1001, "bob"),
        image_id: "img2".to_string(),
        gpus: vec![],
    });
    assert_eq!(reply, Some(Response::Success));
    assert_eq!(state.queued_jobs.len(), 2);
    assert_eq!(state.queued_jobs[1].owner.uid, 1001);
}

#[test]
fn job_ids_are_fresh() {
    let mut state = SharedState::new(1, config());
    let mut ids = std::collections::HashSet::new();
    for i in 0..50 {
        let id = state.enqueue_job(user(i, "u"), "img".to_string(), vec![]);
        assert!(ids.insert(id), "id {} repeated", id);
    }
    assert_eq!(state.queued_jobs.len(), 50);
}

#[test]
fn admission_is_first_fit_by_arrival() {
    let mut state = SharedState::new(2, config());
    let j = state.enqueue_job(user(1, "j"), "img".to_string(), vec![0]);
    let k = state.enqueue_job(user(2, "k"), "img".to_string(), vec![0, 1]);
    let l = state.enqueue_job(user(3, "l"), "img".to_string(), vec![1]);

    // first tick admits J
    let job = state.pop_first_qualified_job().expect("J fits");
    assert_eq!(job.id, j);
    state.apply_start_event(job, RuntimeEvent::Started("c1".to_string()));

    // second tick skips K (device 0 busy) and admits L
    let job = state.pop_first_qualified_job().expect("L fits");
    assert_eq!(job.id, l);
    state.apply_start_event(job, RuntimeEvent::Started("c2".to_string()));

    // final state: active = {J, L}, queue = [K]
    let active: Vec<u16> = state.active_jobs.iter().map(|x| x.id).collect();
    assert_eq!(active, vec![j, l]);
    let queued: Vec<u16> = state.queued_jobs.iter().map(|x| x.id).collect();
    assert_eq!(queued, vec![k]);

    // nothing else is admissible now
    assert!(state.pop_first_qualified_job().is_none());
}

#[test]
fn active_jobs_claim_disjoint_devices() {
    let mut state = SharedState::new(4, config());
    run_job(&mut state, user(1, "a"), vec![0, 1]);
    state.enqueue_job(user(2, "b"), "img".to_string(), vec![1, 2]);
    state.enqueue_job(user(3, "c"), "img".to_string(), vec![2, 3]);
    if let Some(job) = state.pop_first_qualified_job() {
        assert_eq!(job.owner.uid, 3, "only the job avoiding device 1 may run");
        state.apply_start_event(job, RuntimeEvent::Started("c".to_string()));
    } else {
        panic!("the {{2,3}} job was admissible");
    }
    // every device is claimed by at most one active job
    for d in 0..4u32 {
        let claimants = state
            .active_jobs
            .iter()
            .filter(|j| j.requested_gpus.contains(&d))
            .count();
        assert!(claimants <= 1, "device {} claimed {} times", d, claimants);
    }
}

#[test]
fn reap_frees_devices_for_admission() {
    let mut state = SharedState::new(1, config());
    let j = run_job(&mut state, user(1, "a"), vec![0]);
    let m = state.enqueue_job(user(2, "b"), "img".to_string(), vec![0]);

    // device 0 is busy: M cannot run
    assert!(state.pop_first_qualified_job().is_none());

    // the runtime reports J finished; the reap frees device 0
    let removed = state.remove_finished_jobs(&vec![ReapVerdict::Finished]);
    assert_eq!(removed.len(), 1);
    assert_eq!(removed[0].id, j);
    assert!(state.active_jobs.is_empty());

    // the next admission tick may now admit M
    let job = state.pop_first_qualified_job().expect("M fits now");
    assert_eq!(job.id, m);
}

#[test]
fn failed_reap_query_counts_as_finished() {
    let mut state = SharedState::new(2, config());
    let a = run_job(&mut state, user(1, "a"), vec![0]);
    let b = run_job(&mut state, user(2, "b"), vec![1]);
    let removed = state.remove_finished_jobs(&vec![ReapVerdict::Failed, ReapVerdict::Running]);
    assert_eq!(removed.len(), 1);
    assert_eq!(removed[0].id, a);
    assert_eq!(state.active_jobs.len(), 1);
    assert_eq!(state.active_jobs[0].id, b);
}

#[test]
fn start_failures_drop_the_job_for_good() {
    let mut state = SharedState::new(1, config());
    state.enqueue_job(user(1, "a"), "ghost-image".to_string(), vec![0]);
    let job = state.pop_first_qualified_job().expect("fits");
    let id = job.id;
    let ping = state.apply_start_event(job, RuntimeEvent::ImageMissing);
    assert_eq!(
        ping,
        Ping::JobCancelled { id, reason: "Cannot find image ghost-image".to_string() }
    );
    assert!(state.active_jobs.is_empty());
    assert!(state.queued_jobs.is_empty(), "no requeue, no retry");

    state.enqueue_job(user(1, "a"), "img".to_string(), vec![0]);
    let job = state.pop_first_qualified_job().expect("fits");
    let id = job.id;
    let ping = state.apply_start_event(job, RuntimeEvent::ImageQueryFailed("boom".to_string()));
    assert_eq!(
        ping,
        Ping::JobCancelled { id, reason: "Error finding image img: boom".to_string() }
    );
    assert!(state.active_jobs.is_empty());

    state.enqueue_job(user(1, "a"), "img".to_string(), vec![0]);
    let job = state.pop_first_qualified_job().expect("fits");
    let id = job.id;
    let ping = state.apply_start_event(
        job,
        RuntimeEvent::StartFailed("Error creating container: no space".to_string()),
    );
    assert_eq!(
        ping,
        Ping::JobCancelled { id, reason: "Error creating container: no space".to_string() }
    );
    assert!(state.active_jobs.is_empty());
}

#[test]
fn watch_gating_controls_enforcement() {
    let mut state = SharedState::new(2, config());
    run_job(&mut state, user(1000, "owner"), vec![0]);
    let procs = vec![
        proc_on(0, 11, 0, "root"),
        proc_on(0, 22, 1000, "owner"),
        proc_on(0, 33, 2000, "intruder"),
    ];

    // watching off: zero kills, whatever runs there
    assert!(state.set_watching(0, false));
    assert!(state.rogue_pids(0, &procs).is_empty());

    // flipping it on: the next pass kills exactly the foreign process
    assert!(state.set_watching(0, true));
    assert_eq!(state.rogue_pids(0, &procs), vec![33]);
}

#[test]
fn enforcement_skips_unowned_and_unknown_devices() {
    let mut state = SharedState::new(2, config());
    run_job(&mut state, user(1000, "owner"), vec![0]);
    let foreign = vec![proc_on(1, 44, 2000, "intruder")];
    // device 1 has no owning job: no unauthorized-use judgment can be made
    assert!(state.rogue_pids(1, &foreign).is_empty());
    // a device number outside the registry selects nothing
    assert!(state.rogue_pids(99, &foreign).is_empty());
}

#[test]
fn set_watch_unknown_device_fails_and_changes_nothing() {
    let mut state = SharedState::new(4, config());
    let before: Vec<bool> = state.devices.iter().map(|d| d.watching).collect();
    let reply = state.sock_communicate(Command::SetWatch { device_number: 99, watching: true });
    assert_eq!(reply, Some(Response::Error("Invalid device number".to_string())));
    let after: Vec<bool> = state.devices.iter().map(|d| d.watching).collect();
    assert_eq!(before, after);
    assert_eq!(state.devices.len(), 4);
}

#[test]
fn status_reports_derived_owners() {
    let mut state = SharedState::new(3, config());
    run_job(&mut state, user(7, "greta"), vec![2, 0]);
    match state.sock_communicate(Command::Status) {
        Some(Response::GPUStatus { locks }) => {
            assert_eq!(locks.len(), 3);
            assert_eq!(locks[0].as_ref().map(|u| u.uid), Some(7));
            assert!(locks[1].is_none());
            assert_eq!(locks[2].as_ref().map(|u| u.name.clone()), Some("greta".to_string()));
        }
        other => panic!("unexpected reply: {:?}", other),
    }
}

#[test]
fn active_jobs_lists_all_active() {
    let mut state = SharedState::new(2, config());
    let a = run_job(&mut state, user(1, "a"), vec![0]);
    match state.sock_communicate(Command::ActiveJobs) {
        Some(Response::ActiveJobs(v)) => {
            assert_eq!(v.len(), 1);
            assert_eq!(v[0].id, a);
            assert_eq!(v[0].owner.uid, 1);
            assert_eq!(v[0].requested_gpus, vec![0]);
        }
        other => panic!("unexpected reply: {:?}", other),
    }
}

#[test]
fn my_jobs_reports_one_based_positions_among_all_queued() {
    let mut state = SharedState::new(2, config());
    let a = state.enqueue_job(user(1, "a"), "img".to_string(), vec![0]);
    let _b = state.enqueue_job(user(2, "b"), "img".to_string(), vec![0]);
    let c = state.enqueue_job(user(1, "a"), "img".to_string(), vec![1]);
    match state.sock_communicate(Command::MyJobs { uid: 1 }) {
        Some(Response::MyJobs(v)) => {
            assert_eq!(v.len(), 2);
            assert_eq!(v[0].queue_position, 1);
            assert_eq!(v[0].job.id, a);
            assert_eq!(v[1].queue_position, 3);
            assert_eq!(v[1].job.id, c);
        }
        other => panic!("unexpected reply: {:?}", other),
    }
    match state.sock_communicate(Command::MyJobs { uid: 9 }) {
        Some(Response::MyJobs(v)) => assert!(v.is_empty()),
        other => panic!("unexpected reply: {:?}", other),
    }
}

#[test]
fn kill_has_no_reply() {
    let mut state = SharedState::new(1, config());
    assert_eq!(state.sock_communicate(Command::Kill), None);
}

#[test]
fn handle_request_speaks_the_wire_format() {
    let mut state = SharedState::new(2, config());
    let reply = state.handle_request("\"Status\"").expect("status replies");
    assert_eq!(reply, "{\"GPUStatus\":{\"locks\":[null,null]}}");

    let reply = state
        .handle_request("{\"QueueJob\":{\"user\":{\"name\":\"al\",\"uid\":9},\"image_id\":\"i\",\"gpus\":[0]}}")
        .expect("queue replies");
    assert_eq!(reply, "\"Success\"");
    assert_eq!(state.queued_jobs.len(), 1);

    let reply = state.handle_request("not json at all").expect("error reply");
    assert_eq!(reply, "{\"Error\":\"Error parsing command\"}");
    assert_eq!(state.queued_jobs.len(), 1, "malformed input changes nothing");

    assert!(state.handle_request("\"Kill\"").is_none());
}
