//! Reporter decisions: offender selection, crowded-device detection, and
//! the per-device user listing.

use clobber::monitor::{crowded_devices, select_offenders, users_on_device, GPUprocess};

fn p(device: usize, pid: usize, start_time: u64, uid: usize, user: &str) -> GPUprocess {
    GPUprocess {
        name: "python".to_string(),
        pid,
        start_time,
        device_number: device,
        uid,
        user: user.to_string(),
    }
}

#[test]
fn offenders_are_everything_but_the_latest_arrival_per_device() {
    let procs = vec![
        p(0, 10, 100, 1, "a"),
        p(0, 11, 300, 2, "b"),
        p(0, 12, 200, 3, "c"),
        p(1, 20, 50, 4, "d"),
    ];
    // device 0 keeps pid 11 (started last); device 1 has a single occupant
    assert_eq!(select_offenders(&procs), vec![10, 12]);
}

#[test]
fn no_offenders_without_competition() {
    assert!(select_offenders(&vec![]).is_empty());
    assert!(select_offenders(&vec![p(0, 1, 5, 1, "a"), p(1, 2, 5, 1, "a")]).is_empty());
}

#[test]
fn crowded_devices_need_two_processes() {
    let procs = vec![
        p(0, 10, 100, 1, "a"),
        p(0, 11, 300, 1, "a"),
        p(1, 20, 50, 4, "d"),
        p(2, 30, 60, 5, "e"),
        p(2, 31, 70, 6, "f"),
    ];
    let crowded = crowded_devices(&procs);
    assert_eq!(crowded, vec![0, 2]);
    assert!(crowded_devices(&vec![p(1, 20, 50, 4, "d")]).is_empty());
}

#[test]
fn users_on_device_are_distinct_and_in_first_appearance_order() {
    let procs = vec![
        p(0, 10, 100, 1, "bob"),
        p(0, 11, 300, 2, "alice"),
        p(0, 12, 200, 1, "bob"),
        p(1, 20, 50, 3, "carol"),
    ];
    assert_eq!(users_on_device(&procs, 0), vec!["bob".to_string(), "alice".to_string()]);
    assert_eq!(users_on_device(&procs, 1), vec!["carol".to_string()]);
    assert!(users_on_device(&procs, 5).is_empty());
}
