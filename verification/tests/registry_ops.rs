use simpleff::registry::{CancelLookup, Registry, Slot};

#[test]
fn admit_then_second_admit_is_refused() {
    let mut reg: Registry<u32> = Registry::new();
    let key = String::from("out.mp4");
    assert!(reg.try_admit(&key));
    assert!(!reg.try_admit(&key));
    assert_eq!(reg.len(), 1);
}

#[test]
fn distinct_keys_are_independent() {
    let mut reg: Registry<u32> = Registry::new();
    let a = String::from("a.mp4");
    let b = String::from("b.mp4");
    assert!(reg.try_admit(&a));
    assert!(reg.try_admit(&b));
    assert_eq!(reg.len(), 2);
}

#[test]
fn activate_replaces_reservation() {
    let mut reg: Registry<u32> = Registry::new();
    let key = String::from("out.mp4");
    assert!(reg.try_admit(&key));
    assert!(reg.activate(&key, 7).is_none());
    match reg.get(&key) {
        Some(Slot::Active(h)) => assert_eq!(*h, 7),
        _ => panic!("expected an active handle"),
    }
}

#[test]
fn activate_without_reservation_hands_handle_back() {
    let mut reg: Registry<u32> = Registry::new();
    let key = String::from("out.mp4");
    assert_eq!(reg.activate(&key, 7), Some(7));
    assert_eq!(reg.len(), 0);
}

#[test]
fn remove_is_single_handoff() {
    let mut reg: Registry<u32> = Registry::new();
    let key = String::from("out.mp4");
    assert!(reg.try_admit(&key));
    assert!(reg.activate(&key, 9).is_none());
    match reg.remove(&key) {
        Some(Slot::Active(h)) => assert_eq!(h, 9),
        _ => panic!("expected the active handle"),
    }
    // the key is gone, and a second removal finds nothing
    assert!(reg.get(&key).is_none());
    assert!(reg.remove(&key).is_none());
}

#[test]
fn cancel_lookup_on_unknown_key_changes_nothing() {
    let mut reg: Registry<u32> = Registry::new();
    let known = String::from("known.mp4");
    assert!(reg.try_admit(&known));
    let unknown = String::from("unknown.mp4");
    assert!(matches!(reg.cancel_lookup(&unknown), CancelLookup::UnknownKey));
    assert_eq!(reg.len(), 1);
    assert!(reg.get(&known).is_some());
}

#[test]
fn cancel_lookup_reaps_running_job() {
    let mut reg: Registry<u32> = Registry::new();
    let key = String::from("out.mp4");
    assert!(reg.try_admit(&key));
    assert!(reg.activate(&key, 3).is_none());
    match reg.cancel_lookup(&key) {
        CancelLookup::Reaped(h) => assert_eq!(h, 3),
        _ => panic!("expected the job to be reaped"),
    }
    assert!(reg.get(&key).is_none());
}

#[test]
fn cancel_lookup_revokes_pending_start() {
    let mut reg: Registry<u32> = Registry::new();
    let key = String::from("out.mp4");
    assert!(reg.try_admit(&key));
    assert!(matches!(reg.cancel_lookup(&key), CancelLookup::PendingStart));
    // the starting job's activation now fails, so it reaps its own process
    assert_eq!(reg.activate(&key, 3), Some(3));
}

#[test]
fn drain_returns_every_job_and_empties_registry() {
    let mut reg: Registry<u32> = Registry::new();
    let keys = ["a.mp4", "b.mp4", "c.mp4"];
    for (n, k) in keys.iter().enumerate() {
        let key = String::from(*k);
        assert!(reg.try_admit(&key));
        assert!(reg.activate(&key, n as u32).is_none());
    }
    let drained = reg.drain_all();
    assert_eq!(drained.len(), 3);
    assert!(reg.is_empty());
    let mut seen = [false; 3];
    for (key, slot) in drained {
        let idx = keys.iter().position(|k| *k == key.as_str()).unwrap();
        assert!(!seen[idx]);
        seen[idx] = true;
        match slot {
            Slot::Active(h) => assert_eq!(h as usize, idx),
            Slot::Reserved => panic!("expected an active handle"),
        }
    }
    assert!(seen.iter().all(|s| *s));
}
