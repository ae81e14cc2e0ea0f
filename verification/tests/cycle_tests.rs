use ipwatch::reconcile::{decide, run_cycle, run_cycle_now, Decision, CycleError};
use ipwatch::store::{init_content, latest_from_text, parse_store, Observation};

fn obs(addr: &str, ts: &str) -> Observation {
    Observation { addr: addr.as_bytes().to_vec(), ts: ts.as_bytes().to_vec() }
}

#[test]
fn decide_first_observation() {
    let d = decide(&None, b"203.0.113.5");
    assert!(matches!(d, Decision::First));
}

#[test]
fn decide_no_change() {
    let last = Some(obs("198.51.100.9", "2024-05-01T08:00:00+00:00"));
    let d = decide(&last, b"198.51.100.9");
    assert!(matches!(d, Decision::NoChange));
}

#[test]
fn decide_changed_names_previous() {
    let last = Some(obs("198.51.100.9", "2024-05-01T08:00:00+00:00"));
    let d = decide(&last, b"203.0.113.7");
    match d {
        Decision::Changed { previous } => assert_eq!(previous, b"198.51.100.9".to_vec()),
        _ => panic!("expected Changed"),
    }
}

#[test]
fn first_run_records_without_notification() {
    // empty store, current 203.0.113.5: one row appended, nobody notified
    let store = init_content();
    let r = run_cycle(&store, b"203.0.113.5", b"2024-05-01T08:00:00+00:00").unwrap();
    let appended = r.appended.expect("a row must be appended");
    assert_eq!(appended.addr, b"203.0.113.5".to_vec());
    assert_eq!(
        r.new_text.unwrap(),
        b"ip_v4,timestamp\n203.0.113.5,2024-05-01T08:00:00+00:00".to_vec()
    );
    assert!(r.notify_previous.is_none());
}

#[test]
fn same_address_is_a_no_op() {
    // steady state: no append, no notification, nothing to persist
    let store = b"ip_v4,timestamp\n198.51.100.9,2024-05-01T08:00:00+00:00";
    let r = run_cycle(store, b"198.51.100.9", b"2024-05-01T09:00:00+00:00").unwrap();
    assert!(r.appended.is_none());
    assert!(r.new_text.is_none());
    assert!(r.notify_previous.is_none());
}

#[test]
fn changed_address_records_and_notifies() {
    let store = b"ip_v4,timestamp\n198.51.100.9,2024-05-01T08:00:00+00:00";
    let r = run_cycle(store, b"203.0.113.7", b"2024-05-01T09:00:00+00:00").unwrap();
    let appended = r.appended.expect("a row must be appended");
    assert_eq!(appended.addr, b"203.0.113.7".to_vec());
    assert_eq!(appended.ts, b"2024-05-01T09:00:00+00:00".to_vec());
    assert_eq!(
        r.new_text.unwrap(),
        b"ip_v4,timestamp\n198.51.100.9,2024-05-01T08:00:00+00:00\n203.0.113.7,2024-05-01T09:00:00+00:00".to_vec()
    );
    // the notification names (previous, current)
    assert_eq!(r.notify_previous.unwrap(), b"198.51.100.9".to_vec());
}

#[test]
fn invalid_current_address_aborts_before_store_interaction() {
    let r = run_cycle(b"ip_v4,timestamp", b"not-an-address", b"2024-05-01T08:00:00+00:00");
    assert!(matches!(r, Err(CycleError::InvalidAddress)));
}

#[test]
fn corrupt_store_aborts_cycle() {
    let r = run_cycle(b"garbage", b"203.0.113.5", b"2024-05-01T08:00:00+00:00");
    assert!(matches!(r, Err(CycleError::CorruptStore)));
}

#[test]
fn invalid_clock_rendering_aborts_append() {
    let r = run_cycle(b"ip_v4,timestamp", b"203.0.113.5", b"not a timestamp");
    assert!(matches!(r, Err(CycleError::InvalidTimestamp)));
}

#[test]
fn history_keeps_exactly_the_changes() {
    // successive runs: the store holds the first address plus every address
    // that differed from its immediate predecessor, in order
    let inputs = [
        ("203.0.113.5", "2024-05-01T08:00:00+00:00"),
        ("203.0.113.5", "2024-05-01T09:00:00+00:00"),
        ("198.51.100.9", "2024-05-01T10:00:00+00:00"),
        ("198.51.100.9", "2024-05-01T11:00:00+00:00"),
        ("203.0.113.7", "2024-05-01T12:00:00+00:00"),
    ];
    let mut text = init_content();
    for (addr, ts) in inputs {
        let r = run_cycle(&text, addr.as_bytes(), ts.as_bytes()).unwrap();
        if let Some(new_text) = r.new_text {
            text = new_text;
        }
    }
    let rows = parse_store(&text).unwrap();
    let addrs: Vec<Vec<u8>> = rows.iter().map(|o| o.addr.clone()).collect();
    assert_eq!(
        addrs,
        vec![b"203.0.113.5".to_vec(), b"198.51.100.9".to_vec(), b"203.0.113.7".to_vec()]
    );
}

#[test]
fn cycle_against_real_clock() {
    // the clock wrapper must hand back bytes the timestamp grammar accepts:
    // otherwise the first cycle would fail instead of appending
    let store = init_content();
    let r = run_cycle_now(&store, b"203.0.113.5").expect("first cycle must append");
    let new_text = r.new_text.expect("a new text must be produced");
    let l = latest_from_text(&new_text).unwrap().unwrap();
    assert_eq!(l.addr, b"203.0.113.5".to_vec());
    // a second cycle with the same address is a no-op
    let r2 = run_cycle_now(&new_text, b"203.0.113.5").unwrap();
    assert!(r2.new_text.is_none());
    assert!(r2.notify_previous.is_none());
}
