use ipwatch::store::{init_content, latest_from_text, parse_store, append_to_text, serialize_store,
    Observation, StoreError};
use ipwatch::addr::{check_ipv4, format_ipv4, check_octet};
use ipwatch::timestamp::check_ts;

fn obs(addr: &str, ts: &str) -> Observation {
    Observation { addr: addr.as_bytes().to_vec(), ts: ts.as_bytes().to_vec() }
}

#[test]
fn init_content_is_bare_header() {
    assert_eq!(init_content(), b"ip_v4,timestamp".to_vec());
}

#[test]
fn empty_store_has_no_latest() {
    // zero rows: absent, not an error and not a default address
    let r = latest_from_text(b"ip_v4,timestamp");
    match r {
        Ok(None) => {}
        other => panic!("expected Ok(None), got {:?}", other.map(|o| o.map(|x| x.addr))),
    }
}

#[test]
fn latest_is_idempotent() {
    let text = b"ip_v4,timestamp\n198.51.100.9,2024-05-01T08:00:00+00:00\n203.0.113.7,2024-05-01T09:00:00+00:00";
    let a = latest_from_text(text).unwrap().unwrap();
    let b = latest_from_text(text).unwrap().unwrap();
    assert_eq!(a.addr, b.addr);
    assert_eq!(a.ts, b.ts);
}

#[test]
fn latest_picks_maximum_timestamp_not_row_order() {
    // newest row first on disk: a full scan must still find it
    let text = b"ip_v4,timestamp\n203.0.113.7,2024-05-01T09:00:00+00:00\n198.51.100.9,2024-05-01T08:00:00+00:00";
    let l = latest_from_text(text).unwrap().unwrap();
    assert_eq!(l.addr, b"203.0.113.7".to_vec());
}

#[test]
fn equal_timestamps_latest_appended_wins() {
    // identical timestamps from clock resolution: the later-appended row wins
    let text = b"ip_v4,timestamp\n198.51.100.9,2024-05-01T08:00:00+00:00\n203.0.113.7,2024-05-01T08:00:00+00:00";
    let l = latest_from_text(text).unwrap().unwrap();
    assert_eq!(l.addr, b"203.0.113.7".to_vec());
}

#[test]
fn append_keeps_full_history() {
    let text = b"ip_v4,timestamp\n198.51.100.9,2024-05-01T08:00:00+00:00";
    let new_text = append_to_text(text, obs("203.0.113.7", "2024-05-01T09:00:00+00:00")).unwrap();
    assert_eq!(
        new_text,
        b"ip_v4,timestamp\n198.51.100.9,2024-05-01T08:00:00+00:00\n203.0.113.7,2024-05-01T09:00:00+00:00".to_vec()
    );
}

#[test]
fn append_round_trips_either_complete_text() {
    // both the old and the new complete text are complete stores: nothing
    // is lost whichever of the two a crash leaves behind
    let old_text = b"ip_v4,timestamp\n198.51.100.9,2024-05-01T08:00:00+00:00".to_vec();
    let new_text = append_to_text(&old_text, obs("203.0.113.7", "2024-05-01T09:00:00+00:00")).unwrap();
    let old_rows = parse_store(&old_text).unwrap();
    let new_rows = parse_store(&new_text).unwrap();
    assert_eq!(old_rows.len(), 1);
    assert_eq!(new_rows.len(), 2);
    assert_eq!(new_rows[0].addr, old_rows[0].addr);
    assert_eq!(new_rows[0].ts, old_rows[0].ts);
    assert_eq!(new_rows[1].addr, b"203.0.113.7".to_vec());
    // and re-serializing parsed rows reproduces the text exactly
    assert_eq!(serialize_store(&new_rows), new_text);
}

#[test]
fn append_is_reflected_by_latest() {
    let text = b"ip_v4,timestamp\n198.51.100.9,2024-05-01T08:00:00+00:00";
    let new_text = append_to_text(text, obs("203.0.113.7", "2024-05-01T09:00:00+00:00")).unwrap();
    let l = latest_from_text(&new_text).unwrap().unwrap();
    assert_eq!(l.addr, b"203.0.113.7".to_vec());
    assert_eq!(l.ts, b"2024-05-01T09:00:00+00:00".to_vec());
}

#[test]
fn append_refuses_corrupt_text() {
    let r = append_to_text(b"not a store", obs("203.0.113.7", "2024-05-01T09:00:00+00:00"));
    assert_eq!(r.unwrap_err(), StoreError::Corrupt);
}

#[test]
fn corrupt_store_is_detected() {
    assert_eq!(latest_from_text(b"").unwrap_err(), StoreError::Corrupt);
    assert_eq!(latest_from_text(b"nonsense").unwrap_err(), StoreError::Corrupt);
    // wrong column count
    assert_eq!(
        latest_from_text(b"ip_v4,timestamp\n198.51.100.9").unwrap_err(),
        StoreError::Corrupt
    );
    // invalid address octet
    assert_eq!(
        latest_from_text(b"ip_v4,timestamp\n256.0.0.1,2024-05-01T08:00:00+00:00").unwrap_err(),
        StoreError::Corrupt
    );
    // unparsable timestamp
    assert_eq!(
        latest_from_text(b"ip_v4,timestamp\n198.51.100.9,yesterday").unwrap_err(),
        StoreError::Corrupt
    );
}

#[test]
fn address_grammar() {
    assert!(check_ipv4(b"0.0.0.0"));
    assert!(check_ipv4(b"255.255.255.255"));
    assert!(check_ipv4(b"198.51.100.9"));
    assert!(!check_ipv4(b""));
    assert!(!check_ipv4(b"1.2.3"));
    assert!(!check_ipv4(b"1.2.3.4.5"));
    assert!(!check_ipv4(b"256.1.1.1"));
    assert!(!check_ipv4(b"01.2.3.4"));
    assert!(!check_ipv4(b"1.2.3.x"));
    assert!(!check_ipv4(b"1..2.3"));
    assert!(!check_octet(b"007"));
    assert!(check_octet(b"0"));
    assert!(check_octet(b"255"));
    assert!(!check_octet(b"256"));
}

#[test]
fn address_formatting() {
    assert_eq!(format_ipv4(203, 0, 113, 5), b"203.0.113.5".to_vec());
    assert_eq!(format_ipv4(0, 0, 0, 0), b"0.0.0.0".to_vec());
    assert_eq!(format_ipv4(255, 10, 9, 1), b"255.10.9.1".to_vec());
    assert!(check_ipv4(&format_ipv4(198, 51, 100, 9)));
}

#[test]
fn timestamp_grammar() {
    assert!(check_ts(b"2024-05-01T08:00:00+00:00"));
    assert!(check_ts(b"2024-05-01T08:00:00.123+00:00"));
    assert!(check_ts(b"2024-05-01T08:00:00.123456789Z"));
    assert!(check_ts(b"1996-12-19T16:39:57-08:00"));
    assert!(!check_ts(b""));
    assert!(!check_ts(b"2024-05-01T08:00:00"));
    assert!(!check_ts(b"2024-13-01T08:00:00+00:00"));
    assert!(!check_ts(b"2024-00-01T08:00:00+00:00"));
    assert!(!check_ts(b"2024-05-01T24:00:00+00:00"));
    assert!(!check_ts(b"2024-05-01T08:60:00+00:00"));
    assert!(!check_ts(b"2024-05-01 08:00:00+00:00"));
    assert!(!check_ts(b"2024-05-01T08:00:00.+00:00"));
    assert!(!check_ts(b"2024-05-01T08:00:00+24:00"));
    assert!(!check_ts(b"2024-05-01T08:00:00,123+00:00"));
}
