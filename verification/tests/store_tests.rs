use getup::alert::Alert;
use getup::codec::{decode, encode};
use getup::store::{add_alert, disable_alert, list_alerts, read_all, DisableOutcome, StoreError};

fn alert(time: u8, created_at: i64, enabled: bool) -> Alert {
    Alert { time, created_at, enabled }
}

fn store_of(alerts: Vec<Alert>) -> Vec<u8> {
    encode(&alerts)
}

#[test]
fn read_all_of_empty_file_is_empty() {
    let bytes: Vec<u8> = Vec::new();
    let r = read_all(&bytes).expect("a zero-length file is not an error");
    assert_eq!(r.len(), 0);
}

#[test]
fn read_all_rejects_corrupt_content() {
    let r = read_all(&b"corrupt".to_vec());
    assert!(matches!(r, Err(StoreError::ParseError)));
}

#[test]
fn append_then_list_shows_new_alert_last() {
    let before = chrono::Utc::now().timestamp();
    let bytes = add_alert(&Vec::new(), Alert::new(2)).expect("append to empty store");
    let after = chrono::Utc::now().timestamp();

    let listed = list_alerts(&bytes).expect("fresh store must list");
    assert_eq!(listed.len(), 1);
    assert_eq!(listed[0].time, 2);
    assert!(listed[0].enabled);
    assert!(before <= listed[0].created_at && listed[0].created_at <= after);

    let bytes2 = add_alert(&bytes, alert(5, 100, true)).expect("second append");
    let listed2 = list_alerts(&bytes2).expect("store must list");
    assert_eq!(listed2.len(), 2);
    assert_eq!(listed2[0].time, 2);
    assert_eq!(listed2[1].time, 5);
    assert!(bytes2.len() > bytes.len());
}

#[test]
fn disable_flips_only_the_target() {
    let bytes = store_of(vec![alert(1, 10, true), alert(2, 20, true), alert(3, 30, true)]);
    let r = disable_alert(&bytes, 1).expect("valid index must succeed");
    let (data, changed) = match r {
        DisableOutcome::Updated { data, changed } => (data, changed),
        DisableOutcome::EmptyStore => panic!("store is not empty"),
    };
    assert!(changed);
    let back = decode(&data).expect("rewritten store must decode");
    assert_eq!(back.len(), 3);
    assert!(back[0].enabled);
    assert!(!back[1].enabled);
    assert!(back[2].enabled);
    assert_eq!(back[0].time, 1);
    assert_eq!(back[1].time, 2);
    assert_eq!(back[2].time, 3);
    assert_eq!(back[0].created_at, 10);
    assert_eq!(back[1].created_at, 20);
    assert_eq!(back[2].created_at, 30);
}

#[test]
fn disable_beyond_length_fails_with_invalid_index() {
    let bytes = store_of(vec![alert(1, 10, true), alert(2, 20, true)]);
    let r = disable_alert(&bytes, 3);
    match r {
        Err(StoreError::InvalidIndex { index, count }) => {
            assert_eq!(index, 3);
            assert_eq!(count, 2);
        },
        _ => panic!("index 3 on two alerts must be invalid"),
    }
}

#[test]
fn disable_at_length_succeeds_without_change() {
    // The index equal to the length passes the bound check but matches no
    // element: the store is rewritten unchanged.
    let bytes = store_of(vec![alert(1, 10, true), alert(2, 20, true)]);
    let r = disable_alert(&bytes, 2).expect("index equal to the length is accepted");
    match r {
        DisableOutcome::Updated { data, changed } => {
            assert!(!changed);
            assert_eq!(data, bytes);
        },
        DisableOutcome::EmptyStore => panic!("store is not empty"),
    }
}

#[test]
fn disable_twice_fails_with_already_disabled() {
    let bytes = store_of(vec![alert(1, 10, false)]);
    let r = disable_alert(&bytes, 0);
    match r {
        Err(StoreError::AlreadyDisabled { index }) => assert_eq!(index, 0),
        _ => panic!("a disabled alert must not disable again"),
    }
}

#[test]
fn disable_on_empty_store_is_not_an_error() {
    let r = disable_alert(&Vec::new(), 7).expect("an empty store reports, not fails");
    assert!(matches!(r, DisableOutcome::EmptyStore));
}

#[test]
fn failed_disable_returns_no_bytes_to_write() {
    // On either failure the caller gets no new content, so the file on
    // disk stays byte-identical; the input buffer itself is only borrowed.
    let bytes = store_of(vec![alert(1, 10, true), alert(2, 20, false)]);
    let snapshot = bytes.clone();

    assert!(disable_alert(&bytes, 9).is_err());
    assert_eq!(bytes, snapshot);

    assert!(disable_alert(&bytes, 1).is_err());
    assert_eq!(bytes, snapshot);

    let listed = list_alerts(&bytes).expect("store still decodes");
    assert_eq!(listed.len(), 2);
    assert!(listed[0].enabled);
    assert!(!listed[1].enabled);
}

#[test]
fn full_session_scenario() {
    // Start with an empty file.
    let file: Vec<u8> = Vec::new();

    // `set 2`
    let file = add_alert(&file, Alert::new(2)).expect("set 2");
    let listed = list_alerts(&file).expect("list");
    assert_eq!(listed.len(), 1);
    assert_eq!(listed[0].time, 2);
    assert!(listed[0].enabled);

    // `set 5`
    let file = add_alert(&file, Alert::new(5)).expect("set 5");
    let listed = list_alerts(&file).expect("list");
    assert_eq!(listed.len(), 2);

    // `disable 0`
    let outcome = disable_alert(&file, 0).expect("disable 0");
    let file = match outcome {
        DisableOutcome::Updated { data, changed } => {
            assert!(changed);
            data
        },
        DisableOutcome::EmptyStore => panic!("store holds two alerts"),
    };

    // `status`: two rows, the first disabled, the second enabled.
    let rows = list_alerts(&file).expect("status");
    assert_eq!(rows.len(), 2);
    assert!(!rows[0].enabled);
    assert_eq!(rows[0].time, 2);
    assert!(rows[1].enabled);
    assert_eq!(rows[1].time, 5);

    // `disable 0` again: refused, file unchanged.
    let snapshot = file.clone();
    let r = disable_alert(&file, 0);
    match r {
        Err(StoreError::AlreadyDisabled { index }) => assert_eq!(index, 0),
        _ => panic!("second disable of the same alert must fail"),
    }
    assert_eq!(file, snapshot);
}

#[test]
fn new_alert_has_interval_and_is_enabled() {
    let a = Alert::new(42);
    assert_eq!(a.time, 42);
    assert!(a.enabled);
}

#[test]
fn add_alert_rejects_corrupt_store() {
    let r = add_alert(&b"[oops".to_vec(), alert(1, 1, true));
    assert!(matches!(r, Err(StoreError::ParseError)));
}
