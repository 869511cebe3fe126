use getup::alert::Alert;
use getup::codec::{decode, encode};

fn alert(time: u8, created_at: i64, enabled: bool) -> Alert {
    Alert { time, created_at, enabled }
}

#[test]
fn encode_one_alert_exact_bytes() {
    let alerts = vec![alert(2, 1234567890, true)];
    let bytes = encode(&alerts);
    let expected: &[u8] = b"[{\"time\":2,\"created_at\":1234567890,\"enabled\":true}]";
    assert_eq!(bytes, expected.to_vec());
}

#[test]
fn encode_two_alerts_exact_bytes() {
    let alerts = vec![alert(2, 10, true), alert(255, 0, false)];
    let bytes = encode(&alerts);
    let expected: &[u8] =
        b"[{\"time\":2,\"created_at\":10,\"enabled\":true},{\"time\":255,\"created_at\":0,\"enabled\":false}]";
    assert_eq!(bytes, expected.to_vec());
}

#[test]
fn encode_negative_created_at() {
    let alerts = vec![alert(0, -5, false)];
    let bytes = encode(&alerts);
    let expected: &[u8] = b"[{\"time\":0,\"created_at\":-5,\"enabled\":false}]";
    assert_eq!(bytes, expected.to_vec());
}

#[test]
fn encode_empty_sequence() {
    let alerts: Vec<Alert> = Vec::new();
    let bytes = encode(&alerts);
    assert_eq!(bytes, b"[]".to_vec());
}

#[test]
fn decode_empty_bytes_is_empty_sequence() {
    let bytes: Vec<u8> = Vec::new();
    let r = decode(&bytes).expect("empty input must decode");
    assert_eq!(r.len(), 0);
}

#[test]
fn decode_empty_array() {
    let r = decode(&b"[]".to_vec()).expect("[] must decode");
    assert_eq!(r.len(), 0);
}

#[test]
fn round_trip_preserves_every_field() {
    let alerts = vec![
        alert(0, 0, true),
        alert(255, i64::MAX, false),
        alert(7, i64::MIN, true),
        alert(1, -1, false),
        alert(42, 1700000000, true),
    ];
    let bytes = encode(&alerts);
    let back = decode(&bytes).expect("canonical encoding must decode");
    assert_eq!(back.len(), alerts.len());
    for (a, b) in alerts.iter().zip(back.iter()) {
        assert_eq!(a.time, b.time);
        assert_eq!(a.created_at, b.created_at);
        assert_eq!(a.enabled, b.enabled);
    }
}

#[test]
fn decode_rejects_garbage() {
    assert!(decode(&b"not json".to_vec()).is_none());
    assert!(decode(&b"{".to_vec()).is_none());
    assert!(decode(&b"[{\"time\":2}]".to_vec()).is_none());
}

#[test]
fn decode_rejects_trailing_bytes() {
    let mut bytes = encode(&vec![alert(2, 100, true)]);
    bytes.push(b' ');
    assert!(decode(&bytes).is_none());
}

#[test]
fn decode_rejects_leading_zero_and_whitespace() {
    assert!(decode(&b"[{\"time\":02,\"created_at\":1,\"enabled\":true}]".to_vec()).is_none());
    assert!(decode(&b" []".to_vec()).is_none());
}

#[test]
fn encoding_parses_as_json() {
    let alerts = vec![alert(2, 1234567890, true), alert(9, -3, false)];
    let bytes = encode(&alerts);
    let v: serde_json::Value = serde_json::from_slice(&bytes).expect("output must be valid JSON");
    let arr = v.as_array().expect("output must be a JSON array");
    assert_eq!(arr.len(), 2);
    assert_eq!(arr[0]["time"], serde_json::Value::from(2u64));
    assert_eq!(arr[0]["created_at"], serde_json::Value::from(1234567890i64));
    assert_eq!(arr[0]["enabled"], serde_json::Value::from(true));
    assert_eq!(arr[1]["time"], serde_json::Value::from(9u64));
    assert_eq!(arr[1]["created_at"], serde_json::Value::from(-3i64));
    assert_eq!(arr[1]["enabled"], serde_json::Value::from(false));
}
