use editchain_history::host::{
    envelope, find_in_history, get_window, unwrap, HostMessage, Id, Unwrapped,
};
use editchain_history::json::Json;
use editchain_history::protocol::{ErrorCode, SnapshotId};
use editchain_history::row;
use editchain_history::step::Send;

fn json(text: &str) -> Json {
    Json::parse(text).unwrap()
}

/// Whether two payloads agree, whatever the order of their fields.
fn same(left: &Json, right: &Json) -> bool {
    match (left, right) {
        (Json::Object(left_fields), Json::Object(right_fields)) => {
            left_fields.len() == right_fields.len()
                && left_fields.iter().all(|(name, value)| {
                    right
                        .get(name)
                        .is_some_and(|other| same(value, other))
                })
        }
        (Json::Array(left), Json::Array(right)) => {
            left.len() == right.len()
                && left
                    .iter()
                    .enumerate()
                    .all(|(index, value)| same(value, &right[index]))
        }
        _ => left == right,
    }
}

fn fields(value: &Json) -> usize {
    match value {
        Json::Object(fields) => fields.len(),
        _ => 0,
    }
}

#[test]
fn host_message_parsing_matches_production_ids() {
    assert_eq!(
        HostMessage::parse(&json(r#"{ "id": "open", "body": { "Ok": { "nodes": 5 } } }"#))
            .unwrap()
            .id,
        Id::Open
    );
    assert_eq!(
        HostMessage::parse(&json(r#"{ "id": "ready", "body": { "Ok": {} } }"#))
            .unwrap()
            .id,
        Id::Ready
    );
    assert_eq!(
        HostMessage::parse(&json(r#"{ "id": "reveal" }"#)).unwrap().id,
        Id::Reveal
    );
    assert_eq!(
        HostMessage::parse(&json(r#"{ "id": 7, "body": { "Ok": [] } }"#))
            .unwrap()
            .id,
        Id::Request(7)
    );
    assert!(HostMessage::parse(&json("null")).is_none());
    assert!(HostMessage::parse(&json(r#"{ "no-id": true }"#)).is_none());
}

#[test]
fn other_ids_are_kept_as_text() {
    assert_eq!(
        HostMessage::parse(&json(r#"{ "id": "later" }"#)).unwrap().id,
        Id::Unknown("later".to_string())
    );
    assert_eq!(
        HostMessage::parse(&json(r#"{ "id": -3 }"#)).unwrap().id,
        Id::Unknown("-3".to_string())
    );
    assert!(HostMessage::parse(&json(r#"{ "id": "open" }"#)).unwrap().body.is_none());
}

#[test]
fn unwrap_handles_ok_error_and_legacy_envelopes() {
    assert!(matches!(
        unwrap(Some(json(r#"{ "Ok": { "total": 3 } }"#))),
        Unwrapped::Success(v) if v.get("total").and_then(Json::as_i64) == Some(3)
    ));
    assert!(matches!(
        unwrap(Some(json(r#"{ "Error": "boom" }"#))),
        Unwrapped::Failure(e) if e.message == "boom"
    ));
    assert!(matches!(
        unwrap(Some(json(r#"{ "error": "legacy" }"#))),
        Unwrapped::Failure(e) if e.message == "legacy"
    ));
    assert!(matches!(
        unwrap(Some(json(
            r#"{"Error": {"code": "stale_snapshot", "message": "Reopen history"}}"#
        ))),
        Unwrapped::Failure(message)
            if message.code == ErrorCode::StaleSnapshot && message.message == "Reopen history"
    ));
    // Missing body is treated as a success with a null value (handshake).
    assert!(matches!(unwrap(None), Unwrapped::Success(v) if v.is_null()));
}

#[test]
fn errors_of_another_shape_are_kept_whole() {
    assert!(matches!(
        unwrap(Some(json(r#"{ "Error": 12 }"#))),
        Unwrapped::Undecoded(raw) if raw.as_u64() == Some(12)
    ));
    assert!(matches!(
        unwrap(Some(json(r#"{ "plain": true }"#))),
        Unwrapped::Success(v) if v.get("plain").and_then(Json::as_bool) == Some(true)
    ));
}

#[test]
fn get_window_envelope_matches_production_shape_exactly() {
    assert!(same(
        &get_window(&SnapshotId::new("fixture"), 0, 500, false),
        &json(
            r#"{
            "GetWindow": {
                "snapshot_id": "fixture",
                "offset": 0,
                "limit": 500,
                "include_layout": false
            }
        }"#
        )
    ));
    let raw = get_window(&SnapshotId::new("fixture"), 42, 100, true);
    let window = raw.get("GetWindow").expect("GetWindow envelope");
    assert_eq!(window.get("offset").and_then(Json::as_i64), Some(42));
    assert_eq!(window.get("limit").and_then(Json::as_i64), Some(100));
    assert_eq!(
        window.get("include_layout").and_then(Json::as_bool),
        Some(true)
    );
    assert_eq!(fields(window), 4);
}

#[test]
fn find_in_history_envelope_matches_production_shape() {
    let body = find_in_history(&SnapshotId::new("fixture"), "hello", 50);
    let find = body.get("FindInHistory").expect("FindInHistory envelope");
    assert_eq!(find.get("query").and_then(Json::as_str), Some("hello"));
    assert_eq!(find.get("top_k").and_then(Json::as_i64), Some(50));
    assert_eq!(fields(find), 3);
}

#[test]
fn row_field_helpers_apply_production_defaults() {
    let row = json(
        r#"{
        "node_key": "git:m1",
        "lane": 2,
        "above": [1, 0],
        "below": [2],
        "transitions": [[1, 0], [2, 1]],
        "muted_above": [1],
        "muted_below": [2],
        "muted_transitions": [[2, 1]],
        "is_subop": true
    }"#,
    );
    assert_eq!(row::text(&row, "node_key"), "git:m1");
    assert_eq!(row::text(&row, "missing"), "");
    assert_eq!(row::owned_str(&row, "node_key"), "git:m1");
    assert_eq!(row::lane(&row), 2);
    assert_eq!(row::above(&row), vec![1, 0]);
    assert_eq!(row::below(&row), vec![2]);
    assert_eq!(row::transitions(&row), vec![(1, 0), (2, 1)]);
    assert_eq!(row::muted_above(&row), vec![1]);
    assert_eq!(row::muted_below(&row), vec![2]);
    assert_eq!(row::muted_transitions(&row), vec![(2, 1)]);
    assert!(row::truth(&row, "is_subop"));
    assert!(!row::truth(&row, "promoted"));
    // Malformed geometry defaults to empty lanes.
    let sparse = json(r#"{ "lane": "7" }"#);
    assert_eq!(row::lane(&sparse), 0);
    assert!(row::above(&sparse).is_empty());
    assert!(row::muted_above(&sparse).is_empty());
    assert!(row::muted_transitions(&sparse).is_empty());
}

#[test]
fn send_envelope_variants_cover_the_host_contract() {
    // The shell posts openJson / webviewReady controls; keep the variants
    // alive and their envelope shapes explicit.
    let open_json = Send::OpenJson(json(r#"{ "op_id": "op:1" }"#));
    assert!(matches!(
        &open_json,
        Send::OpenJson(body) if body.get("op_id").and_then(Json::as_str) == Some("op:1")
    ));
    let open_diff = Send::OpenDiff(json(r#"{ "change": { "path": "src/lib.rs" } }"#));
    assert!(matches!(&open_diff, Send::OpenDiff(body)
        if body
            .get("change")
            .and_then(|change| change.get("path"))
            .and_then(Json::as_str)
            == Some("src/lib.rs")));
    let ready = Send::WebviewReady("instance-abc".to_owned());
    assert!(matches!(&ready, Send::WebviewReady(id) if id == "instance-abc"));
}

#[test]
fn every_send_posts_its_envelope() {
    let request = Send::Request {
        id: 3,
        body: json(r#"{"GetWindow": {}}"#),
    };
    assert!(same(
        &envelope(&request).unwrap(),
        &json(r#"{"id": 3, "body": {"GetWindow": {}}}"#)
    ));
    assert!(same(
        &envelope(&Send::Log("text".to_string())).unwrap(),
        &json(r#"{"type": "log", "text": "text"}"#)
    ));
    assert!(same(
        &envelope(&Send::Status { loaded: 2, total: 9 }).unwrap(),
        &json(r#"{"type": "status", "loaded": 2, "total": 9}"#)
    ));
    assert!(same(
        &envelope(&Send::StatusText("ready".to_string())).unwrap(),
        &json(r#"{"type": "statusText", "text": "ready"}"#)
    ));
    assert!(same(
        &envelope(&Send::WebviewReady("abc".to_string())).unwrap(),
        &json(r#"{"type": "webviewReady", "instanceId": "abc"}"#)
    ));
    assert!(same(
        &envelope(&Send::OpenJson(json(r#"{"op_id": "op:1"}"#))).unwrap(),
        &json(r#"{"op_id": "op:1"}"#)
    ));
    assert!(same(
        &envelope(&Send::OpenDiff(json(r#"{"change": 1}"#))).unwrap(),
        &json(r#"{"change": 1}"#)
    ));
    assert!(envelope(&Send::RefreshHistory).is_none());
    assert!(envelope(&Send::LiveSettled {
        snapshot_id: "s".to_string(),
        error: None
    })
    .is_none());
}

#[test]
fn texts_that_are_no_payload_are_refused() {
    assert!(Json::parse("{").is_none());
    assert!(Json::parse("").is_none());
    let value = json(r#"{"a": [1, -2, 3.5, "t", true, null]}"#);
    let items = value.get("a").and_then(Json::as_array).unwrap();
    assert_eq!(items[0].as_u64(), Some(1));
    assert_eq!(items[1].as_u64(), None);
    assert_eq!(items[1].as_i64(), Some(-2));
    assert_eq!(items[2].as_i64(), None);
    assert_eq!(items[3].as_str(), Some("t"));
    assert_eq!(items[4].as_bool(), Some(true));
    assert!(items[5].is_null());
    assert_eq!(items[2].to_text(), "3.5");
    assert_eq!(value.to_text(), "[object Object]");
    assert!(!json("0").is_truthy());
    assert!(!json("0.0").is_truthy());
    assert!(!json(r#""""#).is_truthy());
    assert!(json("[]").is_truthy());
}
