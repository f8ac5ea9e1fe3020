use editchain_history::chain_filter::{
    as_string, find_in_history, get_window, search, unwrap, ChainFilter, Unwrapped,
};
use editchain_history::host::{HostMessage, Id};
use editchain_history::json::Json;
use editchain_history::row;
use editchain_history::step::Send;

fn json(text: &str) -> Json {
    Json::parse(text).unwrap()
}

/// Whether two payloads agree, whatever the order of their fields.
fn same(left: &Json, right: &Json) -> bool {
    match (left, right) {
        (Json::Object(left_fields), Json::Object(right_fields)) => {
            left_fields.len() == right_fields.len()
                && left_fields
                    .iter()
                    .all(|(name, value)| right.get(name).is_some_and(|other| same(value, other)))
        }
        _ => left == right,
    }
}

fn filter() -> ChainFilter {
    ChainFilter {
        summary_pattern: String::new(),
        kind_pattern: String::new(),
        include_kind_pattern: String::new(),
        hide_undated: false,
        splice: true,
        hide_trace: true,
    }
}

#[test]
fn host_host_message_parsing_matches_production_ids() {
    assert_eq!(
        HostMessage::parse(&json(r#"{ "id": "open", "body": { "Ok": { "nodes": 5 } } }"#))
            .unwrap()
            .id,
        Id::Open
    );
    assert_eq!(
        HostMessage::parse(&json(r#"{ "id": "ready", "body": { "Ok": {} } }"#))
            .unwrap()
            .id,
        Id::Ready
    );
    assert_eq!(
        HostMessage::parse(&json(r#"{ "id": "reveal" }"#)).unwrap().id,
        Id::Reveal
    );
    assert_eq!(
        HostMessage::parse(&json(r#"{ "id": 7, "body": { "Ok": [] } }"#))
            .unwrap()
            .id,
        Id::Request(7)
    );
    assert!(HostMessage::parse(&json("null")).is_none());
    assert!(HostMessage::parse(&json(r#"{ "no-id": true }"#)).is_none());
}

#[test]
fn host_unwrap_handles_ok_error_and_legacy_envelopes() {
    assert!(matches!(
        unwrap(Some(json(r#"{ "Ok": { "total": 3 } }"#))),
        Unwrapped::Success(v) if v.get("total").and_then(Json::as_i64) == Some(3)
    ));
    assert!(matches!(
        unwrap(Some(json(r#"{ "Error": "boom" }"#))),
        Unwrapped::Failure(e) if e == "boom"
    ));
    assert!(matches!(
        unwrap(Some(json(r#"{ "error": "legacy" }"#))),
        Unwrapped::Failure(e) if e == "legacy"
    ));
    // Missing body is treated as a success with a null value (handshake).
    assert!(matches!(unwrap(None), Unwrapped::Success(v) if v.is_null()));
}

#[test]
fn errors_that_are_no_text_are_told_by_their_json() {
    let failure = |text: &str| match unwrap(Some(json(text))) {
        Unwrapped::Failure(message) => message,
        Unwrapped::Success(value) => panic!("a success with {value:?}"),
    };
    assert_eq!(
        failure(r#"{ "Error": { "message": "Reopen \"it\"", "code": "stale_snapshot" } }"#),
        r#"{"code":"stale_snapshot","message":"Reopen \"it\""}"#
    );
    assert_eq!(failure(r#"{ "error": [1, -2, 1.50, null, true] }"#), "[1,-2,1.5,null,true]");
    assert_eq!(failure(r#"{ "Error": null }"#), "null");
    let bare = json(r#"{ "nodes": 5 }"#);
    assert!(matches!(unwrap(Some(bare)), Unwrapped::Success(v) if v.encode() == r#"{"nodes":5}"#));
    assert_eq!(as_string(&json("3"), "three".to_owned()), "three");
    assert_eq!(as_string(&json(r#""text""#), "spelled".to_owned()), "text");
}

#[test]
fn host_get_window_envelope_matches_production_shape_exactly() {
    assert!(same(
        &get_window(0, 500, &filter(), false),
        &json(
            r#"{
            "GetWindow": {
                "offset": 0,
                "limit": 500,
                "hide_submodules": true,
                "filter": {
                    "summary_pattern": "",
                    "kind_pattern": "",
                    "include_kind_pattern": "",
                    "hide_undated": false,
                    "splice": true,
                    "hide_trace": true
                },
                "include_layout": false
            }
        }"#
        )
    ));
    let raw = get_window(42, 100, &filter(), true);
    let window = raw.get("GetWindow").expect("GetWindow envelope");
    assert_eq!(window.get("offset").and_then(Json::as_i64), Some(42));
    assert_eq!(window.get("limit").and_then(Json::as_i64), Some(100));
    assert_eq!(
        window.get("include_layout").and_then(Json::as_bool),
        Some(true)
    );
    assert_eq!(
        window
            .get("filter")
            .and_then(|f| f.get("hide_trace"))
            .and_then(Json::as_bool),
        Some(true)
    );
}

#[test]
fn host_find_in_history_envelope_matches_production_shape() {
    let body = find_in_history("hello", 50, &filter(), true);
    let find = body.get("FindInHistory").expect("FindInHistory envelope");
    assert_eq!(find.get("query").and_then(Json::as_str), Some("hello"));
    assert_eq!(find.get("top_k").and_then(Json::as_i64), Some(50));
    assert_eq!(find.get("filters"), Some(&json("{}")));
    assert_eq!(
        find.get("hide_submodules").and_then(Json::as_bool),
        Some(true)
    );
    assert_eq!(
        find.get("filter")
            .and_then(|f| f.get("hide_trace"))
            .and_then(Json::as_bool),
        Some(true)
    );
}

#[test]
fn host_row_field_helpers_apply_production_defaults() {
    let row = json(
        r#"{
        "node_key": "git:m1",
        "lane": 2,
        "above": [1, 0],
        "below": [2],
        "transitions": [[1, 0], [2, 1]],
        "is_subop": true
    }"#,
    );
    assert_eq!(row::text(&row, "node_key"), "git:m1");
    assert_eq!(row::text(&row, "missing"), "");
    assert_eq!(row::lane(&row), 2);
    assert_eq!(row::above(&row), vec![1, 0]);
    assert_eq!(row::below(&row), vec![2]);
    assert_eq!(row::transitions(&row), vec![(1, 0), (2, 1)]);
    assert!(row::truth(&row, "is_subop"));
    assert!(!row::truth(&row, "promoted"));
    // Malformed geometry defaults to empty lanes.
    let sparse = json(r#"{ "lane": "7" }"#);
    assert_eq!(row::lane(&sparse), 0);
    assert!(row::above(&sparse).is_empty());
}

#[test]
fn search_envelope_matches_the_production_retry_shape() {
    let body = search("needle", 50);
    let search = body.get("Search").expect("Search envelope");
    assert_eq!(search.get("query").and_then(Json::as_str), Some("needle"));
    assert_eq!(search.get("mode").and_then(Json::as_str), Some("Lexical"));
    assert_eq!(search.get("top_k").and_then(Json::as_i64), Some(50));
    assert_eq!(search.get("filters"), Some(&json("{}")));
    assert!(
        search.get("filter").is_none(),
        "legacy Search carries no chain filter"
    );
}

#[test]
fn host_send_envelope_variants_cover_the_host_contract() {
    // The shell posts openJson / webviewReady controls; keep the variants
    // alive and their envelope shapes explicit.
    let open_json = Send::OpenJson(json(r#"{ "op_id": "op:1" }"#));
    assert!(matches!(
        &open_json,
        Send::OpenJson(body) if body.get("op_id").and_then(Json::as_str) == Some("op:1")
    ));
    let ready = Send::WebviewReady("instance-abc".to_owned());
    assert!(matches!(&ready, Send::WebviewReady(id) if id == "instance-abc"));
}
