use editchain_history::cache::PageCache;
use editchain_history::chrome::ViewMode;
use editchain_history::find::FindSession;
use editchain_history::json::Json;
use editchain_history::protocol::SnapshotId;
use editchain_history::row_spec::{RowContext, RowSpec};
use editchain_history::state::{HistoryAppState, Selection, Topology};
use editchain_history::step::Viewport;
use editchain_history::window::{
    frame_rows, group_below, restored_scroll_top, search_banner, starts_group, window_rows_from,
    Slot, WindowRow,
};

fn row_value(group: &str, key: &str) -> Json {
    Json::parse(&format!(
        r#"{{
        "node_key": "{key}",
        "summary": "summary text",
        "group": "{group}",
        "kind": "message",
        "lane": 0,
        "above": [],
        "below": [],
        "transitions": [],
        "sub_ops": [],
        "is_subop": false,
        "timestamp_ms": 1768492800000,
        "author": "",
        "commit_id": "",
        "op_id": null,
        "git_oid": null,
        "repository": null,
        "record_role": "narrative",
        "activity_kind": "conversation",
        "visibility": "primary",
        "outcome": "unknown",
        "turn_id": ""
    }}"#
    ))
    .unwrap()
}

fn flat_state(total: i64) -> HistoryAppState {
    HistoryAppState {
        remote: false,
        topology: Topology::Flat,
        cache: PageCache::new(),
        max_lane: 0,
        render_top: 0,
        render_bottom: total - 1,
        selection: Selection::new(),
        expanded_keys: vec![],
        snapshot_id: SnapshotId::new(""),
        view_gen: 0,
        requests: vec![],
        total: Some(total),
        find: FindSession::new(),
    }
}

/// The window of a list whose first rows are cached.
fn window(
    rows: &[Json],
    total: i64,
    top: i64,
    bottom: i64,
    initial: Option<&str>,
) -> Vec<WindowRow> {
    let state = flat_state(total);
    let slots: Vec<Slot> = state
        .window_positions(top, bottom)
        .into_iter()
        .map(|(vis, abs)| Slot {
            vis,
            row: rows.get(abs as usize).cloned(),
            context: RowContext::for_row(ViewMode::Activity, abs, false),
        })
        .collect();
    window_rows_from(&slots, initial)
}

#[test]
fn window_rows_marks_group_starts_and_maps_visible_to_absolute() {
    let rows = vec![
        row_value("repo:a", "k0"),
        row_value("repo:a", "k1"),
        row_value("repo:b", "k2"),
    ];
    let planned = window(&rows, 3, 0, 2, None);
    assert_eq!(planned.len(), 3, "all three visible rows planned");
    let first = planned.first().expect("first row");
    assert!(first.spec.state.group_start, "first row starts repo:a");
    assert_eq!(first.vis, 0, "visible index 0");
    assert_eq!(first.spec.identity.abs_index, 0, "absolute index 0");
    let second = planned.get(1).expect("second row");
    assert!(!second.spec.state.group_start, "second row stays in repo:a");
    let third = planned.get(2).expect("third row");
    assert!(third.spec.state.group_start, "repo:b starts a new group");
}

#[test]
fn window_rows_emits_placeholders_for_uncached_rows() {
    let planned = window(&[row_value("repo:a", "k0")], 5, 0, 4, None);
    assert_eq!(planned.len(), 5, "window covers the full range");
    let first = planned.first().expect("first row");
    assert!(!first.spec.placeholder, "row 0 is cached");
    let second = planned.get(1).expect("second row");
    assert!(second.spec.placeholder, "row 1 is a placeholder");
    assert_eq!(second.spec.identity.abs_index, 1, "placeholder identity");
    assert_eq!(
        RowSpec::placeholder_classes(),
        "row row-placeholder",
        "placeholder class list"
    );
}

#[test]
fn window_specs_carries_the_planned_specs_to_the_dom_renderer() {
    let rows = vec![row_value("repo:a", "k0"), row_value("repo:a", "k1")];
    let specs: Vec<RowSpec> = window(&rows, 2, 0, 1, None)
        .into_iter()
        .map(|row| row.spec)
        .collect();
    assert_eq!(specs.len(), 2, "specs cover the window");
    let first = specs.first().expect("first spec");
    assert_eq!(first.identity.abs_index, 0, "first spec identity");
    let second = specs.get(1).expect("second spec");
    assert_eq!(second.identity.node_key, "k1", "second spec node key");
}

#[test]
fn append_window_seeds_group_start_from_the_previous_rendered_row() {
    let rows = vec![row_value("repo:a", "k0"), row_value("repo:a", "k1")];
    let planned = window(&rows, 2, 1, 1, Some("repo:a"));
    assert_eq!(planned.len(), 1, "one appended row");
    let row = planned.first().expect("appended row");
    assert!(
        !row.spec.state.group_start,
        "same group below an existing row is not a group start"
    );
    let planned = window(&rows, 2, 1, 1, Some("repo:b"));
    let row = planned.first().expect("appended row");
    assert!(
        row.spec.state.group_start,
        "a new group below an existing row is a group start"
    );
}

#[test]
fn frame_rows_include_only_viewport_rows_plus_overscan() {
    let rows: Vec<Json> = (0..5)
        .map(|index| row_value("repo:a", &format!("k{index}")))
        .collect();
    let planned = window(&rows, 5, 0, 4, None);
    // 100px viewport shows rows 0..=2 (0..102px) plus overscan row 3.
    let frame = frame_rows(&planned, 0, 100);
    assert_eq!(frame.len(), 4, "three visible rows + one overscan row");
    let first = frame.first().expect("first frame row");
    assert_eq!(first.index, 0, "first frame row is row 0");
    assert_eq!(first.key, "k0", "node key rides the frame row");
    assert_eq!(first.top, 0, "row 0 top is 0");
    assert_eq!(first.bottom, 34, "row 0 bottom is 34");
    assert_eq!(first.middle, 17, "row 0 middle is 17");
    let scrolled = frame_rows(&planned, 170, 100);
    assert!(
        scrolled.first().is_some_and(|row| row.index >= 3),
        "scrolling shifts the frame window"
    );
}

#[test]
fn a_window_ends_in_the_group_of_its_last_cached_row() {
    let rows = vec![row_value("repo:a", "k0"), row_value("repo:b", "k1")];
    let planned = window(&rows, 4, 0, 3, None);
    assert_eq!(group_below(&planned), Some("repo:b".to_string()));
    assert_eq!(group_below(&window(&[], 2, 0, 1, None)), None);
    assert!(starts_group(None, ""));
    assert!(!starts_group(Some("a"), "a"));
    assert!(starts_group(Some("a"), "b"));
}

#[test]
fn rendered_rows_outside_the_window_leave() {
    let state = flat_state(10);
    assert_eq!(
        state.rows_outside_visible(&[1, 4, 7, 12], 2, 7),
        vec![1, 12]
    );
    assert_eq!(state.visible_total(), 10);
    assert_eq!(state.abs_index_for_visible(-1), None);
    assert_eq!(state.visible_index_for_abs(3), Some(3));
    assert_eq!(
        HistoryAppState::viewport_visible_top(&Viewport::new(69, 100)),
        2
    );
    assert_eq!(state.viewport_visible_bottom(&Viewport::new(69, 100)), 4);
}

#[test]
fn a_restored_row_is_scrolled_to_within_the_list() {
    assert_eq!(restored_scroll_top(3, 100, 3400), 102);
    assert_eq!(restored_scroll_top(-4, 100, 3400), 0);
    assert_eq!(restored_scroll_top(99, 100, 3400), 3300);
    assert_eq!(restored_scroll_top(i64::MAX, 100, 3400), 3300);
    assert_eq!(restored_scroll_top(3, 100, 50), 0);
}

#[test]
fn a_search_says_how_many_results_it_has() {
    assert_eq!(search_banner(1, "fix"), "1 result for \"fix\"");
    assert_eq!(search_banner(20, "fix"), "20 results for \"fix\"");
    assert_eq!(search_banner(0, ""), "0 results for \"\"");
}
