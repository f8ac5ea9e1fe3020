use editchain_history::cache::{CacheEntry, PageCache};
use editchain_history::coordinates::ExpandedRow;
use editchain_history::delta::{remap_child, retired, DeltaOutcome, UpdateOutcome};
use editchain_history::find::{FindMatch, FindSession};
use editchain_history::live::LiveIndex;
use editchain_history::protocol::{
    ErrorCode, GraphFacts, HistoryRow, LiveBaseline, LiveBlock, LiveBlockMeta, LiveDelta,
    LiveUpdate, LiveWork, RowGeometry, ServiceError, SnapshotId,
};
use editchain_history::row_input::RowInput;
use editchain_history::state::{HistoryAppState, Selection, Topology};
use editchain_history::step::{DomOp, Send, Step, Viewport};

fn meta(key: &str, time: u64) -> LiveBlockMeta {
    LiveBlockMeta {
        key: key.to_string(),
        sort_time: time,
        row_count: 1,
        spans: vec![],
        task_group: None,
        task_summary: None,
        task_header: false,
    }
}

fn history_row(key: &str) -> HistoryRow {
    HistoryRow {
        node_key: format!("node-{key}"),
        continuity_key: key.to_string(),
        summary: key.to_string(),
        parent_row: None,
        max_lane: 0,
        encoded: Ok(100),
    }
}

fn row(value: i64) -> ExpandedRow {
    ExpandedRow::new(value).unwrap()
}

fn block(key: &str, time: u64) -> LiveBlock {
    LiveBlock {
        meta: meta(key, time),
        rows: vec![history_row(key)],
    }
}

/// Ten blocks, newest first, every row retained.
fn state() -> HistoryAppState {
    let names: Vec<String> = (0..10).map(|at| format!("b{at}")).collect();
    let blocks: Vec<LiveBlockMeta> = names
        .iter()
        .enumerate()
        .map(|(at, name)| meta(name, 100 - at as u64))
        .collect();
    let index = LiveIndex::new(
        &LiveBaseline {
            epoch: SnapshotId::new("epoch"),
            revision: 1,
            total: 10,
            blocks,
        },
        &vec![],
    )
    .unwrap();
    let mut cache = PageCache::new();
    for (at, name) in names.iter().enumerate() {
        let entry = CacheEntry::new(RowInput::new(history_row(name))).unwrap();
        drop(cache.insert(row(at as i64), entry));
    }
    HistoryAppState {
        remote: false,
        topology: Topology::Live(index),
        cache,
        max_lane: 0,
        render_top: 0,
        render_bottom: 9,
        selection: Selection::new(),
        expanded_keys: vec![],
        snapshot_id: SnapshotId::new("s1"),
        view_gen: 4,
        requests: vec![8],
        total: Some(10),
        find: FindSession::new(),
    }
}

fn delta(removed: &[&str], upserts: Vec<LiveBlock>, total: u64) -> LiveDelta {
    LiveDelta {
        base_revision: 1,
        revision: 2,
        snapshot_id: SnapshotId::new("s2"),
        removed: removed.iter().map(|key| key.to_string()).collect(),
        upserts,
        total,
        max_lane: 3,
    }
}

fn update(deltas: Vec<LiveDelta>, revision: u64) -> LiveUpdate {
    LiveUpdate {
        epoch: SnapshotId::new("epoch"),
        revision,
        deltas,
        work: LiveWork {
            blocks: 1,
            chain_records: 5,
        },
    }
}

fn facts() -> GraphFacts {
    GraphFacts {
        foldable: vec![],
        changed: vec![],
        geometry: vec![],
    }
}

#[test]
fn an_insertion_above_keeps_the_viewed_row_in_place() {
    let mut state = state();
    state.selection.select_with_continuity("node-b5", "b5");
    state.selection.set_roving(Some(row(5)));
    let moved = state
        .apply_delta(
            &delta(&[], vec![block("new", 200)], 11),
            &facts(),
            &Viewport::new(3 * 34 + 7, 68),
        )
        .unwrap();
    assert_eq!(moved.scroll_top.get(), 4 * 34 + 7);
    assert_eq!(moved.client_height.get(), 68);
    assert_eq!(state.cache.get(row(0)).unwrap().source.summary, "new");
    assert_eq!(state.cache.get(row(4)).unwrap().source.summary, "b3");
    assert_eq!(state.cache.len(), 11);
    assert_eq!(state.selection.roving, Some(row(6)));
    assert_eq!(state.selection.continuity_key, Some("b5".to_string()));
    assert_eq!(state.total, Some(11));
    assert_eq!(state.max_lane, 3);
    assert_eq!(state.view_gen, 5);
    assert!(state.requests.is_empty());
    assert_eq!(state.snapshot_id, SnapshotId::new("s2"));
}

#[test]
fn a_view_at_the_top_stays_at_the_top() {
    let mut state = state();
    let moved = state
        .apply_delta(
            &delta(&[], vec![block("new", 200)], 11),
            &facts(),
            &Viewport::new(0, 68),
        )
        .unwrap();
    assert_eq!(moved.scroll_top.get(), 0);
}

#[test]
fn removing_the_viewed_row_keeps_the_position_in_the_list() {
    let mut state = state();
    state.selection.select_with_continuity("node-b3", "b3");
    let moved = state
        .apply_delta(&delta(&["b3"], vec![], 9), &facts(), &Viewport::new(102, 68))
        .unwrap();
    assert_eq!(moved.scroll_top.get(), 102);
    assert_eq!(state.selection.continuity_key, None);
    assert_eq!(state.selection.node_key, None);
    assert_eq!(state.cache.get(row(3)).unwrap().source.summary, "b4");
    assert_eq!(state.cache.len(), 9);
}

#[test]
fn a_revised_row_keeps_its_selection_under_its_new_name() {
    let mut state = state();
    state.selection.select_with_continuity("node-b2", "b2");
    let mut revised = block("b2", 98);
    revised.rows[0].node_key = "renamed".to_string();
    revised.rows[0].summary = "revised".to_string();
    state
        .apply_delta(&delta(&[], vec![revised], 10), &facts(), &Viewport::new(0, 68))
        .unwrap();
    assert_eq!(state.selection.node_key, Some("renamed".to_string()));
    assert_eq!(state.cache.get(row(2)).unwrap().source.summary, "revised");
}

#[test]
fn retained_rows_take_the_latest_geometry() {
    let mut state = state();
    let mut facts = facts();
    facts.geometry.push(RowGeometry {
        key: "b4".to_string(),
        slot: 0,
        max_lane: 7,
        encoded: Ok(150),
    });
    state
        .apply_delta(
            &delta(&[], vec![block("new", 200)], 11),
            &facts,
            &Viewport::new(0, 68),
        )
        .unwrap();
    assert_eq!(state.cache.get(row(5)).unwrap().max_graph_lane(), 7);
    assert_eq!(state.cache.get(row(5)).unwrap().cache_bytes(), Ok(154));
    assert_eq!(state.graph_max_lane(), 7);
}

#[test]
fn an_update_replays_what_the_view_has_not_seen() {
    let mut state = state();
    let mut second = delta(&["b9"], vec![], 10);
    second.base_revision = 2;
    second.revision = 3;
    second.snapshot_id = SnapshotId::new("s3");
    let mut step = Step::new();
    let outcome = state
        .apply_update(
            &update(vec![delta(&[], vec![block("new", 200)], 11), second], 3),
            &vec![facts(), facts()],
            &Viewport::new(68, 68),
            &mut step,
        )
        .unwrap();
    assert!(matches!(
        outcome,
        UpdateOutcome::Changed { viewport, query: None, log }
            if viewport.scroll_top.get() == 102
                && log == "live delta: revision 3, 1 blocks, 5 chain records"
    ));
    assert_eq!(step.ops, vec![DomOp::RefreshHeader]);
    assert_eq!(state.visible_total(), 10);
    let outcome = state
        .apply_update(
            &update(vec![delta(&[], vec![block("new", 200)], 11)], 3),
            &vec![facts()],
            &Viewport::new(68, 68),
            &mut step,
        )
        .unwrap();
    assert!(matches!(outcome, UpdateOutcome::Unchanged));
    assert_eq!(
        step.sends,
        vec![Send::LiveSettled {
            snapshot_id: "s3".to_string(),
            error: None
        }]
    );
}

#[test]
fn an_active_query_is_searched_again() {
    let mut state = state();
    let _ = state.find.begin("needle");
    state.find.settle(
        vec![FindMatch {
            row: row(2),
            node_key: "node-b2".to_string(),
        }],
        false,
    );
    let mut step = Step::new();
    let outcome = state
        .apply_update(
            &update(vec![delta(&[], vec![block("new", 200)], 11)], 2),
            &vec![facts()],
            &Viewport::new(0, 68),
            &mut step,
        )
        .unwrap();
    assert!(matches!(
        outcome,
        UpdateOutcome::Changed { query: Some(query), .. } if query == "needle"
    ));
}

#[test]
fn updates_of_another_epoch_or_with_a_gap_are_refused() {
    let mut state = state();
    let mut step = Step::new();
    let mut foreign = update(vec![], 1);
    foreign.epoch = SnapshotId::new("other");
    let refused = state
        .apply_update(&foreign, &vec![], &Viewport::new(0, 68), &mut step)
        .unwrap_err();
    assert_eq!(refused.message, "Live epoch changed; bootstrap required.");
    let refused = state
        .apply_update(&update(vec![], 5), &vec![], &Viewport::new(0, 68), &mut step)
        .unwrap_err();
    assert_eq!(refused.message, "Live replay has a revision gap.");
    state.topology = Topology::Flat;
    let refused = state
        .apply_update(&update(vec![], 1), &vec![], &Viewport::new(0, 68), &mut step)
        .unwrap_err();
    assert_eq!(refused.message, "Live baseline is missing.");
    let refused = state
        .apply_delta(&delta(&[], vec![], 10), &facts(), &Viewport::new(0, 68))
        .unwrap_err();
    assert_eq!(refused.message, "Live topology is missing.");
    state.remote = true;
    assert!(matches!(
        state.apply_update(&update(vec![], 1), &vec![], &Viewport::new(0, 68), &mut step),
        Ok(UpdateOutcome::Remote)
    ));
}

#[test]
fn a_failed_delivery_settles_the_revision_that_it_aimed_at() {
    let mut state = state();
    let mut step = Step::new();
    let mut wrong = delta(&[], vec![block("new", 200)], 11);
    wrong.total = 12;
    let outcome = state.handle_delta(
        &Ok(update(vec![wrong], 2)),
        &vec![facts()],
        &Viewport::new(0, 68),
        &mut step,
    );
    match outcome {
        DeltaOutcome::Failed { message, settled } => {
            assert_eq!(message, "Live delta total mismatch.");
            assert_eq!(
                settled,
                Some(Send::LiveSettled {
                    snapshot_id: "s2".to_string(),
                    error: Some("Live delta total mismatch.".to_string()),
                })
            );
        }
        DeltaOutcome::Applied(_) => panic!("a miscounted delta was applied"),
    }
    let refused = ServiceError::new(ErrorCode::StaleSnapshot, "gone");
    let outcome = state.handle_delta(&Err(refused), &vec![], &Viewport::new(0, 68), &mut step);
    assert!(matches!(
        outcome,
        DeltaOutcome::Failed { message, settled: None } if message == "gone"
    ));
}

#[test]
fn an_identity_is_retired_with_its_block_or_its_row() {
    let removed = delta(&["b1"], vec![], 9);
    assert!(retired("b1", &removed));
    assert!(retired("b1:child", &removed));
    assert!(!retired("b10", &removed));
    let revised = delta(&[], vec![block("b1", 99)], 10);
    assert!(!retired("b1", &revised));
    assert!(retired("b1:child", &revised));
}

#[test]
fn a_place_follows_its_identity_into_a_revised_block() {
    let mut revised = block("b1", 99);
    revised.rows = vec![history_row("x"), history_row("y")];
    revised.meta.row_count = 2;
    let edit = delta(&[], vec![revised], 11);
    let mut place = Some(("b1".to_string(), 0));
    remap_child(&mut place, Some("y"), &edit);
    assert_eq!(place, Some(("b1".to_string(), 1)));
    remap_child(&mut place, Some("missing"), &edit);
    assert_eq!(place, Some(("b1".to_string(), 0)));
    let mut other = Some(("b2".to_string(), 3));
    remap_child(&mut other, Some("y"), &edit);
    assert_eq!(other, Some(("b2".to_string(), 3)));
}

#[test]
fn a_refused_edit_drops_no_more_than_a_retired_selection() {
    let mut state = state();
    state.selection.select_with_continuity("node-b3", "b3");
    let mut heavy = block("new", 200);
    heavy.rows[0].encoded = Ok(16 * 1024 * 1024 + 1);
    let error = state
        .apply_delta(&delta(&["b3"], vec![heavy], 10), &facts(), &Viewport::new(0, 68))
        .unwrap_err();
    assert_eq!(
        error.message,
        "A history row exceeds the retained content budget."
    );
    assert_eq!(state.selection.continuity_key, None);
    assert_eq!(state.cache.get(row(3)).unwrap().source.summary, "b3");
    assert_eq!(state.total, Some(10));
    assert_eq!(state.snapshot_id, SnapshotId::new("s1"));
    assert_eq!(state.requests, vec![8]);

    let error = state
        .apply_delta(
            &delta(&[], vec![block("new", 200)], 12),
            &facts(),
            &Viewport::new(0, 68),
        )
        .unwrap_err();
    assert_eq!(error.message, "Live delta total mismatch.");
    assert_eq!(state.cache.len(), 10);
    assert_eq!(state.view_gen, 4);
}

#[test]
fn a_row_that_grew_too_large_ends_the_edit_where_it_stands() {
    let mut state = state();
    let mut facts = facts();
    facts.geometry.push(RowGeometry {
        key: "b4".to_string(),
        slot: 0,
        max_lane: 7,
        encoded: Ok(16 * 1024 * 1024 + 1),
    });
    let error = state
        .apply_delta(
            &delta(&[], vec![block("new", 200)], 11),
            &facts,
            &Viewport::new(0, 68),
        )
        .unwrap_err();
    assert_eq!(
        error.message,
        "A history row exceeds the retained content budget."
    );
    assert_eq!(state.cache.len(), 5);
    assert_eq!(state.cache.get(row(4)).unwrap().source.summary, "b3");
    assert_eq!(state.snapshot_id, SnapshotId::new("s1"));
}

#[test]
fn a_lane_that_cannot_be_counted_is_refused_after_the_edit() {
    let mut state = state();
    let mut wide = delta(&[], vec![block("new", 200)], 11);
    wide.max_lane = u64::from(u32::MAX) + 1;
    let error = state
        .apply_delta(&wide, &facts(), &Viewport::new(0, 68))
        .unwrap_err();
    assert_eq!(error.message, "Live lane overflow.");
    assert_eq!(state.total, Some(11));
    assert_eq!(state.snapshot_id, SnapshotId::new("s2"));
    assert_eq!(state.max_lane, 0);
    assert_eq!(state.cache.len(), 11);
}

#[test]
fn a_repeated_update_only_settles() {
    let mut state = state();
    let once = update(vec![delta(&["b3"], vec![block("new", 200)], 10)], 2);
    let mut step = Step::new();
    let viewport = Viewport::new(68, 68);
    let outcome = state
        .apply_update(&once, &vec![facts()], &viewport, &mut step)
        .unwrap();
    assert!(matches!(outcome, UpdateOutcome::Changed { .. }));
    let view_gen = state.view_gen;
    let mut step = Step::new();
    let outcome = state
        .apply_update(&once, &vec![facts()], &viewport, &mut step)
        .unwrap();
    assert!(matches!(outcome, UpdateOutcome::Unchanged));
    assert_eq!(state.view_gen, view_gen);
    assert_eq!(state.total, Some(10));
    assert_eq!(state.cache.len(), 10);
    assert!(step.ops.is_empty());
    assert_eq!(
        step.sends,
        vec![Send::LiveSettled {
            snapshot_id: "s2".to_string(),
            error: None
        }]
    );
}
