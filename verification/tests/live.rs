use editchain_history::coordinates::{ExpandedRow, VisibleRow};
use editchain_history::live::LiveIndex;
use editchain_history::protocol::{
    ErrorCode, ExpansionSpanDto, GraphFacts, HistoryRow, LiveBaseline, LiveBlock, LiveBlockMeta,
    LiveDelta, SnapshotId, TaskStatus,
};

fn meta(key: &str, time: u64) -> LiveBlockMeta {
    LiveBlockMeta {
        key: key.to_string(),
        sort_time: time,
        row_count: 1,
        spans: vec![],
        task_group: Some("section".to_string()),
        task_summary: None,
        task_header: false,
    }
}

fn summary(anchor: &str, time: u64, status: TaskStatus) -> LiveBlockMeta {
    let mut meta = meta(anchor, time);
    meta.task_summary = Some(status);
    meta
}

fn baseline(status: TaskStatus) -> LiveBaseline {
    LiveBaseline {
        epoch: SnapshotId::new("epoch"),
        revision: 0,
        total: 4,
        blocks: vec![
            summary("d", 4, status),
            meta("c", 3),
            meta("b", 2),
            meta("a", 1),
        ],
    }
}

fn keys(names: &[&str]) -> Vec<String> {
    names.iter().map(|name| name.to_string()).collect()
}

/// The straight interiors of the path from `a` up to `d`.
fn interiors() -> Vec<String> {
    keys(&["b", "c"])
}

fn facts(foldable: &[&str], changed: &[&str]) -> GraphFacts {
    GraphFacts {
        foldable: keys(foldable),
        changed: keys(changed),
        geometry: vec![],
    }
}

fn row(value: i64) -> ExpandedRow {
    ExpandedRow::new(value).unwrap()
}

fn visible(index: &LiveIndex) -> Vec<String> {
    index
        .visible_between(row(0), row(i64::try_from(index.total()).unwrap()))
        .into_iter()
        .map(|row| index.position(row.get()).unwrap().0)
        .collect()
}

fn history_row(key: &str) -> HistoryRow {
    HistoryRow {
        node_key: key.to_string(),
        continuity_key: key.to_string(),
        summary: key.to_string(),
        parent_row: None,
        max_lane: 0,
        encoded: Ok(200),
    }
}

fn edit(index: &LiveIndex, metas: &[LiveBlockMeta]) -> LiveDelta {
    let old: u64 = metas
        .iter()
        .filter_map(|meta| index.blocks.iter().find(|block| block.meta.key == meta.key))
        .map(|block| block.meta.row_count)
        .sum();
    LiveDelta {
        base_revision: index.revision,
        revision: index.revision + 1,
        snapshot_id: index.epoch.clone(),
        removed: vec![],
        upserts: metas
            .iter()
            .map(|meta| LiveBlock {
                meta: meta.clone(),
                rows: vec![history_row(&meta.key)],
            })
            .collect(),
        total: index.total() - old + metas.len() as u64,
        max_lane: 1,
    }
}

fn delta(index: &mut LiveIndex, metas: &[LiveBlockMeta], facts: &GraphFacts) {
    let edit = edit(index, metas);
    index.apply(&edit, &vec![], facts).unwrap();
}

#[test]
fn completed_history_folds_only_straight_interiors_and_rank_select_skips_them() {
    let mut index = LiveIndex::new(&baseline(TaskStatus::Completed), &interiors()).unwrap();
    assert_eq!(visible(&index), ["d", "a"]);
    assert_eq!(index.visible_total(), 2);
    for start in 0..4 {
        for end in start..4 {
            let rows = index
                .visible_between(row(start), row(end))
                .into_iter()
                .map(ExpandedRow::get)
                .collect::<Vec<_>>();
            assert_eq!(
                rows,
                [0, 3]
                    .into_iter()
                    .filter(|row| *row >= start && *row <= end)
                    .collect::<Vec<_>>()
            );
        }
    }
    assert!(index.toggle_task(row(0)));
    assert_eq!(visible(&index), ["d", "c", "b", "a"]);
    assert!(index.toggle_task(row(0)));
    index.reveal_row(row(2));
    assert_eq!(visible(&index), ["d", "b", "a"]);
}

#[test]
fn new_and_revised_members_stay_visible_even_in_a_completed_folded_task() {
    let mut index = LiveIndex::new(&baseline(TaskStatus::Completed), &interiors()).unwrap();
    delta(
        &mut index,
        &[summary("e", 5, TaskStatus::Completed), meta("d", 4)],
        &facts(&["b", "c", "d"], &["d"]),
    );
    assert_eq!(visible(&index), ["e", "d", "a"]);
    delta(&mut index, &[meta("b", 2)], &facts(&["b", "c", "d"], &[]));
    assert_eq!(visible(&index), ["e", "d", "b", "a"]);
    assert!(!index.task_expanded(row(0)));
}

#[test]
fn completion_never_collapses_a_task_already_visible_in_this_view() {
    let mut index = LiveIndex::new(&baseline(TaskStatus::InProgress), &interiors()).unwrap();
    delta(
        &mut index,
        &[summary("d", 4, TaskStatus::Completed)],
        &facts(&["b", "c"], &[]),
    );
    assert_eq!(visible(&index), ["d", "c", "b", "a"]);
    let mut empty = LiveIndex::new(
        &LiveBaseline {
            epoch: SnapshotId::new("e"),
            revision: 0,
            total: 0,
            blocks: vec![],
        },
        &vec![],
    )
    .unwrap();
    delta(
        &mut empty,
        &baseline(TaskStatus::Completed).blocks,
        &facts(&["b", "c"], &["b", "c"]),
    );
    assert_eq!(visible(&empty), ["d", "c", "b", "a"]);
}

#[test]
fn late_forks_reveal_hidden_attachments() {
    let mut index = LiveIndex::new(&baseline(TaskStatus::Completed), &interiors()).unwrap();
    let mut branch = meta("fork", 6);
    branch.task_group = None;
    delta(&mut index, &[branch], &facts(&["c"], &["b"]));
    assert!(visible(&index).iter().any(|key| key == "b"));
    assert_eq!(visible(&index), ["fork", "d", "b", "a"]);
    let anchor = index.absolute(&("d".to_string(), 0)).unwrap();
    assert!(index.toggle_task(row(anchor)));
    assert_eq!(visible(&index), ["fork", "d", "c", "b", "a"]);
    assert_eq!(index.foldable, keys(&["c"]));
}

#[test]
fn places_and_rows_name_each_other() {
    let index = LiveIndex::new(&baseline(TaskStatus::Completed), &interiors()).unwrap();
    for abs in 0..4 {
        let place = index.position(abs).unwrap();
        assert_eq!(index.absolute(&place), Some(abs));
    }
    assert_eq!(index.position(4), None);
    assert_eq!(index.position(-1), None);
    assert_eq!(index.absolute(&("missing".to_string(), 0)), None);
    assert_eq!(index.absolute(&("d".to_string(), 1)), None);
    let first = VisibleRow::new(1).unwrap();
    assert_eq!(index.expanded_for(first), Some(row(3)));
    assert_eq!(index.visible_for(row(3)), Some(first));
    assert_eq!(index.visible_for(row(1)), None);
}

#[test]
fn edits_that_do_not_follow_are_refused_and_change_nothing() {
    let mut index = LiveIndex::new(&baseline(TaskStatus::Completed), &interiors()).unwrap();
    let good = edit(&index, &[meta("e", 5)]);
    let mut late = good.clone();
    late.base_revision = 7;
    let refused = index
        .apply(&late, &vec![], &facts(&["b", "c"], &[]))
        .unwrap_err();
    assert_eq!(refused.code, ErrorCode::InvalidInput);
    assert_eq!(refused.message, "Missing live revision; request replay.");
    let mut miscounted = good.clone();
    miscounted.total = 9;
    let refused = index
        .apply(&miscounted, &vec![], &facts(&["b", "c"], &[]))
        .unwrap_err();
    assert_eq!(refused.message, "Live delta total mismatch.");
    let twice = edit(&index, &[meta("e", 5), meta("e", 5)]);
    let refused = index
        .apply(&twice, &vec![], &facts(&["b", "c"], &[]))
        .unwrap_err();
    assert_eq!(refused.message, "Duplicate live edit identity.");
    assert_eq!(visible(&index), ["d", "a"]);
    assert_eq!(index.revision, 0);
    index
        .apply(&good, &vec![], &facts(&["b", "c"], &[]))
        .unwrap();
    assert_eq!(index.revision, 1);
    assert_eq!(visible(&index), ["e", "d", "a"]);
}

#[test]
fn an_open_disclosure_stays_open_in_a_revised_block() {
    let mut parent = meta("p", 1);
    parent.task_group = None;
    parent.row_count = 3;
    parent.spans = vec![ExpansionSpanDto {
        row: 0,
        descendant_count: 2,
    }];
    let mut index = LiveIndex::new(
        &LiveBaseline {
            epoch: SnapshotId::new("epoch"),
            revision: 4,
            total: 3,
            blocks: vec![parent.clone()],
        },
        &vec![],
    )
    .unwrap();
    assert_eq!(index.visible_total(), 1);
    assert!(index.toggle(row(0)));
    assert!(index.is_expanded(row(0)));
    assert_eq!(index.visible_total(), 3);
    let rows = vec![history_row("one"), history_row("two"), history_row("three")];
    let revised = LiveDelta {
        base_revision: 4,
        revision: 5,
        snapshot_id: SnapshotId::new("epoch"),
        removed: vec![],
        upserts: vec![LiveBlock { meta: parent, rows }],
        total: 3,
        max_lane: 0,
    };
    index
        .apply(&revised, &keys(&["one"]), &facts(&[], &[]))
        .unwrap();
    assert_eq!(index.visible_total(), 3);
    let mut removal = revised.clone();
    removal.base_revision = 5;
    removal.revision = 6;
    removal.upserts = vec![];
    removal.removed = keys(&["p"]);
    removal.total = 0;
    index.apply(&removal, &vec![], &facts(&[], &[])).unwrap();
    assert_eq!(index.total(), 0);
}

#[test]
fn a_baseline_that_miscounts_its_rows_is_refused() {
    let mut wrong = baseline(TaskStatus::Completed);
    wrong.total = 5;
    assert_eq!(
        LiveIndex::new(&wrong, &vec![]).unwrap_err().code,
        ErrorCode::InvalidInput
    );
    let mut twice = baseline(TaskStatus::Completed);
    twice.blocks[1] = meta("b", 2);
    assert_eq!(
        LiveIndex::new(&twice, &vec![]).unwrap_err().code,
        ErrorCode::InvalidInput
    );
}
