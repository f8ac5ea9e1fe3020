use editchain_history::coordinates::ExpandedRow;
use editchain_history::find::{FindMatch, FindSession};
use editchain_history::interaction::{
    click_action, double_click_action, expandable, focus_action, open_json_send, redraw_window,
    roving_anchor, row_key_action, search_exit, search_input_action, search_key_action,
    spacer_height_px, tab_stops, ClickAction, Profile, RowAction, SearchAction, SearchExit,
};
use editchain_history::json::Json;
use editchain_history::motion::{patch_plan, Part};
use editchain_history::step::Send;

fn json(text: &str) -> Json {
    Json::parse(text).unwrap()
}

fn group_row() -> Json {
    json(r#"{"op_id": "op:1", "is_subop": false, "sub_ops": [{"op_id": "s0"}]}"#)
}

fn plain_row() -> Json {
    json(r#"{"op_id": "op:2", "is_subop": false, "sub_ops": []}"#)
}

fn press(key: &str, abs: i64, row: Option<&Json>, expanded: bool) -> RowAction {
    row_key_action(key, abs, &[4, 6, 9], false, row, expanded, false)
}

#[test]
fn arrows_move_between_the_rendered_rows() {
    assert_eq!(
        press("ArrowDown", 4, None, false),
        RowAction::Move {
            index: 1,
            abs: 6,
            select: false
        }
    );
    assert_eq!(
        press("ArrowUp", 6, None, false),
        RowAction::Move {
            index: 0,
            abs: 4,
            select: false
        }
    );
    assert_eq!(press("ArrowUp", 4, None, false), RowAction::Ignore);
    assert_eq!(press("ArrowDown", 9, None, false), RowAction::Ignore);
    assert_eq!(
        press("Home", 9, None, false),
        RowAction::Move {
            index: 0,
            abs: 4,
            select: false
        }
    );
    assert_eq!(
        press("End", 4, None, false),
        RowAction::Move {
            index: 2,
            abs: 9,
            select: false
        }
    );
    assert_eq!(
        row_key_action("Home", 0, &[], false, None, false, false),
        RowAction::Ignore
    );
}

#[test]
fn arrows_wrap_and_select_among_search_results() {
    assert_eq!(
        row_key_action("ArrowDown", 9, &[4, 6, 9], true, None, false, false),
        RowAction::Move {
            index: 0,
            abs: 4,
            select: true
        }
    );
    assert_eq!(
        row_key_action("ArrowUp", 4, &[4, 6, 9], true, None, false, false),
        RowAction::Move {
            index: 2,
            abs: 9,
            select: true
        }
    );
}

#[test]
fn keys_disclose_and_open_rows() {
    let group = group_row();
    let plain = plain_row();
    assert!(expandable(Some(&group)));
    assert!(!expandable(Some(&plain)));
    assert!(!expandable(None));
    assert_eq!(
        press("ArrowRight", 4, Some(&group), false),
        RowAction::Toggle
    );
    assert_eq!(
        press("ArrowRight", 4, Some(&group), true),
        RowAction::Ignore
    );
    assert_eq!(press("ArrowLeft", 4, Some(&group), true), RowAction::Toggle);
    assert_eq!(
        press("ArrowLeft", 4, Some(&group), false),
        RowAction::Ignore
    );
    assert_eq!(press("Enter", 4, Some(&group), false), RowAction::Toggle);
    assert_eq!(
        press("Enter", 4, Some(&plain), false),
        RowAction::Activate { open_json: true }
    );
    assert_eq!(
        press(" ", 4, Some(&plain), false),
        RowAction::Activate { open_json: true }
    );
    assert_eq!(press(" ", 4, Some(&group), false), RowAction::Toggle);
    assert_eq!(
        row_key_action("Enter", 4, &[4], false, Some(&plain), false, true),
        RowAction::Ignore
    );
    assert_eq!(press("x", 4, Some(&plain), false), RowAction::Ignore);
}

#[test]
fn one_rendered_row_takes_the_tab_stop() {
    assert_eq!(roving_anchor(&[4, 6, 9], 6), Some(6));
    assert_eq!(roving_anchor(&[4, 6, 9], 7), Some(4));
    assert_eq!(roving_anchor(&[], 7), None);
    assert_eq!(tab_stops(&[4, 6, 9], 6), vec![false, true, false]);
    assert_eq!(tab_stops(&[4, 6, 9], 1), vec![true, false, false]);
    assert_eq!(focus_action(Some(6), 6), None);
    assert_eq!(focus_action(Some(9), 6), Some(9));
    assert_eq!(focus_action(None, 6), None);
}

#[test]
fn clicks_select_toggle_and_open() {
    assert_eq!(
        click_action(Some(4), true, true, 1),
        ClickAction::SelectAndToggle {
            abs: 4,
            consume: true
        }
    );
    assert_eq!(
        click_action(Some(4), false, false, 1),
        ClickAction::SelectAndToggle {
            abs: 4,
            consume: false
        }
    );
    assert_eq!(click_action(Some(4), false, true, 1), ClickAction::Ignore);
    assert_eq!(click_action(None, false, false, 1), ClickAction::Ignore);
    assert_eq!(
        double_click_action(Some(4), false),
        ClickAction::OpenJson { abs: 4 }
    );
    assert_eq!(double_click_action(Some(4), true), ClickAction::Ignore);
    let plain = plain_row();
    match open_json_send(Some(&plain)) {
        Some(Send::OpenJson(body)) => {
            assert_eq!(body.get("op_id").and_then(Json::as_str), Some("op:2"));
        }
        _ => panic!("the row has a raw record"),
    }
    assert_eq!(open_json_send(None), None);
}

#[test]
fn the_search_box_submits_navigates_and_ends() {
    let idle = FindSession::new();
    let key = |key: &str, shift: bool, input: &str, find: &FindSession| {
        search_key_action(key, shift, input, find, "fix", false, Some(10))
    };
    assert_eq!(key("Enter", false, "fix", &idle), SearchAction::Submit);
    assert_eq!(key("x", false, "fix", &idle), SearchAction::Ignore);
    assert_eq!(
        key("Escape", false, "fix", &idle),
        SearchAction::Exit {
            exit: SearchExit::ClearFind,
            consume: true
        }
    );
    let mut find = FindSession::new();
    let _ = find.begin("fix");
    find.settle(
        vec![
            FindMatch {
                row: ExpandedRow::new(2).unwrap(),
                node_key: "a".to_string(),
            },
            FindMatch {
                row: ExpandedRow::new(5).unwrap(),
                node_key: "b".to_string(),
            },
        ],
        false,
    );
    assert!(find.navigation_enabled("fix"));
    assert!(!find.navigation_enabled("other"));
    assert_eq!(
        key("Enter", false, "fix", &find),
        SearchAction::Navigate { back: false }
    );
    assert_eq!(
        key("Enter", true, "fix", &find),
        SearchAction::Navigate { back: true }
    );
    assert_eq!(
        key("ArrowUp", false, "fix", &find),
        SearchAction::Navigate { back: true }
    );
    assert_eq!(
        search_key_action("ArrowUp", false, "fix", &idle, "fix", true, Some(10)),
        SearchAction::FocusResult { abs: 9 }
    );
    assert_eq!(
        key("Enter", false, "", &find),
        SearchAction::Exit {
            exit: SearchExit::ClearFind,
            consume: false
        }
    );
    assert_eq!(search_exit(true), SearchExit::ResetHistory);
    assert_eq!(search_exit(false), SearchExit::ClearFind);
    assert_eq!(search_input_action("x", false), None);
    assert_eq!(
        search_input_action("", true),
        Some(SearchExit::ResetHistory)
    );
}

#[test]
fn matches_are_walked_round_and_back() {
    let mut find = FindSession::new();
    assert_eq!(find.next_index(1), None);
    let epoch = find.begin("q");
    assert_eq!(find.pending_epoch(), Some(epoch));
    assert_eq!(find.query(), "q");
    find.settle(
        (0..3)
            .map(|row| FindMatch {
                row: ExpandedRow::new(row).unwrap(),
                node_key: row.to_string(),
            })
            .collect(),
        true,
    );
    assert!(find.active());
    assert!(find.more());
    assert_eq!(find.matches().len(), 3);
    assert_eq!(find.focus(2), ExpandedRow::new(2));
    assert_eq!(find.pending_target().unwrap().index, 2);
    find.complete_jump();
    assert_eq!(find.pending_target(), None);
    assert_eq!(find.index(), 2);
    assert_eq!(find.next_index(1), Some(0));
    assert_eq!(find.next_index(-1), Some(1));
    assert_eq!(find.focus(3), None);
    find.clear();
    assert!(!find.active());
    let later = find.begin("q");
    assert!(later > epoch);
    find.fail();
    assert_eq!(find.pending_epoch(), None);
}

#[test]
fn the_list_is_as_high_as_its_rows() {
    assert_eq!(spacer_height_px(10), 340);
    assert_eq!(spacer_height_px(0), 1);
    assert_eq!(redraw_window(false, 100, 10, 40), (10, 40));
    assert_eq!(redraw_window(true, 5, 10, 40), (0, 4));
}

#[test]
fn profiles_have_names() {
    assert_eq!(Profile::Activity.name(), "activity");
    assert_eq!(Profile::Raw.name(), "raw");
    assert_eq!(Profile::from_name("raw"), Profile::Raw);
    assert_eq!(Profile::from_name("anything"), Profile::Activity);
}

#[test]
fn a_part_of_a_redrawn_row_stays_mounted_under_its_key() {
    let names = |texts: &[&str]| -> Vec<String> { texts.iter().map(|t| t.to_string()).collect() };
    let patch = patch_plan(&names(&["a", "b", "b"]), &names(&["b", "c", "b", "b"]));
    assert_eq!(
        patch.parts,
        vec![
            Part::Retained(2),
            Part::Fresh,
            Part::Fresh,
            Part::Fresh
        ]
    );
    assert_eq!(patch.retired, vec![0]);
}
