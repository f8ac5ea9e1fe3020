use editchain_history::bisect::first_not_below;
use editchain_history::coordinates::ExpandedRow;
use editchain_history::find::{FindMatch, FindSession};
use editchain_history::json::Json;
use editchain_history::probe::{counter_dress, find_state, snapshot, status_text};
use editchain_history::pump::{LoaderTimer, Observed, Pump, ResizeWatch};
use editchain_history::step::FindCounterState;
use editchain_history::window::FrameRow;

#[test]
fn messages_are_handled_in_order_and_one_at_a_time() {
    let mut pump: Pump<u32, u32> = Pump::new();
    assert!(pump.deliver(1));
    assert!(!pump.deliver(2), "the handling is under way");
    assert!(!pump.begin_transition());
    assert_eq!(pump.next_message(), Some(1));
    assert!(!pump.deliver(3));
    assert_eq!(pump.next_message(), Some(2));
    assert_eq!(pump.next_message(), Some(3));
    assert_eq!(pump.next_message(), None);
    assert!(pump.begin_transition());
    assert!(
        !pump.begin_transition(),
        "no transition begins inside another"
    );
    assert!(!pump.deliver(4), "a transition is under way");
    pump.end_transition();
    assert!(pump.deliver(5));
    assert_eq!(pump.next_message(), Some(4));
    assert_eq!(pump.next_message(), Some(5));
}

#[test]
fn envelopes_leave_in_order_under_one_flush() {
    let mut pump: Pump<u32, &str> = Pump::new();
    assert!(pump.post("a"));
    assert!(!pump.post("b"));
    assert_eq!(pump.next_post(), Some("a"));
    assert!(!pump.post("c"));
    assert_eq!(pump.next_post(), Some("b"));
    assert_eq!(pump.next_post(), Some("c"));
    assert_eq!(pump.next_post(), None);
    assert!(pump.post("d"));
}

#[test]
fn only_a_changed_width_redraws() {
    let mut watch = ResizeWatch::new(800);
    assert_eq!(watch.observe(800), Observed::Unchanged);
    assert_eq!(watch.observe(801), Observed::Changed { cancel: None });
    watch.scheduled(7);
    assert_eq!(watch.observe(801), Observed::Unchanged);
    assert_eq!(watch.observe(640), Observed::Changed { cancel: Some(7) });
    watch.scheduled(8);
    watch.fired();
    assert_eq!(watch.observe(641), Observed::Changed { cancel: None });
    let mut loader = LoaderTimer::new();
    assert!(loader.idle());
    loader.started(3);
    assert!(!loader.idle());
    assert_eq!(loader.stop(), Some(3));
    assert_eq!(loader.stop(), None);
}

#[test]
fn probes_read_the_find_session() {
    let mut find = FindSession::new();
    let idle = find_state(&find);
    assert_eq!(idle.get("active").and_then(Json::as_bool), Some(false));
    assert!(idle.get("epoch").is_some_and(Json::is_null));
    assert!(idle.get("currentRow").is_some_and(Json::is_null));
    let epoch = find.begin("q");
    assert_eq!(
        find_state(&find).get("epoch").and_then(Json::as_u64),
        Some(epoch)
    );
    find.settle(
        vec![
            FindMatch {
                row: ExpandedRow::new(12).unwrap(),
                node_key: "a".to_string(),
            },
            FindMatch {
                row: ExpandedRow::new(30).unwrap(),
                node_key: "b".to_string(),
            },
        ],
        true,
    );
    let _ = find.focus(1);
    let settled = find_state(&find);
    assert_eq!(settled.get("active").and_then(Json::as_bool), Some(true));
    assert_eq!(settled.get("index").and_then(Json::as_u64), Some(1));
    assert_eq!(settled.get("total").and_then(Json::as_u64), Some(2));
    assert_eq!(settled.get("more").and_then(Json::as_bool), Some(true));
    assert_eq!(settled.get("currentRow").and_then(Json::as_i64), Some(30));
}

#[test]
fn probes_read_the_drawn_rows() {
    let row = FrameRow {
        index: 0,
        key: "k0".to_owned(),
        top: -34,
        bottom: 0,
        middle: -17,
        lane: 0,
        above: vec![],
        below: vec![0],
        transitions: vec![(0, 1)],
        is_subop: false,
        is_bundle: false,
    };
    let payload = snapshot(&vec![row], None);
    assert_eq!(payload.get("total").and_then(Json::as_i64), Some(-1));
    assert_eq!(payload.get("backend").and_then(Json::as_str), Some("svg"));
    let rows = payload.get("rows").and_then(Json::as_array).unwrap();
    assert_eq!(rows.len(), 1);
    assert_eq!(rows[0].get("key").and_then(Json::as_str), Some("k0"));
    assert_eq!(rows[0].get("node_key").and_then(Json::as_str), Some("k0"));
    assert_eq!(rows[0].get("top").and_then(Json::as_i64), Some(-34));
    assert_eq!(
        rows[0].get("transitions"),
        Some(&Json::parse("[[0,1]]").unwrap())
    );
    assert_eq!(
        snapshot(&vec![], Some(9)).get("total").and_then(Json::as_i64),
        Some(9)
    );
    assert_eq!(status_text(12, 340), "12 / 340 rows");
}

#[test]
fn the_find_counter_is_dressed_by_its_state() {
    let pending = counter_dress(&FindCounterState::Pending);
    assert_eq!(pending.class, Some("search-counter-pending"));
    assert_eq!(pending.aria_label.as_deref(), Some("Searching…"));
    assert!(pending.busy);
    let zero = counter_dress(&FindCounterState::Zero);
    assert_eq!(zero.class, Some("search-counter-zero"));
    assert_eq!(zero.aria_label, None);
    let failed = counter_dress(&FindCounterState::Error("down".to_string()));
    assert_eq!(failed.class, Some("search-counter-error"));
    assert_eq!(failed.aria_label.as_deref(), Some("Find failed: down"));
    assert_eq!(failed.title.as_deref(), Some("down"));
    assert!(!failed.busy);
    let hidden = counter_dress(&FindCounterState::Hidden);
    assert_eq!(hidden.class, None);
}

#[test]
fn bisection_finds_the_first_number_that_is_not_below() {
    assert_eq!(first_not_below(0, 100, |n| n * n < 50), 8);
    assert_eq!(first_not_below(0, 5, |n| n < 50), 5);
    assert_eq!(first_not_below(3, 5, |_| false), 3);
}
