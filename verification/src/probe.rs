//! What the view tells probes and its status lines.

use crate::find::FindSession;
use crate::json::{self, Json, JsonView};
use crate::step::FindCounterState;
use crate::text::{self, decimal_text, joined};
use crate::window::FrameRow;
use vstd::prelude::*;

verus! {

/// A count, or null.
pub open spec fn optional_number(value: Option<u64>) -> JsonView {
    match value {
        Some(value) => json::unsigned_number(value),
        None => JsonView::Null,
    }
}

/// The row of the current match of a settled search.
pub open spec fn current_row(find: FindSession) -> JsonView {
    if 0 <= find.position() < find.found().len() {
        json::signed_number(find.found()[find.position()].row@ as i64)
    } else {
        JsonView::Null
    }
}

/// The find session as a payload.
pub open spec fn find_payload(find: FindSession) -> JsonView {
    json::with_field(
        json::with_field(
            json::with_field(
                json::with_field(
                    json::with_field(
                        json::with_field(
                            json::empty_object(),
                            "active"@,
                            JsonView::Bool(find.phase is Settled),
                        ),
                        "index"@,
                        json::unsigned_number(find.position() as u64),
                    ),
                    "total"@,
                    json::unsigned_number(find.found().len() as u64),
                ),
                "more"@,
                JsonView::Bool(
                    find.phase matches crate::find::Phase::Settled(results) && results.more,
                ),
            ),
            "epoch"@,
            optional_number(
                match find.phase {
                    crate::find::Phase::Pending { epoch, .. } => Some(epoch),
                    _ => None,
                },
            ),
        ),
        "currentRow"@,
        current_row(find),
    )
}

/// The find session as a payload.
pub fn find_state(find: &FindSession) -> (payload: Json)
    ensures
        payload@ == find_payload(*find),
{
    let matches = find.matches();
    let at: usize = find.index();
    let current = if at < matches.len() {
        Json::from_i64(matches[at].row.get())
    } else {
        Json::Null
    };
    let epoch = match find.pending_epoch() {
        Some(epoch) => Json::from_u64(epoch),
        None => Json::Null,
    };
    Json::object().with("active", Json::Bool(find.active())).with(
        "index",
        Json::from_u64(at as u64),
    ).with("total", Json::from_u64(matches.len() as u64)).with(
        "more",
        Json::Bool(find.more()),
    ).with("epoch", epoch).with("currentRow", current)
}

/// Lanes as a payload.
pub open spec fn lanes_payload(lanes: Seq<u32>) -> JsonView {
    JsonView::Array(Seq::new(lanes.len(), |i: int| json::unsigned_number(lanes[i] as u64)))
}

fn lanes_json(lanes: &Vec<u32>) -> (payload: Json)
    ensures
        payload@ == lanes_payload(lanes@),
{
    let mut items: Vec<Json> = Vec::new();
    let mut i: usize = 0;
    while i < lanes.len()
        invariant
            i <= lanes@.len(),
            items@.len() == i,
            forall|k: int|
                0 <= k < i ==> (#[trigger] items@[k])@ == json::unsigned_number(lanes@[k] as u64),
        decreases lanes.len() - i,
    {
        items.push(Json::from_u64(lanes[i] as u64));
        i = i + 1;
    }
    let payload = Json::Array(items);
    assert(payload@->Array_0 =~= lanes_payload(lanes@)->Array_0);
    payload
}

/// Transitions as a payload.
pub open spec fn pairs_payload(pairs: Seq<(u32, u32)>) -> JsonView {
    JsonView::Array(
        Seq::new(pairs.len(), |i: int| lanes_payload(seq![pairs[i].0, pairs[i].1])),
    )
}

fn pairs_json(pairs: &Vec<(u32, u32)>) -> (payload: Json)
    ensures
        payload@ == pairs_payload(pairs@),
{
    let mut items: Vec<Json> = Vec::new();
    let mut i: usize = 0;
    while i < pairs.len()
        invariant
            i <= pairs@.len(),
            items@.len() == i,
            forall|k: int|
                0 <= k < i ==> (#[trigger] items@[k])@ == lanes_payload(
                    seq![pairs@[k].0, pairs@[k].1],
                ),
        decreases pairs.len() - i,
    {
        let mut pair: Vec<u32> = Vec::new();
        pair.push(pairs[i].0);
        pair.push(pairs[i].1);
        assert(pair@ =~= seq![pairs@[i as int].0, pairs@[i as int].1]);
        items.push(lanes_json(&pair));
        i = i + 1;
    }
    let payload = Json::Array(items);
    assert(payload@->Array_0 =~= pairs_payload(pairs@)->Array_0);
    payload
}

/// A drawn row as a payload.
pub open spec fn row_payload(row: FrameRow) -> JsonView {
    json::with_field(
        json::with_field(
            json::with_field(
                json::with_field(
                    json::with_field(
                        json::with_field(
                            json::with_field(
                                json::with_field(
                                    json::with_field(
                                        json::with_field(
                                            json::with_field(
                                                json::with_field(
                                                    json::empty_object(),
                                                    "index"@,
                                                    json::signed_number(row.index),
                                                ),
                                                "key"@,
                                                JsonView::Str(row.key@),
                                            ),
                                            "node_key"@,
                                            JsonView::Str(row.key@),
                                        ),
                                        "lane"@,
                                        json::unsigned_number(row.lane as u64),
                                    ),
                                    "above"@,
                                    lanes_payload(row.above@),
                                ),
                                "below"@,
                                lanes_payload(row.below@),
                            ),
                            "transitions"@,
                            pairs_payload(row.transitions@),
                        ),
                        "top"@,
                        json::signed_number(row.top),
                    ),
                    "bottom"@,
                    json::signed_number(row.bottom),
                ),
                "middle"@,
                json::signed_number(row.middle),
            ),
            "is_subop"@,
            JsonView::Bool(row.is_subop),
        ),
        "is_bundle"@,
        JsonView::Bool(row.is_bundle),
    )
}

/// A drawn row as a payload.
pub fn frame_row_json(row: &FrameRow) -> (payload: Json)
    ensures
        payload@ == row_payload(*row),
{
    Json::object().with("index", Json::from_i64(row.index)).with(
        "key",
        Json::from_text(row.key.as_str()),
    ).with("node_key", Json::from_text(row.key.as_str())).with(
        "lane",
        Json::from_u64(row.lane as u64),
    ).with("above", lanes_json(&row.above)).with("below", lanes_json(&row.below)).with(
        "transitions",
        pairs_json(&row.transitions),
    ).with("top", Json::from_i64(row.top)).with("bottom", Json::from_i64(row.bottom)).with(
        "middle",
        Json::from_i64(row.middle),
    ).with("is_subop", Json::Bool(row.is_subop)).with("is_bundle", Json::Bool(row.is_bundle))
}

/// The drawn rows and the length of the history as a payload.
pub open spec fn snapshot_payload(rows: Seq<FrameRow>, total: Option<i64>) -> JsonView {
    json::with_field(
        json::with_field(
            json::with_field(
                json::empty_object(),
                "rows"@,
                JsonView::Array(Seq::new(rows.len(), |i: int| row_payload(rows[i]))),
            ),
            "total"@,
            json::signed_number(
                match total {
                    Some(total) => total,
                    None => -1i64,
                },
            ),
        ),
        "backend"@,
        JsonView::Str("svg"@),
    )
}

/// The drawn rows and the length of the history as a payload; an unknown length
/// is given as minus one.
pub fn snapshot(rows: &Vec<FrameRow>, total: Option<i64>) -> (payload: Json)
    ensures
        payload@ == snapshot_payload(rows@, total),
{
    let mut items: Vec<Json> = Vec::new();
    let mut i: usize = 0;
    while i < rows.len()
        invariant
            i <= rows@.len(),
            items@.len() == i,
            forall|k: int| 0 <= k < i ==> (#[trigger] items@[k])@ == row_payload(rows@[k]),
        decreases rows.len() - i,
    {
        items.push(frame_row_json(&rows[i]));
        i = i + 1;
    }
    let drawn = Json::Array(items);
    proof {
        assert(drawn@->Array_0 =~= Seq::new(rows@.len(), |i: int| row_payload(rows@[i])));
    }
    let known: i64 = match total {
        Some(total) => total,
        None => -1,
    };
    Json::object().with("rows", drawn).with("total", Json::from_i64(known)).with(
        "backend",
        Json::from_text("svg"),
    )
}

/// How many of the rows are drawn, in words.
pub fn status_text(drawn: usize, total: u64) -> (out: String)
    ensures
        out@ == text::decimal(drawn as nat) + " / "@ + text::decimal(total as nat) + " rows"@,
{
    let mut out = decimal_text(drawn as u64);
    out.append(" / ");
    out.append(decimal_text(total).as_str());
    out.append(" rows");
    out
}

/// How the find counter is dressed.
#[derive(Debug, PartialEq, Eq)]
pub struct CounterDress {
    pub class: Option<&'static str>,
    pub aria_label: Option<String>,
    pub busy: bool,
    pub title: Option<String>,
}

/// Whether a dress is that of a state of the counter.
pub open spec fn dresses(state: FindCounterState, dress: CounterDress) -> bool {
    match state {
        FindCounterState::Pending => {
            &&& dress.class matches Some(class) && class@ == "search-counter-pending"@
            &&& dress.aria_label matches Some(label) && label@ == "Searching…"@
            &&& dress.busy
            &&& dress.title is None
        },
        FindCounterState::Zero => {
            &&& dress.class matches Some(class) && class@ == "search-counter-zero"@
            &&& dress.aria_label is None
            &&& !dress.busy
            &&& dress.title is None
        },
        FindCounterState::Error(detail) => {
            &&& dress.class matches Some(class) && class@ == "search-counter-error"@
            &&& dress.aria_label matches Some(label) && label@ == "Find failed: "@ + detail@
            &&& !dress.busy
            &&& dress.title matches Some(title) && title@ == detail@
        },
        _ => {
            &&& dress.class is None
            &&& dress.aria_label is None
            &&& !dress.busy
            &&& dress.title is None
        },
    }
}

/// How the find counter is dressed.
pub fn counter_dress(state: &FindCounterState) -> (dress: CounterDress)
    ensures
        dresses(*state, dress),
{
    match state {
        FindCounterState::Pending => CounterDress {
            class: Some("search-counter-pending"),
            aria_label: Some("Searching…".to_owned()),
            busy: true,
            title: None,
        },
        FindCounterState::Zero => CounterDress {
            class: Some("search-counter-zero"),
            aria_label: None,
            busy: false,
            title: None,
        },
        FindCounterState::Error(detail) => CounterDress {
            class: Some("search-counter-error"),
            aria_label: Some(joined("Find failed: ", detail.as_str())),
            busy: false,
            title: Some(detail.clone()),
        },
        _ => CounterDress { class: None, aria_label: None, busy: false, title: None },
    }
}

/// A pending search is busy and a failed one is not; only a failed one says why. A
/// counter that counts is dressed plainly.
pub proof fn counters_are_dressed_for_their_state(state: FindCounterState, dress: CounterDress)
    requires
        dresses(state, dress),
    ensures
        dress.busy <==> state is Pending,
        dress.title is Some <==> state is Error,
        dress.class is Some <==> state is Pending || state is Zero || state is Error,
        dress.aria_label is Some <==> state is Pending || state is Error,
        state is Pending ==> dress.class->0@ == "search-counter-pending"@,
        state is Zero ==> dress.class->0@ == "search-counter-zero"@,
        state is Error ==> dress.class->0@ == "search-counter-error"@,
        state matches FindCounterState::Error(detail) ==> dress.title->0@ == detail@
            && dress.aria_label->0@ == "Find failed: "@ + detail@,
{
}

/// The fields of a find session are told in order, each under its name.
pub proof fn find_sessions_are_told(find: FindSession)
    ensures
        find_payload(find) is Object,
        find_payload(find)->Object_0 == seq![
            ("active"@, JsonView::Bool(find.phase is Settled)),
            ("index"@, json::unsigned_number(find.position() as u64)),
            ("total"@, json::unsigned_number(find.found().len() as u64)),
            (
                "more"@,
                JsonView::Bool(find.phase is Settled && find.phase->Settled_0.more),
            ),
            (
                "epoch"@,
                if find.phase is Pending {
                    json::unsigned_number(find.phase->Pending_epoch)
                } else {
                    JsonView::Null
                },
            ),
            (
                "currentRow"@,
                if 0 <= find.position() < find.found().len() {
                    json::signed_number(find.found()[find.position()].row@ as i64)
                } else {
                    JsonView::Null
                },
            ),
        ],
{
    assert(find_payload(find)->Object_0.len() == 6);
    assert(find_payload(find)->Object_0 =~= seq![
        ("active"@, JsonView::Bool(find.phase is Settled)),
        ("index"@, json::unsigned_number(find.position() as u64)),
        ("total"@, json::unsigned_number(find.found().len() as u64)),
        ("more"@, JsonView::Bool(find.phase is Settled && find.phase->Settled_0.more)),
        (
            "epoch"@,
            if find.phase is Pending {
                json::unsigned_number(find.phase->Pending_epoch)
            } else {
                JsonView::Null
            },
        ),
        (
            "currentRow"@,
            if 0 <= find.position() < find.found().len() {
                json::signed_number(find.found()[find.position()].row@ as i64)
            } else {
                JsonView::Null
            },
        ),
    ]);
}

/// A drawn row is told with its place, its key, and its part of the graph.
pub proof fn drawn_rows_are_told(row: FrameRow)
    ensures
        row_payload(row) is Object,
        row_payload(row)->Object_0 == seq![
            ("index"@, json::signed_number(row.index)),
            ("key"@, JsonView::Str(row.key@)),
            ("node_key"@, JsonView::Str(row.key@)),
            ("lane"@, json::unsigned_number(row.lane as u64)),
            ("above"@, lanes_payload(row.above@)),
            ("below"@, lanes_payload(row.below@)),
            ("transitions"@, pairs_payload(row.transitions@)),
            ("top"@, json::signed_number(row.top)),
            ("bottom"@, json::signed_number(row.bottom)),
            ("middle"@, json::signed_number(row.middle)),
            ("is_subop"@, JsonView::Bool(row.is_subop)),
            ("is_bundle"@, JsonView::Bool(row.is_bundle)),
        ],
{
    assert(row_payload(row)->Object_0 =~= seq![
        ("index"@, json::signed_number(row.index)),
        ("key"@, JsonView::Str(row.key@)),
        ("node_key"@, JsonView::Str(row.key@)),
        ("lane"@, json::unsigned_number(row.lane as u64)),
        ("above"@, lanes_payload(row.above@)),
        ("below"@, lanes_payload(row.below@)),
        ("transitions"@, pairs_payload(row.transitions@)),
        ("top"@, json::signed_number(row.top)),
        ("bottom"@, json::signed_number(row.bottom)),
        ("middle"@, json::signed_number(row.middle)),
        ("is_subop"@, JsonView::Bool(row.is_subop)),
        ("is_bundle"@, JsonView::Bool(row.is_bundle)),
    ]);
}

/// Lanes are told one by one, in order, and a transition by the lane that it leaves and
/// the lane that it reaches.
pub proof fn lanes_are_told_in_order(lanes: Seq<u32>, pairs: Seq<(u32, u32)>, i: int, j: int)
    requires
        0 <= i < lanes.len(),
        0 <= j < pairs.len(),
    ensures
        lanes_payload(lanes).items() matches Some(items) && items.len() == lanes.len()
            && items[i].unsigned() == Some(lanes[i] as u64),
        pairs_payload(pairs).items() matches Some(items) && items.len() == pairs.len() && (
        items[j].items() matches Some(ends) && ends.len() == 2 && ends[0].unsigned() == Some(
            pairs[j].0 as u64,
        ) && ends[1].unsigned() == Some(pairs[j].1 as u64)),
{
}

} // verus!
