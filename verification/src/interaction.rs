//! What a key press, a click, or a focus change over the rows and the search
//! box asks for.

use crate::coordinates::ROW_H;
use crate::find::{FindSession, Phase, Results};
use crate::json::{Json, JsonView};
use crate::labels::{self, open_json_envelope};
use crate::row;
use crate::step::Send;
use crate::text::same_text;
use vstd::prelude::*;

verus! {

/// Whether a row carries bundled sub-operations.
pub open spec fn bundles_sub_ops(row: JsonView) -> bool {
    match row.get("sub_ops"@) {
        Some(value) => match value.items() {
            Some(items) => items.len() > 0,
            None => false,
        },
        None => false,
    }
}

/// Whether a top-level row carries bundled metadata sub-ops.
pub fn has_sub_ops(row: &Json) -> (yes: bool)
    ensures
        yes == bundles_sub_ops(row@),
{
    match row.get("sub_ops") {
        Some(value) => match value.as_array() {
            Some(items) => items.len() > 0,
            None => false,
        },
        None => false,
    }
}

/// Whether a cached row can be disclosed: it is no sub-operation and bundles some.
pub open spec fn discloses(row: Option<JsonView>) -> bool {
    match row {
        Some(row) => !row::truth_of(row, "is_subop"@) && bundles_sub_ops(row),
        None => false,
    }
}

/// The contents of a cached row.
pub open spec fn cached_contents(row: Option<&Json>) -> Option<JsonView> {
    match row {
        Some(row) => Some(row@),
        None => None,
    }
}

/// Whether selecting the row also toggles its disclosure.
pub fn expandable(row: Option<&Json>) -> (yes: bool)
    ensures
        yes == discloses(cached_contents(row)),
{
    match row {
        Some(row) => !row::truth(row, "is_subop") && has_sub_ops(row),
        None => false,
    }
}

/// What a key press on a row does.
#[derive(Debug, Clone, Copy, PartialEq, Eq, Structural)]
pub enum RowAction {
    /// The press is left to the browser.
    Ignore,
    /// Focus moves to the rendered row at `index`; `select` also selects and
    /// reveals it.
    Move { index: usize, abs: i64, select: bool },
    /// The disclosure of the row is toggled.
    Toggle,
    /// The row is selected, and its raw record opened if `open_json`.
    Activate { open_json: bool },
}

/// Where the row stands among the rendered ones, the first if it is not there.
pub open spec fn place(rows: Seq<i64>, abs: i64, n: int) -> int
    decreases n,
{
    if n <= 0 {
        0
    } else if rows[rows.len() - n] == abs {
        rows.len() - n
    } else {
        place(rows, abs, n - 1)
    }
}

/// The rendered row that an arrow leads to: the neighbour, or at the edge the
/// other edge where the list wraps and none where it does not.
pub open spec fn neighbour(rows: Seq<i64>, abs: i64, down: bool, wraps: bool) -> Option<int> {
    let at = place(rows, abs, rows.len() as int);
    let next = if down {
        at + 1
    } else {
        at - 1
    };
    if rows.len() == 0 {
        None
    } else if 0 <= next < rows.len() {
        Some(next)
    } else if !wraps {
        None
    } else if down {
        Some(0)
    } else {
        Some(rows.len() - 1)
    }
}

/// Focus on the rendered row at `index`, if there is one.
pub open spec fn moving(rows: Seq<i64>, index: Option<int>, select: bool) -> RowAction {
    match index {
        Some(index) => RowAction::Move { index: index as usize, abs: rows[index], select },
        None => RowAction::Ignore,
    }
}

/// What a key press on the row at `abs` does.
pub open spec fn row_response(
    key: Seq<char>,
    abs: i64,
    rows: Seq<i64>,
    search_mode: bool,
    row: Option<JsonView>,
    expanded: bool,
    in_button: bool,
) -> RowAction {
    if key == "ArrowDown"@ {
        moving(rows, neighbour(rows, abs, true, search_mode), search_mode)
    } else if key == "ArrowUp"@ {
        moving(rows, neighbour(rows, abs, false, search_mode), search_mode)
    } else if key == "Home"@ {
        moving(
            rows,
            if rows.len() > 0 {
                Some(0)
            } else {
                None
            },
            search_mode,
        )
    } else if key == "End"@ {
        moving(
            rows,
            if rows.len() > 0 {
                Some(rows.len() - 1)
            } else {
                None
            },
            search_mode,
        )
    } else if key == "ArrowRight"@ {
        if discloses(row) && !expanded {
            RowAction::Toggle
        } else {
            RowAction::Ignore
        }
    } else if key == "ArrowLeft"@ {
        if discloses(row) && expanded {
            RowAction::Toggle
        } else {
            RowAction::Ignore
        }
    } else if key == "Enter"@ || key == " "@ {
        if in_button {
            RowAction::Ignore
        } else if discloses(row) {
            RowAction::Toggle
        } else {
            RowAction::Activate { open_json: true }
        }
    } else {
        RowAction::Ignore
    }
}

fn place_of(rows: &[i64], abs: i64) -> (at: usize)
    requires
        rows@.len() > 0,
    ensures
        at == place(rows@, abs, rows@.len() as int),
        at < rows@.len(),
{
    let mut i: usize = 0;
    while i < rows.len()
        invariant
            i <= rows.len(),
            place(rows@, abs, rows@.len() as int) == place(rows@, abs, rows@.len() - i),
        decreases rows.len() - i,
    {
        if rows[i] == abs {
            return i;
        }
        i = i + 1;
    }
    0
}

fn neighbour_of(rows: &[i64], abs: i64, down: bool, wraps: bool) -> (next: Option<usize>)
    ensures
        match next {
            Some(next) => neighbour(rows@, abs, down, wraps) == Some(next as int) && next
                < rows@.len(),
            None => neighbour(rows@, abs, down, wraps) is None,
        },
{
    if rows.len() == 0 {
        return None;
    }
    let at: usize = place_of(rows, abs);
    if down {
        if at + 1 < rows.len() {
            Some(at + 1)
        } else if wraps {
            Some(0)
        } else {
            None
        }
    } else if at > 0 {
        Some(at - 1)
    } else if wraps {
        Some(rows.len() - 1)
    } else {
        None
    }
}

fn move_to(rows: &[i64], index: Option<usize>, select: bool) -> (action: RowAction)
    requires
        index matches Some(index) ==> index < rows@.len(),
    ensures
        action == moving(
            rows@,
            match index {
                Some(index) => Some(index as int),
                None => None,
            },
            select,
        ),
{
    match index {
        Some(index) => RowAction::Move { index, abs: rows[index], select },
        None => RowAction::Ignore,
    }
}

/// What a key press on the row at `abs` does. `rows` are the rendered rows in
/// order, `row` is what is cached of the row, `expanded` whether it is disclosed
/// and `in_button` whether a button inside it has the focus.
pub fn row_key_action(
    key: &str,
    abs: i64,
    rows: &[i64],
    search_mode: bool,
    row: Option<&Json>,
    expanded: bool,
    in_button: bool,
) -> (action: RowAction)
    ensures
        action == row_response(
            key@,
            abs,
            rows@,
            search_mode,
            cached_contents(row),
            expanded,
            in_button,
        ),
{
    if same_text(key, "ArrowDown") {
        let next = neighbour_of(rows, abs, true, search_mode);
        return move_to(rows, next, search_mode);
    }
    if same_text(key, "ArrowUp") {
        let next = neighbour_of(rows, abs, false, search_mode);
        return move_to(rows, next, search_mode);
    }
    if same_text(key, "Home") {
        let first: Option<usize> = if rows.len() > 0 {
            Some(0)
        } else {
            None
        };
        return move_to(rows, first, search_mode);
    }
    if same_text(key, "End") {
        let last: Option<usize> = if rows.len() > 0 {
            Some(rows.len() - 1)
        } else {
            None
        };
        return move_to(rows, last, search_mode);
    }
    if same_text(key, "ArrowRight") {
        return if expandable(row) && !expanded {
            RowAction::Toggle
        } else {
            RowAction::Ignore
        };
    }
    if same_text(key, "ArrowLeft") {
        return if expandable(row) && expanded {
            RowAction::Toggle
        } else {
            RowAction::Ignore
        };
    }
    if same_text(key, "Enter") || same_text(key, " ") {
        return if in_button {
            RowAction::Ignore
        } else if expandable(row) {
            RowAction::Toggle
        } else {
            RowAction::Activate { open_json: true }
        };
    }
    RowAction::Ignore
}

proof fn place_finds_the_row(rows: Seq<i64>, index: int, n: int)
    requires
        0 <= index < rows.len(),
        rows.no_duplicates(),
        rows.len() - index <= n <= rows.len(),
    ensures
        place(rows, rows[index], n) == index,
    decreases n,
{
    if rows[rows.len() - n] != rows[index] {
        place_finds_the_row(rows, index, n - 1);
    }
}

/// An arrow that moves the focus is undone by the opposite arrow. Where the list
/// wraps, every arrow moves.
pub proof fn opposite_arrows_undo_each_other(rows: Seq<i64>, index: int, down: bool, wraps: bool)
    requires
        0 <= index < rows.len(),
        rows.no_duplicates(),
    ensures
        wraps ==> neighbour(rows, rows[index], down, wraps) is Some,
        match neighbour(rows, rows[index], down, wraps) {
            Some(next) => {
                &&& 0 <= next < rows.len()
                &&& neighbour(rows, rows[next], !down, wraps) == Some(index)
            },
            None => if down {
                index == rows.len() - 1
            } else {
                index == 0
            },
        },
{
    place_finds_the_row(rows, index, rows.len() as int);
    match neighbour(rows, rows[index], down, wraps) {
        Some(next) => {
            place_finds_the_row(rows, next, rows.len() as int);
        },
        None => {},
    }
}

/// A down arrow on a rendered row moves to the row after it and an up arrow to the row
/// before it. At the edge the list of search results goes on at its other edge, and the
/// history keeps its focus. Only in the search results is the row also selected.
pub proof fn arrows_move_to_the_next_row(
    rows: Seq<i64>,
    at: int,
    search_mode: bool,
    row: Option<JsonView>,
    expanded: bool,
    in_button: bool,
)
    requires
        0 <= at < rows.len() <= usize::MAX,
        rows.no_duplicates(),
    ensures
        ({
            let press = |key: Seq<char>|
                row_response(key, rows[at], rows, search_mode, row, expanded, in_button);
            let to = |i: int|
                RowAction::Move { index: i as usize, abs: rows[i], select: search_mode };
            &&& at + 1 < rows.len() ==> press("ArrowDown"@) == to(at + 1)
            &&& at + 1 == rows.len() && search_mode ==> press("ArrowDown"@) == to(0)
            &&& at + 1 == rows.len() && !search_mode ==> press("ArrowDown"@) is Ignore
            &&& at > 0 ==> press("ArrowUp"@) == to(at - 1)
            &&& at == 0 && search_mode ==> press("ArrowUp"@) == to(rows.len() - 1)
            &&& at == 0 && !search_mode ==> press("ArrowUp"@) is Ignore
            &&& press("Home"@) == to(0)
            &&& press("End"@) == to(rows.len() - 1)
        }),
{
    keys_differ();
    place_finds_the_row(rows, at, rows.len() as int);
}

/// On a row that bundles operations, the right arrow only opens it and the left arrow
/// only closes it, while Enter and the space bar do whichever is left to do. Other rows
/// are activated instead, and a button inside the row keeps its own presses.
pub proof fn disclosure_keys_open_and_close(
    abs: i64,
    rows: Seq<i64>,
    search_mode: bool,
    row: Option<JsonView>,
    expanded: bool,
    in_button: bool,
    bundles: bool,
)
    requires
        bundles == (match row {
            Some(held) => held.get("is_subop"@) != Some(JsonView::Bool(true)) && (match held.get(
                "sub_ops"@,
            ) {
                Some(JsonView::Array(ops)) => ops.len() > 0,
                _ => false,
            }),
            None => false,
        }),
    ensures
        ({
            let press = |key: Seq<char>|
                row_response(key, abs, rows, search_mode, row, expanded, in_button);
            &&& press("ArrowRight"@) == (if bundles && !expanded {
                RowAction::Toggle
            } else {
                RowAction::Ignore
            })
            &&& press("ArrowLeft"@) == (if bundles && expanded {
                RowAction::Toggle
            } else {
                RowAction::Ignore
            })
            &&& in_button ==> press("Enter"@) is Ignore && press(" "@) is Ignore
            &&& !in_button && bundles ==> press("Enter"@) is Toggle && press(" "@) is Toggle
            &&& !in_button && !bundles ==> press("Enter"@) == (RowAction::Activate {
                open_json: true,
            }) && press(" "@) == (RowAction::Activate { open_json: true })
        }),
{
    keys_differ();
}

/// A row leaves every other key to the browser.
pub proof fn rows_leave_other_keys(
    key: Seq<char>,
    abs: i64,
    rows: Seq<i64>,
    search_mode: bool,
    row: Option<JsonView>,
    expanded: bool,
    in_button: bool,
)
    requires
        !seq![
            "ArrowDown"@,
            "ArrowUp"@,
            "Home"@,
            "End"@,
            "ArrowRight"@,
            "ArrowLeft"@,
            "Enter"@,
            " "@,
        ].contains(key),
    ensures
        row_response(key, abs, rows, search_mode, row, expanded, in_button) is Ignore,
{
    let keys = seq![
        "ArrowDown"@,
        "ArrowUp"@,
        "Home"@,
        "End"@,
        "ArrowRight"@,
        "ArrowLeft"@,
        "Enter"@,
        " "@,
    ];
    assert(keys[0] == "ArrowDown"@);
    assert(keys[1] == "ArrowUp"@);
    assert(keys[2] == "Home"@);
    assert(keys[3] == "End"@);
    assert(keys[4] == "ArrowRight"@);
    assert(keys[5] == "ArrowLeft"@);
    assert(keys[6] == "Enter"@);
    assert(keys[7] == " "@);
}

proof fn keys_differ()
    ensures
        "ArrowUp"@ != "ArrowDown"@,
        "Home"@ != "ArrowDown"@,
        "Home"@ != "ArrowUp"@,
        "End"@ != "ArrowDown"@,
        "End"@ != "ArrowUp"@,
        "End"@ != "Home"@,
        "ArrowRight"@ != "ArrowDown"@,
        "ArrowRight"@ != "ArrowUp"@,
        "ArrowRight"@ != "Home"@,
        "ArrowRight"@ != "End"@,
        "ArrowLeft"@ != "ArrowDown"@,
        "ArrowLeft"@ != "ArrowUp"@,
        "ArrowLeft"@ != "Home"@,
        "ArrowLeft"@ != "End"@,
        "ArrowLeft"@ != "ArrowRight"@,
        "Enter"@ != "ArrowDown"@,
        "Enter"@ != "ArrowUp"@,
        "Enter"@ != "Home"@,
        "Enter"@ != "End"@,
        "Enter"@ != "ArrowRight"@,
        "Enter"@ != "ArrowLeft"@,
        " "@ != "ArrowDown"@,
        " "@ != "ArrowUp"@,
        " "@ != "Home"@,
        " "@ != "End"@,
        " "@ != "ArrowRight"@,
        " "@ != "ArrowLeft"@,
        "Escape"@ != "Enter"@,
        "Escape"@ != "ArrowDown"@,
        "Escape"@ != "ArrowUp"@,
{
    reveal_strlit("ArrowDown");
    reveal_strlit("ArrowUp");
    reveal_strlit("Home");
    reveal_strlit("End");
    reveal_strlit("ArrowRight");
    reveal_strlit("ArrowLeft");
    reveal_strlit("Enter");
    reveal_strlit(" ");
    reveal_strlit("Escape");
    assert("ArrowUp"@.len() == 7);
    assert("ArrowDown"@[5] == 'D');
    assert("ArrowLeft"@[5] == 'L');
    assert("ArrowRight"@.len() == 10);
    assert("Home"@.len() == 4);
    assert("End"@.len() == 3);
    assert("Enter"@.len() == 5);
    assert(" "@.len() == 1);
    assert("Escape"@.len() == 6);
}

/// The row that the focus can enter: the current one while it is rendered,
/// otherwise the first.
pub open spec fn anchor(rows: Seq<i64>, current: i64) -> Option<i64> {
    if rows.contains(current) {
        Some(current)
    } else if rows.len() > 0 {
        Some(rows[0])
    } else {
        None
    }
}

/// The row that the focus can enter.
pub fn roving_anchor(rows: &[i64], current: i64) -> (at: Option<i64>)
    ensures
        at == anchor(rows@, current),
{
    let mut i: usize = 0;
    while i < rows.len()
        invariant
            i <= rows.len(),
            forall|k: int| 0 <= k < i ==> #[trigger] rows@[k] != current,
        decreases rows.len() - i,
    {
        if rows[i] == current {
            assert(rows@[i as int] == current);
            return Some(current);
        }
        i = i + 1;
    }
    if rows.len() > 0 {
        Some(rows[0])
    } else {
        None
    }
}

/// Which rendered rows the tab key reaches.
pub fn tab_stops(rows: &[i64], current: i64) -> (stops: Vec<bool>)
    ensures
        stops@.len() == rows@.len(),
        forall|i: int|
            0 <= i < rows@.len() ==> #[trigger] stops@[i] == (anchor(rows@, current) == Some(
                rows@[i],
            )),
{
    let at = roving_anchor(rows, current);
    let mut stops: Vec<bool> = Vec::new();
    let mut i: usize = 0;
    while i < rows.len()
        invariant
            i <= rows.len(),
            stops@.len() == i,
            at == anchor(rows@, current),
            forall|k: int| 0 <= k < i ==> #[trigger] stops@[k] == (at == Some(rows@[k])),
        decreases rows.len() - i,
    {
        let stop = match at {
            Some(abs) => rows[i] == abs,
            None => false,
        };
        stops.push(stop);
        i = i + 1;
    }
    stops
}

/// Exactly one rendered row can be reached with the tab key.
pub proof fn one_row_is_tabbable(rows: Seq<i64>, current: i64)
    requires
        rows.len() > 0,
        rows.no_duplicates(),
    ensures
        exists|i: int| 0 <= i < rows.len() && anchor(rows, current) == Some(#[trigger] rows[i]),
        forall|i: int, j: int|
            #![trigger rows[i], rows[j]]
            0 <= i < rows.len() && 0 <= j < rows.len() && anchor(rows, current) == Some(rows[i])
                && anchor(rows, current) == Some(rows[j]) ==> i == j,
{
    if rows.contains(current) {
        let i = choose|i: int| 0 <= i < rows.len() && rows[i] == current;
        assert(anchor(rows, current) == Some(rows[i]));
    } else {
        assert(anchor(rows, current) == Some(rows[0]));
    }
}

/// The row that becomes the anchor when a row takes the focus: that row, unless it is the
/// anchor already.
pub open spec fn new_anchor(abs: Option<i64>, current: i64) -> Option<i64> {
    match abs {
        Some(abs) => if abs != current {
            Some(abs)
        } else {
            None
        },
        None => None,
    }
}

/// The anchor follows the focus, and is set only where it changes.
pub proof fn the_anchor_follows_the_focus(abs: Option<i64>, current: i64)
    ensures
        new_anchor(abs, current) is Some ==> new_anchor(abs, current) == abs,
        new_anchor(abs, current) is None <==> abs is None || abs == Some(current),
{
}

/// A row that takes the focus becomes the anchor unless it is the anchor already.
pub fn focus_action(abs: Option<i64>, current: i64) -> (at: Option<i64>)
    ensures
        at == new_anchor(abs, current),
{
    match abs {
        Some(abs) => if abs != current {
            Some(abs)
        } else {
            None
        },
        None => None,
    }
}

/// What a click over the rows does.
#[derive(Debug, Clone, Copy, PartialEq, Eq, Structural)]
pub enum ClickAction {
    Ignore,
    /// The row is selected, and toggled where it can be disclosed; `consume`
    /// keeps the click from the browser.
    SelectAndToggle { abs: i64, consume: bool },
    /// The row is selected and its raw record opened.
    OpenJson { abs: i64 },
}

/// What a click does: a chevron always acts on its row; elsewhere buttons and
/// repeated clicks are left alone.
pub open spec fn clicked(
    abs: Option<i64>,
    chevron: bool,
    in_button: bool,
    detail: i32,
) -> ClickAction {
    match abs {
        None => ClickAction::Ignore,
        Some(abs) => if chevron {
            ClickAction::SelectAndToggle { abs, consume: true }
        } else if in_button || detail > 1 {
            ClickAction::Ignore
        } else {
            ClickAction::SelectAndToggle { abs, consume: false }
        },
    }
}

/// A click acts on the row that it hits, and on no other. The chevron of a row acts on
/// every click and keeps it from the browser; the rest of the row acts on a first click
/// outside its buttons and leaves the click to the browser.
pub proof fn clicks_act_on_their_row(abs: i64, chevron: bool, in_button: bool, detail: i32)
    ensures
        clicked(None, chevron, in_button, detail) is Ignore,
        clicked(Some(abs), true, in_button, detail) == (ClickAction::SelectAndToggle {
            abs,
            consume: true,
        }),
        clicked(Some(abs), false, true, detail) is Ignore,
        detail > 1 ==> clicked(Some(abs), false, in_button, detail) is Ignore,
        detail <= 1 ==> clicked(Some(abs), false, false, detail) == (ClickAction::SelectAndToggle {
            abs,
            consume: false,
        }),
        double_clicked(Some(abs), false) == (ClickAction::OpenJson { abs }),
        double_clicked(Some(abs), true) is Ignore,
        double_clicked(None, in_button) is Ignore,
{
}

/// What a click does: a chevron always acts on its row; elsewhere buttons and
/// repeated clicks are left alone.
pub fn click_action(abs: Option<i64>, chevron: bool, in_button: bool, detail: i32) -> (action:
    ClickAction)
    ensures
        action == clicked(abs, chevron, in_button, detail),
{
    match abs {
        None => ClickAction::Ignore,
        Some(abs) => if chevron {
            ClickAction::SelectAndToggle { abs, consume: true }
        } else if in_button || detail > 1 {
            ClickAction::Ignore
        } else {
            ClickAction::SelectAndToggle { abs, consume: false }
        },
    }
}

/// What a double click does: it opens the raw record of a row, unless it is on
/// a button.
pub open spec fn double_clicked(abs: Option<i64>, in_button: bool) -> ClickAction {
    match abs {
        Some(abs) => if in_button {
            ClickAction::Ignore
        } else {
            ClickAction::OpenJson { abs }
        },
        None => ClickAction::Ignore,
    }
}

/// What a double click does: it opens the raw record of a row, unless it is on
/// a button.
pub fn double_click_action(abs: Option<i64>, in_button: bool) -> (action: ClickAction)
    ensures
        action == double_clicked(abs, in_button),
{
    match abs {
        Some(abs) => if in_button {
            ClickAction::Ignore
        } else {
            ClickAction::OpenJson { abs }
        },
        None => ClickAction::Ignore,
    }
}

/// What is sent to show the raw record of a row: the request for it, or word that
/// there is none. Nothing is sent for a row that is not cached.
pub fn open_json_send(row: Option<&Json>) -> (send: Option<Send>)
    ensures
        match cached_contents(row) {
            None => send is None,
            Some(row) => match labels::raw_request(row) {
                Some(request) => send matches Some(Send::OpenJson(envelope)) && envelope@
                    == request,
                None => send matches Some(Send::StatusText(text)) && text@
                    == "No raw record is available for this row"@,
            },
        },
{
    match row {
        None => None,
        Some(row) => match open_json_envelope(row) {
            Some(envelope) => Some(Send::OpenJson(envelope)),
            None => Some(
                Send::StatusText("No raw record is available for this row".to_owned()),
            ),
        },
    }
}

/// How a search interaction ends.
#[derive(Debug, Clone, Copy, PartialEq, Eq, Structural)]
pub enum SearchExit {
    /// A flat result list gives way to the full history.
    ResetHistory,
    /// A find session in place is dropped.
    ClearFind,
}

/// How the search interaction ends in a mode.
pub open spec fn exit_of(search_mode: bool) -> SearchExit {
    if search_mode {
        SearchExit::ResetHistory
    } else {
        SearchExit::ClearFind
    }
}

/// How the search interaction ends in a mode.
pub fn search_exit(search_mode: bool) -> (exit: SearchExit)
    ensures
        exit == exit_of(search_mode),
{
    if search_mode {
        SearchExit::ResetHistory
    } else {
        SearchExit::ClearFind
    }
}

/// What a change of the search text ends.
pub open spec fn input_response(value: Seq<char>, search_mode: bool) -> Option<SearchExit> {
    if value.len() == 0 {
        Some(exit_of(search_mode))
    } else {
        None
    }
}

/// An emptied search box ends the search, a flat list with the full history and a find
/// session with nothing more; any other text lets it go on.
pub proof fn an_emptied_box_ends_the_search(value: Seq<char>, search_mode: bool)
    ensures
        input_response(Seq::empty(), true) == Some(SearchExit::ResetHistory),
        input_response(Seq::empty(), false) == Some(SearchExit::ClearFind),
        value.len() > 0 ==> input_response(value, search_mode) is None,
{
}

/// What a change of the search text ends: an emptied box ends the interaction.
pub fn search_input_action(value: &str, search_mode: bool) -> (exit: Option<SearchExit>)
    ensures
        exit == input_response(value@, search_mode),
{
    if same_text(value, "") {
        proof {
            reveal_strlit("");
        }
        Some(search_exit(search_mode))
    } else {
        proof {
            reveal_strlit("");
            assert(value@.len() == 0 ==> value@ =~= ""@);
        }
        None
    }
}

/// What a key press in the search box does.
#[derive(Debug, Clone, Copy, PartialEq, Eq, Structural)]
pub enum SearchAction {
    /// The press is left to the browser.
    Ignore,
    /// The interaction ends; `consume` keeps the press from the browser.
    Exit { exit: SearchExit, consume: bool },
    /// The next or the previous match is shown.
    Navigate { back: bool },
    /// The text is submitted as a new query.
    Submit,
    /// A row of the flat result list takes the focus.
    FocusResult { abs: i64 },
}

impl FindSession {
    /// Whether the matches of exactly this query can be stepped through.
    pub open spec fn navigable(self, input: Seq<char>) -> bool {
        self.phase is Settled && self.found().len() > 0 && self.subject() == input
    }

    /// Whether Previous and Next apply: the session is settled, has matches, and
    /// the search box still holds the query.
    pub fn navigation_enabled(&self, input: &str) -> (enabled: bool)
        ensures
            enabled == self.navigable(input@),
    {
        match &self.phase {
            Phase::Settled(results) => results.matches.len() > 0 && same_text(
                results.query.as_str(),
                input,
            ),
            _ => false,
        }
    }
}

/// What a key press in the search box does.
pub open spec fn search_response(
    key: Seq<char>,
    shift: bool,
    input: Seq<char>,
    find: FindSession,
    query: Seq<char>,
    search_mode: bool,
    total: Option<i64>,
) -> SearchAction {
    if key == "Enter"@ {
        if input.len() == 0 {
            SearchAction::Exit { exit: exit_of(search_mode), consume: false }
        } else if find.phase is Settled && input == query {
            SearchAction::Navigate { back: shift }
        } else {
            SearchAction::Submit
        }
    } else if key == "Escape"@ {
        SearchAction::Exit { exit: exit_of(search_mode), consume: true }
    } else if key == "ArrowDown"@ || key == "ArrowUp"@ {
        if find.navigable(input) {
            SearchAction::Navigate { back: key == "ArrowUp"@ }
        } else if search_mode && total is Some && total->0 > 0 && input == query && !(
        find.phase is Pending) {
            SearchAction::FocusResult {
                abs: if key == "ArrowDown"@ {
                    0
                } else {
                    (total->0 - 1) as i64
                },
            }
        } else {
            SearchAction::Ignore
        }
    } else {
        SearchAction::Ignore
    }
}

/// What a key press in the search box does. `input` is the trimmed text of the
/// box, `query` the submitted query, and `total` the length of the list.
pub fn search_key_action(
    key: &str,
    shift: bool,
    input: &str,
    find: &FindSession,
    query: &str,
    search_mode: bool,
    total: Option<i64>,
) -> (action: SearchAction)
    ensures
        action == search_response(key@, shift, input@, *find, query@, search_mode, total),
{
    proof {
        reveal_strlit("");
        reveal_strlit("ArrowDown");
        reveal_strlit("ArrowUp");
        assert(input@.len() == 0 ==> input@ =~= ""@);
        assert("ArrowDown"@.len() != "ArrowUp"@.len());
    }
    if same_text(key, "Enter") {
        if same_text(input, "") {
            return SearchAction::Exit { exit: search_exit(search_mode), consume: false };
        }
        if find.active() && same_text(input, query) {
            return SearchAction::Navigate { back: shift };
        }
        return SearchAction::Submit;
    }
    if same_text(key, "Escape") {
        return SearchAction::Exit { exit: search_exit(search_mode), consume: true };
    }
    let down = same_text(key, "ArrowDown");
    if down || same_text(key, "ArrowUp") {
        if find.navigation_enabled(input) {
            return SearchAction::Navigate { back: !down };
        }
        if search_mode && same_text(input, query) && !matches!(find.phase, Phase::Pending { .. }) {
            if let Some(total) = total {
                if total > 0 {
                    let abs: i64 = if down {
                        0
                    } else {
                        total - 1
                    };
                    return SearchAction::FocusResult { abs };
                }
            }
        }
    }
    SearchAction::Ignore
}

/// The match that stepping leads to from the one at `position`, of `len` in all.
pub open spec fn stepped(position: int, len: int, back: bool) -> int {
    if back {
        if position == 0 {
            len - 1
        } else {
            position - 1
        }
    } else if position == len - 1 {
        0
    } else {
        position + 1
    }
}

/// While the matches of the typed query can be stepped through, the down arrow asks for
/// the next one and the up arrow for the previous one, so either undoes the other.
pub proof fn arrows_step_through_the_matches(
    find: FindSession,
    results: Results,
    shift: bool,
    query: Seq<char>,
    search_mode: bool,
    total: Option<i64>,
    position: int,
)
    requires
        find.phase == Phase::Settled(results),
        0 <= position < results.matches@.len(),
    ensures
        ({
            let press = |key: Seq<char>|
                search_response(key, shift, results.query@, find, query, search_mode, total);
            let len = results.matches@.len() as int;
            let after = |at: int, key: Seq<char>|
                (at + (if press(key)->Navigate_back {
                    -1int
                } else {
                    1int
                })) % len;
            &&& press("ArrowDown"@) == (SearchAction::Navigate { back: false })
            &&& press("ArrowUp"@) == (SearchAction::Navigate { back: true })
            &&& after(position, "ArrowDown"@) == stepped(position, len, false)
            &&& after(position, "ArrowUp"@) == stepped(position, len, true)
            &&& after(after(position, "ArrowDown"@), "ArrowUp"@) == position
            &&& after(after(position, "ArrowUp"@), "ArrowDown"@) == position
        }),
{
    keys_differ();
    let len = results.matches@.len() as int;
    lemma_wraps(position, len);
    lemma_wraps(stepped(position, len, false), len);
    lemma_wraps(stepped(position, len, true), len);
}

proof fn lemma_wraps(position: int, len: int)
    requires
        0 <= position < len,
    ensures
        (position + 1) % len == stepped(position, len, false),
        (position - 1) % len == stepped(position, len, true),
        (position + (-1int)) % len == stepped(position, len, true),
        0 <= stepped(position, len, false) < len,
        0 <= stepped(position, len, true) < len,
        stepped(stepped(position, len, false), len, true) == position,
        stepped(stepped(position, len, true), len, false) == position,
{
    if position + 1 < len {
        vstd::arithmetic::div_mod::lemma_small_mod((position + 1) as nat, len as nat);
    } else {
        vstd::arithmetic::div_mod::lemma_mod_self_0(len);
    }
    if position > 0 {
        vstd::arithmetic::div_mod::lemma_small_mod((position - 1) as nat, len as nat);
    } else {
        vstd::arithmetic::div_mod::lemma_mod_add_multiples_vanish(-1, len);
        vstd::arithmetic::div_mod::lemma_small_mod((len - 1) as nat, len as nat);
        assert(len + (-1int) == len - 1);
    }
}

/// Where no match can be stepped through, the arrows enter a flat list that still
/// answers the typed text: the down arrow at its first row, the up arrow at its last.
/// Everywhere else they are left to the browser.
pub proof fn arrows_enter_the_result_list(
    find: FindSession,
    shift: bool,
    input: Seq<char>,
    query: Seq<char>,
    search_mode: bool,
    total: Option<i64>,
    steps: bool,
    list: bool,
)
    requires
        steps == (match find.phase {
            Phase::Settled(results) => results.matches@.len() > 0 && results.query@ == input,
            _ => false,
        }),
        list == (search_mode && total != None::<i64> && total->0 > 0 && input == query && !(
        find.phase is Pending)),
    ensures
        ({
            let press = |key: Seq<char>|
                search_response(key, shift, input, find, query, search_mode, total);
            &&& !steps && list ==> press("ArrowDown"@) == (SearchAction::FocusResult { abs: 0 })
            &&& !steps && list ==> press("ArrowUp"@) == (SearchAction::FocusResult {
                abs: (total->0 - 1) as i64,
            })
            &&& !steps && !list ==> press("ArrowDown"@) is Ignore && press("ArrowUp"@) is Ignore
            &&& steps ==> press("ArrowDown"@) is Navigate && press("ArrowUp"@) is Navigate
        }),
{
    keys_differ();
}

/// Enter ends an empty search, steps through the results of the submitted query, back
/// with the shift key, and submits any other text. Escape always ends the search. What
/// ends is the flat list where one is shown, and the find session otherwise.
pub proof fn enter_submits_and_escape_ends(
    find: FindSession,
    shift: bool,
    input: Seq<char>,
    query: Seq<char>,
    search_mode: bool,
    total: Option<i64>,
)
    ensures
        ({
            let press = |key: Seq<char>|
                search_response(key, shift, input, find, query, search_mode, total);
            let exit = if search_mode {
                SearchExit::ResetHistory
            } else {
                SearchExit::ClearFind
            };
            &&& press("Escape"@) == (SearchAction::Exit { exit, consume: true })
            &&& input == Seq::<char>::empty() ==> press("Enter"@) == (SearchAction::Exit {
                exit,
                consume: false,
            })
            &&& input.len() > 0 && input == query && find.phase is Settled
                ==> press("Enter"@) == (SearchAction::Navigate { back: shift })
            &&& input.len() > 0 && !(input == query && find.phase is Settled)
                ==> press("Enter"@) is Submit
        }),
{
    keys_differ();
}

/// The search box leaves every other key to the browser.
pub proof fn the_search_box_leaves_other_keys(
    key: Seq<char>,
    shift: bool,
    input: Seq<char>,
    find: FindSession,
    query: Seq<char>,
    search_mode: bool,
    total: Option<i64>,
)
    requires
        key != "Enter"@,
        key != "Escape"@,
        key != "ArrowDown"@,
        key != "ArrowUp"@,
    ensures
        search_response(key, shift, input, find, query, search_mode, total) is Ignore,
{
}

/// The rows to redraw when the layout changes: the whole flat result list, or
/// the rendered window of the history.
pub open spec fn redrawn(
    search_mode: bool,
    visible_total: i64,
    render_top: i64,
    render_bottom: i64,
) -> (i64, i64) {
    if search_mode {
        (
            0,
            if visible_total > 0 {
                (visible_total - 1) as i64
            } else {
                0
            },
        )
    } else {
        (render_top, render_bottom)
    }
}

/// A flat list is redrawn from its first to its last row, and the history where it is
/// rendered.
pub proof fn the_shown_rows_are_redrawn(
    visible_total: i64,
    render_top: i64,
    render_bottom: i64,
    row: i64,
)
    ensures
        redrawn(false, visible_total, render_top, render_bottom) == (render_top, render_bottom),
        0 <= row < visible_total ==> redrawn(true, visible_total, render_top, render_bottom).0 <= row
            <= redrawn(true, visible_total, render_top, render_bottom).1,
        visible_total > 0 ==> redrawn(true, visible_total, render_top, render_bottom).1
            < visible_total,
        redrawn(true, visible_total, render_top, render_bottom).0 == 0,
        visible_total <= 0 ==> redrawn(true, visible_total, render_top, render_bottom).1 == 0,
{
}

/// The rows to redraw when the layout changes: the whole flat result list, or
/// the rendered window of the history.
pub fn redraw_window(search_mode: bool, visible_total: i64, render_top: i64, render_bottom: i64)
    -> (window: (i64, i64))
    ensures
        window == redrawn(search_mode, visible_total, render_top, render_bottom),
{
    if search_mode {
        (
            0,
            if visible_total > 0 {
                visible_total - 1
            } else {
                0
            },
        )
    } else {
        (render_top, render_bottom)
    }
}

/// The height of the scrolled list in pixels; at least one, at most what fits.
pub open spec fn list_height(visible_total: i64) -> int {
    if visible_total * ROW_H > i64::MAX {
        i64::MAX as int
    } else if visible_total * ROW_H < 1 {
        1
    } else {
        visible_total * ROW_H
    }
}

/// The list is as high as its rows together where that can be measured, and a list without
/// rows still has a height.
pub proof fn lists_are_as_high_as_their_rows(visible_total: i64)
    ensures
        1 <= list_height(visible_total) <= i64::MAX,
        visible_total <= 0 ==> list_height(visible_total) == 1,
        0 < visible_total * ROW_H <= i64::MAX ==> list_height(visible_total) == visible_total
            * ROW_H,
        visible_total * ROW_H > i64::MAX ==> list_height(visible_total) == i64::MAX,
{
}

/// The height of the scrolled list in pixels; at least one, at most what fits.
pub fn spacer_height_px(visible_total: i64) -> (height: i64)
    ensures
        height == list_height(visible_total),
{
    if visible_total <= 0 {
        assert(visible_total * ROW_H < 1);
        1
    } else if visible_total > i64::MAX / ROW_H {
        i64::MAX
    } else {
        visible_total * ROW_H
    }
}

/// Which of the two presentations the history has.
#[derive(Debug, Clone, Copy, PartialEq, Eq, Structural)]
pub enum Profile {
    Activity,
    Raw,
}

impl Profile {
    /// The name of the profile.
    pub open spec fn spelled(self) -> Seq<char> {
        match self {
            Profile::Activity => "activity"@,
            Profile::Raw => "raw"@,
        }
    }

    pub fn name(self) -> (name: &'static str)
        ensures
            name@ == self.spelled(),
    {
        match self {
            Profile::Activity => "activity",
            Profile::Raw => "raw",
        }
    }

    /// The profile of a name; any name but `raw` is the activity profile.
    pub open spec fn named(name: Seq<char>) -> Profile {
        if name == "raw"@ {
            Profile::Raw
        } else {
            Profile::Activity
        }
    }

    /// The profile of a name; any name but `raw` is the activity profile.
    pub fn from_name(name: &str) -> (profile: Profile)
        ensures
            profile == Profile::named(name@),
    {
        if same_text(name, "raw") {
            Profile::Raw
        } else {
            Profile::Activity
        }
    }
}

/// A profile is found again by its name.
pub proof fn profiles_are_named(profile: Profile)
    ensures
        (profile.spelled() == "raw"@) == (profile == Profile::Raw),
        Profile::named(profile.spelled()) == profile,
        Profile::named("raw"@) == Profile::Raw,
        Profile::named("activity"@) == Profile::Activity,
{
    reveal_strlit("activity");
    reveal_strlit("raw");
    assert("activity"@.len() != "raw"@.len());
}

} // verus!
