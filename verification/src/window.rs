//! The rendered window: which rows it holds and where they are drawn.

use crate::coordinates::{self, ROW_H};
use crate::json::Json;
use crate::row;
use crate::row_spec::{RowContext, RowSpec};
use crate::state::HistoryAppState;
use crate::text::{self, decimal_text, same_text};
use vstd::prelude::*;

verus! {

/// One position of the window with what is known of its row.
#[derive(Debug)]
pub struct Slot {
    /// The visible position.
    pub vis: i64,
    /// The payload, where it is cached.
    pub row: Option<Json>,
    /// What the view knows of the row; whether it opens a group is worked out
    /// from the rows above it.
    pub context: RowContext,
}

/// One planned row of the window.
#[derive(Debug)]
pub struct WindowRow {
    pub vis: i64,
    pub spec: RowSpec,
}

/// The visible positions from `from` to `to` that have a row, with their rows.
pub open spec fn positions(state: HistoryAppState, from: int, to: int) -> Seq<(int, int)>
    decreases to - from + 1,
{
    if from > to {
        Seq::empty()
    } else {
        match state.row_at(to) {
            Some(abs) => positions(state, from, to - 1).push((to, abs)),
            None => positions(state, from, to - 1),
        }
    }
}

impl HistoryAppState {
    /// The visible positions from `top` to `bottom` that have a row, with their rows.
    pub fn window_positions(&self, top: i64, bottom: i64) -> (places: Vec<(i64, i64)>)
        requires
            self.wf(),
        ensures
            places@.len() == positions(*self, top as int, bottom as int).len(),
            forall|i: int|
                0 <= i < places@.len() ==> (
                    (#[trigger] places@[i]).0 as int,
                    places@[i].1 as int,
                ) == positions(*self, top as int, bottom as int)[i],
    {
        let mut places: Vec<(i64, i64)> = Vec::new();
        if top > bottom {
            return places;
        }
        let mut vis: i64 = top;
        loop
            invariant
                self.wf(),
                top <= vis <= bottom,
                places@.len() == positions(*self, top as int, vis - 1).len(),
                forall|i: int|
                    0 <= i < places@.len() ==> (
                        (#[trigger] places@[i]).0 as int,
                        places@[i].1 as int,
                    ) == positions(*self, top as int, vis - 1)[i],
            decreases bottom - vis,
        {
            if let Some(abs) = self.abs_index_for_visible(vis) {
                places.push((vis, abs));
            }
            if vis == bottom {
                return places;
            }
            vis = vis + 1;
        }
    }

    /// Whether a rendered row is to be removed: it is hidden, or outside what is kept.
    pub open spec fn leaves(self, abs: i64, keep_top: i64, keep_bottom: i64) -> bool {
        match self.visible_of(abs as int) {
            Some(visible) => visible < keep_top || visible > keep_bottom,
            None => true,
        }
    }

    /// The rendered rows that are to be removed.
    pub fn rows_outside_visible(&self, rendered: &[i64], keep_top: i64, keep_bottom: i64) -> (out:
        Vec<i64>)
        requires
            self.wf(),
        ensures
            out@ == rendered@.filter(|abs: i64| self.leaves(abs, keep_top, keep_bottom)),
    {
        let mut out: Vec<i64> = Vec::new();
        let ghost leaving = |abs: i64| self.leaves(abs, keep_top, keep_bottom);
        let mut i: usize = 0;
        proof {
            assert(rendered@.take(0) =~= Seq::empty());
            reveal(Seq::filter);
            assert(out@ =~= rendered@.take(0).filter(leaving));
        }
        while i < rendered.len()
            invariant
                self.wf(),
                i <= rendered@.len(),
                leaving == (|abs: i64| self.leaves(abs, keep_top, keep_bottom)),
                out@ == rendered@.take(i as int).filter(leaving),
            decreases rendered.len() - i,
        {
            let abs: i64 = rendered[i];
            let gone = match self.visible_index_for_abs(abs) {
                Some(visible) => visible < keep_top || visible > keep_bottom,
                None => true,
            };
            proof {
                assert(rendered@.take(i + 1) =~= rendered@.take(i as int).push(abs));
                rendered@.take(i as int).lemma_filter_push(abs, leaving);
            }
            if gone {
                out.push(abs);
            }
            i = i + 1;
        }
        assert(rendered@.take(i as int) =~= rendered@);
        out
    }
}

/// The group that is open before a position: that of the last cached row above it.
pub open spec fn open_group(slots: Seq<Slot>, initial: Option<Seq<char>>, n: int) -> Option<
    Seq<char>,
>
    decreases n,
{
    if n <= 0 {
        initial
    } else {
        match slots[n - 1].row {
            Some(row) => Some(row::text_of(row@, "group"@)),
            None => open_group(slots, initial, n - 1),
        }
    }
}

/// Whether a group differs from the one that is open.
pub open spec fn opens_group(open: Option<Seq<char>>, group: Seq<char>) -> bool {
    open != Some(group)
}

/// Whether a row opens a group below a row of another.
pub fn starts_group(previous: Option<&str>, group: &str) -> (yes: bool)
    ensures
        yes == opens_group(crate::labels::slice_text(previous), group@),
{
    match previous {
        Some(previous) => !same_text(previous, group),
        None => true,
    }
}

/// A context with what is known of the group.
pub open spec fn in_group(context: RowContext, is_group_start: bool) -> RowContext {
    RowContext { is_group_start, ..context }
}

fn context_in_group(context: &RowContext, is_group_start: bool) -> (placed: RowContext)
    ensures
        placed == in_group(*context, is_group_start),
{
    RowContext {
        view: context.view,
        abs_index: context.abs_index,
        is_group_start,
        selected_key: match &context.selected_key {
            Some(key) => Some(key.clone()),
            None => None,
        },
        find_current: context.find_current,
        expanded: context.expanded,
        roving_abs: context.roving_abs,
    }
}

/// Whether a planned row is what its position shows.
pub open spec fn planned(
    slots: Seq<Slot>,
    initial: Option<Seq<char>>,
    i: int,
    row: WindowRow,
) -> bool {
    &&& row.vis == slots[i].vis
    &&& match slots[i].row {
        Some(payload) => row.spec.presents(
            payload@,
            in_group(
                slots[i].context,
                opens_group(
                    open_group(slots, initial, i),
                    row::text_of(payload@, "group"@),
                ),
            ),
        ),
        None => row.spec.is_placeholder(slots[i].context.abs_index),
    }
}

/// Plans the rows of a window. A row opens a group unless the last cached row
/// above it, or above the window, is of the same group.
pub fn window_rows_from(slots: &Vec<Slot>, initial_group: Option<&str>) -> (rows: Vec<WindowRow>)
    ensures
        rows@.len() == slots@.len(),
        forall|i: int|
            0 <= i < slots@.len() ==> planned(
                slots@,
                crate::labels::slice_text(initial_group),
                i,
                #[trigger] rows@[i],
            ),
{
    let ghost initial = crate::labels::slice_text(initial_group);
    let mut rows: Vec<WindowRow> = Vec::new();
    let mut open: Option<String> = match initial_group {
        Some(group) => Some(group.to_owned()),
        None => None,
    };
    let mut i: usize = 0;
    while i < slots.len()
        invariant
            i <= slots@.len(),
            rows@.len() == i,
            crate::summary::optional_text(open) == open_group(slots@, initial, i as int),
            forall|k: int| 0 <= k < i ==> planned(slots@, initial, k, #[trigger] rows@[k]),
        decreases slots.len() - i,
    {
        let slot: &Slot = &slots[i];
        let vis: i64 = slot.vis;
        match &slot.row {
            Some(payload) => {
                let group = row::text(payload, "group");
                let start = match &open {
                    Some(previous) => !same_text(previous.as_str(), group),
                    None => true,
                };
                let context = context_in_group(&slot.context, start);
                let spec = RowSpec::from_value(payload, &context);
                rows.push(WindowRow { vis, spec });
                open = Some(group.to_owned());
            },
            None => {
                let spec = RowSpec::placeholder(slot.context.abs_index);
                rows.push(WindowRow { vis, spec });
            },
        }
        i = i + 1;
    }
    rows
}

/// The group of the last of the first `n` planned rows that is cached.
pub open spec fn last_group(rows: Seq<WindowRow>, n: int) -> Option<Seq<char>>
    decreases n,
{
    if n <= 0 {
        None
    } else if rows[n - 1].spec.placeholder {
        last_group(rows, n - 1)
    } else {
        Some(rows[n - 1].spec.group@)
    }
}

/// The group that is open below planned rows.
pub fn group_below(rows: &Vec<WindowRow>) -> (group: Option<String>)
    ensures
        crate::summary::optional_text(group) == last_group(rows@, rows@.len() as int),
{
    let mut i: usize = rows.len();
    while i > 0
        invariant
            i <= rows@.len(),
            last_group(rows@, rows@.len() as int) == last_group(rows@, i as int),
        decreases i,
    {
        if !rows[i - 1].spec.placeholder {
            return Some(rows[i - 1].spec.group.clone());
        }
        i = i - 1;
    }
    None
}

/// Where a row is drawn, in pixels below the top of the viewport.
#[derive(Debug)]
pub struct FrameRow {
    pub index: i64,
    pub key: String,
    pub top: i64,
    pub bottom: i64,
    pub middle: i64,
    pub lane: u32,
    pub above: Vec<u32>,
    pub below: Vec<u32>,
    pub transitions: Vec<(u32, u32)>,
    pub is_subop: bool,
    pub is_bundle: bool,
}

/// The top of a row below that of the viewport.
pub open spec fn top_of(row: WindowRow, scroll_top: i64) -> int {
    row.vis * ROW_H - scroll_top
}

/// Whether a row is drawn: it lies in the viewport or at most one row outside.
pub open spec fn drawn(row: WindowRow, scroll_top: i64, height: i64) -> bool {
    let top = top_of(row, scroll_top);
    -ROW_H <= top + ROW_H && top <= height + ROW_H
}

/// Whether a frame row draws a planned row.
pub open spec fn draws(frame: FrameRow, row: WindowRow, scroll_top: i64) -> bool {
    let top = top_of(row, scroll_top);
    &&& frame.index == row.spec.identity.abs_index
    &&& frame.key@ == row.spec.identity.node_key@
    &&& frame.top == top
    &&& frame.bottom == top + ROW_H
    &&& 2 * frame.middle == frame.top + frame.bottom
    &&& frame.lane == row.spec.graph.lane
    &&& frame.above@ == row.spec.graph.above@
    &&& frame.below@ == row.spec.graph.below@
    &&& frame.transitions@ == row.spec.graph.transitions@
    &&& frame.is_subop == row.spec.graph.is_subop
    &&& frame.is_bundle == row.spec.graph.is_bundle
}

/// The drawn ones among the first `n` planned rows.
pub open spec fn drawn_rows(rows: Seq<WindowRow>, scroll_top: i64, height: i64, n: int) -> Seq<int>
    decreases n,
{
    if n <= 0 {
        Seq::empty()
    } else if drawn(rows[n - 1], scroll_top, height) {
        drawn_rows(rows, scroll_top, height, n - 1).push(n - 1)
    } else {
        drawn_rows(rows, scroll_top, height, n - 1)
    }
}

fn copy_lanes(lanes: &Vec<u32>) -> (copy: Vec<u32>)
    ensures
        copy@ == lanes@,
{
    let mut copy: Vec<u32> = Vec::new();
    let mut i: usize = 0;
    while i < lanes.len()
        invariant
            i <= lanes@.len(),
            copy@ == lanes@.take(i as int),
        decreases lanes.len() - i,
    {
        copy.push(lanes[i]);
        assert(lanes@.take(i + 1) =~= lanes@.take(i as int).push(lanes@[i as int]));
        i = i + 1;
    }
    assert(lanes@.take(i as int) =~= lanes@);
    copy
}

fn copy_pairs(pairs: &Vec<(u32, u32)>) -> (copy: Vec<(u32, u32)>)
    ensures
        copy@ == pairs@,
{
    let mut copy: Vec<(u32, u32)> = Vec::new();
    let mut i: usize = 0;
    while i < pairs.len()
        invariant
            i <= pairs@.len(),
            copy@ == pairs@.take(i as int),
        decreases pairs.len() - i,
    {
        copy.push(pairs[i]);
        assert(pairs@.take(i + 1) =~= pairs@.take(i as int).push(pairs@[i as int]));
        i = i + 1;
    }
    assert(pairs@.take(i as int) =~= pairs@);
    copy
}

/// Where the rows of a window are drawn. The scroll position and the height of
/// the viewport are whole pixels, rounded down.
pub fn frame_rows(rows: &Vec<WindowRow>, scroll_top: i64, height: i64) -> (frame: Vec<FrameRow>)
    requires
        forall|i: int|
            0 <= i < rows@.len() ==> coordinates::in_row_range((#[trigger] rows@[i]).vis as int),
        -coordinates::MAX_EXACT_INTEGER <= scroll_top <= coordinates::MAX_EXACT_INTEGER,
        -coordinates::MAX_EXACT_INTEGER <= height <= coordinates::MAX_EXACT_INTEGER,
    ensures
        ({
            let kept = drawn_rows(rows@, scroll_top, height, rows@.len() as int);
            &&& frame@.len() == kept.len()
            &&& forall|k: int|
                0 <= k < kept.len() ==> draws(
                    #[trigger] frame@[k],
                    rows@[kept[k]],
                    scroll_top,
                )
        }),
{
    let mut frame: Vec<FrameRow> = Vec::new();
    let mut i: usize = 0;
    while i < rows.len()
        invariant
            i <= rows@.len(),
            forall|k: int|
                0 <= k < rows@.len() ==> coordinates::in_row_range(
                    (#[trigger] rows@[k]).vis as int,
                ),
            -coordinates::MAX_EXACT_INTEGER <= scroll_top <= coordinates::MAX_EXACT_INTEGER,
            -coordinates::MAX_EXACT_INTEGER <= height <= coordinates::MAX_EXACT_INTEGER,
            frame@.len() == drawn_rows(rows@, scroll_top, height, i as int).len(),
            forall|k: int|
                0 <= k < frame@.len() ==> draws(
                    #[trigger] frame@[k],
                    rows@[drawn_rows(rows@, scroll_top, height, i as int)[k]],
                    scroll_top,
                ),
        decreases rows.len() - i,
    {
        let row: &WindowRow = &rows[i];
        assert(coordinates::in_row_range(rows@[i as int].vis as int));
        let top: i64 = row.vis * ROW_H - scroll_top;
        let bottom: i64 = top + ROW_H;
        let ghost kept = drawn_rows(rows@, scroll_top, height, i as int);
        if bottom >= -ROW_H && top <= height + ROW_H {
            let graph = &row.spec.graph;
            frame.push(
                FrameRow {
                    index: row.spec.identity.abs_index,
                    key: row.spec.identity.node_key.clone(),
                    top,
                    bottom,
                    middle: top + ROW_H / 2,
                    lane: graph.lane,
                    above: copy_lanes(&graph.above),
                    below: copy_lanes(&graph.below),
                    transitions: copy_pairs(&graph.transitions),
                    is_subop: graph.is_subop,
                    is_bundle: graph.is_bundle,
                },
            );
            assert(drawn_rows(rows@, scroll_top, height, i + 1) == kept.push(i as int));
        }
        i = i + 1;
    }
    frame
}

/// Where the list is scrolled to show a row at the top, within its height.
pub open spec fn restored(row_index: i64, client_height: i64, spacer_height: i64) -> int {
    let room = if spacer_height > client_height {
        spacer_height - client_height
    } else {
        0
    };
    let target = if row_index > 0 {
        row_index * ROW_H
    } else {
        0
    };
    if target < room {
        target
    } else {
        room
    }
}

/// A restored row stands at the top edge where the list is long enough below it. Otherwise
/// the list is scrolled to its end, or not at all where it fits.
pub proof fn restored_rows_stand_at_the_top(
    row_index: i64,
    client_height: i64,
    spacer_height: i64,
)
    requires
        0 <= client_height,
    ensures
        ({
            let top = restored(row_index, client_height, spacer_height);
            &&& top >= 0
            &&& spacer_height <= client_height ==> top == 0
            &&& spacer_height > client_height ==> top + client_height <= spacer_height
            &&& row_index >= 0 && row_index * ROW_H + client_height <= spacer_height ==> top
                == row_index * ROW_H
            &&& row_index >= 0 && spacer_height > client_height && row_index * ROW_H + client_height
                > spacer_height ==> top + client_height == spacer_height
        }),
{
}

/// Where the list is scrolled to show a row at the top, within its height.
pub fn restored_scroll_top(row_index: i64, client_height: i64, spacer_height: i64) -> (top: i64)
    requires
        0 <= client_height,
    ensures
        top == restored(row_index, client_height, spacer_height),
{
    let room: i64 = if spacer_height > client_height {
        spacer_height - client_height
    } else {
        0
    };
    if row_index <= 0 {
        0
    } else if row_index > room / ROW_H {
        room
    } else {
        row_index * ROW_H
    }
}

/// How many results a search has, in words.
pub open spec fn banner(total: u64, query: Seq<char>) -> Seq<char> {
    text::decimal(total as nat) + (if total == 1 {
        " result for \""@
    } else {
        " results for \""@
    }) + query + "\""@
}

/// How many results a search has, in words.
pub fn search_banner(total: u64, query: &str) -> (out: String)
    ensures
        out@ == banner(total, query@),
{
    let mut out = decimal_text(total);
    if total == 1 {
        out.append(" result for \"");
    } else {
        out.append(" results for \"");
    }
    out.append(query);
    out.append("\"");
    out
}

proof fn lemma_positions(state: HistoryAppState, from: int, to: int)
    ensures
        forall|i: int|
            0 <= i < positions(state, from, to).len() ==> {
                let place = #[trigger] positions(state, from, to)[i];
                from <= place.0 <= to && state.row_at(place.0) == Some(place.1)
            },
        forall|i: int, j: int|
            #![trigger positions(state, from, to)[i], positions(state, from, to)[j]]
            0 <= i < j < positions(state, from, to).len() ==> positions(state, from, to)[i].0
                < positions(state, from, to)[j].0,
    decreases to - from + 1,
{
    if from <= to {
        lemma_positions(state, from, to - 1);
    }
}

proof fn lemma_position_held(state: HistoryAppState, from: int, to: int, vis: int) -> (i: int)
    requires
        from <= vis <= to,
        state.row_at(vis) is Some,
    ensures
        0 <= i < positions(state, from, to).len(),
        positions(state, from, to)[i] == (vis, state.row_at(vis)->0),
    decreases to - from + 1,
{
    if vis == to {
        positions(state, from, to).len() - 1
    } else {
        lemma_position_held(state, from, to - 1, vis)
    }
}

/// A window holds every position between its ends that has a row, each one once, in
/// order, and with its own row.
pub proof fn the_window_holds_its_rows(state: HistoryAppState, from: int, to: int)
    ensures
        forall|vis: int|
            from <= vis <= to && (#[trigger] state.row_at(vis)) is Some ==> positions(
                state,
                from,
                to,
            ).contains((vis, state.row_at(vis)->0)),
        forall|i: int|
            0 <= i < positions(state, from, to).len() ==> {
                let place = #[trigger] positions(state, from, to)[i];
                from <= place.0 <= to && state.row_at(place.0) == Some(place.1)
            },
        forall|i: int, j: int|
            #![trigger positions(state, from, to)[i], positions(state, from, to)[j]]
            0 <= i < j < positions(state, from, to).len() ==> positions(state, from, to)[i].0
                < positions(state, from, to)[j].0,
{
    lemma_positions(state, from, to);
    assert forall|vis: int| from <= vis <= to && (#[trigger] state.row_at(vis)) is Some implies
        positions(state, from, to).contains((vis, state.row_at(vis)->0)) by {
        let i = lemma_position_held(state, from, to, vis);
    }
}

/// A rendered row stays exactly while it is shown between the bounds that are kept.
pub proof fn shown_rows_stay(state: HistoryAppState, abs: i64, keep_top: i64, keep_bottom: i64)
    ensures
        !state.leaves(abs, keep_top, keep_bottom) <==> exists|visible: int|
            keep_top <= visible <= keep_bottom && #[trigger] state.visible_of(abs as int) == Some(
                visible,
            ),
{
    if !state.leaves(abs, keep_top, keep_bottom) {
        let visible = state.visible_of(abs as int)->0;
        assert(keep_top <= visible <= keep_bottom && state.visible_of(abs as int) == Some(visible));
    }
}

proof fn lemma_open_group(slots: Seq<Slot>, initial: Option<Seq<char>>, from: int, n: int)
    requires
        0 <= from <= n <= slots.len(),
        forall|k: int| from <= k < n ==> (#[trigger] slots[k]).row is None,
    ensures
        open_group(slots, initial, n) == open_group(slots, initial, from),
    decreases n,
{
    if n > from {
        assert(slots[n - 1].row is None);
        lemma_open_group(slots, initial, from, n - 1);
    }
}

/// Of two cached rows with no cached row between them, the lower one opens a group
/// exactly when their groups differ.
pub proof fn a_group_opens_where_groups_differ(
    slots: Seq<Slot>,
    initial: Option<Seq<char>>,
    upper: int,
    lower: int,
    rows: Seq<WindowRow>,
)
    requires
        0 <= upper < lower < slots.len() == rows.len(),
        slots[upper].row is Some,
        slots[lower].row is Some,
        forall|k: int| upper < k < lower ==> (#[trigger] slots[k]).row is None,
        planned(slots, initial, lower, rows[lower]),
    ensures
        rows[lower].spec.presents(
            slots[lower].row->0@,
            RowContext {
                is_group_start: row::text_of(slots[upper].row->0@, "group"@) != row::text_of(
                    slots[lower].row->0@,
                    "group"@,
                ),
                ..slots[lower].context
            },
        ),
{
    lemma_open_group(slots, initial, upper + 1, lower);
}

/// The first cached row of a window opens a group unless the row above the window is of
/// the same group.
pub proof fn the_first_row_goes_on_with_the_group_above(
    slots: Seq<Slot>,
    initial: Option<Seq<char>>,
    at: int,
    row: WindowRow,
)
    requires
        0 <= at < slots.len(),
        slots[at].row is Some,
        forall|k: int| 0 <= k < at ==> (#[trigger] slots[k]).row is None,
        planned(slots, initial, at, row),
    ensures
        row.spec.presents(
            slots[at].row->0@,
            RowContext {
                is_group_start: initial != Some(row::text_of(slots[at].row->0@, "group"@)),
                ..slots[at].context
            },
        ),
{
    lemma_open_group(slots, initial, 0, at);
}

/// A position whose row is not cached is held by a placeholder, and every planned row
/// keeps its position.
pub proof fn planned_rows_keep_their_positions(
    slots: Seq<Slot>,
    initial: Option<Seq<char>>,
    i: int,
    row: WindowRow,
)
    requires
        0 <= i < slots.len(),
        planned(slots, initial, i, row),
    ensures
        row.vis == slots[i].vis,
        slots[i].row is None ==> row.spec.is_placeholder(slots[i].context.abs_index),
{
}

proof fn lemma_last_group(rows: Seq<WindowRow>, from: int, n: int)
    requires
        0 <= from <= n <= rows.len(),
        forall|k: int| from <= k < n ==> (#[trigger] rows[k]).spec.placeholder,
    ensures
        last_group(rows, n) == last_group(rows, from),
    decreases n,
{
    if n > from {
        assert(rows[n - 1].spec.placeholder);
        lemma_last_group(rows, from, n - 1);
    }
}

/// The group below planned rows is that of the last one that is no placeholder.
pub proof fn the_group_below_is_the_last_one(rows: Seq<WindowRow>, last: int)
    requires
        -1 <= last < rows.len(),
        last >= 0 ==> !rows[last].spec.placeholder,
        forall|k: int| last < k < rows.len() ==> (#[trigger] rows[k]).spec.placeholder,
    ensures
        last_group(rows, rows.len() as int) == (if last >= 0 {
            Some(rows[last].spec.group@)
        } else {
            None
        }),
{
    lemma_last_group(rows, last + 1, rows.len() as int);
}

proof fn lemma_drawn_rows(rows: Seq<WindowRow>, scroll_top: i64, height: i64, n: int)
    requires
        0 <= n <= rows.len(),
    ensures
        forall|k: int|
            0 <= k < drawn_rows(rows, scroll_top, height, n).len() ==> {
                let i = #[trigger] drawn_rows(rows, scroll_top, height, n)[k];
                0 <= i < n && drawn(rows[i], scroll_top, height)
            },
        forall|k: int, l: int|
            #![trigger drawn_rows(rows, scroll_top, height, n)[k], drawn_rows(rows, scroll_top, height, n)[l]]
            0 <= k < l < drawn_rows(rows, scroll_top, height, n).len() ==> drawn_rows(
                rows,
                scroll_top,
                height,
                n,
            )[k] < drawn_rows(rows, scroll_top, height, n)[l],
    decreases n,
{
    if n > 0 {
        lemma_drawn_rows(rows, scroll_top, height, n - 1);
        let before = drawn_rows(rows, scroll_top, height, n - 1);
        let all = drawn_rows(rows, scroll_top, height, n);
        assert forall|k: int| 0 <= k < all.len() implies 0 <= #[trigger] all[k] < n && drawn(
            rows[all[k]],
            scroll_top,
            height,
        ) && (k < before.len() ==> all[k] == before[k]) by {
            if k < before.len() {
                assert(all[k] == before[k]);
            }
        }
    }
}

proof fn lemma_drawn_row(rows: Seq<WindowRow>, scroll_top: i64, height: i64, n: int, i: int) -> (k:
    int)
    requires
        0 <= i < n <= rows.len(),
        drawn(rows[i], scroll_top, height),
    ensures
        0 <= k < drawn_rows(rows, scroll_top, height, n).len(),
        drawn_rows(rows, scroll_top, height, n)[k] == i,
    decreases n,
{
    if i == n - 1 {
        drawn_rows(rows, scroll_top, height, n).len() - 1
    } else {
        lemma_drawn_row(rows, scroll_top, height, n - 1, i)
    }
}

/// A row is drawn where its position puts it, one row height below the row before, and
/// every row within one row height of the viewport is drawn, in order.
pub proof fn rows_near_the_viewport_are_drawn(
    rows: Seq<WindowRow>,
    scroll_top: i64,
    height: i64,
    frame: Seq<FrameRow>,
    i: int,
)
    requires
        0 <= i < rows.len(),
        ({
            let kept = drawn_rows(rows, scroll_top, height, rows.len() as int);
            &&& frame.len() == kept.len()
            &&& forall|k: int|
                0 <= k < kept.len() ==> draws(#[trigger] frame[k], rows[kept[k]], scroll_top)
        }),
    ensures
        rows[i].vis * ROW_H - scroll_top + 2 * ROW_H >= 0 && rows[i].vis * ROW_H - scroll_top
            <= height + ROW_H ==> exists|k: int|
            0 <= k < frame.len() && (#[trigger] frame[k]).top == rows[i].vis * ROW_H - scroll_top
                && frame[k].bottom - frame[k].top == ROW_H && 2 * frame[k].middle == frame[k].top
                + frame[k].bottom && frame[k].index == rows[i].spec.identity.abs_index
                && frame[k].key@ == rows[i].spec.identity.node_key@ && frame[k].lane
                == rows[i].spec.graph.lane && frame[k].above@ == rows[i].spec.graph.above@
                && frame[k].below@ == rows[i].spec.graph.below@ && frame[k].transitions@
                == rows[i].spec.graph.transitions@ && frame[k].is_subop
                == rows[i].spec.graph.is_subop && frame[k].is_bundle
                == rows[i].spec.graph.is_bundle,
        forall|k: int|
            0 <= k < frame.len() ==> (#[trigger] frame[k]).bottom >= -ROW_H && frame[k].top <= height
                + ROW_H,
        forall|k: int, l: int|
            #![trigger frame[k], frame[l]]
            0 <= k < l < frame.len() && (forall|a: int, b: int|
                #![trigger rows[a], rows[b]]
                0 <= a < b < rows.len() ==> rows[a].vis < rows[b].vis) ==> frame[k].top
                < frame[l].top,
{
    let n = rows.len() as int;
    let kept = drawn_rows(rows, scroll_top, height, n);
    lemma_drawn_rows(rows, scroll_top, height, n);
    if rows[i].vis * ROW_H - scroll_top + 2 * ROW_H >= 0 && rows[i].vis * ROW_H - scroll_top
        <= height + ROW_H {
        let k = lemma_drawn_row(rows, scroll_top, height, n, i);
        assert(draws(frame[k], rows[kept[k]], scroll_top));
    }
    assert forall|k: int, l: int|
        #![trigger frame[k], frame[l]]
        0 <= k < l < frame.len() && (forall|a: int, b: int|
            #![trigger rows[a], rows[b]]
            0 <= a < b < rows.len() ==> rows[a].vis < rows[b].vis) implies frame[k].top
        < frame[l].top by {
        assert(draws(frame[k], rows[kept[k]], scroll_top));
        assert(draws(frame[l], rows[kept[l]], scroll_top));
        assert(rows[kept[k]].vis < rows[kept[l]].vis);
    }
}

/// A single result is announced in the singular, any other number in the plural, and the
/// query stands in quotes behind it.
pub proof fn results_are_counted_in_words(total: u64, query: Seq<char>)
    ensures
        total == 1 ==> banner(total, query) == text::decimal(1) + " result for \""@ + query + "\""@,
        total != 1 ==> banner(total, query) == text::decimal(total as nat) + " results for \""@
            + query + "\""@,
{
}

} // verus!
