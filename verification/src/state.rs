//! The view state that revisions and queries work on.

use crate::cache::{PageCache, Placed};
use crate::coordinates::{self, ExpandedRow, VisibleRow, ROW_H};
use crate::expansion::ExpansionIndex;
use crate::find::FindSession;
use crate::live::LiveIndex;
use crate::protocol::SnapshotId;
use crate::step::Viewport;
use vstd::prelude::*;

verus! {

/// How rows are disclosed.
#[derive(Debug, Clone)]
pub enum Topology {
    /// Nothing is folded: every row is shown at its own coordinate.
    Flat,
    /// One snapshot's expandable rows.
    Snapshot(ExpansionIndex),
    /// Revisioned blocks.
    Live(LiveIndex),
}

/// The selected row's identity and the keyboard anchor.
#[derive(Debug, Clone)]
pub struct Selection {
    pub roving: Option<ExpandedRow>,
    pub node_key: Option<String>,
    pub continuity_key: Option<String>,
}

impl Selection {
    pub fn new() -> (selection: Selection)
        ensures
            selection.roving is None,
            selection.node_key is None,
            selection.continuity_key is None,
    {
        Selection { roving: None, node_key: None, continuity_key: None }
    }

    /// Deselect; the keyboard anchor stays.
    pub fn clear(&mut self)
        ensures
            final(self).node_key is None,
            final(self).continuity_key is None,
            final(self).roving == old(self).roving,
    {
        self.node_key = None;
        self.continuity_key = None;
    }

    pub fn set_roving(&mut self, row: Option<ExpandedRow>)
        ensures
            *final(self) == (Selection { roving: row, ..*old(self) }),
    {
        self.roving = row;
    }

    /// Select a row by its current and its lasting identity.
    pub fn select_with_continuity(&mut self, node_key: &str, continuity_key: &str)
        ensures
            final(self).node_key matches Some(key) && key@ == node_key@,
            final(self).continuity_key matches Some(key) && key@ == continuity_key@,
            final(self).roving == old(self).roving,
    {
        self.node_key = Some(node_key.to_owned());
        self.continuity_key = Some(continuity_key.to_owned());
    }
}

/// The state of one history view.
#[derive(Debug, Clone)]
pub struct HistoryAppState {
    /// Whether the host pages a remote view of the history.
    pub remote: bool,
    pub topology: Topology,
    pub cache: PageCache,
    pub max_lane: u32,
    pub render_top: i64,
    pub render_bottom: i64,
    pub selection: Selection,
    /// The lasting identities of the rows that the viewer opened.
    pub expanded_keys: Vec<String>,
    pub snapshot_id: SnapshotId,
    pub view_gen: u64,
    /// The outstanding requests.
    pub requests: Vec<u64>,
    pub total: Option<i64>,
    pub find: FindSession,
}

/// The highest lane among those of the first `n` rows that the window shows.
pub open spec fn window_lane(state: HistoryAppState, rows: Seq<Placed>, n: int) -> u64
    decreases n,
{
    if n <= 0 {
        0
    } else {
        let before = window_lane(state, rows, n - 1);
        let lane = rows[n - 1].entry.row.source.max_lane;
        if state.in_window(rows[n - 1].row as int) && lane > before {
            lane
        } else {
            before
        }
    }
}

impl HistoryAppState {
    pub open spec fn wf(self) -> bool {
        &&& self.cache.wf()
        &&& self.find.wf()
        &&& self.total matches Some(total) ==> total >= 0
        &&& match self.topology {
            Topology::Flat => true,
            Topology::Snapshot(index) => index.wf(),
            Topology::Live(index) => index.wf(),
        }
    }

    /// The visible position of a row.
    pub open spec fn visible_of(self, abs: int) -> Option<int> {
        if !coordinates::in_row_range(abs) {
            None
        } else {
            match self.topology {
                Topology::Flat => Some(abs),
                Topology::Snapshot(index) => if index.shows(abs) {
                    Some(index.rank(abs) as int)
                } else {
                    None
                },
                Topology::Live(index) => if index.shows(abs) {
                    Some(index.rank(abs) as int)
                } else {
                    None
                },
            }
        }
    }

    /// The row at a visible position.
    pub open spec fn row_at(self, visible: int) -> Option<int> {
        if !coordinates::in_row_range(visible) {
            None
        } else {
            match self.topology {
                Topology::Flat => Some(visible),
                Topology::Snapshot(index) => if visible < index.shown().len() {
                    Some(index.shown()[visible])
                } else {
                    None
                },
                Topology::Live(index) => if visible < index.shown().len() {
                    Some(index.shown()[visible])
                } else {
                    None
                },
            }
        }
    }

    /// The number of visible rows.
    pub open spec fn visible_count(self) -> int {
        match self.topology {
            Topology::Flat => match self.total {
                Some(total) => total as int,
                None => 0,
            },
            Topology::Snapshot(index) => index.shown().len() as int,
            Topology::Live(index) => index.shown().len() as int,
        }
    }

    /// Whether the rendered window shows a row.
    pub open spec fn in_window(self, abs: int) -> bool {
        self.visible_of(abs) matches Some(visible) && self.render_top <= visible
            <= self.render_bottom
    }

    pub fn visible_index_for_abs(&self, abs: i64) -> (visible: Option<i64>)
        requires
            self.wf(),
        ensures
            match visible {
                Some(visible) => self.visible_of(abs as int) == Some(visible as int),
                None => self.visible_of(abs as int) is None,
            },
    {
        match ExpandedRow::new(abs) {
            Some(row) => match &self.topology {
                Topology::Flat => Some(abs),
                Topology::Snapshot(index) => match index.visible_for(row) {
                    Some(visible) => Some(visible.get()),
                    None => None,
                },
                Topology::Live(index) => match index.visible_for(row) {
                    Some(visible) => Some(visible.get()),
                    None => None,
                },
            },
            None => None,
        }
    }

    pub fn abs_index_for_visible(&self, visible: i64) -> (abs: Option<i64>)
        requires
            self.wf(),
        ensures
            match abs {
                Some(abs) => self.row_at(visible as int) == Some(abs as int),
                None => self.row_at(visible as int) is None,
            },
    {
        match VisibleRow::new(visible) {
            Some(row) => match &self.topology {
                Topology::Flat => Some(visible),
                Topology::Snapshot(index) => match index.expanded_for(row) {
                    Some(abs) => Some(abs.get()),
                    None => None,
                },
                Topology::Live(index) => match index.expanded_for(row) {
                    Some(abs) => Some(abs.get()),
                    None => None,
                },
            },
            None => None,
        }
    }

    pub fn visible_total(&self) -> (total: i64)
        requires
            self.wf(),
        ensures
            total == self.visible_count(),
    {
        match &self.topology {
            Topology::Flat => match self.total {
                Some(total) => total,
                None => 0,
            },
            Topology::Snapshot(index) => index.visible_total(),
            Topology::Live(index) => {
                let total: u64 = index.visible_total();
                proof {
                    crate::live::lemma_start_monotone(
                        index.blocks@,
                        0,
                        index.blocks@.len() as int,
                    );
                    crate::expansion::lemma_rows_between_len(
                        |r: int| crate::live::live_shows(index.blocks@, r),
                        0,
                        index.row_total(),
                    );
                }
                total as i64
            },
        }
    }

    /// The first visible row that a viewport touches.
    pub open spec fn top_of(viewport: Viewport) -> int {
        viewport.scroll_top@ / (ROW_H as int)
    }

    /// The last visible row that a viewport touches.
    pub open spec fn bottom_of(self, viewport: Viewport) -> int {
        let edge = (viewport.scroll_top@ + viewport.client_height@) / (ROW_H as int);
        if edge < self.visible_count() - 1 {
            edge
        } else {
            self.visible_count() - 1
        }
    }

    pub fn viewport_visible_top(viewport: &Viewport) -> (top: i64)
        ensures
            top == HistoryAppState::top_of(*viewport),
            0 <= top <= coordinates::MAX_RENDER_ROWS,
    {
        viewport.scroll_top.row().get()
    }

    pub fn viewport_visible_bottom(&self, viewport: &Viewport) -> (bottom: i64)
        requires
            self.wf(),
        ensures
            bottom == self.bottom_of(*viewport),
            bottom <= 2 * coordinates::MAX_RENDER_ROWS,
    {
        let last: i64 = self.visible_total() - 1;
        let edge: i64 = (viewport.scroll_top.get() + viewport.client_height.get()) / ROW_H;
        if edge < last {
            edge
        } else {
            last
        }
    }

    /// Frame the retained window at ordinary lane pitch. Distant historical
    /// branches must not compress the current tracks or reserve empty columns.
    pub fn graph_max_lane(&self) -> (lane: u32)
        requires
            self.wf(),
        ensures
            !self.remote && !(self.topology is Live) ==> lane == self.max_lane,
            self.remote || self.topology is Live ==> {
                let highest = window_lane(*self, self.cache.rows@, self.cache.rows@.len() as int);
                lane == (if highest > u32::MAX {
                    0
                } else {
                    highest as int
                })
            },
    {
        if !self.remote && !matches!(self.topology, Topology::Live(_)) {
            return self.max_lane;
        }
        let mut highest: u64 = 0;
        let mut i: usize = 0;
        while i < self.cache.rows.len()
            invariant
                i <= self.cache.rows.len(),
                self.wf(),
                highest == window_lane(*self, self.cache.rows@, i as int),
            decreases self.cache.rows.len() - i,
        {
            let placed = &self.cache.rows[i];
            if let Some(visible) = self.visible_index_for_abs(placed.row) {
                let lane: u64 = placed.entry.row.max_graph_lane();
                if self.render_top <= visible && visible <= self.render_bottom && lane > highest {
                    highest = lane;
                }
            }
            i = i + 1;
        }
        if highest > u32::MAX as u64 {
            0
        } else {
            highest as u32
        }
    }
}

proof fn lemma_window_lane(state: HistoryAppState, rows: Seq<Placed>, n: int)
    requires
        0 <= n <= rows.len(),
    ensures
        forall|i: int|
            0 <= i < n && state.in_window((#[trigger] rows[i]).row as int)
                ==> rows[i].entry.row.source.max_lane <= window_lane(state, rows, n),
        window_lane(state, rows, n) > 0 ==> exists|i: int|
            0 <= i < n && state.in_window((#[trigger] rows[i]).row as int)
                && rows[i].entry.row.source.max_lane == window_lane(state, rows, n),
    decreases n,
{
    if n > 0 {
        lemma_window_lane(state, rows, n - 1);
        let before = window_lane(state, rows, n - 1);
        if window_lane(state, rows, n) == before && before > 0 {
            let i = choose|i: int|
                0 <= i < n - 1 && state.in_window((#[trigger] rows[i]).row as int)
                    && rows[i].entry.row.source.max_lane == before;
            assert(rows[i].entry.row.source.max_lane == before);
        }
        if window_lane(state, rows, n) > before {
            assert(rows[n - 1].entry.row.source.max_lane == window_lane(state, rows, n));
        }
    }
}

/// The graph is as wide as the widest row that the window shows, and no wider.
pub proof fn the_widest_shown_row_decides(state: HistoryAppState, rows: Seq<Placed>)
    ensures
        ({
            let lane = window_lane(state, rows, rows.len() as int);
            &&& forall|i: int|
                0 <= i < rows.len() && state.in_window((#[trigger] rows[i]).row as int)
                    ==> rows[i].entry.row.source.max_lane <= lane
            &&& lane > 0 ==> exists|i: int|
                0 <= i < rows.len() && state.in_window((#[trigger] rows[i]).row as int)
                    && rows[i].entry.row.source.max_lane == lane
        }),
{
    lemma_window_lane(state, rows, rows.len() as int);
}

/// The first row that a viewport touches holds the top edge of the viewport; the last one
/// holds its bottom edge, or is the last of all.
pub proof fn viewports_touch_the_rows_at_their_edges(state: HistoryAppState, viewport: Viewport)
    ensures
        ({
            let top = HistoryAppState::top_of(viewport);
            let bottom = state.bottom_of(viewport);
            let edge = viewport.scroll_top@ + viewport.client_height@;
            &&& top * ROW_H <= viewport.scroll_top@ < (top + 1) * ROW_H
            &&& bottom <= state.visible_count() - 1
            &&& bottom * ROW_H <= edge
            &&& bottom < state.visible_count() - 1 ==> edge < (bottom + 1) * ROW_H
        }),
{
    let edge = viewport.scroll_top@ + viewport.client_height@;
    let at = edge / (ROW_H as int);
    assert(at * ROW_H <= edge < (at + 1) * ROW_H);
}

/// In a flat list every row stands at its own number.
pub proof fn flat_rows_stand_at_their_number(state: HistoryAppState, row: int)
    requires
        state.topology is Flat,
        0 <= row <= coordinates::MAX_RENDER_ROWS,
    ensures
        state.visible_of(row) == Some(row),
        state.row_at(row) == Some(row),
{
}

} // verus!
