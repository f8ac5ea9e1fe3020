//! What one transition of the view asks the page and the host to do.

use crate::coordinates::{self, Pixels};
use crate::json::Json;
use vstd::prelude::*;

verus! {

/// The scrolled part of the list.
#[derive(Debug, Clone, Copy, PartialEq, Eq)]
pub struct Viewport {
    pub scroll_top: Pixels,
    pub client_height: Pixels,
}

impl Viewport {
    pub fn new(scroll_top: i64, client_height: i64) -> (viewport: Viewport)
        ensures
            viewport.scroll_top@ == coordinates::clamp_pixels(scroll_top as int),
            viewport.client_height@ == coordinates::clamp_pixels(client_height as int),
    {
        Viewport {
            scroll_top: Pixels::new(scroll_top),
            client_height: Pixels::new(client_height),
        }
    }
}

/// What the Retry button of a request error repeats.
#[derive(Debug, Clone, Copy, PartialEq, Eq, Structural)]
pub enum RetryAction {
    ResetHistory,
    ResubmitSearch,
}

/// What the find counter shows.
#[derive(Debug, Clone, PartialEq, Eq)]
pub enum FindCounterState {
    Pending,
    Zero,
    Error(String),
    Settled { index: u64, total: u64, more: bool },
    Hidden,
}

/// One change of the page.
#[derive(Debug, Clone, PartialEq, Eq)]
pub enum DomOp {
    ShowMessage { text: String, error: bool },
    ShowRequestError { text: String, retry: RetryAction },
    Reanchor { top: i64, bottom: i64 },
    ReanchorLive { top: i64, bottom: i64, scroll_top: i64, animate_connections: bool },
    PatchWindow { top: i64, bottom: i64 },
    AppendBelow { from: i64, to: i64 },
    PrependAbove { from: i64, to: i64 },
    TrimTop { keep_top: i64 },
    TrimBottom { keep_bottom: i64 },
    FillPlaceholders,
    RefreshHeader,
    SetScrollTop(i64),
    RestoreScrollTop { row_index: i64 },
    ProgressiveLoader(bool),
    FindCounter(FindCounterState),
    RevealRow { abs: i64 },
    SetFindHighlight { abs: i64 },
    ClearFindHighlight,
}

/// A host call the state machine wants performed. The page shell executes
/// these against the acquired host interface.
#[derive(Debug, Clone, PartialEq, Eq)]
pub enum Send {
    /// Ask the host to open current sources as a fresh snapshot.
    RefreshHistory,
    /// A correlated service request.
    Request { id: u64, body: Json },
    /// Renderer diagnostics.
    Log(String),
    /// Status-bar loaded/total counts.
    Status { loaded: u64, total: u64 },
    /// Assistive-tech/status text announcement.
    StatusText(String),
    /// Raw-record editor activation; the envelope is posted verbatim.
    OpenJson(Json),
    /// Native diff activation; the host revalidates the advertised identity.
    OpenDiff(Json),
    /// Renderer-instance handshake after installing the host listener.
    WebviewReady(String),
    /// A live revision was shown, or why it was not.
    LiveSettled { snapshot_id: String, error: Option<String> },
}

/// The output of one transition, in order.
#[derive(Debug, Clone, PartialEq, Eq)]
pub struct Step {
    pub ops: Vec<DomOp>,
    pub sends: Vec<Send>,
    pub save_state: Option<Json>,
}

impl Step {
    pub fn new() -> (step: Step)
        ensures
            step.ops@ == Seq::<DomOp>::empty(),
            step.sends@ == Seq::<Send>::empty(),
            step.save_state is None,
    {
        Step { ops: Vec::new(), sends: Vec::new(), save_state: None }
    }
}

} // verus!
