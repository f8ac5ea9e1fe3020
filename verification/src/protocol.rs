//! Plain values exchanged with the history service.

use vstd::prelude::*;

verus! {

/// Why a service call or a response was refused.
#[derive(Debug, Clone, Copy, PartialEq, Eq, Structural)]
pub enum ErrorCode {
    InvalidInput,
    StaleSnapshot,
}

/// A refusal with its reader-facing text.
#[derive(Debug, Clone, PartialEq, Eq)]
pub struct ServiceError {
    pub code: ErrorCode,
    pub message: String,
}

impl ServiceError {
    /// Whether this is the invalid-input refusal with the given text.
    pub open spec fn is_invalid(self, message: Seq<char>) -> bool {
        self.code is InvalidInput && self.message@ == message
    }

    pub fn new(code: ErrorCode, message: &str) -> (error: ServiceError)
        ensures
            error.code == code,
            error.message@ == message@,
    {
        ServiceError { code, message: message.to_owned() }
    }
}

/// An invalid-input refusal.
pub fn invalid(message: &str) -> (error: ServiceError)
    ensures
        error.is_invalid(message@),
{
    ServiceError::new(ErrorCode::InvalidInput, message)
}

/// One expandable row and the number of rows below it that it owns.
#[derive(Debug, Clone, Copy, PartialEq, Eq, Structural)]
pub struct ExpansionSpanDto {
    pub row: u64,
    pub descendant_count: u64,
}

/// What the view reads of one history row.
#[derive(Debug, PartialEq, Eq)]
pub struct HistoryRow {
    pub node_key: String,
    pub continuity_key: String,
    pub summary: String,
    /// The row that this one is disclosed under.
    pub parent_row: Option<usize>,
    /// The highest graph lane that the row's geometry touches.
    pub max_lane: u64,
    /// Encoded size of everything but the parent link, or why it has none.
    pub encoded: Result<u64, String>,
}

impl Clone for HistoryRow {
    fn clone(&self) -> (row: HistoryRow)
        ensures
            row == *self,
    {
        HistoryRow {
            node_key: self.node_key.clone(),
            continuity_key: self.continuity_key.clone(),
            summary: self.summary.clone(),
            parent_row: self.parent_row,
            max_lane: self.max_lane,
            encoded: match &self.encoded {
                Ok(bytes) => Ok(*bytes),
                Err(reason) => Err(reason.clone()),
            },
        }
    }
}

/// A retained row's identity and the content version it holds.
#[derive(Debug, Clone, PartialEq, Eq)]
pub struct CachedRow {
    pub key: String,
    pub version: String,
}

/// One row of a conditional response: its content only where it changed.
#[derive(Debug, Clone, PartialEq, Eq)]
pub struct ReconciledRow {
    pub cached: CachedRow,
    pub content: Option<HistoryRow>,
}

/// The identity of one published snapshot.
#[derive(Debug, PartialEq, Eq)]
pub struct SnapshotId {
    pub value: String,
}

impl Clone for SnapshotId {
    fn clone(&self) -> (id: SnapshotId)
        ensures
            id == *self,
    {
        SnapshotId { value: self.value.clone() }
    }
}

impl SnapshotId {
    pub fn new(value: &str) -> (id: SnapshotId)
        ensures
            id.value@ == value@,
    {
        SnapshotId { value: value.to_owned() }
    }

    pub fn as_str(&self) -> (value: &str)
        ensures
            value@ == self.value@,
    {
        self.value.as_str()
    }
}

/// How far a task has come.
#[derive(Debug, Clone, Copy, PartialEq, Eq, Structural)]
pub enum TaskStatus {
    InProgress,
    Completed,
}

/// The topology of one live block.
#[derive(Debug, PartialEq, Eq)]
pub struct LiveBlockMeta {
    pub key: String,
    pub sort_time: u64,
    pub row_count: u64,
    pub spans: Vec<ExpansionSpanDto>,
    /// The section that the block belongs to.
    pub task_group: Option<String>,
    /// The status of the task that this block summarises.
    pub task_summary: Option<TaskStatus>,
    /// Whether the block heads the section named by its own key.
    pub task_header: bool,
}

/// The contents of a block's metadata.
pub ghost struct MetaView {
    pub key: Seq<char>,
    pub sort_time: u64,
    pub row_count: u64,
    pub spans: Seq<ExpansionSpanDto>,
    pub task_group: Option<Seq<char>>,
    pub task_summary: Option<TaskStatus>,
    pub task_header: bool,
}

impl View for LiveBlockMeta {
    type V = MetaView;

    open spec fn view(&self) -> MetaView {
        MetaView {
            key: self.key@,
            sort_time: self.sort_time,
            row_count: self.row_count,
            spans: self.spans@,
            task_group: match self.task_group {
                Some(group) => Some(group@),
                None => None,
            },
            task_summary: self.task_summary,
            task_header: self.task_header,
        }
    }
}

impl Clone for LiveBlockMeta {
    fn clone(&self) -> (meta: LiveBlockMeta)
        ensures
            meta@ == self@,
    {
        let mut spans: Vec<ExpansionSpanDto> = Vec::new();
        let mut i: usize = 0;
        while i < self.spans.len()
            invariant
                i <= self.spans.len(),
                spans@ == self.spans@.take(i as int),
            decreases self.spans.len() - i,
        {
            spans.push(self.spans[i]);
            i = i + 1;
        }
        assert(spans@ =~= self.spans@);
        LiveBlockMeta {
            key: self.key.clone(),
            sort_time: self.sort_time,
            row_count: self.row_count,
            spans,
            task_group: match &self.task_group {
                Some(group) => Some(group.clone()),
                None => None,
            },
            task_summary: self.task_summary,
            task_header: self.task_header,
        }
    }
}

/// The topology that a live view starts from.
#[derive(Debug, Clone, PartialEq, Eq)]
pub struct LiveBaseline {
    pub epoch: SnapshotId,
    pub revision: u64,
    pub total: u64,
    pub blocks: Vec<LiveBlockMeta>,
}

/// A new or revised block with its rows.
#[derive(Debug, Clone, PartialEq, Eq)]
pub struct LiveBlock {
    pub meta: LiveBlockMeta,
    pub rows: Vec<HistoryRow>,
}

/// The edits from one revision to the next.
#[derive(Debug, Clone, PartialEq, Eq)]
pub struct LiveDelta {
    pub base_revision: u64,
    pub revision: u64,
    pub snapshot_id: SnapshotId,
    pub removed: Vec<String>,
    pub upserts: Vec<LiveBlock>,
    pub total: u64,
    pub max_lane: u64,
}

/// How much the service did for an update.
#[derive(Debug, Clone, Copy, PartialEq, Eq, Structural)]
pub struct LiveWork {
    pub blocks: u64,
    pub chain_records: u64,
}

/// A replay of deltas up to one revision.
#[derive(Debug, Clone, PartialEq, Eq)]
pub struct LiveUpdate {
    pub epoch: SnapshotId,
    pub revision: u64,
    pub deltas: Vec<LiveDelta>,
    pub work: LiveWork,
}

/// The geometry of one row once the graph holds the latest blocks.
#[derive(Debug, PartialEq, Eq)]
pub struct RowGeometry {
    pub key: String,
    pub slot: u64,
    pub max_lane: u64,
    pub encoded: Result<u64, String>,
}

/// What the graph says once it holds the latest blocks.
#[derive(Debug, PartialEq, Eq)]
pub struct GraphFacts {
    /// The blocks that are straight interiors of a causal path.
    pub foldable: Vec<String>,
    /// The blocks whose folding may have changed.
    pub changed: Vec<String>,
    /// The geometry of the rows that may be retained.
    pub geometry: Vec<RowGeometry>,
}

} // verus!
