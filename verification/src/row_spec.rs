//! Everything that the list shows of one cached row.

use crate::chrome::{
    self, activity_bundle_kind, bundle_count_text, count_text, execute_succeeded, member_count,
    promoted_kind, push_tag, row_classification, row_semantic_chrome, session_meta_description,
    session_meta_field, session_meta_values, session_summary_count_title, session_summary_of,
    show_work_unit_count, work_unit_count_text, work_unit_count_title, work_unit_of,
    work_unit_title, BadgeOptions, BundleKind, ChromeItem, ChromeView, PromotedKind,
    RowClassification, SessionSummaryData, ViewMode, WorkUnitData,
};
use crate::dates::{self, format_date};
use crate::interaction::{self, has_sub_ops};
use crate::json::{Json, JsonView};
use crate::labels::{
    self, commit_cell_title, group_label_text, is_graph_endpoint, open_json_envelope,
    short_commit_id, subop_icon,
};
use crate::payload::{self, display_summary_for_row, summary_source};
use crate::plain_text::{self, markdown_plain_summary};
use crate::row;
use crate::summary::{self, or_none, plain_row_summary, RowSummary, RowSummaryView, Summary};
use crate::text::{chars_of, joined, same_text};
use vstd::prelude::*;

verus! {

/// What the view knows of a row beyond its payload.
#[derive(Debug)]
pub struct RowContext {
    pub view: ViewMode,
    pub abs_index: i64,
    /// Whether the row opens a new group.
    pub is_group_start: bool,
    /// The key of the selected row.
    pub selected_key: Option<String>,
    /// Whether the row is the current match of a find session.
    pub find_current: bool,
    /// Whether the sub-operations of the row are shown.
    pub expanded: bool,
    /// The row that the tab key reaches.
    pub roving_abs: Option<i64>,
}

impl RowContext {
    /// A row that is neither selected nor found, disclosed, or reached.
    pub fn for_row(view: ViewMode, abs_index: i64, is_group_start: bool) -> (context: RowContext)
        ensures
            context.view == view,
            context.abs_index == abs_index,
            context.is_group_start == is_group_start,
            context.selected_key is None,
            !context.find_current,
            !context.expanded,
            context.roving_abs is None,
    {
        RowContext {
            view,
            abs_index,
            is_group_start,
            selected_key: None,
            find_current: false,
            expanded: false,
            roving_abs: None,
        }
    }
}

/// Whether the chain of a row is in the foreground.
#[derive(Debug, Clone, Copy, PartialEq, Eq, Structural)]
pub enum ChainState {
    Active,
    Muted,
}

/// The state that a payload names.
pub open spec fn chain_state(name: Seq<char>) -> ChainState {
    if name == "muted"@ {
        ChainState::Muted
    } else {
        ChainState::Active
    }
}

impl ChainState {
    pub fn from_wire(name: &str) -> (state: ChainState)
        ensures
            state == chain_state(name@),
    {
        if same_text(name, "muted") {
            ChainState::Muted
        } else {
            ChainState::Active
        }
    }
}

/// Who a row is.
#[derive(Debug, PartialEq, Eq)]
pub struct RowIdentity {
    pub abs_index: i64,
    pub node_key: String,
    pub is_subop: bool,
    pub hierarchy_depth: u8,
    pub subop_kind: String,
    pub op_id: String,
    pub git_oid: String,
    pub repository: String,
    pub commit_id: String,
    pub turn_id: String,
}

/// How deep a row stands in the hierarchy.
pub open spec fn depth_of(row: JsonView) -> u8 {
    let subop: u8 = if row::truth_of(row, "is_subop"@) {
        1
    } else {
        0
    };
    match row.get("hierarchy_depth"@) {
        Some(value) => match value.unsigned() {
            Some(depth) => if depth <= 255 {
                depth as u8
            } else {
                subop
            },
            None => subop,
        },
        None => subop,
    }
}

fn read_depth(row: &Json) -> (depth: u8)
    ensures
        depth == depth_of(row@),
{
    let subop: u8 = if row::truth(row, "is_subop") {
        1
    } else {
        0
    };
    match row.get("hierarchy_depth") {
        Some(value) => match value.as_u64() {
            Some(depth) => if depth <= 255 {
                depth as u8
            } else {
                subop
            },
            None => subop,
        },
        None => subop,
    }
}

impl RowIdentity {
    /// Whether the identity is that of a payload at a position.
    pub open spec fn is_of(self, row: JsonView, abs_index: i64) -> bool {
        &&& self.abs_index == abs_index
        &&& self.node_key@ == row::text_of(row, "node_key"@)
        &&& self.is_subop == row::truth_of(row, "is_subop"@)
        &&& self.hierarchy_depth == depth_of(row)
        &&& self.subop_kind@ == row::text_of(row, "subop_kind"@)
        &&& self.op_id@ == row::text_of(row, "op_id"@)
        &&& self.git_oid@ == row::text_of(row, "git_oid"@)
        &&& self.repository@ == row::text_of(row, "repository"@)
        &&& self.commit_id@ == row::text_of(row, "commit_id"@)
        &&& self.turn_id@ == row::text_of(row, "turn_id"@)
    }

    fn read(row: &Json, abs_index: i64) -> (identity: RowIdentity)
        ensures
            identity.is_of(row@, abs_index),
    {
        RowIdentity {
            abs_index,
            node_key: row::owned_str(row, "node_key"),
            is_subop: row::truth(row, "is_subop"),
            hierarchy_depth: read_depth(row),
            subop_kind: row::owned_str(row, "subop_kind"),
            op_id: row::owned_str(row, "op_id"),
            git_oid: row::owned_str(row, "git_oid"),
            repository: row::owned_str(row, "repository"),
            commit_id: row::owned_str(row, "commit_id"),
            turn_id: row::owned_str(row, "turn_id"),
        }
    }
}

/// The graph of a row.
#[derive(Debug, PartialEq, Eq)]
pub struct GraphData {
    pub lane: u32,
    pub above: Vec<u32>,
    pub below: Vec<u32>,
    pub transitions: Vec<(u32, u32)>,
    pub muted_above: Vec<u32>,
    pub muted_below: Vec<u32>,
    pub muted_transitions: Vec<(u32, u32)>,
    pub chain_state: ChainState,
    pub is_subop: bool,
    pub is_bundle: bool,
    pub expanded: bool,
}

/// The lane of a row.
pub open spec fn lane_of(row: JsonView) -> u32 {
    match row.get("lane"@) {
        Some(value) => match row::lane_value(value) {
            Some(lane) => lane,
            None => 0,
        },
        None => 0,
    }
}

impl GraphData {
    /// Whether the graph is that of a payload.
    pub open spec fn is_of(self, row: JsonView, is_bundle: bool, expanded: bool) -> bool {
        &&& self.lane == lane_of(row)
        &&& self.above@ == row::lanes_of(row, "above"@)
        &&& self.below@ == row::lanes_of(row, "below"@)
        &&& self.transitions@ == row::pairs_of(row, "transitions"@)
        &&& self.muted_above@ == row::lanes_of(row, "muted_above"@)
        &&& self.muted_below@ == row::lanes_of(row, "muted_below"@)
        &&& self.muted_transitions@ == row::pairs_of(row, "muted_transitions"@)
        &&& self.chain_state == chain_state(row::text_of(row, "chain_state"@))
        &&& self.is_subop == row::truth_of(row, "is_subop"@)
        &&& self.is_bundle == is_bundle
        &&& self.expanded == expanded
    }

    fn read(row: &Json, is_bundle: bool, expanded: bool) -> (graph: GraphData)
        ensures
            graph.is_of(row@, is_bundle, expanded),
    {
        GraphData {
            lane: row::lane(row),
            above: row::above(row),
            below: row::below(row),
            transitions: row::transitions(row),
            muted_above: row::muted_above(row),
            muted_below: row::muted_below(row),
            muted_transitions: row::muted_transitions(row),
            chain_state: ChainState::from_wire(row::text(row, "chain_state")),
            is_subop: row::truth(row, "is_subop"),
            is_bundle,
            expanded,
        }
    }
}

/// The header of a row that opens a unit of work or stands for a session.
#[derive(Debug, PartialEq, Eq)]
pub struct WorkUnitHeader {
    pub id: String,
    pub title: String,
    pub show_count: bool,
    pub count_text: String,
    pub count_title: String,
    /// Whether the title says all that the summary says.
    pub title_only: bool,
}

/// The contents of a header.
pub ghost struct HeaderView {
    pub id: Seq<char>,
    pub title: Seq<char>,
    pub show_count: bool,
    pub count_text: Seq<char>,
    pub count_title: Seq<char>,
    pub title_only: bool,
}

impl View for WorkUnitHeader {
    type V = HeaderView;

    open spec fn view(&self) -> HeaderView {
        HeaderView {
            id: self.id@,
            title: self.title@,
            show_count: self.show_count,
            count_text: self.count_text@,
            count_title: self.count_title@,
            title_only: self.title_only,
        }
    }
}

/// Whether a row has a header.
pub open spec fn has_header(row: JsonView, view: ViewMode) -> bool {
    match chrome::unit_of(row, view) {
        Some(unit) => unit.is_start || chrome::session_of(row, view) is Some,
        None => false,
    }
}

/// The count of a header: that of the session, otherwise that of the unit.
pub open spec fn header_count(row: JsonView, view: ViewMode) -> Option<u64> {
    match chrome::session_of(row, view) {
        Some(session) => session.count,
        None => match chrome::unit_of(row, view) {
            Some(unit) => unit.count,
            None => None,
        },
    }
}

/// The header of a row, given the plain text of its summary.
pub open spec fn header_of(row: JsonView, view: ViewMode, plain: Seq<char>) -> Option<HeaderView> {
    if !has_header(row, view) {
        None
    } else {
        let count = header_count(row, view);
        let session = chrome::session_of(row, view) is Some;
        Some(
            HeaderView {
                id: chrome::unit_of(row, view)->0.id,
                title: chrome::unit_title(row, view),
                show_count: chrome::several(count) && (session || row::text_of(
                    row,
                    "activity_kind"@,
                ) != "source_control"@),
                count_text: match count {
                    Some(count) => chrome::counted(count, " entry"@, " entries"@),
                    None => Seq::empty(),
                },
                count_title: match count {
                    Some(count) => chrome::counted(count, " entry"@, " entries"@) + if session {
                        " in this session"@
                    } else {
                        " grouped in this activity"@
                    },
                    None => Seq::empty(),
                },
                title_only: chrome::unit_title(row, view) == plain,
            },
        )
    }
}

/// The contents of an optional header.
pub open spec fn optional_header(header: Option<WorkUnitHeader>) -> Option<HeaderView> {
    match header {
        Some(header) => Some(header@),
        None => None,
    }
}

fn no_text() -> (text: String)
    ensures
        text@ == Seq::<char>::empty(),
{
    let text = String::new();
    assert(text@ =~= Seq::<char>::empty());
    text
}

/// The header of a row.
fn make_header(
    row: &Json,
    view: ViewMode,
    unit: &Option<WorkUnitData>,
    session: Option<SessionSummaryData>,
    plain: &str,
) -> (header: Option<WorkUnitHeader>)
    requires
        match *unit {
            Some(unit) => chrome::unit_of(row@, view) == Some(unit@),
            None => chrome::unit_of(row@, view) is None,
        },
        session == chrome::session_of(row@, view),
    ensures
        optional_header(header) == header_of(row@, view, plain@),
{
    match unit {
        Some(unit) => {
            if !unit.is_start && session.is_none() {
                return None;
            }
            let title = work_unit_title(row, view);
            let title_only = same_text(title.as_str(), plain);
            match session {
                Some(session) => {
                    let show_count = match session.count {
                        Some(count) => count > 1,
                        None => false,
                    };
                    let (count_words, count_title) = match session.count {
                        Some(count) => (
                            work_unit_count_text(count),
                            session_summary_count_title(count),
                        ),
                        None => (no_text(), no_text()),
                    };
                    Some(
                        WorkUnitHeader {
                            id: unit.id.clone(),
                            title,
                            show_count,
                            count_text: count_words,
                            count_title,
                            title_only,
                        },
                    )
                },
                None => {
                    let (count_words, count_title) = match unit.count {
                        Some(count) => (work_unit_count_text(count), work_unit_count_title(count)),
                        None => (no_text(), no_text()),
                    };
                    Some(
                        WorkUnitHeader {
                            id: unit.id.clone(),
                            title,
                            show_count: show_work_unit_count(row, unit.count),
                            count_text: count_words,
                            count_title,
                            title_only,
                        },
                    )
                },
            }
        },
        None => None,
    }
}

/// The summary of a row in the content cell; sub-operations and runs have none
/// there.
pub open spec fn content_summary(row: JsonView, view: ViewMode) -> Option<RowSummaryView> {
    if row::truth_of(row, "is_subop"@) || chrome::bundle_of(row, view) == Some(
        BundleKind::ExecuteRun,
    ) {
        None
    } else {
        Some(summary::row_summary(row, shown_summary(row)))
    }
}

/// The summary that a row shows.
pub open spec fn shown_summary(row: JsonView) -> Seq<char> {
    payload::display_of(row, payload::source_of(row))
}

/// The plain text of the summary that a row shows.
pub open spec fn shown_plain(row: JsonView) -> Seq<char> {
    summary::or_no_summary(summary::plain_row(row, shown_summary(row)))
}

/// The tag of a header's count.
pub open spec fn count_tag(header: Option<HeaderView>) -> Seq<ChromeView> {
    match header {
        Some(header) => if header.show_count {
            seq![
                ChromeView {
                    classes: "work-unit-count"@,
                    text: header.count_text,
                    title: header.count_title,
                    aria_label: None,
                },
            ]
        } else {
            Seq::empty()
        },
        None => Seq::empty(),
    }
}

/// The tag of a commit prefix.
pub open spec fn prefix_tag(content: Option<RowSummaryView>) -> Seq<ChromeView> {
    match content {
        Some(content) => match content.git_prefix {
            Some(prefix) => seq![
                ChromeView {
                    classes: "git-prefix-chip"@,
                    text: prefix,
                    title: "Commit prefix: "@ + prefix,
                    aria_label: Some("Commit prefix: "@ + prefix),
                },
            ],
            None => Seq::empty(),
        },
        None => Seq::empty(),
    }
}

/// The first `n` session tags as tags of a row.
pub open spec fn session_tags(items: Seq<chrome::ChipView>, n: int) -> Seq<ChromeView>
    decreases n,
{
    if n <= 0 {
        Seq::empty()
    } else {
        let words = items[n - 1].title + ": "@ + items[n - 1].label;
        session_tags(items, n - 1).push(
            ChromeView {
                classes: items[n - 1].class,
                text: items[n - 1].label,
                title: words,
                aria_label: Some(words),
            },
        )
    }
}

/// Whether a row shows where its session came from.
pub open spec fn shows_session(row: JsonView, is_group_start: bool) -> bool {
    is_group_start && !row::truth_of(row, "is_subop"@) && chrome::session_chips(row).len() > 0
}

/// All tags of a row: what it is, its count, its commit prefix, and its session.
pub open spec fn all_tags(row: JsonView, view: ViewMode, is_group_start: bool) -> Seq<ChromeView> {
    chrome::semantic_tags(
        row,
        chrome::bundle_of(row, view) is Some,
        view,
        (BadgeOptions { show_success_outcome: false }),
    ) + count_tag(header_of(row, view, shown_plain(row))) + prefix_tag(content_summary(row, view))
        + if shows_session(row, is_group_start) {
        session_tags(chrome::session_chips(row), chrome::session_chips(row).len() as int)
    } else {
        Seq::empty()
    }
}

fn push_session_tags(items: &mut Vec<ChromeItem>, row: &Json)
    ensures
        chrome::tags(final(items)@) == chrome::tags(old(items)@) + session_tags(
            chrome::session_chips(row@),
            chrome::session_chips(row@).len() as int,
        ),
{
    let session = session_meta_values(row);
    let ghost all = chrome::session_chips(row@);
    let ghost before = chrome::tags(items@);
    let mut i: usize = 0;
    assert(chrome::tags(items@) =~= before + session_tags(all, 0));
    while i < session.len()
        invariant
            i <= session.len(),
            all == chrome::chips(session@),
            chrome::tags(items@) == before + session_tags(all, i as int),
        decreases session.len() - i,
    {
        assert(all[i as int] == session@[i as int]@);
        let mut words = joined(session[i].title.as_str(), ": ");
        words.append(session[i].label.as_str());
        push_tag(
            items,
            ChromeItem {
                classes: session[i].class.clone(),
                text: session[i].label.clone(),
                title: words.clone(),
                aria_label: Some(words),
            },
        );
        assert(chrome::tags(items@) =~= before + session_tags(all, i + 1));
        i = i + 1;
    }
}

/// All tags of a row.
fn make_tags(
    row: &Json,
    view: ViewMode,
    is_group_start: bool,
    header: &Option<WorkUnitHeader>,
    content: &Option<RowSummary>,
    session: bool,
) -> (items: Vec<ChromeItem>)
    requires
        optional_header(*header) == header_of(row@, view, shown_plain(row@)),
        match *content {
            Some(content) => content_summary(row@, view) == Some(content@),
            None => content_summary(row@, view) is None,
        },
        session == shows_session(row@, is_group_start),
    ensures
        chrome::tags(items@) == all_tags(row@, view, is_group_start),
{
    let is_bundle = activity_bundle_kind(row, view).is_some();
    let mut items = row_semantic_chrome(
        row,
        is_bundle,
        view,
        BadgeOptions { show_success_outcome: false },
    );
    let ghost semantic = chrome::tags(items@);
    if let Some(header) = header {
        if header.show_count {
            push_tag(
                &mut items,
                ChromeItem {
                    classes: "work-unit-count".to_owned(),
                    text: header.count_text.clone(),
                    title: header.count_title.clone(),
                    aria_label: None,
                },
            );
        }
    }
    assert(chrome::tags(items@) =~= semantic + count_tag(header_of(row@, view, shown_plain(row@))));
    let ghost counted = chrome::tags(items@);
    if let Some(content) = content {
        if let Some(prefix) = &content.git_prefix {
            let words = joined("Commit prefix: ", prefix.as_str());
            push_tag(
                &mut items,
                ChromeItem {
                    classes: "git-prefix-chip".to_owned(),
                    text: prefix.clone(),
                    title: words.clone(),
                    aria_label: Some(words),
                },
            );
        }
    }
    assert(chrome::tags(items@) =~= counted + prefix_tag(content_summary(row@, view)));
    if session {
        push_session_tags(&mut items, row);
    }
    assert(chrome::tags(items@) =~= all_tags(row@, view, is_group_start));
    items
}

/// What a bundle is called aloud.
pub open spec fn bundle_words(row: JsonView, view: ViewMode, plain: Seq<char>) -> Seq<char> {
    let kind = chrome::bundle_of(row, view);
    (match kind {
        Some(BundleKind::WorkGroup) => "Work group"@,
        Some(BundleKind::PlanRepeat) => "Plan group"@,
        _ => "Execute run"@,
    }) + ", "@ + (match chrome::members_of(row) {
        Some(count) => match kind {
            Some(BundleKind::WorkGroup) => chrome::counted(count, " activity"@, " activities"@),
            Some(BundleKind::PlanRepeat) => chrome::counted(count, " update"@, " updates"@),
            _ => chrome::counted(count, " step"@, " steps"@),
        },
        None => Seq::empty(),
    }) + (if chrome::run_succeeded(row, view) {
        ", completed"@
    } else {
        Seq::empty()
    }) + if kind == Some(BundleKind::PlanRepeat) || kind == Some(BundleKind::WorkGroup) {
        ": "@ + plain
    } else {
        Seq::empty()
    }
}

/// What a row is called aloud, without its session.
pub open spec fn spoken_row(row: JsonView, view: ViewMode, plain: Seq<char>) -> Seq<char> {
    if chrome::bundle_of(row, view) is Some {
        bundle_words(row, view, plain)
    } else if has_header(row, view) && chrome::unit_title(row, view) != plain {
        chrome::unit_title(row, view) + ": "@ + plain
    } else {
        plain
    }
}

fn speak_bundle(row: &Json, view: ViewMode, plain: &str) -> (out: String)
    ensures
        out@ == bundle_words(row@, view, plain@),
{
    let kind = activity_bundle_kind(row, view);
    let (name, one, many) = match kind {
        Some(BundleKind::WorkGroup) => ("Work group", " activity", " activities"),
        Some(BundleKind::PlanRepeat) => ("Plan group", " update", " updates"),
        _ => ("Execute run", " step", " steps"),
    };
    let mut out = joined(name, ", ");
    if let Some(count) = member_count(row) {
        out.append(count_text(count, one, many).as_str());
    }
    if execute_succeeded(row, view) {
        out.append(", completed");
    }
    match kind {
        Some(BundleKind::PlanRepeat) | Some(BundleKind::WorkGroup) => {
            out.append(": ");
            out.append(plain);
        },
        _ => {},
    }
    assert(out@ =~= bundle_words(row@, view, plain@));
    out
}

fn speak_row(row: &Json, view: ViewMode, plain: &str, header: &Option<WorkUnitHeader>) -> (out:
    String)
    requires
        optional_header(*header) == header_of(row@, view, plain@),
    ensures
        out@ == spoken_row(row@, view, plain@),
{
    if activity_bundle_kind(row, view).is_some() {
        return speak_bundle(row, view, plain);
    }
    match header {
        Some(header) => {
            if header.title_only {
                plain.to_owned()
            } else {
                let mut out = joined(header.title.as_str(), ": ");
                out.append(plain);
                out
            }
        },
        None => plain.to_owned(),
    }
}

/// How a row is dressed by its kind.
#[derive(Debug, Clone, Copy, PartialEq, Eq, Structural)]
pub enum KindClass {
    Plain,
    Tool,
    Dim,
}

/// How a row is dressed by its kind.
pub open spec fn kind_class(row: JsonView) -> KindClass {
    let kind = row::text_of(row, "kind"@);
    if row::truth_of(row, "is_system"@) {
        KindClass::Tool
    } else if kind == "message"@ || kind == "command"@ {
        KindClass::Plain
    } else {
        KindClass::Dim
    }
}

fn kind_class_of(row: &Json) -> (class: KindClass)
    ensures
        class == kind_class(row@),
{
    let kind = row::text(row, "kind");
    if row::truth(row, "is_system") {
        KindClass::Tool
    } else if same_text(kind, "message") || same_text(kind, "command") {
        KindClass::Plain
    } else {
        KindClass::Dim
    }
}

/// Whether a role has a class of its own.
pub open spec fn known_role(role: Seq<char>) -> bool {
    ||| role == "narrative"@
    ||| role == "action"@
    ||| role == "result"@
    ||| role == "artifact"@
    ||| role == "lifecycle"@
    ||| role == "echo"@
    ||| role == "unknown"@
}

fn role_class_of(row: &Json) -> (class: Option<String>)
    ensures
        summary::optional_text(class) == (if known_role(row::text_of(row@, "record_role"@)) {
            Some(row::text_of(row@, "record_role"@))
        } else {
            None
        }),
{
    let role = row::text(row, "record_role");
    if same_text(role, "narrative") || same_text(role, "action") || same_text(role, "result")
        || same_text(role, "artifact") || same_text(role, "lifecycle") || same_text(role, "echo")
        || same_text(role, "unknown") {
        Some(role.to_owned())
    } else {
        None
    }
}

/// The button that shows or hides the sub-operations of a row.
#[derive(Debug, PartialEq, Eq)]
pub struct Disclosure {
    pub expanded: bool,
    pub label: String,
}

/// How many sub-operations a row bundles.
pub open spec fn sub_op_count(row: JsonView) -> int {
    match row.get("sub_ops"@) {
        Some(value) => match value.items() {
            Some(items) => items.len() as int,
            None => 0,
        },
        None => 0,
    }
}

fn count_sub_ops(row: &Json) -> (count: usize)
    ensures
        count == sub_op_count(row@),
{
    match row.get("sub_ops") {
        Some(value) => match value.as_array() {
            Some(items) => items.len(),
            None => 0,
        },
        None => 0,
    }
}

/// What a row hides: the members of a bundle, or details.
pub open spec fn child_words(row: JsonView, view: ViewMode) -> Seq<char> {
    let members = chrome::bundle_label(row, view);
    if members.len() > 0 {
        members
    } else {
        chrome::counted(sub_op_count(row) as u64, " detail"@, " details"@)
    }
}

/// The label of the disclosure button.
pub open spec fn disclosure_label(row: JsonView, view: ViewMode, expanded: bool) -> Seq<char> {
    (if expanded {
        "Collapse "@
    } else {
        "Expand "@
    }) + child_words(row, view)
}

fn make_disclosure(row: &Json, view: ViewMode, expanded: bool) -> (disclosure: Disclosure)
    ensures
        disclosure.expanded == expanded,
        disclosure.label@ == disclosure_label(row@, view, expanded),
{
    let members = bundle_count_text(row, view);
    let words = if chars_of(members.as_str()).len() > 0 {
        members
    } else {
        let count: usize = count_sub_ops(row);
        count_text(count as u64, " detail", " details")
    };
    let label = if expanded {
        joined("Collapse ", words.as_str())
    } else {
        joined("Expand ", words.as_str())
    };
    Disclosure { expanded, label }
}

/// The content cell of a sub-operation.
#[derive(Debug, PartialEq, Eq)]
pub struct SubopContent {
    pub icon: &'static str,
    pub summary: Summary,
}

/// The content cell of a top-level row.
#[derive(Debug, PartialEq, Eq)]
pub struct TopContent {
    pub summary: Option<RowSummary>,
}

/// The content cell.
#[derive(Debug, PartialEq, Eq)]
pub struct RowContent {
    pub subop: Option<SubopContent>,
    pub top: Option<TopContent>,
}

impl RowContent {
    /// Whether the content is that of a payload.
    pub open spec fn is_of(self, row: JsonView, view: ViewMode) -> bool {
        if row::truth_of(row, "is_subop"@) {
            &&& self.top is None
            &&& self.subop matches Some(subop) && subop.icon@ == labels::icon(
                row::text_of(row, "subop_kind"@),
            ) && subop.summary@ == summary::summary_of(shown_summary(row))
        } else {
            &&& self.subop is None
            &&& self.top matches Some(top) && match top.summary {
                Some(content) => content_summary(row, view) == Some(content@),
                None => content_summary(row, view) is None,
            }
        }
    }
}

/// The label of the group that a row's chain belongs to, at its tips and roots.
pub open spec fn chain_label(row: JsonView) -> Option<Seq<char>> {
    if !row::truth_of(row, "is_subop"@) && labels::endpoint(
        lane_of(row),
        row::lanes_of(row, "above"@),
        row::lanes_of(row, "below"@),
        row::pairs_of(row, "transitions"@),
    ) {
        Some(
            labels::group_label(
                row::text_of(row, "group"@),
                chrome::meta_text(row, "session_title"@),
                chrome::meta_text(row, "agent_nickname"@),
            ),
        )
    } else {
        None
    }
}

fn make_chain_label(row: &Json, graph: &GraphData) -> (label: Option<String>)
    requires
        graph.lane == lane_of(row@),
        graph.above@ == row::lanes_of(row@, "above"@),
        graph.below@ == row::lanes_of(row@, "below"@),
        graph.transitions@ == row::pairs_of(row@, "transitions"@),
    ensures
        summary::optional_text(label) == chain_label(row@),
{
    if row::truth(row, "is_subop") || !is_graph_endpoint(
        graph.lane,
        &graph.above,
        &graph.below,
        &graph.transitions,
    ) {
        return None;
    }
    let title = session_meta_field(row, "session_title");
    let agent = session_meta_field(row, "agent_nickname");
    let title_text = match &title {
        Some(title) => Some(title.as_str()),
        None => None,
    };
    let agent_text = match &agent {
        Some(agent) => Some(agent.as_str()),
        None => None,
    };
    Some(group_label_text(row::text(row, "group"), title_text, agent_text))
}

/// The facts of a row that dress it.
#[derive(Debug, Clone, Copy, PartialEq, Eq, Structural)]
pub struct RowFlags {
    pub human: bool,
    pub selected: bool,
    pub find_current: bool,
}

/// The facts of a row that place it.
#[derive(Debug, Clone, Copy, PartialEq, Eq, Structural)]
pub struct StateFlags {
    pub group_start: bool,
    pub expandable: bool,
}

/// The facts of a content cell that dress it.
#[derive(Debug, Clone, Copy, PartialEq, Eq, Structural)]
pub struct ContentFlags {
    pub work_unit_block: bool,
    pub work_unit_title_only: bool,
    pub has_badges: bool,
}

/// What assistive technology learns of a row.
#[derive(Debug, PartialEq, Eq)]
pub struct RowAria {
    pub tabindex: i8,
    pub aria_selected: bool,
    /// Present for rows that can be disclosed.
    pub aria_expanded: Option<bool>,
    pub aria_label: String,
    pub title: String,
    pub base_aria_label: String,
}

/// The bundle that a row is.
#[derive(Debug, PartialEq, Eq)]
pub struct BundleInfo {
    pub kind: BundleKind,
    pub member_count: Option<u64>,
    pub count_text: String,
    pub status_success: bool,
}

/// Everything that the list shows of one row.
#[derive(Debug, PartialEq, Eq)]
pub struct RowSpec {
    pub identity: RowIdentity,
    pub graph: GraphData,
    pub kind: String,
    pub record_role: String,
    pub activity_kind: String,
    pub classification: RowClassification,
    pub outcome: String,
    pub group: String,
    pub kind_class: KindClass,
    pub role_class: Option<String>,
    pub flags: RowFlags,
    pub state: StateFlags,
    pub disclosure: Option<Disclosure>,
    pub content_flags: ContentFlags,
    pub author_text: String,
    pub date_text: String,
    pub commit_text: String,
    pub commit_title: String,
    pub summary_source: String,
    pub display_summary: String,
    pub plain_summary: String,
    pub detail_summary: String,
    pub tags: Vec<ChromeItem>,
    pub session_description: String,
    pub work_unit: Option<WorkUnitData>,
    pub session_summary: Option<SessionSummaryData>,
    pub work_unit_header: Option<WorkUnitHeader>,
    pub bundle: Option<BundleInfo>,
    pub promoted: Option<PromotedKind>,
    pub content: RowContent,
    pub aria: RowAria,
    pub group_label: Option<String>,
    pub open_json: Option<Json>,
    pub placeholder: bool,
}

/// Whether the key of the selected row is that of the row.
pub open spec fn is_selected(row: JsonView, context: RowContext) -> bool {
    match context.selected_key {
        Some(key) => key@ == row::text_of(row, "node_key"@),
        None => false,
    }
}

/// The time of a row in milliseconds.
pub open spec fn time_of(row: JsonView) -> i64 {
    match row.get("timestamp_ms"@) {
        Some(value) => match value.signed() {
            Some(ms) => ms,
            None => 0,
        },
        None => 0,
    }
}

fn read_time(row: &Json) -> (ms: i64)
    ensures
        ms == time_of(row@),
{
    match row.get("timestamp_ms") {
        Some(value) => match value.as_i64() {
            Some(ms) => ms,
            None => 0,
        },
        None => 0,
    }
}

/// What the activity column shows of a row in a view.
pub open spec fn shown_class(row: JsonView, view: ViewMode) -> chrome::ClassView {
    if chrome::session_of(row, view) is Some {
        chrome::ClassView {
            label: "session"@,
            source: "session_summary"@,
            title: "Session summary"@,
        }
    } else {
        chrome::classification(row)
    }
}

impl RowAria {
    /// Whether assistive technology learns of a row what its payload says.
    pub open spec fn is_of(self, row: JsonView, context: RowContext) -> bool {
        let discloses = interaction::bundles_sub_ops(row);
        &&& self.tabindex == (if context.roving_abs == Some(context.abs_index) {
            0int
        } else {
            -1
        })
        &&& self.aria_selected == is_selected(row, context)
        &&& self.aria_expanded == (if discloses {
            Some(context.expanded)
        } else {
            None
        })
        &&& self.title@ == summary::or_no_summary(
            plain_text::plain_summary(payload::source_of(row)),
        )
        &&& self.base_aria_label@ == spoken_row(row, context.view, shown_plain(row))
        &&& self.aria_label@ == spoken_row(row, context.view, shown_plain(row))
            + if shows_session(row, context.is_group_start) {
            ", "@ + chrome::session_words(row)
        } else {
            Seq::empty()
        }
    }
}

impl BundleInfo {
    /// Whether the bundle is that of a payload.
    pub open spec fn is_of(self, row: JsonView, view: ViewMode) -> bool {
        &&& chrome::bundle_of(row, view) == Some(self.kind)
        &&& self.member_count == chrome::members_of(row)
        &&& self.count_text@ == chrome::bundle_label(row, view)
        &&& self.status_success == chrome::run_succeeded(row, view)
    }
}

fn make_bundle(row: &Json, view: ViewMode) -> (bundle: Option<BundleInfo>)
    ensures
        match bundle {
            Some(bundle) => bundle.is_of(row@, view),
            None => chrome::bundle_of(row@, view) is None,
        },
{
    match activity_bundle_kind(row, view) {
        Some(kind) => Some(
            BundleInfo {
                kind,
                member_count: member_count(row),
                count_text: bundle_count_text(row, view),
                status_success: execute_succeeded(row, view),
            },
        ),
        None => None,
    }
}

fn make_content(row: &Json, view: ViewMode, display: &str, content: Option<RowSummary>) -> (cell:
    RowContent)
    requires
        display@ == shown_summary(row@),
        match content {
            Some(content) => content_summary(row@, view) == Some(content@),
            None => content_summary(row@, view) is None,
        },
    ensures
        cell.is_of(row@, view),
{
    if row::truth(row, "is_subop") {
        RowContent {
            subop: Some(
                SubopContent {
                    icon: subop_icon(row::text(row, "subop_kind")),
                    summary: Summary::parse(display),
                },
            ),
            top: None,
        }
    } else {
        RowContent { subop: None, top: Some(TopContent { summary: content }) }
    }
}

fn make_aria(
    row: &Json,
    context: &RowContext,
    plain: &str,
    detail: &str,
    header: &Option<WorkUnitHeader>,
    expandable: bool,
    session: bool,
) -> (aria: RowAria)
    requires
        plain@ == shown_plain(row@),
        detail@ == summary::or_no_summary(plain_text::plain_summary(payload::source_of(row@))),
        optional_header(*header) == header_of(row@, context.view, plain@),
        expandable == interaction::bundles_sub_ops(row@),
        session == shows_session(row@, context.is_group_start),
    ensures
        aria.is_of(row@, *context),
{
    let base_aria_label = speak_row(row, context.view, plain, header);
    let mut aria_label = base_aria_label.clone();
    if session {
        aria_label.append(", ");
        aria_label.append(session_meta_description(row).as_str());
    }
    proof {
        let tail = if session {
            ", "@ + chrome::session_words(row@)
        } else {
            Seq::empty()
        };
        assert(aria_label@ =~= base_aria_label@ + tail);
    }
    let selected = match &context.selected_key {
        Some(key) => same_text(key.as_str(), row::text(row, "node_key")),
        None => false,
    };
    let roving = match context.roving_abs {
        Some(abs) => abs == context.abs_index,
        None => false,
    };
    RowAria {
        tabindex: if roving {
            0
        } else {
            -1
        },
        aria_selected: selected,
        aria_expanded: if expandable {
            Some(context.expanded)
        } else {
            None
        },
        aria_label,
        title: detail.to_owned(),
        base_aria_label,
    }
}

impl RowSpec {
    /// Whether the texts of a row are those of its payload.
    pub open spec fn texts_are_of(self, row: JsonView) -> bool {
        &&& self.kind@ == row::text_of(row, "kind"@)
        &&& self.record_role@ == row::text_of(row, "record_role"@)
        &&& self.activity_kind@ == row::text_of(row, "activity_kind"@)
        &&& self.outcome@ == row::text_of(row, "outcome"@)
        &&& self.group@ == row::text_of(row, "group"@)
        &&& self.author_text@ == row::text_of(row, "author"@)
        &&& self.date_text@ == dates::date_label(time_of(row) as int)
        &&& self.commit_text@ == labels::short(labels::shown_id(row))
        &&& self.commit_title@ == labels::first_said(
            row::text_of(row, "commit_id"@),
            row::text_of(row, "op_id"@),
        )
        &&& self.summary_source@ == payload::source_of(row)
        &&& self.display_summary@ == shown_summary(row)
        &&& self.plain_summary@ == shown_plain(row)
        &&& self.detail_summary@ == summary::or_no_summary(
            plain_text::plain_summary(payload::source_of(row)),
        )
        &&& self.session_description@ == chrome::session_words(row)
    }

    /// Whether a row is dressed as its payload and its context say.
    pub open spec fn is_dressed(self, row: JsonView, context: RowContext) -> bool {
        let view = context.view;
        let header = header_of(row, view, shown_plain(row));
        let discloses = interaction::bundles_sub_ops(row);
        &&& self.kind_class == kind_class(row)
        &&& summary::optional_text(self.role_class) == (if known_role(
            row::text_of(row, "record_role"@),
        ) {
            Some(row::text_of(row, "record_role"@))
        } else {
            None
        })
        &&& self.flags == (RowFlags {
            human: row::text_of(row, "author"@) == "human"@,
            selected: is_selected(row, context),
            find_current: context.find_current,
        })
        &&& self.state == (StateFlags {
            group_start: context.is_group_start && !has_header(row, view),
            expandable: discloses,
        })
        &&& self.content_flags == (ContentFlags {
            work_unit_block: has_header(row, view),
            work_unit_title_only: header is Some && header->0.title_only,
            has_badges: all_tags(row, view, context.is_group_start).len() > 0,
        })
        &&& match self.disclosure {
            Some(disclosure) => discloses && disclosure.expanded == context.expanded
                && disclosure.label@ == disclosure_label(row, view, context.expanded),
            None => !discloses,
        }
    }

    /// Whether the row shows its payload in its context.
    pub open spec fn presents(self, row: JsonView, context: RowContext) -> bool {
        let view = context.view;
        let discloses = interaction::bundles_sub_ops(row);
        &&& self.identity.is_of(row, context.abs_index)
        &&& self.graph.is_of(
            row,
            chrome::bundle_of(row, view) is Some,
            discloses && context.expanded,
        )
        &&& self.texts_are_of(row)
        &&& self.is_dressed(row, context)
        &&& self.classification@ == shown_class(row, view)
        &&& chrome::tags(self.tags@) == all_tags(row, view, context.is_group_start)
        &&& match self.work_unit {
            Some(unit) => chrome::unit_of(row, view) == Some(unit@),
            None => chrome::unit_of(row, view) is None,
        }
        &&& self.session_summary == chrome::session_of(row, view)
        &&& optional_header(self.work_unit_header) == header_of(row, view, shown_plain(row))
        &&& match self.bundle {
            Some(bundle) => bundle.is_of(row, view),
            None => chrome::bundle_of(row, view) is None,
        }
        &&& self.promoted == chrome::promotion(row, view)
        &&& self.content.is_of(row, view)
        &&& self.aria.is_of(row, context)
        &&& summary::optional_text(self.group_label) == chain_label(row)
        &&& match self.open_json {
            Some(request) => labels::raw_request(row) == Some(request@),
            None => labels::raw_request(row) is None,
        }
        &&& !self.placeholder
    }

    /// Everything that the list shows of a cached row.
    #[verifier::rlimit(30)]
    #[verifier::spinoff_prover]
    pub fn from_value(row: &Json, context: &RowContext) -> (spec: RowSpec)
        ensures
            spec.presents(row@, *context),
    {
        let view = context.view;
        let is_subop = row::truth(row, "is_subop");
        let unit = work_unit_of(row, view);
        let session = session_summary_of(row, view);
        let bundle_kind = activity_bundle_kind(row, view);
        let source = summary_source(row);
        let display = display_summary_for_row(row, source.as_str());
        let plain = or_none(plain_row_summary(row, display.as_str()));
        let detail = or_none(markdown_plain_summary(source.as_str()));
        let header = make_header(row, view, &unit, session, plain.as_str());
        let work_unit_block = header.is_some();
        let work_unit_title_only = match &header {
            Some(header) => header.title_only,
            None => false,
        };
        let is_run = match bundle_kind {
            Some(BundleKind::ExecuteRun) => true,
            _ => false,
        };
        let content_summary_value = if is_subop || is_run {
            None
        } else {
            Some(RowSummary::parse(row, display.as_str()))
        };
        let shows_session_tags = context.is_group_start && !is_subop && session_meta_values(
            row,
        ).len() > 0;
        let tags = make_tags(
            row,
            view,
            context.is_group_start,
            &header,
            &content_summary_value,
            shows_session_tags,
        );
        let expandable = has_sub_ops(row);
        let expanded = expandable && context.expanded;
        let disclosure = if expandable {
            Some(make_disclosure(row, view, context.expanded))
        } else {
            None
        };
        let graph = GraphData::read(row, bundle_kind.is_some(), expanded);
        let group_label = make_chain_label(row, &graph);
        let aria = make_aria(
            row,
            context,
            plain.as_str(),
            detail.as_str(),
            &header,
            expandable,
            shows_session_tags,
        );
        let selected = aria.aria_selected;
        let bundle = make_bundle(row, view);
        let content = make_content(row, view, display.as_str(), content_summary_value);
        let classification = match session {
            Some(_) => RowClassification {
                label: "session".to_owned(),
                source: "session_summary".to_owned(),
                title: "Session summary".to_owned(),
            },
            None => row_classification(row),
        };
        let has_badges = tags.len() > 0;
        assert(has_badges == (all_tags(row@, view, context.is_group_start).len() > 0)) by {
            assert(chrome::tags(tags@).len() == tags@.len());
        }
        RowSpec {
            identity: RowIdentity::read(row, context.abs_index),
            graph,
            kind: row::owned_str(row, "kind"),
            record_role: row::owned_str(row, "record_role"),
            activity_kind: row::owned_str(row, "activity_kind"),
            classification,
            outcome: row::owned_str(row, "outcome"),
            group: row::owned_str(row, "group"),
            kind_class: kind_class_of(row),
            role_class: role_class_of(row),
            flags: RowFlags {
                human: same_text(row::text(row, "author"), "human"),
                selected,
                find_current: context.find_current,
            },
            state: StateFlags {
                group_start: context.is_group_start && !work_unit_block,
                expandable,
            },
            disclosure,
            content_flags: ContentFlags { work_unit_block, work_unit_title_only, has_badges },
            author_text: row::owned_str(row, "author"),
            date_text: format_date(read_time(row)),
            commit_text: short_commit_id(row),
            commit_title: commit_cell_title(row),
            summary_source: source,
            display_summary: display,
            plain_summary: plain,
            detail_summary: detail,
            tags,
            session_description: session_meta_description(row),
            work_unit: unit,
            session_summary: session,
            work_unit_header: header,
            bundle,
            promoted: promoted_kind(row, view),
            content,
            aria,
            group_label,
            open_json: open_json_envelope(row),
            placeholder: false,
        }
    }
}

/// The boundary of a unit of work at which a row stands.
#[derive(Debug, Clone, Copy, PartialEq, Eq, Structural)]
pub enum WorkUnitClass {
    Start,
    End,
}

impl WorkUnitClass {
    /// The class of a row at the boundary.
    pub open spec fn class_name(self) -> Seq<char> {
        match self {
            WorkUnitClass::Start => "row-work-unit-start"@,
            WorkUnitClass::End => "row-work-unit-end"@,
        }
    }

    /// The class of a row at the boundary.
    pub fn class(self) -> (name: &'static str)
        ensures
            name@ == self.class_name(),
    {
        match self {
            WorkUnitClass::Start => "row-work-unit-start",
            WorkUnitClass::End => "row-work-unit-end",
        }
    }
}

/// One class of a row, where it applies.
pub open spec fn class_if(applies: bool, class: Seq<char>) -> Seq<char> {
    if applies {
        class
    } else {
        Seq::empty()
    }
}

/// The class of a row's role.
pub open spec fn role_class_text(role: Option<String>) -> Seq<char> {
    match role {
        Some(role) => " row-role-"@ + role@,
        None => Seq::empty(),
    }
}

/// The classes of a row that stands out.
pub open spec fn promotion_text(promoted: Option<PromotedKind>) -> Seq<char> {
    match promoted {
        Some(promoted) => " "@ + promoted.class_names(),
        None => Seq::empty(),
    }
}

/// The classes of a row whose payload is not cached yet.
pub open spec fn placeholder_class_list() -> Seq<char> {
    "row row-placeholder"@
}

impl RowSpec {
    /// The boundary of a unit of work at which the row stands.
    pub open spec fn unit_boundary(self) -> Option<WorkUnitClass> {
        match self.work_unit {
            Some(unit) => if unit.is_start {
                Some(WorkUnitClass::Start)
            } else if unit.is_end {
                Some(WorkUnitClass::End)
            } else {
                None
            },
            None => None,
        }
    }

    /// The boundary of a unit of work at which the row stands.
    pub fn work_unit_class(&self) -> (class: Option<WorkUnitClass>)
        ensures
            class == self.unit_boundary(),
    {
        match &self.work_unit {
            Some(unit) => if unit.is_start {
                Some(WorkUnitClass::Start)
            } else if unit.is_end {
                Some(WorkUnitClass::End)
            } else {
                None
            },
            None => None,
        }
    }

    /// Whether the sub-operations are shown, for rows that can be disclosed.
    pub fn expanded(&self) -> (expanded: Option<bool>)
        ensures
            expanded == (match self.disclosure {
                Some(disclosure) => Some(disclosure.expanded),
                None => None,
            }),
    {
        match &self.disclosure {
            Some(disclosure) => Some(disclosure.expanded),
            None => None,
        }
    }

    /// The classes of the row.
    pub open spec fn class_list(self) -> Seq<char> {
        "row"@ + class_if(self.kind_class == KindClass::Tool, " row-tool"@) + class_if(
            self.kind_class == KindClass::Dim,
            " row-dim"@,
        ) + class_if(self.flags.human, " row-human"@) + class_if(
            self.graph.chain_state == ChainState::Muted,
            " row-chain-muted"@,
        ) + class_if(self.identity.is_subop, " row-subop"@) + role_class_text(self.role_class) + class_if(self.content_flags.has_badges, " row-has-badges"@) + class_if(
            self.flags.selected,
            " row-selected"@,
        ) + class_if(self.flags.find_current, " row-find-current"@) + class_if(
            self.state.group_start,
            " row-group-start"@,
        ) + class_if(
            self.unit_boundary() == Some(WorkUnitClass::Start),
            " row-work-unit-start"@,
        ) + class_if(self.unit_boundary() == Some(WorkUnitClass::End), " row-work-unit-end"@)
            + class_if(self.session_summary is Some, " row-session-summary"@) + class_if(
            self.bundle is Some,
            " row-activity-bundle"@,
        ) + class_if(self.state.expandable, " row-expandable"@) + promotion_text(
            self.promoted,
        )
    }

    /// The classes of the row.
    pub fn classes(&self) -> (out: String)
        ensures
            out@ == self.class_list(),
    {
        let mut out = "row".to_owned();
        append_if(&mut out, self.kind_class == KindClass::Tool, " row-tool");
        append_if(&mut out, self.kind_class == KindClass::Dim, " row-dim");
        append_if(&mut out, self.flags.human, " row-human");
        append_if(&mut out, self.graph.chain_state == ChainState::Muted, " row-chain-muted");
        append_if(&mut out, self.identity.is_subop, " row-subop");
        append_role(&mut out, &self.role_class);
        append_if(&mut out, self.content_flags.has_badges, " row-has-badges");
        append_if(&mut out, self.flags.selected, " row-selected");
        append_if(&mut out, self.flags.find_current, " row-find-current");
        append_if(&mut out, self.state.group_start, " row-group-start");
        let boundary = self.work_unit_class();
        append_if(&mut out, matches!(boundary, Some(WorkUnitClass::Start)), " row-work-unit-start");
        append_if(&mut out, matches!(boundary, Some(WorkUnitClass::End)), " row-work-unit-end");
        append_if(&mut out, self.session_summary.is_some(), " row-session-summary");
        append_if(&mut out, self.bundle.is_some(), " row-activity-bundle");
        append_if(&mut out, self.state.expandable, " row-expandable");
        append_promotion(&mut out, self.promoted);
        out
    }

    /// Whether the row stands for one that is not cached: it has a position and
    /// nothing else.
    pub open spec fn is_placeholder(self, abs_index: i64) -> bool {
        &&& self.placeholder
        &&& self.identity.abs_index == abs_index
        &&& self.identity.is_of(JsonView::Null, abs_index)
        &&& self.graph.is_of(JsonView::Null, false, false)
        &&& self.kind@.len() == 0 && self.record_role@.len() == 0 && self.activity_kind@.len() == 0
        &&& self.classification@.label.len() == 0 && self.classification@.source.len() == 0
            && self.classification@.title.len() == 0
        &&& self.outcome@.len() == 0 && self.group@.len() == 0
        &&& self.kind_class == KindClass::Plain
        &&& self.role_class is None
        &&& self.flags == (RowFlags { human: false, selected: false, find_current: false })
        &&& self.state == (StateFlags { group_start: false, expandable: false })
        &&& self.disclosure is None
        &&& self.content_flags == (ContentFlags {
            work_unit_block: false,
            work_unit_title_only: false,
            has_badges: false,
        })
        &&& self.author_text@.len() == 0 && self.date_text@.len() == 0 && self.commit_text@.len()
            == 0 && self.commit_title@.len() == 0
        &&& self.summary_source@.len() == 0 && self.display_summary@.len() == 0
            && self.plain_summary@.len() == 0 && self.detail_summary@.len() == 0
        &&& self.tags@.len() == 0
        &&& self.session_description@.len() == 0
        &&& self.work_unit is None && self.session_summary is None && self.work_unit_header is None
        &&& self.bundle is None && self.promoted is None
        &&& self.content.subop is None && self.content.top is None
        &&& self.aria.tabindex == -1 && !self.aria.aria_selected && self.aria.aria_expanded is None
        &&& self.aria.aria_label@.len() == 0 && self.aria.title@.len() == 0
            && self.aria.base_aria_label@.len() == 0
        &&& self.group_label is None
        &&& self.open_json is None
    }

    /// The row that stands for one that is not cached.
    pub fn placeholder(abs_index: i64) -> (spec: RowSpec)
        ensures
            spec.is_placeholder(abs_index),
    {
        RowSpec {
            identity: RowIdentity::read(&Json::Null, abs_index),
            graph: GraphData::read(&Json::Null, false, false),
            kind: no_text(),
            record_role: no_text(),
            activity_kind: no_text(),
            classification: RowClassification {
                label: no_text(),
                source: no_text(),
                title: no_text(),
            },
            outcome: no_text(),
            group: no_text(),
            kind_class: KindClass::Plain,
            role_class: None,
            flags: RowFlags { human: false, selected: false, find_current: false },
            state: StateFlags { group_start: false, expandable: false },
            disclosure: None,
            content_flags: ContentFlags {
                work_unit_block: false,
                work_unit_title_only: false,
                has_badges: false,
            },
            author_text: no_text(),
            date_text: no_text(),
            commit_text: no_text(),
            commit_title: no_text(),
            summary_source: no_text(),
            display_summary: no_text(),
            plain_summary: no_text(),
            detail_summary: no_text(),
            tags: Vec::new(),
            session_description: no_text(),
            work_unit: None,
            session_summary: None,
            work_unit_header: None,
            bundle: None,
            promoted: None,
            content: RowContent { subop: None, top: None },
            aria: RowAria {
                tabindex: -1,
                aria_selected: false,
                aria_expanded: None,
                aria_label: no_text(),
                title: no_text(),
                base_aria_label: no_text(),
            },
            group_label: None,
            open_json: None,
            placeholder: true,
        }
    }

    /// The classes of a row whose payload is not cached yet.
    pub fn placeholder_classes() -> (classes: &'static str)
        ensures
            classes@ == placeholder_class_list(),
    {
        "row row-placeholder"
    }
}

fn append_if(out: &mut String, applies: bool, class: &str)
    ensures
        final(out)@ == old(out)@ + class_if(applies, class@),
{
    let ghost before = out@;
    if applies {
        out.append(class);
    }
    assert(out@ =~= before + class_if(applies, class@));
}

fn append_role(out: &mut String, role: &Option<String>)
    ensures
        final(out)@ == old(out)@ + role_class_text(*role),
{
    let ghost before = out@;
    match role {
        Some(role) => {
            out.append(" row-role-");
            out.append(role.as_str());
        },
        None => {},
    }
    assert(out@ =~= before + role_class_text(*role));
}

fn append_promotion(out: &mut String, promoted: Option<PromotedKind>)
    ensures
        final(out)@ == old(out)@ + promotion_text(promoted),
{
    let ghost before = out@;
    match promoted {
        Some(promoted) => {
            out.append(" ");
            out.append(promoted.classes());
        },
        None => {},
    }
    assert(out@ =~= before + promotion_text(promoted));
}

/// The tags of a row dress it: a row has the badge class exactly if it has a tag.
pub proof fn tagged_rows_are_dressed(spec: RowSpec, row: JsonView, context: RowContext)
    requires
        spec.presents(row, context),
    ensures
        spec.content_flags.has_badges == (spec.tags@.len() > 0),
{
    assert(chrome::tags(spec.tags@).len() == spec.tags@.len());
}

/// A chain is muted only where its rows say so.
pub proof fn chains_are_active_unless_muted(name: Seq<char>)
    ensures
        chain_state(name) == ChainState::Muted <==> name == "muted"@,
        chain_state(name) == ChainState::Active <==> name != "muted"@,
{
}

/// A row stands as deep as it says, where that is a small number, otherwise one level deep
/// as a sub-operation and at the top as any other row.
pub proof fn depths_are_read_or_assumed(row: JsonView)
    ensures
        ({
            let said = row.get("hierarchy_depth"@) is Some && row.get(
                "hierarchy_depth"@,
            )->0.unsigned() is Some && row.get("hierarchy_depth"@)->0.unsigned()->0 <= u8::MAX;
            let subop = row.get("is_subop"@) == Some(JsonView::Bool(true));
            &&& said ==> depth_of(row) == row.get("hierarchy_depth"@)->0.unsigned()->0
            &&& !said && subop ==> depth_of(row) == 1
            &&& !said && !subop ==> depth_of(row) == 0
        }),
{
}

/// A row has a header where its unit of work starts, or where it stands for a session. The
/// header counts the session before the unit, shows no count of one, and shows that of
/// commits only for a session.
pub proof fn headers_count_their_entries(row: JsonView, view: ViewMode, plain: Seq<char>)
    ensures
        ({
            let unit = chrome::unit_of(row, view);
            let session = chrome::session_of(row, view);
            let count = if session is Some {
                session->0.count
            } else {
                unit->0.count
            };
            let header = header_of(row, view, plain);
            let commits = row::text_of(row, "activity_kind"@) == "source_control"@;
            &&& header is Some <==> unit is Some && (unit->0.is_start || session is Some)
            &&& header is Some ==> {
                &&& header->0.id == unit->0.id
                &&& header->0.title == chrome::unit_title(row, view)
                &&& header->0.title_only <==> chrome::unit_title(row, view) == plain
                &&& header->0.show_count <==> count is Some && count->0 > 1 && (session is Some
                    || !commits)
                &&& count is None ==> header->0.count_text.len() == 0
                &&& count == Some(1u64) ==> header->0.count_text == crate::text::decimal(1)
                    + " entry"@
                &&& count is Some && count->0 != 1 ==> header->0.count_text
                    == crate::text::decimal(count->0 as nat) + " entries"@
                &&& count is Some && session is Some ==> header->0.count_title
                    == header->0.count_text + " in this session"@
                &&& count is Some && session is None ==> header->0.count_title
                    == header->0.count_text + " grouped in this activity"@
            }
        }),
{
}

/// The tags of a row come in order: what it is, the count of its header, the prefix of its
/// commit, and at the start of a group its session.
#[verifier::spinoff_prover]
#[verifier::rlimit(60)]
pub proof fn tags_come_in_order(row: JsonView, view: ViewMode, is_group_start: bool)
    ensures
        ({
            let header = header_of(row, view, shown_plain(row));
            let content = content_summary(row, view);
            let what = chrome::semantic_tags(
                row,
                chrome::bundle_of(row, view) is Some,
                view,
                (BadgeOptions { show_success_outcome: false }),
            );
            let counted = if header is Some && header->0.show_count {
                what.push(
                    ChromeView {
                        classes: "work-unit-count"@,
                        text: header->0.count_text,
                        title: header->0.count_title,
                        aria_label: None,
                    },
                )
            } else {
                what
            };
            let prefixed = if content is Some && content->0.git_prefix is Some {
                counted.push(
                    ChromeView {
                        classes: "git-prefix-chip"@,
                        text: content->0.git_prefix->0,
                        title: "Commit prefix: "@ + content->0.git_prefix->0,
                        aria_label: Some("Commit prefix: "@ + content->0.git_prefix->0),
                    },
                )
            } else {
                counted
            };
            let subop = row.get("is_subop"@) == Some(JsonView::Bool(true));
            &&& prefixed.is_prefix_of(all_tags(row, view, is_group_start))
            &&& !is_group_start || subop ==> all_tags(row, view, is_group_start) =~= prefixed
            &&& is_group_start && !subop ==> all_tags(row, view, is_group_start).len()
                == prefixed.len() + chrome::session_chips(row).len()
        }),
{
    let n = chrome::session_chips(row).len() as int;
    lemma_session_tags(chrome::session_chips(row), n);
}

proof fn lemma_session_tags(items: Seq<chrome::ChipView>, n: int)
    requires
        0 <= n <= items.len(),
    ensures
        session_tags(items, n).len() == n,
        forall|i: int|
            0 <= i < n ==> #[trigger] session_tags(items, n)[i] == (ChromeView {
                classes: items[i].class,
                text: items[i].label,
                title: items[i].title + ": "@ + items[i].label,
                aria_label: Some(items[i].title + ": "@ + items[i].label),
            }),
    decreases n,
{
    if n > 0 {
        lemma_session_tags(items, n - 1);
    }
}

/// A session tag shows its label and is described by its title and the label.
pub proof fn session_tags_are_described(items: Seq<chrome::ChipView>, i: int)
    requires
        0 <= i < items.len(),
    ensures
        session_tags(items, items.len() as int).len() == items.len(),
        session_tags(items, items.len() as int)[i] == (ChromeView {
            classes: items[i].class,
            text: items[i].label,
            title: items[i].title + ": "@ + items[i].label,
            aria_label: Some(items[i].title + ": "@ + items[i].label),
        }),
{
    lemma_session_tags(items, items.len() as int);
}

/// A sub-operation and a run of tools show no summary of their own in the content cell;
/// every other row shows that of its text.
pub proof fn runs_show_no_summary(row: JsonView, view: ViewMode)
    ensures
        ({
            let subop = row.get("is_subop"@) == Some(JsonView::Bool(true));
            let run = chrome::bundle_of(row, view) == Some(BundleKind::ExecuteRun);
            &&& content_summary(row, view) is None <==> subop || run
            &&& !subop && !run ==> content_summary(row, view) == Some(
                summary::row_summary(row, shown_summary(row)),
            )
        }),
{
}

/// A bundle is called by its kind and its size, a run that succeeded also by that, and a
/// group also by its summary.
pub proof fn bundles_are_spoken(row: JsonView, view: ViewMode, plain: Seq<char>, count: u64)
    requires
        chrome::members_of(row) == Some(count),
    ensures
        ({
            let kind = chrome::bundle_of(row, view);
            let number = crate::text::decimal(count as nat);
            let spoken = spoken_row(row, view, plain);
            let succeeded = row::text_of(row, "outcome"@) == "success"@;
            &&& kind == Some(BundleKind::WorkGroup) && count == 1 ==> spoken =~= "Work group"@ + ", "@
                + (number + " activity"@) + ": "@ + plain
            &&& kind == Some(BundleKind::WorkGroup) && count != 1 ==> spoken =~= "Work group"@ + ", "@
                + (number + " activities"@) + ": "@ + plain
            &&& kind == Some(BundleKind::PlanRepeat) && count == 1 ==> spoken =~= "Plan group"@
                + ", "@ + (number + " update"@) + ": "@ + plain
            &&& kind == Some(BundleKind::PlanRepeat) && count != 1 ==> spoken =~= "Plan group"@
                + ", "@ + (number + " updates"@) + ": "@ + plain
            &&& kind == Some(BundleKind::ExecuteRun) && count == 1 && !succeeded ==> spoken
                =~= "Execute run"@ + ", "@ + (number + " step"@)
            &&& kind == Some(BundleKind::ExecuteRun) && count != 1 && !succeeded ==> spoken
                =~= "Execute run"@ + ", "@ + (number + " steps"@)
            &&& kind == Some(BundleKind::ExecuteRun) && count == 1 && succeeded ==> spoken
                =~= "Execute run"@ + ", "@ + (number + " step"@) + ", completed"@
            &&& kind == Some(BundleKind::ExecuteRun) && count != 1 && succeeded ==> spoken
                =~= "Execute run"@ + ", "@ + (number + " steps"@) + ", completed"@
        }),
{
}

/// A row that is no bundle is called by its plain text, behind the title of its unit where
/// that has a header and says something else.
pub proof fn rows_are_spoken(row: JsonView, view: ViewMode, plain: Seq<char>)
    requires
        chrome::bundle_of(row, view) is None,
    ensures
        ({
            let titled = header_of(row, view, plain) is Some && chrome::unit_title(row, view)
                != plain;
            &&& titled ==> spoken_row(row, view, plain) == chrome::unit_title(row, view) + ": "@
                + plain
            &&& !titled ==> spoken_row(row, view, plain) == plain
        }),
{
}

/// What the system does is dressed as a tool; messages and commands are plain, and all
/// other rows are dimmed.
pub proof fn kinds_are_dressed(row: JsonView)
    ensures
        ({
            let kind = row::text_of(row, "kind"@);
            let system = row.get("is_system"@) == Some(JsonView::Bool(true));
            &&& system ==> kind_class(row) == KindClass::Tool
            &&& !system && (kind == "message"@ || kind == "command"@) ==> kind_class(row)
                == KindClass::Plain
            &&& !system && kind != "message"@ && kind != "command"@ ==> kind_class(row)
                == KindClass::Dim
        }),
{
}

/// Seven roles have a class of their own.
pub proof fn seven_roles_are_known(role: Seq<char>)
    ensures
        known_role(role) <==> seq![
            "narrative"@,
            "action"@,
            "result"@,
            "artifact"@,
            "lifecycle"@,
            "echo"@,
            "unknown"@,
        ].contains(role),
{
    let roles = seq![
        "narrative"@,
        "action"@,
        "result"@,
        "artifact"@,
        "lifecycle"@,
        "echo"@,
        "unknown"@,
    ];
    assert(roles[0] == "narrative"@);
    assert(roles[1] == "action"@);
    assert(roles[2] == "result"@);
    assert(roles[3] == "artifact"@);
    assert(roles[4] == "lifecycle"@);
    assert(roles[5] == "echo"@);
    assert(roles[6] == "unknown"@);
}

/// The button of a row says whether it opens or closes, and how many members or details it
/// is about.
pub proof fn disclosure_buttons_say_what_they_do(row: JsonView, view: ViewMode)
    ensures
        ({
            let members = chrome::bundle_label(row, view);
            let details = sub_op_count(row) as u64;
            let words = if members.len() > 0 {
                members
            } else if details == 1 {
                crate::text::decimal(1) + " detail"@
            } else {
                crate::text::decimal(details as nat) + " details"@
            };
            &&& disclosure_label(row, view, true) == "Collapse "@ + words
            &&& disclosure_label(row, view, false) == "Expand "@ + words
            &&& row.get("sub_ops"@) matches Some(JsonView::Array(ops)) ==> sub_op_count(row)
                == ops.len()
        }),
{
}

/// A chain is labelled at its tips and its roots, never on a sub-operation.
pub proof fn chains_are_labelled_at_their_ends(row: JsonView)
    ensures
        ({
            let subop = row.get("is_subop"@) == Some(JsonView::Bool(true));
            let end = labels::endpoint(
                lane_of(row),
                row::lanes_of(row, "above"@),
                row::lanes_of(row, "below"@),
                row::pairs_of(row, "transitions"@),
            );
            &&& chain_label(row) is Some <==> !subop && end
            &&& chain_label(row) is Some ==> chain_label(row)->0 == labels::group_label(
                row::text_of(row, "group"@),
                chrome::meta_text(row, "session_title"@),
                chrome::meta_text(row, "agent_nickname"@),
            )
        }),
{
}

/// A row that stands for a session is shown as one; any other row as its payload says.
pub proof fn sessions_are_shown_as_such(row: JsonView, view: ViewMode)
    ensures
        chrome::session_of(row, view) is Some ==> shown_class(row, view).label == "session"@
            && shown_class(row, view).source == "session_summary"@ && shown_class(row, view).title
            == "Session summary"@,
        chrome::session_of(row, view) is None ==> shown_class(row, view) == chrome::classification(
            row,
        ),
{
}

/// What a presented row shows is what its payload says under the name of each field.
pub proof fn presented_rows_say_what_their_payload_says(
    spec: RowSpec,
    row: JsonView,
    context: RowContext,
)
    requires
        spec.presents(row, context),
    ensures
        spec.identity.abs_index == context.abs_index,
        spec.identity.node_key@ == row::text_of(row, "node_key"@),
        spec.identity.subop_kind@ == row::text_of(row, "subop_kind"@),
        spec.identity.op_id@ == row::text_of(row, "op_id"@),
        spec.identity.git_oid@ == row::text_of(row, "git_oid"@),
        spec.identity.repository@ == row::text_of(row, "repository"@),
        spec.identity.commit_id@ == row::text_of(row, "commit_id"@),
        spec.identity.turn_id@ == row::text_of(row, "turn_id"@),
        spec.identity.is_subop == (row.get("is_subop"@) == Some(JsonView::Bool(true))),
        spec.kind@ == row::text_of(row, "kind"@),
        spec.record_role@ == row::text_of(row, "record_role"@),
        spec.activity_kind@ == row::text_of(row, "activity_kind"@),
        spec.outcome@ == row::text_of(row, "outcome"@),
        spec.group@ == row::text_of(row, "group"@),
        spec.author_text@ == row::text_of(row, "author"@),
        spec.graph.above@ == row::lanes_of(row, "above"@),
        spec.graph.below@ == row::lanes_of(row, "below"@),
        spec.graph.transitions@ == row::pairs_of(row, "transitions"@),
        spec.graph.muted_above@ == row::lanes_of(row, "muted_above"@),
        spec.graph.muted_below@ == row::lanes_of(row, "muted_below"@),
        spec.graph.muted_transitions@ == row::pairs_of(row, "muted_transitions"@),
        spec.flags.human <==> row::text_of(row, "author"@) == "human"@,
        spec.flags.find_current == context.find_current,
        spec.promoted == chrome::promotion(row, context.view),
        spec.session_summary == chrome::session_of(row, context.view),
        !spec.placeholder,
{
}

/// Exactly the row with the keyboard anchor can be reached with the tab key, the row whose
/// key is selected is selected, and a row can be opened exactly where it bundles
/// operations.
pub proof fn presented_rows_take_their_state_from_the_view(
    spec: RowSpec,
    row: JsonView,
    context: RowContext,
)
    requires
        spec.presents(row, context),
    ensures
        ({
            let discloses = match row.get("sub_ops"@) {
                Some(JsonView::Array(ops)) => ops.len() > 0,
                _ => false,
            };
            let selected = match context.selected_key {
                Some(key) => key@ == row::text_of(row, "node_key"@),
                None => false,
            };
            let anchored = match context.roving_abs {
                Some(abs) => abs == context.abs_index,
                None => false,
            };
            &&& spec.aria.tabindex == (if anchored {
                0int
            } else {
                -1int
            })
            &&& spec.aria.aria_selected == selected
            &&& spec.flags.selected == selected
            &&& spec.state.expandable == discloses
            &&& spec.aria.aria_expanded == (if discloses {
                Some(context.expanded)
            } else {
                None
            })
            &&& spec.graph.expanded == (discloses && context.expanded)
            &&& spec.disclosure is Some <==> discloses
            &&& spec.disclosure matches Some(disclosure) ==> disclosure.expanded == context.expanded
            &&& spec.state.group_start <==> context.is_group_start && header_of(
                row,
                context.view,
                shown_plain(row),
            ) is None
        }),
{
}

/// A list of classes with one more, where it applies.
pub open spec fn worn(classes: Seq<char>, applies: bool, class: Seq<char>) -> Seq<char> {
    if applies {
        classes + class
    } else {
        classes
    }
}

/// The classes of a row are listed in a fixed order, each where it applies.
#[verifier::spinoff_prover]
#[verifier::rlimit(60)]
pub proof fn classes_are_listed_in_order(spec: RowSpec)
    ensures
        ({
            let starts = spec.work_unit is Some && spec.work_unit->0.is_start;
            let ends = spec.work_unit is Some && !spec.work_unit->0.is_start
                && spec.work_unit->0.is_end;
            let tool = worn("row"@, spec.kind_class == KindClass::Tool, " row-tool"@);
            let dim = worn(tool, spec.kind_class == KindClass::Dim, " row-dim"@);
            let human = worn(dim, spec.flags.human, " row-human"@);
            let muted = worn(
                human,
                spec.graph.chain_state == ChainState::Muted,
                " row-chain-muted"@,
            );
            let subop = worn(muted, spec.identity.is_subop, " row-subop"@);
            let role = worn(
                subop,
                spec.role_class is Some,
                " row-role-"@ + spec.role_class->0@,
            );
            let badges = worn(role, spec.content_flags.has_badges, " row-has-badges"@);
            let selected = worn(badges, spec.flags.selected, " row-selected"@);
            let find = worn(selected, spec.flags.find_current, " row-find-current"@);
            let group = worn(find, spec.state.group_start, " row-group-start"@);
            let start = worn(group, starts, " row-work-unit-start"@);
            let end = worn(start, ends, " row-work-unit-end"@);
            let session = worn(end, spec.session_summary is Some, " row-session-summary"@);
            let bundle = worn(session, spec.bundle is Some, " row-activity-bundle"@);
            let open = worn(bundle, spec.state.expandable, " row-expandable"@);
            spec.class_list() == worn(
                open,
                spec.promoted is Some,
                " "@ + spec.promoted->0.class_names(),
            )
        }),
{
    let starts = spec.work_unit is Some && spec.work_unit->0.is_start;
    let ends = spec.work_unit is Some && !spec.work_unit->0.is_start && spec.work_unit->0.is_end;
    assert(starts == (spec.unit_boundary() == Some(WorkUnitClass::Start)));
    assert(ends == (spec.unit_boundary() == Some(WorkUnitClass::End)));
    let a = lemma_worn("row"@, spec.kind_class == KindClass::Tool, " row-tool"@);
    let b = lemma_worn(a, spec.kind_class == KindClass::Dim, " row-dim"@);
    let c = lemma_worn(b, spec.flags.human, " row-human"@);
    let d = lemma_worn(c, spec.graph.chain_state == ChainState::Muted, " row-chain-muted"@);
    let e = lemma_worn(d, spec.identity.is_subop, " row-subop"@);
    let f = lemma_worn(e, spec.role_class is Some, " row-role-"@ + spec.role_class->0@);
    let g = lemma_worn(f, spec.content_flags.has_badges, " row-has-badges"@);
    let h = lemma_worn(g, spec.flags.selected, " row-selected"@);
    let i = lemma_worn(h, spec.flags.find_current, " row-find-current"@);
    let j = lemma_worn(i, spec.state.group_start, " row-group-start"@);
    let k = lemma_worn(j, starts, " row-work-unit-start"@);
    let l = lemma_worn(k, ends, " row-work-unit-end"@);
    let m = lemma_worn(l, spec.session_summary is Some, " row-session-summary"@);
    let n = lemma_worn(m, spec.bundle is Some, " row-activity-bundle"@);
    let o = lemma_worn(n, spec.state.expandable, " row-expandable"@);
    let p = lemma_worn(o, spec.promoted is Some, " "@ + spec.promoted->0.class_names());
}

proof fn lemma_worn(text: Seq<char>, applies: bool, class: Seq<char>) -> (next: Seq<char>)
    ensures
        next == text + class_if(applies, class),
        next == worn(text, applies, class),
{
    assert(text + Seq::<char>::empty() =~= text);
    text + class_if(applies, class)
}

/// A row stands at the start of its unit of work before it stands at its end.
pub proof fn units_start_before_they_end(spec: RowSpec)
    ensures
        spec.unit_boundary() == Some(WorkUnitClass::Start) <==> spec.work_unit is Some
            && spec.work_unit->0.is_start,
        spec.unit_boundary() == Some(WorkUnitClass::End) <==> spec.work_unit is Some
            && !spec.work_unit->0.is_start && spec.work_unit->0.is_end,
        WorkUnitClass::Start.class_name() == "row-work-unit-start"@,
        WorkUnitClass::End.class_name() == "row-work-unit-end"@,
{
}

} // verus!
