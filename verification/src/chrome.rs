//! The tags of a row: relations, outcomes, bundles, work units, and sessions.

use crate::chars;
use crate::json::{Json, JsonView};
use crate::labels;
use crate::plain_text::{self, first_plain_line};
use crate::row;
use crate::summary;
use crate::text::{self, chars_of, decimal_text, joined, same_text, string_of};
use vstd::prelude::*;

verus! {

/// Which presentation the rows have.
#[derive(Debug, Clone, Copy, PartialEq, Eq, Structural)]
pub enum ViewMode {
    /// Work units, bundles, and promotions are shown.
    Activity,
    /// Records are shown as they are.
    Raw,
}

/// One tag of a row.
#[derive(Debug, PartialEq, Eq)]
pub struct ChromeItem {
    pub classes: String,
    pub text: String,
    pub title: String,
    pub aria_label: Option<String>,
}

/// The contents of a tag.
pub ghost struct ChromeView {
    pub classes: Seq<char>,
    pub text: Seq<char>,
    pub title: Seq<char>,
    pub aria_label: Option<Seq<char>>,
}

impl View for ChromeItem {
    type V = ChromeView;

    open spec fn view(&self) -> ChromeView {
        ChromeView {
            classes: self.classes@,
            text: self.text@,
            title: self.title@,
            aria_label: summary::optional_text(self.aria_label),
        }
    }
}

/// The contents of a list of tags.
pub open spec fn tags(items: Seq<ChromeItem>) -> Seq<ChromeView> {
    Seq::new(items.len(), |i: int| items[i]@)
}

/// Adds a tag at the end.
pub fn push_tag(items: &mut Vec<ChromeItem>, item: ChromeItem)
    ensures
        tags(final(items)@) == tags(old(items)@).push(item@),
{
    let ghost before = tags(items@);
    items.push(item);
    assert(tags(items@) =~= before.push(item@));
}

fn empty(text: &str) -> (yes: bool)
    ensures
        yes == (text@.len() == 0),
{
    chars_of(text).len() == 0
}

/// How a row relates to a parent.
#[derive(Debug, Clone, Copy, PartialEq, Eq, Structural)]
pub enum RelationKind {
    Subagent,
    Reconnect,
    Fork,
}

/// The relation that a payload names.
pub open spec fn relation(kind: Seq<char>) -> Option<RelationKind> {
    if kind == "subagent"@ {
        Some(RelationKind::Subagent)
    } else if kind == "reconnect"@ {
        Some(RelationKind::Reconnect)
    } else if kind == "fork"@ {
        Some(RelationKind::Fork)
    } else {
        None
    }
}

impl RelationKind {
    pub fn from_wire(kind: &str) -> (found: Option<RelationKind>)
        ensures
            found == relation(kind@),
    {
        if same_text(kind, "subagent") {
            Some(RelationKind::Subagent)
        } else if same_text(kind, "reconnect") {
            Some(RelationKind::Reconnect)
        } else if same_text(kind, "fork") {
            Some(RelationKind::Fork)
        } else {
            None
        }
    }

    /// The tag of a relation.
    pub open spec fn tag(self) -> ChromeView {
        let (classes, text, title) = match self {
            RelationKind::Subagent => (
                "rel-badge rel-subagent"@,
                "↳ subagent"@,
                "Starts a subagent branch"@,
            ),
            RelationKind::Reconnect => (
                "rel-badge rel-reconnect"@,
                "↩ return"@,
                "Completion returns into the subagent branch"@,
            ),
            RelationKind::Fork => (
                "rel-badge rel-fork"@,
                "⇉ fork"@,
                "Branches off the target row at a fork boundary"@,
            ),
        };
        ChromeView { classes, text, title, aria_label: Some(title) }
    }

    fn badge(self) -> (item: ChromeItem)
        ensures
            item@ == self.tag(),
    {
        let (classes, text, title) = match self {
            RelationKind::Subagent => (
                "rel-badge rel-subagent",
                "↳ subagent",
                "Starts a subagent branch",
            ),
            RelationKind::Reconnect => (
                "rel-badge rel-reconnect",
                "↩ return",
                "Completion returns into the subagent branch",
            ),
            RelationKind::Fork => (
                "rel-badge rel-fork",
                "⇉ fork",
                "Branches off the target row at a fork boundary",
            ),
        };
        ChromeItem {
            classes: classes.to_owned(),
            text: text.to_owned(),
            title: title.to_owned(),
            aria_label: Some(title.to_owned()),
        }
    }
}

/// The relations that the first `n` items name, each once.
pub open spec fn relations_in(items: Seq<JsonView>, n: int) -> Seq<RelationKind>
    decreases n,
{
    if n <= 0 {
        Seq::empty()
    } else {
        let before = relations_in(items, n - 1);
        match relation(row::text_of(items[n - 1], "kind"@)) {
            Some(kind) => if before.contains(kind) {
                before
            } else {
                before.push(kind)
            },
            None => before,
        }
    }
}

/// The relations of a row, each once.
pub open spec fn relations_of(row: JsonView) -> Seq<RelationKind> {
    match row.get("parent_relations"@) {
        Some(value) => match value.items() {
            Some(items) => relations_in(items, items.len() as int),
            None => Seq::empty(),
        },
        None => Seq::empty(),
    }
}

/// The tags of relations.
pub open spec fn relation_tags(kinds: Seq<RelationKind>) -> Seq<ChromeView> {
    Seq::new(kinds.len(), |i: int| kinds[i].tag())
}

/// The tags of a row's relations.
pub fn relation_badges(row: &Json) -> (out: Vec<ChromeItem>)
    ensures
        tags(out@) == relation_tags(relations_of(row@)),
{
    let mut out: Vec<ChromeItem> = Vec::new();
    assert(tags(out@) =~= Seq::empty());
    let items = match row.get("parent_relations") {
        Some(value) => match value.as_array() {
            Some(items) => items,
            None => {
                assert(relation_tags(relations_of(row@)) =~= Seq::empty());
                return out;
            },
        },
        None => {
            assert(relation_tags(relations_of(row@)) =~= Seq::empty());
            return out;
        },
    };
    let ghost all = Seq::new(items@.len(), |i: int| items@[i]@);
    let mut seen: Vec<RelationKind> = Vec::new();
    let mut i: usize = 0;
    assert(seen@ =~= relations_in(all, 0));
    assert(tags(out@) =~= relation_tags(seen@));
    while i < items.len()
        invariant
            i <= items.len(),
            all == Seq::new(items@.len(), |i: int| items@[i]@),
            seen@ == relations_in(all, i as int),
            tags(out@) == relation_tags(seen@),
        decreases items.len() - i,
    {
        assert(all[i as int] == items@[i as int]@);
        if let Some(kind) = RelationKind::from_wire(row::text(&items[i], "kind")) {
            let mut known = false;
            let mut k: usize = 0;
            while k < seen.len()
                invariant
                    k <= seen.len(),
                    known == exists|m: int| 0 <= m < k && #[trigger] seen@[m] == kind,
                decreases seen.len() - k,
            {
                if seen[k] == kind {
                    assert(seen@[k as int] == kind);
                    known = true;
                }
                k = k + 1;
            }
            assert(known == seen@.contains(kind));
            if !known {
                let ghost before = seen@;
                seen.push(kind);
                push_tag(&mut out, kind.badge());
                assert(tags(out@) =~= relation_tags(seen@));
            }
        }
        i = i + 1;
    }
    out
}

/// What a row is about.
#[derive(Debug, Clone, Copy, PartialEq, Eq, Structural)]
pub enum ActivityKind {
    Work,
    Conversation,
    Plan,
    Explore,
    Execute,
    Change,
    Verify,
    Diagnose,
    Coordinate,
    SourceControl,
    External,
    System,
}

/// The activity that a payload names.
pub open spec fn activity(kind: Seq<char>) -> Option<ActivityKind> {
    if kind == "work"@ {
        Some(ActivityKind::Work)
    } else if kind == "conversation"@ {
        Some(ActivityKind::Conversation)
    } else if kind == "plan"@ {
        Some(ActivityKind::Plan)
    } else if kind == "explore"@ {
        Some(ActivityKind::Explore)
    } else if kind == "execute"@ {
        Some(ActivityKind::Execute)
    } else if kind == "change"@ {
        Some(ActivityKind::Change)
    } else if kind == "verify"@ {
        Some(ActivityKind::Verify)
    } else if kind == "diagnose"@ {
        Some(ActivityKind::Diagnose)
    } else if kind == "coordinate"@ {
        Some(ActivityKind::Coordinate)
    } else if kind == "source_control"@ {
        Some(ActivityKind::SourceControl)
    } else if kind == "external"@ {
        Some(ActivityKind::External)
    } else if kind == "system"@ {
        Some(ActivityKind::System)
    } else {
        None
    }
}

impl ActivityKind {
    pub fn from_wire(kind: &str) -> (found: Option<ActivityKind>)
        ensures
            found == activity(kind@),
    {
        if same_text(kind, "work") {
            Some(ActivityKind::Work)
        } else if same_text(kind, "conversation") {
            Some(ActivityKind::Conversation)
        } else if same_text(kind, "plan") {
            Some(ActivityKind::Plan)
        } else if same_text(kind, "explore") {
            Some(ActivityKind::Explore)
        } else if same_text(kind, "execute") {
            Some(ActivityKind::Execute)
        } else if same_text(kind, "change") {
            Some(ActivityKind::Change)
        } else if same_text(kind, "verify") {
            Some(ActivityKind::Verify)
        } else if same_text(kind, "diagnose") {
            Some(ActivityKind::Diagnose)
        } else if same_text(kind, "coordinate") {
            Some(ActivityKind::Coordinate)
        } else if same_text(kind, "source_control") {
            Some(ActivityKind::SourceControl)
        } else if same_text(kind, "external") {
            Some(ActivityKind::External)
        } else if same_text(kind, "system") {
            Some(ActivityKind::System)
        } else {
            None
        }
    }

    /// The label of an activity.
    pub open spec fn label(self) -> Seq<char> {
        match self {
            ActivityKind::Work => "work"@,
            ActivityKind::Conversation => "agent"@,
            ActivityKind::Plan => "plan"@,
            ActivityKind::Explore => "explore"@,
            ActivityKind::Execute => "tooluse"@,
            ActivityKind::Change => "change"@,
            ActivityKind::Verify => "verify"@,
            ActivityKind::Diagnose => "diagnose"@,
            ActivityKind::Coordinate => "coordinate"@,
            ActivityKind::SourceControl => "git"@,
            ActivityKind::External => "external"@,
            ActivityKind::System => "system"@,
        }
    }

    pub fn text(self) -> (label: &'static str)
        ensures
            label@ == self.label(),
    {
        match self {
            ActivityKind::Work => "work",
            ActivityKind::Conversation => "agent",
            ActivityKind::Plan => "plan",
            ActivityKind::Explore => "explore",
            ActivityKind::Execute => "tooluse",
            ActivityKind::Change => "change",
            ActivityKind::Verify => "verify",
            ActivityKind::Diagnose => "diagnose",
            ActivityKind::Coordinate => "coordinate",
            ActivityKind::SourceControl => "git",
            ActivityKind::External => "external",
            ActivityKind::System => "system",
        }
    }
}

/// What the activity column shows of a row.
#[derive(Debug, PartialEq, Eq)]
pub struct RowClassification {
    pub label: String,
    /// The field that the label was taken from.
    pub source: String,
    pub title: String,
}

/// The contents of a classification.
pub ghost struct ClassView {
    pub label: Seq<char>,
    pub source: Seq<char>,
    pub title: Seq<char>,
}

impl View for RowClassification {
    type V = ClassView;

    open spec fn view(&self) -> ClassView {
        ClassView { label: self.label@, source: self.source@, title: self.title@ }
    }
}

/// The words for a field that a classification was taken from.
pub open spec fn source_words(source: Seq<char>) -> Seq<char> {
    if source == "activity_kind"@ {
        "Activity"@
    } else if source == "kind"@ {
        "Kind"@
    } else if source == "record_role"@ {
        "Record role"@
    } else if source == "is_system"@ {
        "System classification"@
    } else if source == "git_oid"@ {
        "Git identity"@
    } else {
        "Classification"@
    }
}

/// A classification taken from a field.
pub open spec fn classified(label: Seq<char>, source: Seq<char>, value: Seq<char>) -> ClassView {
    ClassView { label, source, title: source_words(source) + ": "@ + value }
}

/// A token that says something: not empty and not `unknown`.
pub open spec fn telling(value: Seq<char>) -> Option<Seq<char>> {
    let token = chars::trim(value);
    if token.len() > 0 && token != "unknown"@ {
        Some(token)
    } else {
        None
    }
}

/// What the activity column shows of a row. A commit is always shown as such;
/// otherwise the activity decides, then the kind, then the role.
pub open spec fn classification(row: JsonView) -> ClassView {
    let kind = row::text_of(row, "kind"@);
    let named = row::text_of(row, "activity_kind"@);
    let oid = row::text_of(row, "git_oid"@);
    let role = row::text_of(row, "record_role"@);
    let author = chars::trim(row::text_of(row, "author"@));
    if oid.len() > 0 || kind == "git"@ {
        if named == "source_control"@ {
            classified("git"@, "activity_kind"@, "source_control"@)
        } else if oid.len() > 0 {
            classified("git"@, "git_oid"@, oid)
        } else {
            classified("git"@, "kind"@, "git"@)
        }
    } else if activity(chars::trim(named)) is Some {
        let found = activity(chars::trim(named))->0;
        classified(
            if found == ActivityKind::Conversation && (author == "human"@ || author == "user"@) {
                "user"@
            } else {
                found.label()
            },
            "activity_kind"@,
            chars::trim(named),
        )
    } else if row::truth_of(row, "is_system"@) {
        classified("system"@, "is_system"@, "true"@)
    } else if telling(kind) is Some {
        classified(chars::replaced(telling(kind)->0, "_"@, "-"@, 0), "kind"@, telling(kind)->0)
    } else if telling(role) is Some {
        classified(
            chars::replaced(telling(role)->0, "_"@, "-"@, 0),
            "record_role"@,
            telling(role)->0,
        )
    } else {
        classified("other"@, "fallback"@, "other"@)
    }
}

fn classify(label: &str, source: &str, value: &str) -> (out: RowClassification)
    ensures
        out@ == classified(label@, source@, value@),
{
    let words = if same_text(source, "activity_kind") {
        "Activity"
    } else if same_text(source, "kind") {
        "Kind"
    } else if same_text(source, "record_role") {
        "Record role"
    } else if same_text(source, "is_system") {
        "System classification"
    } else if same_text(source, "git_oid") {
        "Git identity"
    } else {
        "Classification"
    };
    let mut title = words.to_owned();
    title.append(": ");
    title.append(value);
    RowClassification { label: label.to_owned(), source: source.to_owned(), title }
}

fn trimmed_string(text: &str) -> (out: String)
    ensures
        out@ == chars::trim(text@),
{
    let trimmed = chars::trimmed(chars_of(text).as_slice());
    string_of(trimmed.as_slice())
}

fn telling_token(value: &str) -> (token: Option<String>)
    ensures
        match token {
            Some(token) => telling(value@) == Some(token@),
            None => telling(value@) is None,
        },
{
    let token = trimmed_string(value);
    if !empty(token.as_str()) && !same_text(token.as_str(), "unknown") {
        Some(token)
    } else {
        None
    }
}

fn dashed(token: &str) -> (out: String)
    ensures
        out@ == chars::replaced(token@, "_"@, "-"@, 0),
{
    proof {
        reveal_strlit("_");
    }
    let token = chars_of(token);
    let underscore = chars_of("_");
    let dash = chars_of("-");
    let out = chars::replace(token.as_slice(), underscore.as_slice(), dash.as_slice());
    string_of(out.as_slice())
}

/// What the activity column shows of a row.
pub fn row_classification(row: &Json) -> (out: RowClassification)
    ensures
        out@ == classification(row@),
{
    let kind = row::text(row, "kind");
    let named = row::text(row, "activity_kind");
    let oid = row::text(row, "git_oid");
    if !empty(oid) || same_text(kind, "git") {
        return if same_text(named, "source_control") {
            classify("git", "activity_kind", "source_control")
        } else if !empty(oid) {
            classify("git", "git_oid", oid)
        } else {
            classify("git", "kind", "git")
        };
    }
    let token = trimmed_string(named);
    if let Some(found) = ActivityKind::from_wire(token.as_str()) {
        let author = trimmed_string(row::text(row, "author"));
        let label = if found == ActivityKind::Conversation && (same_text(author.as_str(), "human")
            || same_text(author.as_str(), "user")) {
            "user"
        } else {
            found.text()
        };
        return classify(label, "activity_kind", token.as_str());
    }
    if row::truth(row, "is_system") {
        return classify("system", "is_system", "true");
    }
    if let Some(token) = telling_token(kind) {
        return classify(dashed(token.as_str()).as_str(), "kind", token.as_str());
    }
    if let Some(token) = telling_token(row::text(row, "record_role")) {
        return classify(dashed(token.as_str()).as_str(), "record_role", token.as_str());
    }
    classify("other", "fallback", "other")
}

/// Which outcomes are shown.
#[derive(Debug, Clone, Copy, PartialEq, Eq, Structural)]
pub struct BadgeOptions {
    pub show_success_outcome: bool,
}

impl Default for BadgeOptions {
    fn default() -> (options: BadgeOptions)
        ensures
            !options.show_success_outcome,
    {
        BadgeOptions { show_success_outcome: false }
    }
}

/// How a row ended.
#[derive(Debug, Clone, Copy, PartialEq, Eq, Structural)]
pub enum OutcomeKind {
    Success,
    Warning,
    Failure,
    Cancelled,
}

/// The outcome that a payload names.
pub open spec fn outcome(kind: Seq<char>) -> Option<OutcomeKind> {
    if kind == "success"@ {
        Some(OutcomeKind::Success)
    } else if kind == "warning"@ {
        Some(OutcomeKind::Warning)
    } else if kind == "failure"@ {
        Some(OutcomeKind::Failure)
    } else if kind == "cancelled"@ {
        Some(OutcomeKind::Cancelled)
    } else {
        None
    }
}

impl OutcomeKind {
    pub fn from_wire(kind: &str) -> (found: Option<OutcomeKind>)
        ensures
            found == outcome(kind@),
    {
        if same_text(kind, "success") {
            Some(OutcomeKind::Success)
        } else if same_text(kind, "warning") {
            Some(OutcomeKind::Warning)
        } else if same_text(kind, "failure") {
            Some(OutcomeKind::Failure)
        } else if same_text(kind, "cancelled") {
            Some(OutcomeKind::Cancelled)
        } else {
            None
        }
    }

    /// The classes, the text, and the spoken text of an outcome.
    pub open spec fn words(self) -> (Seq<char>, Seq<char>, Seq<char>) {
        match self {
            OutcomeKind::Success => ("out-badge outcome-success"@, "ok"@, "ok"@),
            OutcomeKind::Warning => ("out-badge outcome-warning"@, "warn"@, "warn"@),
            OutcomeKind::Failure => ("out-badge outcome-failure"@, "✕"@, "failed"@),
            OutcomeKind::Cancelled => ("out-badge outcome-neutral"@, "cancelled"@, "cancelled"@),
        }
    }
}

/// The tag of an outcome; success is shown only where that is asked for.
pub open spec fn outcome_tag(row: JsonView, options: BadgeOptions) -> Option<ChromeView> {
    let wire = row::text_of(row, "outcome"@);
    match outcome(wire) {
        Some(kind) => if kind == OutcomeKind::Success && !options.show_success_outcome {
            None
        } else {
            Some(
                ChromeView {
                    classes: kind.words().0,
                    text: kind.words().1,
                    title: "outcome: "@ + wire,
                    aria_label: Some("outcome: "@ + kind.words().2),
                },
            )
        },
        None => None,
    }
}

/// The tag of an outcome.
pub fn outcome_badge(row: &Json, options: BadgeOptions) -> (badge: Option<ChromeItem>)
    ensures
        match badge {
            Some(badge) => outcome_tag(row@, options) == Some(badge@),
            None => outcome_tag(row@, options) is None,
        },
{
    let wire = row::text(row, "outcome");
    match OutcomeKind::from_wire(wire) {
        Some(kind) => {
            if kind == OutcomeKind::Success && !options.show_success_outcome {
                return None;
            }
            let (classes, text, spoken) = match kind {
                OutcomeKind::Success => ("out-badge outcome-success", "ok", "ok"),
                OutcomeKind::Warning => ("out-badge outcome-warning", "warn", "warn"),
                OutcomeKind::Failure => ("out-badge outcome-failure", "✕", "failed"),
                OutcomeKind::Cancelled => ("out-badge outcome-neutral", "cancelled", "cancelled"),
            };
            Some(
                ChromeItem {
                    classes: classes.to_owned(),
                    text: text.to_owned(),
                    title: joined("outcome: ", wire),
                    aria_label: Some(joined("outcome: ", spoken)),
                },
            )
        },
        None => None,
    }
}

/// The kinds of bundles.
#[derive(Debug, Clone, Copy, PartialEq, Eq, Structural)]
pub enum BundleKind {
    WorkGroup,
    ExecuteRun,
    PlanRepeat,
}

/// The bundle that a payload names.
pub open spec fn bundle(kind: Seq<char>) -> Option<BundleKind> {
    if kind == "work-group"@ {
        Some(BundleKind::WorkGroup)
    } else if kind == "execute-run"@ {
        Some(BundleKind::ExecuteRun)
    } else if kind == "plan-repeat"@ {
        Some(BundleKind::PlanRepeat)
    } else {
        None
    }
}

/// The name of a bundle in a payload.
pub open spec fn bundle_name(kind: BundleKind) -> Seq<char> {
    match kind {
        BundleKind::WorkGroup => "work-group"@,
        BundleKind::ExecuteRun => "execute-run"@,
        BundleKind::PlanRepeat => "plan-repeat"@,
    }
}

/// A bundle is found again by its name.
pub proof fn bundles_are_named(kind: BundleKind)
    ensures
        bundle(bundle_name(kind)) == Some(kind),
{
    reveal_strlit("work-group");
    reveal_strlit("execute-run");
    reveal_strlit("plan-repeat");
    assert("work-group"@[0] == 'w' && "execute-run"@[0] == 'e' && "plan-repeat"@[0] == 'p');
}

impl BundleKind {
    pub fn as_str(self) -> (name: &'static str)
        ensures
            name@ == bundle_name(self),
    {
        match self {
            BundleKind::WorkGroup => "work-group",
            BundleKind::ExecuteRun => "execute-run",
            BundleKind::PlanRepeat => "plan-repeat",
        }
    }

    pub fn from_wire(kind: &str) -> (found: Option<BundleKind>)
        ensures
            found == bundle(kind@),
    {
        if same_text(kind, "work-group") {
            Some(BundleKind::WorkGroup)
        } else if same_text(kind, "execute-run") {
            Some(BundleKind::ExecuteRun)
        } else if same_text(kind, "plan-repeat") {
            Some(BundleKind::PlanRepeat)
        } else {
            None
        }
    }
}

/// The bundle that a row is, in the activity view.
pub open spec fn bundle_of(row: JsonView, view: ViewMode) -> Option<BundleKind> {
    match row.get("activity_bundle"@) {
        Some(value) => if view == ViewMode::Activity && value.truthy() {
            bundle(row::text_of(value, "kind"@))
        } else {
            None
        },
        None => None,
    }
}

/// The bundle that a row is, in the activity view.
pub fn activity_bundle_kind(row: &Json, view: ViewMode) -> (kind: Option<BundleKind>)
    ensures
        kind == bundle_of(row@, view),
{
    match row.get("activity_bundle") {
        Some(value) => if view == ViewMode::Activity && value.is_truthy() {
            BundleKind::from_wire(row::text(value, "kind"))
        } else {
            None
        },
        None => None,
    }
}

/// How many members a bundle has.
pub open spec fn members_of(row: JsonView) -> Option<u64> {
    match row.get("activity_bundle"@) {
        Some(value) => match value.get("member_count"@) {
            Some(count) => count.unsigned(),
            None => None,
        },
        None => None,
    }
}

/// How many members a bundle has.
pub fn member_count(row: &Json) -> (count: Option<u64>)
    ensures
        count == members_of(row@),
{
    match row.get("activity_bundle") {
        Some(value) => match value.get("member_count") {
            Some(count) => count.as_u64(),
            None => None,
        },
        None => None,
    }
}

/// A count with its noun in the singular or the plural.
pub open spec fn counted(count: u64, one: Seq<char>, many: Seq<char>) -> Seq<char> {
    text::decimal(count as nat) + if count == 1 {
        one
    } else {
        many
    }
}

/// A count with its noun in the singular or the plural.
pub fn count_text(count: u64, one: &str, many: &str) -> (out: String)
    ensures
        out@ == counted(count, one@, many@),
{
    let mut out = decimal_text(count);
    if count == 1 {
        out.append(one);
    } else {
        out.append(many);
    }
    out
}

/// The label of a bundle: how many of what it holds.
pub open spec fn bundle_label(row: JsonView, view: ViewMode) -> Seq<char> {
    match (bundle_of(row, view), members_of(row)) {
        (Some(kind), Some(count)) => match kind {
            BundleKind::WorkGroup => counted(count, " activity"@, " activities"@),
            BundleKind::PlanRepeat => counted(count, " update"@, " updates"@),
            BundleKind::ExecuteRun => if row::text_of(row, "kind"@) == "command"@ {
                counted(count, " command"@, " commands"@)
            } else {
                counted(count, " tool step"@, " tool steps"@)
            },
        },
        _ => Seq::empty(),
    }
}

/// The label of a bundle.
pub fn bundle_count_text(row: &Json, view: ViewMode) -> (out: String)
    ensures
        out@ == bundle_label(row@, view),
{
    let kind = activity_bundle_kind(row, view);
    let count = member_count(row);
    match (kind, count) {
        (Some(kind), Some(count)) => match kind {
            BundleKind::WorkGroup => count_text(count, " activity", " activities"),
            BundleKind::PlanRepeat => count_text(count, " update", " updates"),
            BundleKind::ExecuteRun => if same_text(row::text(row, "kind"), "command") {
                count_text(count, " command", " commands")
            } else {
                count_text(count, " tool step", " tool steps")
            },
        },
        _ => {
            let out = String::new();
            assert(out@ =~= Seq::empty());
            out
        },
    }
}

/// Whether a row is a run of commands that succeeded.
pub open spec fn run_succeeded(row: JsonView, view: ViewMode) -> bool {
    bundle_of(row, view) == Some(BundleKind::ExecuteRun) && row::text_of(row, "outcome"@)
        == "success"@
}

/// Whether a row is a run of commands that succeeded.
pub fn execute_succeeded(row: &Json, view: ViewMode) -> (yes: bool)
    ensures
        yes == run_succeeded(row@, view),
{
    match activity_bundle_kind(row, view) {
        Some(BundleKind::ExecuteRun) => same_text(row::text(row, "outcome"), "success"),
        _ => false,
    }
}

/// The tags of a bundle: its label, and a mark for a run that succeeded.
pub open spec fn bundle_tags(row: JsonView, view: ViewMode) -> Seq<ChromeView> {
    let label = bundle_label(row, view);
    if label.len() == 0 {
        Seq::empty()
    } else if run_succeeded(row, view) {
        seq![
            ChromeView {
                classes: "bundle-count"@,
                text: label,
                title: label + ", completed"@,
                aria_label: None,
            },
            ChromeView {
                classes: "bundle-status bundle-status-success"@,
                text: "✓"@,
                title: "completed"@,
                aria_label: Some("completed"@),
            },
        ]
    } else {
        seq![
            ChromeView {
                classes: "bundle-count"@,
                text: label,
                title: label,
                aria_label: None,
            },
        ]
    }
}

/// The tags of a bundle.
pub fn bundle_chrome(row: &Json, view: ViewMode) -> (out: Vec<ChromeItem>)
    ensures
        tags(out@) == bundle_tags(row@, view),
{
    let mut out: Vec<ChromeItem> = Vec::new();
    assert(tags(out@) =~= Seq::empty());
    let label = bundle_count_text(row, view);
    if empty(label.as_str()) {
        return out;
    }
    let success = execute_succeeded(row, view);
    let title = if success {
        joined(label.as_str(), ", completed")
    } else {
        label.clone()
    };
    push_tag(
        &mut out,
        ChromeItem { classes: "bundle-count".to_owned(), text: label, title, aria_label: None },
    );
    if success {
        push_tag(
            &mut out,
            ChromeItem {
                classes: "bundle-status bundle-status-success".to_owned(),
                text: "✓".to_owned(),
                title: "completed".to_owned(),
                aria_label: Some("completed".to_owned()),
            },
        );
    }
    assert(tags(out@) =~= bundle_tags(row@, view));
    out
}

/// An optional tag as a list.
pub open spec fn optional_tag(tag: Option<ChromeView>) -> Seq<ChromeView> {
    match tag {
        Some(tag) => seq![tag],
        None => Seq::empty(),
    }
}

/// The tags of a row: those of its bundle, otherwise its relations with a bad
/// outcome, otherwise its outcome.
pub open spec fn semantic_tags(
    row: JsonView,
    is_bundle: bool,
    view: ViewMode,
    options: BadgeOptions,
) -> Seq<ChromeView> {
    let relations = relation_tags(relations_of(row));
    let wire = row::text_of(row, "outcome"@);
    if is_bundle {
        bundle_tags(row, view)
    } else if relations.len() > 0 {
        if wire == "success"@ {
            relations
        } else {
            relations + optional_tag(outcome_tag(row, options))
        }
    } else {
        optional_tag(outcome_tag(row, options))
    }
}

/// The tags of a row.
pub fn row_semantic_chrome(row: &Json, is_bundle: bool, view: ViewMode, options: BadgeOptions) -> (
out: Vec<ChromeItem>)
    ensures
        tags(out@) == semantic_tags(row@, is_bundle, view, options),
{
    if is_bundle {
        return bundle_chrome(row, view);
    }
    let mut out = relation_badges(row);
    let ghost relations = tags(out@);
    let related = out.len() > 0;
    if !(related && same_text(row::text(row, "outcome"), "success")) {
        if let Some(badge) = outcome_badge(row, options) {
            push_tag(&mut out, badge);
        }
    }
    assert(tags(out@) =~= semantic_tags(row@, is_bundle, view, options));
    out
}

/// The unit of work that a row belongs to.
#[derive(Debug, PartialEq, Eq)]
pub struct WorkUnitData {
    pub id: String,
    pub title: Option<String>,
    pub count: Option<u64>,
    pub is_start: bool,
    pub is_end: bool,
}

/// The contents of a unit of work.
pub ghost struct UnitView {
    pub id: Seq<char>,
    pub title: Option<Seq<char>>,
    pub count: Option<u64>,
    pub is_start: bool,
    pub is_end: bool,
}

impl View for WorkUnitData {
    type V = UnitView;

    open spec fn view(&self) -> UnitView {
        UnitView {
            id: self.id@,
            title: summary::optional_text(self.title),
            count: self.count,
            is_start: self.is_start,
            is_end: self.is_end,
        }
    }
}

/// The count that a payload names.
pub open spec fn count_of(value: JsonView) -> Option<u64> {
    match value.get("count"@) {
        Some(count) => count.unsigned(),
        None => None,
    }
}

fn read_count(value: &Json) -> (count: Option<u64>)
    ensures
        count == count_of(value@),
{
    match value.get("count") {
        Some(count) => count.as_u64(),
        None => None,
    }
}

/// A field of a top-level row in the activity view, where it counts as true.
pub open spec fn activity_field(row: JsonView, view: ViewMode, name: Seq<char>) -> Option<JsonView> {
    match row.get(name) {
        Some(value) => if view == ViewMode::Activity && !row::truth_of(row, "is_subop"@)
            && value.truthy() {
            Some(value)
        } else {
            None
        },
        None => None,
    }
}

fn read_activity_field<'a>(row: &'a Json, view: ViewMode, name: &str) -> (value: Option<&'a Json>)
    ensures
        match value {
            Some(value) => activity_field(row@, view, name@) == Some(value@),
            None => activity_field(row@, view, name@) is None,
        },
{
    match row.get(name) {
        Some(value) => if view == ViewMode::Activity && !row::truth(row, "is_subop")
            && value.is_truthy() {
            Some(value)
        } else {
            None
        },
        None => None,
    }
}

/// The unit of work that a row belongs to.
pub open spec fn unit_of(row: JsonView, view: ViewMode) -> Option<UnitView> {
    match activity_field(row, view, "work_unit"@) {
        Some(unit) => Some(
            UnitView {
                id: row::text_of(unit, "id"@),
                title: if row::text_of(unit, "title"@).len() > 0 {
                    Some(row::text_of(unit, "title"@))
                } else {
                    None
                },
                count: count_of(unit),
                is_start: row::truth_of(unit, "is_start"@),
                is_end: row::truth_of(unit, "is_end"@),
            },
        ),
        None => None,
    }
}

/// The unit of work that a row belongs to.
pub fn work_unit_of(row: &Json, view: ViewMode) -> (unit: Option<WorkUnitData>)
    ensures
        match unit {
            Some(unit) => unit_of(row@, view) == Some(unit@),
            None => unit_of(row@, view) is None,
        },
{
    match read_activity_field(row, view, "work_unit") {
        Some(unit) => {
            let title = row::text(unit, "title");
            Some(
                WorkUnitData {
                    id: row::owned_str(unit, "id"),
                    title: if empty(title) {
                        None
                    } else {
                        Some(title.to_owned())
                    },
                    count: read_count(unit),
                    is_start: row::truth(unit, "is_start"),
                    is_end: row::truth(unit, "is_end"),
                },
            )
        },
        None => None,
    }
}

/// The marker of a whole session.
#[derive(Debug, Clone, Copy, PartialEq, Eq, Structural)]
pub struct SessionSummaryData {
    pub count: Option<u64>,
}

/// The marker of a whole session on a row.
pub open spec fn session_of(row: JsonView, view: ViewMode) -> Option<SessionSummaryData> {
    match activity_field(row, view, "session_summary"@) {
        Some(marker) => Some(SessionSummaryData { count: count_of(marker) }),
        None => None,
    }
}

/// The marker of a whole session on a row.
pub fn session_summary_of(row: &Json, view: ViewMode) -> (marker: Option<SessionSummaryData>)
    ensures
        marker == session_of(row@, view),
{
    match read_activity_field(row, view, "session_summary") {
        Some(marker) => Some(SessionSummaryData { count: read_count(marker) }),
        None => None,
    }
}

/// The name of a unit of work without a title, by its activity.
pub open spec fn unit_fallback(kind: Seq<char>) -> Option<Seq<char>> {
    match activity(kind) {
        Some(ActivityKind::Work) => Some("Work"@),
        Some(ActivityKind::Execute) => Some("Run"@),
        Some(ActivityKind::Change) => Some("Change"@),
        Some(ActivityKind::Verify) => Some("Verify"@),
        Some(ActivityKind::Plan) => Some("Plan"@),
        Some(ActivityKind::Explore) => Some("Explore"@),
        Some(ActivityKind::Diagnose) => Some("Diagnose"@),
        Some(ActivityKind::Coordinate) => Some("Coordinate"@),
        Some(ActivityKind::SourceControl) => Some("Git"@),
        Some(ActivityKind::External) => Some("External"@),
        Some(ActivityKind::System) => Some("System"@),
        Some(ActivityKind::Conversation) => None,
        None => None,
    }
}

fn work_unit_fallback(kind: &str) -> (name: Option<&'static str>)
    ensures
        match name {
            Some(name) => unit_fallback(kind@) == Some(name@),
            None => unit_fallback(kind@) is None,
        },
{
    match ActivityKind::from_wire(kind) {
        Some(ActivityKind::Work) => Some("Work"),
        Some(ActivityKind::Execute) => Some("Run"),
        Some(ActivityKind::Change) => Some("Change"),
        Some(ActivityKind::Verify) => Some("Verify"),
        Some(ActivityKind::Plan) => Some("Plan"),
        Some(ActivityKind::Explore) => Some("Explore"),
        Some(ActivityKind::Diagnose) => Some("Diagnose"),
        Some(ActivityKind::Coordinate) => Some("Coordinate"),
        Some(ActivityKind::SourceControl) => Some("Git"),
        Some(ActivityKind::External) => Some("External"),
        Some(ActivityKind::System) => Some("System"),
        Some(ActivityKind::Conversation) => None,
        None => None,
    }
}

/// The lines of a unit's title that say something.
pub open spec fn title_lines(unit: Option<UnitView>) -> Seq<Seq<char>> {
    match unit {
        Some(unit) => match unit.title {
            Some(title) => {
                let lines = chars::lines(title);
                plain_text::plain_lines(lines, lines.len() as int)
            },
            None => Seq::empty(),
        },
        None => Seq::empty(),
    }
}

/// The title of a row's unit of work: the first line of its own title that says
/// something, or a name by its activity, its kind, or its group.
pub open spec fn unit_title(row: JsonView, view: ViewMode) -> Seq<char> {
    let lines = title_lines(unit_of(row, view));
    let fallback = unit_fallback(row::text_of(row, "activity_kind"@));
    let kind = row::text_of(row, "kind"@);
    if lines.len() > 0 {
        lines[0]
    } else if fallback is Some {
        fallback->0
    } else if kind == "message"@ || kind == "command"@ {
        "Request"@
    } else {
        labels::group_label(row::text_of(row, "group"@), None, None)
    }
}

/// The title of a row's unit of work.
pub fn work_unit_title(row: &Json, view: ViewMode) -> (out: String)
    ensures
        out@ == unit_title(row@, view),
{
    if let Some(unit) = work_unit_of(row, view) {
        if let Some(title) = unit.title {
            if let Some(first) = first_plain_line(title.as_str()) {
                return first;
            }
        }
    }
    if let Some(name) = work_unit_fallback(row::text(row, "activity_kind")) {
        return name.to_owned();
    }
    let kind = row::text(row, "kind");
    if same_text(kind, "message") || same_text(kind, "command") {
        return "Request".to_owned();
    }
    labels::group_label_text(row::text(row, "group"), None, None)
}

/// How many entries a unit of work has, in words.
pub fn work_unit_count_text(count: u64) -> (out: String)
    ensures
        out@ == counted(count, " entry"@, " entries"@),
{
    count_text(count, " entry", " entries")
}

/// What the count of a unit of work means.
pub fn work_unit_count_title(count: u64) -> (out: String)
    ensures
        out@ == counted(count, " entry"@, " entries"@) + " grouped in this activity"@,
{
    joined(work_unit_count_text(count).as_str(), " grouped in this activity")
}

/// What the count of a session means.
pub fn session_summary_count_title(count: u64) -> (out: String)
    ensures
        out@ == counted(count, " entry"@, " entries"@) + " in this session"@,
{
    joined(work_unit_count_text(count).as_str(), " in this session")
}

/// Whether a count is worth showing.
pub open spec fn several(count: Option<u64>) -> bool {
    match count {
        Some(count) => count > 1,
        None => false,
    }
}

/// Whether the count of a unit of work is shown: not for one entry, and not for
/// commits.
pub fn show_work_unit_count(row: &Json, count: Option<u64>) -> (yes: bool)
    ensures
        yes == (several(count) && row::text_of(row@, "activity_kind"@) != "source_control"@),
{
    let many = match count {
        Some(count) => count > 1,
        None => false,
    };
    many && !same_text(row::text(row, "activity_kind"), "source_control")
}

/// Where a session came from, as a tag.
#[derive(Debug, PartialEq, Eq)]
pub struct SessionChip {
    pub class: String,
    pub label: String,
    pub title: String,
}

/// The contents of a session tag.
pub ghost struct ChipView {
    pub class: Seq<char>,
    pub label: Seq<char>,
    pub title: Seq<char>,
}

impl View for SessionChip {
    type V = ChipView;

    open spec fn view(&self) -> ChipView {
        ChipView { class: self.class@, label: self.label@, title: self.title@ }
    }
}

/// The contents of a list of session tags.
pub open spec fn chips(items: Seq<SessionChip>) -> Seq<ChipView> {
    Seq::new(items.len(), |i: int| items[i]@)
}

/// A text of the session's metadata without white space at its ends.
pub open spec fn meta_text(row: JsonView, name: Seq<char>) -> Option<Seq<char>> {
    match row.get("session_meta"@) {
        Some(meta) => match meta.get(name) {
            Some(value) => labels::said(value.text()),
            None => None,
        },
        None => None,
    }
}

/// A text of the session's metadata without white space at its ends.
pub fn session_meta_field(row: &Json, name: &str) -> (text: Option<String>)
    ensures
        match text {
            Some(text) => meta_text(row@, name@) == Some(text@),
            None => meta_text(row@, name@) is None,
        },
{
    match row.get("session_meta") {
        Some(meta) => match meta.get(name) {
            Some(value) => match value.as_str() {
                Some(text) => {
                    let trimmed = trimmed_string(text);
                    if empty(trimmed.as_str()) {
                        None
                    } else {
                        Some(trimmed)
                    }
                },
                None => None,
            },
            None => None,
        },
        None => None,
    }
}

/// The session tags of a row: the model provider and the agent.
pub open spec fn session_chips(row: JsonView) -> Seq<ChipView> {
    (match meta_text(row, "model_provider"@) {
        Some(provider) => seq![
            ChipView {
                class: "session-chip session-chip-model"@,
                label: provider,
                title: "Model provider"@,
            },
        ],
        None => Seq::empty(),
    }) + match meta_text(row, "agent_nickname"@) {
        Some(agent) => seq![
            ChipView {
                class: "session-chip session-chip-agent"@,
                label: agent,
                title: "Agent"@,
            },
        ],
        None => Seq::empty(),
    }
}

/// The session tags of a row.
pub fn session_meta_values(row: &Json) -> (out: Vec<SessionChip>)
    ensures
        chips(out@) == session_chips(row@),
{
    let mut out: Vec<SessionChip> = Vec::new();
    if let Some(provider) = session_meta_field(row, "model_provider") {
        out.push(
            SessionChip {
                class: "session-chip session-chip-model".to_owned(),
                label: provider,
                title: "Model provider".to_owned(),
            },
        );
    }
    if let Some(agent) = session_meta_field(row, "agent_nickname") {
        out.push(
            SessionChip {
                class: "session-chip session-chip-agent".to_owned(),
                label: agent,
                title: "Agent".to_owned(),
            },
        );
    }
    assert(chips(out@) =~= session_chips(row@));
    out
}

/// The first `n` session tags in words.
pub open spec fn described(items: Seq<ChipView>, n: int) -> Seq<char>
    decreases n,
{
    if n <= 0 {
        Seq::empty()
    } else {
        let words = items[n - 1].title + " "@ + items[n - 1].label;
        if n == 1 {
            words
        } else {
            described(items, n - 1) + ", "@ + words
        }
    }
}

/// The session tags of a row in words.
pub open spec fn session_words(row: JsonView) -> Seq<char> {
    described(session_chips(row), session_chips(row).len() as int)
}

/// The session tags of a row in words.
pub fn session_meta_description(row: &Json) -> (out: String)
    ensures
        out@ == session_words(row@),
{
    let items = session_meta_values(row);
    let ghost all = chips(items@);
    let mut out = String::new();
    let mut i: usize = 0;
    assert(out@ =~= described(all, 0));
    while i < items.len()
        invariant
            i <= items.len(),
            all == chips(items@),
            out@ == described(all, i as int),
        decreases items.len() - i,
    {
        let ghost before = out@;
        assert(all[i as int] == items@[i as int]@);
        if i > 0 {
            out.append(", ");
        }
        out.append(items[i].title.as_str());
        out.append(" ");
        out.append(items[i].label.as_str());
        proof {
            let words = all[i as int].title + " "@ + all[i as int].label;
            if i == 0 {
                assert(out@ =~= words);
            } else {
                assert(out@ =~= before + ", "@ + words);
            }
        }
        i = i + 1;
    }
    out
}

/// Why a row stands out.
#[derive(Debug, Clone, Copy, PartialEq, Eq, Structural)]
pub enum PromotedKind {
    Failure,
    Warning,
    Cancelled,
    Change,
    Verify,
    Rail,
}

impl PromotedKind {
    /// The classes of a row that stands out.
    pub open spec fn class_names(self) -> Seq<char> {
        match self {
            PromotedKind::Failure => "row-promoted row-promoted-failure"@,
            PromotedKind::Warning => "row-promoted row-promoted-warning"@,
            PromotedKind::Cancelled => "row-promoted row-promoted-cancelled"@,
            PromotedKind::Change => "row-promoted row-promoted-change"@,
            PromotedKind::Verify => "row-promoted row-promoted-verify"@,
            PromotedKind::Rail => "row-promoted row-promoted-rail"@,
        }
    }

    pub fn classes(self) -> (names: &'static str)
        ensures
            names@ == self.class_names(),
    {
        match self {
            PromotedKind::Failure => "row-promoted row-promoted-failure",
            PromotedKind::Warning => "row-promoted row-promoted-warning",
            PromotedKind::Cancelled => "row-promoted row-promoted-cancelled",
            PromotedKind::Change => "row-promoted row-promoted-change",
            PromotedKind::Verify => "row-promoted row-promoted-verify",
            PromotedKind::Rail => "row-promoted row-promoted-rail",
        }
    }
}

/// Why a row stands out, in the activity view; sub-operations never do.
pub open spec fn promotion(row: JsonView, view: ViewMode) -> Option<PromotedKind> {
    let wire = row::text_of(row, "outcome"@);
    let kind = row::text_of(row, "activity_kind"@);
    if !(view == ViewMode::Activity && !row::truth_of(row, "is_subop"@) && row::truth_of(
        row,
        "promoted"@,
    )) {
        None
    } else if wire == "failure"@ {
        Some(PromotedKind::Failure)
    } else if wire == "warning"@ {
        Some(PromotedKind::Warning)
    } else if wire == "cancelled"@ {
        Some(PromotedKind::Cancelled)
    } else if kind == "change"@ {
        Some(PromotedKind::Change)
    } else if kind == "verify"@ {
        Some(PromotedKind::Verify)
    } else {
        Some(PromotedKind::Rail)
    }
}

/// Why a row stands out.
pub fn promoted_kind(row: &Json, view: ViewMode) -> (kind: Option<PromotedKind>)
    ensures
        kind == promotion(row@, view),
{
    if !(view == ViewMode::Activity && !row::truth(row, "is_subop") && row::truth(
        row,
        "promoted",
    )) {
        return None;
    }
    let wire = row::text(row, "outcome");
    let kind = row::text(row, "activity_kind");
    if same_text(wire, "failure") {
        Some(PromotedKind::Failure)
    } else if same_text(wire, "warning") {
        Some(PromotedKind::Warning)
    } else if same_text(wire, "cancelled") {
        Some(PromotedKind::Cancelled)
    } else if same_text(kind, "change") {
        Some(PromotedKind::Change)
    } else if same_text(kind, "verify") {
        Some(PromotedKind::Verify)
    } else {
        Some(PromotedKind::Rail)
    }
}

/// Whether some of the first `n` relations of a row is of a kind.
pub open spec fn names_relation(items: Seq<JsonView>, kind: RelationKind, n: int) -> bool {
    exists|i: int| 0 <= i < n && relation(row::text_of(#[trigger] items[i], "kind"@)) == Some(kind)
}

proof fn lemma_relations(items: Seq<JsonView>, kind: RelationKind, n: int)
    requires
        0 <= n <= items.len(),
    ensures
        relations_in(items, n).contains(kind) <==> names_relation(items, kind, n),
        relations_in(items, n).no_duplicates(),
    decreases n,
{
    if n > 0 {
        lemma_relations(items, kind, n - 1);
        let before = relations_in(items, n - 1);
        let now = relations_in(items, n);
        let found = relation(row::text_of(items[n - 1], "kind"@));
        assert(names_relation(items, kind, n) <==> names_relation(items, kind, n - 1) || found == Some(
            kind,
        )) by {
            if names_relation(items, kind, n - 1) {
                let i = choose|i: int|
                    0 <= i < n - 1 && relation(row::text_of(#[trigger] items[i], "kind"@)) == Some(
                        kind,
                    );
                assert(relation(row::text_of(items[i], "kind"@)) == Some(kind));
            }
        }
        if found is Some && !before.contains(found->0) {
            assert(now == before.push(found->0));
            assert(now[before.len() as int] == found->0);
            if before.contains(kind) {
                let k = choose|k: int| 0 <= k < before.len() && before[k] == kind;
                assert(now[k] == kind);
            }
            if now.contains(kind) && kind != found->0 {
                let k = choose|k: int| 0 <= k < now.len() && now[k] == kind;
                assert(before[k] == kind);
            }
        }
    }
}

/// A row is tagged with each kind of relation that it has, once, in the order in which
/// they first come; a later relation never changes the tags before it.
pub proof fn each_relation_is_tagged_once(items: Seq<JsonView>, kind: RelationKind, n: int)
    requires
        0 <= n < items.len(),
    ensures
        relations_in(items, items.len() as int).contains(kind) <==> names_relation(
            items,
            kind,
            items.len() as int,
        ),
        relations_in(items, items.len() as int).no_duplicates(),
        relations_in(items, n).is_prefix_of(relations_in(items, n + 1)),
        relation_tags(relations_in(items, n)).len() == relations_in(items, n).len(),
{
    lemma_relations(items, kind, items.len() as int);
}

/// The kinds of relations have their names and their texts.
pub proof fn relations_have_their_texts(kind: Seq<char>)
    ensures
        relation("subagent"@) == Some(RelationKind::Subagent),
        relation("reconnect"@) == Some(RelationKind::Reconnect),
        relation("fork"@) == Some(RelationKind::Fork),
        kind != "subagent"@ && kind != "reconnect"@ && kind != "fork"@ ==> relation(kind) is None,
        RelationKind::Subagent.tag() == (ChromeView {
            classes: "rel-badge rel-subagent"@,
            text: "↳ subagent"@,
            title: "Starts a subagent branch"@,
            aria_label: Some("Starts a subagent branch"@),
        }),
        RelationKind::Reconnect.tag() == (ChromeView {
            classes: "rel-badge rel-reconnect"@,
            text: "↩ return"@,
            title: "Completion returns into the subagent branch"@,
            aria_label: Some("Completion returns into the subagent branch"@),
        }),
        RelationKind::Fork.tag() == (ChromeView {
            classes: "rel-badge rel-fork"@,
            text: "⇉ fork"@,
            title: "Branches off the target row at a fork boundary"@,
            aria_label: Some("Branches off the target row at a fork boundary"@),
        }),
{
    reveal_strlit("subagent");
    reveal_strlit("reconnect");
    reveal_strlit("fork");
    assert("subagent"@.len() == 8 && "reconnect"@.len() == 9 && "fork"@.len() == 4);
}

proof fn lemma_activity_names()
    ensures
        activity("work"@) == Some(ActivityKind::Work),
        activity("conversation"@) == Some(ActivityKind::Conversation),
        activity("plan"@) == Some(ActivityKind::Plan),
        activity("explore"@) == Some(ActivityKind::Explore),
        activity("execute"@) == Some(ActivityKind::Execute),
        activity("change"@) == Some(ActivityKind::Change),
        activity("verify"@) == Some(ActivityKind::Verify),
        activity("diagnose"@) == Some(ActivityKind::Diagnose),
        activity("coordinate"@) == Some(ActivityKind::Coordinate),
        activity("source_control"@) == Some(ActivityKind::SourceControl),
        activity("external"@) == Some(ActivityKind::External),
        activity("system"@) == Some(ActivityKind::System),
{
    reveal_strlit("work");
    reveal_strlit("conversation");
    reveal_strlit("plan");
    reveal_strlit("explore");
    reveal_strlit("execute");
    reveal_strlit("change");
    reveal_strlit("verify");
    reveal_strlit("diagnose");
    reveal_strlit("coordinate");
    reveal_strlit("source_control");
    reveal_strlit("external");
    reveal_strlit("system");
    assert("work"@.len() == 4 && "work"@[0] == 'w');
    assert("plan"@.len() == 4 && "plan"@[0] == 'p');
    assert("conversation"@.len() == 12);
    assert("explore"@.len() == 7 && "explore"@[2] == 'p');
    assert("execute"@.len() == 7 && "execute"@[2] == 'e');
    assert("change"@.len() == 6 && "change"@[0] == 'c');
    assert("verify"@.len() == 6 && "verify"@[0] == 'v');
    assert("system"@.len() == 6 && "system"@[0] == 's');
    assert("diagnose"@.len() == 8 && "diagnose"@[0] == 'd');
    assert("external"@.len() == 8 && "external"@[0] == 'e');
    assert("coordinate"@.len() == 10);
    assert("source_control"@.len() == 14);
}

/// Whether a row is a commit: it names one, or says that it is of this kind.
pub open spec fn is_commit(row: JsonView) -> bool {
    row::text_of(row, "git_oid"@).len() > 0 || row::text_of(row, "kind"@) == "git"@
}

/// A commit is labelled as such, whatever else it says. A conversation of a person is
/// labelled with the user and any other conversation with the agent; the execution of
/// tools and the work on sources have labels of their own, and all other activities
/// that of their name.
pub proof fn activities_are_labelled(row: JsonView, token: Seq<char>)
    requires
        token == chars::trim(row::text_of(row, "activity_kind"@)),
    ensures
        is_commit(row) ==> classification(row).label == "git"@,
        !is_commit(row) ==> {
            let author = chars::trim(row::text_of(row, "author"@));
            let label = classification(row).label;
            &&& token == "conversation"@ && (author == "human"@ || author == "user"@) ==> label
                == "user"@
            &&& token == "conversation"@ && author != "human"@ && author != "user"@ ==> label
                == "agent"@
            &&& token == "execute"@ ==> label == "tooluse"@
            &&& token == "source_control"@ ==> label == "git"@
            &&& token == "work"@ ==> label == "work"@
            &&& token == "plan"@ ==> label == "plan"@
            &&& token == "explore"@ ==> label == "explore"@
            &&& token == "change"@ ==> label == "change"@
            &&& token == "verify"@ ==> label == "verify"@
            &&& token == "diagnose"@ ==> label == "diagnose"@
            &&& token == "coordinate"@ ==> label == "coordinate"@
            &&& token == "external"@ ==> label == "external"@
            &&& token == "system"@ ==> label == "system"@
        },
{
    lemma_activity_names();
}

/// A row that is no commit and names no known activity is labelled as a part of the
/// system where it is one, otherwise with its kind or its role as far as they say
/// something, in dashes, and in general words where neither does.
pub proof fn other_rows_are_labelled(row: JsonView)
    requires
        !is_commit(row),
        activity(chars::trim(row::text_of(row, "activity_kind"@))) is None,
    ensures
        ({
            let kind = chars::trim(row::text_of(row, "kind"@));
            let role = chars::trim(row::text_of(row, "record_role"@));
            let system = row.get("is_system"@) == Some(crate::json::JsonView::Bool(true));
            let says_kind = kind.len() > 0 && kind != "unknown"@;
            let says_role = role.len() > 0 && role != "unknown"@;
            let shown = classification(row);
            &&& system ==> shown.label == "system"@ && shown.source == "is_system"@ && shown.title
                == "System classification"@ + ": "@ + "true"@
            &&& !system && says_kind ==> shown.label == chars::replaced(kind, "_"@, "-"@, 0)
                && shown.source == "kind"@ && shown.title == "Kind"@ + ": "@ + kind
            &&& !system && !says_kind && says_role ==> shown.label == chars::replaced(
                role,
                "_"@,
                "-"@,
                0,
            ) && shown.source == "record_role"@ && shown.title == "Record role"@ + ": "@ + role
            &&& !system && !says_kind && !says_role ==> shown.label == "other"@ && shown.source
                == "fallback"@ && shown.title == "Classification"@ + ": "@ + "other"@
        }),
{
    lemma_sources();
}

proof fn lemma_sources()
    ensures
        source_words("activity_kind"@) == "Activity"@,
        source_words("kind"@) == "Kind"@,
        source_words("record_role"@) == "Record role"@,
        source_words("is_system"@) == "System classification"@,
        source_words("git_oid"@) == "Git identity"@,
        source_words("fallback"@) == "Classification"@,
{
    reveal_strlit("activity_kind");
    reveal_strlit("kind");
    reveal_strlit("record_role");
    reveal_strlit("is_system");
    reveal_strlit("git_oid");
    reveal_strlit("fallback");
    assert("activity_kind"@.len() == 13 && "kind"@.len() == 4 && "record_role"@.len() == 11);
    assert("is_system"@.len() == 9 && "git_oid"@.len() == 7 && "fallback"@.len() == 8);
}

/// A label says where it was taken from: from the activity where that decided it, and
/// for a commit from the commit itself or from the kind.
pub proof fn labels_say_where_they_come_from(row: JsonView)
    ensures
        ({
            let named = row::text_of(row, "activity_kind"@);
            let oid = row::text_of(row, "git_oid"@);
            let shown = classification(row);
            &&& is_commit(row) && named == "source_control"@ ==> shown.source == "activity_kind"@
                && shown.title == "Activity"@ + ": "@ + "source_control"@
            &&& is_commit(row) && named != "source_control"@ && oid.len() > 0 ==> shown.source
                == "git_oid"@ && shown.title == "Git identity"@ + ": "@ + oid
            &&& is_commit(row) && named != "source_control"@ && oid.len() == 0 ==> shown.source
                == "kind"@ && shown.title == "Kind"@ + ": "@ + "git"@
            &&& !is_commit(row) && activity(chars::trim(named)) is Some ==> shown.source
                == "activity_kind"@ && shown.title == "Activity"@ + ": "@ + chars::trim(named)
        }),
{
    lemma_sources();
}

/// A failure, a warning, and a cancellation are always tagged, each in its own words and
/// with its own class; success is tagged only where that is asked for, and nothing else
/// is an outcome.
pub proof fn outcomes_are_tagged(row: JsonView, options: BadgeOptions, wire: Seq<char>)
    requires
        wire == row::text_of(row, "outcome"@),
    ensures
        ({
            let tag = outcome_tag(row, options);
            &&& wire == "failure"@ ==> tag == Some(
                ChromeView {
                    classes: "out-badge outcome-failure"@,
                    text: "✕"@,
                    title: "outcome: "@ + wire,
                    aria_label: Some("outcome: "@ + "failed"@),
                },
            )
            &&& wire == "warning"@ ==> tag == Some(
                ChromeView {
                    classes: "out-badge outcome-warning"@,
                    text: "warn"@,
                    title: "outcome: "@ + wire,
                    aria_label: Some("outcome: "@ + "warn"@),
                },
            )
            &&& wire == "cancelled"@ ==> tag == Some(
                ChromeView {
                    classes: "out-badge outcome-neutral"@,
                    text: "cancelled"@,
                    title: "outcome: "@ + wire,
                    aria_label: Some("outcome: "@ + "cancelled"@),
                },
            )
            &&& wire == "success"@ && options.show_success_outcome ==> tag == Some(
                ChromeView {
                    classes: "out-badge outcome-success"@,
                    text: "ok"@,
                    title: "outcome: "@ + wire,
                    aria_label: Some("outcome: "@ + "ok"@),
                },
            )
            &&& wire == "success"@ && !options.show_success_outcome ==> tag is None
            &&& wire != "failure"@ && wire != "warning"@ && wire != "cancelled"@ && wire
                != "success"@ ==> tag is None
        }),
{
    lemma_outcome_names();
}

proof fn lemma_outcome_names()
    ensures
        outcome("success"@) == Some(OutcomeKind::Success),
        outcome("warning"@) == Some(OutcomeKind::Warning),
        outcome("failure"@) == Some(OutcomeKind::Failure),
        outcome("cancelled"@) == Some(OutcomeKind::Cancelled),
        "success"@ != "failure"@,
        "success"@ != "warning"@,
        "success"@ != "cancelled"@,
        "failure"@ != "warning"@,
        "failure"@ != "cancelled"@,
        "warning"@ != "cancelled"@,
{
    reveal_strlit("success");
    reveal_strlit("warning");
    reveal_strlit("failure");
    reveal_strlit("cancelled");
    assert("success"@[0] == 's' && "warning"@[0] == 'w' && "failure"@[0] == 'f' && "cancelled"@[0]
        == 'c');
}

/// A bundle says how many of what it holds, in the singular for one. Only the activity
/// view has bundles.
pub proof fn bundles_are_counted(row: JsonView, view: ViewMode, bundle: JsonView, count: u64)
    requires
        row.get("activity_bundle"@) == Some(bundle),
        bundle.truthy(),
        bundle.get("member_count"@) matches Some(members) && members.unsigned() == Some(count),
    ensures
        ({
            let kind = row::text_of(bundle, "kind"@);
            let command = row::text_of(row, "kind"@) == "command"@;
            let label = bundle_label(row, view);
            let number = text::decimal(count as nat);
            &&& view == ViewMode::Raw ==> label.len() == 0
            &&& view == ViewMode::Activity ==> {
                &&& kind == "work-group"@ && count == 1 ==> label == number + " activity"@
                &&& kind == "work-group"@ && count != 1 ==> label == number + " activities"@
                &&& kind == "plan-repeat"@ && count == 1 ==> label == number + " update"@
                &&& kind == "plan-repeat"@ && count != 1 ==> label == number + " updates"@
                &&& kind == "execute-run"@ && command && count == 1 ==> label == number
                    + " command"@
                &&& kind == "execute-run"@ && command && count != 1 ==> label == number
                    + " commands"@
                &&& kind == "execute-run"@ && !command && count == 1 ==> label == number
                    + " tool step"@
                &&& kind == "execute-run"@ && !command && count != 1 ==> label == number
                    + " tool steps"@
                &&& kind != "work-group"@ && kind != "plan-repeat"@ && kind != "execute-run"@
                    ==> label.len() == 0
            }
        }),
{
    bundles_are_named(BundleKind::WorkGroup);
    bundles_are_named(BundleKind::ExecuteRun);
    bundles_are_named(BundleKind::PlanRepeat);
}

/// A bundle that holds a countable number is tagged with it. A run of tools that
/// succeeded has a check mark behind it, and no other bundle has one.
pub proof fn only_successful_runs_are_checked(row: JsonView, view: ViewMode)
    requires
        bundle_label(row, view).len() > 0,
    ensures
        ({
            let tags = bundle_tags(row, view);
            let succeeded = row.get("activity_bundle"@) is Some && row::text_of(
                row.get("activity_bundle"@)->0,
                "kind"@,
            ) == "execute-run"@ && row::text_of(row, "outcome"@) == "success"@;
            &&& tags[0].text == bundle_label(row, view)
            &&& tags[0].classes == "bundle-count"@
            &&& tags[0].aria_label is None
            &&& succeeded ==> tags.len() == 2 && tags[0].title == bundle_label(row, view)
                + ", completed"@ && tags[1].text == "✓"@ && tags[1].title == "completed"@
            &&& !succeeded ==> tags.len() == 1 && tags[0].title == bundle_label(row, view)
        }),
{
    bundles_are_named(BundleKind::WorkGroup);
    bundles_are_named(BundleKind::ExecuteRun);
    bundles_are_named(BundleKind::PlanRepeat);
}

/// The row of a bundle has the tags of the bundle alone. Any other row has those of its
/// relations and behind them that of its outcome, which a row with relations leaves out
/// where it is a success.
pub proof fn rows_have_their_tags(
    row: JsonView,
    is_bundle: bool,
    view: ViewMode,
    options: BadgeOptions,
)
    ensures
        ({
            let tags = semantic_tags(row, is_bundle, view, options);
            let relations = relation_tags(relations_of(row));
            let outcome = outcome_tag(row, options);
            let success = row::text_of(row, "outcome"@) == "success"@;
            &&& is_bundle ==> tags == bundle_tags(row, view)
            &&& !is_bundle ==> relations.is_prefix_of(tags)
            &&& !is_bundle && relations.len() > 0 && success ==> tags =~= relations
            &&& !is_bundle && outcome is None ==> tags =~= relations
            &&& !is_bundle && outcome is Some && !(relations.len() > 0 && success) ==> tags
                =~= relations.push(outcome->0)
        }),
{
}

/// Units of work and sessions are marked on top-level rows of the activity view only.
pub proof fn only_top_level_activities_are_marked(row: JsonView, view: ViewMode)
    ensures
        view == ViewMode::Raw || row.get("is_subop"@) == Some(JsonView::Bool(true)) ==> unit_of(
            row,
            view,
        ) is None && session_of(row, view) is None && promotion(row, view) is None,
        unit_of(row, view) is Some ==> {
            let unit = row.get("work_unit"@)->0;
            &&& unit.truthy()
            &&& unit_of(row, view)->0.id == row::text_of(unit, "id"@)
            &&& unit_of(row, view)->0.is_start == (unit.get("is_start"@) == Some(JsonView::Bool(true)))
            &&& unit_of(row, view)->0.is_end == (unit.get("is_end"@) == Some(JsonView::Bool(true)))
            &&& unit_of(row, view)->0.count == (match unit.get("count"@) {
                Some(count) => count.unsigned(),
                None => None,
            })
            &&& unit_of(row, view)->0.title is Some <==> row::text_of(unit, "title"@).len() > 0
            &&& unit_of(row, view)->0.title is Some ==> unit_of(row, view)->0.title->0
                == row::text_of(unit, "title"@)
        },
{
}

/// A unit of work without a title of its own is named by its activity, except for a
/// conversation. A message or a command is then a request, and anything else is named by
/// its group.
pub proof fn units_are_named_by_their_activity(row: JsonView, view: ViewMode, kind: Seq<char>)
    requires
        title_lines(unit_of(row, view)).len() == 0,
        kind == row::text_of(row, "activity_kind"@),
    ensures
        ({
            let title = unit_title(row, view);
            let own = row::text_of(row, "kind"@);
            &&& kind == "work"@ ==> title == "Work"@
            &&& kind == "execute"@ ==> title == "Run"@
            &&& kind == "change"@ ==> title == "Change"@
            &&& kind == "verify"@ ==> title == "Verify"@
            &&& kind == "plan"@ ==> title == "Plan"@
            &&& kind == "explore"@ ==> title == "Explore"@
            &&& kind == "diagnose"@ ==> title == "Diagnose"@
            &&& kind == "coordinate"@ ==> title == "Coordinate"@
            &&& kind == "source_control"@ ==> title == "Git"@
            &&& kind == "external"@ ==> title == "External"@
            &&& kind == "system"@ ==> title == "System"@
            &&& kind == "conversation"@ || activity(kind) is None ==> {
                &&& own == "message"@ || own == "command"@ ==> title == "Request"@
                &&& own != "message"@ && own != "command"@ ==> title == labels::group_label(
                    row::text_of(row, "group"@),
                    None,
                    None,
                )
            }
        }),
{
    lemma_activity_names();
}

/// A session is tagged with its model provider and behind it with its agent, as far as
/// they say something, and is described in the same order.
pub proof fn sessions_are_tagged(row: JsonView)
    ensures
        ({
            let provider = meta_text(row, "model_provider"@);
            let agent = meta_text(row, "agent_nickname"@);
            let chips = session_chips(row);
            &&& chips.len() == (if provider is Some {
                1int
            } else {
                0int
            }) + (if agent is Some {
                1int
            } else {
                0int
            })
            &&& provider is Some ==> chips[0] == (ChipView {
                class: "session-chip session-chip-model"@,
                label: provider->0,
                title: "Model provider"@,
            })
            &&& agent is Some ==> chips.last() == (ChipView {
                class: "session-chip session-chip-agent"@,
                label: agent->0,
                title: "Agent"@,
            })
            &&& provider is None && agent is None ==> session_words(row).len() == 0
            &&& provider is Some && agent is None ==> session_words(row) == "Model provider"@ + " "@
                + provider->0
            &&& provider is None && agent is Some ==> session_words(row) == "Agent"@ + " "@ + agent->0
            &&& provider is Some && agent is Some ==> session_words(row) == "Model provider"@ + " "@
                + provider->0 + ", "@ + ("Agent"@ + " "@ + agent->0)
        }),
{
    reveal_with_fuel(described, 3);
}

/// What a session says of itself is read without the white space around it, and not at
/// all where nothing is left.
pub proof fn sessions_are_read_trimmed(row: JsonView, name: Seq<char>, meta: JsonView)
    requires
        row.get("session_meta"@) == Some(meta),
    ensures
        meta_text(row, name) is Some <==> (meta.get(name) matches Some(JsonView::Str(said))
            && chars::trim(said).len() > 0),
        meta.get(name) matches Some(JsonView::Str(said)) ==> (meta_text(row, name) is Some
            ==> meta_text(row, name)->0 == chars::trim(said)),
{
}

/// A promoted row stands out by its outcome where that is bad, otherwise as a change, as
/// a verification, or plainly. A row that is not promoted does not stand out.
pub proof fn promoted_rows_stand_out(row: JsonView)
    requires
        row.get("is_subop"@) != Some(JsonView::Bool(true)),
    ensures
        ({
            let wire = row::text_of(row, "outcome"@);
            let kind = row::text_of(row, "activity_kind"@);
            let promoted = row.get("promoted"@) == Some(JsonView::Bool(true));
            let bad = wire == "failure"@ || wire == "warning"@ || wire == "cancelled"@;
            let shown = promotion(row, ViewMode::Activity);
            &&& shown is Some <==> promoted
            &&& promoted && wire == "failure"@ ==> shown->0.class_names()
                == "row-promoted row-promoted-failure"@
            &&& promoted && wire == "warning"@ ==> shown->0.class_names()
                == "row-promoted row-promoted-warning"@
            &&& promoted && wire == "cancelled"@ ==> shown->0.class_names()
                == "row-promoted row-promoted-cancelled"@
            &&& promoted && !bad && kind == "change"@ ==> shown->0.class_names()
                == "row-promoted row-promoted-change"@
            &&& promoted && !bad && kind == "verify"@ ==> shown->0.class_names()
                == "row-promoted row-promoted-verify"@
            &&& promoted && !bad && kind != "change"@ && kind != "verify"@ ==> shown->0.class_names()
                == "row-promoted row-promoted-rail"@
        }),
{
    lemma_outcome_names();
    reveal_strlit("change");
    reveal_strlit("verify");
    assert("change"@[0] == 'c' && "verify"@[0] == 'v');
}

} // verus!
