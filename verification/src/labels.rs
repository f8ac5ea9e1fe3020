//! Short names for identities and groups.

use crate::chars;
use crate::json::{Json, JsonView};
use crate::row;
use crate::text::{chars_of, starts_with, string_of};
use vstd::prelude::*;

verus! {

/// The end of an identifier, twelve characters at most.
pub open spec fn short(id: Seq<char>) -> Seq<char> {
    if id.len() > 12 {
        id.skip(id.len() - 12)
    } else {
        id
    }
}

/// The end of an identifier, twelve characters at most.
pub fn short_id(id: &str) -> (out: String)
    ensures
        out@ == short(id@),
{
    let all = chars_of(id);
    if all.len() > 12 {
        let tail = chars::tail_of(all.as_slice(), all.len() - 12);
        string_of(tail.as_slice())
    } else {
        string_of(all.as_slice())
    }
}

/// Whether two texts differ in the case of unaccented letters only.
pub open spec fn same_letters(a: Seq<char>, b: Seq<char>) -> bool {
    &&& a.len() == b.len()
    &&& forall|i: int| 0 <= i < a.len() ==> chars::lower(#[trigger] a[i]) == chars::lower(b[i])
}

fn have_same_letters(a: &[char], b: &[char]) -> (yes: bool)
    ensures
        yes == same_letters(a@, b@),
{
    if a.len() != b.len() {
        return false;
    }
    let mut i: usize = 0;
    while i < a.len()
        invariant
            i <= a@.len(),
            a@.len() == b@.len(),
            forall|k: int|
                0 <= k < i ==> chars::lower(#[trigger] a@[k]) == chars::lower(b@[k]),
        decreases a.len() - i,
    {
        if chars::to_lower(a[i]) != chars::to_lower(b[i]) {
            assert(chars::lower(a@[i as int]) != chars::lower(b@[i as int]));
            return false;
        }
        i = i + 1;
    }
    true
}

/// A text without white space at its ends, if anything is left of it.
pub open spec fn said(text: Option<Seq<char>>) -> Option<Seq<char>> {
    match text {
        Some(text) => if chars::trim(text).len() > 0 {
            Some(chars::trim(text))
        } else {
            None
        },
        None => None,
    }
}

/// The text of an optional string slice.
pub open spec fn slice_text(text: Option<&str>) -> Option<Seq<char>> {
    match text {
        Some(text) => Some(text@),
        None => None,
    }
}

fn trimmed_text(text: Option<&str>) -> (out: Option<Vec<char>>)
    ensures
        match out {
            Some(out) => said(slice_text(text)) == Some(out@),
            None => said(slice_text(text)) is None,
        },
{
    match text {
        Some(text) => {
            let trimmed = chars::trimmed(chars_of(text).as_slice());
            if trimmed.len() > 0 {
                Some(trimmed)
            } else {
                None
            }
        },
        None => None,
    }
}

/// The name of a session: its title, or the end of its identifier.
pub open spec fn session_name(group: Seq<char>, title: Option<Seq<char>>) -> Seq<char> {
    match said(title) {
        Some(title) => title,
        None => if "session:"@.is_prefix_of(group) {
            "Session "@ + short(group.skip("session:"@.len() as int))
        } else {
            "EditChain ops"@
        },
    }
}

/// The label of a group: the repository, or the session with its agent unless
/// they have the same name.
pub open spec fn group_label(
    group: Seq<char>,
    title: Option<Seq<char>>,
    agent: Option<Seq<char>>,
) -> Seq<char> {
    if "repo:"@.is_prefix_of(group) {
        "Git · repo "@ + short(group.skip("repo:"@.len() as int))
    } else {
        let name = session_name(group, title);
        match said(agent) {
            Some(agent) => if same_letters(agent, name) {
                name
            } else {
                name + " · "@ + agent
            },
            None => name,
        }
    }
}

fn behind_prefix(text: &str, length: usize) -> (rest: String)
    requires
        length <= text@.len(),
    ensures
        rest@ == text@.skip(length as int),
{
    let all = chars_of(text);
    let rest = chars::tail_of(all.as_slice(), length);
    string_of(rest.as_slice())
}

/// The label of a group.
pub fn group_label_text(group: &str, session_title: Option<&str>, agent_nickname: Option<&str>) -> (
out: String)
    ensures
        out@ == group_label(group@, slice_text(session_title), slice_text(agent_nickname)),
{
    proof {
        reveal_strlit("repo:");
        reveal_strlit("session:");
    }
    if starts_with(group, "repo:") {
        let rest = behind_prefix(group, 5);
        let mut out = "Git · repo ".to_owned();
        out.append(short_id(rest.as_str()).as_str());
        return out;
    }
    let mut out = match trimmed_text(session_title) {
        Some(title) => string_of(title.as_slice()),
        None => {
            if starts_with(group, "session:") {
                let rest = behind_prefix(group, 8);
                let mut name = "Session ".to_owned();
                name.append(short_id(rest.as_str()).as_str());
                name
            } else {
                "EditChain ops".to_owned()
            }
        },
    };
    if let Some(agent) = trimmed_text(agent_nickname) {
        let name = chars_of(out.as_str());
        if !have_same_letters(agent.as_slice(), name.as_slice()) {
            out.append(" · ");
            out.append(string_of(agent.as_slice()).as_str());
        }
    }
    out
}

/// Whether a lane is the end of one of the transitions.
pub open spec fn bends_to(transitions: Seq<(u32, u32)>, lane: u32) -> bool {
    exists|i: int| 0 <= i < transitions.len() && (#[trigger] transitions[i]).1 == lane
}

/// Whether a lane is the start of one of the transitions.
pub open spec fn bends_from(transitions: Seq<(u32, u32)>, lane: u32) -> bool {
    exists|i: int| 0 <= i < transitions.len() && (#[trigger] transitions[i]).0 == lane
}

/// Whether the node of a row is a tip or a root: nothing leads to it from above,
/// or nothing leads on from it below.
pub open spec fn endpoint(
    lane: u32,
    above: Seq<u32>,
    below: Seq<u32>,
    transitions: Seq<(u32, u32)>,
) -> bool {
    !(above.contains(lane) || bends_to(transitions, lane)) || !(below.contains(lane) || bends_from(
        transitions,
        lane,
    ))
}

fn holds_lane(lanes: &Vec<u32>, lane: u32) -> (yes: bool)
    ensures
        yes == lanes@.contains(lane),
{
    let mut i: usize = 0;
    while i < lanes.len()
        invariant
            i <= lanes.len(),
            forall|k: int| 0 <= k < i ==> #[trigger] lanes@[k] != lane,
        decreases lanes.len() - i,
    {
        if lanes[i] == lane {
            assert(lanes@[i as int] == lane);
            return true;
        }
        i = i + 1;
    }
    false
}

/// Whether the node of a row is a tip or a root.
pub fn is_graph_endpoint(
    lane: u32,
    above: &Vec<u32>,
    below: &Vec<u32>,
    transitions: &Vec<(u32, u32)>,
) -> (yes: bool)
    ensures
        yes == endpoint(lane, above@, below@, transitions@),
{
    let mut to = false;
    let mut from = false;
    let mut i: usize = 0;
    while i < transitions.len()
        invariant
            i <= transitions.len(),
            to == exists|k: int| 0 <= k < i && (#[trigger] transitions@[k]).1 == lane,
            from == exists|k: int| 0 <= k < i && (#[trigger] transitions@[k]).0 == lane,
        decreases transitions.len() - i,
    {
        let pair = transitions[i];
        if pair.1 == lane {
            assert(transitions@[i as int].1 == lane);
            to = true;
        }
        if pair.0 == lane {
            assert(transitions@[i as int].0 == lane);
            from = true;
        }
        i = i + 1;
    }
    !(holds_lane(above, lane) || to) || !(holds_lane(below, lane) || from)
}

/// A text, or another where it is empty.
pub open spec fn first_said(a: Seq<char>, b: Seq<char>) -> Seq<char> {
    if a.len() > 0 {
        a
    } else {
        b
    }
}

/// The identifier that a row shows.
pub open spec fn shown_id(row: JsonView) -> Seq<char> {
    let git = row::text_of(row, "git_oid"@);
    let commit = row::text_of(row, "commit_id"@);
    let op = row::text_of(row, "op_id"@);
    let turn = row::text_of(row, "turn_id"@);
    if git.len() > 0 {
        first_said(commit, git)
    } else if row::truth_of(row, "is_subop"@) {
        op
    } else if turn.len() > 0 {
        turn
    } else {
        first_said(commit, op)
    }
}

fn empty(text: &str) -> (yes: bool)
    ensures
        yes == (text@.len() == 0),
{
    chars_of(text).len() == 0
}

/// The end of the identifier that a row shows.
pub fn short_commit_id(row: &Json) -> (out: String)
    ensures
        out@ == short(shown_id(row@)),
{
    let git = row::text(row, "git_oid");
    let commit = row::text(row, "commit_id");
    let op = row::text(row, "op_id");
    let turn = row::text(row, "turn_id");
    if !empty(git) {
        return if empty(commit) {
            short_id(git)
        } else {
            short_id(commit)
        };
    }
    if row::truth(row, "is_subop") {
        return short_id(op);
    }
    if !empty(turn) {
        return short_id(turn);
    }
    if empty(commit) {
        short_id(op)
    } else {
        short_id(commit)
    }
}

/// The full identifier behind the one that a row shows.
pub fn commit_cell_title(row: &Json) -> (out: String)
    ensures
        out@ == first_said(row::text_of(row@, "commit_id"@), row::text_of(row@, "op_id"@)),
{
    let commit = row::text(row, "commit_id");
    if empty(commit) {
        row::owned_str(row, "op_id")
    } else {
        row::owned_str(row, "commit_id")
    }
}

/// The icon of a sub-operation.
pub open spec fn icon(kind: Seq<char>) -> Seq<char> {
    if kind == "edit"@ {
        "edit"@
    } else if kind == "msg"@ {
        "comment"@
    } else if kind == "tool_result"@ {
        "output"@
    } else {
        "info"@
    }
}

/// The icon of a sub-operation.
pub fn subop_icon(subop_kind: &str) -> (name: &'static str)
    ensures
        name@ == icon(subop_kind@),
{
    if crate::text::same_text(subop_kind, "edit") {
        "edit"
    } else if crate::text::same_text(subop_kind, "msg") {
        "comment"
    } else if crate::text::same_text(subop_kind, "tool_result") {
        "output"
    } else {
        "info"
    }
}

/// The message that asks for the raw record of a row; rows without an identity
/// have none.
pub open spec fn raw_request(row: JsonView) -> Option<JsonView> {
    let kind = JsonView::Str("openJson"@);
    let git = row.get("git_oid"@);
    let op = row.get("op_id"@);
    if git is Some && git->0.truthy() {
        Some(
            JsonView::Object(
                seq![("type"@, kind), ("git_oid"@, git->0)] + match row.get("repository"@) {
                    Some(repository) => seq![("repository"@, repository)],
                    None => Seq::empty(),
                },
            ),
        )
    } else if op is Some && op->0.truthy() {
        Some(JsonView::Object(seq![("type"@, kind), ("op_id"@, op->0)]))
    } else {
        None
    }
}

/// The message that asks for the raw record of a row.
pub fn open_json_envelope(row: &Json) -> (envelope: Option<Json>)
    ensures
        match envelope {
            Some(envelope) => raw_request(row@) == Some(envelope@),
            None => raw_request(row@) is None,
        },
{
    if let Some(git) = row.get("git_oid") {
        if git.is_truthy() {
            let mut envelope = Json::object().with("type", Json::from_text("openJson")).with(
                "git_oid",
                git.clone(),
            );
            if let Some(repository) = row.get("repository") {
                envelope = envelope.with("repository", repository.clone());
            }
            assert(envelope@->Object_0 =~= raw_request(row@)->0->Object_0);
            return Some(envelope);
        }
    }
    if let Some(op) = row.get("op_id") {
        if op.is_truthy() {
            let envelope = Json::object().with("type", Json::from_text("openJson")).with(
                "op_id",
                op.clone(),
            );
            assert(envelope@->Object_0 =~= raw_request(row@)->0->Object_0);
            return Some(envelope);
        }
    }
    None
}

/// A short identifier is the end of the identifier, and all of it where it has no more
/// than twelve characters.
pub proof fn short_identifiers_are_ends(id: Seq<char>)
    ensures
        short(id).is_suffix_of(id),
        id.len() <= 12 ==> short(id) == id,
        id.len() > 12 ==> short(id).len() == 12,
{
}

/// A title that says something names its session, without the white space around it.
/// Without one a session is named by its identifier, and anything else in general words.
/// A repository is always named by its identifier.
pub proof fn groups_are_named(
    group: Seq<char>,
    title: Option<Seq<char>>,
    agent: Option<Seq<char>>,
    rest: Seq<char>,
)
    ensures
        group == "repo:"@ + rest ==> group_label(group, title, agent) == "Git · repo "@ + short(rest),
        !"repo:"@.is_prefix_of(group) && agent is None ==> {
            &&& title is Some && chars::trim(title->0).len() > 0 ==> group_label(group, title, agent)
                == chars::trim(title->0)
            &&& (title is None || chars::trim(title->0).len() == 0) && group == "session:"@ + rest
                ==> group_label(group, title, agent) == "Session "@ + short(rest)
            &&& (title is None || chars::trim(title->0).len() == 0) && !"session:"@.is_prefix_of(
                group,
            ) ==> group_label(group, title, agent) == "EditChain ops"@
        },
{
    if group == "repo:"@ + rest {
        assert("repo:"@.is_prefix_of(group));
        assert(group.skip("repo:"@.len() as int) =~= rest);
    }
    if group == "session:"@ + rest {
        assert("session:"@.is_prefix_of(group));
        assert(group.skip("session:"@.len() as int) =~= rest);
    }
}

/// An agent that says something is named behind its session, unless the two differ at
/// most in the case of their letters.
pub proof fn agents_are_named_behind_their_session(
    group: Seq<char>,
    title: Option<Seq<char>>,
    agent: Seq<char>,
)
    requires
        !"repo:"@.is_prefix_of(group),
    ensures
        ({
            let name = group_label(group, title, None);
            let nick = chars::trim(agent);
            &&& nick.len() == 0 ==> group_label(group, title, Some(agent)) == name
            &&& nick == name ==> group_label(group, title, Some(agent)) == name
            &&& nick.len() > 0 && nick.len() != name.len() ==> group_label(group, title, Some(agent))
                == name + " · "@ + nick
            &&& group_label(group, title, Some(agent)) == name || group_label(
                group,
                title,
                Some(agent),
            ) == name + " · "@ + nick
        }),
{
}

/// Texts have the same letters exactly where each two characters are the same, or the
/// upper and the lower case of one letter.
pub proof fn letters_are_compared_without_case(a: Seq<char>, b: Seq<char>)
    ensures
        same_letters(a, b) <==> a.len() == b.len() && forall|i: int|
            0 <= i < a.len() ==> (#[trigger] a[i] == b[i] || chars::letter(a[i]) && chars::letter(
                b[i],
            ) && (a[i] as int - b[i] as int == 32 || b[i] as int - a[i] as int == 32)),
{
    if a.len() == b.len() {
        assert forall|i: int| 0 <= i < a.len() implies (chars::lower(#[trigger] a[i])
            == chars::lower(b[i])) == (a[i] == b[i] || chars::letter(a[i]) && chars::letter(b[i])
            && (a[i] as int - b[i] as int == 32 || b[i] as int - a[i] as int == 32)) by {}
    }
}

/// A node is an endpoint unless a line or a bend leads to it and a line or a bend leads
/// on from it.
pub proof fn nodes_within_a_path_are_no_endpoints(
    lane: u32,
    above: Seq<u32>,
    below: Seq<u32>,
    transitions: Seq<(u32, u32)>,
)
    ensures
        !endpoint(lane, above, below, transitions) <==> (above.contains(lane) || exists|i: int|
            0 <= i < transitions.len() && (#[trigger] transitions[i]).1 == lane) && (below.contains(
            lane,
        ) || exists|i: int|
            0 <= i < transitions.len() && (#[trigger] transitions[i]).0 == lane),
{
}

/// A row with a commit in Git shows the commit it stands for, or that of Git where it
/// names none; a sub-operation shows its own operation; other rows show their turn, or
/// their commit, or their operation.
pub proof fn rows_show_their_identifier(row: JsonView)
    ensures
        ({
            let git = row::text_of(row, "git_oid"@);
            let commit = row::text_of(row, "commit_id"@);
            let op = row::text_of(row, "op_id"@);
            let turn = row::text_of(row, "turn_id"@);
            let subop = row.get("is_subop"@) == Some(JsonView::Bool(true));
            &&& git.len() > 0 && commit.len() > 0 ==> shown_id(row) == commit
            &&& git.len() > 0 && commit.len() == 0 ==> shown_id(row) == git
            &&& git.len() == 0 && subop ==> shown_id(row) == op
            &&& git.len() == 0 && !subop && turn.len() > 0 ==> shown_id(row) == turn
            &&& git.len() == 0 && !subop && turn.len() == 0 && commit.len() > 0 ==> shown_id(row)
                == commit
            &&& git.len() == 0 && !subop && turn.len() == 0 && commit.len() == 0 ==> shown_id(row)
                == op
        }),
{
}

/// Each kind of sub-operation has an icon of its own; unknown ones share one.
pub proof fn sub_operations_have_their_icons(kind: Seq<char>)
    ensures
        icon("edit"@) == "edit"@,
        icon("msg"@) == "comment"@,
        icon("tool_result"@) == "output"@,
        kind != "edit"@ && kind != "msg"@ && kind != "tool_result"@ ==> icon(kind) == "info"@,
{
    reveal_strlit("edit");
    reveal_strlit("msg");
    reveal_strlit("tool_result");
    assert("edit"@.len() == 4 && "msg"@.len() == 3 && "tool_result"@.len() == 11);
}

/// The raw record of a row is asked for by its commit in Git, with the repository where
/// it is known, otherwise by its operation. A row with neither has no raw record.
pub proof fn raw_records_are_asked_for_by_identity(row: JsonView)
    ensures
        ({
            let git = row.get("git_oid"@);
            let op = row.get("op_id"@);
            let repository = row.get("repository"@);
            let by_git = git is Some && git->0.truthy();
            let by_op = op is Some && op->0.truthy();
            &&& raw_request(row) is Some <==> by_git || by_op
            &&& by_git && repository is None ==> raw_request(row)->0->Object_0 =~= seq![
                ("type"@, JsonView::Str("openJson"@)),
                ("git_oid"@, git->0),
            ]
            &&& by_git && repository is Some ==> raw_request(row)->0->Object_0 =~= seq![
                ("type"@, JsonView::Str("openJson"@)),
                ("git_oid"@, git->0),
                ("repository"@, repository->0),
            ]
            &&& !by_git && by_op ==> raw_request(row)->0->Object_0 =~= seq![
                ("type"@, JsonView::Str("openJson"@)),
                ("op_id"@, op->0),
            ]
        }),
{
}

/// The first text that is not empty is taken.
pub proof fn the_first_said_text_is_taken(a: Seq<char>, b: Seq<char>)
    ensures
        a != Seq::<char>::empty() ==> first_said(a, b) == a,
        a == Seq::<char>::empty() ==> first_said(a, b) == b,
{
    if a.len() == 0 {
        assert(a =~= Seq::<char>::empty());
    }
}

} // verus!
