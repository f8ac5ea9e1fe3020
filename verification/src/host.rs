//! Host protocol: reading inbound host messages and building the exact request
//! envelopes that the host serves.

use crate::json::{self, Json, JsonView};
use crate::protocol::{ErrorCode, ServiceError, SnapshotId};
use crate::step::Send;
use crate::text::same_text;
use vstd::prelude::*;

verus! {

/// What a host message is about.
#[derive(Debug, Clone, PartialEq, Eq)]
pub enum Id {
    Open,
    Ready,
    Reveal,
    Request(u64),
    Unknown(String),
}

/// A message delivered by the host.
#[derive(Debug, Clone, PartialEq, Eq)]
pub struct HostMessage {
    /// `open`, `ready`, `reveal`, or a numeric request id.
    pub id: Id,
    /// Raw response body; may be absent for plain handshakes.
    pub body: Option<Json>,
}

/// Whether a payload identifies a message, and how.
pub open spec fn identifies(value: JsonView, id: Id) -> bool {
    match value {
        JsonView::Str(name) => if name == "open"@ {
            id is Open
        } else if name == "ready"@ {
            id is Ready
        } else if name == "reveal"@ {
            id is Reveal
        } else {
            id matches Id::Unknown(other) && other@ == name
        },
        JsonView::Number(number) => match number.unsigned {
            Some(request) => id == Id::Request(request),
            None => id matches Id::Unknown(other) && other@ == number.text,
        },
        _ => false,
    }
}

/// The contents of an optional payload.
pub open spec fn optional_contents(value: Option<Json>) -> Option<JsonView> {
    match value {
        Some(value) => Some(value@),
        None => None,
    }
}

impl HostMessage {
    /// Read one host message: `id: 'open'` is the open handshake, `id: 'ready'`
    /// starts loading, `id: 'reveal'` replays a recreated context, and numeric
    /// ids correlate service responses.
    pub fn parse(value: &Json) -> (message: Option<HostMessage>)
        ensures
            message is Some <==> (value@.get("id"@) matches Some(id) && (id is Str || id is Number)),
            message matches Some(message) ==> identifies(value@.get("id"@)->0, message.id)
                && optional_contents(message.body) == value@.get("body"@),
    {
        let id = match value.get("id") {
            Some(Json::Str(name)) => {
                if same_text(name.as_str(), "open") {
                    Id::Open
                } else if same_text(name.as_str(), "ready") {
                    Id::Ready
                } else if same_text(name.as_str(), "reveal") {
                    Id::Reveal
                } else {
                    Id::Unknown(name.clone())
                }
            },
            Some(Json::Number(number)) => match number.unsigned {
                Some(request) => Id::Request(request),
                None => Id::Unknown(number.text.clone()),
            },
            _ => {
                return None;
            },
        };
        let body = match value.get("body") {
            Some(body) => Some(body.clone()),
            None => None,
        };
        Some(HostMessage { id, body })
    }
}

/// Unwrapped service response body (`{ Ok: v } | { Error: e }`, plus the legacy
/// lowercase `{ error: e }` transport envelope).
#[derive(Debug, Clone, PartialEq, Eq)]
pub enum Unwrapped {
    Success(Json),
    Failure(ServiceError),
    /// An error that is neither a text nor a coded message.
    Undecoded(Json),
}

/// The error that an error payload spells: a plain text, or a code and a text.
pub open spec fn spelled_error(value: JsonView) -> Option<(ErrorCode, Seq<char>)> {
    match value {
        JsonView::Str(message) => Some((ErrorCode::InvalidInput, message)),
        JsonView::Object(_) => match (value.get("code"@), value.get("message"@)) {
            (Some(JsonView::Str(code)), Some(JsonView::Str(message))) => if code
                == "stale_snapshot"@ {
                Some((ErrorCode::StaleSnapshot, message))
            } else if code == "invalid_input"@ {
                Some((ErrorCode::InvalidInput, message))
            } else {
                None
            },
            _ => None,
        },
        _ => None,
    }
}

/// What an error payload unwraps to.
pub open spec fn unwraps_error(value: JsonView, unwrapped: Unwrapped) -> bool {
    match spelled_error(value) {
        Some((code, message)) => unwrapped matches Unwrapped::Failure(error) && error.code == code
            && error.message@ == message,
        None => unwrapped matches Unwrapped::Undecoded(raw) && raw@ == value,
    }
}

/// Read an error payload.
pub fn decode_error(value: &Json) -> (unwrapped: Unwrapped)
    ensures
        unwraps_error(value@, unwrapped),
{
    if let Some(message) = value.as_str() {
        return Unwrapped::Failure(ServiceError::new(ErrorCode::InvalidInput, message));
    }
    if let (Some(code), Some(message)) = (value.get("code"), value.get("message")) {
        if let (Some(code), Some(message)) = (code.as_str(), message.as_str()) {
            if same_text(code, "stale_snapshot") {
                return Unwrapped::Failure(ServiceError::new(ErrorCode::StaleSnapshot, message));
            }
            if same_text(code, "invalid_input") {
                return Unwrapped::Failure(ServiceError::new(ErrorCode::InvalidInput, message));
            }
        }
    }
    Unwrapped::Undecoded(value.clone())
}

/// What a service response body unwraps to. A missing body is a success without a value.
pub open spec fn unwraps(body: Option<JsonView>, unwrapped: Unwrapped) -> bool {
    match body {
        None => unwrapped matches Unwrapped::Success(value) && value@ is Null,
        Some(body) => if body.get("Ok"@) is Some {
            unwrapped matches Unwrapped::Success(value) && value@ == body.get("Ok"@)->0
        } else if body.get("Error"@) is Some {
            unwraps_error(body.get("Error"@)->0, unwrapped)
        } else if body.get("error"@) is Some {
            unwraps_error(body.get("error"@)->0, unwrapped)
        } else {
            unwrapped matches Unwrapped::Success(value) && value@ == body
        },
    }
}

/// A response is a success exactly where it says `Ok` or names no error. It is then the
/// value that it names, or all of it where it names none.
pub proof fn responses_succeed_unless_they_name_an_error(
    body: Option<JsonView>,
    unwrapped: Unwrapped,
)
    requires
        unwraps(body, unwrapped),
    ensures
        unwrapped is Success <==> body is None || body->0.get("Ok"@) is Some || (body->0.get(
            "Error"@,
        ) is None && body->0.get("error"@) is None),
        unwrapped matches Unwrapped::Success(value) ==> (body is None ==> value@ is Null) && (
        body is Some && body->0.get("Ok"@) is Some ==> value@ == body->0.get("Ok"@)->0) && (
        body is Some && body->0.get("Ok"@) is None ==> value@ == body->0),
        unwrapped matches Unwrapped::Failure(error) ==> {
            let named = if body->0.get("Error"@) is Some {
                body->0.get("Error"@)->0
            } else {
                body->0.get("error"@)->0
            };
            &&& named matches JsonView::Str(text) ==> error.message@ == text && error.code
                == ErrorCode::InvalidInput
            &&& !(named is Str) ==> named.get("message"@) == Some(JsonView::Str(error.message@))
        },
        unwrapped matches Unwrapped::Undecoded(raw) ==> body->0.get("Error"@) == Some(raw@)
            || body->0.get("error"@) == Some(raw@),
{
}

/// Unwrap a service response body. A missing body is a success without a value.
pub fn unwrap(body: Option<Json>) -> (unwrapped: Unwrapped)
    ensures
        unwraps(optional_contents(body), unwrapped),
{
    match body {
        None => Unwrapped::Success(Json::Null),
        Some(body) => {
            if let Some(value) = body.get("Ok") {
                return Unwrapped::Success(value.clone());
            }
            if let Some(error) = body.get("Error") {
                return decode_error(error);
            }
            if let Some(error) = body.get("error") {
                return decode_error(error);
            }
            Unwrapped::Success(body)
        },
    }
}

/// A `GetWindow` request body for one snapshot.
pub open spec fn window_request(
    snapshot_id: Seq<char>,
    offset: u64,
    limit: u64,
    include_layout: bool,
) -> JsonView {
    json::with_field(
        json::empty_object(),
        "GetWindow"@,
        json::with_field(
            json::with_field(
                json::with_field(
                    json::with_field(
                        json::empty_object(),
                        "snapshot_id"@,
                        JsonView::Str(snapshot_id),
                    ),
                    "offset"@,
                    json::unsigned_number(offset),
                ),
                "limit"@,
                json::unsigned_number(limit),
            ),
            "include_layout"@,
            JsonView::Bool(include_layout),
        ),
    )
}

/// Build a `GetWindow` request body for one snapshot.
pub fn get_window(snapshot_id: &SnapshotId, offset: u64, limit: u64, include_layout: bool) -> (
body: Json)
    ensures
        body@ == window_request(snapshot_id.value@, offset, limit, include_layout),
{
    let request = Json::object().with(
        "snapshot_id",
        Json::from_text(snapshot_id.as_str()),
    ).with("offset", Json::from_u64(offset)).with("limit", Json::from_u64(limit)).with(
        "include_layout",
        Json::Bool(include_layout),
    );
    Json::object().with("GetWindow", request)
}

/// A `FindInHistory` request body for one snapshot.
pub open spec fn find_request(snapshot_id: Seq<char>, query: Seq<char>, top_k: u64) -> JsonView {
    json::with_field(
        json::empty_object(),
        "FindInHistory"@,
        json::with_field(
            json::with_field(
                json::with_field(
                    json::empty_object(),
                    "snapshot_id"@,
                    JsonView::Str(snapshot_id),
                ),
                "query"@,
                JsonView::Str(query),
            ),
            "top_k"@,
            json::unsigned_number(top_k),
        ),
    )
}

/// Build a `FindInHistory` request body for one snapshot.
pub fn find_in_history(snapshot_id: &SnapshotId, query: &str, top_k: usize) -> (body: Json)
    ensures
        body@ == find_request(snapshot_id.value@, query@, top_k as u64),
{
    let request = Json::object().with(
        "snapshot_id",
        Json::from_text(snapshot_id.as_str()),
    ).with("query", Json::from_text(query)).with("top_k", Json::from_u64(top_k as u64));
    Json::object().with("FindInHistory", request)
}

/// Debug request log entry (envelope copy), so that probes can assert request
/// ordering and window offsets.
#[derive(Debug, Clone, PartialEq, Eq)]
pub struct LoggedRequest {
    pub id: u64,
    pub body: Json,
}

/// A control message of one text field.
pub open spec fn control(kind: Seq<char>, field: Seq<char>, text: Seq<char>) -> JsonView {
    json::with_field(
        json::with_field(json::empty_object(), "type"@, JsonView::Str(kind)),
        field,
        JsonView::Str(text),
    )
}

/// The envelope that a send posts. A refresh and a live settlement are calls of
/// the host interface of their own and post none.
pub open spec fn posts(send: Send) -> Option<JsonView> {
    match send {
        Send::Request { id, body } => Some(
            json::with_field(
                json::with_field(json::empty_object(), "id"@, json::unsigned_number(id)),
                "body"@,
                body@,
            ),
        ),
        Send::Log(text) => Some(control("log"@, "text"@, text@)),
        Send::Status { loaded, total } => Some(
            json::with_field(
                json::with_field(
                    json::with_field(
                        json::empty_object(),
                        "type"@,
                        JsonView::Str("status"@),
                    ),
                    "loaded"@,
                    json::unsigned_number(loaded),
                ),
                "total"@,
                json::unsigned_number(total),
            ),
        ),
        Send::StatusText(text) => Some(control("statusText"@, "text"@, text@)),
        Send::OpenJson(body) => Some(body@),
        Send::OpenDiff(body) => Some(body@),
        Send::WebviewReady(instance) => Some(control("webviewReady"@, "instanceId"@, instance@)),
        Send::RefreshHistory => None,
        Send::LiveSettled { .. } => None,
    }
}

/// The envelope that a send posts.
pub fn envelope(send: &Send) -> (envelope: Option<Json>)
    ensures
        optional_contents(envelope) == posts(*send),
{
    match send {
        Send::Request { id, body } => Some(
            Json::object().with("id", Json::from_u64(*id)).with("body", body.clone()),
        ),
        Send::Log(text) => Some(
            Json::object().with("type", Json::from_text("log")).with(
                "text",
                Json::from_text(text.as_str()),
            ),
        ),
        Send::Status { loaded, total } => Some(
            Json::object().with("type", Json::from_text("status")).with(
                "loaded",
                Json::from_u64(*loaded),
            ).with("total", Json::from_u64(*total)),
        ),
        Send::StatusText(text) => Some(
            Json::object().with("type", Json::from_text("statusText")).with(
                "text",
                Json::from_text(text.as_str()),
            ),
        ),
        Send::OpenJson(body) => Some(body.clone()),
        Send::OpenDiff(body) => Some(body.clone()),
        Send::WebviewReady(instance) => Some(
            Json::object().with("type", Json::from_text("webviewReady")).with(
                "instanceId",
                Json::from_text(instance.as_str()),
            ),
        ),
        Send::RefreshHistory => None,
        Send::LiveSettled { .. } => None,
    }
}

/// A host message with one of the three names is what the name says, and one with a
/// number is about the request of that number; no other identification is one of these.
pub proof fn messages_are_told_apart(value: JsonView, id: Id)
    requires
        identifies(value, id),
    ensures
        id is Open <==> value == JsonView::Str("open"@),
        id is Ready <==> value == JsonView::Str("ready"@),
        id is Reveal <==> value == JsonView::Str("reveal"@),
        id is Request <==> value is Number && value.unsigned() is Some,
        id matches Id::Request(request) ==> value.unsigned() == Some(request),
{
    reveal_strlit("open");
    reveal_strlit("ready");
    reveal_strlit("reveal");
    assert("open"@.len() == 4 && "ready"@.len() == 5 && "reveal"@.len() == 6);
}

/// An error that is a plain text is an invalid input of that text. One with a code is
/// stale or invalid as the code says, in its own words; any other code is not
/// understood.
pub proof fn errors_are_read_as_spelled(value: JsonView, message: Seq<char>)
    ensures
        value == JsonView::Str(message) ==> spelled_error(value) == Some(
            (ErrorCode::InvalidInput, message),
        ),
        value is Object && value.get("message"@) == Some(JsonView::Str(message)) ==> {
            &&& value.get("code"@) == Some(JsonView::Str("stale_snapshot"@)) ==> spelled_error(value)
                == Some((ErrorCode::StaleSnapshot, message))
            &&& value.get("code"@) == Some(JsonView::Str("invalid_input"@)) ==> spelled_error(value)
                == Some((ErrorCode::InvalidInput, message))
            &&& value.get("code"@) != Some(JsonView::Str("stale_snapshot"@)) && value.get("code"@)
                != Some(JsonView::Str("invalid_input"@)) ==> spelled_error(value) is None
        },
        !(value is Str) && !(value is Object) ==> spelled_error(value) is None,
        value is Object && !(value.get("message"@) is Some && value.get("message"@)->0 is Str)
            ==> spelled_error(value) is None,
{
    reveal_strlit("stale_snapshot");
    reveal_strlit("invalid_input");
    assert("stale_snapshot"@.len() == 14 && "invalid_input"@.len() == 13);
}

proof fn lemma_field_names()
    ensures
        "id"@ != "body"@,
        "type"@ != "text"@,
        "type"@ != "loaded"@,
        "type"@ != "total"@,
        "loaded"@ != "total"@,
        "type"@ != "instanceId"@,
{
    reveal_strlit("id");
    reveal_strlit("body");
    reveal_strlit("type");
    reveal_strlit("text");
    reveal_strlit("loaded");
    reveal_strlit("total");
    reveal_strlit("instanceId");
    assert("type"@[1] == 'y' && "text"@[1] == 'e');
    assert("id"@.len() == 2 && "body"@.len() == 4 && "loaded"@.len() == 6 && "total"@.len() == 5
        && "instanceId"@.len() == 10 && "type"@.len() == 4);
}

proof fn lemma_two_fields(a: Seq<char>, x: JsonView, b: Seq<char>, y: JsonView)
    requires
        a != b,
    ensures
        json::with_field(json::with_field(json::empty_object(), a, x), b, y).get(a) == Some(x),
        json::with_field(json::with_field(json::empty_object(), a, x), b, y).get(b) == Some(y),
{
    let one = json::with_field(json::empty_object(), a, x);
    json::added_fields_read_back(json::empty_object(), a, x, b);
    json::added_fields_read_back(json::empty_object(), a, x, a);
    json::added_fields_read_back(one, b, y, a);
}

/// What is posted says what is sent: a request its number and body, a message its type
/// and its text, a count how much of what was loaded. A record or a difference is posted
/// as it is, and what has a call of its own is not posted.
pub proof fn posts_say_what_is_sent(send: Send)
    ensures
        match send {
            Send::Request { id, body } => posts(send) is Some && posts(send)->0.get("id"@) == Some(
                json::unsigned_number(id),
            ) && posts(send)->0.get("body"@) == Some(body@),
            Send::Log(text) => posts(send) is Some && posts(send)->0.get("type"@) == Some(
                JsonView::Str("log"@),
            ) && posts(send)->0.get("text"@) == Some(JsonView::Str(text@)),
            Send::Status { loaded, total } => posts(send) is Some && posts(send)->0.get("type"@)
                == Some(JsonView::Str("status"@)) && posts(send)->0.get("loaded"@) == Some(
                json::unsigned_number(loaded),
            ) && posts(send)->0.get("total"@) == Some(json::unsigned_number(total)),
            Send::StatusText(text) => posts(send) is Some && posts(send)->0.get("type"@) == Some(
                JsonView::Str("statusText"@),
            ) && posts(send)->0.get("text"@) == Some(JsonView::Str(text@)),
            Send::OpenJson(body) => posts(send) == Some(body@),
            Send::OpenDiff(body) => posts(send) == Some(body@),
            Send::WebviewReady(instance) => posts(send) is Some && posts(send)->0.get("type"@)
                == Some(JsonView::Str("webviewReady"@)) && posts(send)->0.get("instanceId"@) == Some(
                JsonView::Str(instance@),
            ),
            Send::RefreshHistory => posts(send) is None,
            Send::LiveSettled { .. } => posts(send) is None,
        },
{
    lemma_field_names();
    match send {
        Send::Request { id, body } => {
            lemma_two_fields("id"@, json::unsigned_number(id), "body"@, body@);
        },
        Send::Log(text) => {
            lemma_two_fields("type"@, JsonView::Str("log"@), "text"@, JsonView::Str(text@));
        },
        Send::StatusText(text) => {
            lemma_two_fields("type"@, JsonView::Str("statusText"@), "text"@, JsonView::Str(text@));
        },
        Send::WebviewReady(instance) => {
            lemma_two_fields(
                "type"@,
                JsonView::Str("webviewReady"@),
                "instanceId"@,
                JsonView::Str(instance@),
            );
        },
        Send::Status { loaded, total } => {
            let two = json::with_field(
                json::with_field(json::empty_object(), "type"@, JsonView::Str("status"@)),
                "loaded"@,
                json::unsigned_number(loaded),
            );
            lemma_two_fields(
                "type"@,
                JsonView::Str("status"@),
                "loaded"@,
                json::unsigned_number(loaded),
            );
            json::added_fields_read_back(json::empty_object(), "type"@, JsonView::Str("status"@), "total"@);
            json::added_fields_read_back(
                json::with_field(json::empty_object(), "type"@, JsonView::Str("status"@)),
                "loaded"@,
                json::unsigned_number(loaded),
                "total"@,
            );
            json::added_fields_read_back(two, "total"@, json::unsigned_number(total), "type"@);
            json::added_fields_read_back(two, "total"@, json::unsigned_number(total), "loaded"@);
        },
        _ => {},
    }
}

/// A request for a window names its snapshot, the first row, the number of rows, and
/// whether the layout is wanted; one for a search names its snapshot, the query, and how
/// many results are wanted.
pub proof fn requests_name_what_they_ask_for(
    snapshot_id: Seq<char>,
    offset: u64,
    limit: u64,
    include_layout: bool,
    query: Seq<char>,
    top_k: u64,
)
    ensures
        window_request(snapshot_id, offset, limit, include_layout).get("GetWindow"@) == Some(
            JsonView::Object(
                seq![
                    ("snapshot_id"@, JsonView::Str(snapshot_id)),
                    ("offset"@, json::unsigned_number(offset)),
                    ("limit"@, json::unsigned_number(limit)),
                    ("include_layout"@, JsonView::Bool(include_layout)),
                ],
            ),
        ),
        find_request(snapshot_id, query, top_k).get("FindInHistory"@) == Some(
            JsonView::Object(
                seq![
                    ("snapshot_id"@, JsonView::Str(snapshot_id)),
                    ("query"@, JsonView::Str(query)),
                    ("top_k"@, json::unsigned_number(top_k)),
                ],
            ),
        ),
{
    let window = window_request(snapshot_id, offset, limit, include_layout);
    let find = find_request(snapshot_id, query, top_k);
    let asked = window->Object_0[0].1;
    let sought = find->Object_0[0].1;
    json::added_fields_read_back(json::empty_object(), "GetWindow"@, asked, "GetWindow"@);
    json::added_fields_read_back(json::empty_object(), "FindInHistory"@, sought, "FindInHistory"@);
    assert(asked->Object_0 =~= seq![
        ("snapshot_id"@, JsonView::Str(snapshot_id)),
        ("offset"@, json::unsigned_number(offset)),
        ("limit"@, json::unsigned_number(limit)),
        ("include_layout"@, JsonView::Bool(include_layout)),
    ]);
    assert(sought->Object_0 =~= seq![
        ("snapshot_id"@, JsonView::Str(snapshot_id)),
        ("query"@, JsonView::Str(query)),
        ("top_k"@, json::unsigned_number(top_k)),
    ]);
}

} // verus!
