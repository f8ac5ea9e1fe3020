//! Requests that carry the chain filter of the whole view.

use crate::host::optional_contents;
use crate::json::{self, Json, JsonView};
use vstd::prelude::*;

verus! {

/// Unwrapped service response body (`{ Ok: v } | { Error: msg }`, plus the legacy
/// lowercase `{ error: msg }` transport envelope).
#[derive(Debug, PartialEq, Eq)]
pub enum Unwrapped {
    Success(Json),
    Failure(String),
}

/// The message of an error payload: the text that it is, or the one that spells it.
pub open spec fn error_message(error: JsonView, spelling: Seq<char>) -> Seq<char> {
    match error {
        JsonView::Str(text) => text,
        _ => spelling,
    }
}

/// The message of an error payload that is spelled as given.
pub fn as_string(error: &Json, spelling: String) -> (message: String)
    ensures
        message@ == error_message(error@, spelling@),
{
    match error.as_str() {
        Some(text) => text.to_owned(),
        None => spelling,
    }
}

/// What a service response body unwraps to. A missing body is a success without a value;
/// an error that is no text is told by its JSON.
pub open spec fn unwraps(body: Option<JsonView>, unwrapped: Unwrapped) -> bool {
    match body {
        None => unwrapped matches Unwrapped::Success(value) && value@ is Null,
        Some(body) => if body.get("Ok"@) is Some {
            unwrapped matches Unwrapped::Success(value) && value@ == body.get("Ok"@)->0
        } else if body.get("Error"@) is Some {
            unwrapped matches Unwrapped::Failure(message) && message@ == error_message(
                body.get("Error"@)->0,
                json::encoded(body.get("Error"@)->0),
            )
        } else if body.get("error"@) is Some {
            unwrapped matches Unwrapped::Failure(message) && message@ == error_message(
                body.get("error"@)->0,
                json::encoded(body.get("error"@)->0),
            )
        } else {
            unwrapped matches Unwrapped::Success(value) && value@ == body
        },
    }
}

/// A response is a success exactly where it says `Ok` or names no error. It is then the
/// value that it names, or all of it where it names none; an error is told in its own
/// words where it is a text, and by its JSON otherwise.
pub proof fn responses_succeed_unless_they_name_an_error(
    body: Option<JsonView>,
    unwrapped: Unwrapped,
)
    requires
        unwraps(body, unwrapped),
    ensures
        unwrapped is Success <==> body is None || body->0.get("Ok"@) is Some || (body->0.get(
            "Error"@,
        ) is None && body->0.get("error"@) is None),
        unwrapped matches Unwrapped::Success(value) ==> (body is None ==> value@ is Null) && (
        body is Some && body->0.get("Ok"@) is Some ==> value@ == body->0.get("Ok"@)->0) && (
        body is Some && body->0.get("Ok"@) is None ==> value@ == body->0),
        unwrapped matches Unwrapped::Failure(message) ==> {
            let named = if body->0.get("Error"@) is Some {
                body->0.get("Error"@)->0
            } else {
                body->0.get("error"@)->0
            };
            message@ == (if named is Str {
                named->Str_0
            } else {
                json::encoded(named)
            })
        },
{
}

/// Unwrap a service response body. A missing body is a success without a value; an
/// error that is no text is told by its JSON.
pub fn unwrap(body: Option<Json>) -> (unwrapped: Unwrapped)
    ensures
        unwraps(optional_contents(body), unwrapped),
{
    match body {
        None => Unwrapped::Success(Json::Null),
        Some(body) => {
            if let Some(value) = body.get("Ok") {
                return Unwrapped::Success(value.clone());
            }
            if let Some(error) = body.get("Error") {
                return Unwrapped::Failure(as_string(error, error.encode()));
            }
            if let Some(error) = body.get("error") {
                return Unwrapped::Failure(as_string(error, error.encode()));
            }
            Unwrapped::Success(body)
        },
    }
}

/// The fixed chain filter sent with every window and find request.
#[derive(Debug, Clone, PartialEq, Eq)]
pub struct ChainFilter {
    pub summary_pattern: String,
    pub kind_pattern: String,
    pub include_kind_pattern: String,
    pub hide_undated: bool,
    pub splice: bool,
    pub hide_trace: bool,
}

/// Fixed submodule hiding for every window request.
pub const HIDE_SUBMODULES: bool = true;

impl ChainFilter {
    /// The filter as a payload.
    pub open spec fn payload(self) -> JsonView {
        json::with_field(
            json::with_field(
                json::with_field(
                    json::with_field(
                        json::with_field(
                            json::with_field(
                                json::empty_object(),
                                "summary_pattern"@,
                                JsonView::Str(self.summary_pattern@),
                            ),
                            "kind_pattern"@,
                            JsonView::Str(self.kind_pattern@),
                        ),
                        "include_kind_pattern"@,
                        JsonView::Str(self.include_kind_pattern@),
                    ),
                    "hide_undated"@,
                    JsonView::Bool(self.hide_undated),
                ),
                "splice"@,
                JsonView::Bool(self.splice),
            ),
            "hide_trace"@,
            JsonView::Bool(self.hide_trace),
        )
    }

    pub fn to_json(&self) -> (json: Json)
        ensures
            json@ == self.payload(),
    {
        Json::object().with(
            "summary_pattern",
            Json::from_text(self.summary_pattern.as_str()),
        ).with("kind_pattern", Json::from_text(self.kind_pattern.as_str())).with(
            "include_kind_pattern",
            Json::from_text(self.include_kind_pattern.as_str()),
        ).with("hide_undated", Json::Bool(self.hide_undated)).with(
            "splice",
            Json::Bool(self.splice),
        ).with("hide_trace", Json::Bool(self.hide_trace))
    }
}

/// A `GetWindow` request body.
pub open spec fn window_request(
    offset: i64,
    limit: i64,
    filter: ChainFilter,
    include_layout: bool,
) -> JsonView {
    json::with_field(
        json::empty_object(),
        "GetWindow"@,
        json::with_field(
            json::with_field(
                json::with_field(
                    json::with_field(
                        json::with_field(
                            json::empty_object(),
                            "offset"@,
                            json::signed_number(offset),
                        ),
                        "limit"@,
                        json::signed_number(limit),
                    ),
                    "hide_submodules"@,
                    JsonView::Bool(HIDE_SUBMODULES),
                ),
                "filter"@,
                filter.payload(),
            ),
            "include_layout"@,
            JsonView::Bool(include_layout),
        ),
    )
}

/// Build a `GetWindow` request body.
pub fn get_window(offset: i64, limit: i64, filter: &ChainFilter, include_layout: bool) -> (
body: Json)
    ensures
        body@ == window_request(offset, limit, *filter, include_layout),
{
    let request = Json::object().with("offset", Json::from_i64(offset)).with(
        "limit",
        Json::from_i64(limit),
    ).with("hide_submodules", Json::Bool(HIDE_SUBMODULES)).with("filter", filter.to_json()).with(
        "include_layout",
        Json::Bool(include_layout),
    );
    Json::object().with("GetWindow", request)
}

/// A `FindInHistory` request body.
pub open spec fn find_request(
    query: Seq<char>,
    top_k: i64,
    filter: ChainFilter,
    hide_submodules: bool,
) -> JsonView {
    json::with_field(
        json::empty_object(),
        "FindInHistory"@,
        json::with_field(
            json::with_field(
                json::with_field(
                    json::with_field(
                        json::with_field(
                            json::empty_object(),
                            "query"@,
                            JsonView::Str(query),
                        ),
                        "top_k"@,
                        json::signed_number(top_k),
                    ),
                    "filters"@,
                    json::empty_object(),
                ),
                "filter"@,
                filter.payload(),
            ),
            "hide_submodules"@,
            JsonView::Bool(hide_submodules),
        ),
    )
}

/// Build a `FindInHistory` request body.
pub fn find_in_history(query: &str, top_k: i64, filter: &ChainFilter, hide_submodules: bool) -> (
body: Json)
    ensures
        body@ == find_request(query@, top_k, *filter, hide_submodules),
{
    let request = Json::object().with("query", Json::from_text(query)).with(
        "top_k",
        Json::from_i64(top_k),
    ).with("filters", Json::object()).with("filter", filter.to_json()).with(
        "hide_submodules",
        Json::Bool(hide_submodules),
    );
    Json::object().with("FindInHistory", request)
}

/// A legacy flat-list `Search` request body.
pub open spec fn search_request(query: Seq<char>, top_k: i64) -> JsonView {
    json::with_field(
        json::empty_object(),
        "Search"@,
        json::with_field(
            json::with_field(
                json::with_field(
                    json::with_field(
                        json::empty_object(),
                        "query"@,
                        JsonView::Str(query),
                    ),
                    "mode"@,
                    JsonView::Str("Lexical"@),
                ),
                "top_k"@,
                json::signed_number(top_k),
            ),
            "filters"@,
            json::empty_object(),
        ),
    )
}

/// Build a legacy flat-list `Search` request body.
pub fn search(query: &str, top_k: i64) -> (body: Json)
    ensures
        body@ == search_request(query@, top_k),
{
    let request = Json::object().with("query", Json::from_text(query)).with(
        "mode",
        Json::from_text("Lexical"),
    ).with("top_k", Json::from_i64(top_k)).with("filters", Json::object());
    Json::object().with("Search", request)
}

/// An error that is a text is told in its own words, any other one by its spelling.
pub proof fn errors_are_told_in_their_words(error: JsonView, spelling: Seq<char>)
    ensures
        error.text() is Some ==> error_message(error, spelling) == error.text()->0,
        error.text() is None ==> error_message(error, spelling) == spelling,
{
}

/// The payload of a filter has each of its fields under its own name.
pub proof fn filters_name_their_fields(filter: ChainFilter)
    ensures
        filter.payload() is Object,
        filter.payload()->Object_0 == seq![
            ("summary_pattern"@, JsonView::Str(filter.summary_pattern@)),
            ("kind_pattern"@, JsonView::Str(filter.kind_pattern@)),
            ("include_kind_pattern"@, JsonView::Str(filter.include_kind_pattern@)),
            ("hide_undated"@, JsonView::Bool(filter.hide_undated)),
            ("splice"@, JsonView::Bool(filter.splice)),
            ("hide_trace"@, JsonView::Bool(filter.hide_trace)),
        ],
{
    assert(filter.payload()->Object_0 =~= seq![
        ("summary_pattern"@, JsonView::Str(filter.summary_pattern@)),
        ("kind_pattern"@, JsonView::Str(filter.kind_pattern@)),
        ("include_kind_pattern"@, JsonView::Str(filter.include_kind_pattern@)),
        ("hide_undated"@, JsonView::Bool(filter.hide_undated)),
        ("splice"@, JsonView::Bool(filter.splice)),
        ("hide_trace"@, JsonView::Bool(filter.hide_trace)),
    ]);
}

/// A request names what it asks for: a window its first row and its length, a search its
/// query and how many results are wanted. Windows and finds carry the filter, and windows
/// hide submodules.
pub proof fn requests_name_what_they_ask_for(
    offset: i64,
    limit: i64,
    filter: ChainFilter,
    include_layout: bool,
    query: Seq<char>,
    top_k: i64,
    hide_submodules: bool,
)
    ensures
        window_request(offset, limit, filter, include_layout).get("GetWindow"@) == Some(
            JsonView::Object(
                seq![
                    ("offset"@, json::signed_number(offset)),
                    ("limit"@, json::signed_number(limit)),
                    ("hide_submodules"@, JsonView::Bool(true)),
                    ("filter"@, filter.payload()),
                    ("include_layout"@, JsonView::Bool(include_layout)),
                ],
            ),
        ),
        find_request(query, top_k, filter, hide_submodules).get("FindInHistory"@) == Some(
            JsonView::Object(
                seq![
                    ("query"@, JsonView::Str(query)),
                    ("top_k"@, json::signed_number(top_k)),
                    ("filters"@, json::empty_object()),
                    ("filter"@, filter.payload()),
                    ("hide_submodules"@, JsonView::Bool(hide_submodules)),
                ],
            ),
        ),
        search_request(query, top_k).get("Search"@) == Some(
            JsonView::Object(
                seq![
                    ("query"@, JsonView::Str(query)),
                    ("mode"@, JsonView::Str("Lexical"@)),
                    ("top_k"@, json::signed_number(top_k)),
                    ("filters"@, json::empty_object()),
                ],
            ),
        ),
{
    let asked = window_request(offset, limit, filter, include_layout)->Object_0[0].1;
    let sought = find_request(query, top_k, filter, hide_submodules)->Object_0[0].1;
    let listed = search_request(query, top_k)->Object_0[0].1;
    json::added_fields_read_back(json::empty_object(), "GetWindow"@, asked, "GetWindow"@);
    json::added_fields_read_back(json::empty_object(), "FindInHistory"@, sought, "FindInHistory"@);
    json::added_fields_read_back(json::empty_object(), "Search"@, listed, "Search"@);
    assert(asked->Object_0 =~= seq![
        ("offset"@, json::signed_number(offset)),
        ("limit"@, json::signed_number(limit)),
        ("hide_submodules"@, JsonView::Bool(true)),
        ("filter"@, filter.payload()),
        ("include_layout"@, JsonView::Bool(include_layout)),
    ]);
    assert(sought->Object_0 =~= seq![
        ("query"@, JsonView::Str(query)),
        ("top_k"@, json::signed_number(top_k)),
        ("filters"@, json::empty_object()),
        ("filter"@, filter.payload()),
        ("hide_submodules"@, JsonView::Bool(hide_submodules)),
    ]);
    assert(listed->Object_0 =~= seq![
        ("query"@, JsonView::Str(query)),
        ("mode"@, JsonView::Str("Lexical"@)),
        ("top_k"@, json::signed_number(top_k)),
        ("filters"@, json::empty_object()),
    ]);
}

} // verus!
