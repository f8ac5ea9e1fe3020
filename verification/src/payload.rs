//! Compact labels for the payloads of tools.

use crate::chars;
use crate::json::{self, Json, JsonView};
use crate::row;
use crate::text::{self, chars_of, chars_start_with, same_text, string_of};
use vstd::prelude::*;

verus! {

/// The text of a row's summary.
pub open spec fn source_of(row: JsonView) -> Seq<char> {
    match row.get("summary"@) {
        Some(value) => if value.truthy() {
            value.spelled()
        } else {
            "(no summary)"@
        },
        None => "(no summary)"@,
    }
}

/// The text of a row's summary.
pub fn summary_source(row: &Json) -> (source: String)
    ensures
        source@ == source_of(row@),
{
    match row.get("summary") {
        Some(value) => if value.is_truthy() {
            value.to_text()
        } else {
            "(no summary)".to_owned()
        },
        None => "(no summary)".to_owned(),
    }
}

/// Whether a row is an action or a result of a tool that runs something.
pub open spec fn operational(row: JsonView) -> bool {
    let role = row::text_of(row, "record_role"@);
    let kind = row::text_of(row, "kind"@);
    let tool = kind == "tool"@ || kind == "command"@;
    &&& role == "action"@ || role == "result"@ || tool
    &&& row::text_of(row, "activity_kind"@) == "execute"@ || row::truth_of(row, "is_system"@)
        || tool
}

/// Whether a row is an action or a result of a tool that runs something.
pub fn toolish_row(row: &Json) -> (yes: bool)
    ensures
        yes == operational(row@),
{
    let role = row::text(row, "record_role");
    let kind = row::text(row, "kind");
    let tool = same_text(kind, "tool") || same_text(kind, "command");
    (same_text(role, "action") || same_text(role, "result") || tool) && (same_text(
        row::text(row, "activity_kind"),
        "execute",
    ) || row::truth(row, "is_system") || tool)
}

/// Whether a text starts like a JSON list or object.
pub open spec fn starts_container(payload: Seq<char>) -> bool {
    let first = chars::white_end(payload, 0);
    let second = chars::white_end(payload, first + 1);
    &&& first < payload.len() && second < payload.len()
    &&& payload[first] == '[' && (payload[second] == '{' || payload[second] == '"'
        || payload[second] == ']') || payload[first] == '{' && (payload[second] == '"'
        || payload[second] == '}')
}

/// Whether a text starts like JSON: a list, an object, or a string.
pub open spec fn starts_json(payload: Seq<char>) -> bool {
    let first = chars::white_end(payload, 0);
    starts_container(payload) || (first < payload.len() && payload[first] == '"')
}

fn opens_container(payload: &[char]) -> (yes: bool)
    ensures
        yes == starts_container(payload@),
{
    let first: usize = chars::end_of_white(payload, 0);
    if first >= payload.len() {
        return false;
    }
    let second: usize = chars::end_of_white(payload, first + 1);
    if second >= payload.len() {
        return false;
    }
    let a: char = payload[first];
    let b: char = payload[second];
    (a == '[' && (b == '{' || b == '"' || b == ']')) || (a == '{' && (b == '"' || b == '}'))
}

fn opens_json(payload: &[char]) -> (yes: bool)
    ensures
        yes == starts_json(payload@),
{
    if opens_container(payload) {
        return true;
    }
    let first: usize = chars::end_of_white(payload, 0);
    first < payload.len() && payload[first] == '"'
}

/// The number of fields that hold text in the payloads of tools.
pub const TEXT_KEYS: usize = 15;

/// The fields that hold text in the payloads of tools, in the order they are read.
pub open spec fn text_key(i: int) -> Seq<char> {
    seq![
        "text"@,
        "output_text"@,
        "input_text"@,
        "message"@,
        "summary"@,
        "output"@,
        "content"@,
        "status"@,
        "completed"@,
        "failed"@,
        "error"@,
        "cmd"@,
        "command"@,
        "query"@,
        "path"@,
    ][i]
}

fn text_key_of(i: usize) -> (key: &'static str)
    requires
        i < TEXT_KEYS,
    ensures
        key@ == text_key(i as int),
{
    match i {
        0 => "text",
        1 => "output_text",
        2 => "input_text",
        3 => "message",
        4 => "summary",
        5 => "output",
        6 => "content",
        7 => "status",
        8 => "completed",
        9 => "failed",
        10 => "error",
        11 => "cmd",
        12 => "command",
        13 => "query",
        _ => "path",
    }
}

/// The first `n` text fields that a payload has.
pub open spec fn text_fields(value: JsonView, n: int) -> Seq<JsonView>
    decreases n,
{
    if n <= 0 {
        Seq::empty()
    } else {
        match value.get(text_key(n - 1)) {
            Some(item) => text_fields(value, n - 1).push(item),
            None => text_fields(value, n - 1),
        }
    }
}

/// What a payload leads to: the items of a list, the text fields of an object.
pub open spec fn inside(value: JsonView) -> Seq<JsonView> {
    match value {
        JsonView::Array(items) => items,
        JsonView::Object(_) => text_fields(value, TEXT_KEYS as int),
        _ => Seq::empty(),
    }
}

/// How many payloads are looked at, with one to spare.
pub const VISITS: usize = 48;

/// The first text that says something, looking at the pending payloads in turn
/// and at what they lead to behind them.
pub open spec fn first_text(pending: Seq<JsonView>, visits: int) -> Seq<char>
    decreases VISITS - visits,
{
    if pending.len() == 0 || visits + 1 >= VISITS {
        Seq::empty()
    } else if pending[0] is Str && chars::trim(pending[0]->Str_0).len() > 0 {
        pending[0]->Str_0
    } else {
        first_text(pending.skip(1) + inside(pending[0]), visits + 1)
    }
}

/// The contents of pending payloads from a place on.
spec fn waiting(pending: Seq<&Json>, head: int) -> Seq<JsonView> {
    Seq::new((pending.len() - head) as nat, |i: int| pending[head + i]@)
}

/// The first text that says something in the payload of a tool.
pub fn first_tool_payload_text(value: &Json) -> (out: String)
    ensures
        out@ == first_text(seq![value@], 0),
{
    let mut pending: Vec<&Json> = Vec::new();
    pending.push(value);
    let mut head: usize = 0;
    assert(waiting(pending@, 0) =~= seq![value@]);
    while head < pending.len() && head + 1 < VISITS
        invariant
            head <= pending@.len(),
            head + 1 <= VISITS,
            first_text(waiting(pending@, head as int), head as int) == first_text(seq![value@], 0),
        decreases VISITS - head,
    {
        let current: &Json = pending[head];
        let ghost queue = waiting(pending@, head as int);
        assert(queue[0] == current@);
        if let Json::Str(text) = current {
            let trimmed = chars::trimmed(chars_of(text.as_str()).as_slice());
            if trimmed.len() > 0 {
                return text.clone();
            }
        }
        let ghost rest = waiting(pending@, head + 1);
        assert(rest =~= queue.skip(1));
        match current {
            Json::Array(items) => {
                let ghost all = current@->Array_0;
                let mut i: usize = 0;
                assert(waiting(pending@, head + 1) =~= rest + all.take(0));
                while i < items.len()
                    invariant
                        i <= items.len(),
                        head < pending@.len(),
                        all.len() == items.len(),
                        forall|k: int| 0 <= k < items.len() ==> #[trigger] all[k] == items@[k]@,
                        waiting(pending@, head + 1) == rest + all.take(i as int),
                    decreases items.len() - i,
                {
                    let ghost before = pending@;
                    assert(all[i as int] == items@[i as int]@);
                    pending.push(&items[i]);
                    assert(waiting(pending@, head + 1) =~= waiting(before, head + 1).push(
                        all[i as int],
                    ));
                    assert(all.take(i + 1) =~= all.take(i as int).push(all[i as int]));
                    assert(waiting(pending@, head + 1) =~= rest + all.take(i + 1));
                    i = i + 1;
                }
                assert(all.take(i as int) =~= all);
            },
            Json::Object(_) => {
                let mut i: usize = 0;
                assert(waiting(pending@, head + 1) =~= rest + text_fields(current@, 0));
                while i < TEXT_KEYS
                    invariant
                        i <= TEXT_KEYS,
                        head < pending@.len(),
                        waiting(pending@, head + 1) == rest + text_fields(current@, i as int),
                    decreases TEXT_KEYS - i,
                {
                    let ghost before = pending@;
                    if let Some(item) = current.get(text_key_of(i)) {
                        pending.push(item);
                        assert(waiting(pending@, head + 1) =~= waiting(before, head + 1).push(
                            item@,
                        ));
                        assert(waiting(pending@, head + 1) =~= rest + text_fields(current@, i + 1));
                    }
                    i = i + 1;
                }
            },
            _ => {},
        }
        assert(waiting(pending@, head + 1) =~= queue.skip(1) + inside(queue[0]));
        head = head + 1;
    }
    assert(waiting(pending@, head as int).len() == 0 || head + 1 >= VISITS);
    let out = String::new();
    assert(out@ =~= Seq::empty());
    out
}

/// Where a quoted text that starts at `from` ends; a backslash escapes the
/// character behind it.
pub open spec fn quote_end(source: Seq<char>, from: int) -> Option<int>
    decreases source.len() - from,
{
    if from < 0 || from >= source.len() {
        None
    } else if source[from] == '\\' {
        if from + 1 < source.len() {
            quote_end(source, from + 2)
        } else {
            None
        }
    } else if source[from] == '"' {
        Some(from)
    } else {
        quote_end(source, from + 1)
    }
}

/// Where one of the first `n` text fields, quoted from `at` on, ends.
pub open spec fn key_end(source: Seq<char>, at: int, n: int) -> Option<int>
    decreases n,
{
    if n <= 0 {
        None
    } else {
        let end = at + 1 + text_key(n - 1).len();
        match key_end(source, at, n - 1) {
            Some(end) => Some(end),
            None => if text::stands_at(source, at + 1, text_key(n - 1)) && end < source.len()
                && source[end] == '"' {
                Some(end + 1)
            } else {
                None
            },
        }
    }
}

/// The value of a text field that is quoted at a place: where it starts and ends.
pub open spec fn field_at(source: Seq<char>, at: int) -> Option<(int, int)> {
    match key_end(source, at, TEXT_KEYS as int) {
        Some(end) => {
            let colon = chars::white_end(source, end);
            let open = chars::white_end(source, colon + 1);
            if source[at] == '"' && colon < source.len() && source[colon] == ':' && open
                < source.len() && source[open] == '"' {
                match quote_end(source, open + 1) {
                    Some(close) => Some((open + 1, close)),
                    None => None,
                }
            } else {
                None
            }
        },
        None => None,
    }
}

/// A quoted text with its line breaks, quotation marks, and backslashes restored.
pub open spec fn unescaped(encoded: Seq<char>) -> Seq<char> {
    let text = chars::replaced(encoded, "\\r\\n"@, "\n"@, 0);
    let text = chars::replaced(text, "\\n"@, "\n"@, 0);
    let text = chars::replaced(text, "\\r"@, "\n"@, 0);
    let text = chars::replaced(text, "\\\""@, "\""@, 0);
    chars::replaced(text, "\\\\"@, "\\"@, 0)
}

/// The first text field from a place on of a payload that was cut short.
pub open spec fn recovered(source: Seq<char>, at: int) -> Seq<char>
    decreases source.len() - at,
{
    if at < 0 || at >= source.len() {
        Seq::empty()
    } else {
        match field_at(source, at) {
            Some((from, to)) => unescaped(source.subrange(from, to)),
            None => recovered(source, at + 1),
        }
    }
}

fn find_quote_end(source: &[char], from: usize) -> (end: Option<usize>)
    requires
        from <= source@.len(),
    ensures
        match end {
            Some(end) => quote_end(source@, from as int) == Some(end as int) && from <= end && end
                < source@.len(),
            None => quote_end(source@, from as int) is None,
        },
{
    let mut i: usize = from;
    while i < source.len()
        invariant
            from <= i <= source@.len(),
            quote_end(source@, from as int) == quote_end(source@, i as int),
        decreases source.len() - i,
    {
        if source[i] == '\\' {
            if source.len() - i > 1 {
                i = i + 2;
            } else {
                return None;
            }
        } else if source[i] == '"' {
            return Some(i);
        } else {
            i = i + 1;
        }
    }
    None
}

fn find_key_end(source: &[char], at: usize) -> (end: Option<usize>)
    requires
        at < source@.len(),
    ensures
        match end {
            Some(end) => key_end(source@, at as int, TEXT_KEYS as int) == Some(end as int) && end
                <= source@.len(),
            None => key_end(source@, at as int, TEXT_KEYS as int) is None,
        },
{
    let mut i: usize = 0;
    while i < TEXT_KEYS
        invariant
            i <= TEXT_KEYS,
            at < source@.len(),
            key_end(source@, at as int, i as int) is None,
        decreases TEXT_KEYS - i,
    {
        let key = chars_of(text_key_of(i));
        let n: usize = source.len();
        if chars_start_with(source, at + 1, key.as_slice()) {
            let end: usize = at + 1 + key.len();
            if end < n && source[end] == '"' {
                proof {
                    keys_stay_found(source@, at as int, i + 1, TEXT_KEYS as int);
                }
                return Some(end + 1);
            }
        }
        i = i + 1;
    }
    None
}

proof fn keys_stay_found(source: Seq<char>, at: int, a: int, b: int)
    requires
        a <= b,
        key_end(source, at, a) is Some,
    ensures
        key_end(source, at, b) == key_end(source, at, a),
    decreases b - a,
{
    if a < b && b > 0 {
        keys_stay_found(source, at, a, b - 1);
    }
}

fn find_field(source: &[char], at: usize) -> (found: Option<(usize, usize)>)
    requires
        at < source@.len(),
    ensures
        match found {
            Some((from, to)) => field_at(source@, at as int) == Some((from as int, to as int))
                && from <= to <= source@.len(),
            None => field_at(source@, at as int) is None,
        },
{
    if source[at] != '"' {
        return None;
    }
    match find_key_end(source, at) {
        Some(end) => {
            let colon: usize = chars::end_of_white(source, end);
            if colon >= source.len() || source[colon] != ':' {
                return None;
            }
            let open: usize = chars::end_of_white(source, colon + 1);
            if open >= source.len() || source[open] != '"' {
                return None;
            }
            match find_quote_end(source, open + 1) {
                Some(close) => Some((open + 1, close)),
                None => None,
            }
        },
        None => None,
    }
}

fn swap_text(source: &[char], part: &str, with: &str) -> (out: Vec<char>)
    requires
        part@.len() > 0,
    ensures
        out@ == chars::replaced(source@, part@, with@, 0),
{
    let part = chars_of(part);
    let with = chars_of(with);
    chars::replace(source, part.as_slice(), with.as_slice())
}

/// A quoted text with its line breaks, quotation marks, and backslashes restored.
fn unescape(encoded: &[char]) -> (out: Vec<char>)
    ensures
        out@ == unescaped(encoded@),
{
    proof {
        reveal_strlit("\\r\\n");
        reveal_strlit("\\n");
        reveal_strlit("\\r");
        reveal_strlit("\\\"");
        reveal_strlit("\\\\");
    }
    let text = swap_text(encoded, "\\r\\n", "\n");
    let text = swap_text(text.as_slice(), "\\n", "\n");
    let text = swap_text(text.as_slice(), "\\r", "\n");
    let text = swap_text(text.as_slice(), "\\\"", "\"");
    swap_text(text.as_slice(), "\\\\", "\\")
}

/// The first text field of a payload that was cut short.
pub fn recovery_text(source: &str) -> (out: String)
    ensures
        out@ == recovered(source@, 0),
{
    let all = chars_of(source);
    let mut at: usize = 0;
    while at < all.len()
        invariant
            at <= all@.len(),
            all@ == source@,
            recovered(source@, 0) == recovered(source@, at as int),
        decreases all.len() - at,
    {
        if let Some((from, to)) = find_field(all.as_slice(), at) {
            let encoded = chars::slice_of(all.as_slice(), from, to);
            let text = unescape(encoded.as_slice());
            return string_of(text.as_slice());
        }
        at = at + 1;
    }
    let out = String::new();
    assert(out@ =~= Seq::empty());
    out
}

/// The text within a payload that is itself JSON.
pub open spec fn nested(parsed: Option<JsonView>) -> Option<Seq<char>> {
    match parsed {
        Some(JsonView::Str(inner)) => if starts_container(chars::trim(inner)) {
            Some(chars::trim(inner))
        } else {
            None
        },
        _ => None,
    }
}

/// The text of a payload, given what it says as JSON and what the text within it
/// says as JSON.
pub open spec fn payload_text_from(
    source: Seq<char>,
    parsed: Option<JsonView>,
    inner: Option<JsonView>,
) -> Seq<char> {
    if nested(parsed) is Some {
        match inner {
            Some(value) => first_text(seq![value], 0),
            None => recovered(source, 0),
        }
    } else {
        match parsed {
            Some(value) => first_text(seq![value], 0),
            None => recovered(source, 0),
        }
    }
}

/// The contents of what a text says as JSON.
pub open spec fn said(json: Option<&Json>) -> Option<JsonView> {
    match json {
        Some(json) => Some(json@),
        None => None,
    }
}

/// The text within a payload that is itself JSON.
pub fn nested_payload(parsed: Option<&Json>) -> (text: Option<String>)
    ensures
        match text {
            Some(text) => nested(said(parsed)) == Some(text@),
            None => nested(said(parsed)) is None,
        },
{
    match parsed {
        Some(Json::Str(inner)) => {
            let trimmed = chars::trimmed(chars_of(inner.as_str()).as_slice());
            if opens_container(trimmed.as_slice()) {
                Some(string_of(trimmed.as_slice()))
            } else {
                None
            }
        },
        _ => None,
    }
}

/// The text of a payload, given what it says as JSON and what the text within it
/// says as JSON.
pub fn tool_payload_text(source: &str, parsed: Option<&Json>, inner: Option<&Json>) -> (out: String)
    ensures
        out@ == payload_text_from(source@, said(parsed), said(inner)),
{
    if nested_payload(parsed).is_some() {
        match inner {
            Some(value) => first_tool_payload_text(value),
            None => recovery_text(source),
        }
    } else {
        match parsed {
            Some(value) => first_tool_payload_text(value),
            None => recovery_text(source),
        }
    }
}

/// The text of a payload.
pub open spec fn payload_text(value: Seq<char>) -> Seq<char> {
    let source = chars::trim(value);
    let parsed = json::decoded(source);
    payload_text_from(
        source,
        parsed,
        match nested(parsed) {
            Some(text) => json::decoded(text),
            None => None,
        },
    )
}

/// The text of a payload.
pub fn decoded_tool_payload_text(value: &str) -> (out: String)
    ensures
        out@ == payload_text(value@),
{
    let trimmed = chars::trimmed(chars_of(value).as_slice());
    let source = string_of(trimmed.as_slice());
    let parsed = Json::parse(source.as_str());
    let inner = match nested_payload(parsed.as_ref()) {
        Some(text) => Json::parse(text.as_str()),
        None => None,
    };
    tool_payload_text(source.as_str(), parsed.as_ref(), inner.as_ref())
}

/// How a script ended.
#[derive(Debug, Clone, Copy, PartialEq, Eq, Structural)]
pub enum ScriptStatus {
    Completed,
    Failed,
    Running,
}

/// Whether a word stands at a place, in any case, and ends there.
pub open spec fn word_at(line: Seq<char>, at: int, word: Seq<char>) -> bool {
    &&& 0 <= at && at + word.len() <= line.len()
    &&& forall|i: int| 0 <= i < word.len() ==> chars::lower(line[at + i]) == #[trigger] word[i]
    &&& at + word.len() == line.len() || !chars::member(
        chars::Class::Word,
        line[at + word.len()],
    )
}

/// The status that a line such as `Script completed` reports.
pub open spec fn script_status(line: Seq<char>) -> Option<ScriptStatus> {
    let at = chars::white_end(line, 6);
    if !(word_at(line, 0, "script"@) && at > 6) {
        None
    } else if word_at(line, at, "completed"@) {
        Some(ScriptStatus::Completed)
    } else if word_at(line, at, "failed"@) {
        Some(ScriptStatus::Failed)
    } else if word_at(line, at, "running"@) {
        Some(ScriptStatus::Running)
    } else {
        None
    }
}

fn is_word_at(line: &[char], at: usize, word: &str) -> (yes: bool)
    ensures
        yes == word_at(line@, at as int, word@),
{
    let letters = chars_of(word);
    let n: usize = line.len();
    if at > n || n - at < letters.len() {
        return false;
    }
    let mut i: usize = 0;
    while i < letters.len()
        invariant
            i <= letters@.len(),
            letters@ == word@,
            n == line@.len(),
            at + letters@.len() <= n,
            forall|k: int| 0 <= k < i ==> chars::lower(line@[at + k]) == #[trigger] letters@[k],
        decreases letters.len() - i,
    {
        if chars::to_lower(line[at + i]) != letters[i] {
            assert(chars::lower(line@[at + i]) != word@[i as int]);
            return false;
        }
        i = i + 1;
    }
    at + letters.len() == n || !chars::is_member(chars::Class::Word, line[at + letters.len()])
}

/// The status that a line reports.
fn script_status_of(line: &[char]) -> (status: Option<ScriptStatus>)
    ensures
        status == script_status(line@),
{
    proof {
        reveal_strlit("script");
    }
    if !is_word_at(line, 0, "script") {
        return None;
    }
    let at: usize = chars::end_of_white(line, 6);
    if at == 6 {
        None
    } else if is_word_at(line, at, "completed") {
        Some(ScriptStatus::Completed)
    } else if is_word_at(line, at, "failed") {
        Some(ScriptStatus::Failed)
    } else if is_word_at(line, at, "running") {
        Some(ScriptStatus::Running)
    } else {
        None
    }
}

/// The first status among the lines from `from` on.
pub open spec fn first_status(lines: Seq<Seq<char>>, from: int) -> Option<ScriptStatus>
    decreases lines.len() - from,
{
    if from < 0 || from >= lines.len() {
        None
    } else {
        match script_status(chars::trim(lines[from])) {
            Some(status) => Some(status),
            None => first_status(lines, from + 1),
        }
    }
}

/// The first line from `from` on that is not blank, its words one blank apart.
pub open spec fn first_words(lines: Seq<Seq<char>>, from: int) -> Seq<char>
    decreases lines.len() - from,
{
    if from < 0 || from >= lines.len() {
        Seq::empty()
    } else if chars::trim(lines[from]).len() > 0 {
        chars::squeezed(chars::trim(lines[from]))
    } else {
        first_words(lines, from + 1)
    }
}

/// The output of a tool in a few words: the status it reports, or its first line.
pub open spec fn concise(value: Seq<char>) -> Seq<char> {
    let lines = chars::lines(value);
    match first_status(lines, 0) {
        Some(ScriptStatus::Completed) => "Script completed"@,
        Some(ScriptStatus::Failed) => "Script failed"@,
        Some(ScriptStatus::Running) => "Script running"@,
        None => first_words(lines, 0),
    }
}

/// The output of a tool in a few words.
pub fn concise_tool_text(value: &str) -> (out: String)
    ensures
        out@ == concise(value@),
{
    let text = chars_of(value);
    let parts = chars::split_lines(text.as_slice());
    let ghost lines = chars::lines(value@);
    let mut status: Option<ScriptStatus> = None;
    let mut i: usize = 0;
    while i < parts.len() && status.is_none()
        invariant
            i <= parts.len(),
            chars::views(parts@) == lines,
            match status {
                Some(status) => first_status(lines, 0) == Some(status),
                None => first_status(lines, 0) == first_status(lines, i as int),
            },
        decreases parts.len() - i,
    {
        assert(lines[i as int] == parts@[i as int]@);
        let line = chars::trimmed(parts[i].as_slice());
        status = script_status_of(line.as_slice());
        i = i + 1;
    }
    match status {
        Some(ScriptStatus::Completed) => {
            return "Script completed".to_owned();
        },
        Some(ScriptStatus::Failed) => {
            return "Script failed".to_owned();
        },
        Some(ScriptStatus::Running) => {
            return "Script running".to_owned();
        },
        None => {},
    }
    assert(concise(value@) == first_words(lines, 0));
    let mut i: usize = 0;
    while i < parts.len()
        invariant
            i <= parts.len(),
            chars::views(parts@) == lines,
            concise(value@) == first_words(lines, i as int),
        decreases parts.len() - i,
    {
        assert(lines[i as int] == parts@[i as int]@);
        let line = chars::trimmed(parts[i].as_slice());
        if line.len() > 0 {
            let words = chars::squeeze(line.as_slice());
            return string_of(words.as_slice());
        }
        i = i + 1;
    }
    let out = String::new();
    assert(out@ =~= Seq::empty());
    out
}

/// Whether `word`, in lower case, stands at a place of a line in any case.
pub open spec fn spelled_at(line: Seq<char>, at: int, word: Seq<char>) -> bool {
    &&& 0 <= at && at + word.len() <= line.len()
    &&& forall|i: int|
        at <= i < at + word.len() ==> #[trigger] line[i] as int == word[i - at] as int || line[i]
            as int == word[i - at] as int - 32
}

/// Whether a line starts with `script`, white space up to `at`, and there the word,
/// which no word character continues.
pub open spec fn reports(line: Seq<char>, at: int, word: Seq<char>) -> bool {
    &&& at > 6
    &&& spelled_at(line, 0, "script"@)
    &&& forall|i: int| 6 <= i < at ==> chars::white(#[trigger] line[i])
    &&& spelled_at(line, at, word)
    &&& at + word.len() < line.len() ==> {
        let next = line[at + word.len()];
        !chars::letter(next) && !chars::digit(next) && next != '_'
    }
}

/// Whether a line reports how a script ended.
pub open spec fn reporting(line: Seq<char>) -> bool {
    exists|at: int|
        #![trigger spelled_at(line, at, "completed"@)]
        reports(line, at, "completed"@) || reports(line, at, "failed"@) || reports(
            line,
            at,
            "running"@,
        )
}

proof fn lemma_white_run(line: Seq<char>, from: int, at: int)
    requires
        0 <= from <= at <= line.len(),
        forall|i: int| from <= i < at ==> chars::white(#[trigger] line[i]),
        at == line.len() || !chars::white(line[at]),
    ensures
        chars::white_end(line, from) == at,
    decreases at - from,
{
    if from < at {
        lemma_white_run(line, from + 1, at);
    }
}

proof fn lemma_white_before(line: Seq<char>, from: int)
    requires
        0 <= from <= line.len(),
    ensures
        from <= chars::white_end(line, from) <= line.len(),
        forall|i: int| from <= i < chars::white_end(line, from) ==> chars::white(#[trigger] line[i]),
    decreases line.len() - from,
{
    if from < line.len() && chars::white(line[from]) {
        lemma_white_before(line, from + 1);
    }
}

proof fn lemma_word_at(line: Seq<char>, at: int, word: Seq<char>)
    requires
        forall|i: int| 0 <= i < word.len() ==> 'a' as int <= #[trigger] word[i] as int <= 'z' as int,
    ensures
        word_at(line, at, word) == (spelled_at(line, at, word) && (at + word.len() < line.len()
            ==> {
            let next = line[at + word.len()];
            !chars::letter(next) && !chars::digit(next) && next != '_'
        })),
{
    if word_at(line, at, word) {
        assert forall|i: int| at <= i < at + word.len() implies #[trigger] line[i] as int == word[i
            - at] as int || line[i] as int == word[i - at] as int - 32 by {
            assert(chars::lower(line[at + (i - at)]) == word[i - at]);
        }
    }
    if spelled_at(line, at, word) {
        assert forall|i: int| 0 <= i < word.len() implies chars::lower(line[at + i])
            == #[trigger] word[i] by {
            assert(line[at + i] as int == word[at + i - at] as int || line[at + i] as int == word[at
                + i - at] as int - 32);
        }
    }
}

proof fn lemma_words()
    ensures
        "script"@.len() == 6,
        "completed"@.len() == 9,
        "failed"@.len() == 6,
        "running"@.len() == 7,
        "completed"@[0] == 'c',
        "failed"@[0] == 'f',
        "running"@[0] == 'r',
        forall|i: int|
            0 <= i < 6 ==> 'a' as int <= #[trigger] "script"@[i] as int <= 'z' as int,
        forall|i: int|
            0 <= i < 9 ==> 'a' as int <= #[trigger] "completed"@[i] as int <= 'z' as int,
        forall|i: int|
            0 <= i < 6 ==> 'a' as int <= #[trigger] "failed"@[i] as int <= 'z' as int,
        forall|i: int|
            0 <= i < 7 ==> 'a' as int <= #[trigger] "running"@[i] as int <= 'z' as int,
{
    reveal_strlit("script");
    reveal_strlit("completed");
    reveal_strlit("failed");
    reveal_strlit("running");
}

proof fn lemma_reported(line: Seq<char>, at: int, word: Seq<char>)
    requires
        reports(line, at, word),
        word == "completed"@ || word == "failed"@ || word == "running"@,
    ensures
        script_status(line) == Some(
            if word == "completed"@ {
                ScriptStatus::Completed
            } else if word == "failed"@ {
                ScriptStatus::Failed
            } else {
                ScriptStatus::Running
            },
        ),
{
    lemma_words();
    lemma_word_at(line, 0, "script"@);
    lemma_word_at(line, at, "completed"@);
    lemma_word_at(line, at, "failed"@);
    lemma_word_at(line, at, "running"@);
    assert(line[at] as int == word[0] as int || line[at] as int == word[0] as int - 32);
    lemma_white_run(line, 6, at);
    assert(chars::white(line[6]));
    assert(word == "failed"@ ==> !word_at(line, at, "completed"@)) by {
        if word_at(line, at, "completed"@) {
            assert(chars::lower(line[at + 0]) == "completed"@[0]);
        }
    }
    assert(word == "running"@ ==> !word_at(line, at, "completed"@) && !word_at(
        line,
        at,
        "failed"@,
    )) by {
        if word_at(line, at, "completed"@) {
            assert(chars::lower(line[at + 0]) == "completed"@[0]);
        }
        if word_at(line, at, "failed"@) {
            assert(chars::lower(line[at + 0]) == "failed"@[0]);
        }
    }
}

proof fn lemma_reporting(line: Seq<char>)
    requires
        script_status(line) is Some,
    ensures
        reporting(line),
{
    lemma_words();
    lemma_word_at(line, 0, "script"@);
    let at = chars::white_end(line, 6);
    lemma_white_before(line, 6);
    lemma_word_at(line, at, "completed"@);
    lemma_word_at(line, at, "failed"@);
    lemma_word_at(line, at, "running"@);
    assert(spelled_at(line, at, "completed"@) || !spelled_at(line, at, "completed"@));
}

proof fn lemma_not_reporting(line: Seq<char>)
    requires
        !reporting(line),
    ensures
        script_status(line) is None,
{
    if script_status(line) is Some {
        lemma_reporting(line);
    }
}

proof fn lemma_first_status(lines: Seq<Seq<char>>, from: int, at: int)
    requires
        0 <= from <= at <= lines.len(),
        forall|k: int| from <= k < at ==> !reporting(chars::trim(#[trigger] lines[k])),
    ensures
        first_status(lines, from) == first_status(lines, at),
    decreases at - from,
{
    if from < at {
        lemma_not_reporting(chars::trim(lines[from]));
        lemma_first_status(lines, from + 1, at);
    }
}

/// The first line that reports how a script ended decides what is shown: a script that
/// failed is said to have failed, one that completed to have completed, and one that is
/// running to be running.
pub proof fn the_first_report_is_shown(value: Seq<char>, i: int, at: int, word: Seq<char>)
    requires
        0 <= i < chars::lines(value).len(),
        reports(chars::trim(chars::lines(value)[i]), at, word),
        word == "completed"@ || word == "failed"@ || word == "running"@,
        forall|k: int| 0 <= k < i ==> !reporting(chars::trim(#[trigger] chars::lines(value)[k])),
    ensures
        word == "completed"@ ==> concise(value) == "Script completed"@,
        word == "failed"@ ==> concise(value) == "Script failed"@,
        word == "running"@ ==> concise(value) == "Script running"@,
{
    let lines = chars::lines(value);
    lemma_words();
    assert("completed"@ != "failed"@ && "failed"@ != "running"@ && "completed"@ != "running"@);
    lemma_first_status(lines, 0, i);
    lemma_reported(chars::trim(lines[i]), at, word);
}

/// Where no line reports how a script ended, the first line that is not blank is shown,
/// or nothing where all of them are.
pub proof fn the_first_words_are_shown(value: Seq<char>, i: int)
    requires
        0 <= i <= chars::lines(value).len(),
        forall|k: int|
            0 <= k < chars::lines(value).len() ==> !reporting(
                chars::trim(#[trigger] chars::lines(value)[k]),
            ),
        forall|k: int|
            0 <= k < i ==> chars::trim(#[trigger] chars::lines(value)[k]).len() == 0,
        i < chars::lines(value).len() ==> chars::trim(chars::lines(value)[i]).len() > 0,
    ensures
        i < chars::lines(value).len() ==> concise(value) == chars::squeezed(
            chars::trim(chars::lines(value)[i]),
        ),
        i == chars::lines(value).len() ==> concise(value) == Seq::<char>::empty(),
{
    let lines = chars::lines(value);
    lemma_first_status(lines, 0, lines.len() as int);
    lemma_first_words(lines, 0, i);
}

proof fn lemma_first_words(lines: Seq<Seq<char>>, from: int, at: int)
    requires
        0 <= from <= at <= lines.len(),
        forall|k: int| from <= k < at ==> chars::trim(#[trigger] lines[k]).len() == 0,
    ensures
        first_words(lines, from) == first_words(lines, at),
    decreases at - from,
{
    if from < at {
        lemma_first_words(lines, from + 1, at);
    }
}

/// What is shown for a reported status reports that status itself.
pub proof fn shown_reports_keep_their_status(value: Seq<char>)
    requires
        first_status(chars::lines(value), 0) is Some,
    ensures
        script_status(concise(value)) == first_status(chars::lines(value), 0),
{
    let line = concise(value);
    lemma_words();
    reveal_strlit("script");
    reveal_strlit("completed");
    reveal_strlit("failed");
    reveal_strlit("running");
    reveal_strlit("Script completed");
    reveal_strlit("Script failed");
    reveal_strlit("Script running");
    let word = match first_status(chars::lines(value), 0)->0 {
        ScriptStatus::Completed => "completed"@,
        ScriptStatus::Failed => "failed"@,
        ScriptStatus::Running => "running"@,
    };
    assert("completed"@ != "failed"@ && "failed"@ != "running"@ && "completed"@ != "running"@);
    assert(chars::white(line[6]));
    assert(line.len() == 7 + word.len());
    assert forall|i: int| 7 <= i < 7 + word.len() implies #[trigger] line[i] == word[i - 7] by {}
    assert(spelled_at(line, 0, "script"@));
    assert(reports(line, 7, word));
    lemma_reported(line, 7, word);
}

/// Where the text behind one leading tag such as `<output>` starts.
pub open spec fn tag_end(text: Seq<char>) -> Option<int> {
    let end = chars::class_end(text, 2, chars::Class::Name);
    if text.len() > 1 && text[0] == '<' && chars::letter(text[1]) && end < text.len() && text[end]
        == '>' {
        Some(chars::white_end(text, end + 1))
    } else {
        None
    }
}

fn find_tag_end(text: &[char]) -> (end: Option<usize>)
    ensures
        match end {
            Some(end) => tag_end(text@) == Some(end as int) && end <= text@.len(),
            None => tag_end(text@) is None,
        },
{
    if text.len() > 1 && text[0] == '<' && chars::is_letter(text[1]) {
        let end: usize = chars::end_of_class(text, 2, chars::Class::Name);
        if end < text.len() && text[end] == '>' {
            return Some(chars::end_of_white(text, end + 1));
        }
    }
    None
}

/// Where the text behind `tool:` and the name of a tool starts.
pub open spec fn wrapper_end(text: Seq<char>) -> Option<int> {
    let name = chars::white_end(text, 5);
    let end = chars::class_end(text, name, chars::Class::Name);
    if text.len() >= 5 && chars::lower(text[0]) == 't' && chars::lower(text[1]) == 'o'
        && chars::lower(text[2]) == 'o' && chars::lower(text[3]) == 'l' && text[4] == ':' && end
        > name && (end == text.len() || chars::white(text[end])) {
        Some(chars::white_end(text, end))
    } else {
        None
    }
}

fn find_wrapper_end(text: &[char]) -> (end: Option<usize>)
    ensures
        match end {
            Some(end) => wrapper_end(text@) == Some(end as int) && end <= text@.len(),
            None => wrapper_end(text@) is None,
        },
{
    if text.len() < 5 {
        return None;
    }
    if chars::to_lower(text[0]) != 't' || chars::to_lower(text[1]) != 'o' || chars::to_lower(text[2])
        != 'o' || chars::to_lower(text[3]) != 'l' || text[4] != ':' {
        return None;
    }
    let name: usize = chars::end_of_white(text, 5);
    let end: usize = chars::end_of_class(text, name, chars::Class::Name);
    if end > name && (end == text.len() || chars::is_white(text[end])) {
        Some(chars::end_of_white(text, end))
    } else {
        None
    }
}

/// A summary without white space at its ends and without one leading tag.
pub open spec fn untagged(value: Seq<char>) -> Seq<char> {
    let trimmed = chars::trim(value);
    match tag_end(trimmed) {
        Some(end) => chars::trim(trimmed.skip(end)),
        None => trimmed,
    }
}

/// The payload of a summary, without the tag and the tool name before it.
pub open spec fn payload_of(value: Seq<char>) -> Seq<char> {
    let candidate = untagged(value);
    match wrapper_end(candidate) {
        Some(end) => chars::trim(candidate.skip(end)),
        None => candidate,
    }
}

fn untag(value: &str) -> (out: Vec<char>)
    ensures
        out@ == untagged(value@),
{
    let trimmed = chars::trimmed(chars_of(value).as_slice());
    match find_tag_end(trimmed.as_slice()) {
        Some(end) => chars::trimmed(chars::tail_of(trimmed.as_slice(), end).as_slice()),
        None => trimmed,
    }
}

/// The payload of a summary, without the tag and the tool name before it.
pub fn summary_payload(value: &str) -> (out: String)
    ensures
        out@ == payload_of(value@),
{
    let candidate = untag(value);
    match find_wrapper_end(candidate.as_slice()) {
        Some(end) => {
            let payload = chars::trimmed(chars::tail_of(candidate.as_slice(), end).as_slice());
            string_of(payload.as_slice())
        },
        None => string_of(candidate.as_slice()),
    }
}

/// The words for a tool row whose payload says nothing.
pub open spec fn outcome_words(row: JsonView) -> Seq<char> {
    let outcome = row::text_of(row, "outcome"@);
    if outcome == "success"@ {
        "Completed"@
    } else if outcome == "failure"@ {
        "Failed"@
    } else if outcome == "warning"@ {
        "Completed with warnings"@
    } else if outcome == "cancelled"@ {
        "Cancelled"@
    } else if row::text_of(row, "record_role"@) == "action"@ || row::text_of(row, "kind"@)
        == "command"@ {
        "Tool request"@
    } else {
        "Tool result"@
    }
}

fn words_for_outcome(row: &Json) -> (words: String)
    ensures
        words@ == outcome_words(row@),
{
    let outcome = row::text(row, "outcome");
    if same_text(outcome, "success") {
        "Completed".to_owned()
    } else if same_text(outcome, "failure") {
        "Failed".to_owned()
    } else if same_text(outcome, "warning") {
        "Completed with warnings".to_owned()
    } else if same_text(outcome, "cancelled") {
        "Cancelled".to_owned()
    } else if same_text(row::text(row, "record_role"), "action") || same_text(
        row::text(row, "kind"),
        "command",
    ) {
        "Tool request".to_owned()
    } else {
        "Tool result".to_owned()
    }
}

/// The summary that a row shows, given the text of its payload. Narrative stays
/// as it is; the payloads of tools become a few words.
pub open spec fn displayed(row: JsonView, value: Seq<char>, decoded: Seq<char>) -> Seq<char> {
    let tool = operational(row);
    let json = starts_json(payload_of(value));
    let wrapped = wrapper_end(untagged(value)) is Some;
    let words = concise(
        if json {
            decoded
        } else {
            payload_of(value)
        },
    );
    if !json && !(tool && wrapped) {
        value
    } else if words.len() > 0 {
        words
    } else if !tool {
        value
    } else {
        outcome_words(row)
    }
}

/// The summary that a row shows, given the text of its payload.
pub fn display_summary(row: &Json, value: &str, decoded: &str) -> (out: String)
    ensures
        out@ == displayed(row@, value@, decoded@),
{
    let tool = toolish_row(row);
    let candidate = untag(value);
    let wrapped = find_wrapper_end(candidate.as_slice()).is_some();
    let payload = summary_payload(value);
    let json = opens_json(chars_of(payload.as_str()).as_slice());
    if !json && !(tool && wrapped) {
        return value.to_owned();
    }
    let words = if json {
        concise_tool_text(decoded)
    } else {
        concise_tool_text(payload.as_str())
    };
    if chars_of(words.as_str()).len() > 0 {
        return words;
    }
    if !tool {
        return value.to_owned();
    }
    words_for_outcome(row)
}

/// The summary that a row shows.
pub open spec fn display_of(row: JsonView, value: Seq<char>) -> Seq<char> {
    displayed(row, value, payload_text(payload_of(value)))
}

/// The summary that a row shows.
pub fn display_summary_for_row(row: &Json, value: &str) -> (out: String)
    ensures
        out@ == display_of(row@, value@),
{
    let payload = summary_payload(value);
    let decoded = decoded_tool_payload_text(payload.as_str());
    display_summary(row, value, decoded.as_str())
}

/// A tool or a command always runs something; an action or a result does where it
/// executes or belongs to the system; nothing else does.
pub proof fn tools_and_commands_run_something(row: JsonView)
    ensures
        ({
            let kind = row::text_of(row, "kind"@);
            let role = row::text_of(row, "record_role"@);
            let runs = row::text_of(row, "activity_kind"@) == "execute"@ || row.get("is_system"@)
                == Some(JsonView::Bool(true));
            &&& kind == "tool"@ || kind == "command"@ ==> operational(row)
            &&& kind != "tool"@ && kind != "command"@ ==> (operational(row) <==> (role == "action"@
                || role == "result"@) && runs)
        }),
{
}

/// A text starts like a list or an object where its first character that is not white
/// space opens one, and the next one after it that is not white space opens a string,
/// an object in a list, or closes the list or object again.
pub proof fn containers_are_known_by_their_start(payload: Seq<char>, first: int, second: int)
    requires
        0 <= first < second < payload.len(),
        forall|i: int| 0 <= i < first ==> chars::white(#[trigger] payload[i]),
        !chars::white(payload[first]),
        forall|i: int| first < i < second ==> chars::white(#[trigger] payload[i]),
        !chars::white(payload[second]),
    ensures
        starts_container(payload) <==> payload[first] == '[' && (payload[second] == '{'
            || payload[second] == '"' || payload[second] == ']') || payload[first] == '{' && (
        payload[second] == '"' || payload[second] == '}'),
        starts_json(payload) <==> starts_container(payload) || payload[first] == '"',
{
    lemma_white_run(payload, 0, first);
    lemma_white_run(payload, first + 1, second);
}

/// Whether a payload is a text that says something.
pub open spec fn says(value: JsonView) -> bool {
    value matches JsonView::Str(text) && chars::trim(text).len() > 0
}

/// The first pending payload that is a text which says something is found, however many
/// lists and objects come before it, as long as few enough payloads are looked at.
pub proof fn pending_texts_come_before_what_is_inside(
    pending: Seq<JsonView>,
    visits: int,
    at: int,
)
    requires
        0 <= at < pending.len(),
        says(pending[at]),
        forall|i: int| 0 <= i < at ==> !says(#[trigger] pending[i]),
        visits + at + 1 < 48,
    ensures
        first_text(pending, visits) == pending[at]->Str_0,
    decreases at,
{
    if at > 0 {
        let next = pending.skip(1) + inside(pending[0]);
        assert(!says(pending[0]));
        assert(next[at - 1] == pending[at]);
        assert forall|i: int| 0 <= i < at - 1 implies !says(#[trigger] next[i]) by {
            assert(next[i] == pending[i + 1]);
        }
        pending_texts_come_before_what_is_inside(next, visits + 1, at - 1);
    }
}

/// A payload that is a text is that text, where it says something. Of a list or an object
/// the first text right inside it that says something is taken.
pub proof fn texts_right_inside_are_found(value: JsonView, at: int)
    requires
        !says(value),
        0 <= at < inside(value).len(),
        says(inside(value)[at]),
        forall|i: int| 0 <= i < at ==> !says(#[trigger] inside(value)[i]),
        at + 2 < 48,
    ensures
        first_text(seq![value], 0) == inside(value)[at]->Str_0,
{
    let all = inside(value);
    assert(seq![value].skip(1) + all =~= all);
    pending_texts_come_before_what_is_inside(all, 1, at);
}

/// A payload that is a text which says something is taken as it is.
pub proof fn plain_texts_are_taken(text: Seq<char>)
    requires
        chars::trim(text).len() > 0,
    ensures
        first_text(seq![JsonView::Str(text)], 0) == text,
{
}

proof fn lemma_text_fields(value: JsonView, n: int, k: int)
    requires
        0 <= k < n,
        value.get(text_key(k)) is Some,
        forall|j: int| 0 <= j < k ==> value.get(#[trigger] text_key(j)) is None,
    ensures
        text_fields(value, n).len() > 0,
        text_fields(value, n)[0] == value.get(text_key(k))->0,
    decreases n,
{
    if n - 1 > k {
        lemma_text_fields(value, n - 1, k);
    } else {
        lemma_no_text_fields(value, k);
    }
}

proof fn lemma_no_text_fields(value: JsonView, n: int)
    requires
        forall|j: int| 0 <= j < n ==> value.get(#[trigger] text_key(j)) is None,
    ensures
        text_fields(value, n).len() == 0,
    decreases n,
{
    if n > 0 {
        assert(value.get(text_key(n - 1)) is None);
        lemma_no_text_fields(value, n - 1);
    }
}

/// The text of an object is looked for in its fields in a fixed order, from the text
/// itself over outputs and messages to commands, queries and paths.
pub proof fn text_fields_are_read_in_order(value: JsonView, k: int)
    requires
        value is Object,
        0 <= k < 15,
        value.get(text_key(k)) is Some,
        says(value.get(text_key(k))->0),
        forall|j: int| 0 <= j < k ==> value.get(#[trigger] text_key(j)) is None,
    ensures
        first_text(seq![value], 0) == value.get(text_key(k))->0->Str_0,
        seq![
            text_key(0),
            text_key(1),
            text_key(2),
            text_key(3),
            text_key(4),
            text_key(5),
            text_key(6),
            text_key(7),
            text_key(8),
            text_key(9),
            text_key(10),
            text_key(11),
            text_key(12),
            text_key(13),
            text_key(14),
        ] == seq![
            "text"@,
            "output_text"@,
            "input_text"@,
            "message"@,
            "summary"@,
            "output"@,
            "content"@,
            "status"@,
            "completed"@,
            "failed"@,
            "error"@,
            "cmd"@,
            "command"@,
            "query"@,
            "path"@,
        ],
{
    lemma_text_fields(value, TEXT_KEYS as int, k);
    texts_right_inside_are_found(value, 0);
}

/// A quoted text ends at the first quotation mark that no backslash stands before.
pub proof fn quoted_text_ends_at_the_quote(source: Seq<char>, from: int, end: int)
    requires
        0 <= from <= end < source.len(),
        source[end] == '"',
        forall|i: int| from <= i < end ==> #[trigger] source[i] != '"' && source[i] != '\\',
    ensures
        quote_end(source, from) == Some(end),
    decreases end - from,
{
    if from < end {
        assert(source[from] != '"');
        quoted_text_ends_at_the_quote(source, from + 1, end);
    }
}

/// An escaped character never ends a quoted text.
pub proof fn escaped_characters_do_not_end_quotes(source: Seq<char>, from: int)
    requires
        0 <= from,
        from + 1 < source.len(),
        source[from] == '\\',
    ensures
        quote_end(source, from) == quote_end(source, from + 2),
{
}

/// A text without backslashes has nothing to restore.
pub proof fn plain_text_is_not_unescaped(text: Seq<char>)
    requires
        forall|i: int| 0 <= i < text.len() ==> #[trigger] text[i] != '\\',
    ensures
        unescaped(text) == text,
{
    reveal_strlit("\\r\\n");
    reveal_strlit("\\n");
    reveal_strlit("\\r");
    reveal_strlit("\\\"");
    reveal_strlit("\\\\");
    lemma_no_backslash(text, "\\r\\n"@, "\n"@);
    lemma_no_backslash(text, "\\n"@, "\n"@);
    lemma_no_backslash(text, "\\r"@, "\n"@);
    lemma_no_backslash(text, "\\\""@, "\""@);
    lemma_no_backslash(text, "\\\\"@, "\\"@);
}

proof fn lemma_no_backslash(text: Seq<char>, part: Seq<char>, with: Seq<char>)
    requires
        part.len() > 0,
        part[0] == '\\',
        forall|i: int| 0 <= i < text.len() ==> #[trigger] text[i] != '\\',
    ensures
        chars::replaced(text, part, with, 0) == text,
{
    assert forall|i: int| 0 <= i < text.len() implies !#[trigger] text::stands_at(text, i, part) by {
        if text::stands_at(text, i, part) {
            assert(text.subrange(i, i + part.len())[0] == text[i]);
        }
    }
    chars::other_text_is_not_replaced(text, part, with, 0);
    assert(text.skip(0) =~= text);
}

/// What a payload says as JSON is searched for text; a text within it that is JSON itself
/// is searched instead. Where that cannot be read, the text is recovered from the source.
pub proof fn payloads_are_read_or_recovered(
    source: Seq<char>,
    parsed: Option<JsonView>,
    inner: Option<JsonView>,
)
    ensures
        parsed is None ==> payload_text_from(source, parsed, inner) == recovered(source, 0),
        parsed is Some && !(parsed->0 is Str && starts_container(chars::trim(parsed->0->Str_0)))
            ==> payload_text_from(source, parsed, inner) == first_text(seq![parsed->0], 0),
        parsed is Some && parsed->0 is Str && starts_container(chars::trim(parsed->0->Str_0)) ==> (
        match inner {
            Some(value) => payload_text_from(source, parsed, inner) == first_text(seq![value], 0),
            None => payload_text_from(source, parsed, inner) == recovered(source, 0),
        }),
{
}

proof fn lemma_class_run(text: Seq<char>, from: int, at: int, class: chars::Class)
    requires
        0 <= from <= at <= text.len(),
        forall|i: int| from <= i < at ==> chars::member(class, #[trigger] text[i]),
        at == text.len() || !chars::member(class, text[at]),
    ensures
        chars::class_end(text, from, class) == at,
    decreases at - from,
{
    if from < at {
        lemma_class_run(text, from + 1, at, class);
    }
}

/// A tag in angle brackets at the start of a summary is dropped, with the white space
/// behind it; a summary that starts with anything else keeps it.
pub proof fn one_leading_tag_is_dropped(value: Seq<char>, close: int, rest: int)
    requires
        ({
            let text = chars::trim(value);
            &&& 2 <= close < rest <= text.len()
            &&& text[0] == '<'
            &&& chars::letter(text[1])
            &&& forall|i: int| 2 <= i < close ==> chars::member(chars::Class::Name, #[trigger] text[i])
            &&& text[close] == '>'
            &&& forall|i: int| close < i < rest ==> chars::white(#[trigger] text[i])
            &&& rest < text.len() ==> !chars::white(text[rest])
        }),
    ensures
        untagged(value) == chars::trim(chars::trim(value).skip(rest)),
{
    let text = chars::trim(value);
    lemma_class_run(text, 2, close, chars::Class::Name);
    lemma_white_run(text, close + 1, rest);
}

/// A summary that does not start with an angle bracket and a letter has no tag.
pub proof fn other_summaries_have_no_tag(value: Seq<char>)
    requires
        ({
            let text = chars::trim(value);
            text.len() < 2 || text[0] != '<' || !chars::letter(text[1])
        }),
    ensures
        untagged(value) == chars::trim(value),
{
}

/// The word for a tool and a colon at the start of a summary are dropped, with the name
/// of the tool behind them and the white space around it.
pub proof fn the_name_of_the_tool_is_dropped(value: Seq<char>, name: int, end: int, rest: int)
    requires
        ({
            let text = untagged(value);
            &&& 5 <= name < end <= rest <= text.len()
            &&& spelled_at(text, 0, "tool"@)
            &&& text[4] == ':'
            &&& forall|i: int| 5 <= i < name ==> chars::white(#[trigger] text[i])
            &&& forall|i: int|
                name <= i < end ==> chars::member(chars::Class::Name, #[trigger] text[i])
            &&& end < text.len() ==> chars::white(text[end])
            &&& forall|i: int| end <= i < rest ==> chars::white(#[trigger] text[i])
            &&& rest < text.len() ==> !chars::white(text[rest])
        }),
    ensures
        payload_of(value) == chars::trim(untagged(value).skip(rest)),
        wrapper_end(untagged(value)) is Some,
{
    let text = untagged(value);
    reveal_strlit("tool");
    assert(text[0] as int == "tool"@[0] as int || text[0] as int == "tool"@[0] as int - 32);
    assert(text[1] as int == "tool"@[1] as int || text[1] as int == "tool"@[1] as int - 32);
    assert(text[2] as int == "tool"@[2] as int || text[2] as int == "tool"@[2] as int - 32);
    assert(text[3] as int == "tool"@[3] as int || text[3] as int == "tool"@[3] as int - 32);
    chars::names_extend_words(text[name]);
    lemma_white_run(text, 5, name);
    if end < text.len() {
        chars::names_extend_words(text[end]);
    }
    lemma_class_run(text, name, end, chars::Class::Name);
    lemma_white_run(text, end, rest);
}

/// A summary without the word for a tool and a colon in front is its own payload.
pub proof fn other_summaries_are_their_payload(value: Seq<char>)
    requires
        ({
            let text = untagged(value);
            text.len() < 5 || text[4] != ':' || !spelled_at(text, 0, "tool"@)
        }),
    ensures
        payload_of(value) == untagged(value),
        wrapper_end(untagged(value)) is None,
{
    let text = untagged(value);
    reveal_strlit("tool");
    if text.len() >= 5 && !spelled_at(text, 0, "tool"@) {
        let i = choose|i: int|
            0 <= i < 4 && !(#[trigger] text[i] as int == "tool"@[i - 0] as int || text[i] as int
                == "tool"@[i - 0] as int - 32);
        assert(chars::lower(text[i]) != "tool"@[i]);
        assert(i == 0 || i == 1 || i == 2 || i == 3);
    }
}

/// A tool row that says nothing is told by its outcome; without one it is a request where
/// it acts or is a command, and a result otherwise.
pub proof fn silent_tools_are_told_by_their_outcome(row: JsonView)
    ensures
        ({
            let outcome = row::text_of(row, "outcome"@);
            let asks = row::text_of(row, "record_role"@) == "action"@ || row::text_of(row, "kind"@)
                == "command"@;
            let words = outcome_words(row);
            &&& outcome == "success"@ ==> words == "Completed"@
            &&& outcome == "failure"@ ==> words == "Failed"@
            &&& outcome == "warning"@ ==> words == "Completed with warnings"@
            &&& outcome == "cancelled"@ ==> words == "Cancelled"@
            &&& outcome != "success"@ && outcome != "failure"@ && outcome != "warning"@ && outcome
                != "cancelled"@ ==> words == (if asks {
                "Tool request"@
            } else {
                "Tool result"@
            })
        }),
{
    reveal_strlit("success");
    reveal_strlit("failure");
    reveal_strlit("warning");
    reveal_strlit("cancelled");
    assert("success"@[0] == 's' && "failure"@[0] == 'f' && "warning"@[0] == 'w' && "cancelled"@[0]
        == 'c');
}

/// A summary is shown as it is unless its payload is JSON or a tool's own. Then it is told
/// in a few words, and where there are none, a tool row by its outcome and any other row
/// as it is.
pub proof fn narrative_is_shown_as_it_is(row: JsonView, value: Seq<char>, decoded: Seq<char>)
    ensures
        ({
            let json = starts_json(payload_of(value));
            let wrapped = wrapper_end(untagged(value)) is Some;
            let shown = displayed(row, value, decoded);
            &&& !json && !wrapped ==> shown == value
            &&& !json && !operational(row) ==> shown == value
            &&& json && concise(decoded).len() > 0 ==> shown == concise(decoded)
            &&& json && concise(decoded).len() == 0 && operational(row) ==> shown == outcome_words(row)
            &&& json && concise(decoded).len() == 0 && !operational(row) ==> shown == value
            &&& !json && wrapped && operational(row) && concise(payload_of(value)).len() > 0 ==> shown
                == concise(payload_of(value))
            &&& !json && wrapped && operational(row) && concise(payload_of(value)).len() == 0
                ==> shown == outcome_words(row)
        }),
{
}

/// A row without a summary says so; any other summary is spelled out.
pub proof fn missing_summaries_are_told(row: JsonView)
    ensures
        row.get("summary"@) is None ==> source_of(row) == "(no summary)"@,
        row.get("summary"@) matches Some(JsonView::Str(text)) ==> source_of(row) == (if text.len()
            > 0 {
            text
        } else {
            "(no summary)"@
        }),
        row.get("summary"@) matches Some(JsonView::Null) ==> source_of(row) == "(no summary)"@,
{
}

} // verus!
