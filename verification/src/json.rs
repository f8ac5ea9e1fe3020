//! Structured host payloads as plain values.

use crate::text::same_text;
use vstd::prelude::*;

verus! {

/// A number as the payload spells it, with the integers it can be read as.
#[derive(Debug, PartialEq, Eq)]
pub struct JsonNumber {
    pub unsigned: Option<u64>,
    pub signed: Option<i64>,
    pub text: String,
}

/// A structured payload.
#[derive(Debug, PartialEq, Eq)]
pub enum Json {
    Null,
    Bool(bool),
    Number(JsonNumber),
    Str(String),
    Array(Vec<Json>),
    Object(Vec<(String, Json)>),
}

/// The contents of a number.
pub ghost struct NumberView {
    pub unsigned: Option<u64>,
    pub signed: Option<i64>,
    pub text: Seq<char>,
}

/// The contents of a payload.
pub ghost enum JsonView {
    Null,
    Bool(bool),
    Number(NumberView),
    Str(Seq<char>),
    Array(Seq<JsonView>),
    Object(Seq<(Seq<char>, JsonView)>),
}

impl View for JsonNumber {
    type V = NumberView;

    open spec fn view(&self) -> NumberView {
        NumberView {
            unsigned: self.unsigned,
            signed: self.signed,
            text: self.text@,
        }
    }
}

impl Json {
    /// What the payload holds, at every depth.
    pub open spec fn contents(self) -> JsonView
        decreases self,
    {
        match self {
            Json::Null => JsonView::Null,
            Json::Bool(value) => JsonView::Bool(value),
            Json::Number(number) => JsonView::Number(number@),
            Json::Str(text) => JsonView::Str(text@),
            Json::Array(items) => JsonView::Array(
                Seq::new(
                    items@.len(),
                    |i: int|
                        if 0 <= i < items@.len() {
                            items@[i].contents()
                        } else {
                            JsonView::Null
                        },
                ),
            ),
            Json::Object(fields) => JsonView::Object(
                Seq::new(
                    fields@.len(),
                    |i: int|
                        if 0 <= i < fields@.len() {
                            (fields@[i].0@, fields@[i].1.contents())
                        } else {
                            (Seq::empty(), JsonView::Null)
                        },
                ),
            ),
        }
    }
}

impl View for Json {
    type V = JsonView;

    open spec fn view(&self) -> JsonView {
        self.contents()
    }
}

/// The first of the fields from `from` on that has the name.
pub open spec fn field(fields: Seq<(Seq<char>, JsonView)>, name: Seq<char>, from: int) -> Option<
    JsonView,
>
    decreases fields.len() - from,
{
    if from >= fields.len() {
        None
    } else if fields[from].0 == name {
        Some(fields[from].1)
    } else {
        field(fields, name, from + 1)
    }
}

impl JsonView {
    /// The field of an object; other payloads have none.
    pub open spec fn get(self, name: Seq<char>) -> Option<JsonView> {
        match self {
            JsonView::Object(fields) => field(fields, name, 0),
            _ => None,
        }
    }

    /// The text of a string payload.
    pub open spec fn text(self) -> Option<Seq<char>> {
        match self {
            JsonView::Str(text) => Some(text),
            _ => None,
        }
    }

    /// The value of a boolean payload.
    pub open spec fn boolean(self) -> Option<bool> {
        match self {
            JsonView::Bool(value) => Some(value),
            _ => None,
        }
    }

    /// The number of a payload that is a nonnegative integer.
    pub open spec fn unsigned(self) -> Option<u64> {
        match self {
            JsonView::Number(number) => number.unsigned,
            _ => None,
        }
    }

    /// The items of an array payload.
    pub open spec fn items(self) -> Option<Seq<JsonView>> {
        match self {
            JsonView::Array(items) => Some(items),
            _ => None,
        }
    }
}

impl Clone for JsonNumber {
    fn clone(&self) -> (number: JsonNumber)
        ensures
            number == *self,
    {
        JsonNumber {
            unsigned: self.unsigned,
            signed: self.signed,
            text: self.text.clone(),
        }
    }
}

impl Clone for Json {
    fn clone(&self) -> (json: Json)
        ensures
            json@ == self@,
        decreases self,
    {
        match self {
            Json::Null => Json::Null,
            Json::Bool(value) => Json::Bool(*value),
            Json::Number(number) => Json::Number(number.clone()),
            Json::Str(text) => Json::Str(text.clone()),
            Json::Array(items) => {
                let mut copy: Vec<Json> = Vec::new();
                let mut i: usize = 0;
                while i < items.len()
                    invariant
                        i <= items.len(),
                        copy.len() == i,
                        decreases_to!(self => items),
                        forall|k: int| 0 <= k < i ==> (#[trigger] copy@[k])@ == items@[k]@,
                    decreases items.len() - i,
                {
                    copy.push(items[i].clone());
                    i = i + 1;
                }
                let json = Json::Array(copy);
                assert(json@->Array_0 =~= self@->Array_0);
                json
            },
            Json::Object(fields) => {
                let mut copy: Vec<(String, Json)> = Vec::new();
                let mut i: usize = 0;
                while i < fields.len()
                    invariant
                        i <= fields.len(),
                        copy.len() == i,
                        decreases_to!(self => fields),
                        forall|k: int|
                            0 <= k < i ==> (#[trigger] copy@[k]).0@ == fields@[k].0@
                                && copy@[k].1@ == fields@[k].1@,
                    decreases fields.len() - i,
                {
                    let name = fields[i].0.clone();
                    let value = fields[i].1.clone();
                    copy.push((name, value));
                    i = i + 1;
                }
                let json = Json::Object(copy);
                assert(json@->Object_0 =~= self@->Object_0);
                json
            },
        }
    }
}

impl Json {
    pub fn is_null(&self) -> (null: bool)
        ensures
            null == (self@ is Null),
    {
        matches!(self, Json::Null)
    }

    /// The field of an object; other payloads have none.
    pub fn get(&self, name: &str) -> (value: Option<&Json>)
        ensures
            match value {
                Some(value) => self@.get(name@) == Some(value@),
                None => self@.get(name@) is None,
            },
    {
        match self {
            Json::Object(fields) => {
                let ghost all = self@->Object_0;
                let mut i: usize = 0;
                while i < fields.len()
                    invariant
                        i <= fields.len(),
                        self@ == JsonView::Object(all),
                        all.len() == fields.len(),
                        forall|k: int|
                            0 <= k < fields.len() ==> #[trigger] all[k] == (
                                fields@[k].0@,
                                fields@[k].1@,
                            ),
                        field(all, name@, 0) == field(all, name@, i as int),
                    decreases fields.len() - i,
                {
                    assert(all[i as int] == (fields@[i as int].0@, fields@[i as int].1@));
                    if same_text(fields[i].0.as_str(), name) {
                        return Some(&fields[i].1);
                    }
                    i = i + 1;
                }
                None
            },
            _ => None,
        }
    }

    pub fn as_str(&self) -> (text: Option<&str>)
        ensures
            match text {
                Some(text) => self@.text() == Some(text@),
                None => self@.text() is None,
            },
    {
        match self {
            Json::Str(text) => Some(text.as_str()),
            _ => None,
        }
    }

    pub fn as_bool(&self) -> (value: Option<bool>)
        ensures
            value == self@.boolean(),
    {
        match self {
            Json::Bool(value) => Some(*value),
            _ => None,
        }
    }

    pub fn as_u64(&self) -> (value: Option<u64>)
        ensures
            value == self@.unsigned(),
    {
        match self {
            Json::Number(number) => number.unsigned,
            _ => None,
        }
    }

    pub fn as_array(&self) -> (items: Option<&Vec<Json>>)
        ensures
            match items {
                Some(items) => self@.items() == Some(
                    Seq::new(items@.len(), |i: int| items@[i]@),
                ),
                None => self@.items() is None,
            },
    {
        match self {
            Json::Array(items) => {
                assert(self@->Array_0 =~= Seq::new(items@.len(), |i: int| items@[i]@));
                Some(items)
            },
            _ => None,
        }
    }
}

/// A nonnegative integer as a payload.
pub open spec fn unsigned_number(value: u64) -> JsonView {
    JsonView::Number(
        NumberView {
            unsigned: Some(value),
            signed: if value <= i64::MAX {
                Some(value as i64)
            } else {
                None
            },
            text: crate::text::decimal(value as nat),
        },
    )
}

/// An integer as a payload.
pub open spec fn signed_number(value: i64) -> JsonView {
    if value >= 0 {
        unsigned_number(value as u64)
    } else {
        JsonView::Number(
            NumberView {
                unsigned: None,
                signed: Some(value),
                text: seq!['-'] + crate::text::decimal((-value) as nat),
            },
        )
    }
}

/// An object with one field more.
pub open spec fn with_field(object: JsonView, name: Seq<char>, value: JsonView) -> JsonView {
    JsonView::Object(object->Object_0.push((name, value)))
}

/// An object without fields.
pub open spec fn empty_object() -> JsonView {
    JsonView::Object(Seq::empty())
}

impl Json {
    pub fn from_u64(value: u64) -> (json: Json)
        ensures
            json@ == unsigned_number(value),
    {
        Json::Number(
            JsonNumber {
                unsigned: Some(value),
                signed: if value <= i64::MAX as u64 {
                    Some(value as i64)
                } else {
                    None
                },
                    text: crate::text::decimal_text(value),
            },
        )
    }

    pub fn from_i64(value: i64) -> (json: Json)
        ensures
            json@ == signed_number(value),
    {
        if value >= 0 {
            Json::from_u64(value as u64)
        } else {
            let magnitude: u64 = (-(value + 1)) as u64 + 1;
            let mut text = String::new();
            text.push('-');
            text.append(crate::text::decimal_text(magnitude).as_str());
            proof {
                assert(text@ =~= seq!['-'] + crate::text::decimal((-value) as nat));
            }
            Json::Number(
                JsonNumber { unsigned: None, signed: Some(value), text },
            )
        }
    }

    pub fn from_text(value: &str) -> (json: Json)
        ensures
            json@ == JsonView::Str(value@),
    {
        Json::Str(value.to_owned())
    }

    /// An object without fields.
    pub fn object() -> (json: Json)
        ensures
            json is Object,
            json@ == empty_object(),
    {
        let json = Json::Object(Vec::new());
        assert(json@->Object_0 =~= Seq::empty());
        json
    }

    /// The object with one field more.
    pub fn with(self, name: &str, value: Json) -> (json: Json)
        requires
            self is Object,
        ensures
            json is Object,
            json@ == with_field(self@, name@, value@),
    {
        match self {
            Json::Object(fields) => {
                let mut fields = fields;
                fields.push((name.to_owned(), value));
                let json = Json::Object(fields);
                assert(json@->Object_0 =~= self@->Object_0.push((name@, value@)));
                json
            },
            other => other,
        }
    }
}

/// Whether a number as it is spelled is not zero: a digit before the exponent
/// is not zero.
pub open spec fn spells_nonzero(text: Seq<char>, from: int) -> bool
    decreases text.len() - from,
{
    if from < 0 || from >= text.len() || text[from] == 'e' || text[from] == 'E' {
        false
    } else if '1' as int <= text[from] as int <= '9' as int {
        true
    } else {
        spells_nonzero(text, from + 1)
    }
}

impl JsonView {
    /// Whether a payload counts as true in a condition: null, false, zero, and
    /// the empty text do not.
    pub open spec fn truthy(self) -> bool {
        match self {
            JsonView::Null => false,
            JsonView::Bool(value) => value,
            JsonView::Number(number) => spells_nonzero(number.text, 0),
            JsonView::Str(text) => text.len() > 0,
            JsonView::Array(_) => true,
            JsonView::Object(_) => true,
        }
    }

    /// The integer that a number payload is.
    pub open spec fn signed(self) -> Option<i64> {
        match self {
            JsonView::Number(number) => number.signed,
            _ => None,
        }
    }

    /// A payload as text: lists are spelled by their items, with nothing for
    /// null, and objects are not spelled.
    pub open spec fn spelled(self) -> Seq<char>
        decreases self, 1int, 0int,
    {
        match self {
            JsonView::Null => "null"@,
            JsonView::Bool(value) => if value {
                "true"@
            } else {
                "false"@
            },
            JsonView::Number(number) => number.text,
            JsonView::Str(text) => text,
            JsonView::Array(items) => JsonView::spelled_items(items, items.len()),
            JsonView::Object(_) => "[object Object]"@,
        }
    }

    /// The first `n` items as text, with commas between them.
    pub open spec fn spelled_items(items: Seq<JsonView>, n: nat) -> Seq<char>
        decreases items, 0int, n,
    {
        if n == 0 || n > items.len() {
            Seq::empty()
        } else {
            let item = if items[n - 1] is Null {
                Seq::empty()
            } else {
                items[n - 1].spelled()
            };
            if n == 1 {
                item
            } else {
                JsonView::spelled_items(items, (n - 1) as nat) + ","@ + item
            }
        }
    }
}

impl Json {
    /// Whether the payload counts as true in a condition.
    pub fn is_truthy(&self) -> (yes: bool)
        ensures
            yes == self@.truthy(),
    {
        match self {
            Json::Null => false,
            Json::Bool(value) => *value,
            Json::Number(number) => {
                let chars = crate::text::chars_of(number.text.as_str());
                let mut i: usize = 0;
                while i < chars.len()
                    invariant
                        i <= chars.len(),
                        self@.truthy() == spells_nonzero(chars@, 0),
                        spells_nonzero(chars@, 0) == spells_nonzero(chars@, i as int),
                    decreases chars.len() - i,
                {
                    let c: char = chars[i];
                    if c == 'e' || c == 'E' {
                        return false;
                    }
                    if '1' <= c && c <= '9' {
                        return true;
                    }
                    i = i + 1;
                }
                false
            },
            Json::Str(text) => {
                let chars = crate::text::chars_of(text.as_str());
                chars.len() > 0
            },
            Json::Array(_) => true,
            Json::Object(_) => true,
        }
    }

    pub fn as_i64(&self) -> (value: Option<i64>)
        ensures
            value == self@.signed(),
    {
        match self {
            Json::Number(number) => number.signed,
            _ => None,
        }
    }

    /// The payload as text.
    pub fn to_text(&self) -> (out: String)
        ensures
            out@ == self@.spelled(),
        decreases self,
    {
        match self {
            Json::Null => "null".to_owned(),
            Json::Bool(value) => if *value {
                "true".to_owned()
            } else {
                "false".to_owned()
            },
            Json::Number(number) => number.text.clone(),
            Json::Str(text) => text.clone(),
            Json::Array(items) => {
                let ghost all = self@->Array_0;
                let mut out = String::new();
                let mut i: usize = 0;
                assert(out@ =~= JsonView::spelled_items(all, 0));
                while i < items.len()
                    invariant
                        i <= items.len(),
                        decreases_to!(self => items),
                        all.len() == items.len(),
                        forall|k: int| 0 <= k < items.len() ==> #[trigger] all[k] == items@[k]@,
                        out@ == JsonView::spelled_items(all, i as nat),
                    decreases items.len() - i,
                {
                    let ghost before = out@;
                    if i > 0 {
                        out.append(",");
                    }
                    assert(all[i as int] == items@[i as int]@);
                    if !items[i].is_null() {
                        let item = items[i].to_text();
                        out.append(item.as_str());
                    }
                    proof {
                        let last = if all[i as int] is Null {
                            Seq::empty()
                        } else {
                            all[i as int].spelled()
                        };
                        if i == 0 {
                            assert(out@ =~= last);
                        } else {
                            assert(out@ =~= before + ","@ + last);
                        }
                    }
                    i = i + 1;
                }
                out
            },
            Json::Object(_) => "[object Object]".to_owned(),
        }
    }
}

/// A structured value of the `serde_json` crate.
#[verifier::external_type_specification]
#[verifier::external_body]
pub struct ExValue(serde_json::Value);

/// What a text says as JSON; none where it is no JSON.
pub uninterp spec fn decoded(text: Seq<char>) -> Option<JsonView>;

/// Moves a `serde_json::Value` into a payload, one variant into one: numbers are
/// read by `as_u64`, `as_i64`, and their spelling, and the fields of an object
/// stay in their order.
#[verifier::external_body]
fn from_value(value: serde_json::Value) -> (json: Json) {
    match value {
        serde_json::Value::Null => Json::Null,
        serde_json::Value::Bool(value) => Json::Bool(value),
        serde_json::Value::Number(number) => Json::Number(JsonNumber {
            unsigned: number.as_u64(),
            signed: number.as_i64(),
            text: number.to_string(),
        }),
        serde_json::Value::String(text) => Json::Str(text),
        serde_json::Value::Array(items) => Json::Array(items.into_iter().map(from_value).collect()),
        serde_json::Value::Object(fields) => Json::Object(
            fields.into_iter().map(|(name, value)| (name, from_value(value))).collect(),
        ),
    }
}

/// `serde_json::from_str` reads a text as JSON. The result is named; nothing is
/// claimed of it but that it depends on the text alone.
#[verifier::external_body]
fn decode(text: &str) -> (json: Option<Json>)
    ensures
        match json {
            Some(json) => decoded(text@) == Some(json@),
            None => decoded(text@) is None,
        },
{
    serde_json::from_str::<serde_json::Value>(text).ok().map(from_value)
}

/// The compact JSON text of a payload.
pub uninterp spec fn encoded(payload: JsonView) -> Seq<char>;

/// Moves a payload into a `serde_json::Value`, one variant into one: a number is read
/// from its spelling by `Number::from_str`, and is null where that spells none; the
/// last of the fields with one name stays.
#[verifier::external_body]
fn to_value(json: &Json) -> (value: serde_json::Value) {
    match json {
        Json::Null => serde_json::Value::Null,
        Json::Bool(value) => serde_json::Value::Bool(*value),
        Json::Number(number) => number.text.parse().map_or(
            serde_json::Value::Null,
            serde_json::Value::Number,
        ),
        Json::Str(text) => serde_json::Value::String(text.clone()),
        Json::Array(items) => serde_json::Value::Array(items.iter().map(to_value).collect()),
        Json::Object(fields) => serde_json::Value::Object(
            fields.iter().map(|(name, value)| (name.clone(), to_value(value))).collect(),
        ),
    }
}

/// `serde_json::Value::to_string` writes a value as compact JSON. The result is named;
/// nothing is claimed of it but that it depends on the payload alone.
#[verifier::external_body]
fn write(json: &Json) -> (text: String)
    ensures
        text@ == encoded(json@),
{
    to_value(json).to_string()
}

impl Json {
    /// The compact JSON text of the payload.
    pub fn encode(&self) -> (text: String)
        ensures
            text@ == encoded(self@),
    {
        write(self)
    }

    /// Reads a text as JSON.
    pub fn parse(text: &str) -> (json: Option<Json>)
        ensures
            match json {
                Some(json) => decoded(text@) == Some(json@),
                None => decoded(text@) is None,
            },
    {
        decode(text)
    }
}

proof fn lemma_field_pushed(
    fields: Seq<(Seq<char>, JsonView)>,
    name: Seq<char>,
    value: JsonView,
    read: Seq<char>,
    from: int,
)
    requires
        0 <= from <= fields.len(),
    ensures
        field(fields.push((name, value)), read, from) == (match field(fields, read, from) {
            Some(held) => Some(held),
            None => if read == name {
                Some(value)
            } else {
                None
            },
        }),
    decreases fields.len() - from,
{
    let all = fields.push((name, value));
    if from < fields.len() {
        assert(all[from] == fields[from]);
        if fields[from].0 != read {
            lemma_field_pushed(fields, name, value, read, from + 1);
        }
    } else {
        assert(all[from] == (name, value));
        assert(field(all, read, from + 1) is None);
    }
}

/// A field that is added to an object reads back, unless the object had one of that
/// name, and changes no other field.
pub proof fn added_fields_read_back(
    object: JsonView,
    name: Seq<char>,
    value: JsonView,
    other: Seq<char>,
)
    requires
        object is Object,
    ensures
        object.get(name) is None ==> with_field(object, name, value).get(name) == Some(value),
        object.get(name) is Some ==> with_field(object, name, value).get(name) == object.get(name),
        other != name ==> with_field(object, name, value).get(other) == object.get(other),
        empty_object().get(other) is None,
{
    lemma_field_pushed(object->Object_0, name, value, name, 0);
    lemma_field_pushed(object->Object_0, name, value, other, 0);
}

/// A number that is written as a payload is read as that number.
pub proof fn numbers_read_back(unsigned: u64, signed: i64)
    ensures
        unsigned_number(unsigned).unsigned() == Some(unsigned),
        unsigned_number(unsigned)->Number_0.text == crate::text::decimal(unsigned as nat),
        signed >= 0 ==> signed_number(signed).unsigned() == Some(signed as u64),
        signed < 0 ==> signed_number(signed).unsigned() is None,
        signed_number(signed)->Number_0.signed == Some(signed),
{
}

} // verus!
