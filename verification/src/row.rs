//! Reading history-row payloads with lenient defaults: a missing or malformed
//! field reads as its empty value.

use crate::json::{Json, JsonView};
use vstd::prelude::*;

verus! {

/// The text of a field, empty where it has none.
pub open spec fn text_of(row: JsonView, key: Seq<char>) -> Seq<char> {
    match row.get(key) {
        Some(value) => match value.text() {
            Some(text) => text,
            None => Seq::empty(),
        },
        None => Seq::empty(),
    }
}

/// The truth of a field, false where it has none.
pub open spec fn truth_of(row: JsonView, key: Seq<char>) -> bool {
    match row.get(key) {
        Some(value) => value.boolean() == Some(true),
        None => false,
    }
}

/// The lane that a payload names.
pub open spec fn lane_value(value: JsonView) -> Option<u32> {
    match value.unsigned() {
        Some(lane) => if lane <= u32::MAX {
            Some(lane as u32)
        } else {
            None
        },
        None => None,
    }
}

/// The lanes that the first `n` items name.
pub open spec fn lanes_in(items: Seq<JsonView>, n: int) -> Seq<u32>
    decreases n,
{
    if n <= 0 {
        Seq::empty()
    } else {
        match lane_value(items[n - 1]) {
            Some(lane) => lanes_in(items, n - 1).push(lane),
            None => lanes_in(items, n - 1),
        }
    }
}

/// The lanes of a field.
pub open spec fn lanes_of(row: JsonView, key: Seq<char>) -> Seq<u32> {
    match row.get(key) {
        Some(value) => match value.items() {
            Some(items) => lanes_in(items, items.len() as int),
            None => Seq::empty(),
        },
        None => Seq::empty(),
    }
}

/// The pair of lanes that a payload names.
pub open spec fn pair_value(value: JsonView) -> Option<(u32, u32)> {
    match value.items() {
        Some(items) => if items.len() >= 2 && lane_value(items[0]) is Some && lane_value(
            items[1],
        ) is Some {
            Some((lane_value(items[0])->0, lane_value(items[1])->0))
        } else {
            None
        },
        None => None,
    }
}

/// The pairs of lanes that the first `n` items name.
pub open spec fn pairs_in(items: Seq<JsonView>, n: int) -> Seq<(u32, u32)>
    decreases n,
{
    if n <= 0 {
        Seq::empty()
    } else {
        match pair_value(items[n - 1]) {
            Some(pair) => pairs_in(items, n - 1).push(pair),
            None => pairs_in(items, n - 1),
        }
    }
}

/// The pairs of lanes of a field.
pub open spec fn pairs_of(row: JsonView, key: Seq<char>) -> Seq<(u32, u32)> {
    match row.get(key) {
        Some(value) => match value.items() {
            Some(items) => pairs_in(items, items.len() as int),
            None => Seq::empty(),
        },
        None => Seq::empty(),
    }
}

/// Read a string field (missing -> empty string).
pub fn text<'a>(value: &'a Json, key: &str) -> (read: &'a str)
    ensures
        read@ == text_of(value@, key@),
{
    match value.get(key) {
        Some(field) => match field.as_str() {
            Some(text) => text,
            None => empty_text(),
        },
        None => empty_text(),
    }
}

fn empty_text() -> (text: &'static str)
    ensures
        text@ == Seq::<char>::empty(),
{
    proof {
        reveal_strlit("");
    }
    assert(""@ =~= Seq::<char>::empty());
    ""
}

/// Read a string field as an owned `String`.
pub fn owned_str(value: &Json, key: &str) -> (text: String)
    ensures
        text@ == text_of(value@, key@),
{
    text(value, key).to_owned()
}

/// Read a boolean field (missing -> false).
pub fn truth(value: &Json, key: &str) -> (read: bool)
    ensures
        read == truth_of(value@, key@),
{
    match value.get(key) {
        Some(field) => match field.as_bool() {
            Some(truth) => truth,
            None => false,
        },
        None => false,
    }
}

fn read_lane(value: &Json) -> (lane: Option<u32>)
    ensures
        lane == lane_value(value@),
{
    match value.as_u64() {
        Some(lane) => if lane <= u32::MAX as u64 {
            Some(lane as u32)
        } else {
            None
        },
        None => None,
    }
}

/// The row's graph lane (missing -> 0).
pub fn lane(value: &Json) -> (lane: u32)
    ensures
        lane == match value@.get("lane"@) {
            Some(field) => match lane_value(field) {
                Some(lane) => lane,
                None => 0,
            },
            None => 0,
        },
{
    match value.get("lane") {
        Some(field) => match read_lane(field) {
            Some(lane) => lane,
            None => 0,
        },
        None => 0,
    }
}

fn lane_list(value: &Json, key: &str) -> (lanes: Vec<u32>)
    ensures
        lanes@ == lanes_of(value@, key@),
{
    let mut lanes: Vec<u32> = Vec::new();
    if let Some(field) = value.get(key) {
        if let Some(items) = field.as_array() {
            let ghost all = field@.items()->0;
            let mut i: usize = 0;
            while i < items.len()
                invariant
                    i <= items.len(),
                    all == Seq::new(items@.len(), |i: int| items@[i]@),
                    lanes@ == lanes_in(all, i as int),
                decreases items.len() - i,
            {
                assert(all[i as int] == items@[i as int]@);
                if let Some(lane) = read_lane(&items[i]) {
                    lanes.push(lane);
                }
                i = i + 1;
            }
        }
    }
    lanes
}

fn transition_list(value: &Json, key: &str) -> (pairs: Vec<(u32, u32)>)
    ensures
        pairs@ == pairs_of(value@, key@),
{
    let mut pairs: Vec<(u32, u32)> = Vec::new();
    if let Some(field) = value.get(key) {
        if let Some(items) = field.as_array() {
            let ghost all = field@.items()->0;
            let mut i: usize = 0;
            while i < items.len()
                invariant
                    i <= items.len(),
                    all == Seq::new(items@.len(), |i: int| items@[i]@),
                    pairs@ == pairs_in(all, i as int),
                decreases items.len() - i,
            {
                assert(all[i as int] == items@[i as int]@);
                if let Some(pair) = read_pair(&items[i]) {
                    pairs.push(pair);
                }
                i = i + 1;
            }
        }
    }
    pairs
}

fn read_pair(value: &Json) -> (pair: Option<(u32, u32)>)
    ensures
        pair == pair_value(value@),
{
    match value.as_array() {
        Some(list) => {
            if list.len() < 2 {
                return None;
            }
            match (read_lane(&list[0]), read_lane(&list[1])) {
                (Some(from), Some(to)) => Some((from, to)),
                _ => None,
            }
        },
        None => None,
    }
}

/// The lanes entering this row from above.
pub fn above(value: &Json) -> (lanes: Vec<u32>)
    ensures
        lanes@ == lanes_of(value@, "above"@),
{
    lane_list(value, "above")
}

/// The lanes leaving this row downward.
pub fn below(value: &Json) -> (lanes: Vec<u32>)
    ensures
        lanes@ == lanes_of(value@, "below"@),
{
    lane_list(value, "below")
}

/// The incoming lane halves owned exclusively by muted edges.
pub fn muted_above(value: &Json) -> (lanes: Vec<u32>)
    ensures
        lanes@ == lanes_of(value@, "muted_above"@),
{
    lane_list(value, "muted_above")
}

/// The outgoing lane halves owned exclusively by muted edges.
pub fn muted_below(value: &Json) -> (lanes: Vec<u32>)
    ensures
        lanes@ == lanes_of(value@, "muted_below"@),
{
    lane_list(value, "muted_below")
}

/// The directed (child-lane, parent-lane) transition pairs.
pub fn transitions(value: &Json) -> (pairs: Vec<(u32, u32)>)
    ensures
        pairs@ == pairs_of(value@, "transitions"@),
{
    transition_list(value, "transitions")
}

/// The cross-lane transitions owned exclusively by muted edges.
pub fn muted_transitions(value: &Json) -> (pairs: Vec<(u32, u32)>)
    ensures
        pairs@ == pairs_of(value@, "muted_transitions"@),
{
    transition_list(value, "muted_transitions")
}

/// Whether the text of a field is the text that the payload has there: texts are read as
/// they are, and anything else as none.
pub proof fn fields_are_read_by_their_type(row: JsonView, key: Seq<char>)
    ensures
        row.get(key) matches Some(JsonView::Str(text)) ==> text_of(row, key) == text,
        !(row.get(key) is Some && row.get(key)->0 is Str) ==> text_of(row, key)
            == Seq::<char>::empty(),
        truth_of(row, key) <==> row.get(key) == Some(JsonView::Bool(true)),
{
}

proof fn lemma_lanes(items: Seq<JsonView>, n: int)
    requires
        0 <= n <= items.len(),
    ensures
        lanes_in(items, n) == items.take(n).filter(
            |item: JsonView| item.unsigned() is Some && item.unsigned()->0 <= u32::MAX,
        ).map_values(|item: JsonView| item.unsigned()->0 as u32),
    decreases n,
{
    let names = |item: JsonView| item.unsigned() is Some && item.unsigned()->0 <= u32::MAX;
    let lane = |item: JsonView| item.unsigned()->0 as u32;
    if n > 0 {
        lemma_lanes(items, n - 1);
        let head = items.take(n - 1);
        let item = items[n - 1];
        assert(items.take(n) =~= head.push(item));
        head.lemma_filter_push(item, names);
        assert(head.filter(names).push(item).map_values(lane) =~= head.filter(names).map_values(
            lane,
        ).push(lane(item)));
    } else {
        reveal(Seq::filter);
        assert(items.take(0) =~= Seq::empty());
        assert(items.take(0).filter(names).map_values(lane) =~= Seq::empty());
    }
}

/// The lanes of a field are its numbers that a lane can have, in order; everything else in
/// the list is passed over.
pub proof fn lanes_are_read_in_order(items: Seq<JsonView>)
    ensures
        lanes_in(items, items.len() as int) == items.filter(
            |item: JsonView| item.unsigned() is Some && item.unsigned()->0 <= u32::MAX,
        ).map_values(|item: JsonView| item.unsigned()->0 as u32),
{
    lemma_lanes(items, items.len() as int);
    assert(items.take(items.len() as int) =~= items);
}

/// Whether an item names a transition between two lanes.
pub open spec fn names_pair(item: JsonView) -> bool {
    item matches JsonView::Array(ends) && ends.len() >= 2 && ends[0].unsigned() is Some
        && ends[0].unsigned()->0 <= u32::MAX && ends[1].unsigned() is Some && ends[1].unsigned()->0
        <= u32::MAX
}

/// The transition that an item names.
pub open spec fn named_pair(item: JsonView) -> (u32, u32) {
    (item->Array_0[0].unsigned()->0 as u32, item->Array_0[1].unsigned()->0 as u32)
}

proof fn lemma_pairs(items: Seq<JsonView>, n: int)
    requires
        0 <= n <= items.len(),
    ensures
        pairs_in(items, n) == items.take(n).filter(|item: JsonView| names_pair(item)).map_values(
            |item: JsonView| named_pair(item),
        ),
    decreases n,
{
    let names = |item: JsonView| names_pair(item);
    let pair = |item: JsonView| named_pair(item);
    if n > 0 {
        lemma_pairs(items, n - 1);
        let head = items.take(n - 1);
        let item = items[n - 1];
        assert(items.take(n) =~= head.push(item));
        head.lemma_filter_push(item, names);
        assert(head.filter(names).push(item).map_values(pair) =~= head.filter(names).map_values(
            pair,
        ).push(pair(item)));
    } else {
        reveal(Seq::filter);
        assert(items.take(0) =~= Seq::empty());
        assert(items.take(0).filter(names).map_values(pair) =~= Seq::empty());
    }
}

/// The transitions of a field are its pairs of lanes, in order, each from its first lane to
/// its second; everything else in the list is passed over.
pub proof fn transitions_are_read_in_order(items: Seq<JsonView>)
    ensures
        pairs_in(items, items.len() as int) == items.filter(
            |item: JsonView| names_pair(item),
        ).map_values(|item: JsonView| named_pair(item)),
{
    lemma_pairs(items, items.len() as int);
    assert(items.take(items.len() as int) =~= items);
}

} // verus!
