//! What is painted of the graph of one row, and in which colours.
//!
//! Positions are symbolic here: lanes across, levels down. The renderer turns
//! them into pixels.

use crate::text::{chars_of, joined, same_text};
use vstd::prelude::*;

verus! {

/// A colour with opacity, a byte for each component.
#[derive(Debug, Clone, Copy, PartialEq, Eq, Structural)]
pub struct Rgba {
    pub red: u8,
    pub green: u8,
    pub blue: u8,
    pub alpha: u8,
}

/// The value of a hexadecimal digit.
pub open spec fn nibble(digit: char) -> Option<int> {
    if '0' as int <= digit as int <= '9' as int {
        Some(digit as int - '0' as int)
    } else if 'a' as int <= digit as int <= 'f' as int {
        Some(digit as int - 'a' as int + 10)
    } else if 'A' as int <= digit as int <= 'F' as int {
        Some(digit as int - 'A' as int + 10)
    } else {
        None
    }
}

/// The value of a hexadecimal digit.
pub fn hex_nibble(digit: char) -> (value: Option<u8>)
    ensures
        match value {
            Some(value) => nibble(digit) == Some(value as int) && value < 16,
            None => nibble(digit) is None,
        },
{
    if '0' <= digit && digit <= '9' {
        Some((digit as u32 - '0' as u32) as u8)
    } else if 'a' <= digit && digit <= 'f' {
        Some((digit as u32 - 'a' as u32) as u8 + 10)
    } else if 'A' <= digit && digit <= 'F' {
        Some((digit as u32 - 'A' as u32) as u8 + 10)
    } else {
        None
    }
}

/// The component that two digits spell.
pub open spec fn pair_at(digits: Seq<char>, at: int) -> int {
    nibble(digits[at])->0 * 16 + nibble(digits[at + 1])->0
}

/// The component that one digit spells, doubled.
pub open spec fn double_at(digits: Seq<char>, at: int) -> int {
    nibble(digits[at])->0 * 17
}

/// Whether all characters are hexadecimal digits.
pub open spec fn all_hex(digits: Seq<char>) -> bool {
    forall|i: int| 0 <= i < digits.len() ==> nibble(#[trigger] digits[i]) is Some
}

/// The colour that the digits behind the number sign spell: one or two digits
/// for red, green, blue, and optionally the opacity.
pub open spec fn spelled_color(digits: Seq<char>) -> Option<Rgba> {
    if !all_hex(digits) {
        None
    } else if digits.len() == 3 || digits.len() == 4 {
        Some(
            Rgba {
                red: double_at(digits, 0) as u8,
                green: double_at(digits, 1) as u8,
                blue: double_at(digits, 2) as u8,
                alpha: if digits.len() == 4 {
                    double_at(digits, 3) as u8
                } else {
                    255
                },
            },
        )
    } else if digits.len() == 6 || digits.len() == 8 {
        Some(
            Rgba {
                red: pair_at(digits, 0) as u8,
                green: pair_at(digits, 2) as u8,
                blue: pair_at(digits, 4) as u8,
                alpha: if digits.len() == 8 {
                    pair_at(digits, 6) as u8
                } else {
                    255
                },
            },
        )
    } else {
        None
    }
}

/// The colour of a CSS hexadecimal notation: `#rgb`, `#rgba`, `#rrggbb`, or
/// `#rrggbbaa`.
pub open spec fn css_color(value: Seq<char>) -> Option<Rgba> {
    if value.len() > 0 && value[0] == '#' {
        spelled_color(value.skip(1))
    } else {
        None
    }
}

fn doubled_hex_channel(value: u8) -> (channel: u8)
    requires
        value < 16,
    ensures
        channel == value * 17,
{
    value * 17
}

fn paired_hex_channel(high: u8, low: u8) -> (channel: u8)
    requires
        high < 16,
        low < 16,
    ensures
        channel == high * 16 + low,
{
    high * 16 + low
}

/// Reads a CSS hexadecimal colour.
pub fn parse_css_hex_color(value: &str) -> (color: Option<Rgba>)
    ensures
        color == css_color(value@),
{
    let chars = chars_of(value);
    if chars.len() == 0 || chars[0] != '#' {
        return None;
    }
    let ghost digits = value@.skip(1);
    let mut values: Vec<u8> = Vec::new();
    let mut i: usize = 1;
    while i < chars.len()
        invariant
            1 <= i <= chars.len(),
            chars@ == value@,
            digits == value@.skip(1),
            values@.len() == i - 1,
            forall|k: int|
                0 <= k < values@.len() ==> nibble(digits[k]) == Some(#[trigger] values@[k] as int)
                    && values@[k] < 16,
        decreases chars.len() - i,
    {
        match hex_nibble(chars[i]) {
            Some(nibble_value) => {
                values.push(nibble_value);
            },
            None => {
                assert(nibble(digits[i - 1]) is None);
                return None;
            },
        }
        i = i + 1;
    }
    assert(all_hex(digits)) by {
        assert forall|k: int| 0 <= k < digits.len() implies nibble(#[trigger] digits[k]) is Some by {
            assert(nibble(digits[k]) == Some(values@[k] as int));
        }
    }
    if values.len() == 3 || values.len() == 4 {
        let red: u8 = doubled_hex_channel(values[0]);
        let green: u8 = doubled_hex_channel(values[1]);
        let blue: u8 = doubled_hex_channel(values[2]);
        let alpha: u8 = if values.len() == 4 {
            doubled_hex_channel(values[3])
        } else {
            255
        };
        Some(Rgba { red, green, blue, alpha })
    } else if values.len() == 6 || values.len() == 8 {
        let red: u8 = paired_hex_channel(values[0], values[1]);
        let green: u8 = paired_hex_channel(values[2], values[3]);
        let blue: u8 = paired_hex_channel(values[4], values[5]);
        let alpha: u8 = if values.len() == 8 {
            paired_hex_channel(values[6], values[7])
        } else {
            255
        };
        Some(Rgba { red, green, blue, alpha })
    } else {
        None
    }
}

/// The short notation of a colour stands for the notation with each digit doubled.
pub proof fn short_notation_doubles_each_digit(r: char, g: char, b: char, a: char)
    ensures
        css_color(seq!['#', r, g, b]) == css_color(seq!['#', r, r, g, g, b, b]),
        css_color(seq!['#', r, g, b, a]) == css_color(seq!['#', r, r, g, g, b, b, a, a]),
{
    let three = seq!['#', r, g, b].skip(1);
    let six = seq!['#', r, r, g, g, b, b].skip(1);
    let four = seq!['#', r, g, b, a].skip(1);
    let eight = seq!['#', r, r, g, g, b, b, a, a].skip(1);
    assert(three =~= seq![r, g, b]);
    assert(six =~= seq![r, r, g, g, b, b]);
    assert(four =~= seq![r, g, b, a]);
    assert(eight =~= seq![r, r, g, g, b, b, a, a]);
    assert(nibble(three[0]) == nibble(six[0]) && nibble(three[1]) == nibble(six[2]) && nibble(
        three[2],
    ) == nibble(six[4]));
    assert(all_hex(three) == all_hex(six)) by {
        if all_hex(three) {
            assert(nibble(three[0]) is Some && nibble(three[1]) is Some && nibble(three[2]) is Some);
        }
        if all_hex(six) {
            assert(nibble(six[0]) is Some && nibble(six[2]) is Some && nibble(six[4]) is Some);
        }
    }
    assert(all_hex(four) == all_hex(eight)) by {
        if all_hex(four) {
            assert(nibble(four[0]) is Some && nibble(four[1]) is Some && nibble(four[2]) is Some
                && nibble(four[3]) is Some);
        }
        if all_hex(eight) {
            assert(nibble(eight[0]) is Some && nibble(eight[2]) is Some && nibble(eight[4]) is Some
                && nibble(eight[6]) is Some);
        }
    }
}

/// The number of lane colours; lanes beyond it start over.
pub const PALETTE_LEN: u32 = 10;

/// The colour of a lane.
pub open spec fn palette(lane: int) -> Rgba {
    let (red, green, blue) = seq![
        (0x48u8, 0xf1u8, 0xdcu8),
        (0xa1u8, 0x8au8, 0xffu8),
        (0x6eu8, 0xe7u8, 0xa2u8),
        (0x5cu8, 0xa8u8, 0xffu8),
        (0xffu8, 0xc8u8, 0x6au8),
        (0xffu8, 0x70u8, 0xa6u8),
        (0x72u8, 0xddu8, 0xf7u8),
        (0xc7u8, 0x7du8, 0xffu8),
        (0x64u8, 0xdfu8, 0xdfu8),
        (0xffu8, 0x8fu8, 0xa3u8),
    ][lane % 10];
    Rgba { red, green, blue, alpha: 255 }
}

/// The colour of a lane.
pub fn lane_color(lane: u32) -> (color: Rgba)
    ensures
        color == palette(lane as int),
{
    let (red, green, blue): (u8, u8, u8) = match lane % PALETTE_LEN {
        0 => (0x48, 0xf1, 0xdc),
        1 => (0xa1, 0x8a, 0xff),
        2 => (0x6e, 0xe7, 0xa2),
        3 => (0x5c, 0xa8, 0xff),
        4 => (0xff, 0xc8, 0x6a),
        5 => (0xff, 0x70, 0xa6),
        6 => (0x72, 0xdd, 0xf7),
        7 => (0xc7, 0x7d, 0xff),
        8 => (0x64, 0xdf, 0xdf),
        _ => (0xff, 0x8f, 0xa3),
    };
    Rgba { red, green, blue, alpha: 255 }
}

/// The graph of one row.
#[derive(Debug, Clone, PartialEq, Eq)]
pub struct RenderRow {
    /// The lane of the node.
    pub lane: u32,
    /// The lanes that enter from above.
    pub above: Vec<u32>,
    /// The lanes that leave below.
    pub below: Vec<u32>,
    /// The pairs of lanes that change over within the row.
    pub transitions: Vec<(u32, u32)>,
    pub is_subop: bool,
    pub is_bundle: bool,
}

/// A transition that is painted, and which of its ends are at the node.
#[derive(Debug, Clone, Copy, PartialEq, Eq, Structural)]
pub struct RenderedTransition {
    pub from_lane: u32,
    pub to_lane: u32,
    pub start_at_dot: bool,
    pub end_at_dot: bool,
}

/// Whether a transition is painted: it starts at the node or in a lane from
/// above, and ends at the node or in a lane below.
pub open spec fn anchored(row: RenderRow, pair: (u32, u32)) -> bool {
    &&& row.lane == pair.0 || row.above@.contains(pair.0)
    &&& row.lane == pair.1 || row.below@.contains(pair.1)
}

/// How a transition is painted.
pub open spec fn rendered(row: RenderRow, pair: (u32, u32)) -> RenderedTransition {
    RenderedTransition {
        from_lane: pair.0,
        to_lane: pair.1,
        start_at_dot: row.lane == pair.0,
        end_at_dot: row.lane == pair.1,
    }
}

/// The painted transitions among the first `n`.
pub open spec fn resolved(row: RenderRow, n: int) -> Seq<RenderedTransition>
    decreases n,
{
    if n <= 0 {
        Seq::empty()
    } else if anchored(row, row.transitions@[n - 1]) {
        resolved(row, n - 1).push(rendered(row, row.transitions@[n - 1]))
    } else {
        resolved(row, n - 1)
    }
}

fn holds(lanes: &Vec<u32>, lane: u32) -> (yes: bool)
    ensures
        yes == lanes@.contains(lane),
{
    let mut i: usize = 0;
    while i < lanes.len()
        invariant
            i <= lanes.len(),
            forall|k: int| 0 <= k < i ==> #[trigger] lanes@[k] != lane,
        decreases lanes.len() - i,
    {
        if lanes[i] == lane {
            assert(lanes@[i as int] == lane);
            return true;
        }
        i = i + 1;
    }
    false
}

/// The painted transitions of a row.
pub fn resolved_transitions(row: &RenderRow) -> (out: Vec<RenderedTransition>)
    ensures
        out@ == resolved(*row, row.transitions@.len() as int),
{
    let mut out: Vec<RenderedTransition> = Vec::new();
    let mut i: usize = 0;
    while i < row.transitions.len()
        invariant
            i <= row.transitions.len(),
            out@ == resolved(*row, i as int),
        decreases row.transitions.len() - i,
    {
        let (from_lane, to_lane) = row.transitions[i];
        let start_at_dot = row.lane == from_lane;
        let end_at_dot = row.lane == to_lane;
        let start_connected = start_at_dot || holds(&row.above, from_lane);
        let end_connected = end_at_dot || holds(&row.below, to_lane);
        if start_connected && end_connected {
            out.push(RenderedTransition { from_lane, to_lane, start_at_dot, end_at_dot });
        }
        i = i + 1;
    }
    out
}

/// A height within a row. `Entry` and `Exit` are where lines meet the upper and
/// the lower end of a bundle.
#[derive(Debug, Clone, Copy, PartialEq, Eq, Structural)]
pub enum Level {
    Top,
    Entry,
    Middle,
    Exit,
    Bottom,
}

/// One thing that is painted of a row.
#[derive(Debug, Clone, Copy, PartialEq, Eq, Structural)]
pub enum Mark {
    /// A vertical line in a lane.
    Line { lane: u32, from: Level, to: Level },
    /// A curve from one lane to another.
    Curve { transition: RenderedTransition, from: Level, to: Level },
    /// The dot of the node.
    Dot { lane: u32 },
    /// The capsule of a bundle and its two terminals.
    Bundle { lane: u32 },
}

/// Whether one of the first `n` transitions takes over the lane at the top.
pub open spec fn owns_top(rendered: Seq<RenderedTransition>, lane: u32, n: int) -> bool {
    exists|i: int|
        0 <= i < n && !(#[trigger] rendered[i]).start_at_dot && rendered[i].from_lane == lane
}

/// Whether one of the first `n` transitions takes over the lane at the bottom.
pub open spec fn owns_bottom(rendered: Seq<RenderedTransition>, lane: u32, n: int) -> bool {
    exists|i: int|
        0 <= i < n && !(#[trigger] rendered[i]).end_at_dot && rendered[i].to_lane == lane
}

/// The upper half of a lane.
pub open spec fn upper(row: RenderRow, lane: u32) -> Mark {
    Mark::Line {
        lane,
        from: Level::Top,
        to: if row.is_bundle && lane == row.lane {
            Level::Entry
        } else {
            Level::Middle
        },
    }
}

/// The lower half of a lane.
pub open spec fn lower(row: RenderRow, lane: u32) -> Mark {
    Mark::Line {
        lane,
        from: if row.is_bundle && lane == row.lane {
            Level::Exit
        } else {
            Level::Middle
        },
        to: Level::Bottom,
    }
}

/// The curve of a transition.
pub open spec fn curve(row: RenderRow, transition: RenderedTransition) -> Mark {
    Mark::Curve {
        transition,
        from: if !transition.start_at_dot {
            Level::Top
        } else if row.is_bundle {
            Level::Exit
        } else {
            Level::Middle
        },
        to: if !transition.end_at_dot {
            Level::Bottom
        } else if row.is_bundle {
            Level::Entry
        } else {
            Level::Middle
        },
    }
}

/// The upper halves of the first `n` lanes from above that no transition takes over.
pub open spec fn upper_halves(row: RenderRow, rendered: Seq<RenderedTransition>, n: int) -> Seq<
    Mark,
>
    decreases n,
{
    if n <= 0 {
        Seq::empty()
    } else if owns_top(rendered, row.above@[n - 1], rendered.len() as int) {
        upper_halves(row, rendered, n - 1)
    } else {
        upper_halves(row, rendered, n - 1).push(upper(row, row.above@[n - 1]))
    }
}

/// The lower halves of the first `n` lanes below that no transition takes over.
pub open spec fn lower_halves(row: RenderRow, rendered: Seq<RenderedTransition>, n: int) -> Seq<
    Mark,
>
    decreases n,
{
    if n <= 0 {
        Seq::empty()
    } else if owns_bottom(rendered, row.below@[n - 1], rendered.len() as int) {
        lower_halves(row, rendered, n - 1)
    } else {
        lower_halves(row, rendered, n - 1).push(lower(row, row.below@[n - 1]))
    }
}

/// The curves of all transitions.
pub open spec fn curves(row: RenderRow, rendered: Seq<RenderedTransition>) -> Seq<Mark> {
    Seq::new(rendered.len(), |i: int| curve(row, rendered[i]))
}

/// The node, which sub-operations do not have.
pub open spec fn node(row: RenderRow) -> Seq<Mark> {
    if row.is_subop {
        Seq::empty()
    } else if row.is_bundle {
        seq![Mark::Bundle { lane: row.lane }]
    } else {
        seq![Mark::Dot { lane: row.lane }]
    }
}

/// Everything that is painted of a row, back to front.
pub open spec fn marks(row: RenderRow) -> Seq<Mark> {
    let transitions = resolved(row, row.transitions@.len() as int);
    upper_halves(row, transitions, row.above@.len() as int) + lower_halves(
        row,
        transitions,
        row.below@.len() as int,
    ) + curves(row, transitions) + node(row)
}

fn top_owned(rendered: &Vec<RenderedTransition>, lane: u32) -> (yes: bool)
    ensures
        yes == owns_top(rendered@, lane, rendered@.len() as int),
{
    let mut i: usize = 0;
    while i < rendered.len()
        invariant
            i <= rendered.len(),
            !owns_top(rendered@, lane, i as int),
        decreases rendered.len() - i,
    {
        if !rendered[i].start_at_dot && rendered[i].from_lane == lane {
            assert(!rendered@[i as int].start_at_dot);
            return true;
        }
        i = i + 1;
    }
    false
}

fn bottom_owned(rendered: &Vec<RenderedTransition>, lane: u32) -> (yes: bool)
    ensures
        yes == owns_bottom(rendered@, lane, rendered@.len() as int),
{
    let mut i: usize = 0;
    while i < rendered.len()
        invariant
            i <= rendered.len(),
            !owns_bottom(rendered@, lane, i as int),
        decreases rendered.len() - i,
    {
        if !rendered[i].end_at_dot && rendered[i].to_lane == lane {
            assert(!rendered@[i as int].end_at_dot);
            return true;
        }
        i = i + 1;
    }
    false
}

/// Everything that is painted of a row, back to front.
pub fn row_marks(row: &RenderRow) -> (out: Vec<Mark>)
    ensures
        out@ == marks(*row),
{
    let rendered = resolved_transitions(row);
    let mut out: Vec<Mark> = Vec::new();
    let mut i: usize = 0;
    assert(out@ =~= upper_halves(*row, rendered@, 0));
    while i < row.above.len()
        invariant
            i <= row.above.len(),
            out@ == upper_halves(*row, rendered@, i as int),
        decreases row.above.len() - i,
    {
        let lane: u32 = row.above[i];
        if !top_owned(&rendered, lane) {
            let to = if row.is_bundle && lane == row.lane {
                Level::Entry
            } else {
                Level::Middle
            };
            out.push(Mark::Line { lane, from: Level::Top, to });
        }
        i = i + 1;
    }
    let ghost uppers = out@;
    let mut i: usize = 0;
    assert(out@ =~= uppers + lower_halves(*row, rendered@, 0));
    while i < row.below.len()
        invariant
            i <= row.below.len(),
            out@ == uppers + lower_halves(*row, rendered@, i as int),
        decreases row.below.len() - i,
    {
        let lane: u32 = row.below[i];
        if !bottom_owned(&rendered, lane) {
            let from = if row.is_bundle && lane == row.lane {
                Level::Exit
            } else {
                Level::Middle
            };
            out.push(Mark::Line { lane, from, to: Level::Bottom });
            assert(out@ =~= uppers + lower_halves(*row, rendered@, i + 1));
        }
        i = i + 1;
    }
    let ghost halves = out@;
    let ghost all = curves(*row, rendered@);
    let mut i: usize = 0;
    assert(out@ =~= halves + all.take(0));
    while i < rendered.len()
        invariant
            i <= rendered.len(),
            all == curves(*row, rendered@),
            out@ == halves + all.take(i as int),
        decreases rendered.len() - i,
    {
        let transition = rendered[i];
        let from = if !transition.start_at_dot {
            Level::Top
        } else if row.is_bundle {
            Level::Exit
        } else {
            Level::Middle
        };
        let to = if !transition.end_at_dot {
            Level::Bottom
        } else if row.is_bundle {
            Level::Entry
        } else {
            Level::Middle
        };
        out.push(Mark::Curve { transition, from, to });
        assert(all.take(i + 1) =~= all.take(i as int).push(all[i as int]));
        assert(out@ =~= halves + all.take(i + 1));
        i = i + 1;
    }
    assert(all.take(i as int) =~= all);
    if !row.is_subop {
        if row.is_bundle {
            out.push(Mark::Bundle { lane: row.lane });
        } else {
            out.push(Mark::Dot { lane: row.lane });
        }
    }
    assert(out@ =~= marks(*row));
    out
}

proof fn resolved_are_anchored(row: RenderRow, n: int)
    requires
        0 <= n <= row.transitions@.len(),
    ensures
        forall|i: int|
            #![trigger resolved(row, n)[i]]
            0 <= i < resolved(row, n).len() ==> {
                let t = resolved(row, n)[i];
                &&& t.start_at_dot == (row.lane == t.from_lane)
                &&& t.end_at_dot == (row.lane == t.to_lane)
                &&& t.start_at_dot || row.above@.contains(t.from_lane)
                &&& t.end_at_dot || row.below@.contains(t.to_lane)
            },
    decreases n,
{
    if n > 0 {
        resolved_are_anchored(row, n - 1);
        let before = resolved(row, n - 1);
        let now = resolved(row, n);
        assert forall|i: int| #![trigger now[i]] 0 <= i < now.len() implies {
            let t = now[i];
            &&& t.start_at_dot == (row.lane == t.from_lane)
            &&& t.end_at_dot == (row.lane == t.to_lane)
            &&& t.start_at_dot || row.above@.contains(t.from_lane)
            &&& t.end_at_dot || row.below@.contains(t.to_lane)
        } by {
            if i < before.len() {
                assert(now[i] == before[i]);
            }
        }
    }
}

/// No dangling transition is painted: each starts at the node or in a lane from
/// above, and ends at the node or in a lane below.
pub proof fn painted_transitions_are_anchored(row: RenderRow, i: int)
    requires
        0 <= i < resolved(row, row.transitions@.len() as int).len(),
    ensures
        ({
            let t = resolved(row, row.transitions@.len() as int)[i];
            &&& row.lane == t.from_lane || row.above@.contains(t.from_lane)
            &&& row.lane == t.to_lane || row.below@.contains(t.to_lane)
        }),
{
    resolved_are_anchored(row, row.transitions@.len() as int);
}

proof fn upper_halves_are_unowned(row: RenderRow, rendered: Seq<RenderedTransition>, n: int)
    requires
        0 <= n <= row.above@.len(),
    ensures
        forall|i: int|
            #![trigger upper_halves(row, rendered, n)[i]]
            0 <= i < upper_halves(row, rendered, n).len() ==> exists|lane: u32|
                upper_halves(row, rendered, n)[i] == #[trigger] upper(row, lane) && !owns_top(
                    rendered,
                    lane,
                    rendered.len() as int,
                ),
    decreases n,
{
    if n > 0 {
        upper_halves_are_unowned(row, rendered, n - 1);
        let before = upper_halves(row, rendered, n - 1);
        let now = upper_halves(row, rendered, n);
        assert forall|i: int| #![trigger now[i]] 0 <= i < now.len() implies exists|lane: u32|
            now[i] == #[trigger] upper(row, lane) && !owns_top(
                rendered,
                lane,
                rendered.len() as int,
            ) by {
            if i < before.len() {
                assert(now[i] == before[i]);
            } else {
                assert(now[i] == upper(row, row.above@[n - 1]));
            }
        }
    }
}

proof fn lower_halves_are_unowned(row: RenderRow, rendered: Seq<RenderedTransition>, n: int)
    requires
        0 <= n <= row.below@.len(),
    ensures
        forall|i: int|
            #![trigger lower_halves(row, rendered, n)[i]]
            0 <= i < lower_halves(row, rendered, n).len() ==> exists|lane: u32|
                lower_halves(row, rendered, n)[i] == #[trigger] lower(row, lane) && !owns_bottom(
                    rendered,
                    lane,
                    rendered.len() as int,
                ),
    decreases n,
{
    if n > 0 {
        lower_halves_are_unowned(row, rendered, n - 1);
        let before = lower_halves(row, rendered, n - 1);
        let now = lower_halves(row, rendered, n);
        assert forall|i: int| #![trigger now[i]] 0 <= i < now.len() implies exists|lane: u32|
            now[i] == #[trigger] lower(row, lane) && !owns_bottom(
                rendered,
                lane,
                rendered.len() as int,
            ) by {
            if i < before.len() {
                assert(now[i] == before[i]);
            } else {
                assert(now[i] == lower(row, row.below@[n - 1]));
            }
        }
    }
}

/// A transition takes the place of the straight half of its lane: no lane has
/// both a straight half and a curve at the same edge of the row.
pub proof fn no_half_is_painted_twice(row: RenderRow, line: int, bend: int)
    requires
        0 <= line < marks(row).len(),
        0 <= bend < marks(row).len(),
        marks(row)[line] is Line,
        marks(row)[bend] is Curve,
    ensures
        ({
            let lane = marks(row)[line]->Line_lane;
            let transition = marks(row)[bend]->transition;
            &&& marks(row)[line]->Line_from == Level::Top && marks(row)[bend]->Curve_from
                == Level::Top ==> lane != transition.from_lane
            &&& marks(row)[line]->Line_to == Level::Bottom && marks(row)[bend]->Curve_to
                == Level::Bottom ==> lane != transition.to_lane
        }),
{
    let all = marks(row);
    let transitions = resolved(row, row.transitions@.len() as int);
    let uppers = upper_halves(row, transitions, row.above@.len() as int);
    let lowers = lower_halves(row, transitions, row.below@.len() as int);
    let bends = curves(row, transitions);
    upper_halves_are_unowned(row, transitions, row.above@.len() as int);
    lower_halves_are_unowned(row, transitions, row.below@.len() as int);
    let straight = uppers.len() + lowers.len();
    assert(all.len() == straight + bends.len() + node(row).len());
    if bend < uppers.len() {
        assert(all[bend] == uppers[bend]);
    } else if bend < straight {
        assert(all[bend] == lowers[bend - uppers.len()]);
    } else if bend < straight + bends.len() {
        let k = bend - straight;
        assert(all[bend] == bends[k]);
        assert(all[bend] == curve(row, transitions[k]));
        if line < uppers.len() {
            assert(all[line] == uppers[line]);
            if !transitions[k].start_at_dot {
                assert(owns_top(transitions, transitions[k].from_lane, transitions.len() as int));
            }
        } else if line < straight {
            assert(all[line] == lowers[line - uppers.len()]);
            if !transitions[k].end_at_dot {
                assert(owns_bottom(transitions, transitions[k].to_lane, transitions.len() as int));
            }
        } else if line < straight + bends.len() {
            assert(all[line] == bends[line - straight]);
        } else {
            assert(all[line] == node(row)[line - straight - bends.len()]);
        }
    } else {
        assert(all[bend] == node(row)[bend - straight - bends.len()]);
    }
}

proof fn lemma_upper_half(row: RenderRow, rendered: Seq<RenderedTransition>, n: int, i: int)
    requires
        0 <= i < n <= row.above@.len(),
        !owns_top(rendered, row.above@[i], rendered.len() as int),
    ensures
        upper_halves(row, rendered, n).contains(upper(row, row.above@[i])),
    decreases n,
{
    let now = upper_halves(row, rendered, n);
    if i == n - 1 {
        assert(now[now.len() - 1] == upper(row, row.above@[i]));
    } else {
        lemma_upper_half(row, rendered, n - 1, i);
        let before = upper_halves(row, rendered, n - 1);
        let k = choose|k: int| 0 <= k < before.len() && before[k] == upper(row, row.above@[i]);
        assert(now[k] == before[k]);
    }
}

proof fn lemma_lower_half(row: RenderRow, rendered: Seq<RenderedTransition>, n: int, i: int)
    requires
        0 <= i < n <= row.below@.len(),
        !owns_bottom(rendered, row.below@[i], rendered.len() as int),
    ensures
        lower_halves(row, rendered, n).contains(lower(row, row.below@[i])),
    decreases n,
{
    let now = lower_halves(row, rendered, n);
    if i == n - 1 {
        assert(now[now.len() - 1] == lower(row, row.below@[i]));
    } else {
        lemma_lower_half(row, rendered, n - 1, i);
        let before = lower_halves(row, rendered, n - 1);
        let k = choose|k: int| 0 <= k < before.len() && before[k] == lower(row, row.below@[i]);
        assert(now[k] == before[k]);
    }
}

/// Where the parts of what is painted stand.
proof fn lemma_parts(row: RenderRow)
    ensures
        ({
            let transitions = resolved(row, row.transitions@.len() as int);
            let uppers = upper_halves(row, transitions, row.above@.len() as int);
            let lowers = lower_halves(row, transitions, row.below@.len() as int);
            let straight = uppers.len() + lowers.len();
            let all = marks(row);
            &&& all.len() == straight + transitions.len() + node(row).len()
            &&& forall|k: int| 0 <= k < uppers.len() ==> all[k] == #[trigger] uppers[k]
            &&& forall|k: int|
                0 <= k < lowers.len() ==> all[uppers.len() + k] == #[trigger] lowers[k]
            &&& forall|k: int|
                0 <= k < transitions.len() ==> all[straight + k] == curve(
                    row,
                    #[trigger] transitions[k],
                )
            &&& forall|k: int|
                0 <= k < node(row).len() ==> all[straight + transitions.len() + k]
                    == #[trigger] node(row)[k]
        }),
{
}

/// Whether something that is painted reaches the top edge in a lane.
pub open spec fn at_top(mark: Mark, lane: u32) -> bool {
    match mark {
        Mark::Line { lane: line, from, .. } => line == lane && from == Level::Top,
        Mark::Curve { transition, from, .. } => transition.from_lane == lane && from == Level::Top,
        _ => false,
    }
}

/// Whether something that is painted reaches the bottom edge in a lane.
pub open spec fn at_bottom(mark: Mark, lane: u32) -> bool {
    match mark {
        Mark::Line { lane: line, to, .. } => line == lane && to == Level::Bottom,
        Mark::Curve { transition, to, .. } => transition.to_lane == lane && to == Level::Bottom,
        _ => false,
    }
}

/// Every lane that comes from above is painted at the top edge, so that branches pass
/// rows without gaps.
pub proof fn lanes_from_above_reach_the_top(row: RenderRow, i: int)
    requires
        0 <= i < row.above@.len(),
    ensures
        exists|k: int|
            0 <= k < marks(row).len() && at_top(#[trigger] marks(row)[k], row.above@[i]),
{
    let transitions = resolved(row, row.transitions@.len() as int);
    let uppers = upper_halves(row, transitions, row.above@.len() as int);
    let lowers = lower_halves(row, transitions, row.below@.len() as int);
    let lane = row.above@[i];
    lemma_parts(row);
    if owns_top(transitions, lane, transitions.len() as int) {
        let k = choose|k: int|
            0 <= k < transitions.len() && !(#[trigger] transitions[k]).start_at_dot
                && transitions[k].from_lane == lane;
        assert(at_top(marks(row)[uppers.len() + lowers.len() + k], lane));
    } else {
        lemma_upper_half(row, transitions, row.above@.len() as int, i);
        let k = choose|k: int| 0 <= k < uppers.len() && uppers[k] == upper(row, lane);
        assert(at_top(marks(row)[k], lane));
    }
}

/// Every lane that goes on below is painted at the bottom edge.
pub proof fn lanes_below_reach_the_bottom(row: RenderRow, i: int)
    requires
        0 <= i < row.below@.len(),
    ensures
        exists|k: int|
            0 <= k < marks(row).len() && at_bottom(#[trigger] marks(row)[k], row.below@[i]),
{
    let transitions = resolved(row, row.transitions@.len() as int);
    let uppers = upper_halves(row, transitions, row.above@.len() as int);
    let lowers = lower_halves(row, transitions, row.below@.len() as int);
    let lane = row.below@[i];
    lemma_parts(row);
    if owns_bottom(transitions, lane, transitions.len() as int) {
        let k = choose|k: int|
            0 <= k < transitions.len() && !(#[trigger] transitions[k]).end_at_dot
                && transitions[k].to_lane == lane;
        assert(at_bottom(marks(row)[uppers.len() + lowers.len() + k], lane));
    } else {
        lemma_lower_half(row, transitions, row.below@.len() as int, i);
        let k = choose|k: int| 0 <= k < lowers.len() && lowers[k] == lower(row, lane);
        assert(at_bottom(marks(row)[uppers.len() + k], lane));
    }
}

proof fn lemma_uppers_come_from_above(
    row: RenderRow,
    rendered: Seq<RenderedTransition>,
    n: int,
    k: int,
)
    requires
        0 <= n <= row.above@.len(),
        0 <= k < upper_halves(row, rendered, n).len(),
    ensures
        exists|i: int|
            0 <= i < n && upper_halves(row, rendered, n)[k] == upper(row, #[trigger] row.above@[i]),
    decreases n,
{
    if n > 0 {
        let before = upper_halves(row, rendered, n - 1);
        if k < before.len() {
            lemma_uppers_come_from_above(row, rendered, n - 1, k);
            let i = choose|i: int|
                0 <= i < n - 1 && before[k] == upper(row, #[trigger] row.above@[i]);
            assert(upper_halves(row, rendered, n)[k] == upper(row, row.above@[i]));
        } else {
            assert(upper_halves(row, rendered, n)[k] == upper(row, row.above@[n - 1]));
        }
    }
}

proof fn lemma_lowers_go_below(
    row: RenderRow,
    rendered: Seq<RenderedTransition>,
    n: int,
    k: int,
)
    requires
        0 <= n <= row.below@.len(),
        0 <= k < lower_halves(row, rendered, n).len(),
    ensures
        exists|i: int|
            0 <= i < n && lower_halves(row, rendered, n)[k] == lower(row, #[trigger] row.below@[i]),
    decreases n,
{
    if n > 0 {
        let before = lower_halves(row, rendered, n - 1);
        if k < before.len() {
            lemma_lowers_go_below(row, rendered, n - 1, k);
            let i = choose|i: int|
                0 <= i < n - 1 && before[k] == lower(row, #[trigger] row.below@[i]);
            assert(lower_halves(row, rendered, n)[k] == lower(row, row.below@[i]));
        } else {
            assert(lower_halves(row, rendered, n)[k] == lower(row, row.below@[n - 1]));
        }
    }
}

proof fn lemma_resolved_were_given(row: RenderRow, n: int, k: int)
    requires
        0 <= n <= row.transitions@.len(),
        0 <= k < resolved(row, n).len(),
    ensures
        row.transitions@.contains((resolved(row, n)[k].from_lane, resolved(row, n)[k].to_lane)),
    decreases n,
{
    if n > 0 {
        let before = resolved(row, n - 1);
        if k < before.len() {
            lemma_resolved_were_given(row, n - 1, k);
            assert(resolved(row, n)[k] == before[k]);
        } else {
            assert(row.transitions@[n - 1] == (
                resolved(row, n)[k].from_lane,
                resolved(row, n)[k].to_lane,
            ));
        }
    }
}

/// What is painted keeps to the row: a straight line is the upper half of a lane from
/// above or the lower half of a lane below, and meets its other half in the middle; only
/// the lane of a bundle stops at the ends of the bundle. A curve is one of the row's
/// transitions, and leaves and meets the node where it starts or ends at the lane of
/// the node. The node stands in its own lane.
pub proof fn marks_keep_to_the_row(row: RenderRow, k: int)
    requires
        0 <= k < marks(row).len(),
    ensures
        match marks(row)[k] {
            Mark::Line { lane, from, to } => {
                ||| {
                    &&& from == Level::Top
                    &&& row.above@.contains(lane)
                    &&& if row.is_bundle && lane == row.lane {
                        to == Level::Entry
                    } else {
                        to == Level::Middle
                    }
                }
                ||| {
                    &&& to == Level::Bottom
                    &&& row.below@.contains(lane)
                    &&& if row.is_bundle && lane == row.lane {
                        from == Level::Exit
                    } else {
                        from == Level::Middle
                    }
                }
            },
            Mark::Curve { transition, from, to } => {
                &&& row.transitions@.contains((transition.from_lane, transition.to_lane))
                &&& if transition.from_lane != row.lane {
                    from == Level::Top && row.above@.contains(transition.from_lane)
                } else if row.is_bundle {
                    from == Level::Exit
                } else {
                    from == Level::Middle
                }
                &&& if transition.to_lane != row.lane {
                    to == Level::Bottom && row.below@.contains(transition.to_lane)
                } else if row.is_bundle {
                    to == Level::Entry
                } else {
                    to == Level::Middle
                }
            },
            Mark::Dot { lane } => lane == row.lane && !row.is_subop && !row.is_bundle,
            Mark::Bundle { lane } => lane == row.lane && !row.is_subop && row.is_bundle,
        },
{
    let transitions = resolved(row, row.transitions@.len() as int);
    let uppers = upper_halves(row, transitions, row.above@.len() as int);
    let lowers = lower_halves(row, transitions, row.below@.len() as int);
    let straight = uppers.len() + lowers.len();
    lemma_parts(row);
    if k < uppers.len() {
        lemma_uppers_come_from_above(row, transitions, row.above@.len() as int, k);
        assert(marks(row)[k] == uppers[k]);
    } else if k < straight {
        lemma_lowers_go_below(row, transitions, row.below@.len() as int, k - uppers.len());
        assert(marks(row)[k] == lowers[k - uppers.len()]);
    } else if k < straight + transitions.len() {
        lemma_resolved_were_given(row, row.transitions@.len() as int, k - straight);
        resolved_are_anchored(row, row.transitions@.len() as int);
        assert(marks(row)[k] == curve(row, transitions[k - straight]));
    } else {
        assert(marks(row)[k] == node(row)[k - straight - transitions.len()]);
    }
}

proof fn lemma_resolved(row: RenderRow, n: int, i: int)
    requires
        0 <= i < n <= row.transitions@.len(),
        row.lane == row.transitions@[i].0 || row.above@.contains(row.transitions@[i].0),
        row.lane == row.transitions@[i].1 || row.below@.contains(row.transitions@[i].1),
    ensures
        exists|k: int|
            0 <= k < resolved(row, n).len() && (#[trigger] resolved(row, n)[k]).from_lane
                == row.transitions@[i].0 && resolved(row, n)[k].to_lane == row.transitions@[i].1,
    decreases n,
{
    let now = resolved(row, n);
    if i == n - 1 {
        assert(now[now.len() - 1].from_lane == row.transitions@[i].0);
    } else {
        lemma_resolved(row, n - 1, i);
        let before = resolved(row, n - 1);
        let k = choose|k: int|
            0 <= k < before.len() && (#[trigger] before[k]).from_lane == row.transitions@[i].0
                && before[k].to_lane == row.transitions@[i].1;
        assert(now[k] == before[k]);
    }
}

/// Every transition whose ends are connected is painted.
pub proof fn connected_transitions_are_painted(row: RenderRow, i: int)
    requires
        0 <= i < row.transitions@.len(),
        row.lane == row.transitions@[i].0 || row.above@.contains(row.transitions@[i].0),
        row.lane == row.transitions@[i].1 || row.below@.contains(row.transitions@[i].1),
    ensures
        exists|k: int|
            0 <= k < marks(row).len() && (#[trigger] marks(row)[k] matches Mark::Curve {
                transition,
                ..
            } && transition.from_lane == row.transitions@[i].0 && transition.to_lane
                == row.transitions@[i].1),
{
    let n = row.transitions@.len() as int;
    let transitions = resolved(row, n);
    let uppers = upper_halves(row, transitions, row.above@.len() as int);
    let lowers = lower_halves(row, transitions, row.below@.len() as int);
    lemma_parts(row);
    lemma_resolved(row, n, i);
    let k = choose|k: int|
        0 <= k < transitions.len() && (#[trigger] transitions[k]).from_lane
            == row.transitions@[i].0 && transitions[k].to_lane == row.transitions@[i].1;
    assert(marks(row)[uppers.len() + lowers.len() + k] == curve(row, transitions[k]));
}

/// Every row but a sub-operation has one node, painted over everything else: a capsule
/// for a bundle and a dot for any other row.
pub proof fn rows_have_one_node(row: RenderRow)
    ensures
        ({
            let all = marks(row);
            let last = all.len() - 1;
            &&& forall|k: int|
                0 <= k < all.len() && (#[trigger] all[k] is Dot || all[k] is Bundle) ==> k == last
            &&& if row.is_subop {
                forall|k: int| 0 <= k < all.len() ==> !(#[trigger] all[k] is Dot || all[k] is Bundle)
            } else if row.is_bundle {
                all.len() > 0 && all[last] == (Mark::Bundle { lane: row.lane })
            } else {
                all.len() > 0 && all[last] == (Mark::Dot { lane: row.lane })
            }
        }),
{
    let all = marks(row);
    let transitions = resolved(row, row.transitions@.len() as int);
    let uppers = upper_halves(row, transitions, row.above@.len() as int);
    let lowers = lower_halves(row, transitions, row.below@.len() as int);
    let straight = uppers.len() + lowers.len();
    lemma_parts(row);
    assert forall|k: int| 0 <= k < straight + transitions.len() implies !(#[trigger] all[k] is Dot
        || all[k] is Bundle) by {
        if k < uppers.len() {
            lemma_uppers_come_from_above(row, transitions, row.above@.len() as int, k);
            assert(all[k] == uppers[k]);
        } else if k < straight {
            lemma_lowers_go_below(row, transitions, row.below@.len() as int, k - uppers.len());
            assert(all[k] == lowers[k - uppers.len()]);
        } else {
            assert(all[k] == curve(row, transitions[k - straight]));
        }
    }
    if !row.is_subop {
        assert(all[all.len() - 1] == node(row)[0]);
    }
}

/// Which graphics interface a renderer uses.
#[derive(Debug, Clone, Copy, PartialEq, Eq, Structural)]
pub enum BackendRequest {
    WebGl,
    WebGpu,
    /// Whichever the browser has.
    Auto,
}

/// The graphics interface that a name stands for.
pub open spec fn backend(name: Seq<char>) -> Option<BackendRequest> {
    if name == "webgl"@ {
        Some(BackendRequest::WebGl)
    } else if name == "webgpu"@ {
        Some(BackendRequest::WebGpu)
    } else if name == "auto"@ {
        Some(BackendRequest::Auto)
    } else {
        None
    }
}

/// Reads the name of a graphics interface; any other name is refused.
pub fn parse_backend(name: &str) -> (request: Result<BackendRequest, String>)
    ensures
        match request {
            Ok(request) => backend(name@) == Some(request),
            Err(message) => backend(name@) is None && message@ == "unsupported GPU backend: "@
                + name@,
        },
{
    if same_text(name, "webgl") {
        Ok(BackendRequest::WebGl)
    } else if same_text(name, "webgpu") {
        Ok(BackendRequest::WebGpu)
    } else if same_text(name, "auto") {
        Ok(BackendRequest::Auto)
    } else {
        Err(joined("unsupported GPU backend: ", name))
    }
}

/// The number of floats that describe one vertex: a place and a colour.
pub const FLOATS_PER_VERTEX: usize = 6;

/// How many vertices a run of floats describes, if they can be counted.
pub fn vertex_count(floats: usize) -> (count: Option<u32>)
    ensures
        match count {
            Some(count) => count == floats / FLOATS_PER_VERTEX,
            None => floats / FLOATS_PER_VERTEX > u32::MAX,
        },
{
    let count: usize = floats / FLOATS_PER_VERTEX;
    if count as u64 <= u32::MAX as u64 {
        Some(count as u32)
    } else {
        None
    }
}

/// The lower-case hexadecimal digit of a value.
pub open spec fn hex_digit(value: int) -> char {
    if value < 10 {
        ('0' as int + value) as char
    } else {
        ('a' as int + value - 10) as char
    }
}

proof fn lemma_hex_digit(value: int)
    requires
        0 <= value < 16,
    ensures
        nibble(hex_digit(value)) == Some(value),
{
}

/// A colour is read back from the two digits of each of its channels, and is opaque unless
/// its opacity is spelled too.
pub proof fn colours_are_read_back(color: Rgba)
    ensures
        ({
            let high = |value: u8| hex_digit(value as int / 16);
            let low = |value: u8| hex_digit(value as int % 16);
            let opaque = seq![
                '#',
                high(color.red),
                low(color.red),
                high(color.green),
                low(color.green),
                high(color.blue),
                low(color.blue),
            ];
            &&& css_color(opaque) == Some(Rgba { alpha: 255, ..color })
            &&& css_color(opaque.push(high(color.alpha)).push(low(color.alpha))) == Some(color)
        }),
{
    let high = |value: u8| hex_digit(value as int / 16);
    let low = |value: u8| hex_digit(value as int % 16);
    let opaque = seq![
        '#',
        high(color.red),
        low(color.red),
        high(color.green),
        low(color.green),
        high(color.blue),
        low(color.blue),
    ];
    let full = opaque.push(high(color.alpha)).push(low(color.alpha));
    lemma_hex_digit(color.red as int / 16);
    lemma_hex_digit(color.red as int % 16);
    lemma_hex_digit(color.green as int / 16);
    lemma_hex_digit(color.green as int % 16);
    lemma_hex_digit(color.blue as int / 16);
    lemma_hex_digit(color.blue as int % 16);
    lemma_hex_digit(color.alpha as int / 16);
    lemma_hex_digit(color.alpha as int % 16);
    let digits = opaque.skip(1);
    assert(digits.len() == 6);
    assert(digits[0] == high(color.red) && digits[1] == low(color.red));
    assert(digits[2] == high(color.green) && digits[3] == low(color.green));
    assert(digits[4] == high(color.blue) && digits[5] == low(color.blue));
    assert(all_hex(digits));
    let all = full.skip(1);
    assert(all.len() == 8);
    assert(all[0] == high(color.red) && all[1] == low(color.red));
    assert(all[2] == high(color.green) && all[3] == low(color.green));
    assert(all[4] == high(color.blue) && all[5] == low(color.blue));
    assert(all[6] == high(color.alpha) && all[7] == low(color.alpha));
    assert(all_hex(all));
}

/// Nothing but a number sign and three, four, six, or eight hexadecimal digits, in either
/// case, is a colour.
pub proof fn other_texts_are_no_colours(value: Seq<char>, i: int)
    ensures
        value.len() == 0 || value[0] != '#' ==> css_color(value) is None,
        value.len() != 4 && value.len() != 5 && value.len() != 7 && value.len() != 9 ==> css_color(
            value,
        ) is None,
        0 < i < value.len() && !('0' as int <= value[i] as int <= '9' as int || 'a' as int
            <= value[i] as int <= 'f' as int || 'A' as int <= value[i] as int <= 'F' as int)
            ==> css_color(value) is None,
{
    if 0 < i < value.len() {
        assert(value.skip(1)[i - 1] == value[i]);
    }
}

/// Lanes have the ten colours of the palette in turn.
pub proof fn lanes_take_the_colours_in_turn(lane: int)
    requires
        0 <= lane,
    ensures
        palette(lane + 10) == palette(lane),
        palette(0) == (Rgba { red: 72, green: 241, blue: 220, alpha: 255 }),
        palette(1) == (Rgba { red: 161, green: 138, blue: 255, alpha: 255 }),
        palette(2) == (Rgba { red: 110, green: 231, blue: 162, alpha: 255 }),
        palette(3) == (Rgba { red: 92, green: 168, blue: 255, alpha: 255 }),
        palette(4) == (Rgba { red: 255, green: 200, blue: 106, alpha: 255 }),
        palette(5) == (Rgba { red: 255, green: 112, blue: 166, alpha: 255 }),
        palette(6) == (Rgba { red: 114, green: 221, blue: 247, alpha: 255 }),
        palette(7) == (Rgba { red: 199, green: 125, blue: 255, alpha: 255 }),
        palette(8) == (Rgba { red: 100, green: 223, blue: 223, alpha: 255 }),
        palette(9) == (Rgba { red: 255, green: 143, blue: 163, alpha: 255 }),
{
}

proof fn lemma_drawn_transitions(row: RenderRow, n: int)
    requires
        0 <= n <= row.transitions@.len(),
    ensures
        resolved(row, n) == row.transitions@.take(n).filter(
            |pair: (u32, u32)|
                (row.lane == pair.0 || row.above@.contains(pair.0)) && (row.lane == pair.1
                    || row.below@.contains(pair.1)),
        ).map_values(
            |pair: (u32, u32)|
                RenderedTransition {
                    from_lane: pair.0,
                    to_lane: pair.1,
                    start_at_dot: row.lane == pair.0,
                    end_at_dot: row.lane == pair.1,
                },
        ),
    decreases n,
{
    let held = |pair: (u32, u32)|
        (row.lane == pair.0 || row.above@.contains(pair.0)) && (row.lane == pair.1
            || row.below@.contains(pair.1));
    let drawn = |pair: (u32, u32)|
        RenderedTransition {
            from_lane: pair.0,
            to_lane: pair.1,
            start_at_dot: row.lane == pair.0,
            end_at_dot: row.lane == pair.1,
        };
    if n > 0 {
        lemma_drawn_transitions(row, n - 1);
        let head = row.transitions@.take(n - 1);
        let pair = row.transitions@[n - 1];
        assert(row.transitions@.take(n) =~= head.push(pair));
        head.lemma_filter_push(pair, held);
        assert(head.filter(held).push(pair).map_values(drawn) =~= head.filter(held).map_values(
            drawn,
        ).push(drawn(pair)));
    } else {
        reveal(Seq::filter);
        assert(row.transitions@.take(0) =~= Seq::empty());
        assert(row.transitions@.take(0).filter(held).map_values(drawn) =~= Seq::empty());
    }
}

/// A row draws its transitions in order, those that start at its node or in a lane from
/// above and end at its node or in a lane below.
pub proof fn held_transitions_are_drawn_in_order(row: RenderRow)
    ensures
        resolved(row, row.transitions@.len() as int) == row.transitions@.filter(
            |pair: (u32, u32)|
                (row.lane == pair.0 || row.above@.contains(pair.0)) && (row.lane == pair.1
                    || row.below@.contains(pair.1)),
        ).map_values(
            |pair: (u32, u32)|
                RenderedTransition {
                    from_lane: pair.0,
                    to_lane: pair.1,
                    start_at_dot: row.lane == pair.0,
                    end_at_dot: row.lane == pair.1,
                },
        ),
{
    lemma_drawn_transitions(row, row.transitions@.len() as int);
    assert(row.transitions@.take(row.transitions@.len() as int) =~= row.transitions@);
}

/// Lines and curves meet the node of a row at its middle, but for a bundle: they end where
/// its box begins and go on where it ends.
pub proof fn lines_meet_the_node(row: RenderRow, lane: u32, transition: RenderedTransition)
    ensures
        upper(row, lane) == (Mark::Line {
            lane,
            from: Level::Top,
            to: if row.is_bundle && lane == row.lane {
                Level::Entry
            } else {
                Level::Middle
            },
        }),
        lower(row, lane) == (Mark::Line {
            lane,
            from: if row.is_bundle && lane == row.lane {
                Level::Exit
            } else {
                Level::Middle
            },
            to: Level::Bottom,
        }),
        curve(row, transition) matches Mark::Curve { transition: drawn, from, to } && drawn
            == transition && (from == Level::Top <==> !transition.start_at_dot) && (to
            == Level::Bottom <==> !transition.end_at_dot) && (from == Level::Exit
            <==> transition.start_at_dot && row.is_bundle) && (to == Level::Entry
            <==> transition.end_at_dot && row.is_bundle),
{
}

/// The graphics interfaces have their names.
pub proof fn backends_have_their_names(name: Seq<char>)
    ensures
        backend("webgl"@) == Some(BackendRequest::WebGl),
        backend("webgpu"@) == Some(BackendRequest::WebGpu),
        backend("auto"@) == Some(BackendRequest::Auto),
        name != "webgl"@ && name != "webgpu"@ && name != "auto"@ ==> backend(name) is None,
{
    reveal_strlit("webgl");
    reveal_strlit("webgpu");
    reveal_strlit("auto");
    assert("webgl"@.len() == 5 && "webgpu"@.len() == 6 && "auto"@.len() == 4);
}

} // verus!
