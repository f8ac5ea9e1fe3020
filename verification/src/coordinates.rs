//! Distinct coordinates at the protocol, visibility, and DOM boundaries.

use vstd::prelude::*;

verus! {

/// Fixed row height in CSS pixels.
pub const ROW_H: i64 = 34;

/// The largest integer that JavaScript numbers represent exactly.
pub const MAX_EXACT_INTEGER: i64 = 9_007_199_254_740_991;

/// Every row's pixel offset must remain an exact JavaScript integer too.
pub const MAX_RENDER_ROWS: i64 = 264_917_625_139_440;

/// `MAX_RENDER_ROWS` is the number of whole rows below the exact-integer limit.
pub proof fn max_render_rows_is_the_last_exact_row()
    ensures
        MAX_RENDER_ROWS as int == MAX_EXACT_INTEGER as int / ROW_H as int,
{
}

/// Whether a number is a row coordinate.
pub open spec fn in_row_range(value: int) -> bool {
    0 <= value <= MAX_RENDER_ROWS
}

/// A row of the fully expanded history.
#[derive(Debug, Clone, Copy, PartialEq, Eq, PartialOrd, Ord)]
pub struct ExpandedRow(i64);

impl View for ExpandedRow {
    type V = int;

    closed spec fn view(&self) -> int {
        self.0 as int
    }
}

impl ExpandedRow {
    #[verifier::type_invariant]
    spec fn valid(self) -> bool {
        in_row_range(self.0 as int)
    }

    pub fn new(value: i64) -> (row: Option<ExpandedRow>)
        ensures
            row is Some <==> in_row_range(value as int),
            row matches Some(row) ==> row@ == value,
    {
        if 0 <= value && value <= MAX_RENDER_ROWS {
            Some(ExpandedRow(value))
        } else {
            None
        }
    }

    pub fn get(self) -> (value: i64)
        ensures
            value == self@,
            in_row_range(self@),
    {
        proof {
            use_type_invariant(&self);
        }
        self.0
    }
}

/// A row of the history as currently disclosed.
#[derive(Debug, Clone, Copy, PartialEq, Eq, PartialOrd, Ord)]
pub struct VisibleRow(i64);

impl View for VisibleRow {
    type V = int;

    closed spec fn view(&self) -> int {
        self.0 as int
    }
}

impl VisibleRow {
    #[verifier::type_invariant]
    spec fn valid(self) -> bool {
        in_row_range(self.0 as int)
    }

    pub fn new(value: i64) -> (row: Option<VisibleRow>)
        ensures
            row is Some <==> in_row_range(value as int),
            row matches Some(row) ==> row@ == value,
    {
        if 0 <= value && value <= MAX_RENDER_ROWS {
            Some(VisibleRow(value))
        } else {
            None
        }
    }

    pub fn get(self) -> (value: i64)
        ensures
            value == self@,
            in_row_range(self@),
    {
        proof {
            use_type_invariant(&self);
        }
        self.0
    }

    /// The distance of the row's upper edge from the top of the list.
    pub fn pixel_offset(self) -> (pixels: Pixels)
        ensures
            pixels@ == self@ * ROW_H,
    {
        proof {
            use_type_invariant(&self);
        }
        Pixels(self.0 * ROW_H)
    }
}

/// Nonnegative CSS measurements normalized at the browser boundary.
#[derive(Debug, Clone, Copy, PartialEq, Eq)]
pub struct Pixels(i64);

impl View for Pixels {
    type V = int;

    closed spec fn view(&self) -> int {
        self.0 as int
    }
}

/// A measurement forced into the exact pixel range.
pub open spec fn clamp_pixels(value: int) -> int {
    if value < 0 {
        0
    } else if value > MAX_RENDER_ROWS * ROW_H {
        MAX_RENDER_ROWS * ROW_H
    } else {
        value
    }
}

impl Pixels {
    #[verifier::type_invariant]
    spec fn valid(self) -> bool {
        0 <= self.0 <= MAX_RENDER_ROWS * ROW_H
    }

    pub fn new(value: i64) -> (pixels: Pixels)
        ensures
            pixels@ == clamp_pixels(value as int),
    {
        let limit: i64 = MAX_RENDER_ROWS * ROW_H;
        if value < 0 {
            Pixels(0)
        } else if value > limit {
            Pixels(limit)
        } else {
            Pixels(value)
        }
    }

    pub fn get(self) -> (value: i64)
        ensures
            value == self@,
            0 <= self@ <= MAX_RENDER_ROWS * ROW_H,
    {
        proof {
            use_type_invariant(&self);
        }
        self.0
    }

    /// The row whose pixels hold this offset.
    pub fn row(self) -> (row: VisibleRow)
        ensures
            row@ == self@ / (ROW_H as int),
    {
        proof {
            use_type_invariant(&self);
        }
        VisibleRow(self.0 / ROW_H)
    }
}

/// A row's own pixel offset leads back to the row, and no pixel of the row
/// leads elsewhere.
pub proof fn pixel_offset_leads_back_to_its_row(row: int, inside: int)
    requires
        in_row_range(row),
        0 <= inside < ROW_H,
    ensures
        (row * ROW_H + inside) / (ROW_H as int) == row,
{
}

/// A measurement within the exact pixel range stays as it is; any other one becomes the
/// nearest end of the range.
pub proof fn measurements_are_kept_in_range(value: int)
    ensures
        0 <= clamp_pixels(value) <= MAX_RENDER_ROWS * ROW_H,
        0 <= value <= MAX_RENDER_ROWS * ROW_H ==> clamp_pixels(value) == value,
        value < 0 ==> clamp_pixels(value) == 0,
        value > MAX_RENDER_ROWS * ROW_H ==> clamp_pixels(value) == MAX_RENDER_ROWS * ROW_H,
{
}

} // verus!
