//! One history row as the view retains it.

use crate::protocol::HistoryRow;
use vstd::arithmetic::power::pow;
use vstd::prelude::*;

verus! {

/// A row together with what is resolved once when it arrives.
#[derive(Debug, Clone, PartialEq, Eq)]
pub struct RowInput {
    pub source: HistoryRow,
}

/// The number of decimal digits of a number.
pub open spec fn decimal_digits(value: nat) -> nat
    decreases value,
{
    if value < 10 {
        1
    } else {
        1 + decimal_digits(value / 10)
    }
}

/// The encoded size of a parent link: its digits, or the word `null`.
pub open spec fn parent_link_bytes(parent: Option<usize>) -> nat {
    match parent {
        Some(parent) => decimal_digits(parent as nat),
        None => 4,
    }
}

fn digit_count(value: u64) -> (digits: u64)
    ensures
        digits == decimal_digits(value as nat),
        digits <= value + 1,
    decreases value,
{
    if value < 10 {
        1
    } else {
        1 + digit_count(value / 10)
    }
}

impl RowInput {
    pub fn new(source: HistoryRow) -> (row: RowInput)
        ensures
            row.source == source,
    {
        RowInput { source }
    }

    /// The identity that survives edits to the row.
    pub fn continuity_key(&self) -> (key: &str)
        ensures
            key@ == self.source.continuity_key@,
    {
        self.source.continuity_key.as_str()
    }

    pub fn max_graph_lane(&self) -> (lane: u64)
        ensures
            lane == self.source.max_lane,
    {
        self.source.max_lane
    }

    /// The retained size, where the row has one.
    pub open spec fn size(self) -> Result<int, String> {
        match self.source.encoded {
            Ok(encoded) => {
                let whole = encoded + parent_link_bytes(self.source.parent_row);
                Ok(
                    if whole > u64::MAX {
                        u64::MAX as int
                    } else {
                        whole
                    },
                )
            },
            Err(reason) => Err(reason),
        }
    }

    /// Charge the row against the retained content budget.
    pub fn cache_bytes(&self) -> (bytes: Result<u64, String>)
        ensures
            match bytes {
                Ok(bytes) => self.size() == Ok::<int, String>(bytes as int),
                Err(reason) => self.size() == Err::<int, String>(reason),
            },
    {
        let link: u64 = match self.source.parent_row {
            Some(parent) => digit_count(parent as u64),
            None => 4,
        };
        match &self.source.encoded {
            Ok(encoded) => Ok(encoded.saturating_add(link)),
            Err(reason) => Err(reason.clone()),
        }
    }
}

/// A parent link is charged one byte for each digit of the row that it names.
pub proof fn links_are_charged_by_their_digits(value: nat, digits: nat)
    requires
        digits > 0,
        value < pow(10, digits),
        digits > 1 ==> value >= pow(10, (digits - 1) as nat),
    ensures
        decimal_digits(value) == digits,
    decreases digits,
{
    reveal(pow);
    if digits == 1 {
        assert(pow(10, 1) == 10) by {
            reveal_with_fuel(pow, 2);
        }
    } else {
        let shorter = (digits - 1) as nat;
        assert(pow(10, digits) == 10 * pow(10, shorter));
        assert(pow(10, 0) == 1);
        if shorter > 1 {
            assert(pow(10, shorter) == 10 * pow(10, (shorter - 1) as nat));
            assert(value / 10 >= pow(10, (shorter - 1) as nat));
        } else {
            assert(pow(10, 1) == 10) by {
                reveal_with_fuel(pow, 2);
            }
        }
        lemma_at_least_ten(shorter);
        links_are_charged_by_their_digits(value / 10, shorter);
    }
}

proof fn lemma_at_least_ten(digits: nat)
    requires
        digits > 0,
    ensures
        pow(10, digits) >= 10,
    decreases digits,
{
    reveal(pow);
    if digits > 1 {
        lemma_at_least_ten((digits - 1) as nat);
    } else {
        reveal_with_fuel(pow, 2);
    }
}

/// A row is charged its encoded size and its parent link; a missing link is charged like
/// the word that stands for it.
pub proof fn rows_are_charged_with_their_links(row: RowInput, encoded: u64, digits: nat)
    requires
        row.source.encoded == Ok::<u64, String>(encoded),
        row.source.parent_row matches Some(parent) ==> digits > 0 && parent < pow(10, digits) && (
        digits > 1 ==> parent >= pow(10, (digits - 1) as nat)),
        row.source.parent_row is None ==> digits == "null"@.len(),
        encoded + digits <= u64::MAX,
    ensures
        row.size() == Ok::<int, String>(encoded + digits),
{
    reveal_strlit("null");
    if let Some(parent) = row.source.parent_row {
        links_are_charged_by_their_digits(parent as nat, digits);
    }
}

} // verus!
