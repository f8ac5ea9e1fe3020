//! Sparse rows staged by a response and bounded before they are published.

use crate::coordinates::{self, ExpandedRow};
use crate::protocol::{invalid, CachedRow, HistoryRow, ReconciledRow, ServiceError};
use crate::row_input::RowInput;
use crate::text::{self, same_text, text_less};
use vstd::prelude::*;
use vstd::string::StringSliceAdditionalSpecFns;

verus! {

/// Four ordinary request pages. This bounds retained rows, independently of
/// the number of cache keys examined during eviction.
pub const MAX_CACHED_ROWS: usize = 2000;

/// Encoded source rows plus once-resolved presentation text: sixteen mebibytes.
pub const MAX_CACHED_BYTES: u64 = 16_777_216;

/// Requested visible rows precede spare visible rows and collapsed payloads;
/// distance only breaks ties within one retention class.
#[derive(Debug, Clone, Copy, PartialEq, Eq, PartialOrd, Ord)]
pub enum RetentionPriority {
    Viewport(u64),
    Requested(u64),
    Visible(u64),
    Hidden(u64),
}

impl RetentionPriority {
    pub open spec fn class(self) -> int {
        match self {
            RetentionPriority::Viewport(_) => 0,
            RetentionPriority::Requested(_) => 1,
            RetentionPriority::Visible(_) => 2,
            RetentionPriority::Hidden(_) => 3,
        }
    }

    pub open spec fn distance(self) -> int {
        match self {
            RetentionPriority::Viewport(distance) => distance as int,
            RetentionPriority::Requested(distance) => distance as int,
            RetentionPriority::Visible(distance) => distance as int,
            RetentionPriority::Hidden(distance) => distance as int,
        }
    }
}

/// Retained content, its charge against the budget, and its content version.
#[derive(Debug, Clone)]
pub struct CacheEntry {
    pub row: RowInput,
    pub bytes: u64,
    pub version: String,
}

/// An entry at its current coordinate.
#[derive(Debug, Clone)]
pub struct Placed {
    pub row: i64,
    pub entry: CacheEntry,
}

/// Content from a retired coordinate; only native validation brings it back.
#[derive(Debug, Clone)]
pub struct Retired {
    pub key: String,
    pub row: i64,
    pub entry: CacheEntry,
}

/// Rows at their coordinates and retired content, under one budget.
#[derive(Debug, Clone)]
pub struct PageCache {
    pub rows: Vec<Placed>,
    pub retired: Vec<Retired>,
    pub bytes: u64,
    /// Budget pressure disables speculative prefetch until this snapshot is
    /// retired. Clearing this after pruning would immediately refetch evictions.
    pub byte_limited: bool,
}

/// The sum of a sequence of charges.
pub open spec fn sum(charges: Seq<int>) -> int
    decreases charges.len(),
{
    if charges.len() == 0 {
        0
    } else {
        sum(charges.drop_last()) + charges.last()
    }
}

pub proof fn lemma_sum_insert(charges: Seq<int>, i: int, charge: int)
    requires
        0 <= i <= charges.len(),
    ensures
        sum(charges.insert(i, charge)) == sum(charges) + charge,
    decreases charges.len(),
{
    let with = charges.insert(i, charge);
    if i == charges.len() {
        assert(with.drop_last() =~= charges);
    } else {
        assert(with.drop_last() =~= charges.drop_last().insert(i, charge));
        assert(with.last() == charges.last());
        lemma_sum_insert(charges.drop_last(), i, charge);
    }
}

pub proof fn lemma_sum_remove(charges: Seq<int>, i: int)
    requires
        0 <= i < charges.len(),
    ensures
        sum(charges.remove(i)) == sum(charges) - charges[i],
{
    lemma_sum_insert(charges.remove(i), i, charges[i]);
    assert(charges.remove(i).insert(i, charges[i]) =~= charges);
}

pub proof fn lemma_sum_update(charges: Seq<int>, i: int, charge: int)
    requires
        0 <= i < charges.len(),
    ensures
        sum(charges.update(i, charge)) == sum(charges) - charges[i] + charge,
{
    lemma_sum_remove(charges, i);
    lemma_sum_insert(charges.remove(i), i, charge);
    assert(charges.remove(i).insert(i, charge) =~= charges.update(i, charge));
}

pub proof fn lemma_sum_nonnegative(charges: Seq<int>)
    requires
        forall|i: int| 0 <= i < charges.len() ==> #[trigger] charges[i] >= 0,
    ensures
        sum(charges) >= 0,
        forall|i: int| 0 <= i < charges.len() ==> #[trigger] charges[i] <= sum(charges),
    decreases charges.len(),
{
    if charges.len() > 0 {
        let shorter = charges.drop_last();
        assert forall|i: int| 0 <= i < shorter.len() implies #[trigger] shorter[i] >= 0 by {
            assert(shorter[i] == charges[i]);
        }
        lemma_sum_nonnegative(shorter);
        assert forall|i: int| 0 <= i < charges.len() implies #[trigger] charges[i] <= sum(
            charges,
        ) by {
            if i < shorter.len() {
                assert(shorter[i] == charges[i]);
            }
        }
    }
}

/// The charges of placed entries.
pub open spec fn row_charges(rows: Seq<Placed>) -> Seq<int> {
    Seq::new(rows.len(), |i: int| rows[i].entry.bytes as int)
}

/// The charges of retired entries.
pub open spec fn retired_charges(retired: Seq<Retired>) -> Seq<int> {
    Seq::new(retired.len(), |i: int| retired[i].entry.bytes as int)
}

/// Placed rows, by increasing coordinate.
pub open spec fn rows_ok(rows: Seq<Placed>) -> bool {
    &&& forall|i: int|
        0 <= i < rows.len() ==> coordinates::in_row_range((#[trigger] rows[i]).row as int)
            && rows[i].entry.bytes <= MAX_CACHED_BYTES
    &&& forall|i: int, j: int|
        0 <= i < j < rows.len() ==> (#[trigger] rows[i]).row < (#[trigger] rows[j]).row
}

/// Retired content, by increasing key; each has a version to be validated by.
pub open spec fn retired_ok(retired: Seq<Retired>) -> bool {
    &&& forall|i: int|
        0 <= i < retired.len() ==> coordinates::in_row_range((#[trigger] retired[i]).row as int)
            && retired[i].entry.bytes <= MAX_CACHED_BYTES && retired[i].entry.version@.len() > 0
            && retired[i].key@ == retired[i].entry.row.source.continuity_key@
    &&& forall|i: int, j: int|
        0 <= i < j < retired.len() ==> text::text_lt(
            (#[trigger] retired[i]).key@,
            (#[trigger] retired[j]).key@,
        )
}

/// No content is both placed and retired.
pub open spec fn apart(rows: Seq<Placed>, retired: Seq<Retired>) -> bool {
    forall|i: int, j: int|
        0 <= i < rows.len() && 0 <= j < retired.len() ==> (
        #[trigger] rows[i]).entry.row.source.continuity_key@ != (#[trigger] retired[j]).key@
}

/// The number of rows before `row`: where it stands or would stand.
pub open spec fn slot(rows: Seq<Placed>, row: int) -> int
    decreases rows.len(),
{
    if rows.len() == 0 {
        0
    } else if rows.last().row < row {
        rows.len() as int
    } else {
        slot(rows.drop_last(), row)
    }
}

proof fn lemma_slot(rows: Seq<Placed>, row: int)
    requires
        forall|i: int, j: int|
            0 <= i < j < rows.len() ==> (#[trigger] rows[i]).row < (#[trigger] rows[j]).row,
    ensures
        0 <= slot(rows, row) <= rows.len(),
        forall|i: int| 0 <= i < slot(rows, row) ==> (#[trigger] rows[i]).row < row,
        forall|i: int| slot(rows, row) <= i < rows.len() ==> (#[trigger] rows[i]).row >= row,
    decreases rows.len(),
{
    if rows.len() > 0 && rows.last().row >= row {
        let shorter = rows.drop_last();
        lemma_slot(shorter, row);
        assert forall|i: int| 0 <= i < slot(rows, row) implies (#[trigger] rows[i]).row < row by {
            assert(shorter[i].row < row);
        }
        assert forall|i: int| slot(rows, row) <= i < rows.len() implies (#[trigger] rows[i]).row
            >= row by {
            if i < shorter.len() {
                assert(shorter[i].row >= row);
            }
        }
    }
}

/// Whether some entry stands at `row`.
pub open spec fn occupied(rows: Seq<Placed>, row: int) -> bool {
    slot(rows, row) < rows.len() && rows[slot(rows, row)].row == row
}

/// The rows with `entry` at `row`, in place of what stood there.
pub open spec fn with_row(rows: Seq<Placed>, row: i64, entry: CacheEntry) -> Seq<Placed> {
    if occupied(rows, row as int) {
        rows.update(slot(rows, row as int), Placed { row, entry })
    } else {
        rows.insert(slot(rows, row as int), Placed { row, entry })
    }
}

/// The number of keys before `key`: where it stands or would stand.
pub open spec fn key_slot(retired: Seq<Retired>, key: Seq<char>) -> int
    decreases retired.len(),
{
    if retired.len() == 0 {
        0
    } else if text::text_lt(retired.last().key@, key) {
        retired.len() as int
    } else {
        key_slot(retired.drop_last(), key)
    }
}

proof fn lemma_key_slot(retired: Seq<Retired>, key: Seq<char>)
    requires
        retired_ok(retired),
    ensures
        0 <= key_slot(retired, key) <= retired.len(),
        forall|i: int|
            0 <= i < key_slot(retired, key) ==> text::text_lt((#[trigger] retired[i]).key@, key),
        forall|i: int|
            key_slot(retired, key) <= i < retired.len() ==> !text::text_lt(
                (#[trigger] retired[i]).key@,
                key,
            ),
    decreases retired.len(),
{
    if retired.len() > 0 {
        let shorter = retired.drop_last();
        if text::text_lt(retired.last().key@, key) {
            assert forall|i: int| 0 <= i < retired.len() implies text::text_lt(
                (#[trigger] retired[i]).key@,
                key,
            ) by {
                if i < shorter.len() {
                    text::text_lt_is_transitive(retired[i].key@, retired.last().key@, key);
                }
            }
        } else {
            assert forall|i: int| 0 <= i < shorter.len() implies coordinates::in_row_range(
                (#[trigger] shorter[i]).row as int,
            ) && shorter[i].entry.bytes <= MAX_CACHED_BYTES && shorter[i].entry.version@.len() > 0
                && shorter[i].key@ == shorter[i].entry.row.source.continuity_key@ by {
                assert(shorter[i] == retired[i]);
            }
            assert forall|i: int, j: int| 0 <= i < j < shorter.len() implies text::text_lt(
                (#[trigger] shorter[i]).key@,
                (#[trigger] shorter[j]).key@,
            ) by {
                assert(shorter[i] == retired[i] && shorter[j] == retired[j]);
            }
            lemma_key_slot(shorter, key);
            assert forall|i: int| 0 <= i < key_slot(retired, key) implies text::text_lt(
                (#[trigger] retired[i]).key@,
                key,
            ) by {
                assert(text::text_lt(shorter[i].key@, key));
            }
            assert forall|i: int|
                key_slot(retired, key) <= i < retired.len() implies !text::text_lt(
                (#[trigger] retired[i]).key@,
                key,
            ) by {
                if i < shorter.len() {
                    assert(!text::text_lt(shorter[i].key@, key));
                }
            }
        }
    }
}

/// Whether content is retired under `key`.
pub open spec fn keyed(retired: Seq<Retired>, key: Seq<char>) -> bool {
    key_slot(retired, key) < retired.len() && retired[key_slot(retired, key)].key@ == key
}

/// The retired content with `item`, in place of what its key held.
pub open spec fn with_retired(retired: Seq<Retired>, item: Retired) -> Seq<Retired> {
    if keyed(retired, item.key@) {
        retired.update(key_slot(retired, item.key@), item)
    } else {
        retired.insert(key_slot(retired, item.key@), item)
    }
}

/// The retired content without what `key` holds.
pub open spec fn without_retired(retired: Seq<Retired>, key: Seq<char>) -> Seq<Retired> {
    if keyed(retired, key) {
        retired.remove(key_slot(retired, key))
    } else {
        retired
    }
}

/// An entry is found by its row exactly where it stands.
pub proof fn lemma_occupied(rows: Seq<Placed>, row: int)
    requires
        rows_ok(rows),
    ensures
        occupied(rows, row) <==> exists|i: int| 0 <= i < rows.len() && (#[trigger] rows[i]).row == row,
        forall|i: int| 0 <= i < rows.len() && (#[trigger] rows[i]).row == row ==> i == slot(rows, row),
{
    lemma_slot(rows, row);
}

/// Retired content is found by its key exactly where it stands.
pub proof fn lemma_keyed(retired: Seq<Retired>, key: Seq<char>)
    requires
        retired_ok(retired),
    ensures
        keyed(retired, key) <==> exists|i: int|
            0 <= i < retired.len() && (#[trigger] retired[i]).key@ == key,
        forall|i: int|
            0 <= i < retired.len() && (#[trigger] retired[i]).key@ == key ==> i == key_slot(
                retired,
                key,
            ),
{
    lemma_key_slot(retired, key);
    assert forall|i: int| 0 <= i < retired.len() && (#[trigger] retired[i]).key@ == key implies i
        == key_slot(retired, key) by {
        text::text_lt_is_irreflexive(key);
        let at = key_slot(retired, key);
        if i > at {
            assert(text::text_lt(retired[at].key@, retired[i].key@));
        }
    }
}

proof fn lemma_with_row(rows: Seq<Placed>, row: i64, entry: CacheEntry)
    requires
        rows_ok(rows),
        coordinates::in_row_range(row as int),
        entry.bytes <= MAX_CACHED_BYTES,
    ensures
        rows_ok(with_row(rows, row, entry)),
        sum(row_charges(with_row(rows, row, entry))) == sum(row_charges(rows)) + entry.bytes - (
        if occupied(rows, row as int) {
            rows[slot(rows, row as int)].entry.bytes as int
        } else {
            0
        }),
{
    let at = slot(rows, row as int);
    lemma_slot(rows, row as int);
    if occupied(rows, row as int) {
        lemma_sum_update(row_charges(rows), at, entry.bytes as int);
        assert(row_charges(with_row(rows, row, entry)) =~= row_charges(rows).update(
            at,
            entry.bytes as int,
        ));
    } else {
        lemma_sum_insert(row_charges(rows), at, entry.bytes as int);
        assert(row_charges(with_row(rows, row, entry)) =~= row_charges(rows).insert(
            at,
            entry.bytes as int,
        ));
    }
}

proof fn lemma_row_removed(rows: Seq<Placed>, at: int)
    requires
        rows_ok(rows),
        0 <= at < rows.len(),
    ensures
        rows_ok(rows.remove(at)),
        sum(row_charges(rows.remove(at))) == sum(row_charges(rows)) - rows[at].entry.bytes,
{
    lemma_sum_remove(row_charges(rows), at);
    assert(row_charges(rows.remove(at)) =~= row_charges(rows).remove(at));
}

proof fn lemma_retired_removed(retired: Seq<Retired>, at: int)
    requires
        retired_ok(retired),
        0 <= at < retired.len(),
    ensures
        retired_ok(retired.remove(at)),
        sum(retired_charges(retired.remove(at))) == sum(retired_charges(retired))
            - retired[at].entry.bytes,
{
    lemma_sum_remove(retired_charges(retired), at);
    assert(retired_charges(retired.remove(at)) =~= retired_charges(retired).remove(at));
}

proof fn lemma_with_retired(retired: Seq<Retired>, item: Retired)
    requires
        retired_ok(retired),
        coordinates::in_row_range(item.row as int),
        item.entry.bytes <= MAX_CACHED_BYTES,
        item.entry.version@.len() > 0,
        item.key@ == item.entry.row.source.continuity_key@,
    ensures
        retired_ok(with_retired(retired, item)),
        sum(retired_charges(with_retired(retired, item))) == sum(retired_charges(retired))
            + item.entry.bytes - (if keyed(retired, item.key@) {
            retired[key_slot(retired, item.key@)].entry.bytes as int
        } else {
            0
        }),
{
    let at = key_slot(retired, item.key@);
    lemma_key_slot(retired, item.key@);
    let after = with_retired(retired, item);
    if keyed(retired, item.key@) {
        lemma_sum_update(retired_charges(retired), at, item.entry.bytes as int);
        assert(retired_charges(after) =~= retired_charges(retired).update(
            at,
            item.entry.bytes as int,
        ));
    } else {
        lemma_sum_insert(retired_charges(retired), at, item.entry.bytes as int);
        assert(retired_charges(after) =~= retired_charges(retired).insert(
            at,
            item.entry.bytes as int,
        ));
        assert forall|i: int| at <= i < retired.len() implies text::text_lt(
            item.key@,
            (#[trigger] retired[i]).key@,
        ) by {
            if retired[i].key@ == item.key@ {
                assert(i > at);
                assert(text::text_lt(retired[at].key@, retired[i].key@));
            } else {
                text::text_lt_is_total(retired[i].key@, item.key@);
            }
        }
    }
}

/// Parts of what is apart are apart.
proof fn lemma_parts_are_apart(
    rows: Seq<Placed>,
    retired: Seq<Retired>,
    some_rows: Seq<Placed>,
    some_retired: Seq<Retired>,
)
    requires
        apart(rows, retired),
        forall|i: int| 0 <= i < some_rows.len() ==> rows.contains(#[trigger] some_rows[i]),
        forall|j: int| 0 <= j < some_retired.len() ==> retired.contains(
            #[trigger] some_retired[j],
        ),
    ensures
        apart(some_rows, some_retired),
{
    assert forall|i: int, j: int|
        0 <= i < some_rows.len() && 0 <= j < some_retired.len() implies (
    #[trigger] some_rows[i]).entry.row.source.continuity_key@ != (
    #[trigger] some_retired[j]).key@ by {
        assert(rows.contains(some_rows[i]) && retired.contains(some_retired[j]));
        let a = choose|a: int| 0 <= a < rows.len() && rows[a] == some_rows[i];
        let b = choose|b: int| 0 <= b < retired.len() && retired[b] == some_retired[j];
        assert(rows[a].entry.row.source.continuity_key@ != retired[b].key@);
    }
}

/// Placing content whose key is retired nowhere keeps content in one place.
proof fn lemma_row_is_apart(
    rows: Seq<Placed>,
    retired: Seq<Retired>,
    row: i64,
    entry: CacheEntry,
)
    requires
        rows_ok(rows),
        retired_ok(retired),
        apart(rows, retired),
    ensures
        apart(
            with_row(rows, row, entry),
            without_retired(retired, entry.row.source.continuity_key@),
        ),
{
    let key = entry.row.source.continuity_key@;
    let after = with_row(rows, row, entry);
    let left = without_retired(retired, key);
    lemma_slot(rows, row as int);
    lemma_key_slot(retired, key);
    lemma_keyed(retired, key);
    assert forall|j: int| 0 <= j < left.len() implies (#[trigger] left[j]).key@ != key
        && retired.contains(left[j]) by {
        let at = key_slot(retired, key);
        let from = if keyed(retired, key) && j >= at {
            j + 1
        } else {
            j
        };
        assert(left[j] == retired[from]);
    }
    assert forall|i: int, j: int| 0 <= i < after.len() && 0 <= j < left.len() implies (
    #[trigger] after[i]).entry.row.source.continuity_key@ != (#[trigger] left[j]).key@ by {
        let b = choose|b: int| 0 <= b < retired.len() && retired[b] == left[j];
        let at = slot(rows, row as int);
        if i != at {
            let from = if occupied(rows, row as int) || i < at {
                i
            } else {
                i - 1
            };
            assert(after[i] == rows[from]);
            assert(rows[from].entry.row.source.continuity_key@ != retired[b].key@);
        }
    }
}

fn find_slot(rows: &Vec<Placed>, row: i64) -> (at: usize)
    requires
        rows_ok(rows@),
    ensures
        at == slot(rows@, row as int),
        at <= rows.len(),
{
    let mut lo: usize = 0;
    let mut hi: usize = rows.len();
    while lo < hi
        invariant
            lo <= hi <= rows.len(),
            rows_ok(rows@),
            forall|i: int| 0 <= i < lo ==> (#[trigger] rows@[i]).row < row,
            forall|i: int| hi <= i < rows.len() ==> (#[trigger] rows@[i]).row >= row,
        decreases hi - lo,
    {
        let mid: usize = lo + (hi - lo) / 2;
        if rows[mid].row < row {
            lo = mid + 1;
        } else {
            hi = mid;
        }
    }
    proof {
        lemma_slot(rows@, row as int);
        let at = slot(rows@, row as int);
        if lo < at {
            assert(rows@[lo as int].row < row);
        } else if at < lo {
            assert(rows@[at].row < row);
        }
    }
    lo
}

fn find_key_slot(retired: &Vec<Retired>, key: &str) -> (at: usize)
    requires
        retired_ok(retired@),
    ensures
        at == key_slot(retired@, key@),
        at <= retired.len(),
{
    let mut at: usize = retired.len();
    let ghost all = retired@;
    assert(all.take(at as int) =~= all);
    while at > 0 && !text_less(retired[at - 1].key.as_str(), key)
        invariant
            at <= retired.len(),
            all == retired@,
            key_slot(all, key@) == key_slot(all.take(at as int), key@),
        decreases at,
    {
        assert(all.take(at as int).drop_last() =~= all.take(at - 1));
        at = at - 1;
    }
    at
}

/// What relocating a row from `old` to `new` makes of its parent link: the
/// parent keeps its distance, and is dropped where that leaves the row range.
pub open spec fn moved_parent(parent: Option<usize>, old: int, new: int) -> Option<usize> {
    match parent {
        Some(parent) => if parent <= i64::MAX && 0 <= new - (old - parent) <= i64::MAX && new - (old
            - parent) <= usize::MAX {
            Some((new - (old - parent)) as usize)
        } else {
            None
        },
        None => None,
    }
}

impl CacheEntry {
    /// Why a row cannot be retained.
    pub open spec fn fault(row: RowInput) -> Option<Seq<char>> {
        match row.size() {
            Err(reason) => Some("Invalid history row: "@ + reason@),
            Ok(bytes) => if bytes > MAX_CACHED_BYTES {
                Some("A history row exceeds the retained content budget."@)
            } else {
                None
            },
        }
    }

    /// The unversioned entry that retains a row.
    pub open spec fn retains(self, row: RowInput) -> bool {
        &&& self.row == row
        &&& row.size() == Ok::<int, String>(self.bytes as int)
        &&& self.version@ == Seq::<char>::empty()
        &&& self.bytes <= MAX_CACHED_BYTES
    }

    pub fn new(row: RowInput) -> (entry: Result<CacheEntry, ServiceError>)
        ensures
            match entry {
                Ok(entry) => CacheEntry::fault(row) is None && entry.retains(row),
                Err(error) => CacheEntry::fault(row) is Some && error.is_invalid(
                    CacheEntry::fault(row)->0,
                ),
            },
    {
        let bytes: u64 = match row.cache_bytes() {
            Ok(bytes) => bytes,
            Err(reason) => {
                let mut message = "Invalid history row: ".to_owned();
                message.append(reason.as_str());
                return Err(invalid(message.as_str()));
            },
        };
        if bytes > MAX_CACHED_BYTES {
            return Err(invalid("A history row exceeds the retained content budget."));
        }
        Ok(CacheEntry { row, bytes, version: String::new() })
    }

    /// Charge the row again once its graph geometry is replaced.
    pub fn decorate(self, max_lane: u64, encoded: Result<u64, String>) -> (entry: Result<
        CacheEntry,
        ServiceError,
    >)
        ensures
            ({
                let row = RowInput {
                    source: HistoryRow { max_lane, encoded, ..self.row.source },
                };
                match entry {
                    Ok(entry) => CacheEntry::fault(row) is None && entry.retains(row),
                    Err(error) => CacheEntry::fault(row) is Some && error.is_invalid(
                        CacheEntry::fault(row)->0,
                    ),
                }
            }),
    {
        let mut row = self.row;
        row.source.max_lane = max_lane;
        row.source.encoded = encoded;
        CacheEntry::new(row)
    }

    /// Move the row's coordinates, keeping the distance to its parent.
    pub fn relocate(self, old: ExpandedRow, new: ExpandedRow) -> (entry: Result<
        CacheEntry,
        ServiceError,
    >)
        ensures
            ({
                let parent_row = moved_parent(self.row.source.parent_row, old@, new@);
                let row = RowInput { source: HistoryRow { parent_row, ..self.row.source } };
                match entry {
                    Ok(entry) => CacheEntry::fault(row) is None && entry.retains(row),
                    Err(error) => CacheEntry::fault(row) is Some && error.is_invalid(
                        CacheEntry::fault(row)->0,
                    ),
                }
            }),
    {
        let mut row = self.row;
        let old: i64 = old.get();
        let new: i64 = new.get();
        row.source.parent_row = match row.source.parent_row {
            Some(parent) => if parent as u64 <= i64::MAX as u64 {
                let distance: i64 = old - parent as i64;
                match new.checked_sub(distance) {
                    Some(moved) => if 0 <= moved && moved as u64 <= usize::MAX as u64 {
                        Some(moved as usize)
                    } else {
                        None
                    },
                    None => None,
                }
            } else {
                None
            },
            None => None,
        };
        CacheEntry::new(row)
    }
}

/// Move every versioned one of the first `n` rows to the retired content.
pub open spec fn retiring(rows: Seq<Placed>, retired: Seq<Retired>, n: int) -> Seq<Retired>
    decreases n,
{
    if n <= 0 {
        retired
    } else {
        let before = retiring(rows, retired, n - 1);
        let placed = rows[n - 1];
        if placed.entry.version@.len() == 0 {
            before
        } else {
            with_retired(
                before,
                Retired {
                    key: placed.entry.row.source.continuity_key,
                    row: placed.row,
                    entry: placed.entry,
                },
            )
        }
    }
}

/// The identities and versions of the versioned ones of the first `n` entries.
pub open spec fn versioned(entries: Seq<CacheEntry>, n: int) -> Seq<CachedRow>
    decreases n,
{
    if n <= 0 {
        Seq::empty()
    } else if entries[n - 1].version@.len() > 0 {
        versioned(entries, n - 1).push(
            CachedRow {
                key: entries[n - 1].row.source.continuity_key,
                version: entries[n - 1].version,
            },
        )
    } else {
        versioned(entries, n - 1)
    }
}

/// At most `limit` leading items.
pub open spec fn at_most<T>(items: Seq<T>, limit: int) -> Seq<T> {
    if items.len() <= limit {
        items
    } else {
        items.take(limit)
    }
}

/// The first of the rows from `from` on whose content has the given key.
pub open spec fn first_keyed(rows: Seq<Placed>, key: Seq<char>, from: int) -> int
    decreases rows.len() - from,
{
    if from >= rows.len() || rows[from].entry.row.source.continuity_key@ == key {
        from
    } else {
        first_keyed(rows, key, from + 1)
    }
}

proof fn lemma_first_keyed(rows: Seq<Placed>, key: Seq<char>, from: int)
    requires
        0 <= from <= rows.len(),
    ensures
        from <= first_keyed(rows, key, from) <= rows.len(),
        forall|i: int|
            from <= i < first_keyed(rows, key, from) ==> (
            #[trigger] rows[i]).entry.row.source.continuity_key@ != key,
        first_keyed(rows, key, from) < rows.len() ==> rows[first_keyed(
            rows,
            key,
            from,
        )].entry.row.source.continuity_key@ == key,
    decreases rows.len() - from,
{
    if from < rows.len() && rows[from].entry.row.source.continuity_key@ != key {
        lemma_first_keyed(rows, key, from + 1);
    }
}

fn find_keyed(rows: &Vec<Placed>, key: &str) -> (at: usize)
    ensures
        at == first_keyed(rows@, key@, 0),
        at <= rows.len(),
{
    let mut at: usize = 0;
    while at < rows.len() && !same_text(rows[at].entry.row.continuity_key(), key)
        invariant
            at <= rows.len(),
            first_keyed(rows@, key@, 0) == first_keyed(rows@, key@, at as int),
        decreases rows.len() - at,
    {
        at = at + 1;
    }
    at
}

impl PageCache {
    /// Everything retained is in order, in one place and charged once.
    pub open spec fn wf(self) -> bool {
        &&& rows_ok(self.rows@)
        &&& retired_ok(self.retired@)
        &&& apart(self.rows@, self.retired@)
        &&& self.bytes == sum(row_charges(self.rows@)) + sum(retired_charges(self.retired@))
    }

    /// Every retained entry: placed ones by row, then retired ones by key.
    pub open spec fn entries(self) -> Seq<CacheEntry> {
        Seq::new(self.rows@.len(), |i: int| self.rows@[i].entry) + Seq::new(
            self.retired@.len(),
            |i: int| self.retired@[i].entry,
        )
    }

    /// The content kept under a key: retired content first, then the first row.
    pub open spec fn kept(self, key: Seq<char>) -> Option<CacheEntry> {
        if keyed(self.retired@, key) {
            Some(self.retired@[key_slot(self.retired@, key)].entry)
        } else if first_keyed(self.rows@, key, 0) < self.rows@.len() {
            Some(self.rows@[first_keyed(self.rows@, key, 0)].entry)
        } else {
            None
        }
    }

    pub fn new() -> (cache: PageCache)
        ensures
            cache.wf(),
            cache.rows@ == Seq::<Placed>::empty(),
            cache.retired@ == Seq::<Retired>::empty(),
            !cache.byte_limited,
    {
        let cache = PageCache {
            rows: Vec::new(),
            retired: Vec::new(),
            bytes: 0,
            byte_limited: false,
        };
        assert(row_charges(cache.rows@) =~= Seq::empty());
        assert(retired_charges(cache.retired@) =~= Seq::empty());
        cache
    }

    /// The content that a conditional request may ask to be spared.
    pub fn known_rows(&self) -> (known: Vec<CachedRow>)
        ensures
            known@ == at_most(
                versioned(self.entries(), self.entries().len() as int),
                MAX_CACHED_ROWS as int,
            ),
    {
        let ghost entries = self.entries();
        let mut known: Vec<CachedRow> = Vec::new();
        let mut i: usize = 0;
        while i < self.rows.len()
            invariant
                i <= self.rows.len(),
                entries == self.entries(),
                known@ == at_most(versioned(entries, i as int), MAX_CACHED_ROWS as int),
            decreases self.rows.len() - i,
        {
            let entry = &self.rows[i].entry;
            assert(*entry == entries[i as int]);
            push_known(&mut known, entry, Ghost(versioned(entries, i as int)));
            i = i + 1;
        }
        let mut j: usize = 0;
        while j < self.retired.len()
            invariant
                j <= self.retired.len(),
                i == self.rows.len(),
                entries == self.entries(),
                known@ == at_most(versioned(entries, i + j), MAX_CACHED_ROWS as int),
            decreases self.retired.len() - j,
        {
            let entry = &self.retired[j].entry;
            assert(*entry == entries[i + j]);
            push_known(&mut known, entry, Ghost(versioned(entries, i + j)));
            j = j + 1;
        }
        known
    }

    /// Give up every coordinate; versioned content may still be revalidated.
    pub fn retire_coordinates(&mut self)
        requires
            old(self).wf(),
        ensures
            final(self).wf(),
            final(self).rows@ == Seq::<Placed>::empty(),
            final(self).retired@ == retiring(
                old(self).rows@,
                old(self).retired@,
                old(self).rows@.len() as int,
            ),
            !final(self).byte_limited,
    {
        let ghost rows = self.rows@;
        let ghost retired = self.retired@;
        let mut placed: Vec<Placed> = Vec::new();
        std::mem::swap(&mut placed, &mut self.rows);
        proof {
            assert(row_charges(self.rows@) =~= Seq::empty());
            assert(rows.skip(0) =~= rows);
            lemma_all_nonnegative(rows, retired);
        }
        for item in it: placed
            invariant
                it.seq() == rows,
                rows_ok(rows),
                self.rows@ == Seq::<Placed>::empty(),
                rows_ok(self.rows@),
                sum(row_charges(self.rows@)) == 0,
                retired_ok(self.retired@),
                self.retired@ == retiring(rows, retired, it.index() as int),
                self.bytes == sum(row_charges(rows.skip(it.index() as int))) + sum(
                    retired_charges(self.retired@),
                ),
        {
            let ghost n = it.index() as int;
            proof {
                assert(item == rows[n]);
                let rest = rows.skip(n);
                assert(rest.remove(0) =~= rows.skip(n + 1));
                assert(rows_ok(rest)) by {
                    assert forall|i: int, j: int| 0 <= i < j < rest.len() implies (
                    #[trigger] rest[i]).row < (#[trigger] rest[j]).row by {
                        assert(rest[i] == rows[n + i] && rest[j] == rows[n + j]);
                    }
                    assert forall|i: int| 0 <= i < rest.len() implies coordinates::in_row_range(
                        (#[trigger] rest[i]).row as int,
                    ) && rest[i].entry.bytes <= MAX_CACHED_BYTES by {
                        assert(rest[i] == rows[n + i]);
                    }
                }
                lemma_row_removed(rest, 0);
                lemma_all_nonnegative(rows.skip(n + 1), self.retired@);
            }
            let Placed { row, entry } = item;
            if entry.version.as_str().is_empty() {
                self.bytes = self.bytes - entry.bytes;
            } else {
                let key = entry.row.source.continuity_key.clone();
                let ghost before = self.retired@;
                let at = find_key_slot(&self.retired, key.as_str());
                let retired_item = Retired { key, row, entry };
                proof {
                    lemma_with_retired(before, retired_item);
                    lemma_all_nonnegative(rows.skip(n + 1), before);
                }
                if at < self.retired.len() && self.retired[at].key == retired_item.key {
                    self.bytes = self.bytes - self.retired[at].entry.bytes;
                    let _replaced = self.retired.remove(at);
                    self.retired.insert(at, retired_item);
                    assert(self.retired@ =~= with_retired(before, retired_item));
                } else {
                    self.retired.insert(at, retired_item);
                }
            }
        }
        proof {
            assert(rows.skip(rows.len() as int) =~= Seq::empty());
            assert(row_charges(rows.skip(rows.len() as int)) =~= Seq::empty());
        }
        self.byte_limited = false;
    }

    /// The retained content that still has the given version.
    pub fn matching(&self, key: &str, version: &str) -> (entry: Option<&CacheEntry>)
        requires
            self.wf(),
        ensures
            match entry {
                Some(entry) => self.kept(key@) == Some(*entry) && entry.version@ == version@,
                None => self.kept(key@) is Some ==> self.kept(key@)->0.version@ != version@,
            },
    {
        let at = find_key_slot(&self.retired, key);
        let entry: &CacheEntry = if at < self.retired.len() && same_text(
            self.retired[at].key.as_str(),
            key,
        ) {
            &self.retired[at].entry
        } else {
            let at = find_keyed(&self.rows, key);
            if at < self.rows.len() {
                &self.rows[at].entry
            } else {
                return None;
            }
        };
        if same_text(entry.version.as_str(), version) {
            Some(entry)
        } else {
            None
        }
    }
}

pub proof fn lemma_all_nonnegative(rows: Seq<Placed>, retired: Seq<Retired>)
    ensures
        sum(row_charges(rows)) >= 0,
        sum(retired_charges(retired)) >= 0,
        forall|i: int|
            0 <= i < rows.len() ==> (#[trigger] rows[i]).entry.bytes <= sum(row_charges(rows)),
        forall|i: int|
            0 <= i < retired.len() ==> (#[trigger] retired[i]).entry.bytes <= sum(
                retired_charges(retired),
            ),
{
    lemma_sum_nonnegative(row_charges(rows));
    lemma_sum_nonnegative(retired_charges(retired));
    assert forall|i: int| 0 <= i < rows.len() implies (#[trigger] rows[i]).entry.bytes <= sum(
        row_charges(rows),
    ) by {
        assert(row_charges(rows)[i] == rows[i].entry.bytes);
    }
    assert forall|i: int| 0 <= i < retired.len() implies (#[trigger] retired[i]).entry.bytes
        <= sum(retired_charges(retired)) by {
        assert(retired_charges(retired)[i] == retired[i].entry.bytes);
    }
}

fn push_known(known: &mut Vec<CachedRow>, entry: &CacheEntry, Ghost(seen): Ghost<Seq<CachedRow>>)
    requires
        old(known)@ == at_most(seen, MAX_CACHED_ROWS as int),
    ensures
        final(known)@ == at_most(
            if entry.version@.len() > 0 {
                seen.push(
                    CachedRow {
                        key: entry.row.source.continuity_key,
                        version: entry.version,
                    },
                )
            } else {
                seen
            },
            MAX_CACHED_ROWS as int,
        ),
{
    if !entry.version.as_str().is_empty() && known.len() < MAX_CACHED_ROWS {
        known.push(
            CachedRow {
                key: entry.row.source.continuity_key.clone(),
                version: entry.version.clone(),
            },
        );
    }
}

/// What a patch leaves of a cache: the entries it yields and what stays.
pub ghost struct Drawn {
    pub entries: Seq<CacheEntry>,
    pub rows: Seq<Placed>,
    pub retired: Seq<Retired>,
}

/// Why the content kept under `key` cannot be taken under `version`: there is none, or
/// it has another version.
pub open spec fn draw_fault(state: Drawn, key: Seq<char>, version: Seq<char>) -> Option<Seq<char>> {
    let row = first_keyed(state.rows, key, 0);
    let kept = if keyed(state.retired, key) {
        Some(state.retired[key_slot(state.retired, key)].entry)
    } else if row < state.rows.len() {
        Some(state.rows[row].entry)
    } else {
        None
    };
    match kept {
        None => Some("Retained row disappeared."@),
        Some(entry) => if entry.version@ != version {
            Some("Conditional row has no matching retained content."@)
        } else {
            None
        },
    }
}

/// Take the content kept under `key` in `version` out of a cache.
pub open spec fn draw(state: Drawn, key: Seq<char>, version: String) -> Option<Drawn> {
    if draw_fault(state, key, version@) is Some {
        None
    } else if keyed(state.retired, key) {
        let at = key_slot(state.retired, key);
        Some(
            Drawn {
                entries: state.entries.push(
                    CacheEntry { version, ..state.retired[at].entry },
                ),
                retired: state.retired.remove(at),
                ..state
            },
        )
    } else {
        let at = first_keyed(state.rows, key, 0);
        Some(
            Drawn {
                entries: state.entries.push(CacheEntry { version, ..state.rows[at].entry }),
                rows: state.rows.remove(at),
                ..state
            },
        )
    }
}

/// The charge of arriving content under a version.
pub open spec fn conditional_charge(content: HistoryRow, version: Seq<char>) -> int {
    RowInput { source: content }.size()->Ok_0 + vstd::utf8::encode_utf8(version).len()
}

/// Apply the first `n` rows of a patch in order, where that is possible.
pub open spec fn drawn(state: Drawn, patch: Seq<ReconciledRow>, n: int) -> Option<Drawn>
    decreases n,
{
    if n <= 0 {
        Some(state)
    } else {
        match drawn(state, patch, n - 1) {
            None => None,
            Some(before) => {
                let row = patch[n - 1];
                match row.content {
                    Some(content) => Some(
                        Drawn {
                            entries: before.entries.push(
                                CacheEntry {
                                    row: RowInput { source: content },
                                    bytes: conditional_charge(content, row.cached.version@) as u64,
                                    version: row.cached.version,
                                },
                            ),
                            ..before
                        },
                    ),
                    None => draw(before, row.cached.key@, row.cached.version),
                }
            },
        }
    }
}

/// Why the first `n` rows of a patch cannot be applied in order: the earliest content
/// that cannot be taken.
pub open spec fn drawn_fault(state: Drawn, patch: Seq<ReconciledRow>, n: int) -> Option<Seq<char>>
    decreases n,
{
    if n <= 0 {
        None
    } else if drawn_fault(state, patch, n - 1) is Some {
        drawn_fault(state, patch, n - 1)
    } else if patch[n - 1].content is Some {
        None
    } else {
        draw_fault(
            drawn(state, patch, n - 1)->0,
            patch[n - 1].cached.key@,
            patch[n - 1].cached.version@,
        )
    }
}

proof fn lemma_drawn_fault(state: Drawn, patch: Seq<ReconciledRow>, n: int)
    ensures
        drawn_fault(state, patch, n) is Some <==> drawn(state, patch, n) is None,
    decreases n,
{
    if n > 0 {
        lemma_drawn_fault(state, patch, n - 1);
    }
}

proof fn lemma_drawn_fault_monotone(state: Drawn, patch: Seq<ReconciledRow>, m: int, n: int)
    requires
        m <= n,
        drawn_fault(state, patch, m) is Some,
    ensures
        drawn_fault(state, patch, n) == drawn_fault(state, patch, m),
    decreases n - m,
{
    if m < n {
        lemma_drawn_fault_monotone(state, patch, m, n - 1);
    }
}

proof fn lemma_drawn_none(state: Drawn, patch: Seq<ReconciledRow>, m: int, n: int)
    requires
        m <= n,
        drawn(state, patch, m) is None,
    ensures
        drawn(state, patch, n) is None,
    decreases n - m,
{
    if m < n {
        lemma_drawn_none(state, patch, m, n - 1);
    }
}

/// Entries, rows and retired content stay valid while a patch draws on them.
pub open spec fn drawn_ok(state: Drawn) -> bool {
    &&& rows_ok(state.rows)
    &&& retired_ok(state.retired)
    &&& forall|i: int|
        0 <= i < state.entries.len() ==> (#[trigger] state.entries[i]).bytes <= MAX_CACHED_BYTES
}

/// Why one row of a patch is refused on its own.
pub open spec fn patch_fault(cache: PageCache, row: ReconciledRow) -> Option<Seq<char>> {
    match row.content {
        Some(content) => {
            let input = RowInput { source: content };
            if CacheEntry::fault(input) is Some {
                CacheEntry::fault(input)
            } else if conditional_charge(content, row.cached.version@) > MAX_CACHED_BYTES {
                Some("A conditional row exceeds the retained content budget."@)
            } else if content.continuity_key@ != row.cached.key@ {
                Some("Conditional row has no matching retained content."@)
            } else {
                None
            }
        },
        None => {
            let kept = cache.kept(row.cached.key@);
            if kept is Some && kept->0.version@ == row.cached.version@ {
                None
            } else {
                Some("Conditional row has no matching retained content."@)
            }
        },
    }
}

/// The earliest refusal among the first `n` rows of a patch.
pub open spec fn patch_faults(cache: PageCache, patch: Seq<ReconciledRow>, n: int) -> Option<
    Seq<char>,
>
    decreases n,
{
    if n <= 0 {
        None
    } else if patch_faults(cache, patch, n - 1) is Some {
        patch_faults(cache, patch, n - 1)
    } else {
        patch_fault(cache, patch[n - 1])
    }
}

proof fn lemma_patch_faults_monotone(
    cache: PageCache,
    patch: Seq<ReconciledRow>,
    m: int,
    n: int,
)
    requires
        m <= n,
        patch_faults(cache, patch, m) is Some,
    ensures
        patch_faults(cache, patch, n) == patch_faults(cache, patch, m),
    decreases n - m,
{
    if m < n {
        lemma_patch_faults_monotone(cache, patch, m, n - 1);
    }
}

proof fn lemma_patch_faults_none(cache: PageCache, patch: Seq<ReconciledRow>, n: int, i: int)
    requires
        patch_faults(cache, patch, n) is None,
        0 <= i < n,
    ensures
        patch_fault(cache, patch[i]) is None,
    decreases n,
{
    if i < n - 1 {
        lemma_patch_faults_none(cache, patch, n - 1, i);
    }
}

/// Why a whole patch is refused: a row on its own, or content claimed once too often
/// or under a version that what is left does not have.
pub open spec fn reconcile_fault(cache: PageCache, patch: Seq<ReconciledRow>) -> Option<
    Seq<char>,
> {
    let n = patch.len() as int;
    if patch_faults(cache, patch, n) is Some {
        patch_faults(cache, patch, n)
    } else {
        drawn_fault(cache.undrawn(), patch, n)
    }
}

/// The keys and versions of placed content, in its order.
spec fn keys_match(rows: Seq<Placed>, keys: Seq<CachedRow>) -> bool {
    &&& rows.len() == keys.len()
    &&& forall|i: int|
        0 <= i < rows.len() ==> (#[trigger] keys[i]).key@
            == rows[i].entry.row.source.continuity_key@ && keys[i].version@
            == rows[i].entry.version@
}

/// The keys and versions of retired content, in its order.
spec fn retired_keys_match(retired: Seq<Retired>, keys: Seq<CachedRow>) -> bool {
    &&& retired.len() == keys.len()
    &&& forall|i: int|
        0 <= i < retired.len() ==> (#[trigger] keys[i]).key@ == retired[i].key@
            && keys[i].version@ == retired[i].entry.version@
}

fn index_of_key(keys: &Vec<CachedRow>, key: &str) -> (at: usize)
    ensures
        at <= keys.len(),
        forall|i: int| 0 <= i < at ==> (#[trigger] keys@[i]).key@ != key@,
        at < keys.len() ==> keys@[at as int].key@ == key@,
{
    let mut at: usize = 0;
    while at < keys.len() && !same_text(keys[at].key.as_str(), key)
        invariant
            at <= keys.len(),
            forall|i: int| 0 <= i < at ==> (#[trigger] keys@[i]).key@ != key@,
        decreases keys.len() - at,
    {
        at = at + 1;
    }
    at
}

impl PageCache {
    /// The cache as a patch finds it.
    pub open spec fn undrawn(self) -> Drawn {
        Drawn { entries: Seq::empty(), rows: self.rows@, retired: self.retired@ }
    }

    /// Check one row of a patch on its own.
    fn admit_row(&self, row: &ReconciledRow) -> (charge: Result<u64, ServiceError>)
        requires
            self.wf(),
        ensures
            match charge {
                Ok(charge) => patch_fault(*self, *row) is None && (row.content matches Some(content)
                    ==> charge == conditional_charge(content, row.cached.version@) && charge
                    <= MAX_CACHED_BYTES),
                Err(error) => patch_fault(*self, *row) is Some && error.is_invalid(
                    patch_fault(*self, *row)->0,
                ),
            },
    {
        match &row.content {
            Some(content) => {
                let ghost input = RowInput { source: *content };
                let entry = match CacheEntry::new(RowInput::new(content.clone())) {
                    Ok(entry) => entry,
                    Err(error) => {
                        return Err(error);
                    },
                };
                let length: usize = row.cached.version.as_str().as_bytes().len();
                let charge: u64 = entry.bytes.saturating_add(length as u64);
                if charge > MAX_CACHED_BYTES {
                    return Err(invalid("A conditional row exceeds the retained content budget."));
                }
                if content.continuity_key != row.cached.key {
                    return Err(invalid("Conditional row has no matching retained content."));
                }
                Ok(charge)
            },
            None => {
                if self.matching(row.cached.key.as_str(), row.cached.version.as_str()).is_none() {
                    return Err(invalid("Conditional row has no matching retained content."));
                }
                Ok(0)
            },
        }
    }
}

proof fn lemma_draw_keeps(state: Drawn, key: Seq<char>, version: String)
    requires
        drawn_ok(state),
        draw(state, key, version) is Some,
    ensures
        drawn_ok(draw(state, key, version)->0),
{
    let after = draw(state, key, version)->0;
    if keyed(state.retired, key) {
        lemma_key_slot(state.retired, key);
        lemma_retired_removed(state.retired, key_slot(state.retired, key));
    } else {
        lemma_first_keyed(state.rows, key, 0);
        lemma_row_removed(state.rows, first_keyed(state.rows, key, 0));
    }
    assert forall|i: int| 0 <= i < after.entries.len() implies (#[trigger] after.entries[i]).bytes
        <= MAX_CACHED_BYTES by {
        if i < state.entries.len() {
            assert(after.entries[i] == state.entries[i]);
        }
    }
}

proof fn lemma_drawn_keeps(cache: PageCache, patch: Seq<ReconciledRow>, n: int)
    requires
        cache.wf(),
        0 <= n <= patch.len(),
        patch_faults(cache, patch, patch.len() as int) is None,
        drawn(cache.undrawn(), patch, n) is Some,
    ensures
        drawn_ok(drawn(cache.undrawn(), patch, n)->0),
    decreases n,
{
    if n > 0 {
        lemma_drawn_keeps(cache, patch, n - 1);
        lemma_patch_faults_none(cache, patch, patch.len() as int, n - 1);
        let before = drawn(cache.undrawn(), patch, n - 1)->0;
        let after = drawn(cache.undrawn(), patch, n)->0;
        match patch[n - 1].content {
            Some(content) => {
                lemma_size_nonnegative(content);
                assert forall|i: int| 0 <= i < after.entries.len() implies (
                #[trigger] after.entries[i]).bytes <= MAX_CACHED_BYTES by {
                    if i < before.entries.len() {
                        assert(after.entries[i] == before.entries[i]);
                    }
                }
            },
            None => lemma_draw_keeps(before, patch[n - 1].cached.key@, patch[n - 1].cached.version),
        }
    }
}

proof fn lemma_size_nonnegative(content: HistoryRow)
    ensures
        (RowInput { source: content }).size() matches Ok(bytes) ==> 0 <= bytes <= u64::MAX,
{
}

impl PageCache {
    /// Validate the whole patch before moving any retained entries into new
    /// coordinates; a refused patch changes nothing.
    pub fn reconcile(&mut self, rows: Vec<ReconciledRow>) -> (entries: Result<
        Vec<CacheEntry>,
        ServiceError,
    >)
        requires
            old(self).wf(),
        ensures
            final(self).wf(),
            final(self).byte_limited == old(self).byte_limited,
            match entries {
                Ok(entries) => {
                    let after = drawn(old(self).undrawn(), rows@, rows@.len() as int)->0;
                    &&& reconcile_fault(*old(self), rows@) is None
                    &&& entries@ == after.entries
                    &&& final(self).rows@ == after.rows
                    &&& final(self).retired@ == after.retired
                    &&& forall|i: int|
                        0 <= i < entries@.len() ==> (#[trigger] entries@[i]).bytes
                            <= MAX_CACHED_BYTES
                },
                Err(error) => {
                    &&& reconcile_fault(*old(self), rows@) is Some
                    &&& error.is_invalid(reconcile_fault(*old(self), rows@)->0)
                    &&& *final(self) == *old(self)
                },
            },
    {
        let ghost start = self.undrawn();
        let ghost patch = rows@;
        let ghost n = rows@.len() as int;
        let mut charges: Vec<u64> = Vec::new();
        let mut i: usize = 0;
        while i < rows.len()
            invariant
                i <= rows.len(),
                n == rows.len(),
                patch == rows@,
                *self == *old(self),
                self.wf(),
                charges.len() == i,
                patch_faults(*self, patch, i as int) is None,
                forall|k: int|
                    0 <= k < i ==> (patch[k].content matches Some(content)
                        ==> #[trigger] charges@[k] == conditional_charge(
                        content,
                        patch[k].cached.version@,
                    )),
            decreases rows.len() - i,
        {
            match self.admit_row(&rows[i]) {
                Ok(charge) => {
                    charges.push(charge);
                },
                Err(error) => {
                    proof {
                        lemma_patch_faults_monotone(*self, patch, i + 1, n);
                    }
                    return Err(error);
                },
            }
            i = i + 1;
        }
        let mut row_keys: Vec<CachedRow> = Vec::new();
        let mut i: usize = 0;
        while i < self.rows.len()
            invariant
                i <= self.rows.len(),
                row_keys.len() == i,
                forall|k: int|
                    0 <= k < i ==> (#[trigger] row_keys@[k]).key@
                        == self.rows@[k].entry.row.source.continuity_key@ && row_keys@[k].version@
                        == self.rows@[k].entry.version@,
            decreases self.rows.len() - i,
        {
            let entry = &self.rows[i].entry;
            row_keys.push(
                CachedRow {
                    key: entry.row.source.continuity_key.clone(),
                    version: entry.version.clone(),
                },
            );
            i = i + 1;
        }
        let mut retired_keys: Vec<CachedRow> = Vec::new();
        let mut i: usize = 0;
        while i < self.retired.len()
            invariant
                i <= self.retired.len(),
                retired_keys.len() == i,
                forall|k: int|
                    0 <= k < i ==> (#[trigger] retired_keys@[k]).key@ == self.retired@[k].key@
                        && retired_keys@[k].version@ == self.retired@[k].entry.version@,
            decreases self.retired.len() - i,
        {
            let item = &self.retired[i];
            retired_keys.push(
                CachedRow { key: item.key.clone(), version: item.entry.version.clone() },
            );
            i = i + 1;
        }
        let mut i: usize = 0;
        while i < rows.len()
            invariant
                i <= rows.len(),
                n == rows.len(),
                patch == rows@,
                *self == *old(self),
                self.wf(),
                start == self.undrawn(),
                patch_faults(*self, patch, n) is None,
                drawn(start, patch, i as int) is Some,
                keys_match((drawn(start, patch, i as int)->0).rows, row_keys@),
                retired_keys_match((drawn(start, patch, i as int)->0).retired, retired_keys@),
            decreases rows.len() - i,
        {
            if rows[i].content.is_none() {
                let key: &str = rows[i].cached.key.as_str();
                let ghost state = drawn(start, patch, i as int)->0;
                let at = index_of_key(&retired_keys, key);
                proof {
                    lemma_drawn_keeps(*self, patch, i as int);
                    lemma_keyed(state.retired, key@);
                    lemma_key_slot(state.retired, key@);
                    lemma_first_keyed(state.rows, key@, 0);
                    if at < retired_keys.len() {
                        assert(state.retired[at as int].key@ == key@);
                    } else {
                        assert forall|k: int| 0 <= k < state.retired.len() implies (
                        #[trigger] state.retired[k]).key@ != key@ by {
                            assert(retired_keys@[k].key@ != key@);
                        }
                    }
                }
                let version: &str = rows[i].cached.version.as_str();
                let row_at = index_of_key(&row_keys, key);
                proof {
                    let first = first_keyed(state.rows, key@, 0);
                    if row_at < first {
                        assert(state.rows[row_at as int].entry.row.source.continuity_key@ != key@);
                        assert(row_keys@[row_at as int].key@ == key@);
                    } else if first < row_at {
                        assert(row_keys@[first].key@ != key@);
                    }
                    lemma_drawn_fault(start, patch, i as int);
                }
                let kept: Option<&CachedRow> = if at < retired_keys.len() {
                    Some(&retired_keys[at])
                } else if row_at < row_keys.len() {
                    Some(&row_keys[row_at])
                } else {
                    None
                };
                let fault: Option<ServiceError> = match kept {
                    None => Some(invalid("Retained row disappeared.")),
                    Some(kept) => if same_text(kept.version.as_str(), version) {
                        None
                    } else {
                        Some(invalid("Conditional row has no matching retained content."))
                    },
                };
                if let Some(error) = fault {
                    proof {
                        lemma_drawn_fault_monotone(start, patch, i + 1, n);
                    }
                    return Err(error);
                }
                if at < retired_keys.len() {
                    let _claimed = retired_keys.remove(at);
                } else {
                    let _claimed = row_keys.remove(row_at);
                }
            }
            i = i + 1;
        }
        proof {
            lemma_drawn_fault(start, patch, n);
        }
        let mut entries: Vec<CacheEntry> = Vec::new();
        for row in it: rows
            invariant
                it.seq() == patch,
                n == patch.len(),
                charges.len() == n,
                old(self).wf(),
                start == old(self).undrawn(),
                patch_faults(*old(self), patch, n) is None,
                drawn(start, patch, n) is Some,
                drawn(start, patch, it.index() as int) is Some,
                self.wf(),
                self.byte_limited == old(self).byte_limited,
                self.rows@ == (drawn(start, patch, it.index() as int)->0).rows,
                self.retired@ == (drawn(start, patch, it.index() as int)->0).retired,
                entries@ == (drawn(start, patch, it.index() as int)->0).entries,
                forall|k: int|
                    0 <= k < n ==> (patch[k].content matches Some(content)
                        ==> #[trigger] charges@[k] == conditional_charge(
                        content,
                        patch[k].cached.version@,
                    )),
        {
            let ghost k = it.index() as int;
            let index: usize = entries.len();
            proof {
                lemma_drawn_entries_len(start, patch, k);
                assert(index == k);
                assert(row == patch[k]);
                if drawn(start, patch, k + 1) is None {
                    lemma_drawn_none(start, patch, k + 1, n);
                }
                lemma_all_nonnegative(self.rows@, self.retired@);
            }
            let ReconciledRow { cached, content } = row;
            let CachedRow { key, version } = cached;
            match content {
                Some(content) => {
                    let entry = CacheEntry {
                        row: RowInput::new(content),
                        bytes: charges[index],
                        version,
                    };
                    entries.push(entry);
                },
                None => {
                    let at = find_key_slot(&self.retired, key.as_str());
                    if at < self.retired.len() && self.retired[at].key == key {
                        proof {
                            lemma_retired_removed(self.retired@, at as int);
                        }
                        let item = self.retired.remove(at);
                        self.bytes = self.bytes - item.entry.bytes;
                        let mut entry = item.entry;
                        entry.version = version;
                        entries.push(entry);
                    } else {
                        let at = find_keyed(&self.rows, key.as_str());
                        proof {
                            lemma_row_removed(self.rows@, at as int);
                        }
                        let item = self.rows.remove(at);
                        self.bytes = self.bytes - item.entry.bytes;
                        let mut entry = item.entry;
                        entry.version = version;
                        entries.push(entry);
                    }
                },
            }
        }
        proof {
            lemma_drawn_keeps(*old(self), patch, n);
        }
        Ok(entries)
    }
}

proof fn lemma_drawn_entries_len(start: Drawn, patch: Seq<ReconciledRow>, n: int)
    requires
        start.entries.len() == 0,
        n >= 0,
        drawn(start, patch, n) is Some,
    ensures
        (drawn(start, patch, n)->0).entries.len() == n,
    decreases n,
{
    if n > 0 {
        lemma_drawn_entries_len(start, patch, n - 1);
    }
}

/// The coordinates of placed rows.
pub open spec fn row_indices(rows: Seq<Placed>) -> Seq<int> {
    Seq::new(rows.len(), |i: int| rows[i].row as int)
}

impl PageCache {
    /// The coordinates that hold a row, in order.
    pub fn indices(&self) -> (indices: Vec<ExpandedRow>)
        requires
            self.wf(),
        ensures
            crate::expansion::row_values(indices@) == row_indices(self.rows@),
    {
        let mut indices: Vec<ExpandedRow> = Vec::new();
        let mut i: usize = 0;
        while i < self.rows.len()
            invariant
                i <= self.rows.len(),
                self.wf(),
                indices.len() == i,
                forall|k: int| 0 <= k < i ==> (#[trigger] indices@[k])@ == self.rows@[k].row,
            decreases self.rows.len() - i,
        {
            if let Some(row) = ExpandedRow::new(self.rows[i].row) {
                indices.push(row);
            }
            i = i + 1;
        }
        assert(crate::expansion::row_values(indices@) =~= row_indices(self.rows@));
        indices
    }

    /// Hand out every placed row; retired content stays charged.
    pub fn take_entries(&mut self) -> (rows: Vec<Placed>)
        requires
            old(self).wf(),
        ensures
            final(self).wf(),
            rows@ == old(self).rows@,
            final(self).rows@ == Seq::<Placed>::empty(),
            final(self).retired@ == old(self).retired@,
            final(self).byte_limited == old(self).byte_limited,
    {
        let mut rows: Vec<Placed> = Vec::new();
        std::mem::swap(&mut rows, &mut self.rows);
        let mut i: usize = 0;
        proof {
            assert(row_charges(self.rows@) =~= Seq::empty());
            assert(rows@.skip(0) =~= rows@);
        }
        while i < rows.len()
            invariant
                i <= rows.len(),
                rows@ == old(self).rows@,
                self.rows@ == Seq::<Placed>::empty(),
                self.retired@ == old(self).retired@,
                self.byte_limited == old(self).byte_limited,
                rows_ok(rows@),
                retired_ok(self.retired@),
                self.bytes == sum(row_charges(rows@.skip(i as int))) + sum(
                    retired_charges(self.retired@),
                ),
            decreases rows.len() - i,
        {
            proof {
                let rest = rows@.skip(i as int);
                lemma_all_nonnegative(rest, self.retired@);
                lemma_sum_remove(row_charges(rest), 0);
                assert(row_charges(rest).remove(0) =~= row_charges(rows@.skip(i + 1)));
                assert(rest[0].entry.bytes == rows@[i as int].entry.bytes);
            }
            self.bytes = self.bytes - rows[i].entry.bytes;
            i = i + 1;
        }
        assert(row_charges(rows@.skip(i as int)) =~= row_charges(self.rows@));
        rows
    }

    /// Resolve and validate the entire response before any row or snapshot
    /// metadata is published.
    pub fn prepare(rows: Vec<HistoryRow>) -> (entries: Result<Vec<CacheEntry>, ServiceError>)
        ensures
            prepared(
                rows@,
                match entries {
                    Ok(entries) => Ok(entries@),
                    Err(error) => Err(error),
                },
            ),
    {
        let mut entries: Vec<CacheEntry> = Vec::new();
        let mut i: usize = 0;
        while i < rows.len()
            invariant
                i <= rows.len(),
                entries.len() == i,
                forall|k: int|
                    0 <= k < i ==> (#[trigger] entries@[k]).retains(RowInput { source: rows@[k] }),
            decreases rows.len() - i,
        {
            let input = RowInput::new(rows[i].clone());
            match CacheEntry::new(input) {
                Ok(entry) => {
                    entries.push(entry);
                },
                Err(error) => {
                    assert(CacheEntry::fault(RowInput { source: rows@[i as int] }) is Some);
                    assert forall|k: int| 0 <= k < i implies CacheEntry::fault(
                        RowInput { source: #[trigger] rows@[k] },
                    ) is None by {
                        assert(entries@[k].retains(RowInput { source: rows@[k] }));
                    }
                    return Err(error);
                },
            }
            i = i + 1;
        }
        Ok(entries)
    }

    /// The entry at a coordinate.
    pub open spec fn at(self, row: int) -> Option<CacheEntry> {
        if occupied(self.rows@, row) {
            Some(self.rows@[slot(self.rows@, row)].entry)
        } else {
            None
        }
    }

    pub fn get_by_index(&self, row: i64) -> (input: Option<&RowInput>)
        requires
            self.wf(),
        ensures
            match input {
                Some(input) => self.at(row as int) is Some && *input == self.at(row as int)->0.row,
                None => self.at(row as int) is None,
            },
    {
        match ExpandedRow::new(row) {
            Some(row) => self.get(row),
            None => {
                proof {
                    lemma_occupied(self.rows@, row as int);
                }
                None
            },
        }
    }

    pub fn get(&self, row: ExpandedRow) -> (input: Option<&RowInput>)
        requires
            self.wf(),
        ensures
            match input {
                Some(input) => self.at(row@) is Some && *input == self.at(row@)->0.row,
                None => self.at(row@) is None,
            },
    {
        let value: i64 = row.get();
        let at = find_slot(&self.rows, value);
        if at < self.rows.len() && self.rows[at].row == value {
            Some(&self.rows[at].entry.row)
        } else {
            None
        }
    }

    pub fn contains_key(&self, row: ExpandedRow) -> (contains: bool)
        requires
            self.wf(),
        ensures
            contains == (self.at(row@) is Some),
    {
        let value: i64 = row.get();
        let at = find_slot(&self.rows, value);
        at < self.rows.len() && self.rows[at].row == value
    }

    pub fn len(&self) -> (len: usize)
        ensures
            len == self.rows@.len(),
    {
        self.rows.len()
    }

    pub fn is_empty(&self) -> (empty: bool)
        ensures
            empty == (self.rows@.len() == 0),
    {
        self.rows.is_empty()
    }

    /// The charge of everything retained.
    pub fn retained_bytes(&self) -> (bytes: u64)
        requires
            self.wf(),
        ensures
            bytes == sum(row_charges(self.rows@)) + sum(retired_charges(self.retired@)),
    {
        self.bytes
    }

    pub fn byte_limited(&self) -> (limited: bool)
        ensures
            limited == self.byte_limited,
    {
        self.byte_limited
    }

    pub fn clear(&mut self)
        ensures
            final(self).wf(),
            final(self).rows@ == Seq::<Placed>::empty(),
            final(self).retired@ == Seq::<Retired>::empty(),
            final(self).bytes == 0,
            !final(self).byte_limited,
    {
        self.rows.clear();
        self.retired.clear();
        self.bytes = 0;
        self.byte_limited = false;
        assert(row_charges(self.rows@) =~= Seq::empty());
        assert(retired_charges(self.retired@) =~= Seq::empty());
    }

    /// Stage the arriving page, allowing a pending find target to resolve
    /// before pruning against the resulting viewport.
    pub fn insert(&mut self, row: ExpandedRow, value: CacheEntry) -> (previous: Option<RowInput>)
        requires
            old(self).wf(),
            value.bytes <= MAX_CACHED_BYTES,
            old(self).bytes + value.bytes <= u64::MAX,
        ensures
            final(self).wf(),
            final(self).rows@ == with_row(old(self).rows@, row@ as i64, value),
            final(self).retired@ == without_retired(
                old(self).retired@,
                value.row.source.continuity_key@,
            ),
            final(self).byte_limited == old(self).byte_limited,
            match previous {
                Some(previous) => old(self).at(row@) is Some && previous == old(self).at(row@)->0.row,
                None => old(self).at(row@) is None,
            },
            final(self).bytes <= old(self).bytes + value.bytes,
            final(self).retired@.len() <= old(self).retired@.len(),
    {
        let place: i64 = row.get();
        proof {
            lemma_all_nonnegative(self.rows@, self.retired@);
            lemma_with_row(self.rows@, place, value);
            lemma_row_is_apart(self.rows@, self.retired@, place, value);
        }
        let at = find_key_slot(&self.retired, value.row.continuity_key());
        if at < self.retired.len() && same_text(
            self.retired[at].key.as_str(),
            value.row.continuity_key(),
        ) {
            proof {
                lemma_retired_removed(self.retired@, at as int);
            }
            let item = self.retired.remove(at);
            self.bytes = self.bytes - item.entry.bytes;
        }
        proof {
            lemma_all_nonnegative(self.rows@, self.retired@);
        }
        self.bytes = self.bytes + value.bytes;
        let ghost before = self.rows@;
        let at = find_slot(&self.rows, place);
        if at < self.rows.len() && self.rows[at].row == place {
            let item = self.rows.remove(at);
            self.rows.insert(at, Placed { row: place, entry: value });
            assert(self.rows@ =~= with_row(before, place, value));
            self.bytes = self.bytes - item.entry.bytes;
            Some(item.entry.row)
        } else {
            self.rows.insert(at, Placed { row: place, entry: value });
            None
        }
    }

    /// The first of the given rows that is not retained.
    pub fn first_missing(&self, rows: &[ExpandedRow]) -> (missing: Option<ExpandedRow>)
        requires
            self.wf(),
        ensures
            match missing {
                Some(row) => exists|i: int|
                    0 <= i < rows@.len() && #[trigger] rows@[i] == row && self.at(row@) is None && (
                    forall|k: int| 0 <= k < i ==> self.at((#[trigger] rows@[k])@) is Some),
                None => forall|k: int|
                    0 <= k < rows@.len() ==> self.at((#[trigger] rows@[k])@) is Some,
            },
    {
        let mut i: usize = 0;
        while i < rows.len()
            invariant
                i <= rows.len(),
                self.wf(),
                forall|k: int| 0 <= k < i ==> self.at((#[trigger] rows@[k])@) is Some,
            decreases rows.len() - i,
        {
            let row = rows[i];
            if !self.contains_key(row) {
                assert(rows@[i as int] == row);
                return Some(row);
            }
            i = i + 1;
        }
        None
    }
}

/// What preparing a response gives: an entry per row, or the first refusal.
pub open spec fn prepared(
    rows: Seq<HistoryRow>,
    entries: Result<Seq<CacheEntry>, ServiceError>,
) -> bool {
    match entries {
        Ok(entries) => {
            &&& entries.len() == rows.len()
            &&& forall|k: int|
                0 <= k < rows.len() ==> (#[trigger] entries[k]).retains(
                    RowInput { source: rows[k] },
                )
        },
        Err(error) => exists|i: int|
            0 <= i < rows.len() && CacheEntry::fault(RowInput { source: #[trigger] rows[i] }) is Some
                && error.is_invalid(CacheEntry::fault(RowInput { source: rows[i] })->0) && (forall|
                k: int,
            |
                0 <= k < i ==> CacheEntry::fault(RowInput { source: #[trigger] rows[k] }) is None),
    }
}

/// The placed rows from `top` through `bottom`.
pub open spec fn rows_within(rows: Seq<Placed>, top: int, bottom: int) -> Seq<Placed> {
    rows.filter(|item: Placed| top <= item.row <= bottom)
}

/// The retired content that came from `top` through `bottom`.
pub open spec fn retired_within(retired: Seq<Retired>, top: int, bottom: int) -> Seq<Retired> {
    retired.filter(|item: Retired| top <= item.row <= bottom)
}

/// Whether placed rows alone fit both caps.
pub open spec fn rows_fit(rows: Seq<Placed>) -> bool {
    rows.len() <= MAX_CACHED_ROWS && sum(row_charges(rows)) <= MAX_CACHED_BYTES
}

/// Whether placed and retired content together fit both caps.
pub open spec fn budget_fits(rows: Seq<Placed>, retired: Seq<Retired>) -> bool {
    rows.len() + retired.len() <= MAX_CACHED_ROWS && sum(row_charges(rows)) + sum(
        retired_charges(retired),
    ) <= MAX_CACHED_BYTES
}

/// Dropping the first `dropped` of the retired content is just enough for both
/// caps, or all that can be dropped.
pub open spec fn drops(rows: Seq<Placed>, retired: Seq<Retired>, dropped: int) -> bool {
    &&& 0 <= dropped <= retired.len()
    &&& forall|q: int| 0 <= q < dropped ==> !budget_fits(rows, #[trigger] retired.skip(q))
    &&& dropped == retired.len() || budget_fits(rows, retired.skip(dropped))
}

/// Whether the row at `i` leaves before the row at `j`: by retention class,
/// then distance, then coordinate.
pub open spec fn leaves_before(
    rows: Seq<Placed>,
    priorities: Seq<RetentionPriority>,
    i: int,
    j: int,
) -> bool {
    let (a, b) = (priorities[i], priorities[j]);
    ||| a.class() > b.class()
    ||| a.class() == b.class() && a.distance() > b.distance()
    ||| a.class() == b.class() && a.distance() == b.distance() && rows[i].row > rows[j].row
}

/// Those of the first `n` rows that are not gone.
pub open spec fn surviving(rows: Seq<Placed>, gone: Seq<bool>, n: int) -> Seq<Placed>
    decreases n,
{
    if n <= 0 {
        Seq::empty()
    } else if gone[n - 1] {
        surviving(rows, gone, n - 1)
    } else {
        surviving(rows, gone, n - 1).push(rows[n - 1])
    }
}

/// `gone` marks the fewest rows, the first to leave, whose eviction makes the
/// others fit.
pub open spec fn evicts(
    rows: Seq<Placed>,
    priorities: Seq<RetentionPriority>,
    gone: Seq<bool>,
) -> bool {
    let n = rows.len() as int;
    &&& priorities.len() == n
    &&& gone.len() == n
    &&& rows_fit(surviving(rows, gone, n))
    &&& forall|i: int, j: int|
        0 <= i < n && 0 <= j < n && gone[i] && #[trigger] leaves_before(rows, priorities, j, i)
            ==> gone[j]
    &&& forall|i: int|
        0 <= i < n && #[trigger] gone[i] && (forall|j: int|
            0 <= j < n && #[trigger] gone[j] && j != i ==> leaves_before(rows, priorities, j, i))
            ==> !rows_fit(surviving(rows, gone.update(i, false), n))
}

proof fn lemma_surviving_ok(rows: Seq<Placed>, gone: Seq<bool>, n: int)
    requires
        rows_ok(rows),
        0 <= n <= rows.len(),
        gone.len() == rows.len(),
    ensures
        rows_ok(surviving(rows, gone, n)),
        forall|k: int, j: int|
            0 <= k < surviving(rows, gone, n).len() && n <= j < rows.len() ==> (
            #[trigger] surviving(rows, gone, n)[k]).row < (#[trigger] rows[j]).row,
    decreases n,
{
    if n > 0 {
        lemma_surviving_ok(rows, gone, n - 1);
    }
}

proof fn lemma_surviving_all(rows: Seq<Placed>, gone: Seq<bool>, n: int)
    requires
        0 <= n <= rows.len(),
        forall|i: int| 0 <= i < n ==> !#[trigger] gone[i],
    ensures
        surviving(rows, gone, n) == rows.take(n),
    decreases n,
{
    if n > 0 {
        lemma_surviving_all(rows, gone, n - 1);
        assert(!gone[n - 1]);
    }
    assert(surviving(rows, gone, n) =~= rows.take(n));
}

proof fn lemma_surviving_frame(rows: Seq<Placed>, gone: Seq<bool>, i: int, to: bool, n: int)
    requires
        0 <= n <= i < gone.len(),
    ensures
        surviving(rows, gone.update(i, to), n) == surviving(rows, gone, n),
    decreases n,
{
    if n > 0 {
        lemma_surviving_frame(rows, gone, i, to, n - 1);
    }
}

proof fn lemma_surviving_update(rows: Seq<Placed>, gone: Seq<bool>, i: int, n: int)
    requires
        0 <= i < n <= rows.len(),
        gone.len() == rows.len(),
        !gone[i],
    ensures
        surviving(rows, gone.update(i, true), n).len() + 1 == surviving(rows, gone, n).len(),
        sum(row_charges(surviving(rows, gone.update(i, true), n))) == sum(
            row_charges(surviving(rows, gone, n)),
        ) - rows[i].entry.bytes,
    decreases n,
{
    let after = gone.update(i, true);
    let whole = surviving(rows, gone, n);
    let short = surviving(rows, gone, n - 1);
    if i == n - 1 {
        lemma_surviving_frame(rows, gone, i, true, n - 1);
        assert(row_charges(whole).drop_last() =~= row_charges(short));
    } else {
        lemma_surviving_update(rows, gone, i, n - 1);
        if !gone[n - 1] {
            assert(row_charges(whole).drop_last() =~= row_charges(short));
            assert(row_charges(surviving(rows, after, n)).drop_last() =~= row_charges(
                surviving(rows, after, n - 1),
            ));
        }
    }
}

proof fn lemma_within_rows(rows: Seq<Placed>, top: int, bottom: int)
    requires
        rows_ok(rows),
    ensures
        rows_ok(rows_within(rows, top, bottom)),
        rows.len() > 0 ==> forall|k: int|
            0 <= k < rows_within(rows, top, bottom).len() ==> (#[trigger] rows_within(
                rows,
                top,
                bottom,
            )[k]).row <= rows.last().row,
        sum(row_charges(rows_within(rows, top, bottom))) <= sum(row_charges(rows)),
    decreases rows.len(),
{
    let keep = |item: Placed| top <= item.row <= bottom;
    reveal(Seq::filter);
    if rows.len() > 0 {
        let shorter = rows.drop_last();
        assert(rows_ok(shorter)) by {
            assert forall|i: int| 0 <= i < shorter.len() implies coordinates::in_row_range(
                (#[trigger] shorter[i]).row as int,
            ) && shorter[i].entry.bytes <= MAX_CACHED_BYTES by {
                assert(shorter[i] == rows[i]);
            }
            assert forall|i: int, j: int| 0 <= i < j < shorter.len() implies (
            #[trigger] shorter[i]).row < (#[trigger] shorter[j]).row by {
                assert(shorter[i] == rows[i] && shorter[j] == rows[j]);
            }
        }
        lemma_within_rows(shorter, top, bottom);
        let kept = rows_within(shorter, top, bottom);
        assert(row_charges(rows).drop_last() =~= row_charges(shorter));
        if keep(rows.last()) {
            let all = rows_within(rows, top, bottom);
            assert(all == kept.push(rows.last()));
            assert(row_charges(all).drop_last() =~= row_charges(kept));
            assert forall|k: int| 0 <= k < kept.len() implies (#[trigger] kept[k]).row
                < rows.last().row by {
                if shorter.len() > 0 {
                    assert(kept[k].row <= shorter.last().row);
                    assert(rows[rows.len() - 2].row < rows[rows.len() - 1].row);
                }
            }
        } else if shorter.len() > 0 {
            assert(rows[rows.len() - 2].row < rows[rows.len() - 1].row);
        }
    }
}

proof fn lemma_within_retired(retired: Seq<Retired>, top: int, bottom: int)
    requires
        retired_ok(retired),
    ensures
        retired_ok(retired_within(retired, top, bottom)),
        retired.len() > 0 ==> forall|k: int|
            0 <= k < retired_within(retired, top, bottom).len() ==> (#[trigger] retired_within(
                retired,
                top,
                bottom,
            )[k]).key@ == retired.last().key@ || text::text_lt(
                retired_within(retired, top, bottom)[k].key@,
                retired.last().key@,
            ),
        sum(retired_charges(retired_within(retired, top, bottom))) <= sum(
            retired_charges(retired),
        ),
    decreases retired.len(),
{
    let keep = |item: Retired| top <= item.row <= bottom;
    reveal(Seq::filter);
    if retired.len() > 0 {
        let shorter = retired.drop_last();
        lemma_shorter_retired(retired);
        lemma_within_retired(shorter, top, bottom);
        let kept = retired_within(shorter, top, bottom);
        assert(retired_charges(retired).drop_last() =~= retired_charges(shorter));
        assert forall|k: int| 0 <= k < kept.len() implies text::text_lt(
            (#[trigger] kept[k]).key@,
            retired.last().key@,
        ) by {
            if shorter.len() > 0 {
                let (a, b) = (retired[retired.len() - 2], retired[retired.len() - 1]);
                assert(text::text_lt(a.key@, b.key@));
                if kept[k].key@ != a.key@ {
                    text::text_lt_is_transitive(kept[k].key@, a.key@, b.key@);
                }
            }
        }
        if keep(retired.last()) {
            let all = retired_within(retired, top, bottom);
            assert(all == kept.push(retired.last()));
            assert(retired_charges(all).drop_last() =~= retired_charges(kept));
        }
    }
}

pub proof fn lemma_shorter_retired(retired: Seq<Retired>)
    requires
        retired_ok(retired),
        retired.len() > 0,
    ensures
        retired_ok(retired.drop_last()),
{
    let shorter = retired.drop_last();
    assert forall|i: int| 0 <= i < shorter.len() implies coordinates::in_row_range(
        (#[trigger] shorter[i]).row as int,
    ) && shorter[i].entry.bytes <= MAX_CACHED_BYTES && shorter[i].entry.version@.len() > 0
        && shorter[i].key@ == shorter[i].entry.row.source.continuity_key@ by {
        assert(shorter[i] == retired[i]);
    }
    assert forall|i: int, j: int| 0 <= i < j < shorter.len() implies text::text_lt(
        (#[trigger] shorter[i]).key@,
        (#[trigger] shorter[j]).key@,
    ) by {
        assert(shorter[i] == retired[i] && shorter[j] == retired[j]);
    }
}

proof fn lemma_surviving_none(rows: Seq<Placed>, gone: Seq<bool>, n: int)
    requires
        0 <= n <= gone.len(),
        forall|i: int| 0 <= i < n ==> #[trigger] gone[i],
    ensures
        surviving(rows, gone, n) == Seq::<Placed>::empty(),
    decreases n,
{
    if n > 0 {
        lemma_surviving_none(rows, gone, n - 1);
        assert(gone[n - 1]);
    }
}

fn priority_rank(priority: RetentionPriority) -> (rank: (u8, u64))
    ensures
        rank.0 == priority.class(),
        rank.1 == priority.distance(),
{
    match priority {
        RetentionPriority::Viewport(distance) => (0, distance),
        RetentionPriority::Requested(distance) => (1, distance),
        RetentionPriority::Visible(distance) => (2, distance),
        RetentionPriority::Hidden(distance) => (3, distance),
    }
}

/// The row to leave next: the worst of those that are not gone.
fn next_to_leave(rows: &Vec<Placed>, priorities: &Vec<RetentionPriority>, gone: &Vec<bool>) -> (
worst: Option<usize>)
    requires
        rows_ok(rows@),
        priorities.len() == rows.len(),
        gone.len() == rows.len(),
    ensures
        match worst {
            Some(worst) => worst < rows.len() && !gone@[worst as int] && (forall|j: int|
                0 <= j < rows.len() && !(#[trigger] gone@[j]) && j != worst ==> leaves_before(
                    rows@,
                    priorities@,
                    worst as int,
                    j,
                )),
            None => forall|j: int| 0 <= j < rows.len() ==> #[trigger] gone@[j],
        },
{
    let mut worst: Option<usize> = None;
    let mut i: usize = 0;
    while i < rows.len()
        invariant
            i <= rows.len(),
            rows_ok(rows@),
            priorities.len() == rows.len(),
            gone.len() == rows.len(),
            match worst {
                Some(worst) => worst < i && !gone@[worst as int] && (forall|j: int|
                    0 <= j < i && !(#[trigger] gone@[j]) && j != worst ==> leaves_before(
                        rows@,
                        priorities@,
                        worst as int,
                        j,
                    )),
                None => forall|j: int| 0 <= j < i ==> #[trigger] gone@[j],
            },
        decreases rows.len() - i,
    {
        if !gone[i] {
            match worst {
                Some(w) => {
                    let (class, distance) = priority_rank(priorities[i]);
                    let (worst_class, worst_distance) = priority_rank(priorities[w]);
                    let later = class > worst_class || (class == worst_class && (distance
                        > worst_distance || (distance == worst_distance && rows[i].row
                        > rows[w].row)));
                    assert(rows@[w as int].row < rows@[i as int].row);
                    if later {
                        worst = Some(i);
                    }
                },
                None => {
                    worst = Some(i);
                },
            }
        }
        i = i + 1;
    }
    worst
}

fn keep_surviving(rows: Vec<Placed>, gone: &Vec<bool>) -> (kept: Vec<Placed>)
    requires
        gone.len() == rows.len(),
    ensures
        kept@ == surviving(rows@, gone@, rows@.len() as int),
{
    let ghost all = rows@;
    let mut kept: Vec<Placed> = Vec::new();
    let mut i: usize = 0;
    for item in it: rows
        invariant
            it.seq() == all,
            gone.len() == all.len(),
            i == it.index(),
            kept@ == surviving(all, gone@, i as int),
    {
        if !gone[i] {
            kept.push(item);
        }
        i = i + 1;
    }
    kept
}

fn keep_rows(rows: Vec<Placed>, top: i64, bottom: i64) -> (kept: Vec<Placed>)
    ensures
        kept@ == rows_within(rows@, top as int, bottom as int),
{
    let ghost all = rows@;
    let ghost keep = |item: Placed| top <= item.row <= bottom;
    let mut kept: Vec<Placed> = Vec::new();
    assert(all.take(0).filter(keep) =~= kept@) by {
        reveal(Seq::filter);
    }
    for item in it: rows
        invariant
            it.seq() == all,
            keep == (|item: Placed| top <= item.row <= bottom),
            kept@ == all.take(it.index() as int).filter(keep),
    {
        let ghost n = it.index() as int;
        proof {
            assert(item == all[n]);
            assert(all.take(n + 1) =~= all.take(n).push(item));
            all.take(n).lemma_filter_push(item, keep);
        }
        if top <= item.row && item.row <= bottom {
            kept.push(item);
        }
    }
    assert(all.take(all.len() as int) =~= all);
    kept
}

fn keep_retired(retired: Vec<Retired>, top: i64, bottom: i64) -> (kept: Vec<Retired>)
    ensures
        kept@ == retired_within(retired@, top as int, bottom as int),
{
    let ghost all = retired@;
    let ghost keep = |item: Retired| top <= item.row <= bottom;
    let mut kept: Vec<Retired> = Vec::new();
    assert(all.take(0).filter(keep) =~= kept@) by {
        reveal(Seq::filter);
    }
    for item in it: retired
        invariant
            it.seq() == all,
            keep == (|item: Retired| top <= item.row <= bottom),
            kept@ == all.take(it.index() as int).filter(keep),
    {
        let ghost n = it.index() as int;
        proof {
            assert(item == all[n]);
            assert(all.take(n + 1) =~= all.take(n).push(item));
            all.take(n).lemma_filter_push(item, keep);
        }
        if top <= item.row && item.row <= bottom {
            kept.push(item);
        }
    }
    assert(all.take(all.len() as int) =~= all);
    kept
}

fn total_charge(rows: &Vec<Placed>, retired: &Vec<Retired>, limit: u64) -> (bytes: u64)
    requires
        sum(row_charges(rows@)) + sum(retired_charges(retired@)) <= limit,
    ensures
        bytes == sum(row_charges(rows@)) + sum(retired_charges(retired@)),
{
    let mut bytes: u64 = 0;
    let mut i: usize = 0;
    let ghost whole = sum(row_charges(rows@)) + sum(retired_charges(retired@));
    proof {
        lemma_all_nonnegative(rows@, retired@);
        assert(row_charges(rows@.take(0)) =~= Seq::empty());
    }
    while i < rows.len()
        invariant
            i <= rows.len(),
            whole == sum(row_charges(rows@)) + sum(retired_charges(retired@)),
            whole <= limit,
            sum(retired_charges(retired@)) >= 0,
            bytes == sum(row_charges(rows@.take(i as int))),
        decreases rows.len() - i,
    {
        proof {
            assert(row_charges(rows@.take(i + 1)).drop_last() =~= row_charges(
                rows@.take(i as int),
            ));
            lemma_prefix_sum(row_charges(rows@), i + 1);
            assert(row_charges(rows@).take(i + 1) =~= row_charges(rows@.take(i + 1)));
        }
        bytes = bytes + rows[i].entry.bytes;
        i = i + 1;
    }
    assert(rows@.take(i as int) =~= rows@);
    let mut j: usize = 0;
    assert(retired_charges(retired@.take(0)) =~= Seq::empty());
    while j < retired.len()
        invariant
            j <= retired.len(),
            whole == sum(row_charges(rows@)) + sum(retired_charges(retired@)),
            whole <= limit,
            bytes == sum(row_charges(rows@)) + sum(retired_charges(retired@.take(j as int))),
        decreases retired.len() - j,
    {
        proof {
            assert(retired_charges(retired@.take(j + 1)).drop_last() =~= retired_charges(
                retired@.take(j as int),
            ));
            lemma_prefix_sum(retired_charges(retired@), j + 1);
            assert(retired_charges(retired@).take(j + 1) =~= retired_charges(
                retired@.take(j + 1),
            ));
        }
        bytes = bytes + retired[j].entry.bytes;
        j = j + 1;
    }
    assert(retired@.take(j as int) =~= retired@);
    bytes
}

proof fn lemma_prefix_sum(charges: Seq<int>, n: int)
    requires
        0 <= n <= charges.len(),
        forall|i: int| 0 <= i < charges.len() ==> #[trigger] charges[i] >= 0,
    ensures
        sum(charges.take(n)) <= sum(charges),
    decreases charges.len(),
{
    if n < charges.len() {
        let shorter = charges.drop_last();
        assert forall|i: int| 0 <= i < shorter.len() implies #[trigger] shorter[i] >= 0 by {
            assert(shorter[i] == charges[i]);
        }
        lemma_prefix_sum(shorter, n);
        assert(shorter.take(n) =~= charges.take(n));
    } else {
        assert(charges.take(n) =~= charges);
    }
}

/// What pruning leaves of the rows in range, and whether every viewport row fits.
pub open spec fn prunes<F: Fn(ExpandedRow) -> RetentionPriority>(
    rows: Seq<Placed>,
    priority: F,
    left: Seq<Placed>,
    viewport_fits: bool,
) -> bool {
    if rows_fit(rows) {
        left == rows && viewport_fits
    } else {
        exists|priorities: Seq<RetentionPriority>, gone: Seq<bool>| #[trigger]
            evicts(rows, priorities, gone) && ranked(rows, priority, priorities) && left
                == surviving(rows, gone, rows.len() as int) && (viewport_fits <==> forall|i: int|
                0 <= i < rows.len() && #[trigger] gone[i] ==> !(priorities[i] is Viewport))
    }
}

/// The priorities are the ones that the owner gives to the rows.
pub open spec fn ranked<F: Fn(ExpandedRow) -> RetentionPriority>(
    rows: Seq<Placed>,
    priority: F,
    priorities: Seq<RetentionPriority>,
) -> bool {
    &&& priorities.len() == rows.len()
    &&& forall|i: int|
        0 <= i < rows.len() ==> gives(priority, rows[i].row as int, #[trigger] priorities[i])
}

/// The owner may give this priority to the row.
pub open spec fn gives<F: Fn(ExpandedRow) -> RetentionPriority>(
    priority: F,
    row: int,
    given: RetentionPriority,
) -> bool {
    exists|at: ExpandedRow| at@ == row && #[trigger] call_ensures(priority, (at,), given)
}

proof fn lemma_kept_rows_are_apart(cache: PageCache, top: int, bottom: int, dropped: int)
    requires
        cache.wf(),
        0 <= dropped <= retired_within(cache.retired@, top, bottom).len(),
    ensures
        apart(
            rows_within(cache.rows@, top, bottom),
            retired_within(cache.retired@, top, bottom).skip(dropped),
        ),
{
    let rows = rows_within(cache.rows@, top, bottom);
    let retired = retired_within(cache.retired@, top, bottom);
    let kept = retired.skip(dropped);
    assert forall|i: int| 0 <= i < rows.len() implies cache.rows@.contains(#[trigger] rows[i]) by {
        cache.rows@.lemma_filter_contains_rev(
            |item: Placed| top <= item.row <= bottom,
            rows[i],
        );
    }
    assert forall|j: int| 0 <= j < kept.len() implies cache.retired@.contains(
        #[trigger] kept[j],
    ) by {
        assert(kept[j] == retired[dropped + j]);
        cache.retired@.lemma_filter_contains_rev(
            |item: Retired| top <= item.row <= bottom,
            kept[j],
        );
    }
    lemma_parts_are_apart(cache.rows@, cache.retired@, rows, kept);
}

impl PageCache {
    /// Remove every out-of-range row, then retain the best candidates up to
    /// both hard caps. Return whether all encountered viewport rows fit.
    /// The owner supplies visibility/distance priorities.
    pub fn retain<F: Fn(ExpandedRow) -> RetentionPriority>(
        &mut self,
        top: ExpandedRow,
        bottom: ExpandedRow,
        priority: F,
    ) -> (viewport_fits: bool)
        requires
            old(self).wf(),
            forall|row: ExpandedRow| #[trigger] call_requires(priority, (row,)),
        ensures
            final(self).wf(),
            final(self).rows@.len() + final(self).retired@.len() <= MAX_CACHED_ROWS,
            final(self).bytes <= MAX_CACHED_BYTES,
            ({
                let rows = rows_within(old(self).rows@, top@, bottom@);
                let retired = retired_within(old(self).retired@, top@, bottom@);
                let dropped = retired.len() - final(self).retired@.len();
                &&& drops(rows, retired, dropped)
                &&& final(self).retired@ == retired.skip(dropped)
                &&& prunes(rows, priority, final(self).rows@, viewport_fits)
                &&& final(self).byte_limited == (old(self).byte_limited || sum(row_charges(rows))
                    + sum(retired_charges(final(self).retired@)) > MAX_CACHED_BYTES)
            }),
    {
        let first: i64 = top.get();
        let last: i64 = bottom.get();
        let limit: u64 = self.bytes;
        let mut rows: Vec<Placed> = Vec::new();
        std::mem::swap(&mut rows, &mut self.rows);
        let mut retired: Vec<Retired> = Vec::new();
        std::mem::swap(&mut retired, &mut self.retired);
        proof {
            lemma_within_rows(rows@, top@, bottom@);
            lemma_within_retired(retired@, top@, bottom@);
        }
        let rows = keep_rows(rows, first, last);
        let mut retired = keep_retired(retired, first, last);
        let mut bytes: u64 = total_charge(&rows, &retired, limit);
        let ghost in_range = retired@;
        let ghost mut dropped: int = 0;
        assert(in_range.skip(0) =~= in_range);
        while retired.len() > 0 && (rows.len() > MAX_CACHED_ROWS || retired.len() > MAX_CACHED_ROWS
            - rows.len() || bytes > MAX_CACHED_BYTES)
            invariant
                rows_ok(rows@),
                retired_ok(retired@),
                0 <= dropped <= in_range.len(),
                retired@ == in_range.skip(dropped),
                forall|q: int|
                    0 <= q < dropped ==> !budget_fits(rows@, #[trigger] in_range.skip(q)),
                bytes == sum(row_charges(rows@)) + sum(retired_charges(retired@)),
            decreases retired.len(),
        {
            proof {
                assert(!budget_fits(rows@, retired@));
                lemma_all_nonnegative(rows@, retired@);
                lemma_retired_removed(retired@, 0);
                assert(retired@.remove(0) =~= in_range.skip(dropped + 1));
            }
            let item = retired.remove(0);
            bytes = bytes - item.entry.bytes;
            proof {
                dropped = dropped + 1;
            }
        }
        proof {
            if retired.len() == 0 {
                assert(dropped == in_range.len());
                assert(retired_charges(retired@) =~= Seq::empty());
            }
            assert(drops(rows@, in_range, dropped));
            lemma_all_nonnegative(rows@, retired@);
        }
        if bytes > MAX_CACHED_BYTES {
            self.byte_limited = true;
        }
        if rows.len() <= MAX_CACHED_ROWS && bytes <= MAX_CACHED_BYTES {
            proof {
                lemma_kept_rows_are_apart(*old(self), top@, bottom@, dropped);
            }
            self.rows = rows;
            self.retired = retired;
            self.bytes = bytes;
            return true;
        }
        let ghost all = rows@;
        let ghost n = rows@.len() as int;
        let mut priorities: Vec<RetentionPriority> = Vec::new();
        let mut gone: Vec<bool> = Vec::new();
        let mut i: usize = 0;
        while i < rows.len()
            invariant
                i <= rows.len(),
                rows_ok(rows@),
                all == rows@,
                priorities.len() == i,
                gone.len() == i,
                forall|row: ExpandedRow| #[trigger] call_requires(priority, (row,)),
                forall|k: int| 0 <= k < i ==> !#[trigger] gone@[k],
                forall|k: int|
                    0 <= k < i ==> gives(
                        priority,
                        all[k].row as int,
                        #[trigger] priorities@[k],
                    ),
            decreases rows.len() - i,
        {
            if let Some(row) = ExpandedRow::new(rows[i].row) {
                let given = priority(row);
                assert(gives(priority, all[i as int].row as int, given));
                priorities.push(given);
            }
            gone.push(false);
            i = i + 1;
        }
        let mut count: usize = rows.len();
        let mut viewport_fits = true;
        proof {
            lemma_surviving_all(all, gone@, n);
            assert(all.take(n) =~= all);
        }
        while count > MAX_CACHED_ROWS || bytes > MAX_CACHED_BYTES
            invariant
                rows_ok(rows@),
                all == rows@,
                n == all.len(),
                !rows_fit(all),
                priorities.len() == n,
                gone.len() == n,
                count == surviving(all, gone@, n).len(),
                bytes == sum(row_charges(surviving(all, gone@, n))),
                forall|i: int, j: int|
                    0 <= i < n && 0 <= j < n && gone@[i] && #[trigger] leaves_before(
                        all,
                        priorities@,
                        j,
                        i,
                    ) ==> gone@[j],
                forall|i: int|
                    0 <= i < n && #[trigger] gone@[i] && (forall|j: int|
                        0 <= j < n && #[trigger] gone@[j] && j != i ==> leaves_before(
                            all,
                            priorities@,
                            j,
                            i,
                        )) ==> !rows_fit(surviving(all, gone@.update(i, false), n)),
                viewport_fits <==> forall|i: int|
                    0 <= i < n && #[trigger] gone@[i] ==> !(priorities@[i] is Viewport),
            decreases count,
        {
            let ghost before = gone@;
            match next_to_leave(&rows, &priorities, &gone) {
                Some(worst) => {
                    proof {
                        lemma_surviving_update(all, before, worst as int, n);
                        lemma_all_nonnegative(surviving(all, before, n), Seq::empty());
                        lemma_all_nonnegative(
                            surviving(all, before.update(worst as int, true), n),
                            Seq::empty(),
                        );
                    }
                    bytes = bytes - rows[worst].entry.bytes;
                    count = count - 1;
                    if matches!(priorities[worst], RetentionPriority::Viewport(_)) {
                        viewport_fits = false;
                    }
                    gone.set(worst, true);
                    proof {
                        let w = worst as int;
                        assert(gone@ == before.update(w, true));
                        assert forall|i: int, j: int|
                            0 <= i < n && 0 <= j < n && gone@[i] && #[trigger] leaves_before(
                                all,
                                priorities@,
                                j,
                                i,
                            ) implies gone@[j] by {
                            if i == w && j != w && !before[j] {
                                assert(leaves_before(all, priorities@, w, j));
                            }
                        }
                        assert forall|i: int|
                            0 <= i < n && #[trigger] gone@[i] && (forall|j: int|
                                0 <= j < n && #[trigger] gone@[j] && j != i ==> leaves_before(
                                    all,
                                    priorities@,
                                    j,
                                    i,
                                )) implies !rows_fit(
                            surviving(all, gone@.update(i, false), n),
                        ) by {
                            if i == w {
                                assert(gone@.update(w, false) =~= before);
                            } else {
                                assert(before[i]);
                                assert(gone@[w]);
                                assert(leaves_before(all, priorities@, w, i));
                                assert(before[w]);
                            }
                        }
                        assert(gone@[w]);
                        assert(viewport_fits <==> forall|i: int|
                            0 <= i < n && #[trigger] gone@[i] ==> !(priorities@[i] is Viewport))
                            by {
                            if viewport_fits {
                                assert forall|i: int| 0 <= i < n && #[trigger] gone@[i] implies !(
                                priorities@[i] is Viewport) by {
                                    if i != w {
                                        assert(before[i]);
                                    }
                                }
                            } else if !(priorities@[w] is Viewport) {
                                let i = choose|i: int|
                                    0 <= i < n && #[trigger] before[i] && priorities@[i] is Viewport;
                                assert(gone@[i]);
                            }
                        }
                    }
                },
                None => {
                    proof {
                        lemma_surviving_none(all, before, n);
                        assert(row_charges(surviving(all, before, n)) =~= Seq::empty());
                    }
                },
            }
        }
        proof {
            assert(evicts(all, priorities@, gone@));
            lemma_surviving_ok(all, gone@, n);
        }
        let rows = keep_surviving(rows, &gone);
        self.rows = rows;
        self.retired = retired;
        self.bytes = bytes;
        viewport_fits
    }
}

/// A row of the viewport is given up only once every row outside it has been.
pub proof fn viewport_rows_leave_last(
    rows: Seq<Placed>,
    priorities: Seq<RetentionPriority>,
    gone: Seq<bool>,
    viewed: int,
    other: int,
)
    requires
        evicts(rows, priorities, gone),
        0 <= viewed < rows.len(),
        0 <= other < rows.len(),
        priorities[viewed] is Viewport,
        !(priorities[other] is Viewport),
        gone[viewed],
    ensures
        gone[other],
{
    assert(leaves_before(rows, priorities, other, viewed));
}

/// What is inserted at a coordinate is found there, and every other coordinate holds
/// what it held. Content with the same lasting identity is no longer retired.
pub proof fn inserted_rows_are_found(
    before: PageCache,
    after: PageCache,
    row: i64,
    value: CacheEntry,
    other: int,
    key: Seq<char>,
)
    requires
        before.wf(),
        after.wf(),
        after.rows@ == with_row(before.rows@, row, value),
        after.retired@ == without_retired(before.retired@, value.row.source.continuity_key@),
    ensures
        after.at(row as int) == Some(value),
        other != row ==> after.at(other) == before.at(other),
        !keyed(after.retired@, value.row.source.continuity_key@),
        key != value.row.source.continuity_key@ ==> keyed(after.retired@, key) == keyed(
            before.retired@,
            key,
        ),
{
    let at = slot(before.rows@, row as int);
    lemma_slot(before.rows@, row as int);
    lemma_occupied(after.rows@, row as int);
    lemma_occupied(after.rows@, other);
    lemma_occupied(before.rows@, other);
    assert(after.rows@[at] == (Placed { row, entry: value }));
    let inserted = !occupied(before.rows@, row as int);
    assert forall|i: int| 0 <= i < before.rows@.len() && (#[trigger] before.rows@[i]).row
        != row implies before.rows@[i] == after.rows@[if inserted && i >= at {
        i + 1
    } else {
        i
    }] by {}
    assert forall|i: int| 0 <= i < after.rows@.len() && i != at implies #[trigger] after.rows@[i]
        == before.rows@[if inserted && i > at {
        i - 1
    } else {
        i
    }] by {}
    if other != row {
        if occupied(before.rows@, other) {
            let i = slot(before.rows@, other);
            assert(before.rows@[i].row != row);
            let j = if inserted && i >= at {
                i + 1
            } else {
                i
            };
            assert(after.rows@[j].row == other);
        }
        if occupied(after.rows@, other) {
            let j = slot(after.rows@, other);
            let i = if inserted && j > at {
                j - 1
            } else {
                j
            };
            assert(after.rows@[j] == before.rows@[i]);
            assert(before.rows@[i].row == other);
        }
    }
    let gone = value.row.source.continuity_key@;
    lemma_keyed(before.retired@, gone);
    lemma_keyed(after.retired@, gone);
    lemma_keyed(before.retired@, key);
    lemma_keyed(after.retired@, key);
    if keyed(before.retired@, gone) {
        let k = key_slot(before.retired@, gone);
        assert forall|i: int| 0 <= i < after.retired@.len() implies #[trigger] after.retired@[i]
            == before.retired@[if i < k {
            i
        } else {
            i + 1
        }] by {}
        if keyed(before.retired@, key) && key != gone {
            let i = key_slot(before.retired@, key);
            assert(after.retired@[if i < k {
                i
            } else {
                i - 1
            }] == before.retired@[i]);
        }
    }
}

/// A row that is moved keeps the distance to its parent, as far as the parent can be
/// numbered, so moving it back restores the link.
pub proof fn moved_rows_keep_their_parents(parent: usize, old: int, new: int)
    requires
        0 <= old <= i64::MAX,
        0 <= new <= i64::MAX,
        parent <= i64::MAX,
    ensures
        moved_parent(Some(parent), old, new) is Some <==> 0 <= new - (old - parent) <= i64::MAX && new
            - (old - parent) <= usize::MAX,
        moved_parent(Some(parent), old, new) matches Some(moved) ==> new - moved == old - parent
            && moved_parent(Some(moved), new, old) == Some(parent),
        moved_parent(None, old, new) is None,
{
}

/// A row of a known size within the budget can be retained at exactly that charge; any
/// other row is refused.
pub proof fn rows_within_the_budget_are_retained(row: RowInput, entry: CacheEntry)
    ensures
        CacheEntry::fault(row) is None <==> (row.size() is Ok && row.size()->Ok_0
            <= MAX_CACHED_BYTES),
        entry.retains(row) ==> entry.row == row && row.size() is Ok && entry.bytes
            == row.size()->Ok_0 && entry.version@.len() == 0,
{
}

proof fn lemma_retiring(rows: Seq<Placed>, retired: Seq<Retired>, n: int, key: Seq<char>, last: int)
    requires
        rows_ok(rows),
        retired_ok(retired),
        -1 <= last < n <= rows.len() || last == -1 && n == 0,
        last >= 0 ==> rows[last].entry.version@.len() > 0
            && rows[last].entry.row.source.continuity_key@ == key,
        forall|j: int|
            last < j < n && (#[trigger] rows[j]).entry.version@.len() > 0
                ==> rows[j].entry.row.source.continuity_key@ != key,
    ensures
        retired_ok(retiring(rows, retired, n)),
        ({
            let all = retiring(rows, retired, n);
            if last >= 0 {
                keyed(all, key) && all[key_slot(all, key)].row == rows[last].row && all[key_slot(
                    all,
                    key,
                )].entry == rows[last].entry
            } else {
                &&& keyed(all, key) == keyed(retired, key)
                &&& keyed(all, key) ==> all[key_slot(all, key)] == retired[key_slot(retired, key)]
            }
        }),
    decreases n,
{
    if n > 0 {
        let before = retiring(rows, retired, n - 1);
        let all = retiring(rows, retired, n);
        let placed = rows[n - 1];
        let item = Retired {
            key: placed.entry.row.source.continuity_key,
            row: placed.row,
            entry: placed.entry,
        };
        if last == n - 1 {
            let sooner = lemma_last_versioned(rows, n - 1, key);
            lemma_retiring(rows, retired, n - 1, key, sooner);
        } else {
            lemma_retiring(rows, retired, n - 1, key, last);
        }
        if placed.entry.version@.len() > 0 {
            lemma_with_retired(before, item);
            lemma_keyed(before, key);
            lemma_keyed(before, item.key@);
            lemma_keyed(all, key);
            lemma_key_slot(before, item.key@);
            let at = key_slot(before, item.key@);
            assert(all[at] == item);
            if item.key@ != key {
                let replaced = keyed(before, item.key@);
                assert forall|i: int| 0 <= i < all.len() && i != at implies #[trigger] all[i]
                    == before[if !replaced && i > at {
                    i - 1
                } else {
                    i
                }] by {}
                if keyed(before, key) {
                    let i = key_slot(before, key);
                    assert(before[i].key@ == key);
                    let j = if !replaced && i >= at {
                        i + 1
                    } else {
                        i
                    };
                    assert(all[j] == before[i]);
                }
                if keyed(all, key) {
                    let j = key_slot(all, key);
                    let i = if !replaced && j > at {
                        j - 1
                    } else {
                        j
                    };
                    assert(all[j] == before[i]);
                }
            }
        }
    }
}

proof fn lemma_last_versioned(rows: Seq<Placed>, n: int, key: Seq<char>) -> (last: int)
    requires
        0 <= n <= rows.len(),
    ensures
        -1 <= last < n,
        last >= 0 ==> rows[last].entry.version@.len() > 0
            && rows[last].entry.row.source.continuity_key@ == key,
        forall|j: int|
            last < j < n && (#[trigger] rows[j]).entry.version@.len() > 0
                ==> rows[j].entry.row.source.continuity_key@ != key,
    decreases n,
{
    if n == 0 {
        -1
    } else if rows[n - 1].entry.version@.len() > 0 && rows[n - 1].entry.row.source.continuity_key@
        == key {
        n - 1
    } else {
        lemma_last_versioned(rows, n - 1, key)
    }
}

/// When coordinates are given up, the last row with a version is kept under its lasting
/// identity, for the coordinate that it had. An identity without such a row keeps what
/// it had retired before; rows without a version are forgotten.
pub proof fn versioned_rows_are_kept_by_identity(
    rows: Seq<Placed>,
    retired: Seq<Retired>,
    key: Seq<char>,
    last: int,
)
    requires
        rows_ok(rows),
        retired_ok(retired),
        -1 <= last < rows.len(),
        last >= 0 ==> rows[last].entry.version@.len() > 0
            && rows[last].entry.row.source.continuity_key@ == key,
        forall|j: int|
            last < j < rows.len() && (#[trigger] rows[j]).entry.version@.len() > 0
                ==> rows[j].entry.row.source.continuity_key@ != key,
    ensures
        ({
            let all = retiring(rows, retired, rows.len() as int);
            &&& last >= 0 ==> exists|i: int|
                0 <= i < all.len() && (#[trigger] all[i]).key@ == key && all[i].row == rows[last].row
                    && all[i].entry == rows[last].entry
            &&& last == -1 ==> ((exists|i: int| 0 <= i < all.len() && (#[trigger] all[i]).key@ == key)
                <==> exists|i: int| 0 <= i < retired.len() && (#[trigger] retired[i]).key@ == key)
        }),
{
    let all = retiring(rows, retired, rows.len() as int);
    lemma_retiring(rows, retired, rows.len() as int, key, last);
    lemma_keyed(all, key);
    lemma_keyed(retired, key);
}

proof fn lemma_versioned(entries: Seq<CacheEntry>, n: int)
    requires
        0 <= n <= entries.len(),
    ensures
        versioned(entries, n) == entries.take(n).filter(
            |entry: CacheEntry| entry.version@.len() > 0,
        ).map_values(
            |entry: CacheEntry|
                CachedRow { key: entry.row.source.continuity_key, version: entry.version },
        ),
    decreases n,
{
    let has = |entry: CacheEntry| entry.version@.len() > 0;
    let named = |entry: CacheEntry|
        CachedRow { key: entry.row.source.continuity_key, version: entry.version };
    if n > 0 {
        lemma_versioned(entries, n - 1);
        let head = entries.take(n - 1);
        let entry = entries[n - 1];
        assert(entries.take(n) =~= head.push(entry));
        head.lemma_filter_push(entry, has);
        assert(head.filter(has).push(entry).map_values(named) =~= head.filter(has).map_values(
            named,
        ).push(named(entry)));
    } else {
        assert(entries.take(0) =~= Seq::empty());
        reveal(Seq::filter);
        assert(entries.take(0).filter(has).map_values(named) =~= Seq::empty());
    }
}

/// A conditional request names every retained content that has a version, by its lasting
/// identity and in order, and no other content.
pub proof fn known_rows_are_the_versioned_ones(entries: Seq<CacheEntry>)
    ensures
        versioned(entries, entries.len() as int) == entries.filter(
            |entry: CacheEntry| entry.version@.len() > 0,
        ).map_values(
            |entry: CacheEntry|
                CachedRow { key: entry.row.source.continuity_key, version: entry.version },
        ),
{
    lemma_versioned(entries, entries.len() as int);
    assert(entries.take(entries.len() as int) =~= entries);
}

/// Whether content is among the rows or the retired content.
pub open spec fn holds_entry(state: Drawn, entry: CacheEntry) -> bool {
    ||| exists|i: int| 0 <= i < state.rows.len() && (#[trigger] state.rows[i]).entry == entry
    ||| exists|i: int| 0 <= i < state.retired.len() && (#[trigger] state.retired[i]).entry == entry
}

proof fn lemma_draw_takes(state: Drawn, key: Seq<char>, version: String)
    requires
        drawn_ok(state),
        draw(state, key, version) is Some,
    ensures
        ({
            let after = draw(state, key, version)->0;
            &&& after.entries.len() == state.entries.len() + 1
            &&& after.entries.last().row.source.continuity_key@ == key
            &&& after.entries.last().version == version
            &&& after.rows.len() + after.retired.len() + 1 == state.rows.len() + state.retired.len()
            &&& exists|entry: CacheEntry|
                #[trigger] holds_entry(state, entry) && entry.version@ == version@ && entry.row
                    == after.entries.last().row && entry.bytes == after.entries.last().bytes
            &&& forall|entry: CacheEntry| #[trigger]
                holds_entry(after, entry) ==> holds_entry(state, entry)
        }),
{
    let after = draw(state, key, version)->0;
    lemma_key_slot(state.retired, key);
    lemma_first_keyed(state.rows, key, 0);
    if keyed(state.retired, key) {
        let at = key_slot(state.retired, key);
        assert(holds_entry(state, state.retired[at].entry));
        assert forall|entry: CacheEntry| #[trigger] holds_entry(after, entry) implies holds_entry(
            state,
            entry,
        ) by {
            if exists|i: int| 0 <= i < after.retired.len() && (#[trigger] after.retired[i]).entry
                == entry {
                let i = choose|i: int|
                    0 <= i < after.retired.len() && (#[trigger] after.retired[i]).entry == entry;
                assert(state.retired[if i < at {
                    i
                } else {
                    i + 1
                }].entry == entry);
            } else {
                let i = choose|i: int|
                    0 <= i < after.rows.len() && (#[trigger] after.rows[i]).entry == entry;
                assert(state.rows[i].entry == entry);
            }
        }
    } else {
        let at = first_keyed(state.rows, key, 0);
        assert(holds_entry(state, state.rows[at].entry));
        assert forall|entry: CacheEntry| #[trigger] holds_entry(after, entry) implies holds_entry(
            state,
            entry,
        ) by {
            if exists|i: int| 0 <= i < after.rows.len() && (#[trigger] after.rows[i]).entry == entry {
                let i = choose|i: int|
                    0 <= i < after.rows.len() && (#[trigger] after.rows[i]).entry == entry;
                assert(state.rows[if i < at {
                    i
                } else {
                    i + 1
                }].entry == entry);
            } else {
                let i = choose|i: int|
                    0 <= i < after.retired.len() && (#[trigger] after.retired[i]).entry == entry;
                assert(state.retired[i].entry == entry);
            }
        }
    }
}

/// How many of the first `n` rows of a patch ask for retained content.
pub open spec fn claims(patch: Seq<ReconciledRow>, n: int) -> int
    decreases n,
{
    if n <= 0 {
        0
    } else if patch[n - 1].content is None {
        claims(patch, n - 1) + 1
    } else {
        claims(patch, n - 1)
    }
}

proof fn lemma_drawn_answers(cache: PageCache, patch: Seq<ReconciledRow>, n: int)
    requires
        cache.wf(),
        0 <= n <= patch.len(),
        patch_faults(cache, patch, patch.len() as int) is None,
        drawn(cache.undrawn(), patch, n) is Some,
    ensures
        ({
            let start = cache.undrawn();
            let after = drawn(start, patch, n)->0;
            &&& after.entries.len() == n
            &&& after.rows.len() + after.retired.len() + claims(patch, n) == start.rows.len()
                + start.retired.len()
            &&& forall|entry: CacheEntry| #[trigger]
                holds_entry(after, entry) ==> holds_entry(start, entry)
            &&& forall|i: int| 0 <= i < n ==> answers(start, patch[i], #[trigger] after.entries[i])
        }),
    decreases n,
{
    if n > 0 {
        let start = cache.undrawn();
        let before = drawn(start, patch, n - 1)->0;
        let after = drawn(start, patch, n)->0;
        lemma_drawn_answers(cache, patch, n - 1);
        lemma_drawn_keeps(cache, patch, n - 1);
        lemma_patch_faults_none(cache, patch, patch.len() as int, n - 1);
        if patch[n - 1].content is None {
            lemma_draw_takes(before, patch[n - 1].cached.key@, patch[n - 1].cached.version);
            let taken = after.entries.last();
            let entry = choose|entry: CacheEntry|
                #[trigger] holds_entry(before, entry) && entry.version@
                    == patch[n - 1].cached.version@ && entry.row == taken.row && entry.bytes
                    == taken.bytes;
            assert(holds_entry(start, entry));
        }
        assert forall|entry: CacheEntry| #[trigger] holds_entry(after, entry) implies holds_entry(
            start,
            entry,
        ) by {
            if patch[n - 1].content is Some {
                assert(after.rows == before.rows && after.retired == before.retired);
                assert(holds_entry(before, entry));
            }
        }
        assert forall|i: int| 0 <= i < n implies answers(
            start,
            patch[i],
            #[trigger] after.entries[i],
        ) by {
            if i < n - 1 {
                assert(after.entries[i] == before.entries[i]);
            }
        }
    }
}

/// Whether an entry is what a row of a patch asks for: the content that it brings, or
/// content that was retained in the version that it names.
pub open spec fn answers(start: Drawn, row: ReconciledRow, entry: CacheEntry) -> bool {
    &&& entry.version@ == row.cached.version@
    &&& entry.row.source.continuity_key@ == row.cached.key@
    &&& match row.content {
        Some(content) => entry.row.source == content,
        None => exists|kept: CacheEntry|
            #[trigger] holds_entry(start, kept) && kept.version@ == row.cached.version@ && kept.row
                == entry.row && kept.bytes == entry.bytes,
    }
}

/// An accepted patch is answered row by row. What it takes from the retained content is
/// no longer retained, and nothing else is given up.
pub proof fn accepted_patches_are_answered(cache: PageCache, patch: Seq<ReconciledRow>)
    requires
        cache.wf(),
        reconcile_fault(cache, patch) is None,
    ensures
        drawn(cache.undrawn(), patch, patch.len() as int) is Some,
        ({
            let after = drawn(cache.undrawn(), patch, patch.len() as int)->0;
            &&& after.entries.len() == patch.len()
            &&& forall|i: int|
                0 <= i < patch.len() ==> answers(
                    cache.undrawn(),
                    patch[i],
                    #[trigger] after.entries[i],
                )
            &&& after.rows.len() + after.retired.len() == cache.rows@.len() + cache.retired@.len()
                - claims(patch, patch.len() as int)
        }),
{
    lemma_drawn_fault(cache.undrawn(), patch, patch.len() as int);
    lemma_drawn_answers(cache, patch, patch.len() as int);
}

/// Rows are given up in order: hidden ones first, after them the visible ones, after them
/// those that are asked for, and those of the viewport last. Within each of these the
/// farthest goes first, and of equally far ones the one with the greater coordinate.
pub proof fn rows_are_given_up_in_order(
    rows: Seq<Placed>,
    priorities: Seq<RetentionPriority>,
    gone: Seq<bool>,
    kept: int,
    left: int,
)
    requires
        evicts(rows, priorities, gone),
        0 <= kept < rows.len(),
        0 <= left < rows.len(),
        gone[left],
        !gone[kept],
    ensures
        match (priorities[left], priorities[kept]) {
            (RetentionPriority::Hidden(a), RetentionPriority::Hidden(b)) => a > b || a == b
                && rows[left].row >= rows[kept].row,
            (RetentionPriority::Visible(a), RetentionPriority::Visible(b)) => a > b || a == b
                && rows[left].row >= rows[kept].row,
            (RetentionPriority::Requested(a), RetentionPriority::Requested(b)) => a > b || a == b
                && rows[left].row >= rows[kept].row,
            (RetentionPriority::Viewport(a), RetentionPriority::Viewport(b)) => a > b || a == b
                && rows[left].row >= rows[kept].row,
            (_, RetentionPriority::Hidden(_)) => false,
            (RetentionPriority::Requested(_), RetentionPriority::Visible(_)) => false,
            (RetentionPriority::Viewport(_), _) => false,
            _ => true,
        },
{
    assert(!leaves_before(rows, priorities, kept, left));
}

} // verus!
