//! Apply revisioned block edits to the existing bounded cache and animated page.

use crate::cache::{self, CacheEntry, PageCache, Placed, Retired, MAX_CACHED_BYTES};
use crate::coordinates::{self, ExpandedRow, ROW_H};
use crate::edits;
use crate::live::{self, LiveIndex};
use crate::protocol::{
    invalid, GraphFacts, HistoryRow, LiveBlock, LiveDelta, LiveUpdate, ServiceError,
};
use crate::row_input::RowInput;
use crate::state::{HistoryAppState, Selection, Topology};
use crate::step::{DomOp, Send, Step, Viewport};
use crate::tasks;
use crate::text::{self, decimal_text, joined, same_text, starts_with};
use vstd::prelude::*;

verus! {

/// A row's place in the live order: its block and its slot there.
pub type Position = (String, u64);

/// The place that a position names.
pub open spec fn place_of(position: Option<Position>) -> Option<(Seq<char>, int)> {
    match position {
        Some((key, slot)) => Some((key@, slot as int)),
        None => None,
    }
}

/// The arriving block with a key: the first of those from `from` on.
pub open spec fn arrival(upserts: Seq<LiveBlock>, key: Seq<char>, from: int) -> int
    decreases upserts.len() - from,
{
    if from >= upserts.len() || upserts[from].meta.key@ == key {
        from
    } else {
        arrival(upserts, key, from + 1)
    }
}

/// The first of the rows from `from` on with a lasting identity.
pub open spec fn row_with(rows: Seq<HistoryRow>, continuity: Option<Seq<char>>, from: int) -> int
    decreases rows.len() - from,
{
    if from >= rows.len() || Some(rows[from].continuity_key@) == continuity {
        from
    } else {
        row_with(rows, continuity, from + 1)
    }
}

/// Where a place is found after its block was revised: at the row with the same
/// lasting identity, or at the block's first row.
pub open spec fn remapped(
    place: Option<(Seq<char>, int)>,
    continuity: Option<Seq<char>>,
    delta: LiveDelta,
) -> Option<(Seq<char>, int)> {
    match place {
        Some((key, slot)) => {
            let j = arrival(delta.upserts@, key, 0);
            if j < delta.upserts@.len() {
                let rows = delta.upserts@[j].rows@;
                let at = row_with(rows, continuity, 0);
                Some(
                    (
                        key,
                        if at < rows.len() {
                            at
                        } else {
                            0
                        },
                    ),
                )
            } else {
                place
            }
        },
        None => None,
    }
}

pub open spec fn optional_text(text: Option<&str>) -> Option<Seq<char>> {
    match text {
        Some(text) => Some(text@),
        None => None,
    }
}

/// Follow a child row through the revision of its block.
pub fn remap_child(position: &mut Option<Position>, continuity: Option<&str>, delta: &LiveDelta)
    ensures
        place_of(*final(position)) == remapped(
            place_of(*old(position)),
            optional_text(continuity),
            *delta,
        ),
{
    if let Some((key, slot)) = position {
        let mut j: usize = 0;
        while j < delta.upserts.len() && !same_text(
            delta.upserts[j].meta.key.as_str(),
            key.as_str(),
        )
            invariant
                j <= delta.upserts.len(),
                arrival(delta.upserts@, key@, 0) == arrival(delta.upserts@, key@, j as int),
            decreases delta.upserts.len() - j,
        {
            j = j + 1;
        }
        if j < delta.upserts.len() {
            let rows = &delta.upserts[j].rows;
            let mut at: usize = 0;
            let ghost sought = optional_text(continuity);
            while at < rows.len() && !is_text(continuity, rows[at].continuity_key.as_str())
                invariant
                    at <= rows.len(),
                    sought == optional_text(continuity),
                    row_with(rows@, sought, 0) == row_with(rows@, sought, at as int),
                decreases rows.len() - at,
            {
                at = at + 1;
            }
            *slot = if at < rows.len() {
                at as u64
            } else {
                0
            };
        }
    }
}

fn is_text(text: Option<&str>, other: &str) -> (same: bool)
    ensures
        same == (Some(other@) == optional_text(text)),
{
    match text {
        Some(text) => same_text(text, other),
        None => false,
    }
}

/// Whether a lasting identity is the block's own or one of its rows'.
pub open spec fn owns(key: Seq<char>, continuity: Seq<char>) -> bool {
    continuity == key || key.push(':').is_prefix_of(continuity)
}

fn is_owned(key: &str, continuity: &str) -> (yes: bool)
    ensures
        yes == owns(key@, continuity@),
{
    if same_text(key, continuity) {
        return true;
    }
    let mut prefix = key.to_owned();
    prefix.push(':');
    starts_with(continuity, prefix.as_str())
}

/// Some row of the block has the lasting identity.
pub open spec fn carries(rows: Seq<HistoryRow>, continuity: Seq<char>) -> bool {
    exists|i: int| 0 <= i < rows.len() && (#[trigger] rows[i]).continuity_key@ == continuity
}

/// Whether an edit takes a lasting identity out of the history.
pub open spec fn retires(continuity: Seq<char>, delta: LiveDelta) -> bool {
    ||| exists|i: int|
        0 <= i < delta.removed@.len() && owns((#[trigger] delta.removed@[i])@, continuity)
    ||| exists|i: int|
        0 <= i < delta.upserts@.len() && owns(
            (#[trigger] delta.upserts@[i]).meta.key@,
            continuity,
        ) && !carries(delta.upserts@[i].rows@, continuity)
}

pub fn retired(continuity: &str, delta: &LiveDelta) -> (yes: bool)
    ensures
        yes == retires(continuity@, *delta),
{
    let mut i: usize = 0;
    while i < delta.removed.len()
        invariant
            i <= delta.removed.len(),
            forall|k: int| 0 <= k < i ==> !owns((#[trigger] delta.removed@[k])@, continuity@),
        decreases delta.removed.len() - i,
    {
        if is_owned(delta.removed[i].as_str(), continuity) {
            return true;
        }
        i = i + 1;
    }
    let mut j: usize = 0;
    while j < delta.upserts.len()
        invariant
            j <= delta.upserts.len(),
            forall|k: int|
                0 <= k < delta.removed.len() ==> !owns(
                    (#[trigger] delta.removed@[k])@,
                    continuity@,
                ),
            forall|k: int|
                0 <= k < j ==> !(owns((#[trigger] delta.upserts@[k]).meta.key@, continuity@)
                    && !carries(delta.upserts@[k].rows@, continuity@)),
        decreases delta.upserts.len() - j,
    {
        let block = &delta.upserts[j];
        if is_owned(block.meta.key.as_str(), continuity) {
            let mut carried = false;
            let mut m: usize = 0;
            while m < block.rows.len()
                invariant
                    m <= block.rows.len(),
                    carried == carries(block.rows@.take(m as int), continuity@),
                decreases block.rows.len() - m,
            {
                let ghost before = block.rows@.take(m as int);
                let ghost after = block.rows@.take(m + 1);
                proof {
                    if carries(before, continuity@) {
                        let k = choose|k: int|
                            0 <= k < before.len() && (#[trigger] before[k]).continuity_key@
                                == continuity@;
                        assert(after[k].continuity_key@ == continuity@);
                    }
                    if block.rows@[m as int].continuity_key@ == continuity@ {
                        assert(after[m as int].continuity_key@ == continuity@);
                    }
                    if carries(after, continuity@) {
                        let k = choose|k: int|
                            0 <= k < after.len() && (#[trigger] after[k]).continuity_key@
                                == continuity@;
                        if k < m {
                            assert(before[k].continuity_key@ == continuity@);
                        }
                    }
                }
                if same_text(block.rows[m].continuity_key.as_str(), continuity) {
                    carried = true;
                }
                m = m + 1;
            }
            assert(block.rows@.take(m as int) =~= block.rows@);
            if !carried {
                assert(owns(delta.upserts@[j as int].meta.key@, continuity@));
                return true;
            }
        }
        j = j + 1;
    }
    false
}

/// The rows of a cache, each with its coordinate.
pub open spec fn contents(rows: Seq<Placed>) -> Seq<(int, RowInput)> {
    Seq::new(rows.len(), |i: int| (rows[i].row as int, rows[i].entry.row))
}

/// The number of rows before `row`: where it stands or would stand.
pub open spec fn content_slot(rows: Seq<(int, RowInput)>, row: int) -> int
    decreases rows.len(),
{
    if rows.len() == 0 {
        0
    } else if rows.last().0 < row {
        rows.len() as int
    } else {
        content_slot(rows.drop_last(), row)
    }
}

/// The rows with `input` at `row`, in place of what stood there.
pub open spec fn with_content(rows: Seq<(int, RowInput)>, row: int, input: RowInput) -> Seq<
    (int, RowInput),
> {
    let at = content_slot(rows, row);
    if at < rows.len() && rows[at].0 == row {
        rows.update(at, (row, input))
    } else {
        rows.insert(at, (row, input))
    }
}

proof fn lemma_content_slot(rows: Seq<Placed>, row: int)
    ensures
        content_slot(contents(rows), row) == cache::slot(rows, row),
        0 <= cache::slot(rows, row) <= rows.len(),
    decreases rows.len(),
{
    if rows.len() > 0 {
        assert(contents(rows).drop_last() =~= contents(rows.drop_last()));
        lemma_content_slot(rows.drop_last(), row);
    }
}

proof fn lemma_with_content(rows: Seq<Placed>, row: i64, entry: CacheEntry)
    ensures
        contents(cache::with_row(rows, row, entry)) == with_content(
            contents(rows),
            row as int,
            entry.row,
        ),
{
    lemma_content_slot(rows, row as int);
    assert(contents(cache::with_row(rows, row, entry)) =~= with_content(
        contents(rows),
        row as int,
        entry.row,
    ));
}

/// A row moved from `old` to `new`.
pub open spec fn moved_input(input: RowInput, old: int, new: int) -> RowInput {
    RowInput {
        source: HistoryRow {
            parent_row: cache::moved_parent(input.source.parent_row, old, new),
            ..input.source
        },
    }
}

/// Where a retained row stands once its block was left alone by an edit.
pub open spec fn destination(
    before: LiveIndex,
    after: LiveIndex,
    delta: LiveDelta,
    row: int,
) -> Option<int> {
    match before.position_of(row) {
        Some((key, slot)) => if edits::touched(delta, key) {
            None
        } else {
            after.absolute_of(key, slot)
        },
        None => None,
    }
}

/// The retained rows, the first `n` of them moved to their new coordinates.
pub open spec fn moved_rows(
    before: LiveIndex,
    after: LiveIndex,
    delta: LiveDelta,
    rows: Seq<(int, RowInput)>,
    n: int,
) -> Seq<(int, RowInput)>
    decreases n,
{
    if n <= 0 {
        Seq::empty()
    } else {
        let done = moved_rows(before, after, delta, rows, n - 1);
        let (old, input) = rows[n - 1];
        match destination(before, after, delta, old) {
            Some(new) => with_content(done, new, moved_input(input, old, new)),
            None => done,
        }
    }
}

/// The rows with the first `n` rows of an arriving block at their coordinates.
pub open spec fn with_block(
    after: LiveIndex,
    rows: Seq<(int, RowInput)>,
    block: LiveBlock,
    n: int,
) -> Seq<(int, RowInput)>
    decreases n,
{
    if n <= 0 {
        rows
    } else {
        let done = with_block(after, rows, block, n - 1);
        match after.absolute_of(block.meta.key@, n - 1) {
            Some(new) => with_content(
                done,
                new,
                moved_input(RowInput { source: block.rows@[n - 1] }, n - 1, new),
            ),
            None => done,
        }
    }
}

/// The rows with those of the first `n` arriving blocks at their coordinates.
pub open spec fn with_arrivals(
    after: LiveIndex,
    rows: Seq<(int, RowInput)>,
    upserts: Seq<LiveBlock>,
    n: int,
) -> Seq<(int, RowInput)>
    decreases n,
{
    if n <= 0 {
        rows
    } else {
        with_block(
            after,
            with_arrivals(after, rows, upserts, n - 1),
            upserts[n - 1],
            upserts[n - 1].rows@.len() as int,
        )
    }
}

/// The geometry given for a place: the first of those from `from` on.
pub open spec fn geometry_at(facts: GraphFacts, key: Seq<char>, slot: int, from: int) -> int
    decreases facts.geometry@.len() - from,
{
    if from >= facts.geometry@.len() || (facts.geometry@[from].key@ == key
        && facts.geometry@[from].slot == slot) {
        from
    } else {
        geometry_at(facts, key, slot, from + 1)
    }
}

/// A row with the geometry that the graph gives it.
pub open spec fn decorated_input(
    after: LiveIndex,
    facts: GraphFacts,
    row: int,
    input: RowInput,
) -> RowInput {
    match after.position_of(row) {
        Some((key, slot)) => {
            let g = geometry_at(facts, key, slot, 0);
            if g < facts.geometry@.len() {
                RowInput {
                    source: HistoryRow {
                        max_lane: facts.geometry@[g].max_lane,
                        encoded: facts.geometry@[g].encoded,
                        ..input.source
                    },
                }
            } else {
                input
            }
        },
        None => input,
    }
}

/// The rows, the first `n` of them with the geometry that the graph gives them;
/// a row outside the history is dropped.
pub open spec fn decorated_rows(
    after: LiveIndex,
    facts: GraphFacts,
    rows: Seq<(int, RowInput)>,
    n: int,
) -> Seq<(int, RowInput)>
    decreases n,
{
    if n <= 0 {
        Seq::empty()
    } else {
        let done = decorated_rows(after, facts, rows, n - 1);
        let (row, input) = rows[n - 1];
        if after.position_of(row) is Some {
            with_content(done, row, decorated_input(after, facts, row, input))
        } else {
            done
        }
    }
}

/// The position of the first fault, or the number of entries where there is none.
pub open spec fn fault_index(faults: Seq<Option<Seq<char>>>) -> int
    decreases faults.len(),
{
    if faults.len() == 0 || faults[0] is Some {
        0
    } else {
        1 + fault_index(faults.drop_first())
    }
}

/// The first fault.
pub open spec fn first_fault(faults: Seq<Option<Seq<char>>>) -> Option<Seq<char>> {
    if fault_index(faults) < faults.len() {
        faults[fault_index(faults)]
    } else {
        None
    }
}

proof fn lemma_fault_index(faults: Seq<Option<Seq<char>>>, n: int)
    requires
        0 <= n <= faults.len(),
        forall|k: int| 0 <= k < n ==> #[trigger] faults[k] is None,
        n < faults.len() ==> faults[n] is Some,
    ensures
        fault_index(faults) == n,
    decreases n,
{
    if n > 0 {
        let rest = faults.drop_first();
        assert(faults[0] is None);
        assert forall|k: int| 0 <= k < n - 1 implies #[trigger] rest[k] is None by {
            assert(rest[k] == faults[k + 1]);
        }
        if n < faults.len() {
            assert(rest[n - 1] == faults[n]);
        }
        lemma_fault_index(rest, n - 1);
    }
}

/// Entries that were charged afresh and have no version yet.
pub open spec fn fresh(rows: Seq<Placed>) -> bool {
    forall|i: int| 0 <= i < rows.len() ==> (#[trigger] rows[i]).entry.retains(rows[i].entry.row)
}

proof fn lemma_fresh_with_row(rows: Seq<Placed>, row: i64, entry: CacheEntry)
    requires
        fresh(rows),
        entry.retains(entry.row),
    ensures
        fresh(cache::with_row(rows, row, entry)),
{
    lemma_content_slot(rows, row as int);
}

/// For each retained row, why it cannot be retained at its new coordinate.
pub open spec fn move_faults(
    before: LiveIndex,
    after: LiveIndex,
    delta: LiveDelta,
    rows: Seq<(int, RowInput)>,
) -> Seq<Option<Seq<char>>> {
    Seq::new(
        rows.len(),
        |i: int|
            match destination(before, after, delta, rows[i].0) {
                Some(new) => CacheEntry::fault(moved_input(rows[i].1, rows[i].0, new)),
                None => None,
            },
    )
}

/// The retired content once the first `n` retained rows have moved.
pub open spec fn moved_retired(
    before: LiveIndex,
    after: LiveIndex,
    delta: LiveDelta,
    rows: Seq<(int, RowInput)>,
    retired: Seq<Retired>,
    n: int,
) -> Seq<Retired>
    decreases n,
{
    if n <= 0 {
        retired
    } else {
        let done = moved_retired(before, after, delta, rows, retired, n - 1);
        if destination(before, after, delta, rows[n - 1].0) is Some {
            cache::without_retired(done, rows[n - 1].1.source.continuity_key@)
        } else {
            done
        }
    }
}

/// Move retained rows whose blocks were left alone to their new coordinates.
fn move_entries(
    cache: &mut PageCache,
    rows: Vec<Placed>,
    positions: &Vec<Option<Position>>,
    index: &LiveIndex,
    delta: &LiveDelta,
    Ghost(before): Ghost<LiveIndex>,
) -> (moved: Result<(), ServiceError>)
    requires
        old(cache).wf(),
        old(cache).rows@.len() == 0,
        cache::rows_ok(rows@),
        index.wf(),
        positions.len() == rows.len(),
        forall|i: int|
            0 <= i < rows.len() ==> place_of(#[trigger] positions@[i]) == before.position_of(
                rows@[i].row as int,
            ),
        old(cache).bytes + rows@.len() * MAX_CACHED_BYTES <= u64::MAX,
    ensures
        final(cache).wf(),
        fresh(final(cache).rows@),
        final(cache).byte_limited == old(cache).byte_limited,
        final(cache).bytes <= old(cache).bytes + rows@.len() * MAX_CACHED_BYTES,
        final(cache).retired@.len() <= old(cache).retired@.len(),
        ({
            let known = contents(rows@);
            let faults = move_faults(before, *index, *delta, known);
            let n = fault_index(faults);
            &&& 0 <= n <= known.len()
            &&& contents(final(cache).rows@) == moved_rows(before, *index, *delta, known, n)
            &&& final(cache).retired@ == moved_retired(
                before,
                *index,
                *delta,
                known,
                old(cache).retired@,
                n,
            )
            &&& match moved {
                Ok(_) => n == known.len(),
                Err(error) => n < known.len() && faults[n] is Some && error.is_invalid(
                    faults[n]->0,
                ),
            }
        }),
{
    let ghost all = rows@;
    let ghost known = contents(rows@);
    let ghost faults = move_faults(before, *index, *delta, known);
    let ghost base = cache.bytes as int;
    let mut i: usize = 0;
    assert(contents(cache.rows@) =~= moved_rows(before, *index, *delta, known, 0));
    for placed in it: rows
        invariant
            it.seq() == all,
            known == contents(all),
            faults == move_faults(before, *index, *delta, known),
            cache::rows_ok(all),
            i == it.index(),
            positions.len() == all.len(),
            cache.wf(),
            fresh(cache.rows@),
            index.wf(),
            cache.byte_limited == old(cache).byte_limited,
            base == old(cache).bytes,
            cache.bytes <= base + i * MAX_CACHED_BYTES,
            cache.retired@.len() <= old(cache).retired@.len(),
            base + all.len() * MAX_CACHED_BYTES <= u64::MAX,
            forall|k: int|
                0 <= k < all.len() ==> place_of(#[trigger] positions@[k]) == before.position_of(
                    all[k].row as int,
                ),
            forall|k: int| 0 <= k < i ==> #[trigger] faults[k] is None,
            contents(cache.rows@) == moved_rows(before, *index, *delta, known, i as int),
            cache.retired@ == moved_retired(
                before,
                *index,
                *delta,
                known,
                old(cache).retired@,
                i as int,
            ),
    {
        assert(placed == all[i as int]);
        assert(known[i as int] == (placed.row as int, placed.entry.row));
        assert(place_of(positions@[i as int]) == before.position_of(placed.row as int));
        if let Some(position) = &positions[i] {
            if !edits::is_touched(delta, position.0.as_str()) {
                if let Some(abs) = index.absolute(position) {
                    if let (Some(old_row), Some(new_row)) = (
                        ExpandedRow::new(placed.row),
                        ExpandedRow::new(abs),
                    ) {
                        match placed.entry.relocate(old_row, new_row) {
                            Ok(entry) => {
                                proof {
                                    lemma_with_content(cache.rows@, abs, entry);
                                    lemma_fresh_with_row(cache.rows@, abs, entry);
                                }
                                let _previous = cache.insert(new_row, entry);
                            },
                            Err(error) => {
                                proof {
                                    lemma_fault_index(faults, i as int);
                                }
                                return Err(error);
                            },
                        }
                    }
                }
            }
        }
        i = i + 1;
    }
    proof {
        lemma_fault_index(faults, i as int);
    }
    Ok(())
}

/// For each row of an arriving block, why it cannot be retained at its coordinate.
pub open spec fn block_faults(after: LiveIndex, block: LiveBlock) -> Seq<Option<Seq<char>>> {
    Seq::new(
        block.rows@.len(),
        |slot: int|
            match after.absolute_of(block.meta.key@, slot) {
                Some(new) => CacheEntry::fault(
                    moved_input(RowInput { source: block.rows@[slot] }, slot, new),
                ),
                None => None,
            },
    )
}

/// The retired content once the first `n` rows of an arriving block are in place.
pub open spec fn block_retired(
    after: LiveIndex,
    block: LiveBlock,
    retired: Seq<Retired>,
    n: int,
) -> Seq<Retired>
    decreases n,
{
    if n <= 0 {
        retired
    } else {
        let done = block_retired(after, block, retired, n - 1);
        if after.absolute_of(block.meta.key@, n - 1) is Some {
            cache::without_retired(done, block.rows@[n - 1].continuity_key@)
        } else {
            done
        }
    }
}

/// Put an arriving block's rows at their coordinates.
fn insert_arrivals(
    cache: &mut PageCache,
    block: &LiveBlock,
    entries: Vec<CacheEntry>,
    index: &LiveIndex,
) -> (inserted: Result<(), ServiceError>)
    requires
        old(cache).wf(),
        fresh(old(cache).rows@),
        index.wf(),
        entries@.len() == block.rows@.len(),
        forall|k: int|
            0 <= k < entries@.len() ==> (#[trigger] entries@[k]).retains(
                RowInput { source: block.rows@[k] },
            ),
        old(cache).bytes + entries@.len() * MAX_CACHED_BYTES <= u64::MAX,
    ensures
        final(cache).wf(),
        fresh(final(cache).rows@),
        final(cache).byte_limited == old(cache).byte_limited,
        final(cache).bytes <= old(cache).bytes + entries@.len() * MAX_CACHED_BYTES,
        final(cache).retired@.len() <= old(cache).retired@.len(),
        ({
            let faults = block_faults(*index, *block);
            let n = fault_index(faults);
            &&& 0 <= n <= faults.len()
            &&& contents(final(cache).rows@) == with_block(
                *index,
                contents(old(cache).rows@),
                *block,
                n,
            )
            &&& final(cache).retired@ == block_retired(*index, *block, old(cache).retired@, n)
            &&& match inserted {
                Ok(_) => n == faults.len(),
                Err(error) => n < faults.len() && faults[n] is Some && error.is_invalid(
                    faults[n]->0,
                ),
            }
        }),
{
    let ghost all = entries@;
    let ghost faults = block_faults(*index, *block);
    let ghost base = cache.bytes as int;
    let mut slot: usize = 0;
    for entry in it: entries
        invariant
            it.seq() == all,
            slot == it.index(),
            all.len() == block.rows.len(),
            faults == block_faults(*index, *block),
            cache.wf(),
            fresh(cache.rows@),
            index.wf(),
            cache.byte_limited == old(cache).byte_limited,
            base == old(cache).bytes,
            cache.bytes <= base + slot * MAX_CACHED_BYTES,
            cache.retired@.len() <= old(cache).retired@.len(),
            base + all.len() * MAX_CACHED_BYTES <= u64::MAX,
            forall|k: int|
                0 <= k < all.len() ==> (#[trigger] all[k]).retains(
                    RowInput { source: block.rows@[k] },
                ),
            forall|k: int| 0 <= k < slot ==> #[trigger] faults[k] is None,
            contents(cache.rows@) == with_block(
                *index,
                contents(old(cache).rows@),
                *block,
                slot as int,
            ),
            cache.retired@ == block_retired(*index, *block, old(cache).retired@, slot as int),
    {
        assert(entry == all[slot as int]);
        let position = (block.meta.key.clone(), slot as u64);
        if let Some(abs) = index.absolute(&position) {
            proof {
                live::lemma_slot_in_range(*index, block.meta.key@, slot as int);
            }
            if let (Some(local), Some(new_row)) = (
                ExpandedRow::new(slot as i64),
                ExpandedRow::new(abs),
            ) {
                match entry.relocate(local, new_row) {
                    Ok(entry) => {
                        proof {
                            lemma_with_content(cache.rows@, abs, entry);
                            lemma_fresh_with_row(cache.rows@, abs, entry);
                        }
                        let _previous = cache.insert(new_row, entry);
                    },
                    Err(error) => {
                        proof {
                            lemma_fault_index(faults, slot as int);
                        }
                        return Err(error);
                    },
                }
            }
        }
        slot = slot + 1;
    }
    proof {
        lemma_fault_index(faults, slot as int);
    }
    Ok(())
}

/// For each arriving block, why one of its rows cannot be retained in its place.
pub open spec fn arrival_faults(after: LiveIndex, upserts: Seq<LiveBlock>) -> Seq<
    Option<Seq<char>>,
> {
    Seq::new(upserts.len(), |j: int| first_fault(block_faults(after, upserts[j])))
}

/// The retired content once the first `n` arriving blocks are in place.
pub open spec fn arrivals_retired(
    after: LiveIndex,
    upserts: Seq<LiveBlock>,
    retired: Seq<Retired>,
    n: int,
) -> Seq<Retired>
    decreases n,
{
    if n <= 0 {
        retired
    } else {
        block_retired(
            after,
            upserts[n - 1],
            arrivals_retired(after, upserts, retired, n - 1),
            upserts[n - 1].rows@.len() as int,
        )
    }
}

/// For each row, why it cannot be retained with the geometry that the graph gives it.
pub open spec fn geometry_faults(
    after: LiveIndex,
    facts: GraphFacts,
    rows: Seq<(int, RowInput)>,
) -> Seq<Option<Seq<char>>> {
    Seq::new(
        rows.len(),
        |i: int|
            if after.position_of(rows[i].0) is Some {
                CacheEntry::fault(decorated_input(after, facts, rows[i].0, rows[i].1))
            } else {
                None
            },
    )
}

/// The retired content once the first `n` rows have their geometry.
pub open spec fn decorated_retired(
    after: LiveIndex,
    rows: Seq<(int, RowInput)>,
    retired: Seq<Retired>,
    n: int,
) -> Seq<Retired>
    decreases n,
{
    if n <= 0 {
        retired
    } else {
        let done = decorated_retired(after, rows, retired, n - 1);
        if after.position_of(rows[n - 1].0) is Some {
            cache::without_retired(done, rows[n - 1].1.source.continuity_key@)
        } else {
            done
        }
    }
}

/// Recompute only retained row geometry; unchanged content and disclosure stay
/// resident.
fn decorate_entries(cache: &mut PageCache, index: &LiveIndex, facts: &GraphFacts) -> (
decorated: Result<(), ServiceError>)
    requires
        old(cache).wf(),
        fresh(old(cache).rows@),
        index.wf(),
        old(cache).bytes + old(cache).rows@.len() * MAX_CACHED_BYTES <= u64::MAX,
    ensures
        final(cache).wf(),
        fresh(final(cache).rows@),
        final(cache).byte_limited == old(cache).byte_limited,
        final(cache).retired@.len() <= old(cache).retired@.len(),
        ({
            let known = contents(old(cache).rows@);
            let faults = geometry_faults(*index, *facts, known);
            let n = fault_index(faults);
            &&& 0 <= n <= known.len()
            &&& contents(final(cache).rows@) == decorated_rows(*index, *facts, known, n)
            &&& final(cache).retired@ == decorated_retired(*index, known, old(cache).retired@, n)
            &&& match decorated {
                Ok(_) => n == known.len(),
                Err(error) => n < known.len() && faults[n] is Some && error.is_invalid(
                    faults[n]->0,
                ),
            }
        }),
{
    let ghost all = cache.rows@;
    let ghost known = contents(all);
    let ghost faults = geometry_faults(*index, *facts, known);
    let ghost retired = cache.retired@;
    let rows = cache.take_entries();
    let ghost base = cache.bytes as int;
    proof {
        cache::lemma_all_nonnegative(all, cache.retired@);
        assert(contents(cache.rows@) =~= decorated_rows(*index, *facts, known, 0));
        assert(cache::row_charges(cache.rows@) =~= Seq::empty());
    }
    let ghost mut i: int = 0;
    for placed in it: rows
        invariant
            it.seq() == all,
            all == old(cache).rows@,
            fresh(all),
            known == contents(all),
            faults == geometry_faults(*index, *facts, known),
            retired == old(cache).retired@,
            cache::rows_ok(all),
            i == it.index(),
            cache.wf(),
            fresh(cache.rows@),
            index.wf(),
            cache.byte_limited == old(cache).byte_limited,
            cache.bytes <= base + i * MAX_CACHED_BYTES,
            cache.retired@.len() <= old(cache).retired@.len(),
            base + all.len() * MAX_CACHED_BYTES <= u64::MAX,
            forall|k: int| 0 <= k < i ==> #[trigger] faults[k] is None,
            contents(cache.rows@) == decorated_rows(*index, *facts, known, i),
            cache.retired@ == decorated_retired(*index, known, retired, i),
    {
        assert(placed == all[i]);
        assert(known[i] == (placed.row as int, placed.entry.row));
        if let Some(row) = ExpandedRow::new(placed.row) {
            if let Some((key, slot)) = index.position(placed.row) {
                let mut g: usize = 0;
                while g < facts.geometry.len() && !(same_text(
                    facts.geometry[g].key.as_str(),
                    key.as_str(),
                ) && facts.geometry[g].slot == slot)
                    invariant
                        g <= facts.geometry.len(),
                        geometry_at(*facts, key@, slot as int, 0) == geometry_at(
                            *facts,
                            key@,
                            slot as int,
                            g as int,
                        ),
                    decreases facts.geometry.len() - g,
                {
                    g = g + 1;
                }
                let entry = if g < facts.geometry.len() {
                    let encoded: Result<u64, String> = match &facts.geometry[g].encoded {
                        Ok(bytes) => Ok(*bytes),
                        Err(reason) => Err(reason.clone()),
                    };
                    match placed.entry.decorate(facts.geometry[g].max_lane, encoded) {
                        Ok(entry) => entry,
                        Err(error) => {
                            proof {
                                lemma_fault_index(faults, i);
                            }
                            return Err(error);
                        },
                    }
                } else {
                    placed.entry
                };
                proof {
                    assert(faults[i] is None);
                    lemma_with_content(cache.rows@, placed.row, entry);
                    lemma_fresh_with_row(cache.rows@, placed.row, entry);
                }
                let _previous = cache.insert(row, entry);
            }
        }
        proof {
            i = i + 1;
        }
    }
    proof {
        lemma_fault_index(faults, i);
    }
    Ok(())
}

/// Why a row that an edit keeps or brings cannot be retained.
pub open spec fn row_fault(
    before: LiveIndex,
    after: LiveIndex,
    delta: LiveDelta,
    facts: GraphFacts,
    rows: Seq<(int, RowInput)>,
) -> Option<Seq<char>> {
    let moved = moved_rows(before, after, delta, rows, rows.len() as int);
    let arrived = with_arrivals(after, moved, delta.upserts@, delta.upserts@.len() as int);
    if first_fault(move_faults(before, after, delta, rows)) is Some {
        first_fault(move_faults(before, after, delta, rows))
    } else if first_fault(arrival_faults(after, delta.upserts@)) is Some {
        first_fault(arrival_faults(after, delta.upserts@))
    } else {
        first_fault(geometry_faults(after, facts, arrived))
    }
}

/// What an edit leaves of the retained rows: those whose blocks it left alone at
/// their new coordinates, those that it brings, and all with the geometry of the
/// graph, up to the first that cannot be retained.
pub open spec fn rows_after(
    before: LiveIndex,
    after: LiveIndex,
    delta: LiveDelta,
    facts: GraphFacts,
    rows: Seq<(int, RowInput)>,
) -> Seq<(int, RowInput)> {
    let upserts = delta.upserts@;
    let m = fault_index(move_faults(before, after, delta, rows));
    let moved = moved_rows(before, after, delta, rows, m);
    let a = fault_index(arrival_faults(after, upserts));
    let arrived = with_arrivals(after, moved, upserts, a);
    if m < rows.len() {
        moved
    } else if a < upserts.len() {
        with_block(after, arrived, upserts[a], fault_index(block_faults(after, upserts[a])))
    } else {
        decorated_rows(
            after,
            facts,
            arrived,
            fault_index(geometry_faults(after, facts, arrived)),
        )
    }
}

/// What an edit leaves of the retired content: none of a row that it put in place.
pub open spec fn retired_after(
    before: LiveIndex,
    after: LiveIndex,
    delta: LiveDelta,
    facts: GraphFacts,
    rows: Seq<(int, RowInput)>,
    retired: Seq<Retired>,
) -> Seq<Retired> {
    let upserts = delta.upserts@;
    let m = fault_index(move_faults(before, after, delta, rows));
    let moved = moved_rows(before, after, delta, rows, m);
    let left = moved_retired(before, after, delta, rows, retired, m);
    let a = fault_index(arrival_faults(after, upserts));
    let arrived = with_arrivals(after, moved, upserts, a);
    let remaining = arrivals_retired(after, upserts, left, a);
    if m < rows.len() {
        left
    } else if a < upserts.len() {
        block_retired(
            after,
            upserts[a],
            remaining,
            fault_index(block_faults(after, upserts[a])),
        )
    } else {
        decorated_retired(
            after,
            arrived,
            remaining,
            fault_index(geometry_faults(after, facts, arrived)),
        )
    }
}

/// Whether a cache is what an edit leaves of another.
pub open spec fn cache_edited(
    before: LiveIndex,
    after: LiveIndex,
    delta: LiveDelta,
    facts: GraphFacts,
    held: PageCache,
    holds: PageCache,
) -> bool {
    let rows = contents(held.rows@);
    &&& contents(holds.rows@) == rows_after(before, after, delta, facts, rows)
    &&& fresh(holds.rows@)
    &&& holds.retired@ == retired_after(before, after, delta, facts, rows, held.retired@)
    &&& holds.byte_limited == held.byte_limited
}

/// The places of the rows that the viewport showed, in order.
pub open spec fn viewed(state: HistoryAppState, index: LiveIndex, from: int, upto: int) -> Seq<
    (Seq<char>, int),
>
    decreases upto - from,
{
    if upto <= from {
        Seq::empty()
    } else {
        let before = viewed(state, index, from, upto - 1);
        match state.row_at(upto - 1) {
            Some(row) => match index.position_of(row) {
                Some(place) => before.push(place),
                None => before,
            },
            None => before,
        }
    }
}

/// Whether a block holds one of the places.
pub open spec fn seen(places: Seq<(Seq<char>, int)>, block: live::Block) -> bool {
    exists|k: int|
        0 <= k < places.len() && (#[trigger] places[k]).0 == block.meta.key@ && 0 <= places[k].1
            < block.meta.row_count
}

/// The blocks with those that hold one of the places exposed.
pub open spec fn exposed_blocks(blocks: Seq<live::Block>, places: Seq<(Seq<char>, int)>) -> Seq<
    live::Block,
> {
    Seq::new(
        blocks.len(),
        |i: int|
            if seen(places, blocks[i]) {
                tasks::revealed(blocks[i])
            } else {
                blocks[i]
            },
    )
}

pub open spec fn places_of(positions: Seq<Position>) -> Seq<(Seq<char>, int)> {
    Seq::new(positions.len(), |i: int| (positions[i].0@, positions[i].1 as int))
}

proof fn lemma_seen_push(
    places: Seq<(Seq<char>, int)>,
    place: (Seq<char>, int),
    block: live::Block,
)
    ensures
        seen(places.push(place), block) <==> seen(places, block) || (place.0 == block.meta.key@ && 0
            <= place.1 < block.meta.row_count),
{
    let after = places.push(place);
    if seen(places, block) {
        let k = choose|k: int|
            0 <= k < places.len() && (#[trigger] places[k]).0 == block.meta.key@ && 0 <= places[k].1
                < block.meta.row_count;
        assert(after[k] == places[k]);
    }
    if place.0 == block.meta.key@ && 0 <= place.1 < block.meta.row_count {
        assert(after[places.len() as int] == place);
    }
    if seen(after, block) {
        let k = choose|k: int|
            0 <= k < after.len() && (#[trigger] after[k]).0 == block.meta.key@ && 0 <= after[k].1
                < block.meta.row_count;
        if k < places.len() {
            assert(places[k] == after[k]);
        }
    }
}

/// A former endpoint can become foldable after an append. Keep the reader's
/// visible rows exposed until an explicit disclosure change.
fn expose_viewed(index: &mut LiveIndex, positions: &Vec<Position>)
    requires
        old(index).wf(),
    ensures
        final(index).wf(),
        final(index).blocks@ == exposed_blocks(old(index).blocks@, places_of(positions@)),
        final(index).groups == old(index).groups,
        final(index).epoch == old(index).epoch,
        final(index).revision == old(index).revision,
        final(index).foldable == old(index).foldable,
{
    let ghost blocks = index.blocks@;
    let ghost first = *index;
    let mut k: usize = 0;
    assert(index.blocks@ =~= exposed_blocks(blocks, places_of(positions@.take(0))));
    while k < positions.len()
        invariant
            k <= positions.len(),
            index.wf(),
            first == *old(index),
            blocks == first.blocks@,
            first.wf(),
            index.blocks@ == exposed_blocks(blocks, places_of(positions@.take(k as int))),
            index.groups == old(index).groups,
            index.epoch == old(index).epoch,
            index.revision == old(index).revision,
            index.foldable == old(index).foldable,
        decreases positions.len() - k,
    {
        let ghost before = index.blocks@;
        let ghost place = (positions@[k as int].0@, positions@[k as int].1 as int);
        let ghost seen_before = places_of(positions@.take(k as int));
        proof {
            assert(places_of(positions@.take(k + 1)) =~= seen_before.push(place));
            live::lemma_place(before, place.0, 0);
        }
        match index.absolute(&positions[k]) {
            Some(abs) => {
                let ghost i = live::place(before, place.0, 0);
                proof {
                    live::lemma_slot_in_range(*index, place.0, place.1);
                    assert(live::holds_row(before, i, abs as int));
                }
                if let Some(row) = ExpandedRow::new(abs) {
                    index.reveal_row(row);
                }
                proof {
                    assert forall|j: int| 0 <= j < before.len() implies live::holds_row(
                        before,
                        j,
                        abs as int,
                    ) == (before[j].meta.key@ == place.0) by {
                        if live::holds_row(before, j, abs as int) {
                            live::lemma_holds_unique(before, i, j, abs as int);
                        }
                        if before[j].meta.key@ == place.0 && j != i {
                            assert(before[i].meta.key@ == before[j].meta.key@);
                        }
                    }
                    assert forall|j: int| 0 <= j < blocks.len() implies #[trigger] index.blocks@[j]
                        == exposed_blocks(blocks, seen_before.push(place))[j] by {
                        lemma_seen_push(seen_before, place, blocks[j]);
                        assert(before[j].meta == blocks[j].meta);
                    }
                }
            },
            None => {
                proof {
                    assert forall|j: int| 0 <= j < blocks.len() implies #[trigger] index.blocks@[j]
                        == exposed_blocks(blocks, seen_before.push(place))[j] by {
                        lemma_seen_push(seen_before, place, blocks[j]);
                        assert(before[j].meta == blocks[j].meta);
                        if place.0 == blocks[j].meta.key@ && 0 <= place.1
                            < blocks[j].meta.row_count {
                            let i = live::place(before, place.0, 0);
                            assert(before[j].meta.key@ == place.0);
                            if i < j {
                                assert(before[i].meta.key@ == before[j].meta.key@);
                            }
                        }
                    }
                }
            },
        }
        proof {
            assert(index.blocks@ =~= exposed_blocks(blocks, seen_before.push(place)));
        }
        k = k + 1;
    }
    assert(positions@.take(k as int) =~= positions@);
}

/// The lasting identity of the retained row at a coordinate.
pub open spec fn continuity_at(state: HistoryAppState, row: Option<int>) -> Option<Seq<char>> {
    match row {
        Some(row) => match state.cache.at(row) {
            Some(entry) => Some(entry.row.source.continuity_key@),
            None => None,
        },
        None => None,
    }
}

/// The node that a selection names after the first `n` rows of a block.
pub open spec fn node_in_block(
    rows: Seq<HistoryRow>,
    continuity: Option<Seq<char>>,
    node: Option<Seq<char>>,
    n: int,
) -> Option<Seq<char>>
    decreases n,
{
    if n <= 0 {
        node
    } else if Some(rows[n - 1].continuity_key@) == continuity {
        Some(rows[n - 1].node_key@)
    } else {
        node_in_block(rows, continuity, node, n - 1)
    }
}

/// The node that a selection names after the first `n` arriving blocks.
pub open spec fn node_after(
    upserts: Seq<LiveBlock>,
    continuity: Option<Seq<char>>,
    node: Option<Seq<char>>,
    n: int,
) -> Option<Seq<char>>
    decreases n,
{
    if n <= 0 {
        node
    } else {
        node_in_block(
            upserts[n - 1].rows@,
            continuity,
            node_after(upserts, continuity, node, n - 1),
            upserts[n - 1].rows@.len() as int,
        )
    }
}

pub open spec fn owned_text(text: Option<String>) -> Option<Seq<char>> {
    match text {
        Some(text) => Some(text@),
        None => None,
    }
}

/// Let the selection follow its row through the revision of its block.
fn follow_selection(selection: &mut Selection, delta: &LiveDelta)
    ensures
        owned_text(final(selection).continuity_key) == owned_text(old(selection).continuity_key),
        owned_text(final(selection).node_key) == node_after(
            delta.upserts@,
            owned_text(old(selection).continuity_key),
            owned_text(old(selection).node_key),
            delta.upserts@.len() as int,
        ),
        final(selection).roving == old(selection).roving,
{
    let ghost continuity = owned_text(selection.continuity_key);
    let ghost node = owned_text(selection.node_key);
    let mut j: usize = 0;
    while j < delta.upserts.len()
        invariant
            j <= delta.upserts.len(),
            continuity == owned_text(old(selection).continuity_key),
            node == owned_text(old(selection).node_key),
            owned_text(selection.continuity_key) == continuity,
            owned_text(selection.node_key) == node_after(
                delta.upserts@,
                continuity,
                node,
                j as int,
            ),
            selection.roving == old(selection).roving,
        decreases delta.upserts.len() - j,
    {
        let rows = &delta.upserts[j].rows;
        let ghost start = owned_text(selection.node_key);
        let mut m: usize = 0;
        while m < rows.len()
            invariant
                m <= rows.len(),
                owned_text(selection.continuity_key) == continuity,
                owned_text(selection.node_key) == node_in_block(
                    rows@,
                    continuity,
                    start,
                    m as int,
                ),
                selection.roving == old(selection).roving,
            decreases rows.len() - m,
        {
            let same = match &selection.continuity_key {
                Some(key) => same_text(key.as_str(), rows[m].continuity_key.as_str()),
                None => false,
            };
            if same {
                selection.select_with_continuity(
                    rows[m].node_key.as_str(),
                    rows[m].continuity_key.as_str(),
                );
            }
            m = m + 1;
        }
        j = j + 1;
    }
}

/// The number of rows that the first `n` arriving blocks bring.
pub open spec fn arriving(upserts: Seq<LiveBlock>, n: int) -> int
    decreases n,
{
    if n <= 0 {
        0
    } else {
        arriving(upserts, n - 1) + upserts[n - 1].rows@.len()
    }
}

proof fn lemma_arriving(upserts: Seq<LiveBlock>, i: int, n: int)
    requires
        0 <= i <= n,
    ensures
        0 <= arriving(upserts, i) <= arriving(upserts, n),
    decreases n,
{
    if i < n {
        lemma_arriving(upserts, i, n - 1);
    } else if i > 0 {
        lemma_arriving(upserts, i - 1, i - 1);
    }
}

/// The charges of everything that an edit may have to retain fit a counter.
pub open spec fn has_room(cache: PageCache, delta: LiveDelta) -> bool {
    (2 * (cache.rows@.len() + arriving(delta.upserts@, delta.upserts@.len() as int))
        + cache.retired@.len()) * MAX_CACHED_BYTES <= u64::MAX
}

/// For each arriving block, why one of its rows cannot be retained.
pub open spec fn input_faults(upserts: Seq<LiveBlock>) -> Seq<Option<Seq<char>>> {
    Seq::new(upserts.len(), |j: int| first_fault(source_faults(upserts[j].rows@)))
}

/// For each row, why it cannot be retained.
pub open spec fn source_faults(rows: Seq<HistoryRow>) -> Seq<Option<Seq<char>>> {
    Seq::new(rows.len(), |k: int| CacheEntry::fault(RowInput { source: rows[k] }))
}

/// Check incoming row budgets before the topology changes.
fn prepare_arrivals(delta: &LiveDelta) -> (prepared: Result<Vec<Vec<CacheEntry>>, ServiceError>)
    ensures
        match prepared {
            Ok(prepared) => {
                &&& first_fault(input_faults(delta.upserts@)) is None
                &&& prepared@.len() == delta.upserts@.len()
                &&& forall|j: int|
                    0 <= j < prepared@.len() ==> cache::prepared(
                        delta.upserts@[j].rows@,
                        Ok((#[trigger] prepared@[j])@),
                    )
            },
            Err(error) => first_fault(input_faults(delta.upserts@)) matches Some(fault)
                && error.is_invalid(fault),
        },
{
    let ghost faults = input_faults(delta.upserts@);
    let mut prepared: Vec<Vec<CacheEntry>> = Vec::new();
    let mut j: usize = 0;
    while j < delta.upserts.len()
        invariant
            j <= delta.upserts.len(),
            faults == input_faults(delta.upserts@),
            prepared.len() == j,
            forall|i: int| 0 <= i < j ==> #[trigger] faults[i] is None,
            forall|i: int|
                0 <= i < j ==> cache::prepared(
                    delta.upserts@[i].rows@,
                    Ok((#[trigger] prepared@[i])@),
                ),
        decreases delta.upserts.len() - j,
    {
        let rows = &delta.upserts[j].rows;
        let ghost own = source_faults(rows@);
        let mut copy: Vec<HistoryRow> = Vec::new();
        let mut m: usize = 0;
        while m < rows.len()
            invariant
                m <= rows.len(),
                copy@ == rows@.take(m as int),
            decreases rows.len() - m,
        {
            copy.push(rows[m].clone());
            m = m + 1;
        }
        assert(copy@ =~= rows@);
        match PageCache::prepare(copy) {
            Ok(entries) => {
                proof {
                    assert forall|k: int| 0 <= k < own.len() implies #[trigger] own[k] is None by {
                        assert(entries@[k].retains(RowInput { source: rows@[k] }));
                    }
                    lemma_fault_index(own, own.len() as int);
                }
                prepared.push(entries);
            },
            Err(error) => {
                proof {
                    let k = choose|k: int|
                        0 <= k < rows@.len() && CacheEntry::fault(
                            RowInput { source: #[trigger] rows@[k] },
                        ) is Some && error.is_invalid(
                            CacheEntry::fault(RowInput { source: rows@[k] })->0,
                        ) && (forall|q: int|
                            0 <= q < k ==> CacheEntry::fault(
                                RowInput { source: #[trigger] rows@[q] },
                            ) is None);
                    assert forall|q: int| 0 <= q < k implies #[trigger] own[q] is None by {
                        assert(CacheEntry::fault(RowInput { source: rows@[q] }) is None);
                    }
                    lemma_fault_index(own, k);
                    lemma_fault_index(faults, j as int);
                }
                return Err(error);
            },
        }
        j = j + 1;
    }
    proof {
        lemma_fault_index(faults, j as int);
    }
    Ok(prepared)
}

/// Whether a selection is what an edit leaves of another before its rows arrive: an
/// identity that the edit retires is dropped.
pub open spec fn selection_kept(before: Selection, delta: LiveDelta, after: Selection) -> bool {
    let continuity = owned_text(before.continuity_key);
    &&& after.roving == before.roving
    &&& if continuity is Some && retires(continuity->0, delta) {
        after.node_key is None && after.continuity_key is None
    } else {
        after == before
    }
}

/// Whether a topology is what an edit makes of another, with the rows that the
/// viewport showed kept exposed.
pub open spec fn topology_edited(
    before: HistoryAppState,
    delta: LiveDelta,
    facts: GraphFacts,
    viewport: Viewport,
    now: LiveIndex,
) -> bool {
    let index = before.topology->Live_0;
    let top = HistoryAppState::top_of(viewport);
    exists|edited: LiveIndex| #[trigger]
        edits::edited(index, delta, before.expanded_keys@, facts, edited) && now.blocks@
            == exposed_blocks(
            edited.blocks@,
            viewed(before, index, top, before.bottom_of(viewport) + 1),
        ) && now.groups == edited.groups && now.revision == edited.revision && now.epoch
            == edited.epoch && now.foldable == edited.foldable
}

/// Why an edit is refused, and what it has changed by then.
pub open spec fn delta_refused(
    before: HistoryAppState,
    delta: LiveDelta,
    facts: GraphFacts,
    viewport: Viewport,
    after: HistoryAppState,
    error: ServiceError,
) -> bool {
    if !(before.topology is Live) {
        after == before && error.is_invalid("Live topology is missing."@)
    } else {
        let index = before.topology->Live_0;
        let now = after.topology->Live_0;
        let rows = contents(before.cache.rows@);
        let input_fault = first_fault(input_faults(delta.upserts@));
        if input_fault is Some || !edits::accepts(index, delta, before.expanded_keys@) {
            &&& after == (HistoryAppState { selection: after.selection, ..before })
            &&& selection_kept(before.selection, delta, after.selection)
            &&& if input_fault is Some {
                error.is_invalid(input_fault->0)
            } else {
                edits::refuses(index, delta, before.expanded_keys@, error)
            }
        } else {
            &&& after.topology is Live
            &&& topology_edited(before, delta, facts, viewport, now)
            &&& match row_fault(index, now, delta, facts, rows) {
                Some(fault) => {
                    &&& error.is_invalid(fault)
                    &&& after == (HistoryAppState {
                        topology: after.topology,
                        cache: after.cache,
                        selection: after.selection,
                        ..before
                    })
                    &&& cache_edited(index, now, delta, facts, before.cache, after.cache)
                    &&& selection_kept(before.selection, delta, after.selection)
                },
                None => {
                    &&& delta.max_lane > u32::MAX
                    &&& error.is_invalid("Live lane overflow."@)
                    &&& view_edited(before, delta, facts, after)
                    &&& after.max_lane == before.max_lane
                },
            }
        }
    }
}

/// The visible row that a viewport's top moves to: the anchor's, or the same
/// position within what is left.
pub open spec fn top_after(
    state: HistoryAppState,
    anchor: Option<(Seq<char>, int)>,
    top: int,
) -> int {
    let index = state.topology->Live_0;
    let row = match anchor {
        Some((key, slot)) => index.absolute_of(key, slot),
        None => None,
    };
    let visible = match row {
        Some(row) => match state.visible_of(row) {
            Some(visible) => visible,
            None => top,
        },
        None => top,
    };
    let last = state.visible_count() - 1;
    let within = if visible < last {
        visible
    } else {
        last
    };
    if within < 0 {
        0
    } else {
        within
    }
}

/// The place of a row, if it has one.
pub open spec fn row_place(index: LiveIndex, row: Option<int>) -> Option<(Seq<char>, int)> {
    match row {
        Some(row) => index.position_of(row),
        None => None,
    }
}

/// What applying an edit makes of everything in the state but its topology and its
/// highest lane.
pub open spec fn view_edited(
    before: HistoryAppState,
    delta: LiveDelta,
    facts: GraphFacts,
    after: HistoryAppState,
) -> bool {
    let index = before.topology->Live_0;
    let now = after.topology->Live_0;
    let focus_row = match before.selection.roving {
        Some(row) => Some(row@),
        None => None,
    };
    let focus = remapped(row_place(index, focus_row), continuity_at(before, focus_row), delta);
    let continuity = owned_text(before.selection.continuity_key);
    let cleared = continuity is Some && retires(continuity->0, delta);
    // The retained rows.
    &&& cache_edited(index, now, delta, facts, before.cache, after.cache)
    // The selection and the keyboard anchor.
    &&& match focus {
        Some((key, slot)) => match now.absolute_of(key, slot) {
            Some(row) => after.selection.roving matches Some(roving) && roving@ == row,
            None => after.selection.roving is None,
        },
        None => after.selection.roving is None,
    }
    &&& owned_text(after.selection.continuity_key) == (if cleared {
        None
    } else {
        continuity
    })
    &&& owned_text(after.selection.node_key) == node_after(
        delta.upserts@,
        if cleared {
            None
        } else {
            continuity
        },
        if cleared {
            None
        } else {
            owned_text(before.selection.node_key)
        },
        delta.upserts@.len() as int,
    )
    // The snapshot.
    &&& after.snapshot_id == delta.snapshot_id
    &&& after.view_gen == (if before.view_gen == u64::MAX {
        u64::MAX as int
    } else {
        before.view_gen + 1
    })
    &&& after.requests@ == Seq::<u64>::empty()
    &&& after.total == Some(delta.total as i64)
    // What an edit leaves alone.
    &&& after.remote == before.remote
    &&& after.render_top == before.render_top
    &&& after.render_bottom == before.render_bottom
    &&& after.expanded_keys == before.expanded_keys
    &&& after.find == before.find
}

/// What applying an edit makes of the state, and where the viewport goes.
pub open spec fn delta_applied(
    before: HistoryAppState,
    delta: LiveDelta,
    facts: GraphFacts,
    viewport: Viewport,
    after: HistoryAppState,
    moved: Viewport,
) -> bool {
    &&& before.topology is Live
    &&& after.topology is Live
    &&& {
        let index = before.topology->Live_0;
        let now = after.topology->Live_0;
        let top = HistoryAppState::top_of(viewport);
        let anchor_row = before.row_at(top);
        let anchor = remapped(
            row_place(index, anchor_row),
            continuity_at(before, anchor_row),
            delta,
        );
        let visible = top_after(after, anchor, top);
        // Nothing stands against the edit.
        &&& first_fault(input_faults(delta.upserts@)) is None
        &&& edits::accepts(index, delta, before.expanded_keys@)
        &&& row_fault(index, now, delta, facts, contents(before.cache.rows@)) is None
        &&& topology_edited(before, delta, facts, viewport, now)
        &&& view_edited(before, delta, facts, after)
        &&& after.max_lane == delta.max_lane
        // The viewport.
        &&& moved.client_height@ == viewport.client_height@
        &&& moved.scroll_top@ == (if viewport.scroll_top@ == 0 {
            0
        } else {
            coordinates::clamp_pixels(
                visible * ROW_H + viewport.scroll_top@ % (ROW_H as int),
            )
        })
    }
}

proof fn lemma_with_content_len(rows: Seq<(int, RowInput)>, row: int, input: RowInput)
    ensures
        with_content(rows, row, input).len() <= rows.len() + 1,
{
    lemma_content_slot_range(rows, row);
}

proof fn lemma_content_slot_range(rows: Seq<(int, RowInput)>, row: int)
    ensures
        0 <= content_slot(rows, row) <= rows.len(),
    decreases rows.len(),
{
    if rows.len() > 0 {
        lemma_content_slot_range(rows.drop_last(), row);
    }
}

proof fn lemma_moved_len(
    before: LiveIndex,
    after: LiveIndex,
    delta: LiveDelta,
    rows: Seq<(int, RowInput)>,
    n: int,
)
    requires
        0 <= n,
    ensures
        moved_rows(before, after, delta, rows, n).len() <= n,
    decreases n,
{
    if n > 0 {
        lemma_moved_len(before, after, delta, rows, n - 1);
        let (old, input) = rows[n - 1];
        if let Some(new) = destination(before, after, delta, old) {
            lemma_with_content_len(
                moved_rows(before, after, delta, rows, n - 1),
                new,
                moved_input(input, old, new),
            );
        }
    }
}

proof fn lemma_block_len(
    after: LiveIndex,
    rows: Seq<(int, RowInput)>,
    block: LiveBlock,
    n: int,
)
    requires
        0 <= n,
    ensures
        with_block(after, rows, block, n).len() <= rows.len() + n,
    decreases n,
{
    if n > 0 {
        lemma_block_len(after, rows, block, n - 1);
        if let Some(new) = after.absolute_of(block.meta.key@, n - 1) {
            lemma_with_content_len(
                with_block(after, rows, block, n - 1),
                new,
                moved_input(RowInput { source: block.rows@[n - 1] }, n - 1, new),
            );
        }
    }
}

proof fn lemma_arrivals_len(
    after: LiveIndex,
    rows: Seq<(int, RowInput)>,
    upserts: Seq<LiveBlock>,
    n: int,
)
    requires
        0 <= n,
    ensures
        with_arrivals(after, rows, upserts, n).len() <= rows.len() + arriving(upserts, n),
    decreases n,
{
    if n > 0 {
        lemma_arrivals_len(after, rows, upserts, n - 1);
        lemma_block_len(
            after,
            with_arrivals(after, rows, upserts, n - 1),
            upserts[n - 1],
            upserts[n - 1].rows@.len() as int,
        );
    }
}

proof fn lemma_retired_charge(retired: Seq<cache::Retired>)
    requires
        cache::retired_ok(retired),
    ensures
        cache::sum(cache::retired_charges(retired)) <= retired.len() * MAX_CACHED_BYTES,
    decreases retired.len(),
{
    if retired.len() > 0 {
        cache::lemma_shorter_retired(retired);
        lemma_retired_charge(retired.drop_last());
        assert(cache::retired_charges(retired).drop_last() =~= cache::retired_charges(
            retired.drop_last(),
        ));
        assert(retired[retired.len() - 1].entry.bytes <= MAX_CACHED_BYTES);
    }
}

impl HistoryAppState {
    /// The places of the rows that the viewport shows.
    fn viewed_positions(&self, index: &LiveIndex, viewport: &Viewport) -> (positions: Vec<Position>)
        requires
            self.wf(),
            index.wf(),
        ensures
            places_of(positions@) == viewed(
                *self,
                *index,
                HistoryAppState::top_of(*viewport),
                self.bottom_of(*viewport) + 1,
            ),
    {
        let mut positions: Vec<Position> = Vec::new();
        let top: i64 = HistoryAppState::viewport_visible_top(viewport);
        let bottom: i64 = self.viewport_visible_bottom(viewport);
        let mut visible: i64 = top;
        assert(places_of(positions@) =~= viewed(*self, *index, top as int, top as int));
        if bottom < top {
            return positions;
        }
        while visible <= bottom
            invariant
                self.wf(),
                index.wf(),
                0 <= top <= visible <= bottom + 1,
                bottom <= 2 * coordinates::MAX_RENDER_ROWS,
                places_of(positions@) == viewed(*self, *index, top as int, visible as int),
            decreases bottom + 1 - visible,
        {
            if let Some(abs) = self.abs_index_for_visible(visible) {
                if let Some(position) = index.position(abs) {
                    let ghost before = positions@;
                    let ghost place = (position.0@, position.1 as int);
                    positions.push(position);
                    assert(places_of(positions@) =~= places_of(before).push(place));
                }
            }
            visible = visible + 1;
        }
        positions
    }

    /// The lasting identity of the retained row at a coordinate.
    fn continuity(&self, row: Option<i64>) -> (key: Option<String>)
        requires
            self.wf(),
        ensures
            owned_text(key) == continuity_at(
                *self,
                match row {
                    Some(row) => Some(row as int),
                    None => None,
                },
            ),
    {
        match row {
            Some(row) => match self.cache.get_by_index(row) {
                Some(input) => Some(input.continuity_key().to_owned()),
                None => None,
            },
            None => None,
        }
    }
}

impl HistoryAppState {
    /// Apply one revision to the topology, the retained rows, the selection and
    /// the viewport. The graph's facts are those once it holds the edit.
    #[verifier::rlimit(80)]
    pub fn apply_delta(&mut self, delta: &LiveDelta, facts: &GraphFacts, viewport: &Viewport) -> (
    moved: Result<Viewport, ServiceError>)
        requires
            old(self).wf(),
            has_room(old(self).cache, *delta),
        ensures
            final(self).wf(),
            match moved {
                Ok(moved) => delta_applied(
                    *old(self),
                    *delta,
                    *facts,
                    *viewport,
                    *final(self),
                    moved,
                ),
                Err(error) => delta_refused(
                    *old(self),
                    *delta,
                    *facts,
                    *viewport,
                    *final(self),
                    error,
                ),
            },
            final(self).remote == old(self).remote,
            final(self).find == old(self).find,
            final(self).expanded_keys == old(self).expanded_keys,
            final(self).topology is Live <==> old(self).topology is Live,
            final(self).topology is Live ==> final(self).topology->Live_0.epoch
                == old(self).topology->Live_0.epoch,
            moved is Ok ==> final(self).cache.rows@.len() <= old(self).cache.rows@.len() + arriving(
                delta.upserts@,
                delta.upserts@.len() as int,
            ),
            moved is Ok ==> final(self).cache.retired@.len() <= old(self).cache.retired@.len(),
    {
        let ghost start = *self;
        let index = match &self.topology {
            Topology::Live(index) => index,
            _ => {
                return Err(invalid("Live topology is missing."));
            },
        };
        let ghost before = *index;
        let mut positions: Vec<Option<Position>> = Vec::new();
        let mut i: usize = 0;
        while i < self.cache.rows.len()
            invariant
                i <= self.cache.rows.len(),
                self.wf(),
                index.wf(),
                before == *index,
                positions.len() == i,
                forall|k: int|
                    0 <= k < i ==> place_of(#[trigger] positions@[k]) == before.position_of(
                        self.cache.rows@[k].row as int,
                    ),
            decreases self.cache.rows.len() - i,
        {
            positions.push(index.position(self.cache.rows[i].row));
            i = i + 1;
        }
        let top: i64 = HistoryAppState::viewport_visible_top(viewport);
        let seen_positions = self.viewed_positions(index, viewport);
        let anchor_row: Option<i64> = self.abs_index_for_visible(top);
        let mut anchor: Option<Position> = match anchor_row {
            Some(abs) => index.position(abs),
            None => None,
        };
        let focus_row: Option<i64> = match self.selection.roving {
            Some(row) => Some(row.get()),
            None => None,
        };
        let mut focused: Option<Position> = match focus_row {
            Some(abs) => index.position(abs),
            None => None,
        };
        let anchor_key = self.continuity(anchor_row);
        let focus_key = self.continuity(focus_row);
        remap_child(&mut anchor, text_ref(&anchor_key), delta);
        remap_child(&mut focused, text_ref(&focus_key), delta);
        let gone = match &self.selection.continuity_key {
            Some(key) => retired(key.as_str(), delta),
            None => false,
        };
        if gone {
            self.selection.clear();
        }
        let prepared = match prepare_arrivals(delta) {
            Ok(prepared) => prepared,
            Err(error) => {
                return Err(error);
            },
        };
        let mut topology = Topology::Flat;
        std::mem::swap(&mut topology, &mut self.topology);
        let mut index = match topology {
            Topology::Live(index) => index,
            other => {
                self.topology = other;
                return Err(invalid("Live topology is missing."));
            },
        };
        match index.apply(delta, &self.expanded_keys, facts) {
            Ok(_) => {},
            Err(error) => {
                proof {
                    if edits::accepts(before, *delta, start.expanded_keys@) {
                        edits::acceptable_edits_are_not_refused(
                            before,
                            *delta,
                            start.expanded_keys@,
                            error,
                        );
                    }
                }
                self.topology = Topology::Live(index);
                return Err(error);
            },
        }
        let ghost applied = index;
        expose_viewed(&mut index, &seen_positions);
        let ghost known = contents(start.cache.rows@);
        proof {
            lemma_retired_charge(self.cache.retired@);
            lemma_arriving(delta.upserts@, 0, delta.upserts@.len() as int);
            assert(topology_edited(start, *delta, *facts, *viewport, index));
        }
        let rows = self.cache.take_entries();
        assert(cache::row_charges(self.cache.rows@) =~= Seq::empty());
        match move_entries(&mut self.cache, rows, &positions, &index, delta, Ghost(before)) {
            Ok(_) => {},
            Err(error) => {
                self.topology = Topology::Live(index);
                return Err(error);
            },
        }
        let ghost moved = contents(self.cache.rows@);
        let ghost left = self.cache.retired@;
        let ghost faults = arrival_faults(index, delta.upserts@);
        let ghost base = self.cache.bytes as int;
        let ghost blocks_count = delta.upserts@.len() as int;
        let ghost all = prepared@;
        let ghost mid = *self;
        let mut j: usize = 0;
        proof {
            lemma_moved_len(before, index, *delta, known, known.len() as int);
        }
        for entries in it: prepared
            invariant
                it.seq() == all,
                j == it.index(),
                all.len() == delta.upserts.len(),
                blocks_count == delta.upserts@.len(),
                index.wf(),
                start.topology == Topology::Live(before),
                known == contents(start.cache.rows@),
                first_fault(input_faults(delta.upserts@)) is None,
                edits::accepts(before, *delta, start.expanded_keys@),
                topology_edited(start, *delta, *facts, *viewport, index),
                start == *old(self),
                start.wf(),
                self.cache.wf(),
                fresh(self.cache.rows@),
                self.cache.byte_limited == start.cache.byte_limited,
                *self == (HistoryAppState { cache: self.cache, ..mid }),
                mid == (HistoryAppState {
                    topology: mid.topology,
                    cache: mid.cache,
                    selection: mid.selection,
                    ..start
                }),
                selection_kept(start.selection, *delta, mid.selection),
                self.cache.retired@.len() <= start.cache.retired@.len(),
                index.epoch == before.epoch,
                fault_index(move_faults(before, index, *delta, known)) == known.len(),
                moved == moved_rows(before, index, *delta, known, known.len() as int),
                left == moved_retired(
                    before,
                    index,
                    *delta,
                    known,
                    start.cache.retired@,
                    known.len() as int,
                ),
                faults == arrival_faults(index, delta.upserts@),
                forall|i: int| 0 <= i < j ==> #[trigger] faults[i] is None,
                forall|i: int|
                    0 <= i < all.len() ==> cache::prepared(
                        delta.upserts@[i].rows@,
                        Ok((#[trigger] all[i])@),
                    ),
                self.cache.bytes <= base + arriving(delta.upserts@, j as int) * MAX_CACHED_BYTES,
                base + arriving(delta.upserts@, blocks_count) * MAX_CACHED_BYTES <= u64::MAX,
                contents(self.cache.rows@) == with_arrivals(
                    index,
                    moved,
                    delta.upserts@,
                    j as int,
                ),
                self.cache.retired@ == arrivals_retired(index, delta.upserts@, left, j as int),
        {
            proof {
                assert(entries == all[j as int]);
                lemma_arriving(delta.upserts@, j + 1, blocks_count);
            }
            match insert_arrivals(&mut self.cache, &delta.upserts[j], entries, &index) {
                Ok(_) => {},
                Err(error) => {
                    proof {
                        lemma_fault_index(faults, j as int);
                    }
                    self.topology = Topology::Live(index);
                    return Err(error);
                },
            }
            j = j + 1;
        }
        proof {
            lemma_fault_index(faults, blocks_count);
            lemma_arrivals_len(index, moved, delta.upserts@, blocks_count);
            assert(contents(self.cache.rows@).len() == self.cache.rows@.len());
            lemma_decorated_len(
                index,
                *facts,
                contents(self.cache.rows@),
                self.cache.rows@.len() as int,
            );
        }
        match decorate_entries(&mut self.cache, &index, facts) {
            Ok(_) => {},
            Err(error) => {
                self.topology = Topology::Live(index);
                return Err(error);
            },
        }
        assert(contents(self.cache.rows@).len() == self.cache.rows@.len());
        let focus = match &focused {
            Some(position) => match index.absolute(position) {
                Some(abs) => ExpandedRow::new(abs),
                None => None,
            },
            None => None,
        };
        self.selection.set_roving(focus);
        follow_selection(&mut self.selection, delta);
        let anchor_abs: Option<i64> = match &anchor {
            Some(position) => index.absolute(position),
            None => None,
        };
        self.topology = Topology::Live(index);
        self.snapshot_id = delta.snapshot_id.clone();
        self.view_gen = self.view_gen.saturating_add(1);
        self.requests.clear();
        self.total = Some(delta.total as i64);
        if delta.max_lane > u32::MAX as u64 {
            return Err(invalid("Live lane overflow."));
        }
        self.max_lane = delta.max_lane as u32;
        let mut visible: i64 = top;
        if let Some(abs) = anchor_abs {
            if let Some(found) = self.visible_index_for_abs(abs) {
                visible = found;
            }
        }
        let last: i64 = self.visible_total() - 1;
        if visible > last {
            visible = last;
        }
        if visible < 0 {
            visible = 0;
        }
        let offset: i64 = viewport.scroll_top.get();
        let scroll: i64 = if offset == 0 {
            0
        } else {
            proof {
                lemma_shown_bound(self.topology->Live_0);
            }
            visible * ROW_H + offset % ROW_H
        };
        Ok(Viewport::new(scroll, viewport.client_height.get()))
    }
}

fn text_ref(text: &Option<String>) -> (view: Option<&str>)
    ensures
        optional_text(view) == owned_text(*text),
{
    match text {
        Some(text) => Some(text.as_str()),
        None => None,
    }
}

proof fn lemma_shown_bound(index: LiveIndex)
    requires
        index.wf(),
    ensures
        index.shown().len() <= coordinates::MAX_RENDER_ROWS,
{
    live::lemma_start_monotone(index.blocks@, 0, index.blocks@.len() as int);
    crate::expansion::lemma_rows_between_len(
        |r: int| live::live_shows(index.blocks@, r),
        0,
        index.row_total(),
    );
}

proof fn lemma_decorated_len(
    after: LiveIndex,
    facts: GraphFacts,
    rows: Seq<(int, RowInput)>,
    n: int,
)
    requires
        0 <= n,
    ensures
        decorated_rows(after, facts, rows, n).len() <= n,
    decreases n,
{
    if n > 0 {
        lemma_decorated_len(after, facts, rows, n - 1);
        let (row, input) = rows[n - 1];
        lemma_with_content_len(
            decorated_rows(after, facts, rows, n - 1),
            row,
            decorated_input(after, facts, row, input),
        );
    }
}

/// What an update asks of its caller once it is applied.
#[derive(Debug, Clone, PartialEq, Eq)]
pub enum UpdateOutcome {
    /// The host pages this view: the update belongs to the remote view.
    Remote,
    /// Every revision of the update was applied before.
    Unchanged,
    /// Show the viewport, after searching again where a query is active, and
    /// log the text.
    Changed { viewport: Viewport, query: Option<String>, log: String },
}

/// The revision that a live state stands at.
pub open spec fn revision_of(state: HistoryAppState) -> int {
    match state.topology {
        Topology::Live(index) => index.revision as int,
        _ => 0,
    }
}

/// One step of a replay: revisions that were applied before are skipped.
pub open spec fn replay_step(
    before: HistoryAppState,
    delta: LiveDelta,
    facts: GraphFacts,
    viewport: Viewport,
    after: HistoryAppState,
    moved: Viewport,
) -> bool {
    if delta.revision <= revision_of(before) {
        after == before && moved == viewport
    } else {
        delta_applied(before, delta, facts, viewport, after, moved)
    }
}

/// Step `k` of a replay.
pub open spec fn replay_at(
    states: Seq<HistoryAppState>,
    viewports: Seq<Viewport>,
    deltas: Seq<LiveDelta>,
    facts: Seq<GraphFacts>,
    k: int,
) -> bool {
    replay_step(states[k], deltas[k], facts[k], viewports[k], states[k + 1], viewports[k + 1])
}

/// The states and viewports that a replay goes through.
pub open spec fn replay(
    states: Seq<HistoryAppState>,
    viewports: Seq<Viewport>,
    deltas: Seq<LiveDelta>,
    facts: Seq<GraphFacts>,
    n: int,
) -> bool {
    &&& states.len() == n + 1
    &&& viewports.len() == n + 1
    &&& forall|k: int|
        0 <= k < n ==> #[trigger] replay_at(states, viewports, deltas, facts, k)
}

/// The rows that the first `n` deltas bring.
pub open spec fn arriving_in(deltas: Seq<LiveDelta>, n: int) -> int
    decreases n,
{
    if n <= 0 {
        0
    } else {
        arriving_in(deltas, n - 1) + arriving(
            deltas[n - 1].upserts@,
            deltas[n - 1].upserts@.len() as int,
        )
    }
}

proof fn lemma_arriving_in(deltas: Seq<LiveDelta>, i: int, n: int)
    requires
        0 <= i <= n,
    ensures
        0 <= arriving_in(deltas, i) <= arriving_in(deltas, n),
    decreases n,
{
    if i < n {
        lemma_arriving(deltas[n - 1].upserts@, 0, deltas[n - 1].upserts@.len() as int);
        lemma_arriving_in(deltas, i, n - 1);
    } else if i > 0 {
        lemma_arriving(deltas[i - 1].upserts@, 0, deltas[i - 1].upserts@.len() as int);
        lemma_arriving_in(deltas, i - 1, i - 1);
    }
}

/// The charges of everything that an update may have to retain fit a counter.
pub open spec fn has_room_for(cache: PageCache, deltas: Seq<LiveDelta>) -> bool {
    (2 * (cache.rows@.len() + arriving_in(deltas, deltas.len() as int)) + cache.retired@.len())
        * MAX_CACHED_BYTES <= u64::MAX
}

/// The diagnostic line of an applied update.
pub open spec fn update_log(revision: u64, blocks: u64, records: u64) -> Seq<char> {
    "live delta: revision "@ + text::decimal(revision as nat) + ", "@ + text::decimal(blocks as nat)
        + " blocks, "@ + text::decimal(records as nat) + " chain records"@
}

fn log_text(revision: u64, blocks: u64, records: u64) -> (log: String)
    ensures
        log@ == update_log(revision, blocks, records),
{
    let mut log = joined("live delta: revision ", decimal_text(revision).as_str());
    log.append(", ");
    log.append(decimal_text(blocks).as_str());
    log.append(" blocks, ");
    log.append(decimal_text(records).as_str());
    log.append(" chain records");
    log
}

/// How a replay of the first `k` deltas ends: at a delta that is refused, or with all
/// of them applied or skipped.
pub open spec fn replay_ends(
    before: HistoryAppState,
    update: LiveUpdate,
    facts: Seq<GraphFacts>,
    step: Step,
    after: HistoryAppState,
    stepped: Step,
    outcome: Result<UpdateOutcome, ServiceError>,
    states: Seq<HistoryAppState>,
    viewports: Seq<Viewport>,
    k: int,
) -> bool {
    let n = update.deltas@.len() as int;
    if k < n {
        &&& stepped == step
        &&& update.deltas@[k].revision > revision_of(states[k])
        &&& outcome matches Err(error) && delta_refused(
            states[k],
            update.deltas@[k],
            facts[k],
            viewports[k],
            after,
            error,
        )
    } else {
        &&& after == states[n]
        &&& if revision_of(after) != update.revision {
            stepped == step && (outcome matches Err(error) && error.is_invalid(
                "Live replay has a revision gap."@,
            ))
        } else if revision_of(before) == update.revision {
            &&& outcome == Ok::<UpdateOutcome, ServiceError>(UpdateOutcome::Unchanged)
            &&& stepped.ops@ == step.ops@
            &&& stepped.sends@.len() == step.sends@.len() + 1
            &&& stepped.sends@.drop_last() == step.sends@
            &&& stepped.sends@.last() matches Send::LiveSettled { snapshot_id, error: None }
                && snapshot_id@ == after.snapshot_id.value@
            &&& stepped.save_state == step.save_state
        } else {
            &&& stepped.ops@ == step.ops@.push(DomOp::RefreshHeader)
            &&& stepped.sends@ == step.sends@
            &&& stepped.save_state == step.save_state
            &&& outcome matches Ok(UpdateOutcome::Changed { viewport, query, log })
            && viewport == viewports[n] && log@ == update_log(
                update.revision,
                update.work.blocks,
                update.work.chain_records,
            ) && owned_text(query) == (if after.find.subject().len() == 0 {
                None
            } else {
                Some(after.find.subject())
            })
        }
    }
}

/// What applying an update gives.
pub open spec fn update_result(
    before: HistoryAppState,
    update: LiveUpdate,
    facts: Seq<GraphFacts>,
    viewport: Viewport,
    step: Step,
    after: HistoryAppState,
    stepped: Step,
    outcome: Result<UpdateOutcome, ServiceError>,
) -> bool {
    let n = update.deltas@.len() as int;
    if before.remote {
        outcome == Ok::<UpdateOutcome, ServiceError>(UpdateOutcome::Remote) && after == before
            && stepped == step
    } else if !(before.topology is Live) {
        after == before && stepped == step && (outcome matches Err(error) && error.is_invalid(
            "Live baseline is missing."@,
        ))
    } else if before.topology->Live_0.epoch.value@ != update.epoch.value@ {
        after == before && stepped == step && (outcome matches Err(error) && error.is_invalid(
            "Live epoch changed; bootstrap required."@,
        ))
    } else {
        exists|states: Seq<HistoryAppState>, viewports: Seq<Viewport>, k: int|
            0 <= k <= n && #[trigger] replay(states, viewports, update.deltas@, facts, k)
                && states[0] == before && viewports[0] == viewport && replay_ends(
                before,
                update,
                facts,
                step,
                after,
                stepped,
                outcome,
                states,
                viewports,
                k,
            )
    }
}

impl HistoryAppState {
    /// Replay the deltas of an update that this view has not seen.
    #[verifier::rlimit(60)]
    pub fn apply_update(
        &mut self,
        update: &LiveUpdate,
        facts: &Vec<GraphFacts>,
        viewport: &Viewport,
        step: &mut Step,
    ) -> (outcome: Result<UpdateOutcome, ServiceError>)
        requires
            old(self).wf(),
            facts@.len() == update.deltas@.len(),
            has_room_for(old(self).cache, update.deltas@),
        ensures
            final(self).wf(),
            update_result(
                *old(self),
                *update,
                facts@,
                *viewport,
                *old(step),
                *final(self),
                *final(step),
                outcome,
            ),
    {
        if self.remote {
            return Ok(UpdateOutcome::Remote);
        }
        let ghost start = *self;
        let previous: u64 = match &self.topology {
            Topology::Live(index) => {
                if !same_text(index.epoch.as_str(), update.epoch.as_str()) {
                    return Err(invalid("Live epoch changed; bootstrap required."));
                }
                index.revision
            },
            _ => {
                return Err(invalid("Live baseline is missing."));
            },
        };
        let ghost n = update.deltas@.len() as int;
        let ghost mut states: Seq<HistoryAppState> = seq![start];
        let ghost mut viewports: Seq<Viewport> = seq![*viewport];
        let mut effective: Viewport = *viewport;
        let mut i: usize = 0;
        while i < update.deltas.len()
            invariant
                i <= update.deltas.len(),
                n == update.deltas@.len() == facts@.len(),
                start == *old(self),
                *step == *old(step),
                !start.remote,
                start.topology is Live,
                start.topology->Live_0.epoch.value@ == update.epoch.value@,
                self.wf(),
                self.topology is Live,
                self.find == start.find,
                replay(states, viewports, update.deltas@, facts@, i as int),
                states[0] == start,
                viewports[0] == *viewport,
                states[i as int] == *self,
                viewports[i as int] == effective,
                has_room_for(start.cache, update.deltas@),
                self.cache.rows@.len() <= start.cache.rows@.len() + arriving_in(
                    update.deltas@,
                    i as int,
                ),
                self.cache.retired@.len() <= start.cache.retired@.len(),
            decreases update.deltas.len() - i,
        {
            let ghost before = *self;
            let ghost shown = effective;
            let revision: u64 = self.live_revision();
            let delta = &update.deltas[i];
            proof {
                lemma_arriving_in(update.deltas@, i + 1, n);
                lemma_arriving_in(update.deltas@, 0, i as int);
                lemma_arriving(delta.upserts@, 0, delta.upserts@.len() as int);
            }
            if delta.revision > revision {
                match self.apply_delta(delta, &facts[i], &effective) {
                    Ok(moved) => {
                        effective = moved;
                    },
                    Err(error) => {
                        assert(replay(states, viewports, update.deltas@, facts@, i as int));
                        return Err(error);
                    },
                }
            }
            proof {
                let longer = states.push(*self);
                let more = viewports.push(effective);
                assert forall|k: int| 0 <= k < i + 1 implies #[trigger] replay_at(
                    longer,
                    more,
                    update.deltas@,
                    facts@,
                    k,
                ) by {
                    if k < i {
                        assert(replay_at(states, viewports, update.deltas@, facts@, k));
                        assert(longer[k] == states[k] && longer[k + 1] == states[k + 1]);
                    } else {
                        assert(longer[k] == before && more[k] == shown);
                    }
                }
                states = longer;
                viewports = more;
            }
            i = i + 1;
        }
        let revision: u64 = self.live_revision();
        assert(replay(states, viewports, update.deltas@, facts@, n));
        if revision != update.revision {
            return Err(invalid("Live replay has a revision gap."));
        }
        if previous == revision {
            let ghost sends = step.sends@;
            step.sends.push(
                Send::LiveSettled {
                    snapshot_id: self.snapshot_id.as_str().to_owned(),
                    error: None,
                },
            );
            assert(step.sends@.drop_last() =~= sends);
            return Ok(UpdateOutcome::Unchanged);
        }
        step.ops.push(DomOp::RefreshHeader);
        let query = self.find.query();
        let query: Option<String> = if query.is_empty() {
            None
        } else {
            Some(query.to_owned())
        };
        Ok(
            UpdateOutcome::Changed {
                viewport: effective,
                query,
                log: log_text(revision, update.work.blocks, update.work.chain_records),
            },
        )
    }

    fn live_revision(&self) -> (revision: u64)
        ensures
            revision == revision_of(*self),
    {
        match &self.topology {
            Topology::Live(index) => index.revision,
            _ => 0,
        }
    }
}

/// What a delivered update asks of its caller.
#[derive(Debug, Clone, PartialEq, Eq)]
pub enum DeltaOutcome {
    Applied(UpdateOutcome),
    /// Fail the snapshot with the message, then settle the live revision.
    Failed { message: String, settled: Option<Send> },
}

/// What handling a delivered update gives.
pub open spec fn delivery_result(
    delivered: Result<LiveUpdate, ServiceError>,
    applied: Result<UpdateOutcome, ServiceError>,
    outcome: DeltaOutcome,
) -> bool {
    match applied {
        Ok(applied) => outcome == DeltaOutcome::Applied(applied),
        Err(error) => {
            &&& outcome matches DeltaOutcome::Failed { message, settled }
            &&& message@ == error.message@
            &&& match delivered {
                Ok(update) => if update.deltas@.len() > 0 {
                    settled matches Some(Send::LiveSettled { snapshot_id, error: Some(reason) })
                        && snapshot_id@ == update.deltas@.last().snapshot_id.value@ && reason@
                        == error.message@
                } else {
                    settled is None
                },
                Err(_) => settled is None,
            }
        },
    }
}

impl HistoryAppState {
    /// Apply a delivered update, or say how its failure is answered.
    pub fn handle_delta(
        &mut self,
        delivered: &Result<LiveUpdate, ServiceError>,
        facts: &Vec<GraphFacts>,
        viewport: &Viewport,
        step: &mut Step,
    ) -> (outcome: DeltaOutcome)
        requires
            old(self).wf(),
            delivered matches Ok(update) ==> facts@.len() == update.deltas@.len() && has_room_for(
                old(self).cache,
                update.deltas@,
            ),
        ensures
            final(self).wf(),
            match *delivered {
                Ok(update) => exists|applied: Result<UpdateOutcome, ServiceError>| #[trigger]
                    update_result(
                        *old(self),
                        update,
                        facts@,
                        *viewport,
                        *old(step),
                        *final(self),
                        *final(step),
                        applied,
                    ) && delivery_result(*delivered, applied, outcome),
                Err(error) => *final(self) == *old(self) && *final(step) == *old(step)
                    && delivery_result(*delivered, Err(error), outcome),
            },
    {
        match delivered {
            Ok(update) => match self.apply_update(update, facts, viewport, step) {
                Ok(applied) => DeltaOutcome::Applied(applied),
                Err(error) => {
                    let settled: Option<Send> = if update.deltas.len() > 0 {
                        let last = &update.deltas[update.deltas.len() - 1];
                        Some(
                            Send::LiveSettled {
                                snapshot_id: last.snapshot_id.as_str().to_owned(),
                                error: Some(error.message.clone()),
                            },
                        )
                    } else {
                        None
                    };
                    DeltaOutcome::Failed { message: error.message.clone(), settled }
                },
            },
            Err(error) => DeltaOutcome::Failed { message: error.message.clone(), settled: None },
        }
    }
}

proof fn lemma_node_without_continuity(upserts: Seq<LiveBlock>, n: int)
    ensures
        node_after(upserts, None, None, n) is None,
    decreases n,
{
    if n > 0 {
        lemma_node_without_continuity(upserts, n - 1);
        lemma_block_without_continuity(upserts[n - 1].rows@, upserts[n - 1].rows@.len() as int);
    }
}

proof fn lemma_block_without_continuity(rows: Seq<HistoryRow>, n: int)
    ensures
        node_in_block(rows, None, None, n) is None,
    decreases n,
{
    if n > 0 {
        lemma_block_without_continuity(rows, n - 1);
    }
}

/// A selected identity that an edit retires is no longer selected.
pub proof fn a_retired_selection_is_dropped(
    before: HistoryAppState,
    delta: LiveDelta,
    facts: GraphFacts,
    viewport: Viewport,
    after: HistoryAppState,
    moved: Viewport,
)
    requires
        delta_applied(before, delta, facts, viewport, after, moved),
        before.selection.continuity_key matches Some(key) && retires(key@, delta),
    ensures
        after.selection.continuity_key is None,
        after.selection.node_key is None,
{
    lemma_node_without_continuity(delta.upserts@, delta.upserts@.len() as int);
    assert(owned_text(after.selection.continuity_key) is None);
    assert(owned_text(after.selection.node_key) is None);
}

proof fn lemma_viewed_has(
    state: HistoryAppState,
    index: LiveIndex,
    from: int,
    upto: int,
    visible: int,
    place: (Seq<char>, int),
)
    requires
        from <= visible < upto,
        state.row_at(visible) is Some,
        index.position_of(state.row_at(visible)->0) == Some(place),
    ensures
        viewed(state, index, from, upto).contains(place),
    decreases upto - from,
{
    let before = viewed(state, index, from, upto - 1);
    let all = viewed(state, index, from, upto);
    if visible == upto - 1 {
        assert(all[all.len() - 1] == place);
    } else {
        lemma_viewed_has(state, index, from, upto - 1, visible, place);
        let k = choose|k: int| 0 <= k < before.len() && before[k] == place;
        assert(all[k] == place);
    }
}

/// A block that the viewport shows stays shown as long as it exists, also where
/// an edit makes it a straight interior of a folded section.
pub proof fn viewed_blocks_stay_shown(
    before: HistoryAppState,
    delta: LiveDelta,
    facts: GraphFacts,
    viewport: Viewport,
    after: HistoryAppState,
    moved: Viewport,
    visible: int,
    i: int,
)
    requires
        delta_applied(before, delta, facts, viewport, after, moved),
        HistoryAppState::top_of(viewport) <= visible <= before.bottom_of(viewport),
        before.row_at(visible) is Some,
        0 <= i < after.topology->Live_0.blocks@.len(),
        before.topology->Live_0.position_of(before.row_at(visible)->0) matches Some(place)
            && place.0 == after.topology->Live_0.blocks@[i].meta.key@ && 0 <= place.1
            < after.topology->Live_0.blocks@[i].meta.row_count,
    ensures
        after.topology->Live_0.blocks@[i].exposed,
        !after.topology->Live_0.blocks@[i].hidden,
{
    let index = before.topology->Live_0;
    let now = after.topology->Live_0;
    let top = HistoryAppState::top_of(viewport);
    let places = viewed(before, index, top, before.bottom_of(viewport) + 1);
    let edited = choose|edited: LiveIndex| #[trigger]
        edits::edited(index, delta, before.expanded_keys@, facts, edited) && now.blocks@
            == exposed_blocks(edited.blocks@, places) && now.groups == edited.groups && now.revision
            == edited.revision && now.epoch == edited.epoch && now.foldable == edited.foldable;
    let place = index.position_of(before.row_at(visible)->0)->0;
    lemma_viewed_has(before, index, top, before.bottom_of(viewport) + 1, visible, place);
    let k = choose|k: int| 0 <= k < places.len() && places[k] == place;
    assert(places[k] == place);
    assert(now.blocks@[i].meta == edited.blocks@[i].meta);
    assert(seen(places, edited.blocks@[i]));
}

/// The row at the top of a scrolled viewport keeps its place on the screen, where
/// the edit leaves it shown.
pub proof fn the_first_viewed_row_keeps_its_place(
    before: HistoryAppState,
    delta: LiveDelta,
    facts: GraphFacts,
    viewport: Viewport,
    after: HistoryAppState,
    moved: Viewport,
    row: int,
    visible: int,
)
    requires
        delta_applied(before, delta, facts, viewport, after, moved),
        after.wf(),
        viewport.scroll_top@ > 0,
        ({
            let anchor_row = before.row_at(HistoryAppState::top_of(viewport));
            let place = match anchor_row {
                Some(row) => before.topology->Live_0.position_of(row),
                None => None,
            };
            &&& remapped(place, continuity_at(before, anchor_row), delta) matches Some(anchor)
                && after.topology->Live_0.absolute_of(anchor.0, anchor.1) == Some(row)
        }),
        after.visible_of(row) == Some(visible),
    ensures
        moved.scroll_top@ - visible * ROW_H == viewport.scroll_top@ - HistoryAppState::top_of(
            viewport,
        ) * ROW_H,
{
    let now = after.topology->Live_0;
    now.select_undoes_rank(row);
    lemma_shown_bound(now);
    assert(visible < after.visible_count());
}

/// What a step of a replay keeps, and where it stands.
#[verifier::spinoff_prover]
proof fn lemma_step(
    before: HistoryAppState,
    delta: LiveDelta,
    facts: GraphFacts,
    viewport: Viewport,
    after: HistoryAppState,
    moved: Viewport,
)
    requires
        replay_step(before, delta, facts, viewport, after, moved),
        before.topology is Live,
    ensures
        after.topology is Live,
        after.remote == before.remote,
        after.topology->Live_0.epoch == before.topology->Live_0.epoch,
        delta.revision <= revision_of(after),
        revision_of(before) <= revision_of(after),
        delta.revision <= revision_of(before) ==> after == before,
{
}

/// A replay ends at a revision that no delta which it went through exceeds, in the
/// epoch in which it began.
#[verifier::spinoff_prover]
proof fn lemma_replayed(
    states: Seq<HistoryAppState>,
    viewports: Seq<Viewport>,
    deltas: Seq<LiveDelta>,
    facts: Seq<GraphFacts>,
    n: int,
    k: int,
)
    requires
        replay(states, viewports, deltas, facts, n),
        0 <= k <= n,
        states[0].topology is Live,
    ensures
        states[k].topology is Live,
        states[k].remote == states[0].remote,
        states[k].topology->Live_0.epoch == states[0].topology->Live_0.epoch,
        forall|j: int| 0 <= j < k ==> (#[trigger] deltas[j]).revision <= revision_of(states[k]),
    decreases k,
{
    if k > 0 {
        let b = k - 1;
        lemma_replayed(states, viewports, deltas, facts, n, b);
        assert(replay_at(states, viewports, deltas, facts, b));
        lemma_step(states[b], deltas[b], facts[b], viewports[b], states[b + 1], viewports[b + 1]);
    }
}

/// A replay of nothing but revisions that were applied before stays where it is.
proof fn lemma_skipped(
    states: Seq<HistoryAppState>,
    viewports: Seq<Viewport>,
    deltas: Seq<LiveDelta>,
    facts: Seq<GraphFacts>,
    n: int,
    k: int,
)
    requires
        replay(states, viewports, deltas, facts, n),
        0 <= k <= n <= deltas.len(),
        states[0].topology is Live,
        forall|j: int|
            0 <= j < deltas.len() ==> (#[trigger] deltas[j]).revision <= revision_of(states[0]),
    ensures
        states[k] == states[0],
    decreases k,
{
    if k > 0 {
        let b = k - 1;
        lemma_skipped(states, viewports, deltas, facts, n, b);
        assert(replay_at(states, viewports, deltas, facts, b));
        lemma_step(states[b], deltas[b], facts[b], viewports[b], states[b + 1], viewports[b + 1]);
        assert(deltas[b].revision <= revision_of(states[0]));
    }
}

/// An update that was applied changes nothing when it is delivered again; it is only
/// settled again.
pub proof fn a_repeated_update_only_settles(
    before: HistoryAppState,
    update: LiveUpdate,
    facts: Seq<GraphFacts>,
    viewport: Viewport,
    step: Step,
    after: HistoryAppState,
    stepped: Step,
    outcome: Result<UpdateOutcome, ServiceError>,
    later_facts: Seq<GraphFacts>,
    later_viewport: Viewport,
    later_step: Step,
    again: HistoryAppState,
    later_stepped: Step,
    later_outcome: Result<UpdateOutcome, ServiceError>,
)
    requires
        !before.remote,
        update_result(before, update, facts, viewport, step, after, stepped, outcome),
        outcome is Ok,
        update_result(
            after,
            update,
            later_facts,
            later_viewport,
            later_step,
            again,
            later_stepped,
            later_outcome,
        ),
    ensures
        again == after,
        later_outcome == Ok::<UpdateOutcome, ServiceError>(UpdateOutcome::Unchanged),
        later_stepped.ops@ == later_step.ops@,
        later_stepped.save_state == later_step.save_state,
        later_stepped.sends@.len() == later_step.sends@.len() + 1,
        later_stepped.sends@.drop_last() == later_step.sends@,
        later_stepped.sends@.last() matches Send::LiveSettled { snapshot_id, error: None }
            && snapshot_id@ == after.snapshot_id.value@,
{
    let deltas = update.deltas@;
    let n = deltas.len() as int;
    let (states, viewports, k) = choose|
        states: Seq<HistoryAppState>,
        viewports: Seq<Viewport>,
        k: int,
    |
        0 <= k <= n && #[trigger] replay(states, viewports, deltas, facts, k) && states[0] == before
            && viewports[0] == viewport && replay_ends(
            before,
            update,
            facts,
            step,
            after,
            stepped,
            outcome,
            states,
            viewports,
            k,
        );
    lemma_replayed(states, viewports, deltas, facts, k, k);
    assert(revision_of(after) == update.revision);
    let (later, shown, m) = choose|
        states: Seq<HistoryAppState>,
        viewports: Seq<Viewport>,
        k: int,
    |
        0 <= k <= n && #[trigger] replay(states, viewports, deltas, later_facts, k) && states[0]
            == after && viewports[0] == later_viewport && replay_ends(
            after,
            update,
            later_facts,
            later_step,
            again,
            later_stepped,
            later_outcome,
            states,
            viewports,
            k,
        );
    lemma_skipped(later, shown, deltas, later_facts, m, m);
    if m < n {
        assert(deltas[m].revision <= revision_of(after));
    }
}

} // verus!
