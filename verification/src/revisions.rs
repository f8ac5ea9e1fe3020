//! What a live revision does to the rows that a view retains.

use crate::cache::{self, Placed};
use crate::coordinates::ROW_H;
use crate::delta::{self, DeltaOutcome, UpdateOutcome};
use crate::edits;
use crate::live::{self, LiveIndex};
use crate::protocol::{
    GraphFacts, HistoryRow, LiveBlock, LiveDelta, LiveUpdate, ServiceError,
};
use crate::row_input::RowInput;
use crate::state::HistoryAppState;
use crate::step::{Send, Step, Viewport};
use vstd::prelude::*;

verus! {

/// Rows by increasing coordinate.
spec fn sorted(rows: Seq<(int, RowInput)>) -> bool {
    forall|i: int, j: int| 0 <= i < j < rows.len() ==> (#[trigger] rows[i]).0 < (#[trigger] rows[j]).0
}

/// The content at a coordinate.
spec fn content_at(rows: Seq<(int, RowInput)>, row: int) -> Option<RowInput> {
    let at = delta::content_slot(rows, row);
    if at < rows.len() && rows[at].0 == row {
        Some(rows[at].1)
    } else {
        None
    }
}

proof fn lemma_slot(rows: Seq<(int, RowInput)>, row: int)
    requires
        sorted(rows),
    ensures
        0 <= delta::content_slot(rows, row) <= rows.len(),
        forall|i: int| 0 <= i < delta::content_slot(rows, row) ==> (#[trigger] rows[i]).0 < row,
        forall|i: int|
            delta::content_slot(rows, row) <= i < rows.len() ==> (#[trigger] rows[i]).0 >= row,
    decreases rows.len(),
{
    if rows.len() > 0 && rows.last().0 >= row {
        let shorter = rows.drop_last();
        assert(sorted(shorter)) by {
            assert forall|i: int, j: int| 0 <= i < j < shorter.len() implies (
            #[trigger] shorter[i]).0 < (#[trigger] shorter[j]).0 by {
                assert(rows[i].0 < rows[j].0);
            }
        }
        lemma_slot(shorter, row);
        assert forall|i: int| 0 <= i < delta::content_slot(rows, row) implies (
        #[trigger] rows[i]).0 < row by {
            assert(shorter[i] == rows[i]);
        }
        assert forall|i: int| delta::content_slot(rows, row) <= i < rows.len() implies (
        #[trigger] rows[i]).0 >= row by {
            if i < shorter.len() {
                assert(shorter[i] == rows[i]);
            }
        }
    }
}

/// A row is found where it stands.
proof fn lemma_found(rows: Seq<(int, RowInput)>, i: int)
    requires
        sorted(rows),
        0 <= i < rows.len(),
    ensures
        content_at(rows, rows[i].0) == Some(rows[i].1),
{
    let row = rows[i].0;
    lemma_slot(rows, row);
    let at = delta::content_slot(rows, row);
    if at < i {
        assert(rows[at].0 < rows[i].0);
    }
}

proof fn lemma_placed(rows: Seq<(int, RowInput)>, row: int, input: RowInput, other: int)
    requires
        sorted(rows),
    ensures
        sorted(delta::with_content(rows, row, input)),
        content_at(delta::with_content(rows, row, input), other) == (if other == row {
            Some(input)
        } else {
            content_at(rows, other)
        }),
{
    lemma_slot(rows, row);
    lemma_slot(rows, other);
    let at = delta::content_slot(rows, row);
    let after = delta::with_content(rows, row, input);
    let present = at < rows.len() && rows[at].0 == row;
    assert(sorted(after)) by {
        assert forall|i: int, j: int| 0 <= i < j < after.len() implies (#[trigger] after[i]).0 < (
        #[trigger] after[j]).0 by {
            let a = if present || i <= at {
                i
            } else {
                i - 1
            };
            let b = if present || j <= at {
                j
            } else {
                j - 1
            };
            if i == at {
                if b < rows.len() {
                    assert(rows[b].0 >= row);
                    if present {
                        assert(rows[at].0 < rows[b].0);
                    } else {
                        assert(rows[b].0 != row) by {
                            if b > at {
                                assert(rows[at].0 < rows[b].0);
                            }
                        }
                    }
                }
            } else if j == at {
                assert(rows[a].0 < row);
            } else {
                assert(rows[a].0 < rows[b].0);
            }
        }
    }
    if other == row {
        assert(after[at] == (row, input));
        lemma_found(after, at);
    } else {
        lemma_slot(after, other);
        match content_at(rows, other) {
            Some(content) => {
                let k = delta::content_slot(rows, other);
                let from = if present || k < at {
                    k
                } else {
                    k + 1
                };
                assert(after[from] == rows[k]);
                lemma_found(after, from);
            },
            None => {
                if content_at(after, other) is Some {
                    let k = delta::content_slot(after, other);
                    assert(k != at);
                    let from = if present || k < at {
                        k
                    } else {
                        k - 1
                    };
                    assert(after[k] == rows[from]);
                    lemma_found(rows, from);
                }
            },
        }
    }
}

/// What a row is beside its coordinates, its lanes and its size.
pub open spec fn same_content(a: HistoryRow, b: HistoryRow) -> bool {
    &&& a.node_key@ == b.node_key@
    &&& a.continuity_key@ == b.continuity_key@
    &&& a.summary@ == b.summary@
}

proof fn lemma_moved(
    before: LiveIndex,
    after: LiveIndex,
    delta: LiveDelta,
    rows: Seq<(int, RowInput)>,
    n: int,
    row: int,
)
    requires
        before.wf(),
        after.wf(),
        sorted(rows),
        0 <= n <= rows.len(),
    ensures
        sorted(delta::moved_rows(before, after, delta, rows, n)),
        ({
            let moved = delta::moved_rows(before, after, delta, rows, n);
            &&& forall|i: int|
                0 <= i < n && delta::destination(before, after, delta, (#[trigger] rows[i]).0)
                    == Some(row) ==> content_at(moved, row) == Some(
                    delta::moved_input(rows[i].1, rows[i].0, row),
                )
            &&& content_at(moved, row) is Some ==> exists|i: int|
                0 <= i < n && delta::destination(before, after, delta, (#[trigger] rows[i]).0)
                    == Some(row)
        }),
    decreases n,
{
    if n > 0 {
        lemma_moved(before, after, delta, rows, n - 1, row);
        let done = delta::moved_rows(before, after, delta, rows, n - 1);
        let (old, input) = rows[n - 1];
        match delta::destination(before, after, delta, old) {
            Some(new) => {
                lemma_placed(done, new, delta::moved_input(input, old, new), row);
                if new == row {
                    assert forall|i: int|
                        0 <= i < n && delta::destination(
                            before,
                            after,
                            delta,
                            (#[trigger] rows[i]).0,
                        ) == Some(row) implies i == n - 1 by {
                        lemma_one_origin(before, after, delta, rows[i].0, old);
                        if i < n - 1 {
                            assert(rows[i].0 < rows[n - 1].0);
                        }
                    }
                    assert(delta::destination(before, after, delta, rows[n - 1].0) == Some(row));
                }
            },
            None => {},
        }
    }
}

proof fn lemma_one_origin(
    before: LiveIndex,
    after: LiveIndex,
    delta: LiveDelta,
    a: int,
    b: int,
)
    requires
        before.wf(),
        after.wf(),
        delta::destination(before, after, delta, a) is Some,
        delta::destination(before, after, delta, a) == delta::destination(before, after, delta, b),
    ensures
        a == b,
{
    let (x, s) = before.position_of(a)->0;
    let (y, t) = before.position_of(b)->0;
    after.position_undoes_absolute(x, s);
    after.position_undoes_absolute(y, t);
    before.absolute_undoes_position(a);
    before.absolute_undoes_position(b);
}

proof fn lemma_block_placed(
    after: LiveIndex,
    rows: Seq<(int, RowInput)>,
    block: LiveBlock,
    n: int,
    row: int,
)
    requires
        after.wf(),
        sorted(rows),
        0 <= n <= block.rows@.len(),
    ensures
        sorted(delta::with_block(after, rows, block, n)),
        ({
            let placed = delta::with_block(after, rows, block, n);
            &&& forall|s: int|
                0 <= s < n && #[trigger] after.absolute_of(block.meta.key@, s) == Some(row)
                    ==> content_at(placed, row) == Some(
                    delta::moved_input(RowInput { source: block.rows@[s] }, s, row),
                )
            &&& (forall|s: int|
                0 <= s < n ==> #[trigger] after.absolute_of(block.meta.key@, s) != Some(row))
                ==> content_at(placed, row) == content_at(rows, row)
        }),
    decreases n,
{
    if n > 0 {
        lemma_block_placed(after, rows, block, n - 1, row);
        let done = delta::with_block(after, rows, block, n - 1);
        match after.absolute_of(block.meta.key@, n - 1) {
            Some(new) => {
                lemma_placed(
                    done,
                    new,
                    delta::moved_input(RowInput { source: block.rows@[n - 1] }, n - 1, new),
                    row,
                );
                if new == row {
                    assert forall|s: int|
                        0 <= s < n && #[trigger] after.absolute_of(block.meta.key@, s) == Some(
                            row,
                        ) implies s == n - 1 by {
                        after.position_undoes_absolute(block.meta.key@, s);
                        after.position_undoes_absolute(block.meta.key@, n - 1);
                    }
                }
            },
            None => {},
        }
    }
}

/// Whether a slot of an arriving block stands at a coordinate.
spec fn lands(after: LiveIndex, upserts: Seq<LiveBlock>, j: int, s: int, row: int) -> bool {
    after.absolute_of(upserts[j].meta.key@, s) == Some(row)
}

/// Each block arrives once.
spec fn arrive_once(upserts: Seq<LiveBlock>) -> bool {
    forall|i: int, j: int|
        0 <= i < j < upserts.len() ==> (#[trigger] upserts[i]).meta.key@ != (
        #[trigger] upserts[j]).meta.key@
}

proof fn lemma_arrivals_placed(
    after: LiveIndex,
    rows: Seq<(int, RowInput)>,
    upserts: Seq<LiveBlock>,
    n: int,
    row: int,
)
    requires
        after.wf(),
        sorted(rows),
        arrive_once(upserts),
        0 <= n <= upserts.len(),
    ensures
        sorted(delta::with_arrivals(after, rows, upserts, n)),
        ({
            let placed = delta::with_arrivals(after, rows, upserts, n);
            &&& forall|j: int, s: int|
                0 <= j < n && 0 <= s < upserts[j].rows@.len() && #[trigger] lands(
                    after,
                    upserts,
                    j,
                    s,
                    row,
                ) ==> content_at(placed, row) == Some(
                    delta::moved_input(RowInput { source: upserts[j].rows@[s] }, s, row),
                )
            &&& (forall|j: int, s: int|
                0 <= j < n && 0 <= s < upserts[j].rows@.len() ==> !#[trigger] lands(
                    after,
                    upserts,
                    j,
                    s,
                    row,
                )) ==> content_at(placed, row) == content_at(rows, row)
        }),
    decreases n,
{
    if n > 0 {
        lemma_arrivals_placed(after, rows, upserts, n - 1, row);
        let done = delta::with_arrivals(after, rows, upserts, n - 1);
        let block = upserts[n - 1];
        let len = block.rows@.len() as int;
        let placed = delta::with_arrivals(after, rows, upserts, n);
        lemma_block_placed(after, done, block, len, row);
        assert forall|j: int, s: int|
            0 <= j < n && 0 <= s < upserts[j].rows@.len() && #[trigger] lands(
                after,
                upserts,
                j,
                s,
                row,
            ) implies content_at(placed, row) == Some(
            delta::moved_input(RowInput { source: upserts[j].rows@[s] }, s, row),
        ) by {
            if j < n - 1 {
                assert forall|t: int| 0 <= t < len implies #[trigger] after.absolute_of(
                    block.meta.key@,
                    t,
                ) != Some(row) by {
                    if after.absolute_of(block.meta.key@, t) == Some(row) {
                        after.position_undoes_absolute(block.meta.key@, t);
                        after.position_undoes_absolute(upserts[j].meta.key@, s);
                        assert(upserts[j].meta.key@ != upserts[n - 1].meta.key@);
                    }
                }
            } else {
                assert(after.absolute_of(block.meta.key@, s) == Some(row));
            }
        }
        if forall|j: int, s: int|
            0 <= j < n && 0 <= s < upserts[j].rows@.len() ==> !#[trigger] lands(
                after,
                upserts,
                j,
                s,
                row,
            ) {
            assert forall|t: int| 0 <= t < len implies #[trigger] after.absolute_of(
                block.meta.key@,
                t,
            ) != Some(row) by {
                assert(!lands(after, upserts, n - 1, t, row));
            }
        }
    }
}

proof fn lemma_decorated(
    after: LiveIndex,
    facts: GraphFacts,
    rows: Seq<(int, RowInput)>,
    n: int,
    row: int,
)
    requires
        sorted(rows),
        0 <= n <= rows.len(),
    ensures
        sorted(delta::decorated_rows(after, facts, rows, n)),
        ({
            let done = delta::decorated_rows(after, facts, rows, n);
            &&& forall|i: int|
                0 <= i < n && (#[trigger] rows[i]).0 == row && after.position_of(row) is Some
                    ==> content_at(done, row) == Some(
                    delta::decorated_input(after, facts, row, rows[i].1),
                )
            &&& content_at(done, row) is Some ==> after.position_of(row) is Some && exists|i: int|
                0 <= i < n && (#[trigger] rows[i]).0 == row
        }),
    decreases n,
{
    if n > 0 {
        lemma_decorated(after, facts, rows, n - 1, row);
        let done = delta::decorated_rows(after, facts, rows, n - 1);
        let (at, input) = rows[n - 1];
        if after.position_of(at) is Some {
            lemma_placed(done, at, delta::decorated_input(after, facts, at, input), row);
            if at == row {
                assert(rows[n - 1].0 == row);
                assert forall|i: int| 0 <= i < n && (#[trigger] rows[i]).0 == row implies i == n
                    - 1 by {
                    if i < n - 1 {
                        assert(rows[i].0 < rows[n - 1].0);
                    }
                }
            }
        }
    }
}

proof fn lemma_contents(rows: Seq<Placed>, row: int)
    requires
        cache::rows_ok(rows),
    ensures
        sorted(delta::contents(rows)),
        delta::content_slot(delta::contents(rows), row) == cache::slot(rows, row),
    decreases rows.len(),
{
    let all = delta::contents(rows);
    assert forall|i: int, j: int| 0 <= i < j < all.len() implies (#[trigger] all[i]).0 < (
    #[trigger] all[j]).0 by {
        assert(rows[i].row < rows[j].row);
    }
    if rows.len() > 0 {
        let shorter = rows.drop_last();
        assert(all.drop_last() =~= delta::contents(shorter));
        assert(cache::rows_ok(shorter)) by {
            assert forall|i: int| 0 <= i < shorter.len() implies shorter[i] == rows[i] by {}
        }
        lemma_contents(shorter, row);
    }
}

/// What is retained at a coordinate.
proof fn lemma_retained(state: HistoryAppState, row: int)
    requires
        state.wf(),
    ensures
        sorted(delta::contents(state.cache.rows@)),
        match state.cache.at(row) {
            Some(entry) => content_at(delta::contents(state.cache.rows@), row) == Some(entry.row),
            None => content_at(delta::contents(state.cache.rows@), row) is None,
        },
{
    lemma_contents(state.cache.rows@, row);
    let at = cache::slot(state.cache.rows@, row);
    cache::lemma_occupied(state.cache.rows@, row);
    lemma_slot(delta::contents(state.cache.rows@), row);
}

/// What an applied edit makes of the retained rows, and what it says of the blocks that
/// it brings.
spec fn rearranged(
    index: LiveIndex,
    now: LiveIndex,
    delta: LiveDelta,
    facts: GraphFacts,
    rows: Seq<(int, RowInput)>,
    after: Seq<(int, RowInput)>,
) -> bool {
    let upserts = delta.upserts@;
    let moved = delta::moved_rows(index, now, delta, rows, rows.len() as int);
    let arrived = delta::with_arrivals(now, moved, upserts, upserts.len() as int);
    &&& after == delta::decorated_rows(now, facts, arrived, arrived.len() as int)
    &&& arrive_once(upserts)
    &&& forall|j: int|
        0 <= j < upserts.len() ==> (#[trigger] upserts[j]).rows@.len() == upserts[j].meta.row_count
            && edits::parents_precede(upserts[j], upserts[j].rows@.len() as int)
}

proof fn lemma_rearranged(
    before: HistoryAppState,
    delta: LiveDelta,
    facts: GraphFacts,
    viewport: Viewport,
    after: HistoryAppState,
    moved: Viewport,
)
    requires
        delta::delta_applied(before, delta, facts, viewport, after, moved),
    ensures
        before.topology is Live,
        after.topology is Live,
        rearranged(
            before.topology->Live_0,
            after.topology->Live_0,
            delta,
            facts,
            delta::contents(before.cache.rows@),
            delta::contents(after.cache.rows@),
        ),
{
    let index = before.topology->Live_0;
    let now = after.topology->Live_0;
    let rows = delta::contents(before.cache.rows@);
    let upserts = delta.upserts@;
    let expanded = before.expanded_keys@;
    lemma_no_fault(delta::move_faults(index, now, delta, rows));
    lemma_no_fault(delta::arrival_faults(now, upserts));
    let whole = delta::moved_rows(index, now, delta, rows, rows.len() as int);
    let arrived = delta::with_arrivals(now, whole, upserts, upserts.len() as int);
    lemma_no_fault(delta::geometry_faults(now, facts, arrived));
    lemma_accepted(index, delta, expanded);
}

proof fn lemma_accepted(index: LiveIndex, delta: LiveDelta, expanded: Seq<String>)
    requires
        edits::accepts(index, delta, expanded),
    ensures
        arrive_once(delta.upserts@),
        forall|j: int|
            0 <= j < delta.upserts@.len() ==> (#[trigger] delta.upserts@[j]).rows@.len()
                == delta.upserts@[j].meta.row_count && edits::parents_precede(
                delta.upserts@[j],
                delta.upserts@[j].rows@.len() as int,
            ),
{
    let upserts = delta.upserts@;
    assert forall|j: int| 0 <= j < upserts.len() implies (#[trigger] upserts[j]).rows@.len()
        == upserts[j].meta.row_count && edits::parents_precede(
        upserts[j],
        upserts[j].rows@.len() as int,
    ) by {
        assert(edits::acceptable(delta, expanded, j));
    }
    assert forall|i: int, j: int| 0 <= i < j < upserts.len() implies (
    #[trigger] upserts[i]).meta.key@ != (#[trigger] upserts[j]).meta.key@ by {
        assert(edits::acceptable(delta, expanded, j));
        assert(upserts.take(j)[i] == upserts[i]);
    }
}

proof fn lemma_no_fault(faults: Seq<Option<Seq<char>>>)
    ensures
        0 <= delta::fault_index(faults) <= faults.len(),
        delta::fault_index(faults) < faults.len() ==> faults[delta::fault_index(faults)] is Some,
        delta::first_fault(faults) is None ==> delta::fault_index(faults) == faults.len(),
    decreases faults.len(),
{
    if faults.len() > 0 && !(faults[0] is Some) {
        lemma_no_fault(faults.drop_first());
        let k = delta::fault_index(faults.drop_first());
        if k < faults.len() - 1 {
            assert(faults.drop_first()[k] == faults[k + 1]);
        }
    }
}

/// Every arriving block stands in the topology with its rows.
spec fn stand(now: LiveIndex, upserts: Seq<LiveBlock>) -> bool {
    forall|j: int, s: int|
        0 <= j < upserts.len() && 0 <= s < upserts[j].rows@.len() ==> (
        #[trigger] now.absolute_of(upserts[j].meta.key@, s)) is Some
}

proof fn lemma_stand(
    before: HistoryAppState,
    delta: LiveDelta,
    facts: GraphFacts,
    viewport: Viewport,
    now: LiveIndex,
)
    requires
        now.wf(),
        edits::accepts(before.topology->Live_0, delta, before.expanded_keys@),
        delta::topology_edited(before, delta, facts, viewport, now),
    ensures
        stand(now, delta.upserts@),
{
    let index = before.topology->Live_0;
    let top = HistoryAppState::top_of(viewport);
    let places = delta::viewed(before, index, top, before.bottom_of(viewport) + 1);
    let edited = choose|edited: LiveIndex| #[trigger]
        edits::edited(index, delta, before.expanded_keys@, facts, edited) && now.blocks@
            == delta::exposed_blocks(edited.blocks@, places) && now.groups == edited.groups
            && now.revision == edited.revision && now.epoch == edited.epoch && now.foldable
            == edited.foldable;
    lemma_accepted(index, delta, before.expanded_keys@);
    assert forall|j: int, s: int|
        0 <= j < delta.upserts@.len() && 0 <= s < delta.upserts@[j].rows@.len() implies (
    #[trigger] now.absolute_of(delta.upserts@[j].meta.key@, s)) is Some by {
        lemma_stands(index, delta, before.expanded_keys@, facts, edited, now, places, j, s);
    }
}

proof fn lemma_stands(
    index: LiveIndex,
    delta: LiveDelta,
    expanded: Seq<String>,
    facts: GraphFacts,
    edited: LiveIndex,
    now: LiveIndex,
    places: Seq<(Seq<char>, int)>,
    j: int,
    s: int,
)
    requires
        now.wf(),
        arrive_once(delta.upserts@),
        edits::edited(index, delta, expanded, facts, edited),
        now.blocks@ == delta::exposed_blocks(edited.blocks@, places),
        0 <= j < delta.upserts@.len(),
        0 <= s < delta.upserts@[j].meta.row_count,
    ensures
        now.absolute_of(delta.upserts@[j].meta.key@, s) is Some,
{
    let key = delta.upserts@[j].meta.key@;
    assert(edits::has_block(edited.blocks@, key));
    let i = choose|i: int|
        0 <= i < edited.blocks@.len() && (#[trigger] edited.blocks@[i]).meta.key@ == key;
    assert(edits::edited_block(index, delta, expanded, facts.changed@, edited, edited.blocks@[i]));
    assert(edits::upserted(delta.upserts@, key));
    assert(now.blocks@[i].meta == edited.blocks@[i].meta);
    let k = choose|k: int|
        0 <= k < delta.upserts@.len() && #[trigger] edits::prepared_from(
            edited.blocks@[i],
            delta.upserts@[k],
            expanded,
        );
    assert(delta.upserts@[k].meta@.key == key);
    if k != j {
        assert(delta.upserts@[k].meta.key@ != delta.upserts@[j].meta.key@);
    }
    live::lemma_place(now.blocks@, key, 0);
    let p = live::place(now.blocks@, key, 0);
    if p < i {
        assert(now.blocks@[p].meta.key@ != now.blocks@[i].meta.key@);
    }
}

/// What the rows hold at a coordinate once they were rearranged.
proof fn lemma_holds(
    index: LiveIndex,
    now: LiveIndex,
    delta: LiveDelta,
    facts: GraphFacts,
    rows: Seq<(int, RowInput)>,
    after: Seq<(int, RowInput)>,
    row: int,
)
    requires
        index.wf(),
        now.wf(),
        sorted(rows),
        rearranged(index, now, delta, facts, rows, after),
    ensures
        forall|j: int, s: int|
            0 <= j < delta.upserts@.len() && 0 <= s < delta.upserts@[j].rows@.len()
                && #[trigger] lands(now, delta.upserts@, j, s, row) ==> content_at(after, row)
                == Some(
                delta::decorated_input(
                    now,
                    facts,
                    row,
                    delta::moved_input(RowInput { source: delta.upserts@[j].rows@[s] }, s, row),
                ),
            ),
        (forall|j: int, s: int|
            0 <= j < delta.upserts@.len() && 0 <= s < delta.upserts@[j].rows@.len()
                ==> !#[trigger] lands(now, delta.upserts@, j, s, row)) ==> {
            &&& forall|i: int|
                0 <= i < rows.len() && delta::destination(index, now, delta, (
                #[trigger] rows[i]).0) == Some(row) ==> content_at(after, row) == Some(
                    delta::decorated_input(
                        now,
                        facts,
                        row,
                        delta::moved_input(rows[i].1, rows[i].0, row),
                    ),
                )
            &&& content_at(after, row) is Some ==> exists|i: int|
                0 <= i < rows.len() && delta::destination(index, now, delta, (
                #[trigger] rows[i]).0) == Some(row)
        },
        content_at(after, row) is Some ==> now.position_of(row) is Some,
{
    let upserts = delta.upserts@;
    let whole = delta::moved_rows(index, now, delta, rows, rows.len() as int);
    let arrived = delta::with_arrivals(now, whole, upserts, upserts.len() as int);
    lemma_moved(index, now, delta, rows, rows.len() as int, row);
    lemma_arrivals_placed(now, whole, upserts, upserts.len() as int, row);
    lemma_decorated(now, facts, arrived, arrived.len() as int, row);
    lemma_slot(arrived, row);
    let at = delta::content_slot(arrived, row);
    assert forall|j: int, s: int|
        0 <= j < delta.upserts@.len() && 0 <= s < delta.upserts@[j].rows@.len()
            && #[trigger] lands(now, delta.upserts@, j, s, row) implies content_at(after, row)
        == Some(
        delta::decorated_input(
            now,
            facts,
            row,
            delta::moved_input(RowInput { source: delta.upserts@[j].rows@[s] }, s, row),
        ),
    ) by {
        now.position_undoes_absolute(upserts[j].meta.key@, s);
        assert(arrived[at].0 == row);
    }
    if forall|j: int, s: int|
        0 <= j < delta.upserts@.len() && 0 <= s < delta.upserts@[j].rows@.len()
            ==> !#[trigger] lands(now, delta.upserts@, j, s, row) {
        assert forall|i: int|
            0 <= i < rows.len() && delta::destination(index, now, delta, (#[trigger] rows[i]).0)
                == Some(row) implies content_at(after, row) == Some(
            delta::decorated_input(
                now,
                facts,
                row,
                delta::moved_input(rows[i].1, rows[i].0, row),
            ),
        ) by {
            let (key, slot) = index.position_of(rows[i].0)->0;
            now.position_undoes_absolute(key, slot);
            assert(arrived[at].0 == row);
        }
        if content_at(after, row) is Some {
            let k = choose|k: int| 0 <= k < arrived.len() && (#[trigger] arrived[k]).0 == row;
            lemma_found(arrived, k);
        }
    }
}

/// An arriving row stands where its block stands, and its parent is the row of the same
/// block that it names, as far as a machine can number it.
pub proof fn arriving_rows_take_their_places(
    before: HistoryAppState,
    delta: LiveDelta,
    facts: GraphFacts,
    viewport: Viewport,
    after: HistoryAppState,
    moved: Viewport,
    j: int,
    s: int,
)
    requires
        before.wf(),
        after.wf(),
        delta::delta_applied(before, delta, facts, viewport, after, moved),
        0 <= j < delta.upserts@.len(),
        0 <= s < delta.upserts@[j].rows@.len(),
    ensures
        ({
            let now = after.topology->Live_0;
            let key = delta.upserts@[j].meta.key@;
            let arriving = delta.upserts@[j].rows@[s];
            &&& now.absolute_of(key, s) is Some
            &&& after.cache.at(now.absolute_of(key, s)->0) matches Some(entry)
            &&& same_content(entry.row.source, arriving)
            &&& match arriving.parent_row {
                Some(parent) => {
                    &&& parent < s
                    &&& now.absolute_of(key, parent as int) matches Some(row)
                    &&& now.position_of(row) == Some((key, parent as int))
                    &&& entry.row.source.parent_row == (if row <= usize::MAX {
                        Some(row as usize)
                    } else {
                        None
                    })
                },
                None => entry.row.source.parent_row is None,
            }
        }),
{
    let index = before.topology->Live_0;
    let now = after.topology->Live_0;
    lemma_rearranged(before, delta, facts, viewport, after, moved);
    lemma_stand(before, delta, facts, viewport, now);
    lemma_retained(before, 0);
    let row = now.absolute_of(delta.upserts@[j].meta.key@, s)->0;
    lemma_retained(after, row);
    lemma_arriving(
        index,
        now,
        delta,
        facts,
        delta::contents(before.cache.rows@),
        delta::contents(after.cache.rows@),
        j,
        s,
    );
}

proof fn lemma_arriving(
    index: LiveIndex,
    now: LiveIndex,
    delta: LiveDelta,
    facts: GraphFacts,
    rows: Seq<(int, RowInput)>,
    after: Seq<(int, RowInput)>,
    j: int,
    s: int,
)
    requires
        index.wf(),
        now.wf(),
        sorted(rows),
        rearranged(index, now, delta, facts, rows, after),
        stand(now, delta.upserts@),
        0 <= j < delta.upserts@.len(),
        0 <= s < delta.upserts@[j].rows@.len(),
    ensures
        ({
            let key = delta.upserts@[j].meta.key@;
            let arriving = delta.upserts@[j].rows@[s];
            &&& now.absolute_of(key, s) is Some
            &&& content_at(after, now.absolute_of(key, s)->0) matches Some(input)
            &&& same_content(input.source, arriving)
            &&& match arriving.parent_row {
                Some(parent) => {
                    &&& parent < s
                    &&& now.absolute_of(key, parent as int) matches Some(row)
                    &&& now.position_of(row) == Some((key, parent as int))
                    &&& input.source.parent_row == (if row <= usize::MAX {
                        Some(row as usize)
                    } else {
                        None
                    })
                },
                None => input.source.parent_row is None,
            }
        }),
{
    let upserts = delta.upserts@;
    let key = upserts[j].meta.key@;
    let arriving = upserts[j].rows@[s];
    assert(now.absolute_of(upserts[j].meta.key@, s) is Some);
    let row = now.absolute_of(key, s)->0;
    lemma_holds(index, now, delta, facts, rows, after, row);
    assert(lands(now, upserts, j, s, row));
    now.position_undoes_absolute(key, s);
    live::lemma_slot_in_range(now, key, s);
    if let Some(parent) = arriving.parent_row {
        assert(edits::parents_precede(upserts[j], upserts[j].rows@.len() as int));
        assert(parent < s);
        assert(now.absolute_of(upserts[j].meta.key@, parent as int) is Some);
        now.position_undoes_absolute(key, parent as int);
        live::lemma_slot_in_range(now, key, parent as int);
    }
}

/// A retained row whose block the edit leaves alone moves with its block, and its
/// parent stays as far away as it was.
pub proof fn rows_of_other_blocks_move_along(
    before: HistoryAppState,
    delta: LiveDelta,
    facts: GraphFacts,
    viewport: Viewport,
    after: HistoryAppState,
    moved: Viewport,
    old: int,
    key: Seq<char>,
    slot: int,
    new: int,
)
    requires
        before.wf(),
        after.wf(),
        delta::delta_applied(before, delta, facts, viewport, after, moved),
        before.cache.at(old) is Some,
        before.topology->Live_0.position_of(old) == Some((key, slot)),
        !live::lists(delta.removed@, key),
        forall|j: int| 0 <= j < delta.upserts@.len() ==> (#[trigger] delta.upserts@[j]).meta.key@
            != key,
        after.topology->Live_0.absolute_of(key, slot) == Some(new),
    ensures
        ({
            let was = before.cache.at(old)->0.row.source;
            &&& after.cache.at(new) matches Some(entry)
            &&& same_content(entry.row.source, was)
            &&& match was.parent_row {
                Some(parent) => parent <= i64::MAX && 0 <= new - (old - parent) <= i64::MAX && new
                    - (old - parent) <= usize::MAX ==> entry.row.source.parent_row == Some(
                    (new - (old - parent)) as usize,
                ),
                None => entry.row.source.parent_row is None,
            }
        }),
{
    let index = before.topology->Live_0;
    let now = after.topology->Live_0;
    let rows = delta::contents(before.cache.rows@);
    lemma_rearranged(before, delta, facts, viewport, after, moved);
    lemma_retained(before, old);
    lemma_retained(after, new);
    lemma_staying(
        index,
        now,
        delta,
        facts,
        rows,
        delta::contents(after.cache.rows@),
        old,
        key,
        slot,
        new,
    );
}

proof fn lemma_staying(
    index: LiveIndex,
    now: LiveIndex,
    delta: LiveDelta,
    facts: GraphFacts,
    rows: Seq<(int, RowInput)>,
    after: Seq<(int, RowInput)>,
    old: int,
    key: Seq<char>,
    slot: int,
    new: int,
)
    requires
        index.wf(),
        now.wf(),
        sorted(rows),
        rearranged(index, now, delta, facts, rows, after),
        content_at(rows, old) is Some,
        index.position_of(old) == Some((key, slot)),
        !live::lists(delta.removed@, key),
        forall|j: int| 0 <= j < delta.upserts@.len() ==> (#[trigger] delta.upserts@[j]).meta.key@
            != key,
        now.absolute_of(key, slot) == Some(new),
    ensures
        ({
            let was = content_at(rows, old)->0;
            content_at(after, new) == Some(
                delta::decorated_input(now, facts, new, delta::moved_input(was, old, new)),
            )
        }),
{
    lemma_slot(rows, old);
    let i = delta::content_slot(rows, old);
    assert(rows[i].0 == old);
    assert(!edits::touched(delta, key));
    assert(delta::destination(index, now, delta, rows[i].0) == Some(new));
    lemma_holds(index, now, delta, facts, rows, after, new);
    now.position_undoes_absolute(key, slot);
    assert forall|j: int, s: int|
        0 <= j < delta.upserts@.len() && 0 <= s < delta.upserts@[j].rows@.len() implies !
    #[trigger] lands(now, delta.upserts@, j, s, new) by {
        if lands(now, delta.upserts@, j, s, new) {
            now.position_undoes_absolute(delta.upserts@[j].meta.key@, s);
            assert(delta.upserts@[j].meta.key@ != key);
        }
    }
}

/// Nothing is retained after an edit but what it brings and what was retained of the
/// blocks that it leaves alone.
pub proof fn nothing_else_is_retained(
    before: HistoryAppState,
    delta: LiveDelta,
    facts: GraphFacts,
    viewport: Viewport,
    after: HistoryAppState,
    moved: Viewport,
    row: int,
)
    requires
        before.wf(),
        after.wf(),
        delta::delta_applied(before, delta, facts, viewport, after, moved),
        after.cache.at(row) is Some,
    ensures
        after.topology->Live_0.position_of(row) is Some,
        ({
            let (key, slot) = after.topology->Live_0.position_of(row)->0;
            ||| exists|j: int|
                0 <= j < delta.upserts@.len() && (#[trigger] delta.upserts@[j]).meta.key@ == key
            ||| {
                &&& !live::lists(delta.removed@, key)
                &&& before.topology->Live_0.absolute_of(key, slot) matches Some(old)
                    && before.cache.at(old) is Some
            }
        }),
{
    let index = before.topology->Live_0;
    let now = after.topology->Live_0;
    let rows = delta::contents(before.cache.rows@);
    lemma_rearranged(before, delta, facts, viewport, after, moved);
    lemma_retained(before, 0);
    lemma_retained(after, row);
    let (key, slot) = now.position_of(row)->0;
    lemma_origin(index, now, delta, facts, rows, delta::contents(after.cache.rows@), row);
    if index.absolute_of(key, slot) is Some {
        lemma_retained(before, index.absolute_of(key, slot)->0);
    }
}

proof fn lemma_origin(
    index: LiveIndex,
    now: LiveIndex,
    delta: LiveDelta,
    facts: GraphFacts,
    rows: Seq<(int, RowInput)>,
    after: Seq<(int, RowInput)>,
    row: int,
)
    requires
        index.wf(),
        now.wf(),
        sorted(rows),
        rearranged(index, now, delta, facts, rows, after),
        content_at(after, row) is Some,
    ensures
        now.position_of(row) is Some,
        ({
            let (key, slot) = now.position_of(row)->0;
            ||| exists|j: int|
                0 <= j < delta.upserts@.len() && (#[trigger] delta.upserts@[j]).meta.key@ == key
            ||| {
                &&& !live::lists(delta.removed@, key)
                &&& index.absolute_of(key, slot) matches Some(old) && content_at(rows, old) is Some
            }
        }),
{
    lemma_holds(index, now, delta, facts, rows, after, row);
    let upserts = delta.upserts@;
    let (key, slot) = now.position_of(row)->0;
    if forall|j: int| 0 <= j < upserts.len() ==> (#[trigger] upserts[j]).meta.key@ != key {
        assert forall|j: int, s: int|
            0 <= j < upserts.len() && 0 <= s < upserts[j].rows@.len() implies !
        #[trigger] lands(now, upserts, j, s, row) by {
            if lands(now, upserts, j, s, row) {
                now.position_undoes_absolute(upserts[j].meta.key@, s);
                assert(upserts[j].meta.key@ != key);
            }
        }
        let i = choose|i: int|
            0 <= i < rows.len() && delta::destination(index, now, delta, (#[trigger] rows[i]).0)
                == Some(row);
        let old = rows[i].0;
        let (name, place) = index.position_of(old)->0;
        now.position_undoes_absolute(name, place);
        index.absolute_undoes_position(old);
        lemma_found(rows, i);
        assert(!edits::touched(delta, name));
    }
}

proof fn lemma_arrival(upserts: Seq<LiveBlock>, key: Seq<char>, from: int)
    requires
        0 <= from <= upserts.len(),
    ensures
        from <= delta::arrival(upserts, key, from) <= upserts.len(),
        forall|k: int|
            from <= k < delta::arrival(upserts, key, from) ==> (#[trigger] upserts[k]).meta.key@
                != key,
        delta::arrival(upserts, key, from) < upserts.len() ==> upserts[delta::arrival(
            upserts,
            key,
            from,
        )].meta.key@ == key,
    decreases upserts.len() - from,
{
    if from < upserts.len() && upserts[from].meta.key@ != key {
        lemma_arrival(upserts, key, from + 1);
    }
}

proof fn lemma_row_with(rows: Seq<HistoryRow>, continuity: Option<Seq<char>>, from: int)
    requires
        0 <= from <= rows.len(),
    ensures
        from <= delta::row_with(rows, continuity, from) <= rows.len(),
        forall|k: int|
            from <= k < delta::row_with(rows, continuity, from) ==> Some(
                (#[trigger] rows[k]).continuity_key@,
            ) != continuity,
        delta::row_with(rows, continuity, from) < rows.len() ==> Some(
            rows[delta::row_with(rows, continuity, from)].continuity_key@,
        ) == continuity,
    decreases rows.len() - from,
{
    if from < rows.len() && Some(rows[from].continuity_key@) != continuity {
        lemma_row_with(rows, continuity, from + 1);
    }
}

/// Whether `now` is where the row at slot `slot` of a block is found after a revision. A
/// row of a block that does not arrive keeps its slot. One of a block that arrives is
/// found at the first arriving row with its lasting identity, or at the first row of the
/// block where none has it.
pub open spec fn followed(
    delta: LiveDelta,
    key: Seq<char>,
    slot: int,
    continuity: Option<Seq<char>>,
    now: int,
) -> bool {
    if exists|j: int|
        0 <= j < delta.upserts@.len() && (#[trigger] delta.upserts@[j]).meta.key@ == key {
        exists|j: int|
            {
                &&& 0 <= j < delta.upserts@.len()
                &&& (#[trigger] delta.upserts@[j]).meta.key@ == key
                &&& ({
                    let rows = delta.upserts@[j].rows@;
                    ||| 0 <= now < rows.len() && Some(rows[now].continuity_key@) == continuity && (
                    forall|s: int|
                        0 <= s < now ==> Some((#[trigger] rows[s]).continuity_key@) != continuity)
                    ||| now == 0 && (forall|s: int|
                        0 <= s < rows.len() ==> Some((#[trigger] rows[s]).continuity_key@)
                            != continuity)
                })
            }
    } else {
        now == slot
    }
}

proof fn lemma_followed(
    delta: LiveDelta,
    key: Seq<char>,
    slot: int,
    continuity: Option<Seq<char>>,
)
    ensures
        delta::remapped(Some((key, slot)), continuity, delta) matches Some(place) && place.0 == key
            && followed(delta, key, slot, continuity, place.1),
{
    let j = delta::arrival(delta.upserts@, key, 0);
    lemma_arrival(delta.upserts@, key, 0);
    if j < delta.upserts@.len() {
        let rows = delta.upserts@[j].rows@;
        lemma_row_with(rows, continuity, 0);
        assert(delta.upserts@[j].meta.key@ == key);
    }
}

/// What is known of the retained row at a coordinate: its lasting identity.
pub open spec fn identity_at(state: HistoryAppState, row: int) -> Option<Seq<char>> {
    match state.cache.at(row) {
        Some(entry) => Some(entry.row.source.continuity_key@),
        None => None,
    }
}

proof fn lemma_focus(
    before: HistoryAppState,
    delta: LiveDelta,
    facts: GraphFacts,
    after: HistoryAppState,
    key: Seq<char>,
    slot: int,
) -> (now: int)
    requires
        delta::view_edited(before, delta, facts, after),
        before.selection.roving is Some,
        before.topology->Live_0.position_of(before.selection.roving->0@) == Some((key, slot)),
    ensures
        followed(delta, key, slot, identity_at(before, before.selection.roving->0@), now),
        match after.topology->Live_0.absolute_of(key, now) {
            Some(row) => after.selection.roving matches Some(roving) && roving@ == row,
            None => after.selection.roving is None,
        },
{
    let row = before.selection.roving->0@;
    lemma_followed(delta, key, slot, identity_at(before, row));
    let place = delta::remapped(Some((key, slot)), identity_at(before, row), delta)->0;
    assert(delta::row_place(before.topology->Live_0, Some(row)) == Some((key, slot)));
    assert(delta::continuity_at(before, Some(row)) == identity_at(before, row));
    place.1
}

/// The keyboard focus follows its row through a revision, wherever the revision puts it,
/// and is given up where its block is gone.
pub proof fn the_focus_follows_its_row(
    before: HistoryAppState,
    delta: LiveDelta,
    facts: GraphFacts,
    viewport: Viewport,
    after: HistoryAppState,
    moved: Viewport,
    key: Seq<char>,
    slot: int,
) -> (now: int)
    requires
        delta::delta_applied(before, delta, facts, viewport, after, moved),
        before.selection.roving is Some,
        before.topology->Live_0.position_of(before.selection.roving->0@) == Some((key, slot)),
    ensures
        followed(delta, key, slot, identity_at(before, before.selection.roving->0@), now),
        match after.topology->Live_0.absolute_of(key, now) {
            Some(row) => after.selection.roving matches Some(roving) && roving@ == row,
            None => after.selection.roving is None,
        },
{
    lemma_focus(before, delta, facts, after, key, slot)
}

/// The row at the top of a scrolled viewport follows through a revision: wherever it is
/// shown afterwards, it is as far from the top edge as before.
pub proof fn the_top_row_follows(
    before: HistoryAppState,
    delta: LiveDelta,
    facts: GraphFacts,
    viewport: Viewport,
    after: HistoryAppState,
    moved: Viewport,
    row: int,
    key: Seq<char>,
    slot: int,
) -> (now: int)
    requires
        delta::delta_applied(before, delta, facts, viewport, after, moved),
        after.wf(),
        viewport.scroll_top@ > 0,
        before.row_at(viewport.scroll_top@ / ROW_H as int) == Some(row),
        before.topology->Live_0.position_of(row) == Some((key, slot)),
    ensures
        followed(delta, key, slot, identity_at(before, row), now),
        moved.client_height@ == viewport.client_height@,
        match after.topology->Live_0.absolute_of(key, now) {
            Some(new_row) => match after.visible_of(new_row) {
                Some(visible) => moved.scroll_top@ - visible * ROW_H == viewport.scroll_top@ % (
                ROW_H as int),
                None => true,
            },
            None => true,
        },
{
    lemma_followed(delta, key, slot, identity_at(before, row));
    let place = delta::remapped(Some((key, slot)), identity_at(before, row), delta)->0;
    if let Some(new_row) = after.topology->Live_0.absolute_of(key, place.1) {
        if let Some(visible) = after.visible_of(new_row) {
            delta::the_first_viewed_row_keeps_its_place(
                before,
                delta,
                facts,
                viewport,
                after,
                moved,
                new_row,
                visible,
            );
        }
    }
    place.1
}

/// A list that is scrolled to its top stays at its top.
pub proof fn the_top_of_the_list_stays(
    before: HistoryAppState,
    delta: LiveDelta,
    facts: GraphFacts,
    viewport: Viewport,
    after: HistoryAppState,
    moved: Viewport,
)
    requires
        delta::delta_applied(before, delta, facts, viewport, after, moved),
        viewport.scroll_top@ == 0,
    ensures
        moved.scroll_top@ == 0,
{
}

proof fn lemma_node_in_block(
    rows: Seq<HistoryRow>,
    continuity: Option<Seq<char>>,
    node: Option<Seq<char>>,
    n: int,
    last: int,
)
    requires
        -1 <= last < n <= rows.len() || last == -1 && n == 0,
        last >= 0 ==> Some(rows[last].continuity_key@) == continuity,
        forall|s: int|
            last < s < n ==> Some((#[trigger] rows[s]).continuity_key@) != continuity,
    ensures
        delta::node_in_block(rows, continuity, node, n) == (if last >= 0 {
            Some(rows[last].node_key@)
        } else {
            node
        }),
    decreases n,
{
    if n > last + 1 {
        assert(Some(rows[n - 1].continuity_key@) != continuity);
        lemma_node_in_block(rows, continuity, node, n - 1, last);
    }
}

proof fn lemma_node_after(
    upserts: Seq<LiveBlock>,
    continuity: Option<Seq<char>>,
    node: Option<Seq<char>>,
    from: int,
    n: int,
)
    requires
        0 <= from <= n <= upserts.len(),
        forall|j: int, s: int|
            #![trigger upserts[j].rows@[s]]
            from <= j < n && 0 <= s < upserts[j].rows@.len() ==> Some(
                upserts[j].rows@[s].continuity_key@,
            ) != continuity,
    ensures
        delta::node_after(upserts, continuity, node, n) == delta::node_after(
            upserts,
            continuity,
            node,
            from,
        ),
    decreases n,
{
    if n > from {
        lemma_node_after(upserts, continuity, node, from, n - 1);
        let rows = upserts[n - 1].rows@;
        assert forall|s: int| -1 < s < rows.len() implies Some(
            (#[trigger] rows[s]).continuity_key@,
        ) != continuity by {
            assert(upserts[n - 1].rows@[s] == rows[s]);
        }
        lemma_node_in_block(
            rows,
            continuity,
            delta::node_after(upserts, continuity, node, n - 1),
            rows.len() as int,
            -1,
        );
    }
}

/// A selection whose lasting identity stays in the history keeps it. It names the node
/// of the last arriving row with that identity, and the same node as before where no
/// such row arrives.
pub proof fn the_selection_follows_its_row(
    before: HistoryAppState,
    delta: LiveDelta,
    facts: GraphFacts,
    viewport: Viewport,
    after: HistoryAppState,
    moved: Viewport,
    continuity: Seq<char>,
    j: int,
    s: int,
)
    requires
        delta::delta_applied(before, delta, facts, viewport, after, moved),
        before.selection.continuity_key matches Some(key) && key@ == continuity,
        !delta::retires(continuity, delta),
        -1 <= j < delta.upserts@.len(),
        j >= 0 ==> 0 <= s < delta.upserts@[j].rows@.len() && delta.upserts@[j].rows@[s].continuity_key@
            == continuity,
        j >= 0 ==> forall|t: int|
            s < t < delta.upserts@[j].rows@.len() ==> (
            #[trigger] delta.upserts@[j].rows@[t]).continuity_key@ != continuity,
        forall|i: int, t: int|
            #![trigger delta.upserts@[i].rows@[t]]
            j < i < delta.upserts@.len() && 0 <= t < delta.upserts@[i].rows@.len()
                ==> delta.upserts@[i].rows@[t].continuity_key@ != continuity,
    ensures
        after.selection.continuity_key matches Some(key) && key@ == continuity,
        j >= 0 ==> (after.selection.node_key matches Some(node) && node@
            == delta.upserts@[j].rows@[s].node_key@),
        j == -1 ==> (match before.selection.node_key {
            Some(old) => after.selection.node_key matches Some(node) && node@ == old@,
            None => after.selection.node_key is None,
        }),
{
    let upserts = delta.upserts@;
    let node = delta::owned_text(before.selection.node_key);
    assert(delta::view_edited(before, delta, facts, after));
    assert(delta::owned_text(before.selection.continuity_key) == Some(continuity));
    lemma_node_after(upserts, Some(continuity), node, j + 1, upserts.len() as int);
    if j >= 0 {
        let rows = upserts[j].rows@;
        lemma_node_in_block(
            rows,
            Some(continuity),
            delta::node_after(upserts, Some(continuity), node, j),
            rows.len() as int,
            s,
        );
    }
    assert(delta::owned_text(after.selection.continuity_key) == Some(continuity));
}

/// Whether an identity is that of a block, or of one of its rows: the key of the block
/// and a colon, and more behind it.
pub open spec fn belongs(continuity: Seq<char>, key: Seq<char>) -> bool {
    ||| continuity == key
    ||| continuity.len() > key.len() && continuity.take(key.len() as int) == key
        && continuity[key.len() as int] == ':'
}

proof fn lemma_belongs(continuity: Seq<char>, key: Seq<char>)
    ensures
        delta::owns(key, continuity) == belongs(continuity, key),
{
    let head = key.push(':');
    if head.is_prefix_of(continuity) {
        assert(head[key.len() as int] == ':');
        assert forall|i: int| 0 <= i < key.len() implies continuity[i] == #[trigger] key[i] by {
            assert(head[i] == key[i]);
        }
        assert(continuity.take(key.len() as int) =~= key);
    }
    if continuity.len() > key.len() && continuity.take(key.len() as int) == key
        && continuity[key.len() as int] == ':' {
        assert(head =~= continuity.take(key.len() as int + 1)) by {
            assert forall|i: int| 0 <= i < key.len() implies #[trigger] head[i] == continuity[i] by {
                assert(continuity.take(key.len() as int)[i] == key[i]);
            }
        }
        assert(head.is_prefix_of(continuity));
    }
}

/// An identity leaves the history exactly where its block is removed, or arrives without
/// a row of that identity.
pub proof fn identities_leave_with_their_blocks(continuity: Seq<char>, delta: LiveDelta)
    ensures
        delta::retires(continuity, delta) <==> (exists|i: int|
            0 <= i < delta.removed@.len() && belongs(continuity, (#[trigger] delta.removed@[i])@))
            || (exists|i: int|
            0 <= i < delta.upserts@.len() && belongs(
                continuity,
                (#[trigger] delta.upserts@[i]).meta.key@,
            ) && forall|s: int|
                0 <= s < delta.upserts@[i].rows@.len() ==> (
                #[trigger] delta.upserts@[i].rows@[s]).continuity_key@ != continuity),
{
    assert forall|key: Seq<char>| #[trigger]
        delta::owns(key, continuity) == belongs(continuity, key) by {
        lemma_belongs(continuity, key);
    }
    if exists|i: int| 0 <= i < delta.removed@.len() && belongs(
        continuity,
        (#[trigger] delta.removed@[i])@,
    ) {
        let i = choose|i: int|
            0 <= i < delta.removed@.len() && belongs(continuity, (#[trigger] delta.removed@[i])@);
        assert(delta::owns(delta.removed@[i]@, continuity));
    }
    assert forall|i: int|
        0 <= i < delta.upserts@.len() && belongs(
            continuity,
            (#[trigger] delta.upserts@[i]).meta.key@,
        ) && (forall|s: int|
            0 <= s < delta.upserts@[i].rows@.len() ==> (
            #[trigger] delta.upserts@[i].rows@[s]).continuity_key@ != continuity) implies
        delta::retires(continuity, delta) by {
        assert(delta::owns(delta.upserts@[i].meta.key@, continuity));
        assert(!delta::carries(delta.upserts@[i].rows@, continuity));
    }
}

/// A revision takes over the snapshot, the length of the history and its highest lane. It
/// starts a new generation of the view, so nothing is awaited any more, and leaves the
/// search, the drawn window, and the disclosed rows alone.
pub proof fn a_revision_takes_over_the_snapshot(
    before: HistoryAppState,
    delta: LiveDelta,
    facts: GraphFacts,
    viewport: Viewport,
    after: HistoryAppState,
    moved: Viewport,
)
    requires
        delta::delta_applied(before, delta, facts, viewport, after, moved),
    ensures
        after.snapshot_id == delta.snapshot_id,
        after.total == Some(delta.total as i64),
        after.max_lane == delta.max_lane,
        before.view_gen < u64::MAX ==> after.view_gen == before.view_gen + 1,
        after.requests@.len() == 0,
        after.find == before.find,
        after.render_top == before.render_top,
        after.render_bottom == before.render_bottom,
        after.expanded_keys == before.expanded_keys,
        after.remote == before.remote,
{
}

proof fn lemma_geometry(facts: GraphFacts, key: Seq<char>, slot: int, from: int)
    requires
        0 <= from <= facts.geometry@.len(),
    ensures
        from <= delta::geometry_at(facts, key, slot, from) <= facts.geometry@.len(),
        forall|k: int|
            from <= k < delta::geometry_at(facts, key, slot, from) ==> !((
            #[trigger] facts.geometry@[k]).key@ == key && facts.geometry@[k].slot == slot),
        ({
            let g = delta::geometry_at(facts, key, slot, from);
            g < facts.geometry@.len() ==> facts.geometry@[g].key@ == key && facts.geometry@[g].slot
                == slot
        }),
    decreases facts.geometry@.len() - from,
{
    if from < facts.geometry@.len() && !(facts.geometry@[from].key@ == key
        && facts.geometry@[from].slot == slot) {
        lemma_geometry(facts, key, slot, from + 1);
    }
}

proof fn lemma_dressed(
    index: LiveIndex,
    now: LiveIndex,
    delta: LiveDelta,
    facts: GraphFacts,
    rows: Seq<(int, RowInput)>,
    after: Seq<(int, RowInput)>,
    row: int,
) -> (input: RowInput)
    requires
        index.wf(),
        now.wf(),
        sorted(rows),
        rearranged(index, now, delta, facts, rows, after),
        content_at(after, row) is Some,
    ensures
        content_at(after, row) == Some(delta::decorated_input(now, facts, row, input)),
{
    lemma_holds(index, now, delta, facts, rows, after, row);
    let upserts = delta.upserts@;
    if exists|j: int, s: int|
        0 <= j < upserts.len() && 0 <= s < upserts[j].rows@.len() && #[trigger] lands(
            now,
            upserts,
            j,
            s,
            row,
        ) {
        let (j, s) = choose|j: int, s: int|
            0 <= j < upserts.len() && 0 <= s < upserts[j].rows@.len() && #[trigger] lands(
                now,
                upserts,
                j,
                s,
                row,
            );
        delta::moved_input(RowInput { source: upserts[j].rows@[s] }, s, row)
    } else {
        let i = choose|i: int|
            0 <= i < rows.len() && delta::destination(index, now, delta, (#[trigger] rows[i]).0)
                == Some(row);
        delta::moved_input(rows[i].1, rows[i].0, row)
    }
}

/// A retained row has the lanes and the size that the graph first gives for its place.
pub proof fn rows_take_the_geometry_of_the_graph(
    before: HistoryAppState,
    delta: LiveDelta,
    facts: GraphFacts,
    viewport: Viewport,
    after: HistoryAppState,
    moved: Viewport,
    row: int,
    g: int,
)
    requires
        before.wf(),
        after.wf(),
        delta::delta_applied(before, delta, facts, viewport, after, moved),
        after.cache.at(row) is Some,
        0 <= g < facts.geometry@.len(),
        after.topology->Live_0.position_of(row) == Some(
            (facts.geometry@[g].key@, facts.geometry@[g].slot as int),
        ),
        forall|k: int|
            0 <= k < g ==> !((#[trigger] facts.geometry@[k]).key@ == facts.geometry@[g].key@
                && facts.geometry@[k].slot == facts.geometry@[g].slot),
    ensures
        after.cache.at(row)->0.row.source.max_lane == facts.geometry@[g].max_lane,
        after.cache.at(row)->0.row.source.encoded == facts.geometry@[g].encoded,
{
    let now = after.topology->Live_0;
    lemma_rearranged(before, delta, facts, viewport, after, moved);
    lemma_retained(before, 0);
    lemma_retained(after, row);
    let input = lemma_dressed(
        before.topology->Live_0,
        now,
        delta,
        facts,
        delta::contents(before.cache.rows@),
        delta::contents(after.cache.rows@),
        row,
    );
    lemma_geometry(facts, facts.geometry@[g].key@, facts.geometry@[g].slot as int, 0);
    let found = delta::geometry_at(facts, facts.geometry@[g].key@, facts.geometry@[g].slot as int, 0);
    if found < g {
        assert(facts.geometry@[found].key@ == facts.geometry@[g].key@);
    }
    assert(found == g);
}

/// An update for another epoch, or for a view without a live history, is refused and
/// changes nothing; a remote view leaves every update to its host.
pub proof fn updates_of_other_histories_change_nothing(
    before: HistoryAppState,
    update: LiveUpdate,
    facts: Seq<GraphFacts>,
    viewport: Viewport,
    step: Step,
    after: HistoryAppState,
    stepped: Step,
    outcome: Result<UpdateOutcome, ServiceError>,
)
    requires
        delta::update_result(before, update, facts, viewport, step, after, stepped, outcome),
        before.remote || !(before.topology is Live) || before.topology->Live_0.epoch.value@
            != update.epoch.value@,
    ensures
        after == before,
        stepped == step,
        before.remote <==> outcome matches Ok(UpdateOutcome::Remote),
        !before.remote <==> outcome is Err,
{
}

/// An update that is applied brings the view to its revision. If that is a new one, the
/// header is drawn again and an active query is searched again; if not, the host is told
/// that the snapshot is settled.
pub proof fn applied_updates_reach_their_revision(
    before: HistoryAppState,
    update: LiveUpdate,
    facts: Seq<GraphFacts>,
    viewport: Viewport,
    step: Step,
    after: HistoryAppState,
    stepped: Step,
    outcome: Result<UpdateOutcome, ServiceError>,
)
    requires
        delta::update_result(before, update, facts, viewport, step, after, stepped, outcome),
        !before.remote,
        outcome is Ok,
    ensures
        before.topology is Live,
        delta::revision_of(after) == update.revision,
        stepped.save_state == step.save_state,
        before.topology->Live_0.revision == update.revision ==> {
            &&& outcome->Ok_0 is Unchanged
            &&& stepped.ops@ == step.ops@
            &&& stepped.sends@.len() == step.sends@.len() + 1
            &&& stepped.sends@.last() matches Send::LiveSettled { snapshot_id, error: None }
                && snapshot_id@ == after.snapshot_id.value@
        },
        before.topology->Live_0.revision != update.revision ==> {
            &&& outcome->Ok_0 matches UpdateOutcome::Changed { query, .. }
            &&& stepped.sends@ == step.sends@
            &&& stepped.ops@.len() == step.ops@.len() + 1
            &&& stepped.ops@.last() is RefreshHeader
            &&& (query is Some <==> after.find.subject().len() > 0)
            &&& (query matches Some(text) ==> text@ == after.find.subject())
        },
{
    let n = update.deltas@.len() as int;
    let (states, viewports, k) = choose|
        states: Seq<HistoryAppState>,
        viewports: Seq<Viewport>,
        k: int,
    |
        0 <= k <= n && #[trigger] delta::replay(states, viewports, update.deltas@, facts, k)
            && states[0] == before && viewports[0] == viewport && delta::replay_ends(
            before,
            update,
            facts,
            step,
            after,
            stepped,
            outcome,
            states,
            viewports,
            k,
        );
    assert(k == n);
}

/// A failed delivery is reported in its own words, and settled under the snapshot that
/// the update would have ended at, where it names one.
pub proof fn failed_deliveries_are_settled(
    delivered: Result<LiveUpdate, ServiceError>,
    applied: Result<UpdateOutcome, ServiceError>,
    outcome: DeltaOutcome,
)
    requires
        delta::delivery_result(delivered, applied, outcome),
    ensures
        applied is Ok <==> outcome is Applied,
        applied matches Ok(result) ==> outcome == DeltaOutcome::Applied(result),
        applied matches Err(error) ==> outcome->message@ == error.message@,
        applied is Err && delivered is Err ==> outcome->settled is None,
        applied is Err && delivered is Ok ==> (outcome->settled is Some <==> delivered->Ok_0.deltas@.len()
            > 0),
        applied is Err && delivered is Ok && outcome->settled is Some ==> {
            &&& outcome->settled->0 matches Send::LiveSettled { snapshot_id, error: Some(reason) }
            &&& snapshot_id@ == delivered->Ok_0.deltas@[delivered->Ok_0.deltas@.len()
                - 1].snapshot_id.value@
            &&& reason@ == applied->Err_0.message@
        },
{
}

/// An edit that is refused before it is applied changes nothing but that it may drop a
/// selection which it would have retired; without a live history not even that.
pub proof fn refused_edits_change_nothing(
    before: HistoryAppState,
    delta: LiveDelta,
    facts: GraphFacts,
    viewport: Viewport,
    after: HistoryAppState,
    error: ServiceError,
)
    requires
        delta::delta_refused(before, delta, facts, viewport, after, error),
        !(before.topology is Live) || !edits::accepts(
            before.topology->Live_0,
            delta,
            before.expanded_keys@,
        ),
    ensures
        after.topology == before.topology,
        after.cache == before.cache,
        after.total == before.total,
        after.snapshot_id == before.snapshot_id,
        after.view_gen == before.view_gen,
        after.requests == before.requests,
        after.find == before.find,
        after.max_lane == before.max_lane,
        after.selection.roving == before.selection.roving,
        !(before.topology is Live) ==> after == before && error.is_invalid(
            "Live topology is missing."@,
        ),
        after.selection == before.selection || (after.selection.node_key is None
            && after.selection.continuity_key is None && (
        before.selection.continuity_key matches Some(key) && delta::retires(key@, delta))),
{
}

} // verus!
