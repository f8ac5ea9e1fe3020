//! Validated snapshot topology and disclosure rank/select over visible runs.
//!
//! Installing metadata scans its wire arrays once. Toggling a row only visits
//! expandable spans; plain history ranges never allocate an entry per row.

use crate::coordinates::{self, ExpandedRow, VisibleRow, MAX_RENDER_ROWS};
use crate::protocol::{invalid, ExpansionSpanDto, ServiceError};
use std::collections::BTreeSet;
use vstd::prelude::*;

verus! {

broadcast use vstd::std_specs::btree::group_btree_axioms;

/// An expandable row and the first row after its last descendant.
#[derive(Debug, Clone, Copy, PartialEq, Eq, Structural)]
pub struct Span {
    pub row: i64,
    pub end: i64,
}

/// Consecutive visible rows; `rank` counts the visible rows before them.
#[derive(Debug, Clone, Copy, PartialEq, Eq, Structural)]
pub struct VisibleRun {
    pub first: i64,
    pub end: i64,
    pub rank: i64,
}

/// The disclosure state of one snapshot.
#[derive(Debug, Clone)]
pub struct ExpansionIndex {
    pub total: i64,
    pub spans: Vec<Span>,
    pub expanded: BTreeSet<i64>,
    pub runs: Vec<VisibleRun>,
    pub visible_total: i64,
}

/// Whether `row` is a descendant of the span's own row.
pub open spec fn encloses(span: Span, row: int) -> bool {
    span.row < row < span.end
}

/// Whether `row` is one of the run's rows.
pub open spec fn in_run(run: VisibleRun, row: int) -> bool {
    run.first <= row < run.end
}

/// No span of the forest begins inside another and ends outside it.
pub open spec fn laminar(spans: Seq<Span>) -> bool {
    forall|i: int, j: int|
        0 <= i < spans.len() && 0 <= j < spans.len() && #[trigger] encloses(
            spans[i],
            #[trigger] spans[j].row as int,
        ) ==> spans[j].end <= spans[i].end
}

/// A forest of spans over `total` rows, in row order.
pub open spec fn forest(spans: Seq<Span>, total: int) -> bool {
    &&& forall|i: int|
        0 <= i < spans.len() ==> 0 <= #[trigger] spans[i].row && spans[i].row + 1 < spans[i].end
            <= total
    &&& forall|i: int, j: int|
        0 <= i < j < spans.len() ==> (#[trigger] spans[i]).row < (#[trigger] spans[j]).row
    &&& laminar(spans)
}

/// Whether `row` is disclosed: every span that encloses it is expanded.
pub open spec fn disclosed(total: int, spans: Seq<Span>, expanded: Set<i64>, row: int) -> bool {
    &&& 0 <= row < total
    &&& forall|i: int|
        0 <= i < spans.len() && #[trigger] encloses(spans[i], row) ==> expanded.contains(
            spans[i].row,
        )
}

/// The rows in `from..to` that `shows` selects, in order.
pub open spec fn rows_between(shows: spec_fn(int) -> bool, from: int, to: int) -> Seq<int>
    decreases to - from,
{
    if from >= to {
        Seq::empty()
    } else if shows(to - 1) {
        rows_between(shows, from, to - 1).push(to - 1)
    } else {
        rows_between(shows, from, to - 1)
    }
}

pub proof fn lemma_rows_between_split(shows: spec_fn(int) -> bool, a: int, b: int, c: int)
    requires
        a <= b <= c,
    ensures
        rows_between(shows, a, c) == rows_between(shows, a, b) + rows_between(shows, b, c),
    decreases c - b,
{
    if b < c {
        lemma_rows_between_split(shows, a, b, c - 1);
    }
}

pub proof fn lemma_rows_between_all(shows: spec_fn(int) -> bool, a: int, b: int)
    requires
        a <= b,
        forall|r: int| a <= r < b ==> #[trigger] shows(r),
    ensures
        rows_between(shows, a, b) == Seq::new((b - a) as nat, |i: int| a + i),
    decreases b - a,
{
    if a < b {
        assert(shows(b - 1));
        lemma_rows_between_all(shows, a, b - 1);
    }
}

pub proof fn lemma_rows_between_none(shows: spec_fn(int) -> bool, a: int, b: int)
    requires
        forall|r: int| a <= r < b ==> !#[trigger] shows(r),
    ensures
        rows_between(shows, a, b) == Seq::<int>::empty(),
    decreases b - a,
{
    if a < b {
        assert(!shows(b - 1));
        lemma_rows_between_none(shows, a, b - 1);
    }
}

pub proof fn lemma_rows_between_len(shows: spec_fn(int) -> bool, a: int, b: int)
    requires
        a <= b,
    ensures
        rows_between(shows, a, b).len() <= b - a,
    decreases b - a,
{
    if a < b {
        lemma_rows_between_len(shows, a, b - 1);
    }
}

/// The selected rows are exactly the rows of the range that `shows` holds of,
/// each once and in increasing order.
pub proof fn lemma_rows_between_members(shows: spec_fn(int) -> bool, a: int, b: int)
    ensures
        forall|i: int|
            0 <= i < rows_between(shows, a, b).len() ==> a <= #[trigger] rows_between(
                shows,
                a,
                b,
            )[i] < b && shows(rows_between(shows, a, b)[i]),
        forall|i: int, j: int|
            0 <= i < j < rows_between(shows, a, b).len() ==> (#[trigger] rows_between(
                shows,
                a,
                b,
            )[i]) < (#[trigger] rows_between(shows, a, b)[j]),
        forall|r: int|
            a <= r < b && #[trigger] shows(r) ==> rows_between(shows, a, b).contains(r),
    decreases b - a,
{
    if a < b {
        lemma_rows_between_members(shows, a, b - 1);
        let shorter = rows_between(shows, a, b - 1);
        let whole = rows_between(shows, a, b);
        assert forall|r: int| a <= r < b && #[trigger] shows(r) implies whole.contains(r) by {
            if r == b - 1 {
                assert(whole[shorter.len() as int] == r);
            } else {
                assert(shorter.contains(r));
                let i = choose|i: int| 0 <= i < shorter.len() && shorter[i] == r;
                assert(whole[i] == r);
            }
        }
    }
}

/// Runs that hold exactly the disclosed rows below `upto`, in order.
pub open spec fn runs_cover(runs: Seq<VisibleRun>, shows: spec_fn(int) -> bool, upto: int) -> bool {
    &&& forall|i: int|
        0 <= i < runs.len() ==> 0 <= (#[trigger] runs[i]).first < runs[i].end <= upto
            && runs[i].rank == rows_between(shows, 0, runs[i].first as int).len()
    &&& forall|i: int, j: int|
        0 <= i < j < runs.len() ==> (#[trigger] runs[i]).end < (#[trigger] runs[j]).first
    &&& forall|i: int, r: int|
        0 <= i < runs.len() && #[trigger] in_run(runs[i], r) ==> #[trigger] shows(r)
    &&& forall|r: int|
        0 <= r < upto && #[trigger] shows(r) ==> exists|i: int|
            0 <= i < runs.len() && #[trigger] in_run(runs[i], r)
}

/// Nothing is disclosed between a run and the one after it.
proof fn lemma_gap_after(
    runs: Seq<VisibleRun>,
    shows: spec_fn(int) -> bool,
    upto: int,
    i: int,
    to: int,
)
    requires
        runs_cover(runs, shows, upto),
        -1 <= i < runs.len(),
        to <= upto,
        i + 1 < runs.len() ==> to <= runs[i + 1].first,
    ensures
        forall|r: int|
            (if i < 0 {
                0
            } else {
                runs[i].end as int
            }) <= r < to ==> !#[trigger] shows(r),
{
    let from = if i < 0 {
        0
    } else {
        runs[i].end as int
    };
    assert forall|r: int| from <= r < to implies !#[trigger] shows(r) by {
        if shows(r) {
            let k = choose|k: int| 0 <= k < runs.len() && #[trigger] in_run(runs[k], r);
            assert(in_run(runs[k], r));
            if k < i {
                assert(runs[k].end < runs[i].first);
            } else if k > i + 1 {
                assert(runs[i + 1].end < runs[k].first);
            }
        }
    }
}

impl ExpansionIndex {
    /// Whether a row of the expanded history is currently shown.
    pub open spec fn shows(self, row: int) -> bool {
        disclosed(self.total as int, self.spans@, self.expanded@, row)
    }

    /// The shown rows in `from..to`, in order.
    pub open spec fn shown_between(self, from: int, to: int) -> Seq<int> {
        rows_between(|r: int| self.shows(r), from, to)
    }

    /// Every shown row, in order: position is the visible coordinate.
    pub open spec fn shown(self) -> Seq<int> {
        self.shown_between(0, self.total as int)
    }

    /// The number of shown rows above `row`.
    pub open spec fn rank(self, row: int) -> nat {
        self.shown_between(0, row).len()
    }

    /// Whether `row` owns descendants.
    pub open spec fn expandable(self, row: int) -> bool {
        exists|i: int| 0 <= i < self.spans.len() && (#[trigger] self.spans[i]).row == row
    }

    /// The snapshot's topology is a forest over an exact row range.
    pub open spec fn topology(self) -> bool {
        &&& coordinates::in_row_range(self.total as int)
        &&& forest(self.spans@, self.total as int)
    }

    pub open spec fn wf(self) -> bool {
        &&& self.topology()
        &&& forall|r: i64| #[trigger] self.expanded@.contains(r) ==> self.expandable(r as int)
        &&& runs_cover(self.runs@, |r: int| self.shows(r), self.total as int)
        &&& self.visible_total == self.shown().len()
    }

    /// Whether two indexes number the same rows with the same spans; what is disclosed
    /// does not count.
    pub fn same_snapshot(&self, other: &Self) -> (same: bool)
        ensures
            same == (self.total == other.total && self.spans@ == other.spans@),
    {
        if self.total != other.total || self.spans.len() != other.spans.len() {
            return false;
        }
        let mut i: usize = 0;
        while i < self.spans.len()
            invariant
                i <= self.spans.len() == other.spans.len(),
                forall|k: int| 0 <= k < i ==> self.spans@[k] == other.spans@[k],
            decreases self.spans.len() - i,
        {
            if self.spans[i] != other.spans[i] {
                return false;
            }
            i = i + 1;
        }
        assert(self.spans@ =~= other.spans@);
        true
    }

    pub fn total(&self) -> (total: i64)
        ensures
            total == self.total,
    {
        self.total
    }

    /// The number of shown rows.
    pub fn visible_total(&self) -> (total: i64)
        requires
            self.wf(),
        ensures
            total == self.shown().len(),
    {
        self.visible_total
    }

    /// The expanded row at a visible position.
    pub fn expanded_for(&self, visible: VisibleRow) -> (row: Option<ExpandedRow>)
        requires
            self.wf(),
        ensures
            row is Some <==> visible@ < self.shown().len(),
            row matches Some(row) ==> row@ == self.shown()[visible@],
    {
        let rank: i64 = visible.get();
        let ghost shows = |r: int| self.shows(r);
        let mut lo: usize = 0;
        let mut hi: usize = self.runs.len();
        while lo < hi
            invariant
                lo <= hi <= self.runs.len(),
                runs_cover(self.runs@, shows, self.total as int),
                forall|i: int| 0 <= i < lo ==> (#[trigger] self.runs@[i]).rank <= rank,
                forall|i: int| hi <= i < self.runs.len() ==> (#[trigger] self.runs@[i]).rank > rank,
            decreases hi - lo,
        {
            let mid: usize = lo + (hi - lo) / 2;
            if self.runs[mid].rank <= rank {
                proof {
                    assert forall|i: int| 0 <= i < mid + 1 implies (#[trigger] self.runs@[i]).rank
                        <= rank by {
                        if i < mid {
                            lemma_rows_between_split(
                                shows,
                                0,
                                self.runs@[i].first as int,
                                self.runs@[mid as int].first as int,
                            );
                        }
                    }
                }
                lo = mid + 1;
            } else {
                proof {
                    assert forall|i: int| mid <= i < self.runs.len() implies (
                    #[trigger] self.runs@[i]).rank > rank by {
                        if i > mid {
                            lemma_rows_between_split(
                                shows,
                                0,
                                self.runs@[mid as int].first as int,
                                self.runs@[i].first as int,
                            );
                        }
                    }
                }
                hi = mid;
            }
        }
        let ghost total = self.total as int;
        if lo == 0 {
            proof {
                if self.runs.len() == 0 {
                    lemma_gap_after(self.runs@, shows, total, -1, total);
                    lemma_rows_between_none(shows, 0, total);
                } else {
                    lemma_gap_after(self.runs@, shows, total, -1, self.runs@[0].first as int);
                    lemma_rows_between_none(shows, 0, self.runs@[0].first as int);
                }
            }
            return None;
        }
        let run = self.runs[lo - 1];
        let ghost first = run.first as int;
        let ghost end = run.end as int;
        proof {
            lemma_rows_between_split(shows, 0, first, total);
            lemma_rows_between_split(shows, first, end, total);
            lemma_rows_between_len(shows, 0, first);
            assert forall|r: int| first <= r < end implies #[trigger] shows(r) by {
                assert(in_run(run, r));
            }
            lemma_rows_between_all(shows, first, end);
        }
        let offset: i64 = rank - run.rank;
        if offset < run.end - run.first {
            let absolute: i64 = run.first + offset;
            assert(self.shown()[rank as int] == absolute);
            ExpandedRow::new(absolute)
        } else {
            proof {
                if lo == self.runs.len() {
                    lemma_gap_after(self.runs@, shows, total, lo - 1, total);
                    lemma_rows_between_none(shows, end, total);
                } else {
                    let after = self.runs@[lo as int].first as int;
                    lemma_gap_after(self.runs@, shows, total, lo - 1, after);
                    lemma_rows_between_none(shows, end, after);
                    lemma_rows_between_split(shows, 0, first, after);
                    lemma_rows_between_split(shows, first, end, after);
                }
            }
            None
        }
    }

    /// The index of the first run that ends after `row`.
    fn run_ending_after(&self, row: i64) -> (index: usize)
        requires
            self.wf(),
        ensures
            index <= self.runs.len(),
            forall|i: int| 0 <= i < index ==> (#[trigger] self.runs@[i]).end <= row,
            forall|i: int| index <= i < self.runs.len() ==> (#[trigger] self.runs@[i]).end > row,
    {
        let mut lo: usize = 0;
        let mut hi: usize = self.runs.len();
        while lo < hi
            invariant
                lo <= hi <= self.runs.len(),
                self.wf(),
                forall|i: int| 0 <= i < lo ==> (#[trigger] self.runs@[i]).end <= row,
                forall|i: int| hi <= i < self.runs.len() ==> (#[trigger] self.runs@[i]).end > row,
            decreases hi - lo,
        {
            let mid: usize = lo + (hi - lo) / 2;
            if self.runs[mid].end <= row {
                lo = mid + 1;
            } else {
                hi = mid;
            }
        }
        lo
    }

    /// The visible position of an expanded row.
    pub fn visible_for(&self, absolute: ExpandedRow) -> (row: Option<VisibleRow>)
        requires
            self.wf(),
        ensures
            row is Some <==> self.shows(absolute@),
            row matches Some(row) ==> row@ == self.rank(absolute@),
    {
        let value: i64 = absolute.get();
        let ghost shows = |r: int| self.shows(r);
        let index = self.run_ending_after(value);
        if index < self.runs.len() && self.runs[index].first <= value {
            let run = self.runs[index];
            proof {
                assert(in_run(run, value as int));
                assert(shows(value as int));
                lemma_rows_between_split(shows, 0, run.first as int, value as int);
                assert forall|r: int| run.first <= r < value implies #[trigger] shows(r) by {
                    assert(in_run(run, r));
                }
                lemma_rows_between_all(shows, run.first as int, value as int);
                lemma_rows_between_len(shows, 0, run.first as int);
            }
            VisibleRow::new(run.rank + (value - run.first))
        } else {
            proof {
                if self.shows(value as int) {
                    assert(shows(value as int));
                    let k = choose|k: int|
                        0 <= k < self.runs.len() && #[trigger] in_run(self.runs@[k], value as int);
                    assert(in_run(self.runs@[k], value as int));
                }
            }
            None
        }
    }

    /// The number of shown rows above `row`.
    pub fn rank_before(&self, row: ExpandedRow) -> (rank: i64)
        requires
            self.wf(),
            row@ <= self.total,
        ensures
            rank == self.rank(row@),
    {
        let value: i64 = row.get();
        let ghost shows = |r: int| self.shows(r);
        let index = self.run_ending_after(value);
        if index < self.runs.len() {
            let run = self.runs[index];
            if run.first <= value {
                proof {
                    lemma_rows_between_split(shows, 0, run.first as int, value as int);
                    assert forall|r: int| run.first <= r < value implies #[trigger] shows(r) by {
                        assert(in_run(run, r));
                    }
                    lemma_rows_between_all(shows, run.first as int, value as int);
                    lemma_rows_between_len(shows, 0, run.first as int);
                }
                run.rank + (value - run.first)
            } else {
                proof {
                    lemma_gap_after(
                        self.runs@,
                        shows,
                        self.total as int,
                        index - 1,
                        run.first as int,
                    );
                    lemma_rows_between_none(shows, value as int, run.first as int);
                    lemma_rows_between_split(shows, 0, value as int, run.first as int);
                }
                run.rank
            }
        } else {
            proof {
                lemma_gap_after(
                    self.runs@,
                    shows,
                    self.total as int,
                    index - 1,
                    self.total as int,
                );
                lemma_rows_between_none(shows, value as int, self.total as int);
                lemma_rows_between_split(shows, 0, value as int, self.total as int);
            }
            self.visible_total
        }
    }

    /// The shown rows from `top` through `bottom`, in order.
    pub fn visible_between(&self, top: ExpandedRow, bottom: ExpandedRow) -> (rows: Vec<ExpandedRow>)
        requires
            self.wf(),
        ensures
            row_values(rows@) == self.shown_between(top@, bottom@ + 1),
    {
        let from: i64 = top.get();
        let to: i64 = bottom.get() + 1;
        let ghost shows = |r: int| self.shows(r);
        let ghost total = self.total as int;
        let mut rows: Vec<ExpandedRow> = Vec::new();
        let first = self.run_ending_after(from);
        let mut index: usize = first;
        if from >= to {
            assert(row_values(rows@) =~= self.shown_between(top@, bottom@ + 1));
            return rows;
        }
        let mut next: i64 = from;
        while index < self.runs.len() && self.runs[index].first < to
            invariant
                self.wf(),
                shows == (|r: int| self.shows(r)),
                total == self.total,
                first <= index <= self.runs.len(),
                0 <= from <= next <= to <= MAX_RENDER_ROWS + 1,
                forall|i: int| 0 <= i < first ==> (#[trigger] self.runs@[i]).end <= from,
                forall|i: int| first <= i < self.runs.len() ==> (#[trigger] self.runs@[i]).end > from,
                index == first ==> next == from,
                index > first ==> next == (if self.runs@[index - 1].end < to {
                    self.runs@[index - 1].end
                } else {
                    to
                }),
                row_values(rows@) == rows_between(shows, from as int, next as int),
            decreases self.runs.len() - index,
        {
            let run = self.runs[index];
            let start: i64 = if run.first < next {
                next
            } else {
                run.first
            };
            let end: i64 = if run.end < to {
                run.end
            } else {
                to
            };
            proof {
                assert(index > first ==> self.runs@[index - 1].end < run.first);
                assert(index > 0 ==> self.runs@[index - 1].end <= next || next == to);
                lemma_gap_after(self.runs@, shows, total, index - 1, run.first as int);
                assert forall|r: int| next <= r < start implies !#[trigger] shows(r) by {}
                lemma_rows_between_none(shows, next as int, start as int);
                lemma_rows_between_split(shows, from as int, next as int, start as int);
                assert(rows_between(shows, from as int, next as int) =~= rows_between(
                    shows,
                    from as int,
                    start as int,
                ));
            }
            let mut row: i64 = start;
            while row < end
                invariant
                    0 <= start <= row <= end,
                    end <= MAX_RENDER_ROWS,
                    run.first <= start,
                    end <= run.end,
                    from <= start,
                    shows == (|r: int| self.shows(r)),
                    forall|r: int| #[trigger] in_run(run, r) ==> shows(r),
                    row_values(rows@) == rows_between(shows, from as int, row as int),
                decreases end - row,
            {
                proof {
                    assert(in_run(run, row as int));
                    assert(shows(row as int));
                }
                match ExpandedRow::new(row) {
                    Some(value) => {
                        let ghost before = rows@;
                        rows.push(value);
                        assert(row_values(rows@) =~= row_values(before).push(row as int));
                    },
                    None => {},
                }
                row = row + 1;
            }
            next = end;
            index = index + 1;
        }
        proof {
            let stop = if index < self.runs.len() {
                self.runs@[index as int].first as int
            } else {
                total
            };
            assert(index > first ==> self.runs@[index - 1].end <= next || next == to);
            lemma_gap_after(self.runs@, shows, total, index - 1, stop);
            assert forall|r: int| next <= r < to implies !#[trigger] shows(r) by {
                if r >= total {
                    assert(!self.shows(r));
                }
            }
            lemma_rows_between_none(shows, next as int, to as int);
            lemma_rows_between_split(shows, from as int, next as int, to as int);
            assert(row_values(rows@) =~= rows_between(shows, from as int, to as int));
        }
        rows
    }

    pub fn is_expanded(&self, row: ExpandedRow) -> (expanded: bool)
        ensures
            expanded == self.expanded@.contains(row@ as i64),
    {
        let value: i64 = row.get();
        self.expanded.contains(&value)
    }

    /// Flip the disclosure of an expandable row; other rows are refused.
    pub fn toggle(&mut self, row: ExpandedRow) -> (toggled: bool)
        requires
            old(self).wf(),
        ensures
            final(self).wf(),
            toggled == old(self).expandable(row@),
            final(self).total == old(self).total,
            final(self).spans == old(self).spans,
            toggled ==> final(self).expanded@ == crate::expansion::toggled(
                old(self).expanded@,
                row@ as i64,
            ),
            !toggled ==> *final(self) == *old(self),
    {
        let value: i64 = row.get();
        let mut lo: usize = 0;
        let mut hi: usize = self.spans.len();
        let mut found = false;
        while lo < hi && !found
            invariant
                self.wf(),
                *self == *old(self),
                lo <= hi <= self.spans.len(),
                found ==> self.expandable(value as int),
                !found ==> forall|i: int|
                    0 <= i < self.spans.len() && (#[trigger] self.spans@[i]).row == value ==> lo <= i
                        < hi,
            decreases hi - lo, !found as int,
        {
            let mid: usize = lo + (hi - lo) / 2;
            let at: i64 = self.spans[mid].row;
            if at == value {
                assert(self.spans[mid as int].row == value);
                found = true;
            } else if at < value {
                lo = mid + 1;
            } else {
                hi = mid;
            }
        }
        if !found {
            return false;
        }
        if !self.expanded.remove(&value) {
            let _inserted: bool = self.expanded.insert(value);
        }
        self.rebuild_runs();
        true
    }

    /// Recompute the runs from the spans and the expanded rows.
    pub fn rebuild_runs(&mut self)
        requires
            old(self).topology(),
            forall|r: i64| #[trigger] old(self).expanded@.contains(r) ==> old(self).expandable(
                r as int,
            ),
        ensures
            final(self).wf(),
            final(self).total == old(self).total,
            final(self).spans == old(self).spans,
            final(self).expanded == old(self).expanded,
            final(self).runs@.len() <= final(self).spans@.len() + 1,
    {
        let ghost shows = |r: int| old(self).shows(r);
        let ghost spans = self.spans@;
        let ghost expanded = self.expanded@;
        let total: i64 = self.total;
        let mut next: i64 = 0;
        let mut rank: i64 = 0;
        let mut runs: Vec<VisibleRun> = Vec::new();
        let mut k: usize = 0;
        while k < self.spans.len()
            invariant
                k <= self.spans.len(),
                *self == *old(self),
                self.topology(),
                spans == self.spans@,
                expanded == self.expanded@,
                total == self.total,
                shows == (|r: int| old(self).shows(r)),
                0 <= next <= total,
                rank == rows_between(shows, 0, next as int).len(),
                next > 0 ==> exists|m: int|
                    0 <= m < k && (#[trigger] spans[m]).end == next && !expanded.contains(
                        spans[m].row,
                    ),
                forall|i: int|
                    0 <= i < k && !expanded.contains((#[trigger] spans[i]).row) ==> spans[i].end
                        <= next,
                runs_cover(runs@, shows, next as int),
                runs.len() > 0 ==> runs@[runs.len() - 1].end < next,
            decreases self.spans.len() - k,
        {
            let span = self.spans[k];
            if span.row < next {
                proof {
                    let m = choose|m: int|
                        0 <= m < k && (#[trigger] spans[m]).end == next && !expanded.contains(
                            spans[m].row,
                        );
                    assert(encloses(spans[m], spans[k as int].row as int));
                }
                k = k + 1;
                continue;
            }
            if self.expanded.contains(&span.row) {
                k = k + 1;
                continue;
            }
            let end: i64 = span.row + 1;
            let ghost before = runs@;
            proof {
                assert forall|r: int| next <= r < end implies #[trigger] shows(r) by {
                    assert forall|i: int| 0 <= i < spans.len() && #[trigger] encloses(
                        spans[i],
                        r,
                    ) implies expanded.contains(spans[i].row) by {
                        if i > k {
                            assert(spans[k as int].row < spans[i].row);
                        }
                    }
                }
                assert forall|r: int| end <= r < span.end implies !#[trigger] shows(r) by {
                    assert(encloses(spans[k as int], r));
                }
                lemma_rows_between_all(shows, next as int, end as int);
                lemma_rows_between_none(shows, end as int, span.end as int);
                lemma_rows_between_split(shows, 0, next as int, end as int);
                lemma_rows_between_split(shows, 0, end as int, span.end as int);
                lemma_rows_between_len(shows, 0, end as int);
                lemma_rows_between_len(shows, 0, next as int);
            }
            push_run(&mut runs, next, end, rank);
            proof {
                let run = VisibleRun { first: next, end, rank };
                assert(runs@ == before.push(run));
                assert forall|r: int| 0 <= r < span.end && #[trigger] shows(r) implies exists|i: int|
                    0 <= i < runs.len() && #[trigger] in_run(runs@[i], r) by {
                    if r < next {
                        let i = choose|i: int|
                            0 <= i < before.len() && #[trigger] in_run(before[i], r);
                        assert(in_run(runs@[i], r));
                    } else {
                        assert(in_run(runs@[before.len() as int], r));
                    }
                }
                assert forall|i: int, r: int|
                    0 <= i < runs.len() && #[trigger] in_run(runs@[i], r) implies #[trigger] shows(
                    r,
                ) by {
                    if i < before.len() {
                        assert(in_run(before[i], r));
                    }
                }
            }
            rank = rank + (end - next);
            next = span.end;
            k = k + 1;
        }
        let ghost before = runs@;
        proof {
            assert forall|r: int| next <= r < total implies #[trigger] shows(r) by {
                assert forall|i: int| 0 <= i < spans.len() && #[trigger] encloses(
                    spans[i],
                    r,
                ) implies expanded.contains(spans[i].row) by {}
            }
            lemma_rows_between_all(shows, next as int, total as int);
            lemma_rows_between_split(shows, 0, next as int, total as int);
            lemma_rows_between_len(shows, 0, next as int);
        }
        push_run(&mut runs, next, total, rank);
        proof {
            let run = VisibleRun { first: next, end: total, rank };
            assert forall|r: int| 0 <= r < total && #[trigger] shows(r) implies exists|i: int|
                0 <= i < runs.len() && #[trigger] in_run(runs@[i], r) by {
                if r < next {
                    let i = choose|i: int| 0 <= i < before.len() && #[trigger] in_run(before[i], r);
                    assert(in_run(runs@[i], r));
                } else {
                    assert(in_run(runs@[before.len() as int], r));
                }
            }
            assert forall|i: int, r: int|
                0 <= i < runs.len() && #[trigger] in_run(runs@[i], r) implies #[trigger] shows(
                r,
            ) by {
                if i < before.len() {
                    assert(in_run(before[i], r));
                }
            }
        }
        self.runs = runs;
        self.visible_total = rank + (total - next);
        assert(shows =~= (|r: int| self.shows(r)));
        proof {
            runs_are_bounded_by_the_spans(*self);
        }
    }
}

/// A run that another follows ends with a folded parent; its span comes no earlier in
/// the row order than the run among the runs.
proof fn lemma_run_ends_at_a_span(index: ExpansionIndex, i: int) -> (m: int)
    requires
        index.wf(),
        0 <= i < index.runs@.len() - 1,
    ensures
        i <= m < index.spans@.len(),
        index.spans@[m].row == index.runs@[i].end - 1,
    decreases i,
{
    let shows = |r: int| index.shows(r);
    let runs = index.runs@;
    let spans = index.spans@;
    let hidden = runs[i].end as int;
    assert(runs[i].end < runs[i + 1].first);
    lemma_gap_after(runs, shows, index.total as int, i, runs[i + 1].first as int);
    assert(!shows(hidden));
    assert(in_run(runs[i], hidden - 1));
    assert(shows(hidden - 1));
    let m = choose|m: int|
        0 <= m < spans.len() && #[trigger] encloses(spans[m], hidden) && !index.expanded@.contains(
            spans[m].row,
        );
    if spans[m].row < hidden - 1 {
        assert(encloses(spans[m], hidden - 1));
    }
    if i > 0 {
        let before = lemma_run_ends_at_a_span(index, i - 1);
        assert(runs[i - 1].end < runs[i].first);
        if m <= before {
            assert(spans[m].row <= spans[before].row);
        }
    }
    m
}

/// The runs take no more room than the spans: at most one more run than there are
/// spans, however long the history is.
pub proof fn runs_are_bounded_by_the_spans(index: ExpansionIndex)
    requires
        index.wf(),
    ensures
        index.runs@.len() <= index.spans@.len() + 1,
{
    if index.runs@.len() > 1 {
        let m = lemma_run_ends_at_a_span(index, index.runs@.len() - 2);
    }
}

/// The coordinates that rows stand for.
pub open spec fn row_values(rows: Seq<ExpandedRow>) -> Seq<int> {
    rows.map_values(|row: ExpandedRow| row@)
}

/// Append a run unless it is empty or outside the exact row range.
pub fn push_run(runs: &mut Vec<VisibleRun>, first: i64, end: i64, rank: i64)
    ensures
        final(runs)@ == (if first < end && coordinates::in_row_range(first as int)
            && coordinates::in_row_range(rank as int) {
            old(runs)@.push(VisibleRun { first, end, rank })
        } else {
            old(runs)@
        }),
{
    if first < end {
        if let (Some(first), Some(rank)) = (ExpandedRow::new(first), VisibleRow::new(rank)) {
            runs.push(VisibleRun { first: first.get(), end, rank: rank.get() });
        }
    }
}

/// The first row after `n` top-level blocks of the given descendant counts.
pub open spec fn block_start(counts: Seq<usize>, n: int) -> int
    decreases n,
{
    if n <= 0 {
        0
    } else {
        block_start(counts, n - 1) + 1 + counts[n - 1]
    }
}

/// Why the block at `i` cannot be placed after its predecessors.
pub open spec fn block_fault(counts: Seq<usize>, total: int, i: int) -> Option<Seq<char>> {
    if counts[i] > i64::MAX {
        Some("Invalid descendant count: out of range integral type conversion attempted"@)
    } else if block_start(counts, i + 1) > total {
        Some("Top-level history blocks exceed the snapshot total."@)
    } else if counts[i] > 0 && block_start(counts, i) > MAX_RENDER_ROWS {
        Some("Invalid parent row."@)
    } else {
        None
    }
}

/// Why the first `n` blocks are refused: the earliest fault.
pub open spec fn block_faults(counts: Seq<usize>, total: int, n: int) -> Option<Seq<char>>
    decreases n,
{
    if n <= 0 {
        None
    } else if block_faults(counts, total, n - 1) is Some {
        block_faults(counts, total, n - 1)
    } else {
        block_fault(counts, total, n - 1)
    }
}

/// Why descendant counts do not describe `total` rows.
pub open spec fn roots_fault(counts: Seq<usize>, total: int) -> Option<Seq<char>> {
    let n = counts.len() as int;
    if block_faults(counts, total, n) is Some {
        block_faults(counts, total, n)
    } else if block_start(counts, n) != total {
        Some("Top-level history blocks do not cover the snapshot total."@)
    } else {
        None
    }
}

/// The spans of those of the first `n` blocks that have descendants.
pub open spec fn root_spans(counts: Seq<usize>, n: int) -> Seq<Span>
    decreases n,
{
    if n <= 0 {
        Seq::empty()
    } else if counts[n - 1] > 0 {
        root_spans(counts, n - 1).push(
            Span {
                row: block_start(counts, n - 1) as i64,
                end: block_start(counts, n) as i64,
            },
        )
    } else {
        root_spans(counts, n - 1)
    }
}

proof fn lemma_block_faults_monotone(counts: Seq<usize>, total: int, m: int, n: int)
    requires
        m <= n,
        block_faults(counts, total, m) is Some,
    ensures
        block_faults(counts, total, n) == block_faults(counts, total, m),
    decreases n - m,
{
    if m < n {
        lemma_block_faults_monotone(counts, total, m, n - 1);
    }
}

/// The top-level spans of a legacy block list.
pub fn legacy_roots(counts: &[usize], total: i64) -> (roots: Result<Vec<Span>, ServiceError>)
    ensures
        match roots {
            Ok(spans) => roots_fault(counts@, total as int) is None && spans@ == root_spans(
                counts@,
                counts@.len() as int,
            ),
            Err(error) => roots_fault(counts@, total as int) is Some && error.is_invalid(
                roots_fault(counts@, total as int)->0,
            ),
        },
{
    let mut next: i64 = 0;
    let mut roots: Vec<Span> = Vec::new();
    let mut i: usize = 0;
    while i < counts.len()
        invariant
            i <= counts.len(),
            next == block_start(counts@, i as int),
            next >= 0,
            roots@ == root_spans(counts@, i as int),
            block_faults(counts@, total as int, i as int) is None,
        decreases counts.len() - i,
    {
        let count: usize = counts[i];
        let ghost n = counts@.len() as int;
        proof {
            let fault = block_fault(counts@, total as int, i as int);
            assert(block_faults(counts@, total as int, i + 1) == fault);
            if fault is Some {
                lemma_block_faults_monotone(counts@, total as int, i + 1, n);
            }
        }
        if count as u64 > i64::MAX as u64 {
            return Err(
                invalid(
                    "Invalid descendant count: out of range integral type conversion attempted",
                ),
            );
        }
        let count: i64 = count as i64;
        if next >= total || count > total - next - 1 {
            return Err(invalid("Top-level history blocks exceed the snapshot total."));
        }
        let end: i64 = next + 1 + count;
        if count > 0 {
            let row = match ExpandedRow::new(next) {
                Some(row) => row,
                None => {
                    return Err(invalid("Invalid parent row."));
                },
            };
            roots.push(Span { row: row.get(), end });
        }
        next = end;
        i = i + 1;
    }
    if next != total {
        return Err(invalid("Top-level history blocks do not cover the snapshot total."));
    }
    Ok(roots)
}

/// Why one wire span is refused.
pub open spec fn span_fault(span: ExpansionSpanDto, total: int) -> Option<Seq<char>> {
    if span.row > MAX_RENDER_ROWS {
        Some("Invalid history expansion parent."@)
    } else if span.descendant_count == 0 || span.row + 1 + span.descendant_count > total {
        Some("History descendants exceed the snapshot total."@)
    } else {
        None
    }
}

/// The span that a wire span denotes.
pub open spec fn denoted(span: ExpansionSpanDto) -> Span {
    Span { row: span.row as i64, end: (span.row + 1 + span.descendant_count) as i64 }
}

/// Why the first `n` wire spans are refused one by one: the earliest fault.
pub open spec fn wire_faults(wire: Seq<ExpansionSpanDto>, total: int, n: int) -> Option<Seq<char>>
    decreases n,
{
    if n <= 0 {
        None
    } else if wire_faults(wire, total, n - 1) is Some {
        wire_faults(wire, total, n - 1)
    } else {
        span_fault(wire[n - 1], total)
    }
}

proof fn lemma_wire_faults_monotone(wire: Seq<ExpansionSpanDto>, total: int, m: int, n: int)
    requires
        m <= n,
        wire_faults(wire, total, m) is Some,
    ensures
        wire_faults(wire, total, n) == wire_faults(wire, total, m),
    decreases n - m,
{
    if m < n {
        lemma_wire_faults_monotone(wire, total, m, n - 1);
    }
}

/// Check one wire span on its own.
pub fn checked_span(span: ExpansionSpanDto, total: i64) -> (checked: Result<Span, ServiceError>)
    ensures
        match checked {
            Ok(checked) => span_fault(span, total as int) is None && checked == denoted(span)
                && 0 <= checked.row && checked.row + 1 < checked.end <= total,
            Err(error) => span_fault(span, total as int) is Some && error.is_invalid(
                span_fault(span, total as int)->0,
            ),
        },
{
    if span.row > MAX_RENDER_ROWS as u64 {
        return Err(invalid("Invalid history expansion parent."));
    }
    let row: i64 = span.row as i64;
    if span.descendant_count == 0 || total <= row || span.descendant_count > (total - row - 1)
        as u64 {
        return Err(invalid("History descendants exceed the snapshot total."));
    }
    Ok(Span { row, end: row + 1 + span.descendant_count as i64 })
}

/// The same spans, by nondecreasing row.
pub open spec fn arranged(spans: Seq<Span>, sorted: Seq<Span>) -> bool {
    &&& sorted.to_multiset() == spans.to_multiset()
    &&& forall|i: int, j: int|
        0 <= i < j < sorted.len() ==> (#[trigger] sorted[i]).row <= (#[trigger] sorted[j]).row
}

/// The span at `j` repeats its predecessor's row.
pub open spec fn repeats(sorted: Seq<Span>, j: int) -> bool {
    j > 0 && sorted[j - 1].row == sorted[j].row
}

/// The span at `j` begins inside an earlier span and ends outside it.
pub open spec fn crosses(sorted: Seq<Span>, j: int) -> bool {
    exists|i: int|
        0 <= i < j && #[trigger] encloses(sorted[i], sorted[j].row as int) && sorted[i].end
            < sorted[j].end
}

/// No earlier span encloses the one at `j`.
pub open spec fn top_level(sorted: Seq<Span>, j: int) -> bool {
    forall|i: int| 0 <= i < j ==> !#[trigger] encloses(sorted[i], sorted[j].row as int)
}

/// The top-level spans among the first `n`.
pub open spec fn tops(sorted: Seq<Span>, n: int) -> Seq<Span>
    decreases n,
{
    if n <= 0 {
        Seq::empty()
    } else if top_level(sorted, n - 1) {
        tops(sorted, n - 1).push(sorted[n - 1])
    } else {
        tops(sorted, n - 1)
    }
}

/// Why the span at `j` does not fit the ones before it.
pub open spec fn scan_fault(sorted: Seq<Span>, roots: Option<Seq<Span>>, j: int) -> Option<
    Seq<char>,
> {
    let seen = tops(sorted, j).len();
    if repeats(sorted, j) {
        Some("Duplicate history expansion parent."@)
    } else if crosses(sorted, j) {
        Some("Crossing history expansion spans."@)
    } else if roots is Some && top_level(sorted, j) && !(seen < roots->0.len()
        && roots->0[seen as int] == sorted[j]) {
        Some("Expansion spans disagree with top-level history blocks."@)
    } else {
        None
    }
}

/// The earliest fault among the first `n` spans.
pub open spec fn scan_faults(sorted: Seq<Span>, roots: Option<Seq<Span>>, n: int) -> Option<
    Seq<char>,
>
    decreases n,
{
    if n <= 0 {
        None
    } else if scan_faults(sorted, roots, n - 1) is Some {
        scan_faults(sorted, roots, n - 1)
    } else {
        scan_fault(sorted, roots, n - 1)
    }
}

/// Why spans in row order do not form the forest that the roots announce.
pub open spec fn forest_fault(sorted: Seq<Span>, roots: Option<Seq<Span>>) -> Option<Seq<char>> {
    let n = sorted.len() as int;
    if scan_faults(sorted, roots, n) is Some {
        scan_faults(sorted, roots, n)
    } else if roots is Some && roots->0.len() != tops(sorted, n).len() {
        Some("Expansion spans omit a top-level history block."@)
    } else {
        None
    }
}

proof fn lemma_scan_faults_monotone(sorted: Seq<Span>, roots: Option<Seq<Span>>, m: int, n: int)
    requires
        m <= n,
        scan_faults(sorted, roots, m) is Some,
    ensures
        scan_faults(sorted, roots, n) == scan_faults(sorted, roots, m),
    decreases n - m,
{
    if m < n {
        lemma_scan_faults_monotone(sorted, roots, m, n - 1);
    }
}

proof fn lemma_scan_faults_none(sorted: Seq<Span>, roots: Option<Seq<Span>>, n: int)
    requires
        scan_faults(sorted, roots, n) is None,
    ensures
        forall|j: int| 0 <= j < n ==> (#[trigger] scan_fault(sorted, roots, j)) is None,
        forall|j: int| 0 <= j <= n ==> (#[trigger] scan_faults(sorted, roots, j)) is None,
    decreases n,
{
    if n > 0 {
        lemma_scan_faults_none(sorted, roots, n - 1);
    }
}

/// Spans pass the scan exactly when their rows differ, none crosses another,
/// and the top-level ones are the announced roots.
pub proof fn forest_fault_is_absent_exactly_for_forests(
    sorted: Seq<Span>,
    roots: Option<Seq<Span>>,
    total: int,
)
    requires
        forall|i: int|
            0 <= i < sorted.len() ==> 0 <= #[trigger] sorted[i].row && sorted[i].row + 1
                < sorted[i].end <= total,
        forall|i: int, j: int|
            0 <= i < j < sorted.len() ==> (#[trigger] sorted[i]).row <= (#[trigger] sorted[j]).row,
    ensures
        forest_fault(sorted, roots) is None <==> forest(sorted, total) && (roots is Some ==> roots->0
            == tops(sorted, sorted.len() as int)),
{
    let n = sorted.len() as int;
    if forest_fault(sorted, roots) is None {
        lemma_scan_faults_none(sorted, roots, n);
        assert forall|i: int, j: int| 0 <= i < j < n implies (#[trigger] sorted[i]).row < (
        #[trigger] sorted[j]).row by {
            assert(scan_fault(sorted, roots, j) is None);
            assert(!repeats(sorted, j));
            assert(sorted[i].row <= sorted[j - 1].row);
        }
        assert forall|i: int, j: int| 0 <= i < n && 0 <= j < n && #[trigger] encloses(
            sorted[i],
            #[trigger] sorted[j].row as int,
        ) implies sorted[j].end <= sorted[i].end by {
            if i >= j {
                assert(i == j || sorted[j].row < sorted[i].row);
            }
            assert(scan_fault(sorted, roots, j) is None);
            assert(!crosses(sorted, j));
        }
        if roots is Some {
            lemma_tops_match_roots(sorted, roots->0, n);
            assert(tops(sorted, n) =~= roots->0);
        }
    }
    if forest(sorted, total) && (roots is Some ==> roots->0 == tops(sorted, n)) {
        lemma_forest_passes(sorted, roots, total, n);
    }
}

proof fn lemma_tops_match_roots(sorted: Seq<Span>, roots: Seq<Span>, n: int)
    requires
        0 <= n <= sorted.len(),
        scan_faults(sorted, Some(roots), n) is None,
    ensures
        tops(sorted, n).len() <= roots.len(),
        tops(sorted, n) == roots.take(tops(sorted, n).len() as int),
    decreases n,
{
    if n > 0 {
        lemma_tops_match_roots(sorted, roots, n - 1);
        assert(scan_fault(sorted, Some(roots), n - 1) is None);
        assert(tops(sorted, n) =~= roots.take(tops(sorted, n).len() as int));
    } else {
        assert(tops(sorted, n) =~= roots.take(0));
    }
}

proof fn lemma_tops_grow(sorted: Seq<Span>, m: int, n: int)
    requires
        0 <= m <= n,
    ensures
        tops(sorted, m).len() <= tops(sorted, n).len(),
        forall|i: int|
            0 <= i < tops(sorted, m).len() ==> tops(sorted, n)[i] == #[trigger] tops(sorted, m)[i],
    decreases n - m,
{
    if m < n {
        lemma_tops_grow(sorted, m, n - 1);
    }
}

proof fn lemma_forest_passes(sorted: Seq<Span>, roots: Option<Seq<Span>>, total: int, n: int)
    requires
        0 <= n <= sorted.len(),
        forest(sorted, total),
        roots is Some ==> roots->0 == tops(sorted, sorted.len() as int),
    ensures
        scan_faults(sorted, roots, n) is None,
    decreases n,
{
    if n > 0 {
        let j = n - 1;
        lemma_forest_passes(sorted, roots, total, j);
        assert(!repeats(sorted, j));
        assert(!crosses(sorted, j)) by {
            if crosses(sorted, j) {
                let i = choose|i: int|
                    0 <= i < j && #[trigger] encloses(sorted[i], sorted[j].row as int)
                        && sorted[i].end < sorted[j].end;
                assert(encloses(sorted[i], sorted[j].row as int));
            }
        }
        if roots is Some && top_level(sorted, j) {
            lemma_tops_grow(sorted, n, sorted.len() as int);
            assert(tops(sorted, n)[tops(sorted, j).len() as int] == sorted[j]);
        }
    }
}

/// Sort spans by row, keeping the order of equal rows.
fn sort_spans(spans: Vec<Span>) -> (sorted: Vec<Span>)
    ensures
        arranged(spans@, sorted@),
{
    broadcast use vstd::seq_lib::group_to_multiset_ensures;

    let mut sorted: Vec<Span> = Vec::new();
    let mut i: usize = 0;
    assert(sorted@ =~= spans@.take(0));
    while i < spans.len()
        invariant
            i <= spans.len(),
            arranged(spans@.take(i as int), sorted@),
            sorted.len() == i,
        decreases spans.len() - i,
    {
        let span = spans[i];
        let mut at: usize = sorted.len();
        while at > 0 && sorted[at - 1].row > span.row
            invariant
                at <= sorted.len(),
                forall|k: int| at <= k < sorted.len() ==> (#[trigger] sorted@[k]).row > span.row,
            decreases at,
        {
            at = at - 1;
        }
        let ghost before = sorted@;
        sorted.insert(at, span);
        proof {
            assert(spans@.take(i + 1) =~= spans@.take(i as int).push(span));
            assert(sorted@ == before.insert(at as int, span));
            vstd::seq_lib::to_multiset_insert(before, at as int, span);
            vstd::seq_lib::to_multiset_build(spans@.take(i as int), span);
        }
        i = i + 1;
    }
    assert(spans@.take(i as int) =~= spans@);
    sorted
}

/// The spans that wire spans denote.
pub open spec fn denoted_all(wire: Seq<ExpansionSpanDto>) -> Seq<Span> {
    wire.map_values(|span: ExpansionSpanDto| denoted(span))
}

/// What validating wire spans against announced roots gives.
pub open spec fn validated(
    wire: Seq<ExpansionSpanDto>,
    roots: Option<Seq<Span>>,
    total: int,
    spans: Result<Seq<Span>, ServiceError>,
) -> bool {
    let fault = wire_faults(wire, total, wire.len() as int);
    match spans {
        Ok(spans) => fault is None && arranged(denoted_all(wire), spans) && forest_fault(
            spans,
            roots,
        ) is None,
        Err(error) => if fault is Some {
            error.is_invalid(fault->0)
        } else {
            exists|sorted: Seq<Span>| #[trigger]
                arranged(denoted_all(wire), sorted) && forest_fault(sorted, roots) is Some
                    && error.is_invalid(forest_fault(sorted, roots)->0)
        },
    }
}

pub open spec fn slice_view(spans: Option<&Vec<Span>>) -> Option<Seq<Span>> {
    match spans {
        Some(spans) => Some(spans@),
        None => None,
    }
}

/// Check every wire span, then the forest that they form.
#[verifier::spinoff_prover]
#[verifier::rlimit(40)]
pub fn validate_spans(
    wire: &[ExpansionSpanDto],
    roots: Option<&Vec<Span>>,
    total: i64,
) -> (spans: Result<Vec<Span>, ServiceError>)
    ensures
        validated(
            wire@,
            slice_view(roots),
            total as int,
            match spans {
                Ok(spans) => Ok(spans@),
                Err(error) => Err(error),
            },
        ),
        spans matches Ok(spans) ==> forest(spans@, total as int),
{
    let ghost announced = slice_view(roots);
    let mut checked: Vec<Span> = Vec::new();
    let mut i: usize = 0;
    while i < wire.len()
        invariant
            i <= wire.len(),
            checked.len() == i,
            wire_faults(wire@, total as int, i as int) is None,
            forall|k: int| 0 <= k < i ==> #[trigger] checked@[k] == denoted(wire@[k]),
            forall|k: int|
                0 <= k < i ==> 0 <= (#[trigger] checked@[k]).row && checked@[k].row + 1
                    < checked@[k].end <= total,
        decreases wire.len() - i,
    {
        match checked_span(wire[i], total) {
            Ok(span) => {
                checked.push(span);
            },
            Err(error) => {
                proof {
                    lemma_wire_faults_monotone(
                        wire@,
                        total as int,
                        i + 1,
                        wire@.len() as int,
                    );
                }
                return Err(error);
            },
        }
        i = i + 1;
    }
    assert(checked@ =~= denoted_all(wire@));
    let ghost unsorted = checked@;
    let spans = sort_spans(checked);
    let ghost sorted = spans@;
    proof {
        lemma_arranged_members(unsorted, sorted);
        assert forall|k: int| 0 <= k < sorted.len() implies 0 <= #[trigger] sorted[k].row
            && sorted[k].row + 1 < sorted[k].end <= total by {
            assert(sorted.contains(sorted[k]));
            let m = choose|m: int| 0 <= m < unsorted.len() && unsorted[m] == sorted[k];
            assert(unsorted[m] == sorted[k]);
        }
        forest_fault_is_absent_exactly_for_forests(sorted, announced, total as int);
    }
    let mut ancestors: Vec<i64> = Vec::new();
    let mut root_index: usize = 0;
    let mut j: usize = 0;
    while j < spans.len()
        invariant
            j <= spans.len(),
            sorted == spans@,
            announced == slice_view(roots),
            arranged(denoted_all(wire@), sorted),
            wire_faults(wire@, total as int, wire@.len() as int) is None,
            scan_faults(sorted, announced, j as int) is None,
            root_index == tops(sorted, j as int).len(),
            root_index <= j,
            forall|k: int| 0 <= k < sorted.len() ==> (#[trigger] sorted[k]).row < sorted[k].end,
            forall|k: int, m: int|
                0 <= k < m < ancestors.len() ==> ancestors@[k] >= ancestors@[m],
            forall|k: int|
                0 <= k < ancestors.len() ==> exists|m: int|
                    0 <= m < j && (#[trigger] sorted[m]).end == #[trigger] ancestors@[k],
            forall|m: int|
                0 <= m < j ==> ancestors@.contains((#[trigger] sorted[m]).end) || sorted[m].end
                    <= sorted[j - 1].row,
        decreases spans.len() - j,
    {
        let span = spans[j];
        let ghost n = sorted.len() as int;
        proof {
            let fault = scan_fault(sorted, announced, j as int);
            assert(scan_faults(sorted, announced, j + 1) == fault);
            if fault is Some {
                lemma_scan_faults_monotone(sorted, announced, j + 1, n);
                assert(forest_fault(sorted, announced) == fault);
            }
        }
        if j > 0 && spans[j - 1].row == span.row {
            return Err(invalid("Duplicate history expansion parent."));
        }
        proof {
            lemma_scan_faults_none(sorted, announced, j as int);
            assert forall|m: int| 0 <= m < j implies (#[trigger] sorted[m]).row < span.row by {
                assert(sorted[m].row <= sorted[j - 1].row);
            }
        }
        while ancestors.len() > 0 && ancestors[ancestors.len() - 1] <= span.row
            invariant
                0 <= j < sorted.len(),
                span == sorted[j as int],
                forall|k: int, m: int|
                    0 <= k < m < ancestors.len() ==> ancestors@[k] >= ancestors@[m],
                forall|k: int|
                    0 <= k < ancestors.len() ==> exists|m: int|
                        0 <= m < j && (#[trigger] sorted[m]).end == #[trigger] ancestors@[k],
                forall|m: int|
                    0 <= m < j ==> ancestors@.contains((#[trigger] sorted[m]).end) || sorted[m].end
                        <= span.row,
            decreases ancestors.len(),
        {
            let ghost before = ancestors@;
            let _ended: Option<i64> = ancestors.pop();
            proof {
                assert forall|m: int| 0 <= m < j implies ancestors@.contains(
                    (#[trigger] sorted[m]).end,
                ) || sorted[m].end <= span.row by {
                    if before.contains(sorted[m].end) && sorted[m].end > span.row {
                        let k = choose|k: int|
                            0 <= k < before.len() && before[k] == sorted[m].end;
                        assert(ancestors@[k] == sorted[m].end);
                    }
                }
            }
        }
        proof {
            assert forall|k: int| 0 <= k < ancestors.len() implies #[trigger] ancestors@[k]
                > span.row by {
                assert(ancestors@[k] >= ancestors@[ancestors.len() - 1]);
            }
        }
        if ancestors.len() > 0 && ancestors[ancestors.len() - 1] < span.end {
            proof {
                let m = choose|m: int|
                    0 <= m < j && (#[trigger] sorted[m]).end == ancestors@[ancestors.len() - 1];
                assert(encloses(sorted[m], sorted[j as int].row as int));
                assert(crosses(sorted, j as int));
            }
            return Err(invalid("Crossing history expansion spans."));
        }
        assert(!crosses(sorted, j as int)) by {
            if crosses(sorted, j as int) {
                let m = choose|m: int|
                    0 <= m < j && #[trigger] encloses(sorted[m], sorted[j as int].row as int)
                        && sorted[m].end < sorted[j as int].end;
                assert(ancestors@.contains(sorted[m].end));
                let k = choose|k: int| 0 <= k < ancestors.len() && ancestors@[k] == sorted[m].end;
                assert(ancestors@[k] >= ancestors@[ancestors.len() - 1]);
            }
        }
        if ancestors.len() == 0 {
            assert(top_level(sorted, j as int)) by {
                assert forall|m: int| 0 <= m < j implies !#[trigger] encloses(
                    sorted[m],
                    sorted[j as int].row as int,
                ) by {
                    assert(!ancestors@.contains(sorted[m].end));
                }
            }
            if let Some(roots) = roots {
                if root_index >= roots.len() || roots[root_index] != span {
                    return Err(invalid("Expansion spans disagree with top-level history blocks."));
                }
            }
            root_index = root_index + 1;
        } else {
            assert(!top_level(sorted, j as int)) by {
                let m = choose|m: int| 0 <= m < j && (#[trigger] sorted[m]).end == ancestors@[0];
                assert(encloses(sorted[m], sorted[j as int].row as int));
            }
        }
        let ghost before = ancestors@;
        ancestors.push(span.end);
        proof {
            assert forall|k: int| 0 <= k < ancestors.len() implies exists|m: int|
                0 <= m < j + 1 && (#[trigger] sorted[m]).end == #[trigger] ancestors@[k] by {
                if k < before.len() {
                    let m = choose|m: int| 0 <= m < j && (#[trigger] sorted[m]).end == before[k];
                    assert(sorted[m].end == ancestors@[k]);
                } else {
                    assert(sorted[j as int].end == ancestors@[k]);
                }
            }
            assert forall|m: int| 0 <= m < j + 1 implies ancestors@.contains(
                (#[trigger] sorted[m]).end,
            ) || sorted[m].end <= sorted[j as int].row by {
                if m == j {
                    assert(ancestors@[before.len() as int] == sorted[m].end);
                } else if before.contains(sorted[m].end) {
                    let k = choose|k: int| 0 <= k < before.len() && before[k] == sorted[m].end;
                    assert(ancestors@[k] == sorted[m].end);
                }
            }
        }
        j = j + 1;
    }
    if let Some(roots) = roots {
        if roots.len() != root_index {
            return Err(invalid("Expansion spans omit a top-level history block."));
        }
    }
    Ok(spans)
}

proof fn lemma_arranged_members(spans: Seq<Span>, sorted: Seq<Span>)
    requires
        arranged(spans, sorted),
    ensures
        forall|s: Span| #[trigger] sorted.contains(s) ==> spans.contains(s),
        sorted.len() == spans.len(),
{
    broadcast use vstd::seq_lib::group_to_multiset_ensures;

    assert(sorted.len() == sorted.to_multiset().len());
    assert(spans.len() == spans.to_multiset().len());
    assert forall|s: Span| #[trigger] sorted.contains(s) implies spans.contains(s) by {
        assert(sorted.to_multiset().count(s) > 0);
    }
}

proof fn lemma_one_arrangement(sorted: Seq<Span>, other: Seq<Span>)
    requires
        sorted.to_multiset() == other.to_multiset(),
        forall|i: int, j: int|
            0 <= i < j < sorted.len() ==> (#[trigger] sorted[i]).row < (#[trigger] sorted[j]).row,
        forall|i: int, j: int|
            0 <= i < j < other.len() ==> (#[trigger] other[i]).row <= (#[trigger] other[j]).row,
    ensures
        sorted == other,
    decreases sorted.len(),
{
    broadcast use vstd::seq_lib::group_to_multiset_ensures;

    assert(sorted.len() == sorted.to_multiset().len());
    assert(other.len() == other.to_multiset().len());
    if sorted.len() > 0 {
        assert(sorted.to_multiset().count(other[0]) > 0) by {
            assert(other.contains(other[0]));
        }
        assert(other.to_multiset().count(sorted[0]) > 0) by {
            assert(sorted.contains(sorted[0]));
        }
        let i = choose|i: int| 0 <= i < sorted.len() && sorted[i] == other[0];
        let j = choose|j: int| 0 <= j < other.len() && other[j] == sorted[0];
        assert(other[0].row <= other[j].row);
        assert(i == 0);
        let (a, b) = (sorted.drop_first(), other.drop_first());
        vstd::seq_lib::to_multiset_remove(sorted, 0);
        vstd::seq_lib::to_multiset_remove(other, 0);
        assert(sorted.remove(0) =~= a);
        assert(other.remove(0) =~= b);
        assert forall|k: int, l: int| 0 <= k < l < a.len() implies (#[trigger] a[k]).row < (
        #[trigger] a[l]).row by {
            assert(a[k] == sorted[k + 1] && a[l] == sorted[l + 1]);
        }
        assert forall|k: int, l: int| 0 <= k < l < b.len() implies (#[trigger] b[k]).row <= (
        #[trigger] b[l]).row by {
            assert(b[k] == other[k + 1] && b[l] == other[l + 1]);
        }
        lemma_one_arrangement(a, b);
        assert forall|k: int| 0 <= k < sorted.len() implies sorted[k] == other[k] by {
            if k > 0 {
                assert(a[k - 1] == b[k - 1]);
            }
        }
        assert(sorted =~= other);
    } else {
        assert(sorted =~= other);
    }
}

proof fn lemma_same_denoted(wire: Seq<ExpansionSpanDto>, permuted: Seq<ExpansionSpanDto>)
    requires
        wire.to_multiset() == permuted.to_multiset(),
    ensures
        denoted_all(wire).to_multiset() == denoted_all(permuted).to_multiset(),
    decreases wire.len(),
{
    broadcast use vstd::seq_lib::group_to_multiset_ensures;

    assert(wire.len() == wire.to_multiset().len());
    assert(permuted.len() == permuted.to_multiset().len());
    if wire.len() > 0 {
        let last = wire.last();
        let shorter = wire.drop_last();
        assert(permuted.to_multiset().count(last) > 0) by {
            assert(wire.contains(last));
        }
        let j = choose|j: int| 0 <= j < permuted.len() && permuted[j] == last;
        let rest = permuted.remove(j);
        vstd::seq_lib::to_multiset_remove(wire, wire.len() - 1);
        vstd::seq_lib::to_multiset_remove(permuted, j);
        assert(wire.remove(wire.len() - 1) =~= shorter);
        lemma_same_denoted(shorter, rest);
        vstd::seq_lib::to_multiset_build(denoted_all(shorter), denoted(last));
        vstd::seq_lib::to_multiset_insert(denoted_all(rest), j, denoted(last));
        assert(denoted_all(wire) =~= denoted_all(shorter).push(denoted(last)));
        assert(denoted_all(permuted) =~= denoted_all(rest).insert(j, denoted(last)));
    } else {
        assert(denoted_all(wire) =~= denoted_all(permuted));
    }
}

proof fn lemma_wire_faults_none(wire: Seq<ExpansionSpanDto>, total: int, n: int)
    requires
        0 <= n <= wire.len(),
    ensures
        wire_faults(wire, total, n) is None <==> forall|k: int|
            0 <= k < n ==> span_fault(#[trigger] wire[k], total) is None,
    decreases n,
{
    if n > 0 {
        lemma_wire_faults_none(wire, total, n - 1);
    }
}

proof fn lemma_same_wire_faults(
    wire: Seq<ExpansionSpanDto>,
    permuted: Seq<ExpansionSpanDto>,
    total: int,
)
    requires
        wire.to_multiset() == permuted.to_multiset(),
        wire_faults(wire, total, wire.len() as int) is None,
    ensures
        wire_faults(permuted, total, permuted.len() as int) is None,
{
    broadcast use vstd::seq_lib::group_to_multiset_ensures;

    lemma_wire_faults_none(wire, total, wire.len() as int);
    lemma_wire_faults_none(permuted, total, permuted.len() as int);
    assert forall|k: int| 0 <= k < permuted.len() implies span_fault(
        #[trigger] permuted[k],
        total,
    ) is None by {
        assert(permuted.contains(permuted[k]));
        assert(wire.to_multiset().count(permuted[k]) > 0);
        let j = choose|j: int| 0 <= j < wire.len() && wire[j] == permuted[k];
        assert(span_fault(wire[j], total) is None);
    }
}

/// The order in which spans arrive does not matter: the answer to them is an answer to
/// the same spans in any other order. Where one of them is refused on its own, one is
/// refused on its own in every order.
pub proof fn the_order_of_spans_does_not_matter(
    wire: Seq<ExpansionSpanDto>,
    permuted: Seq<ExpansionSpanDto>,
    roots: Option<Seq<Span>>,
    total: int,
    answer: Result<Seq<Span>, ServiceError>,
)
    requires
        wire.to_multiset() == permuted.to_multiset(),
        validated(wire, roots, total, answer),
    ensures
        wire_faults(wire, total, wire.len() as int) is None ==> validated(
            permuted,
            roots,
            total,
            answer,
        ),
        wire_faults(wire, total, wire.len() as int) is Some ==> wire_faults(
            permuted,
            total,
            permuted.len() as int,
        ) is Some,
{
    lemma_same_denoted(wire, permuted);
    if wire_faults(wire, total, wire.len() as int) is None {
        lemma_same_wire_faults(wire, permuted, total);
        if answer is Err {
            let error = answer->Err_0;
            let sorted = choose|sorted: Seq<Span>| #[trigger]
                arranged(denoted_all(wire), sorted) && forest_fault(sorted, roots) is Some
                    && error.is_invalid(forest_fault(sorted, roots)->0);
            assert(arranged(denoted_all(permuted), sorted));
        }
    } else if wire_faults(permuted, total, permuted.len() as int) is None {
        lemma_same_wire_faults(permuted, wire, total);
    }
}

/// Spans that pass the validation are not refused.
pub proof fn valid_spans_are_not_refused(
    wire: Seq<ExpansionSpanDto>,
    roots: Option<Seq<Span>>,
    total: int,
    spans: Seq<Span>,
    error: ServiceError,
)
    requires
        validated(wire, roots, total, Ok(spans)),
    ensures
        !validated(wire, roots, total, Err(error)),
{
    if validated(wire, roots, total, Err(error)) {
        let sorted = choose|sorted: Seq<Span>| #[trigger]
            arranged(denoted_all(wire), sorted) && forest_fault(sorted, roots) is Some
                && error.is_invalid(forest_fault(sorted, roots)->0);
        lemma_scan_faults_none(spans, roots, spans.len() as int);
        assert forall|i: int, j: int| 0 <= i < j < spans.len() implies (#[trigger] spans[i]).row < (
        #[trigger] spans[j]).row by {
            assert(scan_fault(spans, roots, j) is None);
            assert(!repeats(spans, j));
            assert(spans[i].row <= spans[j - 1].row);
        }
        lemma_one_arrangement(spans, sorted);
    }
}

proof fn lemma_root_spans_form_a_forest(counts: Seq<usize>, total: int, n: int)
    requires
        0 <= n <= counts.len(),
        total <= MAX_RENDER_ROWS,
        block_faults(counts, total, n) is None,
        n > 0 ==> block_start(counts, n) <= total,
    ensures
        forest(root_spans(counts, n), total),
        forall|i: int|
            0 <= i < root_spans(counts, n).len() ==> (#[trigger] root_spans(counts, n)[i]).end
                <= block_start(counts, n),
        0 <= block_start(counts, n),
    decreases n,
{
    if n > 0 {
        if n > 1 {
            assert(block_fault(counts, total, n - 2) is None);
        }
        lemma_root_spans_form_a_forest(counts, total, n - 1);
        let shorter = root_spans(counts, n - 1);
        let spans = root_spans(counts, n);
        assert forall|i: int, j: int| 0 <= i < spans.len() && 0 <= j < spans.len() && #[trigger]
            encloses(spans[i], #[trigger] spans[j].row as int) implies spans[j].end
            <= spans[i].end by {
            if i < shorter.len() && j < shorter.len() {
                assert(encloses(shorter[i], shorter[j].row as int));
            } else if i < shorter.len() {
                assert(shorter[i].end <= block_start(counts, n - 1));
            }
        }
    }
}

impl ExpansionIndex {
    /// Install a snapshot's topology with every expandable row collapsed.
    pub fn from_metadata(
        total: i64,
        counts: Option<&[usize]>,
        spans: Option<&[ExpansionSpanDto]>,
    ) -> (index: Result<ExpansionIndex, ServiceError>)
        ensures
            index matches Ok(index) ==> index.wf() && index.total == total && index.expanded@
                == Set::<i64>::empty(),
            !coordinates::in_row_range(total as int) ==> (index matches Err(error)
                && error.is_invalid("History coordinates exceed the exact pixel range."@)),
            coordinates::in_row_range(total as int) && counts is Some && roots_fault(
                counts->0@,
                total as int,
            ) is Some ==> (index matches Err(error) && error.is_invalid(
                roots_fault(counts->0@, total as int)->0,
            )),
            coordinates::in_row_range(total as int) && counts is None && spans is None ==> (
            index matches Err(error) && error.is_invalid("Missing history expansion metadata."@)),
            coordinates::in_row_range(total as int) && counts is Some && roots_fault(
                counts->0@,
                total as int,
            ) is None && spans is None ==> (index matches Ok(index) && index.spans@ == root_spans(
                counts->0@,
                counts->0@.len() as int,
            )),
            coordinates::in_row_range(total as int) && (counts is Some ==> roots_fault(
                counts->0@,
                total as int,
            ) is None) && spans is Some ==> validated(
                spans->0@,
                match counts {
                    Some(counts) => Some(root_spans(counts@, counts@.len() as int)),
                    None => None,
                },
                total as int,
                match index {
                    Ok(index) => Ok(index.spans@),
                    Err(error) => Err(error),
                },
            ),
    {
        if !(0 <= total && total <= MAX_RENDER_ROWS) {
            return Err(invalid("History coordinates exceed the exact pixel range."));
        }
        let roots: Option<Vec<Span>> = match counts {
            Some(counts) => match legacy_roots(counts, total) {
                Ok(roots) => Some(roots),
                Err(error) => {
                    return Err(error);
                },
            },
            None => None,
        };
        let spans: Vec<Span> = match spans {
            Some(wire) => match validate_spans(wire, roots.as_ref(), total) {
                Ok(spans) => spans,
                Err(error) => {
                    return Err(error);
                },
            },
            None => match roots {
                Some(roots) => {
                    proof {
                        let counts = counts->0@;
                        lemma_root_spans_form_a_forest(
                            counts,
                            total as int,
                            counts.len() as int,
                        );
                    }
                    roots
                },
                None => {
                    return Err(invalid("Missing history expansion metadata."));
                },
            },
        };
        let mut index = ExpansionIndex {
            total,
            spans,
            expanded: BTreeSet::new(),
            runs: Vec::new(),
            visible_total: 0,
        };
        index.rebuild_runs();
        Ok(index)
    }

    /// Selecting the row at a visible position and ranking it again returns
    /// the position.
    pub proof fn rank_undoes_select(self, visible: int)
        requires
            self.wf(),
            0 <= visible < self.shown().len(),
        ensures
            self.shows(self.shown()[visible]),
            self.rank(self.shown()[visible]) == visible,
    {
        let shows = |r: int| self.shows(r);
        let total = self.total as int;
        let row = self.shown()[visible];
        lemma_rows_between_members(shows, 0, total);
        assert(shows(row));
        lemma_rows_between_split(shows, 0, row, total);
        lemma_rows_between_members(shows, 0, row);
        lemma_rows_between_members(shows, row, total);
        let above = rows_between(shows, 0, row);
        let below = rows_between(shows, row, total);
        assert(below.contains(row));
        let k = choose|k: int| 0 <= k < below.len() && below[k] == row;
        assert(k == 0) by {
            if k > 0 {
                assert(below[0] < below[k]);
            }
        }
        if visible < above.len() {
            assert(above[visible] == row);
        } else if visible > above.len() {
            assert(below[0] < below[visible - above.len()]);
        }
    }

    /// Ranking a shown row and selecting at that position returns the row.
    pub proof fn select_undoes_rank(self, row: int)
        requires
            self.wf(),
            self.shows(row),
        ensures
            self.rank(row) < self.shown().len(),
            self.shown()[self.rank(row) as int] == row,
    {
        let shows = |r: int| self.shows(r);
        let total = self.total as int;
        assert(shows(row));
        lemma_rows_between_split(shows, 0, row, total);
        lemma_rows_between_split(shows, row, row + 1, total);
        assert(rows_between(shows, row, row + 1) =~= seq![row]) by {
            assert(rows_between(shows, row, row) =~= Seq::empty());
        }
    }
}

/// What toggling an expandable row does to the set of expanded rows.
pub open spec fn toggled(expanded: Set<i64>, row: i64) -> Set<i64> {
    if expanded.contains(row) {
        expanded.remove(row)
    } else {
        expanded.insert(row)
    }
}

/// Toggling one row twice restores every disclosure.
pub proof fn toggling_twice_restores(expanded: Set<i64>, row: i64)
    ensures
        toggled(toggled(expanded, row), row) == expanded,
{
    assert(toggled(toggled(expanded, row), row) =~= expanded);
}

/// Expanding a row never hides another.
pub proof fn expanding_never_hides(
    total: int,
    spans: Seq<Span>,
    expanded: Set<i64>,
    row: i64,
    shown: int,
)
    requires
        disclosed(total, spans, expanded, shown),
    ensures
        disclosed(total, spans, expanded.insert(row), shown),
{
}

/// A span reaches from its own row over as many rows as it has descendants, and a span is
/// refused unless it has some and all of them exist.
pub proof fn spans_cover_their_descendants(span: ExpansionSpanDto, total: int, row: int)
    requires
        total <= MAX_RENDER_ROWS,
    ensures
        span_fault(span, total) is None <==> span.descendant_count > 0 && span.row
            + span.descendant_count < total,
        span_fault(span, total) is None ==> denoted(span).row == span.row && (encloses(
            denoted(span),
            row,
        ) <==> span.row < row <= span.row + span.descendant_count),
{
}

/// Closing a row hides its descendants and nothing else; opening it again shows exactly
/// those of them whose other enclosing rows are open.
pub proof fn closing_hides_the_descendants(
    total: int,
    spans: Seq<Span>,
    expanded: Set<i64>,
    i: int,
    row: int,
)
    requires
        forest(spans, total),
        0 <= i < spans.len(),
        expanded.contains(spans[i].row),
    ensures
        disclosed(total, spans, expanded.remove(spans[i].row), row) <==> disclosed(
            total,
            spans,
            expanded,
            row,
        ) && !(spans[i].row < row < spans[i].end),
{
    let closed = expanded.remove(spans[i].row);
    if disclosed(total, spans, closed, row) {
        assert(!encloses(spans[i], row));
    }
    if disclosed(total, spans, expanded, row) && !(spans[i].row < row < spans[i].end) {
        assert forall|j: int|
            0 <= j < spans.len() && #[trigger] encloses(spans[j], row) implies closed.contains(
            spans[j].row,
        ) by {
            if spans[j].row == spans[i].row {
                if i < j {
                    assert(spans[i].row < spans[j].row);
                } else if j < i {
                    assert(spans[j].row < spans[i].row);
                }
                assert(j == i);
            }
        }
    }
}

/// A row that no span encloses is always shown, and with all rows open every row is.
pub proof fn top_level_rows_are_always_shown(
    total: int,
    spans: Seq<Span>,
    expanded: Set<i64>,
    row: int,
)
    requires
        0 <= row < total,
    ensures
        (forall|i: int| 0 <= i < spans.len() ==> !#[trigger] encloses(spans[i], row)) ==> disclosed(
            total,
            spans,
            expanded,
            row,
        ),
        (forall|i: int| 0 <= i < spans.len() ==> expanded.contains((#[trigger] spans[i]).row))
            ==> disclosed(total, spans, expanded, row),
{
}

/// Toggling changes the disclosure of one row alone.
pub proof fn toggling_changes_one_row(expanded: Set<i64>, row: i64, other: i64)
    ensures
        toggled(expanded, row).contains(row) == !expanded.contains(row),
        other != row ==> toggled(expanded, row).contains(other) == expanded.contains(other),
{
}

proof fn lemma_no_block_fault(counts: Seq<usize>, total: int, n: int, i: int)
    requires
        block_faults(counts, total, n) is None,
        0 <= i < n,
    ensures
        block_fault(counts, total, i) is None,
    decreases n,
{
    if i < n - 1 {
        lemma_no_block_fault(counts, total, n - 1, i);
    }
}

proof fn lemma_root_spans(counts: Seq<usize>, n: int, i: int) -> (at: int)
    requires
        0 <= i < n <= counts.len(),
        counts[i] > 0,
    ensures
        0 <= at < root_spans(counts, n).len(),
        root_spans(counts, n)[at] == (Span {
            row: block_start(counts, i) as i64,
            end: block_start(counts, i + 1) as i64,
        }),
    decreases n,
{
    if i == n - 1 {
        root_spans(counts, n).len() - 1
    } else {
        lemma_root_spans(counts, n - 1, i)
    }
}

/// Blocks that describe a history cover all of its rows: each has its own row and its
/// descendants behind it, and a span of its own where it has descendants.
pub proof fn blocks_cover_the_history(counts: Seq<usize>, total: int, i: int) -> (at: int)
    requires
        roots_fault(counts, total) is None,
        0 <= i < counts.len(),
        total <= i64::MAX,
    ensures
        block_start(counts, 0) == 0,
        block_start(counts, i + 1) == block_start(counts, i) + 1 + counts[i],
        block_start(counts, counts.len() as int) == total,
        counts[i] > 0 ==> 0 <= at < root_spans(counts, counts.len() as int).len() && root_spans(
            counts,
            counts.len() as int,
        )[at] == (Span {
            row: block_start(counts, i) as i64,
            end: (block_start(counts, i) + 1 + counts[i]) as i64,
        }),
{
    if counts[i] > 0 {
        lemma_root_spans(counts, counts.len() as int, i)
    } else {
        0
    }
}

} // verus!
