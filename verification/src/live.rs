//! Mutable block topology. Only a changed block rebuilds its local disclosure.

use crate::coordinates::{self, ExpandedRow, VisibleRow, MAX_RENDER_ROWS};
use crate::expansion::{self, ExpansionIndex};
use crate::protocol::{invalid, LiveBlockMeta, MetaView, ServiceError, SnapshotId};
use crate::text::{self, same_text, text_less};
use vstd::prelude::*;

verus! {

/// One block at its place in the live order.
#[derive(Debug, Clone)]
pub struct Block {
    pub meta: LiveBlockMeta,
    pub index: ExpansionIndex,
    /// Shown whatever its section's disclosure.
    pub exposed: bool,
    /// Folded away with its section.
    pub hidden: bool,
    /// Stands for its folded section.
    pub summarized: bool,
}

/// A section's disclosure and the blocks it folds.
#[derive(Debug, Clone)]
pub struct Group {
    pub key: String,
    pub collapsed: bool,
    pub members: Vec<String>,
}

/// The live topology with the viewer's disclosures.
#[derive(Debug, Clone)]
pub struct LiveIndex {
    pub epoch: SnapshotId,
    pub revision: u64,
    pub blocks: Vec<Block>,
    pub groups: Vec<Group>,
    /// The blocks that the graph lets a section fold.
    pub foldable: Vec<String>,
}

/// Whether some listed text is `key`.
pub open spec fn lists(keys: Seq<String>, key: Seq<char>) -> bool {
    exists|i: int| 0 <= i < keys.len() && (#[trigger] keys[i])@ == key
}

pub fn is_listed(keys: &Vec<String>, key: &str) -> (listed: bool)
    ensures
        listed == lists(keys@, key@),
{
    let mut i: usize = 0;
    while i < keys.len()
        invariant
            i <= keys.len(),
            forall|k: int| 0 <= k < i ==> (#[trigger] keys@[k])@ != key@,
        decreases keys.len() - i,
    {
        if same_text(keys[i].as_str(), key) {
            assert(keys@[i as int]@ == key@);
            return true;
        }
        i = i + 1;
    }
    false
}

/// Newest block first; blocks of one time by key.
pub open spec fn precedes(a: MetaView, b: MetaView) -> bool {
    a.sort_time > b.sort_time || (a.sort_time == b.sort_time && text::text_lt(a.key, b.key))
}

pub(crate) fn meta_precedes(a: &LiveBlockMeta, b: &LiveBlockMeta) -> (before: bool)
    ensures
        before == precedes(a@, b@),
{
    a.sort_time > b.sort_time || (a.sort_time == b.sort_time && text_less(
        a.key.as_str(),
        b.key.as_str(),
    ))
}

pub proof fn precedes_is_transitive(a: MetaView, b: MetaView, c: MetaView)
    requires
        precedes(a, b),
        precedes(b, c),
    ensures
        precedes(a, c),
{
    if a.sort_time == b.sort_time && b.sort_time == c.sort_time {
        text::text_lt_is_transitive(a.key, b.key, c.key);
    }
}

pub proof fn precedes_is_total(a: MetaView, b: MetaView)
    requires
        a.key != b.key,
    ensures
        precedes(a, b) || precedes(b, a),
{
    if a.sort_time == b.sort_time {
        text::text_lt_is_total(a.key, b.key);
    }
}

impl Block {
    pub open spec fn wf(self) -> bool {
        &&& self.meta.key@.len() > 0
        &&& self.index.wf()
        &&& self.meta.row_count > 0
        &&& self.index.total == self.meta.row_count
    }

    /// Whether the block shows its local row.
    pub open spec fn shows(self, row: int) -> bool {
        !self.hidden && self.index.shows(row)
    }

    /// The number of rows that the block shows.
    pub open spec fn visible(self) -> nat {
        if self.hidden {
            0
        } else {
            self.index.shown().len()
        }
    }

    /// Why metadata does not describe a block.
    pub open spec fn size_fault(meta: MetaView) -> Option<Seq<char>> {
        if meta.row_count > i64::MAX {
            Some("Invalid live block size."@)
        } else if meta.row_count == 0 || meta.key.len() == 0 {
            Some("Empty live block."@)
        } else if meta.row_count > MAX_RENDER_ROWS {
            Some("History coordinates exceed the exact pixel range."@)
        } else {
            None
        }
    }

    pub fn new(meta: &LiveBlockMeta) -> (block: Result<Block, ServiceError>)
        ensures
            match block {
                Ok(block) => {
                    &&& Block::size_fault(meta@) is None
                    &&& block.wf()
                    &&& block.meta@ == meta@
                    &&& expansion::validated(
                        meta.spans@,
                        None,
                        meta.row_count as int,
                        Ok(block.index.spans@),
                    )
                    &&& block.index.expanded@ == Set::<i64>::empty()
                    &&& !block.exposed && !block.hidden && !block.summarized
                },
                Err(error) => {
                    let fault = Block::size_fault(meta@);
                    if fault is Some {
                        error.is_invalid(fault->0)
                    } else {
                        expansion::validated(
                            meta.spans@,
                            None,
                            meta.row_count as int,
                            Err(error),
                        )
                    }
                },
            },
    {
        if meta.row_count > i64::MAX as u64 {
            return Err(invalid("Invalid live block size."));
        }
        let total: i64 = meta.row_count as i64;
        if total <= 0 || meta.key.as_str().is_empty() {
            return Err(invalid("Empty live block."));
        }
        match ExpansionIndex::from_metadata(total, None, Some(meta.spans.as_slice())) {
            Ok(index) => Ok(
                Block {
                    meta: meta.clone(),
                    index,
                    exposed: false,
                    hidden: false,
                    summarized: false,
                },
            ),
            Err(error) => Err(error),
        }
    }

    /// The number of rows that the block shows.
    pub fn measure(&self) -> (visible: u64)
        requires
            self.wf(),
        ensures
            visible == self.visible(),
    {
        if self.hidden {
            0
        } else {
            self.index.visible_total() as u64
        }
    }
}

/// The first row of the block at `i`: the rows of all blocks before it.
pub open spec fn start(blocks: Seq<Block>, i: int) -> int
    decreases i,
{
    if i <= 0 {
        0
    } else {
        start(blocks, i - 1) + blocks[i - 1].meta.row_count
    }
}

/// The number of rows that the blocks before `i` show.
pub open spec fn shown_before(blocks: Seq<Block>, i: int) -> int
    decreases i,
{
    if i <= 0 {
        0
    } else {
        shown_before(blocks, i - 1) + blocks[i - 1].visible()
    }
}

/// Valid blocks in live order, each key once.
pub open spec fn blocks_ok(blocks: Seq<Block>) -> bool {
    &&& forall|i: int| 0 <= i < blocks.len() ==> (#[trigger] blocks[i]).wf()
    &&& forall|i: int, j: int|
        0 <= i < j < blocks.len() ==> precedes(
            (#[trigger] blocks[i]).meta@,
            (#[trigger] blocks[j]).meta@,
        )
    &&& forall|i: int, j: int|
        0 <= i < j < blocks.len() ==> (#[trigger] blocks[i]).meta.key@ != (
        #[trigger] blocks[j]).meta.key@
}

/// Whether the row at `row` is one of the block at `i`.
pub open spec fn holds_row(blocks: Seq<Block>, i: int, row: int) -> bool {
    start(blocks, i) <= row < start(blocks, i + 1)
}

/// Whether the live view shows a row of the expanded history.
pub open spec fn live_shows(blocks: Seq<Block>, row: int) -> bool {
    exists|i: int|
        0 <= i < blocks.len() && #[trigger] holds_row(blocks, i, row) && blocks[i].shows(
            row - start(blocks, i),
        )
}

pub proof fn lemma_start_monotone(blocks: Seq<Block>, i: int, j: int)
    requires
        0 <= i <= j <= blocks.len(),
    ensures
        start(blocks, i) <= start(blocks, j),
        0 <= start(blocks, i),
    decreases j,
{
    if i < j {
        lemma_start_monotone(blocks, i, j - 1);
    } else if i > 0 {
        lemma_start_monotone(blocks, i - 1, i - 1);
    }
}

/// A row belongs to one block.
pub proof fn lemma_holds_unique(blocks: Seq<Block>, i: int, j: int, row: int)
    requires
        0 <= i < blocks.len(),
        0 <= j < blocks.len(),
        holds_row(blocks, i, row),
        holds_row(blocks, j, row),
    ensures
        i == j,
{
    if i < j {
        lemma_start_monotone(blocks, i + 1, j);
    } else if j < i {
        lemma_start_monotone(blocks, j + 1, i);
    }
}

/// The rows shown within a block are its local rows, moved to its start.
proof fn lemma_block_rows(blocks: Seq<Block>, i: int, upto: int)
    requires
        blocks_ok(blocks),
        0 <= i < blocks.len(),
        0 <= upto <= blocks[i].meta.row_count,
    ensures
        ({
            let shows = |r: int| live_shows(blocks, r);
            let local = expansion::rows_between(|r: int| blocks[i].shows(r), 0, upto);
            expansion::rows_between(shows, start(blocks, i), start(blocks, i) + upto)
                == local.map_values(|r: int| r + start(blocks, i))
        }),
    decreases upto,
{
    let shows = |r: int| live_shows(blocks, r);
    let block_shows = |r: int| blocks[i].shows(r);
    let base = start(blocks, i);
    let local = expansion::rows_between(block_shows, 0, upto);
    if upto > 0 {
        lemma_block_rows(blocks, i, upto - 1);
        let r = base + upto - 1;
        assert(holds_row(blocks, i, r));
        assert(live_shows(blocks, r) == blocks[i].shows(upto - 1)) by {
            if live_shows(blocks, r) {
                let j = choose|j: int|
                    0 <= j < blocks.len() && #[trigger] holds_row(blocks, j, r) && blocks[j].shows(
                        r - start(blocks, j),
                    );
                lemma_holds_unique(blocks, i, j, r);
            }
        }
    }
    assert(expansion::rows_between(shows, base, base + upto) =~= local.map_values(
        |r: int| r + base,
    ));
}

/// A block's shown rows are those of its disclosure, or none when it is hidden.
proof fn lemma_local_rows(block: Block, from: int, upto: int)
    ensures
        expansion::rows_between(|r: int| block.shows(r), from, upto) == (if block.hidden {
            Seq::<int>::empty()
        } else {
            block.index.shown_between(from, upto)
        }),
    decreases upto - from,
{
    if from < upto {
        lemma_local_rows(block, from, upto - 1);
    }
}

/// As many rows are shown before a block as the blocks before it show.
proof fn lemma_shown_before(blocks: Seq<Block>, i: int)
    requires
        blocks_ok(blocks),
        0 <= i <= blocks.len(),
    ensures
        expansion::rows_between(|r: int| live_shows(blocks, r), 0, start(blocks, i)).len()
            == shown_before(blocks, i),
        0 <= shown_before(blocks, i) <= start(blocks, i),
    decreases i,
{
    let shows = |r: int| live_shows(blocks, r);
    if i > 0 {
        let k = i - 1;
        lemma_shown_before(blocks, k);
        lemma_start_monotone(blocks, 0, k);
        lemma_start_monotone(blocks, k, i);
        expansion::lemma_rows_between_split(shows, 0, start(blocks, k), start(blocks, i));
        lemma_block_rows(blocks, k, blocks[k].meta.row_count as int);
        lemma_local_rows(blocks[k], 0, blocks[k].meta.row_count as int);
        expansion::lemma_rows_between_len(shows, start(blocks, k), start(blocks, i));
    }
}

impl LiveIndex {
    pub open spec fn wf(self) -> bool {
        &&& blocks_ok(self.blocks@)
        &&& start(self.blocks@, self.blocks@.len() as int) <= MAX_RENDER_ROWS
        &&& groups_ok(self.groups@)
    }

    /// The number of rows of the expanded history.
    pub open spec fn row_total(self) -> int {
        start(self.blocks@, self.blocks@.len() as int)
    }

    /// Whether a row of the expanded history is currently shown.
    pub open spec fn shows(self, row: int) -> bool {
        live_shows(self.blocks@, row)
    }

    /// The shown rows in `from..to`, in order.
    pub open spec fn shown_between(self, from: int, to: int) -> Seq<int> {
        expansion::rows_between(|r: int| live_shows(self.blocks@, r), from, to)
    }

    /// Every shown row, in order: position is the visible coordinate.
    pub open spec fn shown(self) -> Seq<int> {
        self.shown_between(0, self.row_total())
    }

    /// The number of shown rows above `row`.
    pub open spec fn rank(self, row: int) -> nat {
        self.shown_between(0, row).len()
    }

    pub fn total(&self) -> (total: u64)
        requires
            self.wf(),
        ensures
            total == self.row_total(),
    {
        let mut total: u64 = 0;
        let mut i: usize = 0;
        while i < self.blocks.len()
            invariant
                i <= self.blocks.len(),
                self.wf(),
                total == start(self.blocks@, i as int),
            decreases self.blocks.len() - i,
        {
            proof {
                lemma_start_monotone(self.blocks@, i + 1, self.blocks@.len() as int);
            }
            total = total + self.blocks[i].meta.row_count;
            i = i + 1;
        }
        total
    }

    /// The number of shown rows.
    pub fn visible_total(&self) -> (total: u64)
        requires
            self.wf(),
        ensures
            total == self.shown().len(),
    {
        let mut total: u64 = 0;
        let mut i: usize = 0;
        while i < self.blocks.len()
            invariant
                i <= self.blocks.len(),
                self.wf(),
                total == shown_before(self.blocks@, i as int),
            decreases self.blocks.len() - i,
        {
            proof {
                lemma_shown_before(self.blocks@, i + 1);
                lemma_start_monotone(self.blocks@, i + 1, self.blocks@.len() as int);
            }
            total = total + self.blocks[i].measure();
            i = i + 1;
        }
        proof {
            lemma_shown_before(self.blocks@, i as int);
        }
        total
    }

    /// The block that holds a row, with its first row.
    pub(crate) fn block_at(&self, row: i64) -> (at: Option<(usize, i64)>)
        requires
            self.wf(),
        ensures
            match at {
                Some((i, first)) => i < self.blocks.len() && holds_row(
                    self.blocks@,
                    i as int,
                    row as int,
                ) && first == start(self.blocks@, i as int),
                None => !(0 <= row < self.row_total()),
            },
    {
        if row < 0 {
            return None;
        }
        let mut first: i64 = 0;
        let mut i: usize = 0;
        while i < self.blocks.len()
            invariant
                i <= self.blocks.len(),
                self.wf(),
                0 <= first <= row,
                first == start(self.blocks@, i as int),
            decreases self.blocks.len() - i,
        {
            proof {
                lemma_start_monotone(self.blocks@, i + 1, self.blocks@.len() as int);
                assert(self.blocks@[i as int].wf());
            }
            let next: i64 = first + self.blocks[i].meta.row_count as i64;
            if row < next {
                return Some((i, first));
            }
            first = next;
            i = i + 1;
        }
        None
    }

    /// The block with a key.
    pub(crate) fn block_of(&self, key: &str) -> (at: Option<usize>)
        ensures
            match at {
                Some(i) => i < self.blocks.len() && self.blocks@[i as int].meta.key@ == key@,
                None => forall|i: int|
                    0 <= i < self.blocks.len() ==> (#[trigger] self.blocks@[i]).meta.key@ != key@,
            },
    {
        let mut i: usize = 0;
        while i < self.blocks.len()
            invariant
                i <= self.blocks.len(),
                forall|k: int| 0 <= k < i ==> (#[trigger] self.blocks@[k]).meta.key@ != key@,
            decreases self.blocks.len() - i,
        {
            if same_text(self.blocks[i].meta.key.as_str(), key) {
                return Some(i);
            }
            i = i + 1;
        }
        None
    }

    /// The block and slot of a row.
    pub open spec fn position_of(self, row: int) -> Option<(Seq<char>, int)> {
        if 0 <= row < self.row_total() {
            let i = holder(self.blocks@, row, 0);
            Some((self.blocks@[i].meta.key@, row - start(self.blocks@, i)))
        } else {
            None
        }
    }

    /// The row of a block's slot.
    pub open spec fn absolute_of(self, key: Seq<char>, slot: int) -> Option<int> {
        let i = place(self.blocks@, key, 0);
        if i < self.blocks@.len() && 0 <= slot < self.blocks@[i].meta.row_count {
            Some(start(self.blocks@, i) + slot)
        } else {
            None
        }
    }

    pub fn position(&self, abs: i64) -> (position: Option<(String, u64)>)
        requires
            self.wf(),
        ensures
            match position {
                Some((key, slot)) => self.position_of(abs as int) == Some((key@, slot as int)),
                None => self.position_of(abs as int) is None,
            },
    {
        match self.block_at(abs) {
            Some((i, first)) => {
                proof {
                    lemma_start_monotone(self.blocks@, 0, i as int);
                    lemma_start_monotone(self.blocks@, i + 1, self.blocks@.len() as int);
                    lemma_holder(self.blocks@, abs as int, 0);
                    let k = holder(self.blocks@, abs as int, 0);
                    lemma_holds_unique(self.blocks@, i as int, k, abs as int);
                }
                Some((self.blocks[i].meta.key.clone(), (abs - first) as u64))
            },
            None => None,
        }
    }

    pub fn absolute(&self, position: &(String, u64)) -> (abs: Option<i64>)
        requires
            self.wf(),
        ensures
            match abs {
                Some(abs) => self.absolute_of(position.0@, position.1 as int) == Some(abs as int)
                    && 0 <= abs < self.row_total(),
                None => self.absolute_of(position.0@, position.1 as int) is None,
            },
    {
        let key: &str = position.0.as_str();
        let slot: u64 = position.1;
        let mut first: i64 = 0;
        let mut i: usize = 0;
        while i < self.blocks.len()
            invariant
                i <= self.blocks.len(),
                self.wf(),
                0 <= first == start(self.blocks@, i as int),
                key@ == position.0@,
                slot == position.1,
                place(self.blocks@, key@, 0) == place(self.blocks@, key@, i as int),
            decreases self.blocks.len() - i,
        {
            proof {
                lemma_start_monotone(self.blocks@, i + 1, self.blocks@.len() as int);
                assert(self.blocks@[i as int].wf());
            }
            let count: u64 = self.blocks[i].meta.row_count;
            if same_text(self.blocks[i].meta.key.as_str(), key) {
                if slot < count {
                    return Some(first + slot as i64);
                }
                return None;
            }
            first = first + count as i64;
            i = i + 1;
        }
        None
    }

    /// A row is found again from its block and slot.
    pub proof fn absolute_undoes_position(self, row: int)
        requires
            self.wf(),
            0 <= row < self.row_total(),
        ensures
            self.position_of(row) is Some,
            self.absolute_of((self.position_of(row)->0).0, (self.position_of(row)->0).1) == Some(row),
    {
        let blocks = self.blocks@;
        let i = holder(blocks, row, 0);
        lemma_holder(blocks, row, 0);
        let key = blocks[i].meta.key@;
        lemma_place(blocks, key, 0);
        let k = place(blocks, key, 0);
        if k < i {
            assert(blocks[k].meta.key@ != blocks[i].meta.key@);
        }
    }

    /// A block's slot is found again from its row.
    pub proof fn position_undoes_absolute(self, key: Seq<char>, slot: int)
        requires
            self.wf(),
            self.absolute_of(key, slot) is Some,
        ensures
            0 <= self.absolute_of(key, slot)->0 < self.row_total(),
            self.position_of(self.absolute_of(key, slot)->0) == Some((key, slot)),
    {
        let blocks = self.blocks@;
        let i = place(blocks, key, 0);
        lemma_place(blocks, key, 0);
        lemma_start_monotone(blocks, 0, i);
        lemma_start_monotone(blocks, i + 1, blocks.len() as int);
        let row = start(blocks, i) + slot;
        assert(holds_row(blocks, i, row));
        lemma_holder(blocks, row, 0);
        lemma_holds_unique(blocks, i, holder(blocks, row, 0), row);
    }
}

/// A slot of a live block is a row coordinate.
pub proof fn lemma_slot_in_range(index: LiveIndex, key: Seq<char>, slot: int)
    requires
        index.wf(),
        index.absolute_of(key, slot) is Some,
    ensures
        coordinates::in_row_range(slot),
        coordinates::in_row_range(index.absolute_of(key, slot)->0),
{
    let blocks = index.blocks@;
    let i = place(blocks, key, 0);
    lemma_place(blocks, key, 0);
    lemma_start_monotone(blocks, 0, i);
    lemma_start_monotone(blocks, i + 1, blocks.len() as int);
}

/// The first of the blocks from `from` on that ends after `row`.
pub open spec fn holder(blocks: Seq<Block>, row: int, from: int) -> int
    decreases blocks.len() - from,
{
    if from >= blocks.len() || row < start(blocks, from + 1) {
        from
    } else {
        holder(blocks, row, from + 1)
    }
}

/// The first of the blocks from `from` on that has the key.
pub open spec fn place(blocks: Seq<Block>, key: Seq<char>, from: int) -> int
    decreases blocks.len() - from,
{
    if from >= blocks.len() || blocks[from].meta.key@ == key {
        from
    } else {
        place(blocks, key, from + 1)
    }
}

pub proof fn lemma_holder(blocks: Seq<Block>, row: int, from: int)
    requires
        0 <= from < blocks.len(),
        start(blocks, from) <= row < start(blocks, blocks.len() as int),
    ensures
        from <= holder(blocks, row, from) < blocks.len(),
        holds_row(blocks, holder(blocks, row, from), row),
    decreases blocks.len() - from,
{
    if row >= start(blocks, from + 1) {
        if from + 1 < blocks.len() {
            lemma_holder(blocks, row, from + 1);
        }
    }
}

pub proof fn lemma_place(blocks: Seq<Block>, key: Seq<char>, from: int)
    requires
        0 <= from <= blocks.len(),
    ensures
        from <= place(blocks, key, from) <= blocks.len(),
        place(blocks, key, from) < blocks.len() ==> blocks[place(blocks, key, from)].meta.key@ == key,
        forall|i: int|
            from <= i < place(blocks, key, from) ==> (#[trigger] blocks[i]).meta.key@ != key,
        forall|i: int|
            from <= i < blocks.len() && (#[trigger] blocks[i]).meta.key@ == key ==> place(
                blocks,
                key,
                from,
            ) <= i,
    decreases blocks.len() - from,
{
    if from < blocks.len() && blocks[from].meta.key@ != key {
        lemma_place(blocks, key, from + 1);
    }
}

/// Each section key once.
pub open spec fn groups_ok(groups: Seq<Group>) -> bool {
    forall|i: int, j: int|
        0 <= i < j < groups.len() ==> (#[trigger] groups[i]).key@ != (#[trigger] groups[j]).key@
}

impl LiveIndex {
    /// The expanded row at a visible position.
    pub fn expanded_for(&self, visible: VisibleRow) -> (row: Option<ExpandedRow>)
        requires
            self.wf(),
        ensures
            row is Some <==> visible@ < self.shown().len(),
            row matches Some(row) ==> row@ == self.shown()[visible@],
    {
        let rank: i64 = visible.get();
        let ghost blocks = self.blocks@;
        let ghost shows = |r: int| live_shows(blocks, r);
        let ghost total = self.row_total();
        let mut before: i64 = 0;
        let mut first: i64 = 0;
        let mut i: usize = 0;
        while i < self.blocks.len()
            invariant
                i <= self.blocks.len(),
                self.wf(),
                blocks == self.blocks@,
                shows == (|r: int| live_shows(blocks, r)),
                total == self.row_total(),
                0 <= first == start(blocks, i as int),
                0 <= before == shown_before(blocks, i as int),
                before <= rank == visible@,
            decreases self.blocks.len() - i,
        {
            let ghost block = blocks[i as int];
            let ghost count = block.meta.row_count as int;
            proof {
                lemma_start_monotone(blocks, i as int, i + 1);
                lemma_start_monotone(blocks, i + 1, blocks.len() as int);
                lemma_shown_before(blocks, i as int);
                lemma_shown_before(blocks, i + 1);
                assert(block.wf());
            }
            let here: i64 = self.blocks[i].measure() as i64;
            if rank < before + here {
                proof {
                    expansion::lemma_rows_between_split(shows, 0, first as int, total);
                    expansion::lemma_rows_between_split(
                        shows,
                        first as int,
                        first + count,
                        total,
                    );
                    lemma_block_rows(blocks, i as int, count);
                    lemma_local_rows(block, 0, count);
                }
                if let Some(local) = VisibleRow::new(rank - before) {
                    if let Some(row) = self.blocks[i].index.expanded_for(local) {
                        proof {
                            expansion::lemma_rows_between_members(
                                |r: int| block.index.shows(r),
                                0,
                                count,
                            );
                        }
                        return ExpandedRow::new(first + row.get());
                    }
                }
            }
            before = before + here;
            first = first + self.blocks[i].meta.row_count as i64;
            i = i + 1;
        }
        proof {
            lemma_shown_before(blocks, blocks.len() as int);
        }
        None
    }

    /// The visible position of an expanded row.
    pub fn visible_for(&self, absolute: ExpandedRow) -> (row: Option<VisibleRow>)
        requires
            self.wf(),
        ensures
            row is Some <==> self.shows(absolute@),
            row matches Some(row) ==> row@ == self.rank(absolute@),
    {
        let value: i64 = absolute.get();
        match self.shown_above(value) {
            Some((i, local, before)) => {
                let ghost blocks = self.blocks@;
                proof {
                    let block = blocks[i as int];
                    assert(holds_row(blocks, i as int, value as int));
                    assert(self.shows(value as int) == block.shows(local@)) by {
                        if self.shows(value as int) {
                            let j = choose|j: int|
                                0 <= j < blocks.len() && #[trigger] holds_row(
                                    blocks,
                                    j,
                                    value as int,
                                ) && blocks[j].shows(value - start(blocks, j));
                            lemma_holds_unique(blocks, i as int, j, value as int);
                        }
                    }
                }
                if self.blocks[i].hidden {
                    return None;
                }
                match self.blocks[i].index.visible_for(local) {
                    Some(_) => VisibleRow::new(before),
                    None => None,
                }
            },
            None => {
                proof {
                    if self.shows(value as int) {
                        let j = choose|j: int|
                            0 <= j < self.blocks@.len() && #[trigger] holds_row(
                                self.blocks@,
                                j,
                                value as int,
                            ) && self.blocks@[j].shows(value - start(self.blocks@, j));
                        lemma_start_monotone(self.blocks@, 0, j);
                        lemma_start_monotone(self.blocks@, j + 1, self.blocks@.len() as int);
                    }
                }
                None
            },
        }
    }

    /// The block of a row, its local row, and the number of shown rows above it.
    fn shown_above(&self, row: i64) -> (above: Option<(usize, ExpandedRow, i64)>)
        requires
            self.wf(),
        ensures
            match above {
                Some((i, local, before)) => {
                    &&& i < self.blocks.len()
                    &&& holds_row(self.blocks@, i as int, row as int)
                    &&& local@ == row - start(self.blocks@, i as int)
                    &&& before == self.rank(row as int)
                    &&& 0 <= before <= row <= MAX_RENDER_ROWS
                },
                None => !(0 <= row < self.row_total()),
            },
    {
        if row < 0 {
            return None;
        }
        let ghost blocks = self.blocks@;
        let ghost shows = |r: int| live_shows(blocks, r);
        let mut before: i64 = 0;
        let mut first: i64 = 0;
        let mut i: usize = 0;
        while i < self.blocks.len()
            invariant
                i <= self.blocks.len(),
                self.wf(),
                blocks == self.blocks@,
                shows == (|r: int| live_shows(blocks, r)),
                0 <= first == start(blocks, i as int),
                first <= row,
                0 <= before == shown_before(blocks, i as int),
            decreases self.blocks.len() - i,
        {
            let ghost block = blocks[i as int];
            proof {
                lemma_start_monotone(blocks, i as int, i + 1);
                lemma_start_monotone(blocks, i + 1, blocks.len() as int);
                lemma_shown_before(blocks, i as int);
                lemma_shown_before(blocks, i + 1);
                assert(block.wf());
            }
            let next: i64 = first + self.blocks[i].meta.row_count as i64;
            if row < next {
                if let Some(local) = ExpandedRow::new(row - first) {
                    let inside: i64 = if self.blocks[i].hidden {
                        0
                    } else {
                        self.blocks[i].index.rank_before(local)
                    };
                    proof {
                        expansion::lemma_rows_between_split(shows, 0, first as int, row as int);
                        lemma_block_rows(blocks, i as int, local@);
                        lemma_local_rows(block, 0, local@);
                        expansion::lemma_rows_between_len(shows, 0, row as int);
                        expansion::lemma_rows_between_len(
                            |r: int| block.index.shows(r),
                            0,
                            local@,
                        );
                    }
                    return Some((i, local, before + inside));
                }
            }
            before = before + self.blocks[i].measure() as i64;
            first = next;
            i = i + 1;
        }
        None
    }

    /// The shown rows from `top` through `bottom`, in order.
    pub fn visible_between(&self, top: ExpandedRow, bottom: ExpandedRow) -> (rows: Vec<ExpandedRow>)
        requires
            self.wf(),
        ensures
            expansion::row_values(rows@) == self.shown_between(top@, bottom@ + 1),
    {
        let last: i64 = bottom.get();
        let ghost shows = |r: int| live_shows(self.blocks@, r);
        let ghost total = self.row_total();
        let ghost shown = self.shown();
        let mut rows: Vec<ExpandedRow> = Vec::new();
        proof {
            lemma_start_monotone(self.blocks@, 0, self.blocks@.len() as int);
            assert forall|r: int| r >= total implies !#[trigger] shows(r) by {
                if live_shows(self.blocks@, r) {
                    let j = choose|j: int|
                        0 <= j < self.blocks@.len() && #[trigger] holds_row(self.blocks@, j, r)
                            && self.blocks@[j].shows(r - start(self.blocks@, j));
                    lemma_start_monotone(self.blocks@, j + 1, self.blocks@.len() as int);
                }
            }
        }
        let first: i64 = top.get();
        let start_rank: i64 = match self.first_visible_rank(top) {
            Some(rank) => rank,
            None => {
                proof {
                    expansion::lemma_rows_between_none(shows, top@, bottom@ + 1);
                    assert(expansion::row_values(rows@) =~= Seq::empty());
                }
                return rows;
            },
        };
        if first > last {
            assert(expansion::row_values(rows@) =~= Seq::empty());
            return rows;
        }
        let mut rank: i64 = start_rank;
        proof {
            expansion::lemma_rows_between_split(shows, 0, first as int, total);
            expansion::lemma_rows_between_len(shows, 0, total);
            expansion::lemma_rows_between_members(shows, 0, total);
        }
        while rank < MAX_RENDER_ROWS
            invariant_except_break
                self.wf(),
                shown == self.shown(),
                last == bottom@,
                0 <= start_rank <= rank <= shown.len(),
                rows.len() == rank - start_rank,
                forall|k: int|
                    0 <= k < rows.len() ==> (#[trigger] rows@[k])@ == shown[start_rank + k]
                        && rows@[k]@ <= last,
                forall|k: int| 0 <= k < rows.len() ==> (#[trigger] rows@[k])@ <= last,
                shown.len() <= MAX_RENDER_ROWS,
            ensures
                0 <= start_rank <= rank <= shown.len(),
                rows.len() == rank - start_rank,
                forall|k: int|
                    0 <= k < rows.len() ==> (#[trigger] rows@[k])@ == shown[start_rank + k]
                        && rows@[k]@ <= last,
                rank < shown.len() ==> shown[rank as int] > last,
            decreases MAX_RENDER_ROWS - rank,
        {
            let row = match VisibleRow::new(rank) {
                Some(visible) => self.expanded_for(visible),
                None => None,
            };
            match row {
                Some(row) => {
                    if row.get() > last {
                        break;
                    }
                    rows.push(row);
                },
                None => {
                    break;
                },
            }
            rank = rank + 1;
        }
        proof {
            let to = bottom@ + 1;
            let between = expansion::rows_between(shows, first as int, to);
            let end = if to <= total {
                to
            } else {
                total
            };
            expansion::lemma_rows_between_split(shows, 0, first as int, end);
            expansion::lemma_rows_between_split(shows, 0, end, total);
            if to > total {
                expansion::lemma_rows_between_none(shows, total, to);
                expansion::lemma_rows_between_split(shows, first as int, total, to);
            }
            let upto = expansion::rows_between(shows, 0, end);
            assert(between =~= expansion::rows_between(shows, first as int, end));
            assert(upto =~= expansion::rows_between(shows, 0, first as int) + between);
            expansion::lemma_rows_between_members(shows, 0, end);
            expansion::lemma_rows_between_members(shows, end, total);
            assert(upto.len() == rank) by {
                if rank < upto.len() {
                    assert(shown[rank as int] == upto[rank as int]);
                } else if upto.len() < rank {
                    let k = upto.len() - start_rank;
                    assert(rows@[k]@ == shown[upto.len() as int]);
                    let after = expansion::rows_between(shows, end, total);
                    assert(shown =~= upto + after);
                    assert(shown[upto.len() as int] == after[0]);
                }
            }
            assert forall|k: int| 0 <= k < rows.len() implies expansion::row_values(rows@)[k]
                == between[k] by {
                assert(rows@[k]@ == shown[start_rank + k]);
                assert(shown[start_rank + k] == upto[start_rank + k]);
            }
            assert(expansion::row_values(rows@) =~= between);
        }
        rows
    }

    /// The visible position of the first row shown at or below `top`.
    fn first_visible_rank(&self, top: ExpandedRow) -> (rank: Option<i64>)
        requires
            self.wf(),
        ensures
            rank is Some <==> top@ < self.row_total(),
            rank matches Some(rank) ==> rank == self.rank(top@) && 0 <= rank <= MAX_RENDER_ROWS,
    {
        match self.shown_above(top.get()) {
            Some((i, _, before)) => {
                proof {
                    lemma_start_monotone(self.blocks@, i + 1, self.blocks@.len() as int);
                }
                Some(before)
            },
            None => None,
        }
    }
}

impl LiveIndex {
    /// Going to the row at a visible position and asking for its position leads back.
    pub proof fn rank_undoes_select(self, visible: int)
        requires
            self.wf(),
            0 <= visible < self.shown().len(),
        ensures
            self.shows(self.shown()[visible]),
            self.rank(self.shown()[visible]) == visible,
    {
        let shows = |r: int| live_shows(self.blocks@, r);
        let total = self.row_total();
        let row = self.shown()[visible];
        expansion::lemma_rows_between_members(shows, 0, total);
        assert(shows(row));
        expansion::lemma_rows_between_split(shows, 0, row, total);
        expansion::lemma_rows_between_members(shows, 0, row);
        let above = expansion::rows_between(shows, 0, row);
        if visible < above.len() {
            assert(self.shown()[visible] == above[visible]);
        } else if visible > above.len() {
            let below = expansion::rows_between(shows, row, total);
            expansion::lemma_rows_between_members(shows, row, total);
            assert(self.shown()[above.len() as int] == below[0]);
            assert(self.shown()[above.len() as int] >= row);
        }
    }

    /// Asking for the position of a shown row and going there leads back.
    pub proof fn select_undoes_rank(self, row: int)
        requires
            self.wf(),
            self.shows(row),
        ensures
            0 <= row < self.row_total(),
            self.rank(row) < self.shown().len(),
            self.shown()[self.rank(row) as int] == row,
    {
        let shows = |r: int| live_shows(self.blocks@, r);
        let total = self.row_total();
        let at = choose|i: int|
            0 <= i < self.blocks@.len() && #[trigger] holds_row(self.blocks@, i, row);
        lemma_start_monotone(self.blocks@, 0, at);
        lemma_start_monotone(self.blocks@, at + 1, self.blocks@.len() as int);
        assert(shows(row));
        expansion::lemma_rows_between_split(shows, 0, row, total);
        expansion::lemma_rows_between_split(shows, row, row + 1, total);
        assert(expansion::rows_between(shows, row, row + 1) =~= seq![row]) by {
            assert(expansion::rows_between(shows, row, row) =~= Seq::empty());
        }
    }
}

/// The blocks of a live history stand from the newest to the oldest; those of one time
/// stand by their keys.
pub proof fn blocks_stand_newest_first(index: LiveIndex, i: int, j: int)
    requires
        index.wf(),
        0 <= i < j < index.blocks@.len(),
    ensures
        index.blocks@[i].meta.sort_time >= index.blocks@[j].meta.sort_time,
        index.blocks@[i].meta.sort_time == index.blocks@[j].meta.sort_time ==> text::text_lt(
            index.blocks@[i].meta.key@,
            index.blocks@[j].meta.key@,
        ),
        index.blocks@[i].meta.key@ != index.blocks@[j].meta.key@,
{
    assert(precedes(index.blocks@[i].meta@, index.blocks@[j].meta@));
}

/// A row of a block comes after all rows of the blocks before it, at its own slot.
pub proof fn rows_stand_block_by_block(index: LiveIndex, i: int, slot: int)
    requires
        index.wf(),
        0 <= i < index.blocks@.len(),
        0 <= slot < index.blocks@[i].meta.row_count,
    ensures
        index.absolute_of(index.blocks@[i].meta.key@, slot) is Some,
        slot + 1 < index.blocks@[i].meta.row_count ==> index.absolute_of(
            index.blocks@[i].meta.key@,
            slot + 1,
        ) == Some(index.absolute_of(index.blocks@[i].meta.key@, slot)->0 + 1),
        slot + 1 == index.blocks@[i].meta.row_count && i + 1 < index.blocks@.len()
            ==> index.absolute_of(index.blocks@[i + 1].meta.key@, 0) == Some(
            index.absolute_of(index.blocks@[i].meta.key@, slot)->0 + 1,
        ),
        i == 0 && slot == 0 ==> index.absolute_of(index.blocks@[i].meta.key@, slot) == Some(0int),
        i + 1 == index.blocks@.len() && slot + 1 == index.blocks@[i].meta.row_count
            ==> index.absolute_of(index.blocks@[i].meta.key@, slot) == Some(index.row_total() - 1),
{
    let blocks = index.blocks@;
    let key = blocks[i].meta.key@;
    lemma_place(blocks, key, 0);
    let at = place(blocks, key, 0);
    if at < i {
        assert(blocks[at].meta.key@ != blocks[i].meta.key@);
    }
    if i + 1 < blocks.len() {
        let next = blocks[i + 1].meta.key@;
        lemma_place(blocks, next, 0);
        let to = place(blocks, next, 0);
        if to < i + 1 {
            assert(blocks[to].meta.key@ != blocks[i + 1].meta.key@);
        }
        assert(blocks[i + 1].wf());
    }
}

/// A block has between one row and as many as can be drawn, and a key.
pub proof fn blocks_have_rows_and_a_key(meta: MetaView)
    ensures
        Block::size_fault(meta) is None <==> 1 <= meta.row_count <= MAX_RENDER_ROWS
            && meta.row_count <= i64::MAX && meta.key != Seq::<char>::empty(),
{
    if meta.key.len() == 0 {
        assert(meta.key =~= Seq::<char>::empty());
    }
}

} // verus!
