//! Disclosure toggles and revisioned block edits of the live topology.

use crate::cache;
use crate::coordinates::{ExpandedRow, MAX_RENDER_ROWS};
use crate::expansion;
use crate::live::{self, is_listed, Block, LiveIndex};
use crate::protocol::{
    invalid, GraphFacts, LiveBaseline, LiveBlock, LiveBlockMeta, LiveDelta, ServiceError,
};
use crate::tasks::{self, Section};
use crate::text::same_text;
use vstd::prelude::*;

verus! {

/// The same blocks except that the disclosure of the one at `at` was toggled.
pub open spec fn block_toggled(before: Seq<Block>, after: Seq<Block>, at: int, row: int) -> bool {
    &&& after.len() == before.len()
    &&& forall|i: int| 0 <= i < before.len() && i != at ==> #[trigger] after[i] == before[i]
    &&& after[at] == (Block { index: after[at].index, ..before[at] })
    &&& after[at].index.total == before[at].index.total
    &&& after[at].index.spans == before[at].index.spans
    &&& after[at].index.expanded@ == (if before[at].index.expandable(row) {
        expansion::toggled(before[at].index.expanded@, row as i64)
    } else {
        before[at].index.expanded@
    })
}

impl LiveIndex {
    /// Whether a row's disclosure, or the section that it heads, is open.
    pub fn is_expanded(&self, row: ExpandedRow) -> (expanded: bool)
        requires
            self.wf(),
        ensures
            !(row@ < self.row_total()) ==> !expanded,
            forall|i: int|
                0 <= i < self.blocks@.len() && #[trigger] live::holds_row(self.blocks@, i, row@)
                    ==> expanded == (if self.blocks@[i].meta.task_header {
                    let key = self.blocks@[i].meta.key@;
                    self.sections().dom().contains(key) && !self.sections()[key].collapsed
                } else {
                    self.blocks@[i].index.expanded@.contains(
                        (row@ - live::start(self.blocks@, i)) as i64,
                    )
                }),
    {
        match self.block_at(row.get()) {
            Some((at, first)) => {
                proof {
                    live::lemma_start_monotone(self.blocks@, 0, at as int);
                    live::lemma_start_monotone(self.blocks@, at + 1, self.blocks@.len() as int);
                    assert forall|i: int|
                        0 <= i < self.blocks@.len() && #[trigger] live::holds_row(
                            self.blocks@,
                            i,
                            row@,
                        ) implies i == at by {
                        live::lemma_holds_unique(self.blocks@, i, at as int, row@);
                    }
                }
                if self.blocks[at].meta.task_header {
                    return self.section_open(self.blocks[at].meta.key.as_str());
                }
                match ExpandedRow::new(row.get() - first) {
                    Some(local) => self.blocks[at].index.is_expanded(local),
                    None => false,
                }
            },
            None => {
                proof {
                    assert forall|i: int| 0 <= i < self.blocks@.len() implies !(
                    #[trigger] live::holds_row(self.blocks@, i, row@)) by {
                        live::lemma_start_monotone(self.blocks@, 0, i);
                        live::lemma_start_monotone(self.blocks@, i + 1, self.blocks@.len() as int);
                    }
                }
                false
            },
        }
    }

    /// Flip a row's disclosure, or the section that it heads.
    pub fn toggle(&mut self, row: ExpandedRow) -> (toggled: bool)
        requires
            old(self).wf(),
        ensures
            final(self).wf(),
            !(row@ < old(self).row_total()) ==> !toggled && *final(self) == *old(self),
            forall|i: int|
                0 <= i < old(self).blocks@.len() && #[trigger] live::holds_row(
                    old(self).blocks@,
                    i,
                    row@,
                ) ==> {
                    let block = old(self).blocks@[i];
                    let key = block.meta.key@;
                    let local = row@ - live::start(old(self).blocks@, i);
                    if block.meta.task_header {
                        section_toggled(*old(self), *final(self), key, toggled)
                    } else {
                        &&& toggled == block.index.expandable(local)
                        &&& block_toggled(old(self).blocks@, final(self).blocks@, i, local)
                        &&& final(self).groups == old(self).groups
                    }
                },
            final(self).epoch == old(self).epoch,
            final(self).revision == old(self).revision,
            final(self).foldable == old(self).foldable,
    {
        let ghost before = self.blocks@;
        let (at, first) = match self.block_at(row.get()) {
            Some(found) => found,
            None => {
                proof {
                    assert forall|i: int| 0 <= i < before.len() implies !(
                    #[trigger] live::holds_row(before, i, row@)) by {
                        live::lemma_start_monotone(before, 0, i);
                        live::lemma_start_monotone(before, i + 1, before.len() as int);
                    }
                }
                return false;
            },
        };
        proof {
            live::lemma_start_monotone(before, 0, at as int);
            live::lemma_start_monotone(before, at + 1, before.len() as int);
            assert forall|i: int| 0 <= i < before.len() && #[trigger] live::holds_row(
                before,
                i,
                row@,
            ) implies i == at by {
                live::lemma_holds_unique(before, i, at as int, row@);
            }
        }
        if self.blocks[at].meta.task_header {
            let key = self.blocks[at].meta.key.clone();
            return self.toggle_group(key.as_str());
        }
        match ExpandedRow::new(row.get() - first) {
            Some(local) => {
                let toggled = self.blocks[at].index.toggle(local);
                proof {
                    lemma_index_replaced(before, self.blocks@, at as int);
                }
                toggled
            },
            None => false,
        }
    }

    /// Whether a known section is open.
    fn section_open(&self, key: &str) -> (open_now: bool)
        requires
            self.wf(),
        ensures
            open_now == (self.sections().dom().contains(key@)
                && !self.sections()[key@].collapsed),
    {
        let mut i: usize = 0;
        while i < self.groups.len()
            invariant
                i <= self.groups.len(),
                self.wf(),
                forall|k: int| 0 <= k < i ==> (#[trigger] self.groups@[k]).key@ != key@,
            decreases self.groups.len() - i,
        {
            if same_text(self.groups[i].key.as_str(), key) {
                proof {
                    tasks::lemma_section_at(self.groups@, i as int);
                }
                return !self.groups[i].collapsed;
            }
            i = i + 1;
        }
        false
    }

    /// The section whose task the row's block summarises.
    pub open spec fn summarised_section(self, row: int) -> Option<Seq<char>> {
        let i = choose|i: int|
            0 <= i < self.blocks@.len() && #[trigger] live::holds_row(self.blocks@, i, row);
        if 0 <= row < self.row_total() && self.blocks@[i].meta.task_summary is Some {
            self.blocks@[i].meta@.task_group
        } else {
            None
        }
    }

    fn find_summarised(&self, row: ExpandedRow) -> (section: Option<String>)
        requires
            self.wf(),
        ensures
            match section {
                Some(section) => self.summarised_section(row@) == Some(section@),
                None => self.summarised_section(row@) is None,
            },
    {
        match self.block_at(row.get()) {
            Some((at, _)) => {
                proof {
                    live::lemma_start_monotone(self.blocks@, 0, at as int);
                    live::lemma_start_monotone(self.blocks@, at + 1, self.blocks@.len() as int);
                    assert(live::holds_row(self.blocks@, at as int, row@));
                    let i = choose|i: int|
                        0 <= i < self.blocks@.len() && #[trigger] live::holds_row(
                            self.blocks@,
                            i,
                            row@,
                        );
                    live::lemma_holds_unique(self.blocks@, i, at as int, row@);
                }
                if self.blocks[at].meta.task_summary.is_some() {
                    match &self.blocks[at].meta.task_group {
                        Some(name) => Some(name.clone()),
                        None => None,
                    }
                } else {
                    None
                }
            },
            None => None,
        }
    }

    /// Flip the section whose task the row's block summarises.
    pub fn toggle_task(&mut self, row: ExpandedRow) -> (toggled: bool)
        requires
            old(self).wf(),
        ensures
            final(self).wf(),
            match old(self).summarised_section(row@) {
                Some(key) => section_toggled(*old(self), *final(self), key, toggled),
                None => !toggled && *final(self) == *old(self),
            },
            final(self).epoch == old(self).epoch,
            final(self).revision == old(self).revision,
            final(self).foldable == old(self).foldable,
    {
        match self.find_summarised(row) {
            Some(key) => self.toggle_group(key.as_str()),
            None => false,
        }
    }

    /// Whether the section whose task the row's block summarises is open.
    pub fn task_expanded(&self, row: ExpandedRow) -> (expanded: bool)
        requires
            self.wf(),
        ensures
            expanded == match self.summarised_section(row@) {
                Some(key) => self.sections().dom().contains(key)
                    && !self.sections()[key].collapsed,
                None => false,
            },
    {
        match self.find_summarised(row) {
            Some(key) => self.section_open(key.as_str()),
            None => false,
        }
    }
}

/// What toggling a section changes.
pub open spec fn section_toggled(
    before: LiveIndex,
    after: LiveIndex,
    key: Seq<char>,
    toggled: bool,
) -> bool {
    &&& toggled == before.sections().dom().contains(key)
    &&& !toggled ==> after == before
    &&& toggled ==> {
        let at = before.sections()[key];
        &&& after.sections() == before.sections().insert(
            key,
            Section { collapsed: !at.collapsed, ..at },
        )
        &&& after.blocks@ == Seq::new(
            before.blocks@.len(),
            |i: int|
                tasks::retoggled(
                    before.blocks@[i],
                    at.members,
                    after.sections(),
                    before.foldable@,
                ),
        )
    }
}

proof fn lemma_index_replaced(before: Seq<Block>, after: Seq<Block>, at: int)
    requires
        live::blocks_ok(before),
        0 <= at < before.len(),
        after.len() == before.len(),
        forall|i: int| 0 <= i < before.len() && i != at ==> #[trigger] after[i] == before[i],
        after[at].meta == before[at].meta,
        after[at].index.wf(),
        after[at].index.total == before[at].index.total,
    ensures
        live::blocks_ok(after),
        live::start(after, after.len() as int) == live::start(before, before.len() as int),
{
    assert forall|i: int| 0 <= i < after.len() implies (#[trigger] after[i]).meta == before[i].meta
        && after[i].wf() by {
        assert(before[i].wf());
    }
    assert forall|i: int, j: int| 0 <= i < j < after.len() implies live::precedes(
        (#[trigger] after[i]).meta@,
        (#[trigger] after[j]).meta@,
    ) && after[i].meta.key@ != after[j].meta.key@ by {
        assert(after[i].meta == before[i].meta && after[j].meta == before[j].meta);
        assert(live::precedes(before[i].meta@, before[j].meta@));
    }
    lemma_same_counts(before, after, before.len() as int);
}

proof fn lemma_same_counts(a: Seq<Block>, b: Seq<Block>, n: int)
    requires
        a.len() == b.len(),
        n <= a.len(),
        forall|i: int| 0 <= i < a.len() ==> (#[trigger] b[i]).meta == a[i].meta,
    ensures
        live::start(a, n) == live::start(b, n),
    decreases n,
{
    if n > 0 {
        assert(b[n - 1].meta == a[n - 1].meta);
        lemma_same_counts(a, b, n - 1);
    }
}

/// Every row's parent comes before it.
pub open spec fn parents_precede(block: LiveBlock, n: int) -> bool {
    forall|slot: int|
        0 <= slot < n ==> ((#[trigger] block.rows@[slot]).parent_row matches Some(parent)
            ==> parent < slot)
}

/// A block as its metadata, rows and the expanded keys describe it.
pub open spec fn prepared_from(block: Block, incoming: LiveBlock, expanded: Seq<String>) -> bool {
    &&& block.wf()
    &&& block.meta@ == incoming.meta@
    &&& expansion::validated(
        incoming.meta.spans@,
        None,
        incoming.meta.row_count as int,
        Ok(block.index.spans@),
    )
    &&& forall|slot: i64| #[trigger]
        block.index.expanded@.contains(slot) <==> 0 <= slot < incoming.rows@.len()
            && block.index.expandable(slot as int) && live::lists(
            expanded,
            incoming.rows@[slot as int].continuity_key@,
        )
}

/// What preparing an arriving block gives.
pub open spec fn prepares(
    incoming: LiveBlock,
    expanded: Seq<String>,
    block: Result<Block, ServiceError>,
) -> bool {
    let meta = incoming.meta@;
    let fits = incoming.rows@.len() == meta.row_count;
    let size = Block::size_fault(meta);
    match block {
        Ok(block) => {
            &&& fits
            &&& size is None
            &&& parents_precede(incoming, incoming.rows@.len() as int)
            &&& prepared_from(block, incoming, expanded)
        },
        Err(error) => if !fits {
            error.is_invalid("Live block content/topology mismatch."@)
        } else if size is Some {
            error.is_invalid(size->0)
        } else {
            ||| expansion::validated(meta.spans, None, meta.row_count as int, Err(error))
            ||| {
                &&& exists|spans: Seq<expansion::Span>| #[trigger]
                    expansion::validated(meta.spans, None, meta.row_count as int, Ok(spans))
                &&& !parents_precede(incoming, incoming.rows@.len() as int)
                &&& error.is_invalid("Invalid live parent coordinate."@)
            }
        },
    }
}

/// Check an arriving block and open the rows that the viewer had open.
pub fn prepare(incoming: &LiveBlock, expanded: &Vec<String>) -> (block: Result<
    Block,
    ServiceError,
>)
    ensures
        prepares(*incoming, expanded@, block),
        block matches Ok(block) ==> !block.exposed && !block.hidden && !block.summarized,
{
    if incoming.rows.len() as u64 != incoming.meta.row_count {
        return Err(invalid("Live block content/topology mismatch."));
    }
    let mut block = match Block::new(&incoming.meta) {
        Ok(block) => block,
        Err(error) => {
            return Err(error);
        },
    };
    let ghost spans = block.index.spans;
    let ghost first = block;
    let mut slot: usize = 0;
    while slot < incoming.rows.len()
        invariant
            slot <= incoming.rows.len(),
            incoming.rows.len() == incoming.meta.row_count,
            Block::size_fault(incoming.meta@) is None,
            block.wf(),
            block.meta == first.meta,
            block.meta@ == incoming.meta@,
            block.index.spans == first.index.spans,
            block.index.total == incoming.meta.row_count,
            expansion::validated(
                incoming.meta.spans@,
                None,
                incoming.meta.row_count as int,
                Ok(first.index.spans@),
            ),
            !block.exposed && !block.hidden && !block.summarized,
            parents_precede(*incoming, slot as int),
            forall|at: i64| #[trigger]
                block.index.expanded@.contains(at) <==> 0 <= at < slot && first.index.expandable(
                    at as int,
                ) && live::lists(expanded@, incoming.rows@[at as int].continuity_key@),
        decreases incoming.rows.len() - slot,
    {
        let row = &incoming.rows[slot];
        if let Some(parent) = row.parent_row {
            if parent >= slot {
                assert(!parents_precede(*incoming, incoming.rows@.len() as int)) by {
                    assert(incoming.rows@[slot as int].parent_row == Some(parent));
                }
                return Err(invalid("Invalid live parent coordinate."));
            }
        }
        let ghost before = block;
        if is_listed(expanded, row.continuity_key.as_str()) {
            if let Some(at) = ExpandedRow::new(slot as i64) {
                let _toggled = block.index.toggle(at);
            }
        }
        proof {
            assert(before.index.expandable(slot as int) == first.index.expandable(slot as int)) by {
                assert(before.index.spans == first.index.spans);
            }
            assert(!before.index.expanded@.contains(slot as i64));
        }
        slot = slot + 1;
    }
    proof {
        assert forall|at: i64| #[trigger] block.index.expanded@.contains(at) <==> 0 <= at
            < incoming.rows@.len() && block.index.expandable(at as int) && live::lists(
            expanded@,
            incoming.rows@[at as int].continuity_key@,
        ) by {
            assert(block.index.expandable(at as int) == first.index.expandable(at as int));
        }
    }
    Ok(block)
}

/// Whether an edit removes or replaces the block with a key.
pub open spec fn touched(delta: LiveDelta, key: Seq<char>) -> bool {
    live::lists(delta.removed@, key) || upserted(delta.upserts@, key)
}

/// Whether some arriving block has the key.
pub open spec fn upserted(upserts: Seq<LiveBlock>, key: Seq<char>) -> bool {
    exists|i: int| 0 <= i < upserts.len() && (#[trigger] upserts[i]).meta.key@ == key
}

/// Whether the arriving block at `i` names a block that was already edited.
pub open spec fn repeated(delta: LiveDelta, i: int) -> bool {
    live::lists(delta.removed@, delta.upserts@[i].meta.key@) || upserted(
        delta.upserts@.take(i),
        delta.upserts@[i].meta.key@,
    )
}

/// Whether the arriving block at `i` can be taken.
pub open spec fn acceptable(delta: LiveDelta, expanded: Seq<String>, i: int) -> bool {
    !repeated(delta, i) && exists|block: Block|
        prepares(delta.upserts@[i], expanded, Ok(block))
}

/// The rows of those of the first `n` blocks that an edit leaves alone.
pub open spec fn untouched_rows(blocks: Seq<Block>, delta: LiveDelta, n: int) -> int
    decreases n,
{
    if n <= 0 {
        0
    } else {
        untouched_rows(blocks, delta, n - 1) + (if touched(delta, blocks[n - 1].meta.key@) {
            0
        } else {
            blocks[n - 1].meta.row_count as int
        })
    }
}

/// The rows of the first `n` arriving blocks.
pub open spec fn arriving_rows(upserts: Seq<LiveBlock>, n: int) -> int
    decreases n,
{
    if n <= 0 {
        0
    } else {
        arriving_rows(upserts, n - 1) + upserts[n - 1].meta.row_count
    }
}

/// The number of rows once an edit is applied.
pub open spec fn total_after(blocks: Seq<Block>, delta: LiveDelta) -> int {
    untouched_rows(blocks, delta, blocks.len() as int) + arriving_rows(
        delta.upserts@,
        delta.upserts@.len() as int,
    )
}

/// Why an edit is refused.
pub open spec fn refuses(
    index: LiveIndex,
    delta: LiveDelta,
    expanded: Seq<String>,
    error: ServiceError,
) -> bool {
    let n = delta.upserts@.len() as int;
    if delta.base_revision != index.revision || delta.revision != (if index.revision == u64::MAX {
        u64::MAX as int
    } else {
        index.revision + 1
    }) {
        error.is_invalid("Missing live revision; request replay."@)
    } else {
        ||| exists|i: int|
            0 <= i < n && (forall|k: int| 0 <= k < i ==> #[trigger] acceptable(delta, expanded, k))
                && #[trigger] refused_at(delta, expanded, i, error)
        ||| {
            &&& forall|k: int| 0 <= k < n ==> #[trigger] acceptable(delta, expanded, k)
            &&& total_after(index.blocks@, delta) != delta.total || total_after(
                index.blocks@,
                delta,
            ) > MAX_RENDER_ROWS
            &&& error.is_invalid("Live delta total mismatch."@)
        }
    }
}

/// Why the arriving block at `i` is refused.
pub open spec fn refused_at(
    delta: LiveDelta,
    expanded: Seq<String>,
    i: int,
    error: ServiceError,
) -> bool {
    if repeated(delta, i) {
        error.is_invalid("Duplicate live edit identity."@)
    } else {
        prepares(delta.upserts@[i], expanded, Err(error))
    }
}

/// Whether an edit can be applied.
pub open spec fn accepts(index: LiveIndex, delta: LiveDelta, expanded: Seq<String>) -> bool {
    &&& delta.base_revision == index.revision
    &&& delta.revision == (if index.revision == u64::MAX {
        u64::MAX as int
    } else {
        index.revision + 1
    })
    &&& forall|k: int|
        0 <= k < delta.upserts@.len() ==> #[trigger] acceptable(delta, expanded, k)
    &&& total_after(index.blocks@, delta) == delta.total
    &&& delta.total <= MAX_RENDER_ROWS
}

/// An edit that can be applied is not refused.
pub proof fn acceptable_edits_are_not_refused(
    index: LiveIndex,
    delta: LiveDelta,
    expanded: Seq<String>,
    error: ServiceError,
)
    requires
        accepts(index, delta, expanded),
    ensures
        !refuses(index, delta, expanded, error),
{
    if refuses(index, delta, expanded, error) {
        let i = choose|i: int|
            0 <= i < delta.upserts@.len() && (forall|k: int|
                0 <= k < i ==> #[trigger] acceptable(delta, expanded, k)) && #[trigger] refused_at(
                delta,
                expanded,
                i,
                error,
            );
        assert(acceptable(delta, expanded, i));
        let incoming = delta.upserts@[i];
        let block = choose|block: Block| prepares(incoming, expanded, Ok(block));
        expansion::valid_spans_are_not_refused(
            incoming.meta.spans@,
            None,
            incoming.meta.row_count as int,
            block.index.spans@,
            error,
        );
    }
}

/// A touched block leaves the section it named.
pub open spec fn leaves(
    blocks: Seq<Block>,
    delta: LiveDelta,
    group: Seq<char>,
    key: Seq<char>,
    n: int,
) -> bool {
    exists|i: int|
        0 <= i < n && (#[trigger] blocks[i]).meta.key@ == key && blocks[i].meta@.task_group == Some(
            group,
        ) && touched(delta, key)
}

/// An arriving block joins the section it names.
pub open spec fn joins(upserts: Seq<LiveBlock>, group: Seq<char>, key: Seq<char>, n: int) -> bool {
    exists|i: int|
        0 <= i < n && (#[trigger] upserts[i]).meta.key@ == key && upserts[i].meta@.task_group
            == Some(group)
}

/// Some arriving block names the section.
pub open spec fn named(upserts: Seq<LiveBlock>, group: Seq<char>, n: int) -> bool {
    exists|i: int| 0 <= i < n && (#[trigger] upserts[i]).meta@.task_group == Some(group)
}

/// The sections after blocks left, joined, and sections were dropped: a section
/// keeps its disclosure, and begins open.
pub open spec fn sections_after(
    sections: Map<Seq<char>, Section>,
    blocks: Seq<Block>,
    delta: LiveDelta,
    left: int,
    joined: int,
    dropped: int,
) -> Map<Seq<char>, Section> {
    Map::new(
        |group: Seq<char>|
            (sections.dom().contains(group) || named(delta.upserts@, group, joined))
                && !live::lists(delta.removed@.take(dropped), group),
        |group: Seq<char>|
            Section {
                collapsed: sections.dom().contains(group) && sections[group].collapsed,
                members: Set::new(
                    |key: Seq<char>|
                        (sections.dom().contains(group) && sections[group].members.contains(key)
                            && !leaves(blocks, delta, group, key, left)) || joins(
                            delta.upserts@,
                            group,
                            key,
                            joined,
                        ),
                ),
            },
    )
}

/// A block of the edited topology: an arriving one, exposed, or one left alone,
/// its folding taken anew where the graph says that it may have changed.
pub open spec fn edited_block(
    before: LiveIndex,
    delta: LiveDelta,
    expanded: Seq<String>,
    changed: Seq<String>,
    after: LiveIndex,
    block: Block,
) -> bool {
    ||| exists|j: int|
        0 <= j < delta.upserts@.len() && #[trigger] prepared_from(
            block,
            delta.upserts@[j],
            expanded,
        ) && block.exposed && !block.hidden && !block.summarized
    ||| exists|j: int|
        0 <= j < before.blocks@.len() && !touched(delta, (#[trigger] before.blocks@[j]).meta.key@)
            && block == (if live::lists(changed, before.blocks@[j].meta.key@) {
            tasks::refolded(before.blocks@[j], after.sections(), after.foldable@)
        } else {
            before.blocks@[j]
        })
}

/// Some block has the key.
pub open spec fn has_block(blocks: Seq<Block>, key: Seq<char>) -> bool {
    exists|i: int| 0 <= i < blocks.len() && (#[trigger] blocks[i]).meta.key@ == key
}

/// What applying an edit makes of the topology.
pub open spec fn edited(
    before: LiveIndex,
    delta: LiveDelta,
    expanded: Seq<String>,
    facts: GraphFacts,
    after: LiveIndex,
) -> bool {
    &&& after.revision == delta.revision
    &&& after.epoch == before.epoch
    &&& after.foldable@ == facts.foldable@
    &&& after.row_total() == delta.total
    &&& after.sections() == sections_after(
        before.sections(),
        before.blocks@,
        delta,
        before.blocks@.len() as int,
        delta.upserts@.len() as int,
        delta.removed@.len() as int,
    )
    &&& forall|i: int|
        0 <= i < after.blocks@.len() ==> edited_block(
            before,
            delta,
            expanded,
            facts.changed@,
            after,
            #[trigger] after.blocks@[i],
        )
    &&& forall|j: int|
        0 <= j < delta.upserts@.len() ==> has_block(
            after.blocks@,
            (#[trigger] delta.upserts@[j]).meta.key@,
        )
    &&& forall|j: int|
        0 <= j < before.blocks@.len() && !touched(delta, (#[trigger] before.blocks@[j]).meta.key@)
            ==> has_block(after.blocks@, before.blocks@[j].meta.key@)
}

/// The row counts of blocks.
spec fn row_counts(blocks: Seq<Block>) -> Seq<int> {
    Seq::new(blocks.len(), |i: int| blocks[i].meta.row_count as int)
}

proof fn lemma_start_is_sum(blocks: Seq<Block>, n: int)
    requires
        0 <= n <= blocks.len(),
    ensures
        live::start(blocks, n) == cache::sum(row_counts(blocks).take(n)),
    decreases n,
{
    if n > 0 {
        lemma_start_is_sum(blocks, n - 1);
        assert(row_counts(blocks).take(n).drop_last() =~= row_counts(blocks).take(n - 1));
    }
}

proof fn lemma_inserted(blocks: Seq<Block>, at: int, block: Block)
    requires
        live::blocks_ok(blocks),
        0 <= at <= blocks.len(),
        block.wf(),
        !has_block(blocks, block.meta.key@),
        forall|i: int| 0 <= i < at ==> live::precedes((#[trigger] blocks[i]).meta@, block.meta@),
        forall|i: int|
            at <= i < blocks.len() ==> live::precedes(block.meta@, (#[trigger] blocks[i]).meta@),
    ensures
        live::blocks_ok(blocks.insert(at, block)),
        live::start(blocks.insert(at, block), blocks.len() as int + 1) == live::start(
            blocks,
            blocks.len() as int,
        ) + block.meta.row_count,
{
    let after = blocks.insert(at, block);
    assert forall|i: int| 0 <= i < after.len() implies (#[trigger] after[i]).wf() by {
        if i != at {
            let k = if i < at { i } else { i - 1 };
            assert(after[i] == blocks[k]);
        }
    }
    assert forall|i: int, j: int| 0 <= i < j < after.len() implies live::precedes(
        (#[trigger] after[i]).meta@,
        (#[trigger] after[j]).meta@,
    ) && after[i].meta.key@ != after[j].meta.key@ by {
        let a = if i < at { i } else { i - 1 };
        let b = if j < at { j } else { j - 1 };
        if i != at && j != at {
            assert(after[i] == blocks[a] && after[j] == blocks[b]);
            assert(live::precedes(blocks[a].meta@, blocks[b].meta@));
        } else if i == at {
            assert(after[j] == blocks[b]);
        } else {
            assert(after[i] == blocks[a]);
        }
    }
    lemma_start_is_sum(after, after.len() as int);
    lemma_start_is_sum(blocks, blocks.len() as int);
    assert(row_counts(after).take(after.len() as int) =~= row_counts(blocks).insert(
        at,
        block.meta.row_count as int,
    ));
    assert(row_counts(blocks).take(blocks.len() as int) =~= row_counts(blocks));
    cache::lemma_sum_insert(row_counts(blocks), at, block.meta.row_count as int);
}

/// The block is at its place among the others, which keep their order.
pub open spec fn inserted(before: Seq<Block>, block: Block, after: Seq<Block>) -> bool {
    exists|at: int| 0 <= at <= before.len() && after == #[trigger] before.insert(at, block)
}

impl LiveIndex {
    /// Put a block at its place in the live order.
    fn insert_block(&mut self, block: Block)
        requires
            old(self).wf(),
            block.wf(),
            !has_block(old(self).blocks@, block.meta.key@),
            old(self).row_total() + block.meta.row_count <= MAX_RENDER_ROWS,
        ensures
            final(self).wf(),
            inserted(old(self).blocks@, block, final(self).blocks@),
            final(self).row_total() == old(self).row_total() + block.meta.row_count,
            final(self).groups == old(self).groups,
            final(self).epoch == old(self).epoch,
            final(self).revision == old(self).revision,
            final(self).foldable == old(self).foldable,
    {
        let ghost blocks = self.blocks@;
        let mut at: usize = 0;
        while at < self.blocks.len() && live::meta_precedes(&self.blocks[at].meta, &block.meta)
            invariant
                at <= self.blocks.len(),
                blocks == self.blocks@,
                forall|i: int|
                    0 <= i < at ==> live::precedes((#[trigger] blocks[i]).meta@, block.meta@),
            decreases self.blocks.len() - at,
        {
            at = at + 1;
        }
        proof {
            assert forall|i: int| at <= i < blocks.len() implies live::precedes(
                block.meta@,
                (#[trigger] blocks[i]).meta@,
            ) by {
                assert(blocks[at as int].meta.key@ != block.meta.key@);
                live::precedes_is_total(blocks[at as int].meta@, block.meta@);
                if i > at {
                    assert(live::precedes(blocks[at as int].meta@, blocks[i].meta@));
                    live::precedes_is_transitive(
                        block.meta@,
                        blocks[at as int].meta@,
                        blocks[i].meta@,
                    );
                }
            }
            lemma_inserted(blocks, at as int, block);
        }
        self.blocks.insert(at, block);
        assert(self.blocks@ == blocks.insert(at as int, block));
    }
}

/// Why a baseline is refused.
pub open spec fn baseline_refused(baseline: LiveBaseline, error: ServiceError) -> bool {
    let metas = baseline.blocks@;
    let n = metas.len() as int;
    ||| exists|i: int|
        0 <= i < n && #[trigger] baseline_block_refused(metas, i, error) && (forall|k: int|
            0 <= k < i ==> #[trigger] baseline_block_ok(metas, k))
    ||| {
        &&& forall|k: int| 0 <= k < n ==> #[trigger] baseline_block_ok(metas, k)
        &&& baseline_rows(metas, n) != baseline.total || baseline.total > MAX_RENDER_ROWS
        &&& error.is_invalid("Live bootstrap topology does not cover its total."@)
    }
}

/// The rows of the first `n` blocks of a baseline.
pub open spec fn baseline_rows(metas: Seq<LiveBlockMeta>, n: int) -> int
    decreases n,
{
    if n <= 0 {
        0
    } else {
        baseline_rows(metas, n - 1) + metas[n - 1].row_count
    }
}

/// An earlier block of the baseline has the key of the one at `i`.
pub open spec fn baseline_repeated(metas: Seq<LiveBlockMeta>, i: int) -> bool {
    exists|k: int| 0 <= k < i && (#[trigger] metas[k]).key@ == metas[i].key@
}

pub open spec fn baseline_block_refused(
    metas: Seq<LiveBlockMeta>,
    i: int,
    error: ServiceError,
) -> bool {
    let meta = metas[i];
    let size = Block::size_fault(meta@);
    if baseline_repeated(metas, i) {
        error.is_invalid("Duplicate live block."@)
    } else if size is Some {
        error.is_invalid(size->0)
    } else {
        expansion::validated(meta.spans@, None, meta.row_count as int, Err(error))
    }
}

pub open spec fn baseline_block_ok(metas: Seq<LiveBlockMeta>, i: int) -> bool {
    &&& !baseline_repeated(metas, i)
    &&& Block::size_fault(metas[i]@) is None
    &&& exists|spans: Seq<expansion::Span>| #[trigger]
        expansion::validated(metas[i].spans@, None, metas[i].row_count as int, Ok(spans))
}

/// A block of a fresh live view, before its folding is taken.
pub open spec fn baseline_block(block: Block, meta: LiveBlockMeta) -> bool {
    &&& block.wf()
    &&& block.meta@ == meta@
    &&& expansion::validated(
        meta.spans@,
        None,
        meta.row_count as int,
        Ok(block.index.spans@),
    )
    &&& block.index.expanded@ == Set::<i64>::empty()
    &&& !block.exposed
}

proof fn lemma_baseline_rows_monotone(metas: Seq<LiveBlockMeta>, i: int, n: int)
    requires
        0 <= i <= n,
    ensures
        0 <= baseline_rows(metas, i) <= baseline_rows(metas, n),
    decreases n,
{
    if i < n {
        lemma_baseline_rows_monotone(metas, i, n - 1);
    } else if i > 0 {
        lemma_baseline_rows_monotone(metas, i - 1, i - 1);
    }
}

fn copy_keys(keys: &Vec<String>) -> (copy: Vec<String>)
    ensures
        copy@ == keys@,
{
    let mut copy: Vec<String> = Vec::new();
    let mut i: usize = 0;
    while i < keys.len()
        invariant
            i <= keys.len(),
            copy@ == keys@.take(i as int),
        decreases keys.len() - i,
    {
        copy.push(keys[i].clone());
        i = i + 1;
    }
    assert(copy@ =~= keys@);
    copy
}

impl LiveIndex {
    /// Start a live view from a baseline and what the graph says of its blocks.
    pub fn new(baseline: &LiveBaseline, foldable: &Vec<String>) -> (index: Result<
        LiveIndex,
        ServiceError,
    >)
        ensures
            match index {
                Ok(index) => {
                    let metas = baseline.blocks@;
                    &&& index.wf()
                    &&& index.epoch == baseline.epoch
                    &&& index.revision == baseline.revision
                    &&& index.foldable@ == foldable@
                    &&& index.row_total() == baseline.total == baseline_rows(
                        metas,
                        metas.len() as int,
                    )
                    &&& index.sections() == tasks::bootstrapped(metas, metas.len() as int)
                    &&& index.blocks@.len() == metas.len()
                    &&& forall|i: int|
                        0 <= i < index.blocks@.len() ==> {
                            let block = #[trigger] index.blocks@[i];
                            &&& block == tasks::refolded(
                                block,
                                index.sections(),
                                index.foldable@,
                            )
                            &&& exists|j: int|
                                0 <= j < metas.len() && #[trigger] baseline_block(block, metas[j])
                        }
                    &&& forall|j: int|
                        0 <= j < metas.len() ==> has_block(
                            index.blocks@,
                            (#[trigger] metas[j]).key@,
                        )
                },
                Err(error) => baseline_refused(*baseline, error),
            },
    {
        let ghost metas = baseline.blocks@;
        let ghost n = metas.len() as int;
        let mut prepared: Vec<Block> = Vec::new();
        let mut total: u64 = 0;
        let mut i: usize = 0;
        while i < baseline.blocks.len()
            invariant
                i <= baseline.blocks.len(),
                metas == baseline.blocks@,
                n == metas.len(),
                prepared.len() == i,
                forall|k: int| 0 <= k < i ==> #[trigger] baseline_block_ok(metas, k),
                forall|k: int|
                    0 <= k < i ==> #[trigger] baseline_block(prepared@[k], metas[k])
                        && !prepared@[k].hidden && !prepared@[k].summarized,
                total == (if baseline_rows(metas, i as int) > u64::MAX {
                    u64::MAX as int
                } else {
                    baseline_rows(metas, i as int)
                }),
            decreases baseline.blocks.len() - i,
        {
            let meta = &baseline.blocks[i];
            let mut k: usize = 0;
            while k < i
                invariant
                    k <= i < metas.len(),
                    metas == baseline.blocks@,
                    *meta == metas[i as int],
                    forall|m: int| 0 <= m < i ==> #[trigger] baseline_block_ok(metas, m),
                    forall|m: int| 0 <= m < k ==> (#[trigger] metas[m]).key@ != meta.key@,
                decreases i - k,
            {
                if baseline.blocks[k].key == meta.key {
                    assert(baseline_repeated(metas, i as int)) by {
                        assert(metas[k as int].key@ == metas[i as int].key@);
                    }
                    let error = invalid("Duplicate live block.");
                    assert(baseline_block_refused(metas, i as int, error));
                    return Err(error);
                }
                k = k + 1;
            }
            match Block::new(meta) {
                Ok(block) => {
                    proof {
                        lemma_baseline_rows_monotone(metas, i as int, i + 1);
                        assert(baseline_block_ok(metas, i as int));
                        assert(baseline_block(block, metas[i as int]));
                    }
                    prepared.push(block);
                    total = total.saturating_add(meta.row_count);
                },
                Err(error) => {
                    assert(baseline_block_refused(metas, i as int, error));
                    return Err(error);
                },
            }
            i = i + 1;
        }
        if total != baseline.total || total > MAX_RENDER_ROWS as u64 {
            return Err(invalid("Live bootstrap topology does not cover its total."));
        }
        let mut index = LiveIndex {
            epoch: baseline.epoch.clone(),
            revision: baseline.revision,
            blocks: Vec::new(),
            groups: Vec::new(),
            foldable: copy_keys(foldable),
        };
        let ghost all = prepared@;
        for block in it: prepared
            invariant
                it.seq() == all,
                metas == baseline.blocks@,
                n == metas.len() == all.len(),
                index.wf(),
                index.groups@.len() == 0,
                index.epoch == baseline.epoch,
                index.revision == baseline.revision,
                index.foldable@ == foldable@,
                forall|k: int| 0 <= k < n ==> #[trigger] baseline_block_ok(metas, k),
                forall|k: int|
                    0 <= k < n ==> #[trigger] baseline_block(all[k], metas[k]) && !all[k].hidden
                        && !all[k].summarized,
                index.row_total() == baseline_rows(metas, it.index() as int),
                index.blocks@.len() == it.index(),
                baseline_rows(metas, n) <= MAX_RENDER_ROWS,
                forall|i: int|
                    0 <= i < index.blocks@.len() ==> exists|j: int|
                        0 <= j < it.index() && #[trigger] all[j] == #[trigger] index.blocks@[i],
                forall|j: int|
                    0 <= j < it.index() ==> has_block(index.blocks@, (#[trigger] metas[j]).key@),
        {
            let ghost k = it.index() as int;
            let ghost before = index.blocks@;
            proof {
                assert(block == all[k]);
                assert(baseline_block(all[k], metas[k]));
                lemma_baseline_rows_monotone(metas, k + 1, n);
                if has_block(before, block.meta.key@) {
                    let i = choose|i: int|
                        0 <= i < before.len() && (#[trigger] before[i]).meta.key@ == block.meta.key@;
                    let j = choose|j: int| 0 <= j < k && #[trigger] all[j] == before[i];
                    assert(baseline_block(all[j], metas[j]));
                    assert(metas[j].key@ == metas[k].key@);
                    assert(baseline_block_ok(metas, k));
                }
            }
            index.insert_block(block);
            proof {
                let at = choose|at: int|
                    0 <= at <= before.len() && index.blocks@ == #[trigger] before.insert(at, block);
                assert forall|i: int| 0 <= i < index.blocks@.len() implies exists|j: int|
                    0 <= j < k + 1 && #[trigger] all[j] == #[trigger] index.blocks@[i] by {
                    if i == at {
                        assert(all[k] == index.blocks@[i]);
                    } else {
                        let b = if i < at { i } else { i - 1 };
                        assert(index.blocks@[i] == before[b]);
                        let j = choose|j: int| 0 <= j < k && #[trigger] all[j] == before[b];
                        assert(all[j] == index.blocks@[i]);
                    }
                }
                assert forall|j: int| 0 <= j < k + 1 implies has_block(
                    index.blocks@,
                    (#[trigger] metas[j]).key@,
                ) by {
                    if j == k {
                        assert(index.blocks@[at].meta.key@ == metas[k].key@);
                    } else {
                        let i = choose|i: int|
                            0 <= i < before.len() && (#[trigger] before[i]).meta.key@
                                == metas[j].key@;
                        let b = if i < at { i } else { i + 1 };
                        assert(index.blocks@[b] == before[i]);
                    }
                }
            }
        }
        let ghost before = index.blocks@;
        proof {
            assert forall|i: int| 0 <= i < before.len() implies exists|j: int|
                0 <= j < metas.len() && (#[trigger] metas[j])@.key == (
                #[trigger] before[i]).meta.key@ by {
                let j = choose|j: int| 0 <= j < n && #[trigger] all[j] == before[i];
                assert(baseline_block(all[j], metas[j]));
                assert(metas[j]@.key == before[i].meta.key@);
            }
        }
        index.bootstrap_groups(&baseline.blocks);
        proof {
            let after = index.blocks@;
            assert forall|i: int| 0 <= i < after.len() implies {
                let block = #[trigger] after[i];
                &&& block == tasks::refolded(block, index.sections(), index.foldable@)
                &&& exists|j: int| 0 <= j < metas.len() && #[trigger] baseline_block(block, metas[j])
            } by {
                let j = choose|j: int| 0 <= j < n && #[trigger] all[j] == before[i];
                assert(baseline_block(all[j], metas[j]));
                assert(baseline_block(after[i], metas[j]));
            }
            assert forall|j: int| 0 <= j < metas.len() implies has_block(
                after,
                (#[trigger] metas[j]).key@,
            ) by {
                let i = choose|i: int|
                    0 <= i < before.len() && (#[trigger] before[i]).meta.key@ == metas[j].key@;
                assert(after[i].meta.key@ == metas[j].key@);
            }
            assert(tasks::same_topology(before, after));
            tasks::lemma_same_topology_ok(before, after);
        }
        Ok(index)
    }
}

proof fn lemma_untouched_rows(blocks: Seq<Block>, delta: LiveDelta, n: int)
    requires
        0 <= n <= blocks.len(),
    ensures
        0 <= untouched_rows(blocks, delta, n) <= live::start(blocks, n),
    decreases n,
{
    if n > 0 {
        lemma_untouched_rows(blocks, delta, n - 1);
    }
}

proof fn lemma_arriving_rows(upserts: Seq<LiveBlock>, i: int, n: int)
    requires
        0 <= i <= n,
    ensures
        0 <= arriving_rows(upserts, i) <= arriving_rows(upserts, n),
    decreases n,
{
    if i < n {
        lemma_arriving_rows(upserts, i, n - 1);
    } else if i > 0 {
        lemma_arriving_rows(upserts, i - 1, i - 1);
    }
}

pub(crate) fn is_touched(delta: &LiveDelta, key: &str) -> (yes: bool)
    ensures
        yes == touched(*delta, key@),
{
    if is_listed(&delta.removed, key) {
        return true;
    }
    is_upserted(delta, key, delta.upserts.len())
}

fn is_upserted(delta: &LiveDelta, key: &str, n: usize) -> (yes: bool)
    requires
        n <= delta.upserts.len(),
    ensures
        yes == upserted(delta.upserts@.take(n as int), key@),
        n == delta.upserts.len() ==> yes == upserted(delta.upserts@, key@),
{
    let mut i: usize = 0;
    let ghost first = delta.upserts@.take(n as int);
    while i < n
        invariant
            i <= n <= delta.upserts.len(),
            first == delta.upserts@.take(n as int),
            forall|k: int| 0 <= k < i ==> (#[trigger] first[k]).meta.key@ != key@,
        decreases n - i,
    {
        if same_text(delta.upserts[i].meta.key.as_str(), key) {
            assert(first[i as int].meta.key@ == key@);
            assert(delta.upserts@[i as int].meta.key@ == key@);
            return true;
        }
        i = i + 1;
    }
    assert(n == delta.upserts.len() ==> first =~= delta.upserts@);
    false
}

proof fn lemma_sections_left(
    sections: Map<Seq<char>, Section>,
    blocks: Seq<Block>,
    delta: LiveDelta,
    n: int,
)
    requires
        0 <= n < blocks.len(),
    ensures
        sections_after(sections, blocks, delta, n + 1, 0, 0) == (if touched(
            delta,
            blocks[n].meta.key@,
        ) {
            tasks::forgotten(sections_after(sections, blocks, delta, n, 0, 0), blocks[n].meta@)
        } else {
            sections_after(sections, blocks, delta, n, 0, 0)
        }),
{
    let meta = blocks[n].meta@;
    let a = sections_after(sections, blocks, delta, n, 0, 0);
    let b = sections_after(sections, blocks, delta, n + 1, 0, 0);
    let gone = touched(delta, meta.key);
    let expected = if gone {
        tasks::forgotten(a, meta)
    } else {
        a
    };
    assert forall|group: Seq<char>, key: Seq<char>| #[trigger]
        leaves(blocks, delta, group, key, n + 1) <==> leaves(blocks, delta, group, key, n) || (gone
            && meta.key == key && meta.task_group == Some(group)) by {
        if leaves(blocks, delta, group, key, n) {
            let i = choose|i: int|
                0 <= i < n && (#[trigger] blocks[i]).meta.key@ == key && blocks[i].meta@.task_group
                    == Some(group) && touched(delta, key);
            assert(blocks[i].meta.key@ == key);
        }
        if gone && meta.key == key && meta.task_group == Some(group) {
            assert(blocks[n].meta.key@ == key);
        }
    }
    assert(b.dom() =~= expected.dom());
    assert forall|group: Seq<char>| b.dom().contains(group) implies b[group] =~= #[trigger] expected[group] by {
        assert(b[group].members =~= expected[group].members);
    }
    assert(b =~= expected);
}

proof fn lemma_sections_joined(
    sections: Map<Seq<char>, Section>,
    blocks: Seq<Block>,
    delta: LiveDelta,
    left: int,
    n: int,
)
    requires
        0 <= n < delta.upserts@.len(),
    ensures
        sections_after(sections, blocks, delta, left, n + 1, 0) == tasks::registered(
            sections_after(sections, blocks, delta, left, n, 0),
            delta.upserts@[n].meta@,
        ),
{
    let upserts = delta.upserts@;
    let meta = upserts[n].meta@;
    let a = sections_after(sections, blocks, delta, left, n, 0);
    let b = sections_after(sections, blocks, delta, left, n + 1, 0);
    let expected = tasks::registered(a, meta);
    assert forall|group: Seq<char>, key: Seq<char>| #[trigger]
        joins(upserts, group, key, n + 1) <==> joins(upserts, group, key, n) || (meta.key == key
            && meta.task_group == Some(group)) by {
        if joins(upserts, group, key, n) {
            let i = choose|i: int|
                0 <= i < n && (#[trigger] upserts[i]).meta.key@ == key
                    && upserts[i].meta@.task_group == Some(group);
            assert(upserts[i].meta.key@ == key);
        }
        if meta.key == key && meta.task_group == Some(group) {
            assert(upserts[n].meta.key@ == key);
        }
    }
    assert forall|group: Seq<char>| #[trigger]
        named(upserts, group, n + 1) <==> named(upserts, group, n) || meta.task_group == Some(
            group,
        ) by {
        if named(upserts, group, n) {
            let i = choose|i: int|
                0 <= i < n && (#[trigger] upserts[i]).meta@.task_group == Some(group);
            assert(upserts[i].meta@.task_group == Some(group));
        }
        if meta.task_group == Some(group) {
            assert(upserts[n].meta@.task_group == Some(group));
        }
    }
    assert(delta.removed@.take(0) =~= Seq::empty());
    assert forall|group: Seq<char>| !live::lists(delta.removed@.take(0), group) by {}
    assert(b.dom() =~= expected.dom());
    assert forall|group: Seq<char>, key: Seq<char>| joins(upserts, group, key, n) implies #[trigger] named(
        upserts,
        group,
        n,
    ) && #[trigger] joins(upserts, group, key, n) by {
        let i = choose|i: int|
            0 <= i < n && (#[trigger] upserts[i]).meta.key@ == key && upserts[i].meta@.task_group
                == Some(group);
        assert(upserts[i].meta@.task_group == Some(group));
    }
    assert forall|group: Seq<char>| b.dom().contains(group) implies b[group] =~= #[trigger] expected[group] by {
        if meta.task_group == Some(group) && !a.dom().contains(group) {
            assert forall|key: Seq<char>| !joins(upserts, group, key, n) by {
                if joins(upserts, group, key, n) {
                    assert(named(upserts, group, n));
                }
            }
        }
        assert(b[group].members =~= expected[group].members);
    }
    assert(b =~= expected);
}

proof fn lemma_sections_dropped(
    sections: Map<Seq<char>, Section>,
    blocks: Seq<Block>,
    delta: LiveDelta,
    left: int,
    joined: int,
    n: int,
)
    requires
        0 <= n < delta.removed@.len(),
    ensures
        sections_after(sections, blocks, delta, left, joined, n + 1) == sections_after(
            sections,
            blocks,
            delta,
            left,
            joined,
            n,
        ).remove(delta.removed@[n]@),
{
    let a = sections_after(sections, blocks, delta, left, joined, n);
    let b = sections_after(sections, blocks, delta, left, joined, n + 1);
    assert forall|group: Seq<char>| #[trigger]
        live::lists(delta.removed@.take(n + 1), group) <==> live::lists(
            delta.removed@.take(n),
            group,
        ) || delta.removed@[n]@ == group by {
        tasks::lemma_lists_take(delta.removed@, n, group);
    }
    assert(b =~= a.remove(delta.removed@[n]@));
}

/// Every kept block stands among the blocks, every other is an arrived one.
spec fn merged(blocks: Seq<Block>, kept: Seq<Block>, arrived: Seq<Block>, n: int) -> bool {
    &&& forall|i: int|
        0 <= i < blocks.len() ==> kept.contains(#[trigger] blocks[i]) || exists|j: int|
            0 <= j < n && blocks[i] == exposed(#[trigger] arrived[j])
    &&& forall|i: int|
        0 <= i < kept.len() ==> has_block(blocks, (#[trigger] kept[i]).meta.key@)
    &&& forall|j: int|
        0 <= j < n ==> has_block(blocks, (#[trigger] arrived[j]).meta.key@)
}

/// A new or revised record remains visible, even inside a folded task.
pub open spec fn exposed(block: Block) -> Block {
    Block { exposed: true, ..block }
}

proof fn lemma_has_block_inserted(before: Seq<Block>, at: int, block: Block, key: Seq<char>)
    requires
        0 <= at <= before.len(),
    ensures
        has_block(before.insert(at, block), key) <==> has_block(before, key) || block.meta.key@
            == key,
{
    let after = before.insert(at, block);
    if has_block(before, key) {
        let i = choose|i: int| 0 <= i < before.len() && (#[trigger] before[i]).meta.key@ == key;
        let b = if i < at { i } else { i + 1 };
        assert(after[b] == before[i]);
    }
    if block.meta.key@ == key {
        assert(after[at].meta.key@ == key);
    }
    if has_block(after, key) {
        let i = choose|i: int| 0 <= i < after.len() && (#[trigger] after[i]).meta.key@ == key;
        if i != at {
            let b = if i < at { i } else { i - 1 };
            assert(after[i] == before[b]);
        }
    }
}

impl LiveIndex {
    /// Whether an edit follows the current revision.
    fn follows(&self, delta: &LiveDelta) -> (yes: bool)
        ensures
            yes == (delta.base_revision == self.revision && delta.revision == (if self.revision
                == u64::MAX {
                u64::MAX as int
            } else {
                self.revision + 1
            })),
    {
        delta.base_revision == self.revision && delta.revision == self.revision.saturating_add(1)
    }

    /// Check every arriving block of an edit.
    fn prepare_all(delta: &LiveDelta, expanded: &Vec<String>) -> (prepared: Result<
        Vec<Block>,
        ServiceError,
    >)
        ensures
            match prepared {
                Ok(blocks) => {
                    &&& blocks@.len() == delta.upserts@.len()
                    &&& forall|k: int|
                        0 <= k < blocks@.len() ==> prepares(
                            delta.upserts@[k],
                            expanded@,
                            Ok(#[trigger] blocks@[k]),
                        ) && !blocks@[k].exposed && !blocks@[k].hidden && !blocks@[k].summarized
                    &&& forall|k: int|
                        0 <= k < delta.upserts@.len() ==> #[trigger] acceptable(
                            *delta,
                            expanded@,
                            k,
                        )
                },
                Err(error) => exists|i: int|
                    0 <= i < delta.upserts@.len() && (forall|k: int|
                        0 <= k < i ==> #[trigger] acceptable(*delta, expanded@, k))
                        && #[trigger] refused_at(*delta, expanded@, i, error),
            },
    {
        let mut prepared: Vec<Block> = Vec::new();
        let mut i: usize = 0;
        while i < delta.upserts.len()
            invariant
                i <= delta.upserts.len(),
                prepared.len() == i,
                forall|k: int|
                    0 <= k < i ==> prepares(
                        delta.upserts@[k],
                        expanded@,
                        Ok(#[trigger] prepared@[k]),
                    ) && !prepared@[k].exposed && !prepared@[k].hidden && !prepared@[k].summarized,
                forall|k: int| 0 <= k < i ==> #[trigger] acceptable(*delta, expanded@, k),
            decreases delta.upserts.len() - i,
        {
            let incoming = &delta.upserts[i];
            if is_listed(&delta.removed, incoming.meta.key.as_str()) || is_upserted(
                delta,
                incoming.meta.key.as_str(),
                i,
            ) {
                let error = invalid("Duplicate live edit identity.");
                assert(refused_at(*delta, expanded@, i as int, error));
                return Err(error);
            }
            match prepare(incoming, expanded) {
                Ok(block) => {
                    assert(acceptable(*delta, expanded@, i as int));
                    prepared.push(block);
                },
                Err(error) => {
                    assert(refused_at(*delta, expanded@, i as int, error));
                    return Err(error);
                },
            }
            i = i + 1;
        }
        Ok(prepared)
    }

    /// The number of rows once an edit is applied, where it is a number.
    fn count_after(&self, delta: &LiveDelta) -> (total: u64)
        requires
            self.wf(),
        ensures
            total == (if total_after(self.blocks@, *delta) > u64::MAX {
                u64::MAX as int
            } else {
                total_after(self.blocks@, *delta)
            }),
    {
        let mut total: u64 = 0;
        let mut i: usize = 0;
        while i < self.blocks.len()
            invariant
                i <= self.blocks.len(),
                self.wf(),
                total == untouched_rows(self.blocks@, *delta, i as int),
            decreases self.blocks.len() - i,
        {
            proof {
                lemma_untouched_rows(self.blocks@, *delta, i + 1);
                live::lemma_start_monotone(self.blocks@, i + 1, self.blocks@.len() as int);
            }
            if !is_touched(delta, self.blocks[i].meta.key.as_str()) {
                total = total + self.blocks[i].meta.row_count;
            }
            i = i + 1;
        }
        let ghost kept = total as int;
        let mut i: usize = 0;
        while i < delta.upserts.len()
            invariant
                i <= delta.upserts.len(),
                0 <= kept,
                total == (if kept + arriving_rows(delta.upserts@, i as int) > u64::MAX {
                    u64::MAX as int
                } else {
                    kept + arriving_rows(delta.upserts@, i as int)
                }),
            decreases delta.upserts.len() - i,
        {
            proof {
                lemma_arriving_rows(delta.upserts@, i as int, i + 1);
            }
            total = total.saturating_add(delta.upserts[i].meta.row_count);
            i = i + 1;
        }
        total
    }

    /// Apply one revision's edits, given what the graph says once it holds them.
    /// A refused edit changes nothing.
    #[verifier::rlimit(60)]
    pub fn apply(&mut self, delta: &LiveDelta, expanded: &Vec<String>, facts: &GraphFacts) -> (
    applied: Result<(), ServiceError>)
        requires
            old(self).wf(),
        ensures
            final(self).wf(),
            match applied {
                Ok(_) => accepts(*old(self), *delta, expanded@) && edited(
                    *old(self),
                    *delta,
                    expanded@,
                    *facts,
                    *final(self),
                ),
                Err(error) => refuses(*old(self), *delta, expanded@, error) && *final(self) == *old(
                    self,
                ),
            },
    {
        if !self.follows(delta) {
            return Err(invalid("Missing live revision; request replay."));
        }
        let prepared = match LiveIndex::prepare_all(delta, expanded) {
            Ok(prepared) => prepared,
            Err(error) => {
                return Err(error);
            },
        };
        let total: u64 = self.count_after(delta);
        if total != delta.total || total > MAX_RENDER_ROWS as u64 {
            return Err(invalid("Live delta total mismatch."));
        }
        let ghost start = *self;
        let ghost blocks = self.blocks@;
        let ghost n = blocks.len() as int;
        let ghost sections = self.sections();
        let ghost whole = total_after(blocks, *delta);
        let mut taken: Vec<Block> = Vec::new();
        std::mem::swap(&mut taken, &mut self.blocks);
        proof {
            lemma_untouched_rows(blocks, *delta, n);
            lemma_arriving_rows(delta.upserts@, 0, delta.upserts@.len() as int);
            assert(sections_after(sections, blocks, *delta, 0, 0, 0) =~= sections) by {
                assert(delta.removed@.take(0) =~= Seq::empty());
                let a = sections_after(sections, blocks, *delta, 0, 0, 0);
                assert forall|group: Seq<char>| a.dom().contains(group) implies a[group]
                    =~= #[trigger] sections[group] by {
                    assert(a[group].members =~= sections[group].members);
                }
            }
        }
        let ghost untouched = |block: Block| !touched(*delta, block.meta.key@);
        let mut kept: Vec<Block> = Vec::new();
        assert(blocks.take(0).filter(untouched) =~= kept@) by {
            reveal(Seq::filter);
        }
        for block in it: taken
            invariant
                it.seq() == blocks,
                n == blocks.len(),
                untouched == (|block: Block| !touched(*delta, block.meta.key@)),
                kept@ == blocks.take(it.index() as int).filter(untouched),
                self.wf(),
                self.blocks@.len() == 0,
                self.epoch == start.epoch,
                self.revision == start.revision,
                self.sections() == sections_after(
                    sections,
                    blocks,
                    *delta,
                    it.index() as int,
                    0,
                    0,
                ),
        {
            let ghost k = it.index() as int;
            proof {
                assert(block == blocks[k]);
                assert(blocks.take(k + 1) =~= blocks.take(k).push(block));
                blocks.take(k).lemma_filter_push(block, untouched);
                lemma_sections_left(sections, blocks, *delta, k);
            }
            if is_touched(delta, block.meta.key.as_str()) {
                self.forget_member(&block.meta);
            } else {
                kept.push(block);
            }
        }
        let ghost still = kept@;
        proof {
            assert(blocks.take(n) =~= blocks);
            lemma_kept(blocks, *delta, still);
        }
        self.blocks = kept;
        let ghost arrived = prepared@;
        let ghost m = arrived.len() as int;
        assert forall|i: int| 0 <= i < still.len() implies has_block(
            still,
            (#[trigger] still[i]).meta.key@,
        ) by {}
        for block in it: prepared
            invariant
                it.seq() == arrived,
                m == arrived.len() == delta.upserts@.len(),
                self.wf(),
                self.epoch == start.epoch,
                self.revision == start.revision,
                whole == live::start(still, still.len() as int) + arriving_rows(delta.upserts@, m),
                whole <= MAX_RENDER_ROWS,
                self.row_total() == live::start(still, still.len() as int) + arriving_rows(
                    delta.upserts@,
                    it.index() as int,
                ),
                forall|k: int|
                    0 <= k < m ==> prepares(
                        delta.upserts@[k],
                        expanded@,
                        Ok(#[trigger] arrived[k]),
                    ) && !arrived[k].hidden && !arrived[k].summarized,
                forall|k: int| 0 <= k < m ==> #[trigger] acceptable(*delta, expanded@, k),
                forall|i: int|
                    0 <= i < still.len() ==> !touched(*delta, (#[trigger] still[i]).meta.key@),
                merged(self.blocks@, still, arrived, it.index() as int),
                self.sections() == sections_after(
                    sections,
                    blocks,
                    *delta,
                    n,
                    it.index() as int,
                    0,
                ),
        {
            let ghost k = it.index() as int;
            let ghost before = self.blocks@;
            let mut block = block;
            block.exposed = true;
            proof {
                assert(block == exposed(arrived[k]));
                assert(arrived[k].meta@ == delta.upserts@[k].meta@);
                lemma_arriving_rows(delta.upserts@, k + 1, m);
                lemma_sections_joined(sections, blocks, *delta, n, k);
                if has_block(before, block.meta.key@) {
                    let i = choose|i: int|
                        0 <= i < before.len() && (#[trigger] before[i]).meta.key@ == block.meta.key@;
                    assert(delta.upserts@[k].meta.key@ == block.meta.key@);
                    assert(touched(*delta, block.meta.key@));
                    if still.contains(before[i]) {
                        let s = choose|s: int| 0 <= s < still.len() && still[s] == before[i];
                        assert(!touched(*delta, still[s].meta.key@));
                    } else {
                        let j = choose|j: int|
                            0 <= j < k && before[i] == exposed(#[trigger] arrived[j]);
                        assert(arrived[j].meta@ == delta.upserts@[j].meta@);
                        assert(acceptable(*delta, expanded@, k));
                        assert(delta.upserts@.take(k)[j].meta.key@ == block.meta.key@);
                        assert(repeated(*delta, k));
                    }
                }
            }
            self.register_member(&block.meta);
            self.insert_block(block);
            proof {
                let at = choose|at: int|
                    0 <= at <= before.len() && self.blocks@ == #[trigger] before.insert(at, block);
                lemma_merged(before, still, arrived, k, at, block);
            }
        }
        let mut i: usize = 0;
        while i < delta.removed.len()
            invariant
                i <= delta.removed.len(),
                self.wf(),
                self.epoch == start.epoch,
                self.revision == start.revision,
                self.row_total() == whole,
                merged(self.blocks@, still, arrived, m),
                self.sections() == sections_after(sections, blocks, *delta, n, m, i as int),
            decreases delta.removed.len() - i,
        {
            proof {
                lemma_sections_dropped(sections, blocks, *delta, n, m, i as int);
            }
            self.drop_section(delta.removed[i].as_str());
            i = i + 1;
        }
        self.foldable = copy_keys(&facts.foldable);
        let ghost settled = self.blocks@;
        let ghost now = self.sections();
        let ghost foldable = self.foldable@;
        let mut i: usize = 0;
        while i < facts.changed.len()
            invariant
                i <= facts.changed.len(),
                self.wf(),
                self.epoch == start.epoch,
                self.revision == start.revision,
                self.sections() == now,
                self.foldable@ == foldable,
                foldable == facts.foldable@,
                tasks::same_topology(settled, self.blocks@),
                forall|k: int|
                    0 <= k < settled.len() ==> #[trigger] self.blocks@[k] == (if live::lists(
                        facts.changed@.take(i as int),
                        settled[k].meta.key@,
                    ) {
                        tasks::refolded(settled[k], now, foldable)
                    } else {
                        settled[k]
                    }),
            decreases facts.changed.len() - i,
        {
            let ghost step = self.blocks@;
            self.remeasure(facts.changed[i].as_str());
            proof {
                assert forall|k: int| 0 <= k < settled.len() implies #[trigger] self.blocks@[k] == (
                if live::lists(facts.changed@.take(i + 1), settled[k].meta.key@) {
                    tasks::refolded(settled[k], now, foldable)
                } else {
                    settled[k]
                }) by {
                    assert(step[k].meta == settled[k].meta);
                    tasks::lemma_lists_take(facts.changed@, i as int, settled[k].meta.key@);
                }
            }
            i = i + 1;
        }
        self.revision = delta.revision;
        proof {
            assert(facts.changed@.take(i as int) =~= facts.changed@);
            tasks::lemma_same_topology_ok(settled, self.blocks@);
            assert forall|i: int| 0 <= i < self.blocks@.len() implies edited_block(
                start,
                *delta,
                expanded@,
                facts.changed@,
                *self,
                #[trigger] self.blocks@[i],
            ) by {
                let block = self.blocks@[i];
                if still.contains(settled[i]) {
                    let s = choose|s: int| 0 <= s < still.len() && still[s] == settled[i];
                    let j = choose|j: int| 0 <= j < blocks.len() && blocks[j] == still[s];
                    assert(blocks[j] == settled[i]);
                } else {
                    let j = choose|j: int| 0 <= j < m && settled[i] == exposed(#[trigger] arrived[j]);
                    assert(block == settled[i]);
                    assert(prepared_from(block, delta.upserts@[j], expanded@));
                }
            }
            assert forall|j: int| 0 <= j < m implies has_block(
                self.blocks@,
                (#[trigger] delta.upserts@[j]).meta.key@,
            ) by {
                assert(arrived[j].meta@ == delta.upserts@[j].meta@);
                lemma_same_has_block(settled, self.blocks@, arrived[j].meta.key@);
            }
            assert forall|j: int| 0 <= j < blocks.len() && !touched(
                *delta,
                (#[trigger] blocks[j]).meta.key@,
            ) implies has_block(self.blocks@, blocks[j].meta.key@) by {
                assert(still.contains(blocks[j]));
                let s = choose|s: int| 0 <= s < still.len() && still[s] == blocks[j];
                assert(has_block(settled, still[s].meta.key@));
                lemma_same_has_block(settled, self.blocks@, blocks[j].meta.key@);
            }
        }
        Ok(())
    }
}

proof fn lemma_same_has_block(a: Seq<Block>, b: Seq<Block>, key: Seq<char>)
    requires
        tasks::same_topology(a, b),
        has_block(a, key),
    ensures
        has_block(b, key),
{
    let i = choose|i: int| 0 <= i < a.len() && (#[trigger] a[i]).meta.key@ == key;
    assert(b[i].meta == a[i].meta);
}

/// What an edit leaves alone is in order and counts its own rows.
proof fn lemma_kept(blocks: Seq<Block>, delta: LiveDelta, kept: Seq<Block>)
    requires
        live::blocks_ok(blocks),
        kept == blocks.filter(|block: Block| !touched(delta, block.meta.key@)),
    ensures
        live::blocks_ok(kept),
        live::start(kept, kept.len() as int) == untouched_rows(
            blocks,
            delta,
            blocks.len() as int,
        ),
        forall|i: int| 0 <= i < kept.len() ==> !touched(delta, (#[trigger] kept[i]).meta.key@),
        forall|i: int| 0 <= i < kept.len() ==> blocks.contains(#[trigger] kept[i]),
        forall|j: int|
            0 <= j < blocks.len() && !touched(delta, (#[trigger] blocks[j]).meta.key@)
                ==> kept.contains(blocks[j]),
    decreases blocks.len(),
{
    reveal(Seq::filter);
    let keep = |block: Block| !touched(delta, block.meta.key@);
    if blocks.len() > 0 {
        let shorter = blocks.drop_last();
        let last = blocks.last();
        let n = blocks.len() as int;
        assert(live::blocks_ok(shorter)) by {
            assert forall|i: int| 0 <= i < shorter.len() implies (#[trigger] shorter[i]).wf() by {
                assert(blocks[i].wf());
            }
            assert forall|i: int, j: int| 0 <= i < j < shorter.len() implies live::precedes(
                (#[trigger] shorter[i]).meta@,
                (#[trigger] shorter[j]).meta@,
            ) && shorter[i].meta.key@ != shorter[j].meta.key@ by {
                assert(live::precedes(blocks[i].meta@, blocks[j].meta@));
            }
        }
        let before = shorter.filter(keep);
        lemma_kept(shorter, delta, before);
        lemma_untouched_prefix(blocks, delta, n - 1);
        assert forall|i: int| 0 <= i < before.len() implies blocks.contains(
            #[trigger] before[i],
        ) by {
            let j = choose|j: int| 0 <= j < shorter.len() && shorter[j] == before[i];
            assert(blocks[j] == before[i]);
        }
        if keep(last) {
            assert(kept == before.push(last));
            assert(kept.drop_last() =~= before);
            lemma_start_prefix(kept, before, before.len() as int);
            assert(blocks[n - 1] == last);
            assert forall|i: int| 0 <= i < before.len() implies live::precedes(
                (#[trigger] before[i]).meta@,
                last.meta@,
            ) && before[i].meta.key@ != last.meta.key@ by {
                let j = choose|j: int| 0 <= j < shorter.len() && shorter[j] == before[i];
                assert(blocks[j] == before[i]);
                assert(live::precedes(blocks[j].meta@, blocks[n - 1].meta@));
            }
            assert forall|i: int| 0 <= i < kept.len() implies (#[trigger] kept[i]).wf() by {
                if i < before.len() {
                    assert(before[i].wf());
                } else {
                    assert(blocks[n - 1].wf());
                }
            }
            assert forall|i: int, j: int| 0 <= i < j < kept.len() implies live::precedes(
                (#[trigger] kept[i]).meta@,
                (#[trigger] kept[j]).meta@,
            ) && kept[i].meta.key@ != kept[j].meta.key@ by {
                assert(kept[i] == before[i]);
                if j < before.len() {
                    assert(live::precedes(before[i].meta@, before[j].meta@));
                }
            }
        } else {
            assert(kept == before);
        }
        assert forall|j: int| 0 <= j < n && !touched(
            delta,
            (#[trigger] blocks[j]).meta.key@,
        ) implies kept.contains(blocks[j]) by {
            if j == n - 1 {
                assert(kept[before.len() as int] == blocks[j]);
            } else {
                assert(shorter[j] == blocks[j]);
                let s = choose|s: int| 0 <= s < before.len() && before[s] == shorter[j];
                assert(kept[s] == blocks[j]);
            }
        }
    }
}

proof fn lemma_untouched_prefix(blocks: Seq<Block>, delta: LiveDelta, n: int)
    requires
        0 <= n < blocks.len(),
    ensures
        untouched_rows(blocks.drop_last(), delta, n) == untouched_rows(blocks, delta, n),
    decreases n,
{
    if n > 0 {
        lemma_untouched_prefix(blocks, delta, n - 1);
        assert(blocks.drop_last()[n - 1] == blocks[n - 1]);
    }
}

proof fn lemma_start_prefix(longer: Seq<Block>, shorter: Seq<Block>, n: int)
    requires
        0 <= n <= shorter.len(),
        shorter.len() < longer.len(),
        forall|i: int| 0 <= i < shorter.len() ==> longer[i] == #[trigger] shorter[i],
    ensures
        live::start(longer, n) == live::start(shorter, n),
    decreases n,
{
    if n > 0 {
        assert(longer[n - 1] == shorter[n - 1]);
        lemma_start_prefix(longer, shorter, n - 1);
    }
}

proof fn lemma_merged(
    before: Seq<Block>,
    still: Seq<Block>,
    arrived: Seq<Block>,
    k: int,
    at: int,
    block: Block,
)
    requires
        merged(before, still, arrived, k),
        0 <= k < arrived.len(),
        0 <= at <= before.len(),
        block == exposed(arrived[k]),
    ensures
        merged(before.insert(at, block), still, arrived, k + 1),
{
    let after = before.insert(at, block);
    assert forall|i: int| 0 <= i < after.len() implies still.contains(#[trigger] after[i])
        || exists|j: int| 0 <= j < k + 1 && after[i] == exposed(#[trigger] arrived[j]) by {
        if i == at {
            assert(after[i] == exposed(arrived[k]));
        } else {
            let b = if i < at { i } else { i - 1 };
            assert(after[i] == before[b]);
            if !still.contains(before[b]) {
                let j = choose|j: int| 0 <= j < k && before[b] == exposed(#[trigger] arrived[j]);
                assert(after[i] == exposed(arrived[j]));
            }
        }
    }
    assert forall|i: int| 0 <= i < still.len() implies has_block(
        after,
        (#[trigger] still[i]).meta.key@,
    ) by {
        lemma_has_block_inserted(before, at, block, still[i].meta.key@);
    }
    assert forall|j: int| 0 <= j < k + 1 implies has_block(
        after,
        (#[trigger] arrived[j]).meta.key@,
    ) by {
        lemma_has_block_inserted(before, at, block, arrived[j].meta.key@);
    }
}

/// A block is folded away only in a folded section, as a straight interior of a
/// causal path, and never as the summary of a task.
pub proof fn only_straight_interiors_fold_away(
    block: Block,
    sections: Map<Seq<char>, tasks::Section>,
    foldable: Seq<String>,
)
    requires
        block == tasks::refolded(block, sections, foldable),
        block.hidden,
    ensures
        live::lists(foldable, block.meta.key@),
        tasks::collapsed(sections, block.meta@.task_group),
        block.meta.task_summary is None,
        !block.exposed,
{
}

/// What an edit brings or revises is shown, also within a folded section.
pub proof fn arriving_blocks_are_shown(
    before: LiveIndex,
    delta: LiveDelta,
    expanded: Seq<String>,
    facts: GraphFacts,
    after: LiveIndex,
    i: int,
    j: int,
)
    requires
        edited(before, delta, expanded, facts, after),
        0 <= i < after.blocks@.len(),
        0 <= j < delta.upserts@.len(),
        after.blocks@[i].meta.key@ == delta.upserts@[j].meta.key@,
    ensures
        after.blocks@[i].exposed,
        !after.blocks@[i].hidden,
{
    assert(edited_block(before, delta, expanded, facts.changed@, after, after.blocks@[i]));
    assert(upserted(delta.upserts@, delta.upserts@[j].meta.key@));
}

/// A block that an edit makes part of a fork or a merge is shown.
pub proof fn blocks_that_no_longer_fold_are_shown(
    before: LiveIndex,
    delta: LiveDelta,
    expanded: Seq<String>,
    facts: GraphFacts,
    after: LiveIndex,
    i: int,
)
    requires
        edited(before, delta, expanded, facts, after),
        0 <= i < after.blocks@.len(),
        live::lists(facts.changed@, after.blocks@[i].meta.key@),
        !live::lists(facts.foldable@, after.blocks@[i].meta.key@),
    ensures
        !after.blocks@[i].hidden,
{
    assert(edited_block(before, delta, expanded, facts.changed@, after, after.blocks@[i]));
}

/// Toggling a section flips its disclosure and no other; doing it twice restores all of
/// them. Its members are no longer exposed, and all other blocks stay as they are.
pub proof fn sections_toggle_back_and_forth(
    before: LiveIndex,
    after: LiveIndex,
    again: LiveIndex,
    key: Seq<char>,
    other: Seq<char>,
    i: int,
)
    requires
        before.sections().dom().contains(key),
        section_toggled(before, after, key, true),
        section_toggled(after, again, key, true),
        0 <= i < before.blocks@.len(),
    ensures
        after.sections()[key].collapsed == !before.sections()[key].collapsed,
        after.sections()[key].members == before.sections()[key].members,
        other != key ==> (after.sections().dom().contains(other) <==> before.sections().dom().contains(
            other,
        )) && (before.sections().dom().contains(other) ==> after.sections()[other]
            == before.sections()[other]),
        again.sections() == before.sections(),
        after.blocks@[i].meta == before.blocks@[i].meta,
        before.sections()[key].members.contains(before.blocks@[i].meta.key@)
            ==> !after.blocks@[i].exposed,
        !before.sections()[key].members.contains(before.blocks@[i].meta.key@) ==> after.blocks@[i]
            == before.blocks@[i],
{
    assert(again.sections() =~= before.sections());
}

/// An opened section hides none of its own members.
pub proof fn opened_sections_show_their_members(
    before: LiveIndex,
    after: LiveIndex,
    key: Seq<char>,
    i: int,
)
    requires
        section_toggled(before, after, key, true),
        before.sections().dom().contains(key),
        before.sections()[key].collapsed,
        0 <= i < before.blocks@.len(),
        before.blocks@[i].meta.task_group matches Some(group) && group@ == key,
        before.sections()[key].members.contains(before.blocks@[i].meta.key@),
    ensures
        !after.blocks@[i].hidden,
        !after.blocks@[i].summarized,
{
    assert(after.blocks@[i] == tasks::retoggled(
        before.blocks@[i],
        before.sections()[key].members,
        after.sections(),
        before.foldable@,
    ));
}

/// Toggling the disclosure of a row opens or closes that row alone, where it encloses
/// others, and changes no other block.
pub proof fn one_disclosure_is_toggled(
    before: Seq<Block>,
    after: Seq<Block>,
    at: int,
    row: int,
    other: int,
    slot: i64,
)
    requires
        0 <= at < before.len(),
        0 <= row <= i64::MAX,
        block_toggled(before, after, at, row),
        0 <= other < before.len(),
    ensures
        other != at ==> after[other] == before[other],
        after[at].meta == before[at].meta,
        after[at].hidden == before[at].hidden,
        after[at].index.spans == before[at].index.spans,
        slot != row ==> after[at].index.expanded@.contains(slot)
            == before[at].index.expanded@.contains(slot),
        before[at].index.expandable(row) ==> after[at].index.expanded@.contains(row as i64)
            == !before[at].index.expanded@.contains(row as i64),
        !before[at].index.expandable(row) ==> after[at].index.expanded@.contains(row as i64)
            == before[at].index.expanded@.contains(row as i64),
{
}

/// A section keeps its disclosure through an edit and begins open; one whose key the edit
/// removes is gone. A block that arrives belongs to the section that it names, and one
/// that is left alone stays where it was.
pub proof fn sections_follow_their_blocks(
    before: LiveIndex,
    delta: LiveDelta,
    expanded: Seq<String>,
    facts: GraphFacts,
    after: LiveIndex,
    group: Seq<char>,
    key: Seq<char>,
)
    requires
        edited(before, delta, expanded, facts, after),
    ensures
        live::lists(delta.removed@, group) ==> !after.sections().dom().contains(group),
        after.sections().dom().contains(group) ==> after.sections()[group].collapsed == (
        before.sections().dom().contains(group) && before.sections()[group].collapsed),
        before.sections().dom().contains(group) && !live::lists(delta.removed@, group)
            ==> after.sections().dom().contains(group),
        forall|j: int|
            0 <= j < delta.upserts@.len() && (#[trigger] delta.upserts@[j]).meta.key@ == key && (
            delta.upserts@[j].meta.task_group matches Some(name) && name@ == group) && !live::lists(
                delta.removed@,
                group,
            ) ==> after.sections().dom().contains(group)
                && after.sections()[group].members.contains(key),
        after.sections().dom().contains(group) && before.sections().dom().contains(group) && !touched(
            delta,
            key,
        ) ==> after.sections()[group].members.contains(key)
            == before.sections()[group].members.contains(key),
{
    let n = delta.removed@.len() as int;
    assert(delta.removed@.take(n) =~= delta.removed@);
    assert forall|j: int|
        0 <= j < delta.upserts@.len() && (#[trigger] delta.upserts@[j]).meta.key@ == key && (
        delta.upserts@[j].meta.task_group matches Some(name) && name@ == group) && !live::lists(
            delta.removed@,
            group,
        ) implies after.sections().dom().contains(group) && after.sections()[group].members.contains(
        key,
    ) by {
        assert(delta.upserts@[j].meta@.task_group == Some(group));
        assert(named(delta.upserts@, group, delta.upserts@.len() as int));
        assert(joins(delta.upserts@, group, key, delta.upserts@.len() as int));
    }
}

/// After an edit the history holds the arriving blocks and those that it left alone, and
/// no others. An arriving block is as it was sent, with the rows open that the viewer had
/// open.
pub proof fn edits_keep_what_they_do_not_name(
    before: LiveIndex,
    delta: LiveDelta,
    expanded: Seq<String>,
    facts: GraphFacts,
    after: LiveIndex,
    key: Seq<char>,
)
    requires
        edited(before, delta, expanded, facts, after),
    ensures
        has_block(after.blocks@, key) <==> upserted(delta.upserts@, key) || has_block(
            before.blocks@,
            key,
        ) && !live::lists(delta.removed@, key),
        after.revision == delta.revision,
        after.epoch == before.epoch,
        after.row_total() == delta.total,
{
    if has_block(after.blocks@, key) {
        let i = choose|i: int|
            0 <= i < after.blocks@.len() && (#[trigger] after.blocks@[i]).meta.key@ == key;
        let block = after.blocks@[i];
        assert(edited_block(before, delta, expanded, facts.changed@, after, block));
        if exists|j: int|
            0 <= j < delta.upserts@.len() && #[trigger] prepared_from(
                block,
                delta.upserts@[j],
                expanded,
            ) && block.exposed && !block.hidden && !block.summarized {
            let j = choose|j: int|
                0 <= j < delta.upserts@.len() && #[trigger] prepared_from(
                    block,
                    delta.upserts@[j],
                    expanded,
                ) && block.exposed && !block.hidden && !block.summarized;
            assert(block.meta@.key == delta.upserts@[j].meta@.key);
            assert(delta.upserts@[j].meta.key@ == key);
        } else {
            let j = choose|j: int|
                0 <= j < before.blocks@.len() && !touched(
                    delta,
                    (#[trigger] before.blocks@[j]).meta.key@,
                ) && block == (if live::lists(facts.changed@, before.blocks@[j].meta.key@) {
                    tasks::refolded(before.blocks@[j], after.sections(), after.foldable@)
                } else {
                    before.blocks@[j]
                });
            assert(before.blocks@[j].meta.key@ == key);
        }
    }
    if upserted(delta.upserts@, key) {
        let j = choose|j: int|
            0 <= j < delta.upserts@.len() && (#[trigger] delta.upserts@[j]).meta.key@ == key;
        assert(has_block(after.blocks@, delta.upserts@[j].meta.key@));
    } else if has_block(before.blocks@, key) && !live::lists(delta.removed@, key) {
        let j = choose|j: int|
            0 <= j < before.blocks@.len() && (#[trigger] before.blocks@[j]).meta.key@ == key;
        assert(!touched(delta, before.blocks@[j].meta.key@));
        assert(has_block(after.blocks@, before.blocks@[j].meta.key@));
    }
}

/// An edit is taken only in its turn: it builds on the revision that the history stands at,
/// and is the next one.
pub proof fn edits_are_taken_in_their_turn(
    index: LiveIndex,
    delta: LiveDelta,
    expanded: Seq<String>,
    error: ServiceError,
)
    requires
        index.revision < u64::MAX,
    ensures
        accepts(index, delta, expanded) ==> delta.base_revision == index.revision && delta.revision
            == index.revision + 1,
        delta.base_revision != index.revision || delta.revision != index.revision + 1 ==> (refuses(
            index,
            delta,
            expanded,
            error,
        ) <==> error.is_invalid("Missing live revision; request replay."@)),
{
}

/// An edit that names one block twice, whether it removes it or brings it, is not taken,
/// nor is one whose blocks do not add up to the length that it announces.
pub proof fn contradictory_edits_are_not_taken(
    index: LiveIndex,
    delta: LiveDelta,
    expanded: Seq<String>,
    i: int,
    j: int,
)
    requires
        accepts(index, delta, expanded),
        0 <= i < j < delta.upserts@.len(),
    ensures
        delta.upserts@[i].meta.key@ != delta.upserts@[j].meta.key@,
        !live::lists(delta.removed@, delta.upserts@[i].meta.key@),
        !live::lists(delta.removed@, delta.upserts@[j].meta.key@),
        total_after(index.blocks@, delta) == delta.total,
        delta.upserts@[i].rows@.len() == delta.upserts@[i].meta.row_count,
{
    assert(acceptable(delta, expanded, i));
    assert(acceptable(delta, expanded, j));
    if delta.upserts@[i].meta.key@ == delta.upserts@[j].meta.key@ {
        assert(delta.upserts@.take(j)[i].meta.key@ == delta.upserts@[j].meta.key@);
    }
}

/// Every row that an edit leaves alone and every row that it brings counts once.
pub proof fn rows_add_up(blocks: Seq<Block>, upserts: Seq<LiveBlock>, delta: LiveDelta, n: int)
    requires
        0 <= n < blocks.len(),
    ensures
        untouched_rows(blocks, delta, n + 1) == untouched_rows(blocks, delta, n) + (if live::lists(
            delta.removed@,
            blocks[n].meta.key@,
        ) || (exists|i: int|
            0 <= i < delta.upserts@.len() && (#[trigger] delta.upserts@[i]).meta.key@
                == blocks[n].meta.key@) {
            0int
        } else {
            blocks[n].meta.row_count as int
        }),
        untouched_rows(blocks, delta, 0) == 0,
        n < upserts.len() ==> arriving_rows(upserts, n + 1) == arriving_rows(upserts, n)
            + upserts[n].meta.row_count,
        arriving_rows(upserts, 0) == 0,
        total_after(blocks, delta) == untouched_rows(blocks, delta, blocks.len() as int)
            + arriving_rows(delta.upserts@, delta.upserts@.len() as int),
{
}

/// A block that is brought has its own rows, each behind its parent, and opens exactly the
/// rows that can be opened and that the viewer had open.
pub proof fn arriving_blocks_open_what_was_open(
    block: Block,
    incoming: LiveBlock,
    expanded: Seq<String>,
    slot: i64,
)
    requires
        prepares(incoming, expanded, Ok(block)),
        0 <= slot < incoming.rows@.len(),
    ensures
        incoming.rows@.len() == incoming.meta.row_count,
        incoming.rows@[slot as int].parent_row matches Some(parent) ==> parent < slot,
        block.meta.key@ == incoming.meta.key@,
        block.meta.row_count == incoming.meta.row_count,
        block.index.expanded@.contains(slot) <==> block.index.expandable(slot as int) && live::lists(
            expanded,
            incoming.rows@[slot as int].continuity_key@,
        ),
{
    assert(block.meta@.key == incoming.meta@.key);
}

} // verus!
