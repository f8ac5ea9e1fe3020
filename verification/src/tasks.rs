//! Viewer-owned causal path disclosure. Appends touch only the changed member and
//! graph boundaries; only an explicit user toggle walks a section's members.

use crate::coordinates::ExpandedRow;
use crate::live::{self, is_listed, Block, Group, LiveIndex};
use crate::protocol::{LiveBlockMeta, MetaView, TaskStatus};
use crate::text::same_text;
use vstd::prelude::*;

verus! {

/// A section's disclosure and the keys of the blocks it folds.
#[verifier::ext_equal]
pub ghost struct Section {
    pub collapsed: bool,
    pub members: Set<Seq<char>>,
}

/// The section with a key, if it is known.
pub open spec fn known(groups: Seq<Group>, key: Seq<char>) -> bool {
    exists|i: int| 0 <= i < groups.len() && (#[trigger] groups[i]).key@ == key
}

/// What a group records.
pub open spec fn section(group: Group) -> Section {
    Section {
        collapsed: group.collapsed,
        members: Set::new(|key: Seq<char>| live::lists(group.members@, key)),
    }
}

/// Every known section by its key.
pub open spec fn sections(groups: Seq<Group>) -> Map<Seq<char>, Section> {
    Map::new(
        |key: Seq<char>| known(groups, key),
        |key: Seq<char>|
            section(groups[choose|i: int| 0 <= i < groups.len() && (#[trigger] groups[i]).key@ == key]),
    )
}

/// Whether a known section is folded.
pub open spec fn collapsed(sections: Map<Seq<char>, Section>, key: Option<Seq<char>>) -> bool {
    key is Some && sections.dom().contains(key->0) && sections[key->0].collapsed
}

/// The section of a key as it is, or as it begins.
pub open spec fn section_or_new(sections: Map<Seq<char>, Section>, key: Seq<char>) -> Section {
    if sections.dom().contains(key) {
        sections[key]
    } else {
        Section { collapsed: false, members: Set::empty() }
    }
}

/// The sections once a block is a member of its own.
pub open spec fn registered(sections: Map<Seq<char>, Section>, meta: MetaView) -> Map<
    Seq<char>,
    Section,
> {
    match meta.task_group {
        Some(group) => {
            let at = section_or_new(sections, group);
            sections.insert(group, Section { members: at.members.insert(meta.key), ..at })
        },
        None => sections,
    }
}

/// The sections once a block has left its own.
pub open spec fn forgotten(sections: Map<Seq<char>, Section>, meta: MetaView) -> Map<
    Seq<char>,
    Section,
> {
    match meta.task_group {
        Some(group) => if sections.dom().contains(group) {
            let at = sections[group];
            sections.insert(group, Section { members: at.members.remove(meta.key), ..at })
        } else {
            sections
        },
        None => sections,
    }
}

/// The sections once one of them is folded.
pub open spec fn folded(sections: Map<Seq<char>, Section>, group: Seq<char>) -> Map<
    Seq<char>,
    Section,
> {
    let at = section_or_new(sections, group);
    sections.insert(group, Section { collapsed: true, ..at })
}

/// The sections once the first `n` blocks are members of theirs and every
/// section that a completed task summarises is folded.
pub open spec fn bootstrapped(metas: Seq<LiveBlockMeta>, n: int) -> Map<Seq<char>, Section>
    decreases n,
{
    if n <= 0 {
        Map::empty()
    } else {
        let meta = metas[n - 1]@;
        let joined = registered(bootstrapped(metas, n - 1), meta);
        if meta.task_summary == Some(TaskStatus::Completed) && meta.task_group is Some {
            folded(joined, meta.task_group->0)
        } else {
            joined
        }
    }
}

/// The block with its folding taken from its section and the graph.
pub open spec fn refolded(
    block: Block,
    sections: Map<Seq<char>, Section>,
    foldable: Seq<String>,
) -> Block {
    let meta = block.meta@;
    let away = !block.exposed && collapsed(sections, meta.task_group);
    Block {
        hidden: away && meta.task_summary is None && live::lists(foldable, meta.key),
        summarized: away && meta.task_summary is Some,
        ..block
    }
}

/// The block once its section was toggled.
pub open spec fn concealed(block: Block) -> Block {
    Block { exposed: false, ..block }
}

/// The block shown whatever its section's disclosure.
pub open spec fn revealed(block: Block) -> Block {
    Block { exposed: true, hidden: false, summarized: false, ..block }
}

/// The same blocks in the same places, up to what folding changes.
pub open spec fn same_topology(a: Seq<Block>, b: Seq<Block>) -> bool {
    &&& a.len() == b.len()
    &&& forall|i: int|
        0 <= i < a.len() ==> (#[trigger] a[i]).meta == (#[trigger] b[i]).meta && a[i].index
            == b[i].index
}

proof fn lemma_same_start(a: Seq<Block>, b: Seq<Block>, i: int)
    requires
        same_topology(a, b),
        i <= a.len(),
    ensures
        live::start(a, i) == live::start(b, i),
    decreases i,
{
    if i > 0 {
        assert(a[i - 1].meta == b[i - 1].meta);
        lemma_same_start(a, b, i - 1);
    }
}

pub proof fn lemma_same_topology_ok(a: Seq<Block>, b: Seq<Block>)
    requires
        same_topology(a, b),
        live::blocks_ok(a),
    ensures
        live::blocks_ok(b),
        live::start(a, a.len() as int) == live::start(b, b.len() as int),
{
    lemma_same_start(a, b, a.len() as int);
    assert forall|i: int| 0 <= i < b.len() implies (#[trigger] b[i]).wf() by {
        assert(a[i].wf());
        assert(a[i].meta == b[i].meta);
    }
    assert forall|i: int, j: int| 0 <= i < j < b.len() implies live::precedes(
        (#[trigger] b[i]).meta@,
        (#[trigger] b[j]).meta@,
    ) && b[i].meta.key@ != b[j].meta.key@ by {
        assert(a[i].meta == b[i].meta && a[j].meta == b[j].meta);
    }
}

pub proof fn lemma_section_at(groups: Seq<Group>, i: int)
    requires
        live::groups_ok(groups),
        0 <= i < groups.len(),
    ensures
        known(groups, groups[i].key@),
        sections(groups)[groups[i].key@] == section(groups[i]),
{
    let key = groups[i].key@;
    let k = choose|k: int| 0 <= k < groups.len() && (#[trigger] groups[k]).key@ == key;
    assert(groups[i].key@ == key);
    assert(k == i);
}

proof fn lemma_sections_push(groups: Seq<Group>, group: Group)
    requires
        live::groups_ok(groups),
        !known(groups, group.key@),
    ensures
        live::groups_ok(groups.push(group)),
        sections(groups.push(group)) == sections(groups).insert(group.key@, section(group)),
{
    let after = groups.push(group);
    assert(live::groups_ok(after)) by {
        assert forall|i: int, j: int| 0 <= i < j < after.len() implies (#[trigger] after[i]).key@
            != (#[trigger] after[j]).key@ by {
            assert(after[i] == groups[i]);
        }
    }
    lemma_section_at(after, groups.len() as int);
    assert forall|key: Seq<char>| known(after, key) <==> (known(groups, key) || key
        == group.key@) by {
        if known(groups, key) {
            let i = choose|i: int| 0 <= i < groups.len() && (#[trigger] groups[i]).key@ == key;
            assert(after[i].key@ == key);
        }
        if key == group.key@ {
            assert(after[groups.len() as int].key@ == key);
        }
        if known(after, key) {
            let i = choose|i: int| 0 <= i < after.len() && (#[trigger] after[i]).key@ == key;
            if i < groups.len() {
                assert(groups[i].key@ == key);
            }
        }
    }
    assert forall|key: Seq<char>| known(groups, key) implies sections(after)[key] == sections(
        groups,
    )[key] by {
        let i = choose|i: int| 0 <= i < groups.len() && (#[trigger] groups[i]).key@ == key;
        lemma_section_at(groups, i);
        lemma_section_at(after, i);
        assert(after[i] == groups[i]);
    }
    assert(sections(after) =~= sections(groups).insert(group.key@, section(group)));
}

proof fn lemma_sections_update(groups: Seq<Group>, at: int, group: Group)
    requires
        live::groups_ok(groups),
        0 <= at < groups.len(),
        group.key@ == groups[at].key@,
    ensures
        live::groups_ok(groups.update(at, group)),
        sections(groups.update(at, group)) == sections(groups).insert(group.key@, section(group)),
{
    let after = groups.update(at, group);
    assert(live::groups_ok(after)) by {
        assert forall|i: int, j: int| 0 <= i < j < after.len() implies (#[trigger] after[i]).key@
            != (#[trigger] after[j]).key@ by {
            assert(after[i].key@ == groups[i].key@ && after[j].key@ == groups[j].key@);
        }
    }
    lemma_section_at(after, at);
    assert forall|key: Seq<char>| known(after, key) <==> known(groups, key) by {
        if known(groups, key) {
            let i = choose|i: int| 0 <= i < groups.len() && (#[trigger] groups[i]).key@ == key;
            assert(after[i].key@ == key);
        }
        if known(after, key) {
            let i = choose|i: int| 0 <= i < after.len() && (#[trigger] after[i]).key@ == key;
            assert(groups[i].key@ == key);
        }
    }
    assert forall|key: Seq<char>| known(groups, key) && key != group.key@ implies sections(
        after,
    )[key] == sections(groups)[key] by {
        let i = choose|i: int| 0 <= i < groups.len() && (#[trigger] groups[i]).key@ == key;
        lemma_section_at(groups, i);
        lemma_section_at(after, i);
    }
    assert(known(groups, group.key@)) by {
        assert(groups[at].key@ == group.key@);
    }
    assert(sections(after) =~= sections(groups).insert(group.key@, section(group)));
}

proof fn lemma_sections_remove(groups: Seq<Group>, at: int)
    requires
        live::groups_ok(groups),
        0 <= at < groups.len(),
    ensures
        live::groups_ok(groups.remove(at)),
        sections(groups.remove(at)) == sections(groups).remove(groups[at].key@),
{
    let after = groups.remove(at);
    let gone = groups[at].key@;
    assert(live::groups_ok(after)) by {
        assert forall|i: int, j: int| 0 <= i < j < after.len() implies (#[trigger] after[i]).key@
            != (#[trigger] after[j]).key@ by {
            let a = if i < at { i } else { i + 1 };
            let b = if j < at { j } else { j + 1 };
            assert(after[i] == groups[a] && after[j] == groups[b]);
        }
    }
    assert forall|key: Seq<char>| known(after, key) <==> (known(groups, key) && key != gone) by {
        if known(groups, key) && key != gone {
            let i = choose|i: int| 0 <= i < groups.len() && (#[trigger] groups[i]).key@ == key;
            let k = if i < at { i } else { i - 1 };
            assert(after[k] == groups[i]);
        }
        if known(after, key) {
            let i = choose|i: int| 0 <= i < after.len() && (#[trigger] after[i]).key@ == key;
            let k = if i < at { i } else { i + 1 };
            assert(after[i] == groups[k]);
            assert(groups[k].key@ == key);
            if key == gone {
                assert(k != at);
                assert(groups[at].key@ == groups[k].key@);
            }
        }
    }
    assert forall|key: Seq<char>| known(after, key) implies sections(after)[key] == sections(
        groups,
    )[key] by {
        let i = choose|i: int| 0 <= i < after.len() && (#[trigger] after[i]).key@ == key;
        let k = if i < at { i } else { i + 1 };
        assert(after[i] == groups[k]);
        lemma_section_at(after, i);
        lemma_section_at(groups, k);
    }
    assert(sections(after) =~= sections(groups).remove(gone));
}

/// The place of a section.
fn group_of(groups: &Vec<Group>, key: &str) -> (at: Option<usize>)
    ensures
        match at {
            Some(at) => at < groups.len() && groups@[at as int].key@ == key@,
            None => !known(groups@, key@),
        },
{
    let mut i: usize = 0;
    while i < groups.len()
        invariant
            i <= groups.len(),
            forall|k: int| 0 <= k < i ==> (#[trigger] groups@[k]).key@ != key@,
        decreases groups.len() - i,
    {
        if same_text(groups[i].key.as_str(), key) {
            return Some(i);
        }
        i = i + 1;
    }
    None
}

fn with_member(members: Vec<String>, key: &str) -> (with: Vec<String>)
    ensures
        forall|k: Seq<char>| #[trigger]
            live::lists(with@, k) <==> live::lists(members@, k) || k == key@,
{
    let listed = is_listed(&members, key);
    let mut with = members;
    if !listed {
        with.push(key.to_owned());
    }
    proof {
        assert forall|k: Seq<char>| #[trigger]
            live::lists(with@, k) <==> live::lists(members@, k) || k == key@ by {
            if live::lists(members@, k) {
                let i = choose|i: int| 0 <= i < members@.len() && (#[trigger] members@[i])@ == k;
                assert(with@[i]@ == k);
            }
            if k == key@ && !listed {
                assert(with@[members@.len() as int]@ == k);
            }
            if live::lists(with@, k) {
                let i = choose|i: int| 0 <= i < with@.len() && (#[trigger] with@[i])@ == k;
                if i < members@.len() {
                    assert(members@[i]@ == k);
                }
            }
        }
    }
    with
}

fn without_member(members: &Vec<String>, key: &str) -> (without: Vec<String>)
    ensures
        forall|k: Seq<char>| #[trigger]
            live::lists(without@, k) <==> live::lists(members@, k) && k != key@,
{
    let mut without: Vec<String> = Vec::new();
    let mut i: usize = 0;
    while i < members.len()
        invariant
            i <= members.len(),
            forall|m: int|
                0 <= m < without.len() ==> exists|j: int|
                    0 <= j < i && (#[trigger] members@[j])@ == (#[trigger] without@[m])@
                        && without@[m]@ != key@,
            forall|j: int|
                0 <= j < i && (#[trigger] members@[j])@ != key@ ==> live::lists(
                    without@,
                    members@[j]@,
                ),
        decreases members.len() - i,
    {
        let ghost before = without@;
        if !same_text(members[i].as_str(), key) {
            without.push(members[i].clone());
            assert(without@[before.len() as int]@ == members@[i as int]@);
        }
        proof {
            assert forall|j: int| 0 <= j < i + 1 && (#[trigger] members@[j])@ != key@ implies live::lists(
                without@,
                members@[j]@,
            ) by {
                if j < i {
                    let m = choose|m: int|
                        0 <= m < before.len() && (#[trigger] before[m])@ == members@[j]@;
                    assert(without@[m]@ == members@[j]@);
                }
            }
            assert forall|m: int| 0 <= m < without.len() implies exists|j: int|
                0 <= j < i + 1 && (#[trigger] members@[j])@ == (#[trigger] without@[m])@
                    && without@[m]@ != key@ by {
                if m < before.len() {
                    let j = choose|j: int|
                        0 <= j < i && (#[trigger] members@[j])@ == before[m]@ && before[m]@ != key@;
                    assert(members@[j]@ == without@[m]@);
                } else {
                    assert(members@[i as int]@ == without@[m]@);
                }
            }
        }
        i = i + 1;
    }
    proof {
        assert forall|k: Seq<char>| #[trigger]
            live::lists(without@, k) <==> live::lists(members@, k) && k != key@ by {
            if live::lists(without@, k) {
                let m = choose|m: int| 0 <= m < without@.len() && (#[trigger] without@[m])@ == k;
                let j = choose|j: int|
                    0 <= j < i && (#[trigger] members@[j])@ == without@[m]@ && without@[m]@ != key@;
                assert(members@[j]@ == k);
            }
            if live::lists(members@, k) && k != key@ {
                let j = choose|j: int| 0 <= j < members@.len() && (#[trigger] members@[j])@ == k;
                assert(live::lists(without@, members@[j]@));
            }
        }
    }
    without
}

impl LiveIndex {
    /// The sections by key.
    pub open spec fn sections(self) -> Map<Seq<char>, Section> {
        sections(self.groups@)
    }

    /// Record a block in the section it names.
    pub fn register_member(&mut self, meta: &LiveBlockMeta)
        requires
            old(self).wf(),
        ensures
            final(self).wf(),
            final(self).sections() == registered(old(self).sections(), meta@),
            final(self).blocks == old(self).blocks,
            final(self).epoch == old(self).epoch,
            final(self).revision == old(self).revision,
            final(self).foldable == old(self).foldable,
    {
        if let Some(name) = &meta.task_group {
            let ghost before = self.groups@;
            match group_of(&self.groups, name.as_str()) {
                Some(at) => {
                    let group = self.groups.remove(at);
                    let members = with_member(group.members, meta.key.as_str());
                    let group = Group { key: group.key, collapsed: group.collapsed, members };
                    proof {
                        lemma_section_at(before, at as int);
                        lemma_sections_update(before, at as int, group);
                        assert(section(group).members =~= section(before[at as int]).members.insert(
                            meta.key@,
                        ));
                    }
                    self.groups.insert(at, group);
                    assert(self.groups@ =~= before.update(at as int, group));
                },
                None => {
                    let members = with_member(Vec::new(), meta.key.as_str());
                    let group = Group { key: name.clone(), collapsed: false, members };
                    proof {
                        lemma_sections_push(before, group);
                        assert forall|k: Seq<char>| live::lists(Seq::<String>::empty(), k) implies false by {}
                        assert(section(group).members =~= Set::empty().insert(meta.key@));
                    }
                    self.groups.push(group);
                },
            }
        }
    }

    /// Take a block out of the section it names.
    pub fn forget_member(&mut self, meta: &LiveBlockMeta)
        requires
            old(self).wf(),
        ensures
            final(self).wf(),
            final(self).sections() == forgotten(old(self).sections(), meta@),
            final(self).blocks == old(self).blocks,
            final(self).epoch == old(self).epoch,
            final(self).revision == old(self).revision,
            final(self).foldable == old(self).foldable,
    {
        if let Some(name) = &meta.task_group {
            let ghost before = self.groups@;
            if let Some(at) = group_of(&self.groups, name.as_str()) {
                let group = self.groups.remove(at);
                let members = without_member(&group.members, meta.key.as_str());
                let group = Group { key: group.key, collapsed: group.collapsed, members };
                proof {
                    lemma_section_at(before, at as int);
                    lemma_sections_update(before, at as int, group);
                    assert(section(group).members =~= section(before[at as int]).members.remove(
                        meta.key@,
                    ));
                }
                self.groups.insert(at, group);
                assert(self.groups@ =~= before.update(at as int, group));
            }
        }
    }

    /// Drop a section.
    pub fn drop_section(&mut self, key: &str)
        requires
            old(self).wf(),
        ensures
            final(self).wf(),
            final(self).sections() == old(self).sections().remove(key@),
            final(self).blocks == old(self).blocks,
            final(self).epoch == old(self).epoch,
            final(self).revision == old(self).revision,
            final(self).foldable == old(self).foldable,
    {
        let ghost before = self.groups@;
        match group_of(&self.groups, key) {
            Some(at) => {
                proof {
                    lemma_sections_remove(before, at as int);
                }
                let _dropped = self.groups.remove(at);
            },
            None => {
                assert(sections(before).remove(key@) =~= sections(before));
            },
        }
    }

    /// Whether the block's section is folded.
    fn section_collapsed(&self, meta: &LiveBlockMeta) -> (yes: bool)
        requires
            self.wf(),
        ensures
            yes == collapsed(self.sections(), meta@.task_group),
    {
        match &meta.task_group {
            Some(name) => match group_of(&self.groups, name.as_str()) {
                Some(at) => {
                    proof {
                        lemma_section_at(self.groups@, at as int);
                    }
                    self.groups[at].collapsed
                },
                None => false,
            },
            None => false,
        }
    }

    /// Take a block's folding from its section and the graph.
    pub fn remeasure(&mut self, key: &str)
        requires
            old(self).wf(),
        ensures
            final(self).wf(),
            final(self).blocks@ == Seq::new(
                old(self).blocks@.len(),
                |i: int|
                    if old(self).blocks@[i].meta.key@ == key@ {
                        refolded(
                            old(self).blocks@[i],
                            old(self).sections(),
                            old(self).foldable@,
                        )
                    } else {
                        old(self).blocks@[i]
                    },
            ),
            final(self).groups == old(self).groups,
            final(self).epoch == old(self).epoch,
            final(self).revision == old(self).revision,
            final(self).foldable == old(self).foldable,
    {
        let ghost before = self.blocks@;
        match self.block_of(key) {
            Some(at) => {
                let away = !self.blocks[at].exposed && self.section_collapsed(
                    &self.blocks[at].meta,
                );
                let summary = self.blocks[at].meta.task_summary.is_some();
                let foldable = is_listed(&self.foldable, key);
                self.blocks[at].hidden = away && !summary && foldable;
                self.blocks[at].summarized = away && summary;
                proof {
                    let after = self.blocks@;
                    assert forall|i: int| 0 <= i < before.len() && i != at implies (
                    #[trigger] before[i]).meta.key@ != key@ by {
                        assert(before[at as int].meta.key@ == key@);
                    }
                    assert(same_topology(before, after));
                    lemma_same_topology_ok(before, after);
                }
            },
            None => {},
        }
        assert(self.blocks@ =~= Seq::new(
            before.len(),
            |i: int|
                if before[i].meta.key@ == key@ {
                    refolded(before[i], old(self).sections(), old(self).foldable@)
                } else {
                    before[i]
                },
        ));
    }
}

/// The block as toggling its section leaves it.
pub open spec fn retoggled(
    block: Block,
    members: Set<Seq<char>>,
    sections: Map<Seq<char>, Section>,
    foldable: Seq<String>,
) -> Block {
    if members.contains(block.meta.key@) {
        refolded(concealed(block), sections, foldable)
    } else {
        block
    }
}

impl LiveIndex {
    /// Flip a section; its members follow the new disclosure.
    pub fn toggle_group(&mut self, key: &str) -> (toggled: bool)
        requires
            old(self).wf(),
        ensures
            final(self).wf(),
            toggled == old(self).sections().dom().contains(key@),
            !toggled ==> *final(self) == *old(self),
            toggled ==> {
                let at = old(self).sections()[key@];
                &&& final(self).sections() == old(self).sections().insert(
                    key@,
                    Section { collapsed: !at.collapsed, ..at },
                )
                &&& final(self).blocks@ == Seq::new(
                    old(self).blocks@.len(),
                    |i: int|
                        retoggled(
                            old(self).blocks@[i],
                            at.members,
                            final(self).sections(),
                            old(self).foldable@,
                        ),
                )
            },
            final(self).epoch == old(self).epoch,
            final(self).revision == old(self).revision,
            final(self).foldable == old(self).foldable,
    {
        let at = match group_of(&self.groups, key) {
            Some(at) => at,
            None => {
                return false;
            },
        };
        let ghost before = self.groups@;
        let ghost blocks = self.blocks@;
        let ghost foldable = self.foldable@;
        let group = self.groups.remove(at);
        let mut members: Vec<String> = Vec::new();
        let mut i: usize = 0;
        while i < group.members.len()
            invariant
                i <= group.members.len(),
                members@ == group.members@.take(i as int),
            decreases group.members.len() - i,
        {
            members.push(group.members[i].clone());
            i = i + 1;
        }
        assert(members@ =~= group.members@);
        let group = Group { collapsed: !group.collapsed, ..group };
        proof {
            lemma_section_at(before, at as int);
            lemma_sections_update(before, at as int, group);
            assert(section(group).members =~= section(before[at as int]).members);
        }
        self.groups.insert(at, group);
        assert(self.groups@ =~= before.update(at as int, group));
        let ghost now = self.sections();
        let mut m: usize = 0;
        while m < members.len()
            invariant
                m <= members.len(),
                self.wf(),
                self.sections() == now,
                self.foldable@ == foldable,
                self.foldable == old(self).foldable,
                self.epoch == old(self).epoch,
                self.revision == old(self).revision,
                same_topology(blocks, self.blocks@),
                forall|i: int|
                    0 <= i < blocks.len() ==> #[trigger] self.blocks@[i] == (if live::lists(
                        members@.take(m as int),
                        blocks[i].meta.key@,
                    ) {
                        refolded(concealed(blocks[i]), now, foldable)
                    } else {
                        blocks[i]
                    }),
            decreases members.len() - m,
        {
            let ghost step = self.blocks@;
            let name: &str = members[m].as_str();
            if let Some(at) = self.block_of(name) {
                self.blocks[at].exposed = false;
                proof {
                    assert(same_topology(step, self.blocks@));
                    lemma_same_topology_ok(step, self.blocks@);
                }
            }
            let ghost exposed = self.blocks@;
            self.remeasure(name);
            proof {
                assert forall|i: int| 0 <= i < blocks.len() implies #[trigger] self.blocks@[i] == (
                if live::lists(members@.take(m + 1), blocks[i].meta.key@) {
                    refolded(concealed(blocks[i]), now, foldable)
                } else {
                    blocks[i]
                }) by {
                    let own = blocks[i].meta.key@;
                    assert(step[i].meta == blocks[i].meta);
                    lemma_lists_take(members@, m as int, own);
                    if own == name@ {
                        assert(exposed[i].meta.key@ == name@);
                        assert forall|k: int| 0 <= k < step.len() && step[k].meta.key@ == name@ implies k
                            == i by {
                            assert(step[i].meta.key@ == name@);
                        }
                    }
                }
            }
            m = m + 1;
        }
        proof {
            assert(members@.take(m as int) =~= members@);
            let at = section(before[at as int]);
            assert(self.blocks@ =~= Seq::new(
                blocks.len(),
                |i: int| retoggled(blocks[i], at.members, now, foldable),
            ));
        }
        true
    }

    /// Search reveals its exact member without opening the whole task.
    pub fn reveal_row(&mut self, row: ExpandedRow)
        requires
            old(self).wf(),
        ensures
            final(self).wf(),
            final(self).blocks@ == Seq::new(
                old(self).blocks@.len(),
                |i: int|
                    if live::holds_row(old(self).blocks@, i, row@) {
                        revealed(old(self).blocks@[i])
                    } else {
                        old(self).blocks@[i]
                    },
            ),
            final(self).groups == old(self).groups,
            final(self).epoch == old(self).epoch,
            final(self).revision == old(self).revision,
            final(self).foldable == old(self).foldable,
    {
        let ghost before = self.blocks@;
        match self.block_at(row.get()) {
            Some((at, _)) => {
                self.blocks[at].exposed = true;
                self.blocks[at].hidden = false;
                self.blocks[at].summarized = false;
                proof {
                    assert(same_topology(before, self.blocks@));
                    lemma_same_topology_ok(before, self.blocks@);
                    assert forall|i: int| 0 <= i < before.len() && i != at implies !live::holds_row(
                        before,
                        i,
                        row@,
                    ) by {
                        if live::holds_row(before, i, row@) {
                            live::lemma_holds_unique(before, i, at as int, row@);
                        }
                    }
                }
            },
            None => {
                assert forall|i: int| 0 <= i < before.len() implies !live::holds_row(
                    before,
                    i,
                    row@,
                ) by {
                    live::lemma_start_monotone(before, 0, i);
                    live::lemma_start_monotone(before, i + 1, before.len() as int);
                }
            },
        }
        assert(self.blocks@ =~= Seq::new(
            before.len(),
            |i: int|
                if live::holds_row(before, i, row@) {
                    revealed(before[i])
                } else {
                    before[i]
                },
        ));
    }

    /// Record every block in its section, fold the sections of completed tasks,
    /// and take every block's folding from them.
    pub fn bootstrap_groups(&mut self, metas: &Vec<LiveBlockMeta>)
        requires
            old(self).wf(),
            old(self).groups@.len() == 0,
            forall|i: int|
                0 <= i < old(self).blocks@.len() ==> exists|j: int|
                    0 <= j < metas@.len() && (#[trigger] metas@[j])@.key == (
                    #[trigger] old(self).blocks@[i]).meta.key@,
        ensures
            final(self).wf(),
            final(self).sections() == bootstrapped(metas@, metas@.len() as int),
            final(self).blocks@ == Seq::new(
                old(self).blocks@.len(),
                |i: int|
                    refolded(old(self).blocks@[i], final(self).sections(), old(self).foldable@),
            ),
            final(self).epoch == old(self).epoch,
            final(self).revision == old(self).revision,
            final(self).foldable == old(self).foldable,
    {
        let ghost blocks = self.blocks@;
        let ghost foldable = self.foldable@;
        let mut i: usize = 0;
        assert(sections(self.groups@) =~= Map::empty());
        while i < metas.len()
            invariant
                i <= metas.len(),
                self.wf(),
                self.blocks == old(self).blocks,
                self.foldable == old(self).foldable,
                self.epoch == old(self).epoch,
                self.revision == old(self).revision,
                self.sections() == bootstrapped(metas@, i as int),
            decreases metas.len() - i,
        {
            let meta = &metas[i];
            self.register_member(meta);
            if let Some(TaskStatus::Completed) = meta.task_summary {
                if let Some(name) = &meta.task_group {
                    let ghost before = self.groups@;
                    if let Some(at) = group_of(&self.groups, name.as_str()) {
                        self.groups[at].collapsed = true;
                        proof {
                            lemma_section_at(before, at as int);
                            lemma_sections_update(before, at as int, self.groups@[at as int]);
                            assert(self.groups@ =~= before.update(
                                at as int,
                                self.groups@[at as int],
                            ));
                        }
                    }
                }
            }
            i = i + 1;
        }
        let ghost now = self.sections();
        let mut i: usize = 0;
        while i < metas.len()
            invariant
                i <= metas.len(),
                self.wf(),
                self.sections() == now,
                self.foldable == old(self).foldable,
                foldable == self.foldable@,
                self.epoch == old(self).epoch,
                self.revision == old(self).revision,
                same_topology(blocks, self.blocks@),
                forall|k: int|
                    0 <= k < blocks.len() ==> (#[trigger] self.blocks@[k] == blocks[k]
                        || self.blocks@[k] == refolded(blocks[k], now, foldable)),
                forall|k: int, j: int|
                    0 <= k < blocks.len() && 0 <= j < i && (#[trigger] metas@[j])@.key == (
                    #[trigger] blocks[k]).meta.key@ ==> self.blocks@[k] == refolded(
                        blocks[k],
                        now,
                        foldable,
                    ),
            decreases metas.len() - i,
        {
            let ghost step = self.blocks@;
            self.remeasure(metas[i].key.as_str());
            proof {
                assert forall|k: int| 0 <= k < blocks.len() implies (#[trigger] self.blocks@[k]
                    == blocks[k] || self.blocks@[k] == refolded(blocks[k], now, foldable)) && (
                metas@[i as int]@.key == blocks[k].meta.key@ ==> self.blocks@[k] == refolded(
                    blocks[k],
                    now,
                    foldable,
                )) by {
                    assert(step[k].meta == blocks[k].meta);
                    assert(step[k] == blocks[k] || step[k] == refolded(blocks[k], now, foldable));
                }
                assert forall|k: int, j: int|
                    0 <= k < blocks.len() && 0 <= j < i + 1 && (#[trigger] metas@[j])@.key == (
                    #[trigger] blocks[k]).meta.key@ implies self.blocks@[k] == refolded(
                    blocks[k],
                    now,
                    foldable,
                ) by {
                    let at = self.blocks@[k];
                    if j < i {
                        assert(step[k] == refolded(blocks[k], now, foldable));
                    }
                }
            }
            i = i + 1;
        }
        proof {
            assert forall|k: int| 0 <= k < blocks.len() implies #[trigger] self.blocks@[k]
                == refolded(blocks[k], now, foldable) by {
                let j = choose|j: int|
                    0 <= j < metas@.len() && (#[trigger] metas@[j])@.key == blocks[k].meta.key@;
                assert(metas@[j]@.key == blocks[k].meta.key@);
            }
            assert(self.blocks@ =~= Seq::new(
                blocks.len(),
                |i: int| refolded(blocks[i], now, foldable),
            ));
        }
    }
}

pub proof fn lemma_lists_take(keys: Seq<String>, m: int, key: Seq<char>)
    requires
        0 <= m < keys.len(),
    ensures
        live::lists(keys.take(m + 1), key) <==> live::lists(keys.take(m), key) || keys[m]@ == key,
{
    if live::lists(keys.take(m), key) {
        let i = choose|i: int| 0 <= i < keys.take(m).len() && (#[trigger] keys.take(m)[i])@ == key;
        assert(keys.take(m + 1)[i]@ == key);
    }
    if keys[m]@ == key {
        assert(keys.take(m + 1)[m]@ == key);
    }
    if live::lists(keys.take(m + 1), key) {
        let i = choose|i: int|
            0 <= i < keys.take(m + 1).len() && (#[trigger] keys.take(m + 1)[i])@ == key;
        if i < m {
            assert(keys.take(m)[i]@ == key);
        }
    }
}

/// A member of a folded section that was not exposed is folded away where the graph lets
/// it be, or stands for the section where it summarises the task. Every other block is
/// shown as itself.
pub proof fn folded_sections_hide_their_interiors(
    block: Block,
    sections: Map<Seq<char>, Section>,
    foldable: Seq<String>,
    folded: bool,
)
    requires
        folded == (match block.meta.task_group {
            Some(group) => sections.dom().contains(group@) && sections[group@].collapsed,
            None => false,
        }),
    ensures
        ({
            let now = refolded(block, sections, foldable);
            &&& folded && !block.exposed && block.meta.task_summary is None ==> (now.hidden
                <==> exists|i: int|
                0 <= i < foldable.len() && (#[trigger] foldable[i])@ == block.meta.key@)
            &&& folded && !block.exposed && block.meta.task_summary is Some ==> !now.hidden
                && now.summarized
            &&& block.meta.task_summary is None ==> !now.summarized
            &&& !folded || block.exposed ==> !now.hidden && !now.summarized
            &&& now.meta == block.meta && now.index == block.index && now.exposed == block.exposed
        }),
{
}

/// Whether some of the first `n` blocks names a section.
pub open spec fn names_section(metas: Seq<LiveBlockMeta>, group: Seq<char>, n: int) -> bool {
    exists|i: int|
        0 <= i < n && ((#[trigger] metas[i]).task_group matches Some(name) && name@ == group)
}

/// Whether some of the first `n` blocks summarises the completed task of a section.
pub open spec fn completes_section(metas: Seq<LiveBlockMeta>, group: Seq<char>, n: int) -> bool {
    exists|i: int|
        0 <= i < n && (#[trigger] metas[i]).task_summary == Some(TaskStatus::Completed) && (
        metas[i].task_group matches Some(name) && name@ == group)
}

/// Whether some of the first `n` blocks has a key and names a section.
pub open spec fn member_of(
    metas: Seq<LiveBlockMeta>,
    group: Seq<char>,
    key: Seq<char>,
    n: int,
) -> bool {
    exists|i: int|
        0 <= i < n && (#[trigger] metas[i]).key@ == key && (metas[i].task_group matches Some(name)
            && name@ == group)
}

proof fn lemma_bootstrapped(metas: Seq<LiveBlockMeta>, group: Seq<char>, key: Seq<char>, n: int)
    requires
        0 <= n <= metas.len(),
    ensures
        ({
            let sections = bootstrapped(metas, n);
            &&& sections.dom().contains(group) <==> names_section(metas, group, n)
            &&& sections.dom().contains(group) ==> (sections[group].collapsed <==> completes_section(
                metas,
                group,
                n,
            ))
            &&& sections.dom().contains(group) ==> (sections[group].members.contains(key)
                <==> member_of(metas, group, key, n))
        }),
    decreases n,
{
    if n > 0 {
        lemma_bootstrapped(metas, group, key, n - 1);
        let meta = metas[n - 1];
        let names = meta.task_group matches Some(name) && name@ == group;
        assert(names_section(metas, group, n) <==> names_section(metas, group, n - 1) || names) by {
            if names_section(metas, group, n - 1) {
                let i = choose|i: int|
                    0 <= i < n - 1 && ((#[trigger] metas[i]).task_group matches Some(name) && name@
                        == group);
                assert(metas[i].task_group matches Some(name) && name@ == group);
            }
        }
        assert(completes_section(metas, group, n) <==> completes_section(metas, group, n - 1)
            || names && meta.task_summary == Some(TaskStatus::Completed)) by {
            if completes_section(metas, group, n - 1) {
                let i = choose|i: int|
                    0 <= i < n - 1 && (#[trigger] metas[i]).task_summary == Some(
                        TaskStatus::Completed,
                    ) && (metas[i].task_group matches Some(name) && name@ == group);
                assert(metas[i].task_summary == Some(TaskStatus::Completed));
            }
        }
        assert(member_of(metas, group, key, n) <==> member_of(metas, group, key, n - 1) || names
            && meta.key@ == key) by {
            if member_of(metas, group, key, n - 1) {
                let i = choose|i: int|
                    0 <= i < n - 1 && (#[trigger] metas[i]).key@ == key && (
                    metas[i].task_group matches Some(name) && name@ == group);
                assert(metas[i].key@ == key);
            }
        }
        if !names_section(metas, group, n - 1) {
            assert(!completes_section(metas, group, n - 1)) by {
                if completes_section(metas, group, n - 1) {
                    let i = choose|i: int|
                        0 <= i < n - 1 && (#[trigger] metas[i]).task_summary == Some(
                            TaskStatus::Completed,
                        ) && (metas[i].task_group matches Some(name) && name@ == group);
                    assert(metas[i].task_group matches Some(name) && name@ == group);
                }
            }
            assert(!member_of(metas, group, key, n - 1)) by {
                if member_of(metas, group, key, n - 1) {
                    let i = choose|i: int|
                        0 <= i < n - 1 && (#[trigger] metas[i]).key@ == key && (
                        metas[i].task_group matches Some(name) && name@ == group);
                    assert(metas[i].task_group matches Some(name) && name@ == group);
                }
            }
        }
    }
}

/// A history begins with the sections that its blocks name, each with exactly these
/// blocks. A section is folded if and only if a block summarises its completed task.
pub proof fn completed_tasks_begin_folded(
    metas: Seq<LiveBlockMeta>,
    group: Seq<char>,
    key: Seq<char>,
)
    ensures
        ({
            let n = metas.len() as int;
            let sections = bootstrapped(metas, n);
            &&& sections.dom().contains(group) <==> names_section(metas, group, n)
            &&& sections.dom().contains(group) ==> (sections[group].collapsed <==> completes_section(
                metas,
                group,
                n,
            ))
            &&& sections.dom().contains(group) ==> (sections[group].members.contains(key)
                <==> member_of(metas, group, key, n))
        }),
{
    lemma_bootstrapped(metas, group, key, metas.len() as int);
}

/// A block that joins a section and leaves it again was never a member; a section is not
/// folded or opened by that.
pub proof fn leaving_undoes_joining(sections: Map<Seq<char>, Section>, meta: MetaView)
    requires
        meta.task_group matches Some(group) && sections.dom().contains(group)
            && !sections[group].members.contains(meta.key),
    ensures
        forgotten(registered(sections, meta), meta) == sections,
        registered(sections, meta)[meta.task_group->0].members.contains(meta.key),
        registered(sections, meta)[meta.task_group->0].collapsed
            == sections[meta.task_group->0].collapsed,
{
    let group = meta.task_group->0;
    let joined = registered(sections, meta);
    assert(joined[group].members.remove(meta.key) =~= sections[group].members);
    assert(forgotten(joined, meta) =~= sections);
}

} // verus!
