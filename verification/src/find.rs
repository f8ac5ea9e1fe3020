//! Find lifecycle, result cursor, and pending destination share one owner.

use crate::coordinates::ExpandedRow;
use vstd::prelude::*;

verus! {

#[derive(Debug, Clone)]
pub struct FindMatch {
    pub row: ExpandedRow,
    pub node_key: String,
}

#[derive(Debug, Clone, Copy, PartialEq, Eq)]
pub struct FindTarget {
    pub abs: ExpandedRow,
    pub index: usize,
}

#[derive(Debug, Clone, Copy)]
pub enum Cursor {
    Loading(usize),
    Ready(usize),
}

impl Cursor {
    pub open spec fn at(self) -> usize {
        match self {
            Cursor::Loading(index) => index,
            Cursor::Ready(index) => index,
        }
    }

    pub fn index(self) -> (index: usize)
        ensures
            index == self.at(),
    {
        match self {
            Cursor::Loading(index) => index,
            Cursor::Ready(index) => index,
        }
    }
}

#[derive(Debug, Clone)]
pub struct Results {
    pub query: String,
    pub matches: Vec<FindMatch>,
    pub more: bool,
    pub cursor: Option<Cursor>,
}

#[derive(Debug, Clone)]
pub enum Phase {
    Idle,
    Pending { query: String, epoch: u64 },
    Settled(Results),
    Failed { query: String },
}

#[derive(Debug, Clone)]
pub struct FindSession {
    pub epoch: u64,
    pub phase: Phase,
}

impl FindSession {
    /// The cursor stands on a match.
    pub open spec fn wf(self) -> bool {
        self.phase matches Phase::Settled(results) ==> (results.cursor matches Some(cursor)
            ==> cursor.at() < results.matches@.len())
    }

    /// The query that the session is about.
    pub open spec fn subject(self) -> Seq<char> {
        match self.phase {
            Phase::Idle => Seq::empty(),
            Phase::Pending { query, .. } => query@,
            Phase::Settled(results) => results.query@,
            Phase::Failed { query } => query@,
        }
    }

    /// The matches of a settled search.
    pub open spec fn found(self) -> Seq<FindMatch> {
        match self.phase {
            Phase::Settled(results) => results.matches@,
            _ => Seq::empty(),
        }
    }

    /// The match that the cursor stands on; the first one before any focus.
    pub open spec fn position(self) -> int {
        match self.phase {
            Phase::Settled(results) => match results.cursor {
                Some(cursor) => cursor.at() as int,
                None => 0,
            },
            _ => 0,
        }
    }

    /// A session that nothing was searched in.
    pub fn new() -> (session: FindSession)
        ensures
            session.wf(),
            session.epoch == 0,
            session.phase is Idle,
    {
        FindSession { epoch: 0, phase: Phase::Idle }
    }

    pub fn clear(&mut self)
        ensures
            final(self).wf(),
            final(self).phase is Idle,
            final(self).epoch == old(self).epoch,
    {
        self.phase = Phase::Idle;
    }

    /// Start a search; its epoch tells its response from those of earlier ones.
    pub fn begin(&mut self, query: &str) -> (epoch: u64)
        ensures
            final(self).wf(),
            epoch == final(self).epoch,
            epoch == (if old(self).epoch == u64::MAX {
                u64::MAX as int
            } else {
                old(self).epoch + 1
            }),
            final(self).phase matches Phase::Pending { query: pending, epoch: begun }
                && pending@ == query@ && begun == epoch,
    {
        self.epoch = self.epoch.saturating_add(1);
        self.phase = Phase::Pending { query: query.to_owned(), epoch: self.epoch };
        self.epoch
    }

    /// Publish the results of the pending search; no other phase takes them.
    pub fn settle(&mut self, matches: Vec<FindMatch>, more: bool)
        ensures
            final(self).epoch == old(self).epoch,
            match old(self).phase {
                Phase::Pending { query, .. } => final(self).phase == Phase::Settled(
                    Results { query, matches, more, cursor: None },
                ),
                _ => *final(self) == *old(self),
            },
            old(self).wf() ==> final(self).wf(),
    {
        if let Phase::Pending { query, .. } = &self.phase {
            self.phase = Phase::Settled(
                Results { query: query.clone(), matches, more, cursor: None },
            );
        }
    }

    pub fn fail(&mut self)
        ensures
            final(self).wf(),
            final(self).epoch == old(self).epoch,
            final(self).phase matches Phase::Failed { query } && query@ == old(self).subject(),
    {
        let query = self.query().to_owned();
        self.phase = Phase::Failed { query };
    }

    pub fn query(&self) -> (query: &str)
        ensures
            query@ == self.subject(),
    {
        match &self.phase {
            Phase::Idle => {
                proof {
                    reveal_strlit("");
                }
                assert(""@ =~= Seq::<char>::empty());
                ""
            },
            Phase::Pending { query, .. } => query.as_str(),
            Phase::Failed { query } => query.as_str(),
            Phase::Settled(results) => results.query.as_str(),
        }
    }

    pub fn pending_epoch(&self) -> (epoch: Option<u64>)
        ensures
            epoch == match self.phase {
                Phase::Pending { epoch, .. } => Some(epoch),
                _ => None,
            },
    {
        if let Phase::Pending { epoch, .. } = &self.phase {
            Some(*epoch)
        } else {
            None
        }
    }

    pub fn active(&self) -> (active: bool)
        ensures
            active == (self.phase is Settled),
    {
        matches!(self.phase, Phase::Settled(_))
    }

    pub fn matches(&self) -> (matches: &[FindMatch])
        ensures
            matches@ == self.found(),
    {
        if let Phase::Settled(results) = &self.phase {
            results.matches.as_slice()
        } else {
            &[]
        }
    }

    pub fn index(&self) -> (index: usize)
        ensures
            index == self.position(),
    {
        if let Phase::Settled(results) = &self.phase {
            match results.cursor {
                Some(cursor) => cursor.index(),
                None => 0,
            }
        } else {
            0
        }
    }

    pub fn more(&self) -> (more: bool)
        ensures
            more == (self.phase matches Phase::Settled(results) && results.more),
    {
        if let Phase::Settled(results) = &self.phase {
            results.more
        } else {
            false
        }
    }

    /// Put the cursor on a match whose row is still to be loaded.
    pub fn focus(&mut self, index: usize) -> (row: Option<ExpandedRow>)
        ensures
            row is Some <==> index < old(self).found().len(),
            row is None ==> *final(self) == *old(self),
            row matches Some(row) ==> row == old(self).found()[index as int].row && final(self).phase
                == Phase::Settled(
                Results {
                    cursor: Some(Cursor::Loading(index)),
                    ..old(self).phase->Settled_0
                },
            ),
            final(self).epoch == old(self).epoch,
            old(self).wf() ==> final(self).wf(),
    {
        if let Phase::Settled(results) = &mut self.phase {
            if index < results.matches.len() {
                let row = results.matches[index].row;
                results.cursor = Some(Cursor::Loading(index));
                return Some(row);
            }
        }
        None
    }

    /// The match whose row is still to be loaded.
    pub fn pending_target(&self) -> (target: Option<FindTarget>)
        requires
            self.wf(),
        ensures
            match target {
                Some(target) => {
                    &&& self.phase matches Phase::Settled(results)
                    &&& results.cursor == Some(Cursor::Loading(target.index))
                    &&& target.abs == results.matches@[target.index as int].row
                },
                None => !(self.phase matches Phase::Settled(results) && (results.cursor matches Some(
                    cursor,
                ) && cursor is Loading)),
            },
    {
        if let Phase::Settled(results) = &self.phase {
            if let Some(Cursor::Loading(index)) = results.cursor {
                return Some(FindTarget { abs: results.matches[index].row, index });
            }
        }
        None
    }

    /// The focused match's row arrived.
    pub fn complete_jump(&mut self)
        ensures
            final(self).epoch == old(self).epoch,
            match old(self).phase {
                Phase::Settled(results) => final(self).phase == Phase::Settled(
                    Results {
                        cursor: match results.cursor {
                            Some(cursor) => Some(Cursor::Ready(cursor.at())),
                            None => None,
                        },
                        ..results
                    },
                ),
                _ => *final(self) == *old(self),
            },
            old(self).wf() ==> final(self).wf(),
    {
        if let Phase::Settled(results) = &mut self.phase {
            results.cursor = match results.cursor {
                Some(cursor) => Some(Cursor::Ready(cursor.index())),
                None => None,
            };
        }
    }

    /// The match `delta` steps from the cursor, wrapping at both ends.
    pub fn next_index(&self, delta: isize) -> (index: Option<usize>)
        requires
            self.wf(),
        ensures
            index is None <==> self.found().len() == 0,
            index matches Some(index) ==> index == (self.position() + delta) % (
            self.found().len() as int) && index < self.found().len(),
    {
        let len: usize = self.matches().len();
        if len == 0 {
            return None;
        }
        let index: usize = self.index();
        let distance: usize = if delta >= 0 {
            delta as usize
        } else {
            (-(delta + 1)) as usize + 1
        };
        let step: usize = distance % len;
        proof {
            let n = len as int;
            let q = distance as int / n;
            vstd::arithmetic::div_mod::lemma_fundamental_div_mod(distance as int, n);
            assert(distance as int == n * q + step);
            if delta >= 0 {
                vstd::arithmetic::div_mod::lemma_mod_multiples_vanish(q, index + step, n);
                assert(n * q + (index + step) == index + delta);
            } else {
                vstd::arithmetic::div_mod::lemma_mod_multiples_vanish(-q, index - step, n);
                assert(n * (-q) == -(n * q)) by (nonlinear_arith);
                assert(n * (-q) + (index - step) == index + delta);
            }
        }
        if delta >= 0 {
            if index < len - step {
                proof {
                    vstd::arithmetic::div_mod::lemma_small_mod((index + step) as nat, len as nat);
                }
                Some(index + step)
            } else {
                proof {
                    vstd::arithmetic::div_mod::lemma_mod_multiples_vanish(
                        1,
                        index - (len - step),
                        len as int,
                    );
                    vstd::arithmetic::div_mod::lemma_small_mod(
                        (index - (len - step)) as nat,
                        len as nat,
                    );
                }
                Some(index - (len - step))
            }
        } else if index >= step {
            proof {
                vstd::arithmetic::div_mod::lemma_small_mod((index - step) as nat, len as nat);
            }
            Some(index - step)
        } else {
            proof {
                vstd::arithmetic::div_mod::lemma_mod_multiples_vanish(
                    -1,
                    index + (len - step),
                    len as int,
                );
                vstd::arithmetic::div_mod::lemma_small_mod(
                    (index + (len - step)) as nat,
                    len as nat,
                );
            }
            Some(index + (len - step))
        }
    }
}

/// Stepping forward and back returns to the same match.
pub proof fn stepping_back_returns(position: int, delta: int, len: int)
    requires
        0 <= position < len,
    ensures
        ((position + delta) % len - delta) % len == position,
{
    vstd::arithmetic::div_mod::lemma_fundamental_div_mod(position + delta, len);
    let q = (position + delta) / len;
    assert((position + delta) % len - delta == len * (-q) + position) by (nonlinear_arith)
        requires
            position + delta == len * q + (position + delta) % len,
    ;
    vstd::arithmetic::div_mod::lemma_mod_multiples_vanish(-q, position, len);
    vstd::arithmetic::div_mod::lemma_small_mod(position as nat, len as nat);
}

} // verus!
