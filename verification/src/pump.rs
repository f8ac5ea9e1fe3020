//! The order in which the shell of the view works: host messages are queued and
//! handled one at a time, envelopes leave one at a time, and no transition of the
//! view begins inside another.

use vstd::prelude::*;

verus! {

/// What waits, and what is under way.
#[derive(Debug)]
pub struct Pump<M, P> {
    /// Host messages that wait, oldest first.
    pub messages: Vec<M>,
    /// Envelopes that wait, oldest first.
    pub posts: Vec<P>,
    /// Whether the messages are being handled.
    pub pumping: bool,
    /// Whether a transition of the view is under way.
    pub in_transition: bool,
    /// Whether the envelopes are being posted, or are going to be.
    pub flushing: bool,
}

impl<M, P> Pump<M, P> {
    /// Messages are handled within a transition, and no envelope waits without a
    /// flush to come.
    pub open spec fn wf(self) -> bool {
        &&& self.pumping ==> self.in_transition
        &&& self.posts@.len() > 0 ==> self.flushing
    }

    pub fn new() -> (pump: Pump<M, P>)
        ensures
            pump.wf(),
            pump.messages@ == Seq::<M>::empty(),
            pump.posts@ == Seq::<P>::empty(),
            !pump.in_transition,
            !pump.flushing,
    {
        Pump {
            messages: Vec::new(),
            posts: Vec::new(),
            pumping: false,
            in_transition: false,
            flushing: false,
        }
    }

    /// A transition begins, unless one is under way.
    pub fn begin_transition(&mut self) -> (begun: bool)
        requires
            old(self).wf(),
        ensures
            final(self).wf(),
            begun == !old(self).in_transition,
            *final(self) == (Pump { in_transition: true, ..*old(self) }),
    {
        if self.in_transition {
            return false;
        }
        self.in_transition = true;
        true
    }

    /// The transition ends.
    pub fn end_transition(&mut self)
        requires
            old(self).wf(),
            !old(self).pumping,
        ensures
            final(self).wf(),
            *final(self) == (Pump { in_transition: false, ..*old(self) }),
    {
        self.in_transition = false;
    }

    /// A host message arrives. The answer says whether the messages are to be
    /// handled now.
    pub fn deliver(&mut self, message: M) -> (pump: bool)
        requires
            old(self).wf(),
        ensures
            final(self).wf(),
            pump == !old(self).in_transition,
            final(self).messages@ == old(self).messages@.push(message),
            final(self).pumping == (pump || old(self).pumping),
            final(self).in_transition,
            final(self).posts == old(self).posts,
            final(self).flushing == old(self).flushing,
    {
        self.messages.push(message);
        if self.in_transition {
            return false;
        }
        self.pumping = true;
        self.in_transition = true;
        true
    }

    /// The oldest message that waits; when none does, the handling ends.
    pub fn next_message(&mut self) -> (message: Option<M>)
        requires
            old(self).wf(),
            old(self).pumping,
        ensures
            final(self).wf(),
            match message {
                Some(message) => {
                    &&& old(self).messages@.len() > 0
                    &&& message == old(self).messages@[0]
                    &&& final(self).messages@ == old(self).messages@.drop_first()
                    &&& final(self).pumping
                },
                None => {
                    &&& old(self).messages@.len() == 0
                    &&& final(self).messages == old(self).messages
                    &&& !final(self).pumping
                },
            },
            final(self).in_transition == final(self).pumping,
            final(self).posts == old(self).posts,
            final(self).flushing == old(self).flushing,
    {
        if self.messages.len() == 0 {
            self.pumping = false;
            self.in_transition = false;
            return None;
        }
        let ghost before = self.messages@;
        let message = self.messages.remove(0);
        assert(self.messages@ =~= before.drop_first());
        Some(message)
    }

    /// An envelope is to leave. The answer says whether a flush is to be scheduled.
    pub fn post(&mut self, envelope: P) -> (schedule: bool)
        requires
            old(self).wf(),
        ensures
            final(self).wf(),
            schedule == !old(self).flushing,
            final(self).posts@ == old(self).posts@.push(envelope),
            final(self).flushing,
            final(self).messages == old(self).messages,
            final(self).pumping == old(self).pumping,
            final(self).in_transition == old(self).in_transition,
    {
        self.posts.push(envelope);
        if self.flushing {
            return false;
        }
        self.flushing = true;
        true
    }

    /// The oldest envelope that waits; when none does, the flush ends.
    pub fn next_post(&mut self) -> (envelope: Option<P>)
        requires
            old(self).wf(),
            old(self).flushing,
        ensures
            final(self).wf(),
            match envelope {
                Some(envelope) => {
                    &&& old(self).posts@.len() > 0
                    &&& envelope == old(self).posts@[0]
                    &&& final(self).posts@ == old(self).posts@.drop_first()
                    &&& final(self).flushing
                },
                None => {
                    &&& old(self).posts@.len() == 0
                    &&& final(self).posts == old(self).posts
                    &&& !final(self).flushing
                },
            },
            final(self).messages == old(self).messages,
            final(self).pumping == old(self).pumping,
            final(self).in_transition == old(self).in_transition,
    {
        if self.posts.len() == 0 {
            self.flushing = false;
            return None;
        }
        let ghost before = self.posts@;
        let envelope = self.posts.remove(0);
        assert(self.posts@ =~= before.drop_first());
        Some(envelope)
    }
}

/// What is taken from the front of a queue, one at a time, comes in the order in
/// which it was put in at the back.
pub proof fn queues_keep_their_order<T>(queue: Seq<T>, later: T, taken: int)
    requires
        0 <= taken < queue.len(),
    ensures
        queue.push(later).skip(taken)[0] == queue[taken],
        queue.push(later).skip(taken).drop_first() == queue.skip(taken + 1).push(later),
{
    assert(queue.push(later).skip(taken).drop_first() =~= queue.skip(taken + 1).push(later));
}

/// A redraw that waits for the width of the list to settle.
#[derive(Debug, Clone, Copy, PartialEq, Eq, Structural)]
pub struct ResizeWatch {
    /// The width of the list when it was last looked at, in CSS pixels.
    pub width: i32,
    /// The timer of the redraw that waits.
    pub timer: Option<i32>,
}

/// What a look at the width asks for.
#[derive(Debug, Clone, Copy, PartialEq, Eq, Structural)]
pub enum Observed {
    /// The width is what it was: at most the height changed.
    Unchanged,
    /// A redraw is to be scheduled, in place of the one whose timer is cancelled.
    Changed { cancel: Option<i32> },
}

impl ResizeWatch {
    pub fn new(width: i32) -> (watch: ResizeWatch)
        ensures
            watch == (ResizeWatch { width, timer: None }),
    {
        ResizeWatch { width, timer: None }
    }

    /// Look at the width of the list.
    pub fn observe(&mut self, width: i32) -> (observed: Observed)
        ensures
            observed == (if width == old(self).width {
                Observed::Unchanged
            } else {
                Observed::Changed { cancel: old(self).timer }
            }),
            *final(self) == (if width == old(self).width {
                *old(self)
            } else {
                ResizeWatch { width, timer: None }
            }),
    {
        if width == self.width {
            return Observed::Unchanged;
        }
        let cancel = self.timer;
        self.width = width;
        self.timer = None;
        Observed::Changed { cancel }
    }

    /// The redraw was scheduled.
    pub fn scheduled(&mut self, timer: i32)
        ensures
            *final(self) == (ResizeWatch { timer: Some(timer), ..*old(self) }),
    {
        self.timer = Some(timer);
    }

    /// The redraw is due.
    pub fn fired(&mut self)
        ensures
            *final(self) == (ResizeWatch { timer: None, ..*old(self) }),
    {
        self.timer = None;
    }
}

/// The timer that loads history ahead of the scroll position: at most one runs.
#[derive(Debug, Clone, Copy, PartialEq, Eq, Structural)]
pub struct LoaderTimer {
    pub handle: Option<i32>,
}

impl LoaderTimer {
    pub fn new() -> (timer: LoaderTimer)
        ensures
            timer.handle is None,
    {
        LoaderTimer { handle: None }
    }

    /// Whether the loader is to be started.
    pub fn idle(&self) -> (idle: bool)
        ensures
            idle == (self.handle is None),
    {
        self.handle.is_none()
    }

    /// The loader was started.
    pub fn started(&mut self, handle: i32)
        requires
            old(self).handle is None,
        ensures
            final(self).handle == Some(handle),
    {
        self.handle = Some(handle);
    }

    /// The timer that is to be cancelled, if the loader runs.
    pub fn stop(&mut self) -> (handle: Option<i32>)
        ensures
            handle == old(self).handle,
            final(self).handle is None,
    {
        let handle = self.handle;
        self.handle = None;
        handle
    }
}

} // verus!
