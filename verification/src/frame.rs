//! Preserve every logical transition while committing one final row window.

use crate::coordinates::{self, ROW_H};
use crate::step::{DomOp, Send, Step, Viewport};
use vstd::prelude::*;

verus! {

/// The transitions of one animation frame.
pub struct FrameBatch {
    pub step: Step,
    pub viewport: Viewport,
}

/// Whether an operation renders rows.
pub open spec fn rendering(op: DomOp) -> bool {
    match op {
        DomOp::ReanchorLive { .. } => true,
        DomOp::Reanchor { .. } => true,
        DomOp::PatchWindow { .. } => true,
        DomOp::AppendBelow { .. } => true,
        DomOp::PrependAbove { .. } => true,
        DomOp::TrimTop { .. } => true,
        DomOp::TrimBottom { .. } => true,
        DomOp::FillPlaceholders => true,
        _ => false,
    }
}

pub fn renders(op: &DomOp) -> (yes: bool)
    ensures
        yes == rendering(*op),
{
    matches!(
        op,
        DomOp::ReanchorLive { .. }
            | DomOp::Reanchor { .. }
            | DomOp::PatchWindow { .. }
            | DomOp::AppendBelow { .. }
            | DomOp::PrependAbove { .. }
            | DomOp::TrimTop { .. }
            | DomOp::TrimBottom { .. }
            | DomOp::FillPlaceholders
    )
}

/// Whether an operation moves the scroll offset without rendering rows.
pub open spec fn scrolling(op: DomOp) -> bool {
    op is SetScrollTop || op is RestoreScrollTop
}

/// Whether an operation replaces the rows by a message.
pub open spec fn messaging(op: DomOp) -> bool {
    op is ShowMessage || op is ShowRequestError
}

/// Whether an operation depends on the coordinates of an outstanding window.
pub open spec fn outdated(op: DomOp) -> bool {
    rendering(op) || scrolling(op) || op is RefreshHeader || op is RevealRow || op is SetFindHighlight
}

/// The product of a row and the row height, kept within machine range.
pub open spec fn row_pixels(row: int) -> int {
    if row * ROW_H > i64::MAX {
        i64::MAX as int
    } else if row * ROW_H < i64::MIN {
        i64::MIN as int
    } else {
        row * ROW_H
    }
}

/// The scroll offset that an operation sets.
pub open spec fn scrolled_to(op: DomOp) -> Option<int> {
    match op {
        DomOp::ReanchorLive { scroll_top, .. } => Some(scroll_top as int),
        DomOp::SetScrollTop(scroll_top) => Some(scroll_top as int),
        DomOp::RestoreScrollTop { row_index } => Some(row_pixels(row_index as int)),
        _ => None,
    }
}

/// The scroll offset after the first `n` operations.
pub open spec fn scrolled(scroll_top: int, ops: Seq<DomOp>, n: int) -> int
    decreases n,
{
    if n <= 0 {
        scroll_top
    } else {
        match scrolled_to(ops[n - 1]) {
            Some(to) => coordinates::clamp_pixels(to),
            None => scrolled(scroll_top, ops, n - 1),
        }
    }
}

/// The last of the first `n` operations that shows a message, or -1.
pub open spec fn last_message(ops: Seq<DomOp>, n: int) -> int
    decreases n,
{
    if n <= 0 {
        -1
    } else if messaging(ops[n - 1]) {
        n - 1
    } else {
        last_message(ops, n - 1)
    }
}

/// The first rendering operation from `from` on, or the number of operations.
pub open spec fn first_render(ops: Seq<DomOp>, from: int) -> int
    decreases ops.len() - from,
{
    if from >= ops.len() || rendering(ops[from]) {
        from
    } else {
        first_render(ops, from + 1)
    }
}

/// The last live anchor among the first `n` operations after `reset`, or -1.
pub open spec fn last_live(ops: Seq<DomOp>, reset: int, n: int) -> int
    decreases n,
{
    if n <= 0 || n <= reset + 1 {
        -1
    } else if ops[n - 1] is ReanchorLive {
        n - 1
    } else {
        last_live(ops, reset, n - 1)
    }
}

/// The operation that renders the final window.
pub open spec fn final_window(ops: Seq<DomOp>, top: i64, bottom: i64) -> DomOp {
    let live = last_live(ops, last_message(ops, ops.len() as int), ops.len() as int);
    if live >= 0 {
        DomOp::ReanchorLive {
            top,
            bottom,
            scroll_top: ops[live]->ReanchorLive_scroll_top,
            animate_connections: ops[live]->ReanchorLive_animate_connections,
        }
    } else {
        DomOp::PatchWindow { top, bottom }
    }
}

/// What becomes of the operation at `i`.
pub open spec fn committed_op(ops: Seq<DomOp>, top: i64, bottom: i64, i: int) -> Option<DomOp> {
    let n = ops.len() as int;
    let reset = last_message(ops, n);
    let first = first_render(ops, reset + 1);
    let live = last_live(ops, reset, n);
    if rendering(ops[i]) {
        if i == first {
            Some(final_window(ops, top, bottom))
        } else {
            None
        }
    } else if first < n && ops[i] is RefreshHeader {
        None
    } else if i < live && scrolling(ops[i]) {
        None
    } else {
        Some(ops[i])
    }
}

/// The operations that the first `n` become.
pub open spec fn committed(ops: Seq<DomOp>, top: i64, bottom: i64, n: int) -> Seq<DomOp>
    decreases n,
{
    if n <= 0 {
        Seq::empty()
    } else {
        match committed_op(ops, top, bottom, n - 1) {
            Some(op) => committed(ops, top, bottom, n - 1).push(op),
            None => committed(ops, top, bottom, n - 1),
        }
    }
}

/// The operations of a frame whose window is outstanding or not.
pub open spec fn current(ops: Seq<DomOp>, window_pending: bool) -> Seq<DomOp> {
    if window_pending {
        ops.filter(|op: DomOp| !outdated(op))
    } else {
        ops
    }
}

proof fn lemma_first_render(ops: Seq<DomOp>, from: int)
    requires
        0 <= from <= ops.len(),
    ensures
        from <= first_render(ops, from) <= ops.len(),
        first_render(ops, from) < ops.len() ==> rendering(ops[first_render(ops, from)]),
    decreases ops.len() - from,
{
    if from < ops.len() && !rendering(ops[from]) {
        lemma_first_render(ops, from + 1);
    }
}

proof fn lemma_last_message(ops: Seq<DomOp>, n: int)
    requires
        0 <= n <= ops.len(),
    ensures
        -1 <= last_message(ops, n) < n,
    decreases n,
{
    if n > 0 {
        lemma_last_message(ops, n - 1);
    }
}

impl FrameBatch {
    pub fn new(viewport: Viewport) -> (batch: FrameBatch)
        ensures
            batch.viewport == viewport,
            batch.step.ops@ == Seq::<DomOp>::empty(),
            batch.step.sends@ == Seq::<Send>::empty(),
            batch.step.save_state is None,
    {
        FrameBatch { step: Step::new(), viewport }
    }

    /// Take a transition's output; its scroll offsets move the viewport.
    pub fn push(&mut self, step: Step)
        ensures
            final(self).step.ops@ == old(self).step.ops@ + step.ops@,
            final(self).step.sends@ == old(self).step.sends@ + step.sends@,
            final(self).step.save_state == (if step.save_state is Some {
                step.save_state
            } else {
                old(self).step.save_state
            }),
            final(self).viewport.scroll_top@ == scrolled(
                old(self).viewport.scroll_top@,
                step.ops@,
                step.ops@.len() as int,
            ),
            final(self).viewport.client_height@ == old(self).viewport.client_height@,
    {
        let mut step = step;
        let ghost ops = step.ops@;
        let ghost before = self.viewport;
        let mut i: usize = 0;
        while i < step.ops.len()
            invariant
                i <= step.ops.len(),
                ops == step.ops@,
                self.step == old(self).step,
                before == old(self).viewport,
                self.viewport.scroll_top@ == scrolled(before.scroll_top@, ops, i as int),
                self.viewport.client_height@ == before.client_height@,
            decreases step.ops.len() - i,
        {
            let scroll: Option<i64> = match &step.ops[i] {
                DomOp::ReanchorLive { scroll_top, .. } => Some(*scroll_top),
                DomOp::SetScrollTop(scroll_top) => Some(*scroll_top),
                DomOp::RestoreScrollTop { row_index } => Some(saturating_row_pixels(*row_index)),
                _ => None,
            };
            if let Some(scroll) = scroll {
                let height: i64 = self.viewport.client_height.get();
                self.viewport = Viewport::new(scroll, height);
            }
            i = i + 1;
        }
        self.step.ops.append(&mut step.ops);
        self.step.sends.append(&mut step.sends);
        if step.save_state.is_some() {
            self.step.save_state = step.save_state;
        }
    }

    /// Commit the frame: one window in place of every render plan, every send.
    pub fn finish(self, top: i64, bottom: i64, window_pending: bool) -> (step: Step)
        ensures
            step.ops@ == ({
                let ops = current(self.step.ops@, window_pending);
                committed(ops, top, bottom, ops.len() as int)
            }),
            step.sends == self.step.sends,
            step.save_state == self.step.save_state,
    {
        let Step { ops, sends, save_state } = self.step;
        // A response can be superseded by another revision in this batch.
        // Its retired coordinates must never replace the retained page.
        let ops = if window_pending {
            keep_current(ops)
        } else {
            ops
        };
        let ghost all = ops@;
        let ghost n = all.len() as int;
        let mut reset: Option<usize> = None;
        let mut i: usize = 0;
        while i < ops.len()
            invariant
                i <= ops.len(),
                all == ops@,
                reset == (if last_message(all, i as int) < 0 {
                    None
                } else {
                    Some(last_message(all, i as int) as usize)
                }),
                -1 <= last_message(all, i as int) < i,
            decreases ops.len() - i,
        {
            if matches!(ops[i], DomOp::ShowMessage { .. } | DomOp::ShowRequestError { .. }) {
                reset = Some(i);
            }
            i = i + 1;
        }
        let from: usize = match reset {
            Some(reset) => reset + 1,
            None => 0,
        };
        let mut first: usize = from;
        while first < ops.len() && !renders(&ops[first])
            invariant
                from <= first <= ops.len(),
                all == ops@,
                first_render(all, from as int) == first_render(all, first as int),
            decreases ops.len() - first,
        {
            first = first + 1;
        }
        let mut live: Option<(usize, i64, bool)> = None;
        let ghost start = from as int - 1;
        let mut i: usize = from;
        while i < ops.len()
            invariant
                from <= i <= ops.len(),
                start == from - 1,
                all == ops@,
                last_live(all, start, i as int) < i,
                match live {
                    Some((at, scroll_top, animate)) => at == last_live(all, start, i as int)
                        && all[at as int] is ReanchorLive && scroll_top
                        == all[at as int]->ReanchorLive_scroll_top && animate
                        == all[at as int]->ReanchorLive_animate_connections,
                    None => last_live(all, start, i as int) == -1,
                },
            decreases ops.len() - i,
        {
            if let DomOp::ReanchorLive { scroll_top, animate_connections, .. } = &ops[i] {
                live = Some((i, *scroll_top, *animate_connections));
            }
            i = i + 1;
        }
        let length: usize = ops.len();
        let mut kept: Vec<DomOp> = Vec::new();
        let mut i: usize = 0;
        for op in it: ops
            invariant
                it.seq() == all,
                i == it.index(),
                n == all.len() == length,
                start == last_message(all, n),
                first == first_render(all, start + 1),
                first <= n,
                match live {
                    Some((at, scroll_top, animate)) => at == last_live(all, start, n)
                        && all[at as int] is ReanchorLive && scroll_top
                        == all[at as int]->ReanchorLive_scroll_top && animate
                        == all[at as int]->ReanchorLive_animate_connections,
                    None => last_live(all, start, n) == -1,
                },
                kept@ == committed(all, top, bottom, i as int),
        {
            assert(op == all[i as int]);
            if renders(&op) {
                if i == first {
                    match live {
                        Some((_, scroll_top, animate_connections)) => {
                            kept.push(
                                DomOp::ReanchorLive {
                                    top,
                                    bottom,
                                    scroll_top,
                                    animate_connections,
                                },
                            );
                        },
                        None => {
                            kept.push(DomOp::PatchWindow { top, bottom });
                        },
                    }
                }
            } else {
                let header = first < length && matches!(op, DomOp::RefreshHeader);
                let before_live = match live {
                    Some((at, _, _)) => i < at,
                    None => false,
                };
                let scroll = before_live && matches!(
                    op,
                    DomOp::SetScrollTop(_) | DomOp::RestoreScrollTop { .. }
                );
                if !header && !scroll {
                    kept.push(op);
                }
            }
            i = i + 1;
        }
        Step { ops: kept, sends, save_state }
    }
}

fn saturating_row_pixels(row: i64) -> (pixels: i64)
    ensures
        pixels == row_pixels(row as int),
{
    match row.checked_mul(ROW_H) {
        Some(pixels) => pixels,
        None => if row > 0 {
            i64::MAX
        } else {
            i64::MIN
        },
    }
}

fn keep_current(ops: Vec<DomOp>) -> (kept: Vec<DomOp>)
    ensures
        kept@ == ops@.filter(|op: DomOp| !outdated(op)),
{
    let ghost all = ops@;
    let ghost keep = |op: DomOp| !outdated(op);
    let mut kept: Vec<DomOp> = Vec::new();
    assert(all.take(0).filter(keep) =~= kept@) by {
        reveal(Seq::filter);
    }
    for op in it: ops
        invariant
            it.seq() == all,
            keep == (|op: DomOp| !outdated(op)),
            kept@ == all.take(it.index() as int).filter(keep),
    {
        let ghost n = it.index() as int;
        proof {
            assert(op == all[n]);
            assert(all.take(n + 1) =~= all.take(n).push(op));
            all.take(n).lemma_filter_push(op, keep);
        }
        let drop_it = renders(&op) || matches!(
            op,
            DomOp::RefreshHeader
                | DomOp::SetScrollTop(_)
                | DomOp::RestoreScrollTop { .. }
                | DomOp::RevealRow { .. }
                | DomOp::SetFindHighlight { .. }
        );
        if !drop_it {
            kept.push(op);
        }
    }
    assert(all.take(all.len() as int) =~= all);
    kept
}

/// However many transitions a frame holds, it renders rows at most once.
pub proof fn a_frame_renders_at_most_once(ops: Seq<DomOp>, top: i64, bottom: i64, a: int, b: int)
    requires
        ({
            let done = committed(ops, top, bottom, ops.len() as int);
            0 <= a < done.len() && 0 <= b < done.len() && rendering(done[a]) && rendering(done[b])
        }),
    ensures
        a == b,
{
    let n = ops.len() as int;
    let reset = last_message(ops, n);
    lemma_last_message(ops, n);
    lemma_first_render(ops, reset + 1);
    lemma_committed_renders(ops, top, bottom, n);
}

proof fn lemma_committed_renders(ops: Seq<DomOp>, top: i64, bottom: i64, n: int)
    requires
        0 <= n <= ops.len(),
    ensures
        ({
            let done = committed(ops, top, bottom, n);
            let first = first_render(ops, last_message(ops, ops.len() as int) + 1);
            forall|a: int, b: int|
                0 <= a < done.len() && 0 <= b < done.len() && rendering(#[trigger] done[a])
                    && rendering(#[trigger] done[b]) ==> a == b && first < n
        }),
    decreases n,
{
    if n > 0 {
        lemma_committed_renders(ops, top, bottom, n - 1);
        let before = committed(ops, top, bottom, n - 1);
        let first = first_render(ops, last_message(ops, ops.len() as int) + 1);
        if first >= n - 1 {
            assert forall|a: int| 0 <= a < before.len() implies !rendering(#[trigger] before[a]) by {
                if rendering(before[a]) {
                    assert(a == a && first < n - 1);
                }
            }
        }
    }
}

/// While a window is outstanding nothing renders rows or moves the scroll.
pub proof fn an_outstanding_window_keeps_the_page(
    ops: Seq<DomOp>,
    top: i64,
    bottom: i64,
    n: int,
    i: int,
)
    requires
        0 <= n <= current(ops, true).len(),
        0 <= i < committed(current(ops, true), top, bottom, n).len(),
    ensures
        !outdated(committed(current(ops, true), top, bottom, n)[i]),
    decreases n,
{
    let kept = current(ops, true);
    let keep = |op: DomOp| !outdated(op);
    if n > 0 {
        ops.lemma_filter_pred(keep, n - 1);
        assert(keep(kept[n - 1]));
        if i < committed(kept, top, bottom, n - 1).len() {
            an_outstanding_window_keeps_the_page(ops, top, bottom, n - 1, i);
        }
    }
}

proof fn lemma_committed_window(ops: Seq<DomOp>, top: i64, bottom: i64, n: int)
    requires
        0 <= n <= ops.len(),
    ensures
        ({
            let done = committed(ops, top, bottom, n);
            let first = first_render(ops, last_message(ops, ops.len() as int) + 1);
            &&& forall|a: int|
                0 <= a < done.len() && rendering(#[trigger] done[a]) ==> first < n && done[a]
                    == final_window(ops, top, bottom)
            &&& first < n ==> exists|a: int| 0 <= a < done.len() && rendering(#[trigger] done[a])
        }),
    decreases n,
{
    let reset = last_message(ops, ops.len() as int);
    let first = first_render(ops, reset + 1);
    lemma_last_message(ops, ops.len() as int);
    lemma_first_render(ops, reset + 1);
    if n > 0 {
        lemma_committed_window(ops, top, bottom, n - 1);
        let before = committed(ops, top, bottom, n - 1);
        let done = committed(ops, top, bottom, n);
        assert forall|a: int| 0 <= a < done.len() && rendering(#[trigger] done[a]) implies first < n
            && done[a] == final_window(ops, top, bottom) by {
            if a < before.len() {
                assert(done[a] == before[a]);
            }
        }
        if first == n - 1 {
            assert(done[before.len() as int] == final_window(ops, top, bottom));
        } else if first < n - 1 {
            let a = choose|a: int| 0 <= a < before.len() && rendering(#[trigger] before[a]);
            assert(done[a] == before[a]);
        }
    }
}

proof fn lemma_first_render_is_first(ops: Seq<DomOp>, from: int, i: int)
    requires
        0 <= from <= i < ops.len(),
        rendering(ops[i]),
    ensures
        first_render(ops, from) <= i,
    decreases i - from,
{
    if from < i && !rendering(ops[from]) {
        lemma_first_render_is_first(ops, from + 1, i);
    }
}

/// A frame renders the final window exactly when no window is outstanding and some
/// transition rendered rows after the last message.
pub proof fn a_frame_renders_exactly_when_asked(
    pushed: Seq<DomOp>,
    window_pending: bool,
    top: i64,
    bottom: i64,
)
    ensures
        ({
            let ops = current(pushed, window_pending);
            let done = committed(ops, top, bottom, ops.len() as int);
            &&& (exists|a: int| 0 <= a < done.len() && rendering(#[trigger] done[a])) <==> (
            !window_pending && exists|i: int|
                last_message(pushed, pushed.len() as int) < i < pushed.len() && rendering(
                    #[trigger] pushed[i],
                ))
            &&& forall|a: int|
                0 <= a < done.len() && rendering(#[trigger] done[a]) ==> done[a] == final_window(
                    ops,
                    top,
                    bottom,
                )
        }),
{
    let ops = current(pushed, window_pending);
    let n = ops.len() as int;
    let done = committed(ops, top, bottom, n);
    let reset = last_message(ops, n);
    lemma_last_message(ops, n);
    lemma_first_render(ops, reset + 1);
    lemma_committed_window(ops, top, bottom, n);
    if window_pending {
        assert forall|a: int| 0 <= a < done.len() implies !rendering(#[trigger] done[a]) by {
            an_outstanding_window_keeps_the_page(pushed, top, bottom, n, a);
        }
    } else {
        if exists|a: int| 0 <= a < done.len() && rendering(#[trigger] done[a]) {
            assert(rendering(pushed[first_render(ops, reset + 1)]));
        }
        if exists|i: int| reset < i < n && rendering(#[trigger] pushed[i]) {
            let i = choose|i: int| reset < i < n && rendering(#[trigger] pushed[i]);
            lemma_first_render_is_first(ops, reset + 1, i);
        }
    }
}

/// Whether an operation is an effect of its own: it neither draws rows nor the header
/// above them, nor moves the scroll offset.
pub open spec fn effect(op: DomOp) -> bool {
    match op {
        DomOp::ShowMessage { .. } => true,
        DomOp::ShowRequestError { .. } => true,
        DomOp::ProgressiveLoader(_) => true,
        DomOp::FindCounter(_) => true,
        DomOp::RevealRow { .. } => true,
        DomOp::SetFindHighlight { .. } => true,
        DomOp::ClearFindHighlight => true,
        DomOp::Reanchor { .. } => false,
        DomOp::ReanchorLive { .. } => false,
        DomOp::PatchWindow { .. } => false,
        DomOp::AppendBelow { .. } => false,
        DomOp::PrependAbove { .. } => false,
        DomOp::TrimTop { .. } => false,
        DomOp::TrimBottom { .. } => false,
        DomOp::FillPlaceholders => false,
        DomOp::RefreshHeader => false,
        DomOp::SetScrollTop(_) => false,
        DomOp::RestoreScrollTop { .. } => false,
    }
}

/// Whether an operation draws rows or replaces the drawn window.
pub open spec fn draws_rows(op: DomOp) -> bool {
    match op {
        DomOp::Reanchor { .. } => true,
        DomOp::ReanchorLive { .. } => true,
        DomOp::PatchWindow { .. } => true,
        DomOp::AppendBelow { .. } => true,
        DomOp::PrependAbove { .. } => true,
        DomOp::TrimTop { .. } => true,
        DomOp::TrimBottom { .. } => true,
        DomOp::FillPlaceholders => true,
        _ => false,
    }
}

proof fn lemma_effects_committed(ops: Seq<DomOp>, top: i64, bottom: i64, n: int)
    requires
        0 <= n <= ops.len(),
    ensures
        committed(ops, top, bottom, n).filter(|op: DomOp| effect(op)) == ops.take(n).filter(
            |op: DomOp| effect(op),
        ),
    decreases n,
{
    let shows = |op: DomOp| effect(op);
    if n > 0 {
        lemma_effects_committed(ops, top, bottom, n - 1);
        let before = committed(ops, top, bottom, n - 1);
        assert(ops.take(n) =~= ops.take(n - 1).push(ops[n - 1]));
        ops.take(n - 1).lemma_filter_push(ops[n - 1], shows);
        match committed_op(ops, top, bottom, n - 1) {
            Some(op) => {
                before.lemma_filter_push(op, shows);
            },
            None => {},
        }
    } else {
        assert(ops.take(0) =~= Seq::empty());
        assert(committed(ops, top, bottom, 0) =~= Seq::empty());
    }
}

/// With no window outstanding, every effect of the transitions of a frame is committed,
/// as often and in the order in which they asked for it.
pub proof fn effects_are_kept_in_order(pushed: Seq<DomOp>, top: i64, bottom: i64)
    ensures
        ({
            let ops = current(pushed, false);
            committed(ops, top, bottom, ops.len() as int).filter(|op: DomOp| effect(op))
                == pushed.filter(|op: DomOp| effect(op))
        }),
{
    lemma_effects_committed(pushed, top, bottom, pushed.len() as int);
    assert(pushed.take(pushed.len() as int) =~= pushed);
}

/// Whether an operation is an effect that does not depend on the coordinates of rows.
pub open spec fn lasting(op: DomOp) -> bool {
    match op {
        DomOp::ShowMessage { .. } => true,
        DomOp::ShowRequestError { .. } => true,
        DomOp::ProgressiveLoader(_) => true,
        DomOp::FindCounter(_) => true,
        DomOp::ClearFindHighlight => true,
        _ => false,
    }
}

proof fn lemma_lasting_current(pushed: Seq<DomOp>)
    ensures
        current(pushed, true) == pushed.filter(|op: DomOp| lasting(op)),
    decreases pushed.len(),
{
    let keep = |op: DomOp| !outdated(op);
    let last = |op: DomOp| lasting(op);
    reveal(Seq::filter);
    if pushed.len() > 0 {
        lemma_lasting_current(pushed.drop_last());
        assert(keep(pushed.last()) == last(pushed.last()));
    }
}

proof fn lemma_all_committed(ops: Seq<DomOp>, top: i64, bottom: i64, n: int)
    requires
        0 <= n <= ops.len(),
        forall|i: int| 0 <= i < ops.len() ==> lasting(#[trigger] ops[i]),
    ensures
        committed(ops, top, bottom, n) == ops.take(n),
    decreases n,
{
    if n > 0 {
        lemma_all_committed(ops, top, bottom, n - 1);
        assert(lasting(ops[n - 1]));
        assert(ops.take(n) =~= ops.take(n - 1).push(ops[n - 1]));
    } else {
        assert(ops.take(0) =~= Seq::empty());
    }
}

/// While a window is outstanding, a frame commits exactly the effects that do not depend
/// on the coordinates of rows, in their order.
pub proof fn an_outstanding_window_lets_other_effects_pass(
    pushed: Seq<DomOp>,
    top: i64,
    bottom: i64,
)
    ensures
        ({
            let ops = current(pushed, true);
            committed(ops, top, bottom, ops.len() as int) == pushed.filter(
                |op: DomOp| lasting(op),
            )
        }),
{
    let ops = current(pushed, true);
    let last = |op: DomOp| lasting(op);
    lemma_lasting_current(pushed);
    assert forall|i: int| 0 <= i < ops.len() implies lasting(#[trigger] ops[i]) by {
        pushed.lemma_filter_pred(last, i);
    }
    lemma_all_committed(ops, top, bottom, ops.len() as int);
    assert(ops.take(ops.len() as int) =~= ops);
}

/// Whether an operation replaces the rows by a message.
pub open spec fn replaces_rows(op: DomOp) -> bool {
    op is ShowMessage || op is ShowRequestError
}

proof fn lemma_message_found(ops: Seq<DomOp>, n: int, i: int)
    requires
        0 <= i < n <= ops.len(),
        messaging(ops[i]),
        forall|j: int| i < j < n ==> !messaging(#[trigger] ops[j]),
    ensures
        last_message(ops, n) == i,
    decreases n,
{
    if i < n - 1 {
        lemma_message_found(ops, n - 1, i);
    }
}

proof fn lemma_no_message(ops: Seq<DomOp>, n: int)
    requires
        0 <= n <= ops.len(),
        forall|j: int| 0 <= j < n ==> !messaging(#[trigger] ops[j]),
    ensures
        last_message(ops, n) == -1,
    decreases n,
{
    if n > 0 {
        lemma_no_message(ops, n - 1);
    }
}

proof fn lemma_committed_from(
    ops: Seq<DomOp>,
    top: i64,
    bottom: i64,
    first: int,
    n: int,
)
    requires
        0 <= first < n <= ops.len(),
        first_render(ops, last_message(ops, ops.len() as int) + 1) == first,
        rendering(ops[first]),
    ensures
        committed(ops, top, bottom, n).filter(|op: DomOp| effect(op) || draws_rows(op))
            == ops.take(first).filter(|op: DomOp| effect(op)).push(
            final_window(ops, top, bottom),
        ) + ops.subrange(first + 1, n).filter(|op: DomOp| effect(op)),
    decreases n,
{
    let shows = |op: DomOp| effect(op);
    let shown = |op: DomOp| effect(op) || draws_rows(op);
    let before = committed(ops, top, bottom, n - 1);
    let window = final_window(ops, top, bottom);
    if n == first + 1 {
        lemma_committed_before(ops, top, bottom, first, first);
        before.lemma_filter_push(window, shown);
        assert(ops.subrange(first + 1, n) =~= Seq::empty());
        assert(ops.subrange(first + 1, n).filter(shows) =~= Seq::empty()) by {
            reveal(Seq::filter);
        }
        assert(committed(ops, top, bottom, n) == before.push(window));
        assert(committed(ops, top, bottom, n).filter(shown) =~= ops.take(first).filter(shows).push(
            window,
        ) + ops.subrange(first + 1, n).filter(shows));
    } else {
        lemma_committed_from(ops, top, bottom, first, n - 1);
        let rest = ops.subrange(first + 1, n - 1);
        assert(ops.subrange(first + 1, n) =~= rest.push(ops[n - 1]));
        rest.lemma_filter_push(ops[n - 1], shows);
        match committed_op(ops, top, bottom, n - 1) {
            Some(op) => {
                before.lemma_filter_push(op, shown);
                assert(op == ops[n - 1]);
            },
            None => {},
        }
        assert(committed(ops, top, bottom, n).filter(shown) =~= ops.take(first).filter(shows).push(
            window,
        ) + ops.subrange(first + 1, n).filter(shows));
    }
}

proof fn lemma_committed_before(
    ops: Seq<DomOp>,
    top: i64,
    bottom: i64,
    first: int,
    n: int,
)
    requires
        0 <= n <= first < ops.len(),
        first_render(ops, last_message(ops, ops.len() as int) + 1) == first,
    ensures
        committed(ops, top, bottom, n).filter(|op: DomOp| effect(op) || draws_rows(op))
            == ops.take(n).filter(|op: DomOp| effect(op)),
    decreases n,
{
    let shows = |op: DomOp| effect(op);
    let shown = |op: DomOp| effect(op) || draws_rows(op);
    if n > 0 {
        lemma_committed_before(ops, top, bottom, first, n - 1);
        let before = committed(ops, top, bottom, n - 1);
        assert(ops.take(n) =~= ops.take(n - 1).push(ops[n - 1]));
        ops.take(n - 1).lemma_filter_push(ops[n - 1], shows);
        match committed_op(ops, top, bottom, n - 1) {
            Some(op) => {
                before.lemma_filter_push(op, shown);
            },
            None => {},
        }
    } else {
        reveal(Seq::filter);
        assert(ops.take(0) =~= Seq::empty());
        assert(committed(ops, top, bottom, 0) =~= Seq::empty());
    }
}

/// The effects of `ops` before `first`, then `window`, then the effects after `first`.
pub open spec fn around(ops: Seq<DomOp>, first: int, window: DomOp) -> Seq<DomOp> {
    ops.take(first).filter(|op: DomOp| effect(op)).push(window) + ops.skip(first + 1).filter(
        |op: DomOp| effect(op),
    )
}

/// With no window outstanding, the one final window takes the place of the first
/// operation that draws rows after the last message: effects before it stay before it,
/// and effects after it act on what it shows.
pub proof fn the_final_window_takes_the_first_place(
    pushed: Seq<DomOp>,
    top: i64,
    bottom: i64,
    reset: int,
    first: int,
)
    requires
        -1 <= reset < first < pushed.len(),
        reset >= 0 ==> replaces_rows(pushed[reset]),
        forall|i: int| reset < i < pushed.len() ==> !replaces_rows(#[trigger] pushed[i]),
        draws_rows(pushed[first]),
        forall|i: int| reset < i < first ==> !draws_rows(#[trigger] pushed[i]),
    ensures
        ({
            let ops = current(pushed, false);
            let done = committed(ops, top, bottom, ops.len() as int);
            exists|window: DomOp|
                (window is PatchWindow || window is ReanchorLive) && done.filter(
                    |op: DomOp| effect(op) || draws_rows(op),
                ) == #[trigger] around(pushed, first, window)
        }),
{
    let n = pushed.len() as int;
    if reset >= 0 {
        lemma_message_found(pushed, n, reset);
    } else {
        lemma_no_message(pushed, n);
    }
    lemma_first_render(pushed, reset + 1);
    lemma_first_render_is_first(pushed, reset + 1, first);
    let found = first_render(pushed, reset + 1);
    assert(found == first);
    lemma_committed_from(pushed, top, bottom, first, n);
    assert(pushed.subrange(first + 1, n) =~= pushed.skip(first + 1));
    let window = final_window(pushed, top, bottom);
    assert(window is PatchWindow || window is ReanchorLive);
    assert(committed(pushed, top, bottom, n).filter(
        |op: DomOp| effect(op) || draws_rows(op),
    ) == around(pushed, first, window));
}

proof fn lemma_live_found(ops: Seq<DomOp>, reset: int, n: int, i: int)
    requires
        -1 <= reset < i < n <= ops.len(),
        ops[i] is ReanchorLive,
        forall|j: int| i < j < n ==> !(#[trigger] ops[j] is ReanchorLive),
    ensures
        last_live(ops, reset, n) == i,
    decreases n,
{
    if i < n - 1 {
        lemma_live_found(ops, reset, n - 1, i);
    }
}

proof fn lemma_no_live(ops: Seq<DomOp>, reset: int, n: int)
    requires
        -1 <= reset,
        0 <= n <= ops.len(),
        forall|j: int| reset < j < n ==> !(#[trigger] ops[j] is ReanchorLive),
    ensures
        last_live(ops, reset, n) == -1,
    decreases n,
{
    if n > 0 && n > reset + 1 {
        lemma_no_live(ops, reset, n - 1);
    }
}

/// The final window shows the rows asked for. It is placed where the last live anchor
/// after the last message put it, and moves the connections as that one did; without a
/// live anchor it patches the rows in place.
pub proof fn the_final_window_follows_the_last_live_anchor(
    pushed: Seq<DomOp>,
    top: i64,
    bottom: i64,
    reset: int,
    live: int,
)
    requires
        -1 <= reset < pushed.len(),
        reset >= 0 ==> replaces_rows(pushed[reset]),
        forall|i: int| reset < i < pushed.len() ==> !replaces_rows(#[trigger] pushed[i]),
        live == -1 || reset < live < pushed.len() && pushed[live] is ReanchorLive,
        forall|i: int|
            reset < i < pushed.len() && live < i ==> !(#[trigger] pushed[i] is ReanchorLive),
    ensures
        ({
            let ops = current(pushed, false);
            let done = committed(ops, top, bottom, ops.len() as int);
            forall|a: int|
                0 <= a < done.len() && draws_rows(#[trigger] done[a]) ==> done[a] == (if live
                    >= 0 {
                    DomOp::ReanchorLive {
                        top,
                        bottom,
                        scroll_top: pushed[live]->ReanchorLive_scroll_top,
                        animate_connections: pushed[live]->ReanchorLive_animate_connections,
                    }
                } else {
                    DomOp::PatchWindow { top, bottom }
                })
        }),
{
    let n = pushed.len() as int;
    if reset >= 0 {
        lemma_message_found(pushed, n, reset);
    } else {
        lemma_no_message(pushed, n);
    }
    if live >= 0 {
        lemma_live_found(pushed, reset, n, live);
    } else {
        lemma_no_live(pushed, reset, n);
    }
    lemma_committed_window(pushed, top, bottom, n);
    let done = committed(pushed, top, bottom, n);
    assert forall|a: int| 0 <= a < done.len() && draws_rows(#[trigger] done[a]) implies rendering(
        done[a],
    ) by {}
}

proof fn lemma_scrolls_committed(ops: Seq<DomOp>, top: i64, bottom: i64, live: int, n: int)
    requires
        0 <= live + 1 <= n <= ops.len(),
        last_live(ops, last_message(ops, ops.len() as int), ops.len() as int) == live,
    ensures
        committed(ops, top, bottom, n).filter(|op: DomOp| moves_scroll(op)) == ops.subrange(
            live + 1,
            n,
        ).filter(|op: DomOp| moves_scroll(op)),
    decreases n,
{
    let scrolls = |op: DomOp| moves_scroll(op);
    if n == live + 1 {
        lemma_no_early_scroll(ops, top, bottom, live, n);
        assert(ops.subrange(live + 1, n) =~= Seq::empty());
        reveal(Seq::filter);
    } else {
        lemma_scrolls_committed(ops, top, bottom, live, n - 1);
        let before = committed(ops, top, bottom, n - 1);
        let rest = ops.subrange(live + 1, n - 1);
        assert(ops.subrange(live + 1, n) =~= rest.push(ops[n - 1]));
        rest.lemma_filter_push(ops[n - 1], scrolls);
        match committed_op(ops, top, bottom, n - 1) {
            Some(op) => {
                before.lemma_filter_push(op, scrolls);
            },
            None => {},
        }
    }
}

proof fn lemma_no_early_scroll(ops: Seq<DomOp>, top: i64, bottom: i64, live: int, n: int)
    requires
        0 <= n <= live + 1 <= ops.len(),
        last_live(ops, last_message(ops, ops.len() as int), ops.len() as int) == live,
    ensures
        committed(ops, top, bottom, n).filter(|op: DomOp| moves_scroll(op)) == Seq::<
            DomOp,
        >::empty(),
    decreases n,
{
    let scrolls = |op: DomOp| moves_scroll(op);
    if n > 0 {
        lemma_no_early_scroll(ops, top, bottom, live, n - 1);
        lemma_live_is_live(ops, last_message(ops, ops.len() as int), ops.len() as int);
        let before = committed(ops, top, bottom, n - 1);
        match committed_op(ops, top, bottom, n - 1) {
            Some(op) => {
                before.lemma_filter_push(op, scrolls);
            },
            None => {},
        }
    } else {
        reveal(Seq::filter);
    }
}

proof fn lemma_live_is_live(ops: Seq<DomOp>, reset: int, n: int)
    requires
        last_live(ops, reset, n) >= 0,
    ensures
        ops[last_live(ops, reset, n)] is ReanchorLive,
    decreases n,
{
    if n > 0 && n > reset + 1 && !(ops[n - 1] is ReanchorLive) {
        lemma_live_is_live(ops, reset, n - 1);
    }
}

/// Whether an operation moves the scroll offset and does nothing else.
pub open spec fn moves_scroll(op: DomOp) -> bool {
    op is SetScrollTop || op is RestoreScrollTop
}

/// With no window outstanding, the scroll offsets that a frame sets are those that were
/// set after its last live anchor, or all of them where it has none; those before are
/// superseded by the anchor.
pub proof fn scroll_offsets_after_the_live_anchor_are_kept(
    pushed: Seq<DomOp>,
    top: i64,
    bottom: i64,
    reset: int,
    live: int,
)
    requires
        -1 <= reset < pushed.len(),
        reset >= 0 ==> replaces_rows(pushed[reset]),
        forall|i: int| reset < i < pushed.len() ==> !replaces_rows(#[trigger] pushed[i]),
        live == -1 || reset < live < pushed.len() && pushed[live] is ReanchorLive,
        forall|i: int|
            reset < i < pushed.len() && live < i ==> !(#[trigger] pushed[i] is ReanchorLive),
    ensures
        ({
            let ops = current(pushed, false);
            committed(ops, top, bottom, ops.len() as int).filter(|op: DomOp| moves_scroll(op))
                == pushed.skip(live + 1).filter(|op: DomOp| moves_scroll(op))
        }),
{
    let n = pushed.len() as int;
    if reset >= 0 {
        lemma_message_found(pushed, n, reset);
    } else {
        lemma_no_message(pushed, n);
    }
    if live >= 0 {
        lemma_live_found(pushed, reset, n, live);
    } else {
        lemma_no_live(pushed, reset, n);
    }
    lemma_scrolls_committed(pushed, top, bottom, live, n);
    assert(pushed.subrange(live + 1, n) =~= pushed.skip(live + 1));
}

proof fn lemma_headers_committed(ops: Seq<DomOp>, top: i64, bottom: i64, n: int)
    requires
        0 <= n <= ops.len(),
    ensures
        ({
            let reset = last_message(ops, ops.len() as int);
            committed(ops, top, bottom, n).filter(|op: DomOp| op is RefreshHeader) == (if
            first_render(ops, reset + 1) < ops.len() {
                Seq::empty()
            } else {
                ops.take(n).filter(|op: DomOp| op is RefreshHeader)
            })
        }),
    decreases n,
{
    let header = |op: DomOp| op is RefreshHeader;
    if n > 0 {
        lemma_headers_committed(ops, top, bottom, n - 1);
        let before = committed(ops, top, bottom, n - 1);
        assert(ops.take(n) =~= ops.take(n - 1).push(ops[n - 1]));
        ops.take(n - 1).lemma_filter_push(ops[n - 1], header);
        match committed_op(ops, top, bottom, n - 1) {
            Some(op) => {
                before.lemma_filter_push(op, header);
            },
            None => {},
        }
    } else {
        reveal(Seq::filter);
        assert(ops.take(0) =~= Seq::empty());
    }
}

/// With no window outstanding, a frame that draws no rows after its last message keeps
/// every refresh of the header. One that draws them keeps none: the final window brings
/// the header with it.
pub proof fn the_header_comes_with_the_window(
    pushed: Seq<DomOp>,
    top: i64,
    bottom: i64,
    reset: int,
    drawn: bool,
)
    requires
        -1 <= reset < pushed.len(),
        reset >= 0 ==> replaces_rows(pushed[reset]),
        forall|i: int| reset < i < pushed.len() ==> !replaces_rows(#[trigger] pushed[i]),
        drawn == exists|i: int| reset < i < pushed.len() && draws_rows(#[trigger] pushed[i]),
    ensures
        ({
            let ops = current(pushed, false);
            committed(ops, top, bottom, ops.len() as int).filter(|op: DomOp| op is RefreshHeader)
                == (if drawn {
                Seq::empty()
            } else {
                pushed.filter(|op: DomOp| op is RefreshHeader)
            })
        }),
{
    let n = pushed.len() as int;
    if reset >= 0 {
        lemma_message_found(pushed, n, reset);
    } else {
        lemma_no_message(pushed, n);
    }
    lemma_first_render(pushed, reset + 1);
    let first = first_render(pushed, reset + 1);
    if drawn {
        let i = choose|i: int| reset < i < pushed.len() && draws_rows(#[trigger] pushed[i]);
        lemma_first_render_is_first(pushed, reset + 1, i);
    } else if first < n {
        assert(draws_rows(pushed[first]));
    }
    lemma_headers_committed(pushed, top, bottom, n);
    assert(pushed.take(n) =~= pushed);
}

/// The offset that an operation asks the page to scroll to.
pub open spec fn asks_to_scroll(op: DomOp, offset: int) -> bool {
    ||| op matches DomOp::SetScrollTop(to) && to == offset
    ||| op matches DomOp::ReanchorLive { scroll_top, .. } && scroll_top == offset
    ||| op matches DomOp::RestoreScrollTop { row_index } && row_index * ROW_H == offset
}

/// The last offset that a transition asks for is where the viewport stands after it, as
/// far as the page can be scrolled; without one the viewport stays.
pub proof fn the_viewport_follows_the_last_offset(
    scroll_top: int,
    ops: Seq<DomOp>,
    last: int,
    offset: int,
)
    requires
        -1 <= last < ops.len(),
        last >= 0 ==> asks_to_scroll(ops[last], offset) && 0 <= offset
            <= coordinates::MAX_RENDER_ROWS * ROW_H,
        forall|i: int|
            last < i < ops.len() ==> !(#[trigger] ops[i] is SetScrollTop) && !(
            ops[i] is ReanchorLive) && !(ops[i] is RestoreScrollTop),
    ensures
        scrolled(scroll_top, ops, ops.len() as int) == (if last >= 0 {
            offset
        } else {
            scroll_top
        }),
{
    lemma_scrolled(scroll_top, ops, last, ops.len() as int);
}

proof fn lemma_scrolled(scroll_top: int, ops: Seq<DomOp>, last: int, n: int)
    requires
        -1 <= last < n <= ops.len() || last == -1 && n == 0,
        forall|i: int|
            last < i < ops.len() ==> !(#[trigger] ops[i] is SetScrollTop) && !(
            ops[i] is ReanchorLive) && !(ops[i] is RestoreScrollTop),
    ensures
        scrolled(scroll_top, ops, n) == scrolled(scroll_top, ops, last + 1),
    decreases n,
{
    if n > last + 1 {
        assert(!(ops[n - 1] is SetScrollTop));
        lemma_scrolled(scroll_top, ops, last, n - 1);
    }
}

} // verus!
