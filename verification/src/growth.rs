//! The order in which new graph connections grow.
//!
//! New connections grow from their existing parent toward their new endpoint.
//! Only changed, visible segments take part, and separate connections grow in
//! parallel. Lengths are whole ticks of whatever unit the caller measures in.

use vstd::prelude::*;
use vstd::set_lib::*;

verus! {

/// A place on the graph canvas.
#[derive(Debug, Clone, Copy, PartialEq, Eq, Structural)]
pub struct Point {
    pub x: i64,
    pub y: i64,
}

/// A drawn line, from its newer end to its older end.
#[derive(Debug, Clone, Copy, PartialEq, Eq, Structural)]
pub struct Segment {
    pub start: Point,
    pub end: Point,
}

/// When one segment grows, in ticks out of the `total` of its connection.
#[derive(Debug, Clone, Copy, PartialEq, Eq, Structural)]
pub struct Timing {
    pub delay: u64,
    pub duration: u64,
    pub total: u64,
}

/// When the growth reaches a point, in ticks out of the `total` of its connection.
#[derive(Debug, Clone, Copy, PartialEq, Eq, Structural)]
pub struct Arrival {
    pub point: Point,
    pub distance: u64,
    pub total: u64,
}

/// The growth of a set of segments.
#[derive(Debug)]
pub struct Growth {
    pub segments: Vec<Timing>,
    pub arrivals: Vec<Arrival>,
}

/// Whether a segment ends in a point, at either end.
pub open spec fn touches(segment: Segment, point: Point) -> bool {
    segment.start == point || segment.end == point
}

/// Whether two segments share an end.
pub open spec fn adjacent(a: Segment, b: Segment) -> bool {
    touches(b, a.start) || touches(b, a.end)
}

/// The segments among the first `n` that touch a point, in their order.
pub open spec fn touching(segments: Seq<Segment>, point: Point, n: int) -> Seq<int>
    decreases n,
{
    if n <= 0 {
        Seq::empty()
    } else if touches(segments[n - 1], point) {
        touching(segments, point, n - 1).push(n - 1)
    } else {
        touching(segments, point, n - 1)
    }
}

/// The neighbours of a segment: those at its start, then those at its end.
pub open spec fn neighbours(segments: Seq<Segment>, index: int) -> Seq<int> {
    touching(segments, segments[index].start, segments.len() as int) + touching(
        segments,
        segments[index].end,
        segments.len() as int,
    )
}

/// Depth-first traversal: what has been seen once nothing is pending.
pub open spec fn walk(segments: Seq<Segment>, pending: Seq<int>, seen: Seq<int>) -> Seq<int>
    decreases segments.len() - seen.len(), pending.len(),
{
    if pending.len() == 0 || seen.len() >= segments.len() {
        seen
    } else {
        let top = pending.last();
        if seen.contains(top) {
            walk(segments, pending.drop_last(), seen)
        } else {
            walk(segments, pending.drop_last() + neighbours(segments, top), seen.push(top))
        }
    }
}

/// The connections that the seeds from `seed` on start, each in traversal order.
pub open spec fn connections_from(segments: Seq<Segment>, seed: int, seen: Seq<int>) -> Seq<
    Seq<int>,
>
    decreases segments.len() - seed,
{
    if seed >= segments.len() {
        Seq::empty()
    } else if seen.contains(seed) {
        connections_from(segments, seed + 1, seen)
    } else {
        let after = walk(segments, seq![seed], seen);
        seq![after.skip(seen.len() as int)] + connections_from(segments, seed + 1, after)
    }
}

/// The connections of a set of segments.
pub open spec fn connections(segments: Seq<Segment>) -> Seq<Seq<int>> {
    connections_from(segments, 0, Seq::empty())
}

/// A segment placed behind those that end at least as low.
pub open spec fn placed(segments: Seq<Segment>, ordered: Seq<int>, index: int) -> Seq<int>
    decreases ordered.len(),
{
    if ordered.len() == 0 || segments[ordered.last()].end.y >= segments[index].end.y {
        ordered.push(index)
    } else {
        placed(segments, ordered.drop_last(), index).push(ordered.last())
    }
}

/// Segments from the lowest end up; equals keep their order.
pub open spec fn by_end(segments: Seq<Segment>, indices: Seq<int>) -> Seq<int>
    decreases indices.len(),
{
    if indices.len() == 0 {
        Seq::empty()
    } else {
        placed(segments, by_end(segments, indices.drop_last()), indices.last())
    }
}

/// How far the growth has come at a point once the first `k` segments are laid.
pub open spec fn reach(
    segments: Seq<Segment>,
    lengths: Seq<u64>,
    order: Seq<int>,
    k: int,
    point: Point,
) -> int
    decreases k,
{
    if k <= 0 {
        0
    } else {
        let before = reach(segments, lengths, order, k - 1, point);
        let segment = segments[order[k - 1]];
        if segment.start == point {
            let arrival = reach(segments, lengths, order, k - 1, segment.end)
                + lengths[order[k - 1]];
            if before > arrival {
                before
            } else {
                arrival
            }
        } else {
            before
        }
    }
}

/// When the `k`-th segment laid is complete.
pub open spec fn finish(
    segments: Seq<Segment>,
    lengths: Seq<u64>,
    order: Seq<int>,
    k: int,
) -> int {
    reach(segments, lengths, order, k, segments[order[k]].end) + lengths[order[k]]
}

/// When the first `k` segments laid are all complete.
pub open spec fn total(
    segments: Seq<Segment>,
    lengths: Seq<u64>,
    order: Seq<int>,
    k: int,
) -> int
    decreases k,
{
    if k <= 0 {
        0
    } else {
        let before = total(segments, lengths, order, k - 1);
        let finish = finish(segments, lengths, order, k - 1);
        if before > finish {
            before
        } else {
            finish
        }
    }
}

/// The timing of the `k`-th segment of a connection laid in `order`.
pub open spec fn timing(
    segments: Seq<Segment>,
    lengths: Seq<u64>,
    order: Seq<int>,
    k: int,
) -> Timing {
    Timing {
        delay: reach(segments, lengths, order, k, segments[order[k]].end) as u64,
        duration: lengths[order[k]],
        total: total(segments, lengths, order, order.len() as int) as u64,
    }
}

/// The starts of the first `k` segments laid, each once.
pub open spec fn starts(segments: Seq<Segment>, order: Seq<int>, k: int) -> Seq<Point>
    decreases k,
{
    if k <= 0 {
        Seq::empty()
    } else {
        let before = starts(segments, order, k - 1);
        let start = segments[order[k - 1]].start;
        if before.contains(start) {
            before
        } else {
            before.push(start)
        }
    }
}

/// The arrivals of a connection laid in `order`.
pub open spec fn arrivals(segments: Seq<Segment>, lengths: Seq<u64>, order: Seq<int>) -> Seq<
    Arrival,
> {
    let points = starts(segments, order, order.len() as int);
    Seq::new(
        points.len(),
        |i: int|
            Arrival {
                point: points[i],
                distance: reach(segments, lengths, order, order.len() as int, points[i]) as u64,
                total: total(segments, lengths, order, order.len() as int) as u64,
            },
    )
}

/// The arrivals of the first `n` connections.
pub open spec fn all_arrivals(
    segments: Seq<Segment>,
    lengths: Seq<u64>,
    parts: Seq<Seq<int>>,
    n: int,
) -> Seq<Arrival>
    decreases n,
{
    if n <= 0 {
        Seq::empty()
    } else {
        all_arrivals(segments, lengths, parts, n - 1) + arrivals(
            segments,
            lengths,
            by_end(segments, parts[n - 1]),
        )
    }
}

/// The indices that a run of positions stands for.
pub open spec fn ints(indices: Seq<usize>) -> Seq<int> {
    Seq::new(indices.len(), |i: int| indices[i] as int)
}

/// Whether every index names one of `n` segments, and none occurs twice.
pub open spec fn distinct_below(indices: Seq<int>, n: int) -> bool {
    &&& forall|i: int| 0 <= i < indices.len() ==> 0 <= #[trigger] indices[i] < n
    &&& indices.no_duplicates()
}

/// Whether the flags say which indices have been seen.
spec fn marks(visited: Seq<bool>, seen: Seq<int>) -> bool {
    forall|i: int| 0 <= i < visited.len() ==> #[trigger] visited[i] == seen.contains(i)
}

proof fn touching_is_in_range(segments: Seq<Segment>, point: Point, n: int)
    requires
        0 <= n <= segments.len(),
    ensures
        forall|i: int|
            0 <= i < touching(segments, point, n).len() ==> 0 <= #[trigger] touching(
                segments,
                point,
                n,
            )[i] < n,
    decreases n,
{
    if n > 0 {
        touching_is_in_range(segments, point, n - 1);
        let list = touching(segments, point, n);
        let rest = touching(segments, point, n - 1);
        assert forall|i: int| 0 <= i < list.len() implies 0 <= #[trigger] list[i] < n by {
            if i < rest.len() {
                assert(list[i] == rest[i]);
            }
        }
    }
}

fn push_touching(segments: &[Segment], point: Point, pending: &mut Vec<usize>)
    ensures
        ints(final(pending)@) == ints(old(pending)@) + touching(
            segments@,
            point,
            segments@.len() as int,
        ),
{
    let ghost start = ints(pending@);
    let mut i: usize = 0;
    assert(ints(pending@) =~= start + touching(segments@, point, 0));
    while i < segments.len()
        invariant
            i <= segments.len(),
            ints(pending@) == start + touching(segments@, point, i as int),
        decreases segments.len() - i,
    {
        let segment = segments[i];
        if segment.start == point || segment.end == point {
            let ghost before = pending@;
            pending.push(i);
            assert(ints(pending@) =~= ints(before).push(i as int));
            assert(ints(pending@) =~= start + touching(segments@, point, i + 1));
        }
        i = i + 1;
    }
}

/// Adds the connection of `seed` to what has been seen.
fn traverse(segments: &[Segment], seed: usize, seen: &mut Vec<usize>, visited: &mut Vec<bool>)
    requires
        seed < segments.len(),
        old(visited)@.len() == segments@.len(),
        marks(old(visited)@, ints(old(seen)@)),
        distinct_below(ints(old(seen)@), segments@.len() as int),
    ensures
        final(visited)@.len() == segments@.len(),
        marks(final(visited)@, ints(final(seen)@)),
        distinct_below(ints(final(seen)@), segments@.len() as int),
        ints(final(seen)@) == walk(segments@, seq![seed as int], ints(old(seen)@)),
        old(seen)@.len() <= final(seen)@.len(),
        ints(final(seen)@).take(old(seen)@.len() as int) == ints(old(seen)@),
{
    let ghost start = ints(seen@);
    let ghost goal = walk(segments@, seq![seed as int], start);
    let mut pending: Vec<usize> = Vec::new();
    pending.push(seed);
    assert(ints(pending@) =~= seq![seed as int]);
    assert(ints(seen@).take(start.len() as int) =~= start);
    while pending.len() > 0 && seen.len() < segments.len()
        invariant
            visited@.len() == segments@.len(),
            marks(visited@, ints(seen@)),
            distinct_below(ints(seen@), segments@.len() as int),
            forall|i: int| 0 <= i < pending@.len() ==> #[trigger] pending@[i] < segments@.len(),
            walk(segments@, ints(pending@), ints(seen@)) == goal,
            start.len() <= seen@.len(),
            ints(seen@).take(start.len() as int) == start,
        decreases segments.len() - seen.len(), pending.len(),
    {
        let ghost stack = ints(pending@);
        let ghost known = ints(seen@);
        let ghost flags = visited@;
        assert(pending@[pending@.len() - 1] < segments@.len());
        let last: usize = pending.len() - 1;
        let top: usize = pending[last];
        pending.pop();
        assert(stack.last() == top as int);
        assert(ints(pending@) =~= stack.drop_last());
        if !visited[top] {
            let ghost listed = seen@;
            visited.set(top, true);
            seen.push(top);
            assert(ints(seen@) =~= known.push(top as int));
            assert(!known.contains(top as int));
            assert(marks(visited@, ints(seen@))) by {
                assert forall|i: int| 0 <= i < visited@.len() implies #[trigger] visited@[i]
                    == ints(seen@).contains(i) by {
                    if i == top as int {
                        assert(ints(seen@)[known.len() as int] == i);
                    } else {
                        assert(visited@[i] == flags[i]);
                        if known.contains(i) {
                            let k = choose|k: int| 0 <= k < known.len() && known[k] == i;
                            assert(ints(seen@)[k] == i);
                        }
                    }
                }
            }
            let segment = segments[top];
            let ghost base = ints(pending@);
            proof {
                touching_is_in_range(segments@, segment.start, segments@.len() as int);
                touching_is_in_range(segments@, segment.end, segments@.len() as int);
            }
            push_touching(segments, segment.start, &mut pending);
            push_touching(segments, segment.end, &mut pending);
            assert(ints(pending@) =~= base + neighbours(segments@, top as int));
            assert forall|i: int| 0 <= i < pending@.len() implies #[trigger] pending@[i]
                < segments@.len() by {
                assert(ints(pending@)[i] == pending@[i]);
                if i < base.len() {
                    assert(base[i] == stack[i]);
                } else {
                    assert(ints(pending@)[i] == neighbours(segments@, top as int)[i - base.len()]);
                }
            }
            assert(ints(seen@).take(start.len() as int) =~= known.take(start.len() as int));
        }
    }
}

proof fn placing_keeps_the_items(segments: Seq<Segment>, ordered: Seq<int>, index: int)
    ensures
        placed(segments, ordered, index).len() == ordered.len() + 1,
        placed(segments, ordered, index).contains(index),
        forall|x: int|
            #[trigger] placed(segments, ordered, index).contains(x) <==> x == index
                || ordered.contains(x),
        ordered.no_duplicates() && !ordered.contains(index) ==> placed(
            segments,
            ordered,
            index,
        ).no_duplicates(),
    decreases ordered.len(),
{
    let result = placed(segments, ordered, index);
    if ordered.len() == 0 || segments[ordered.last()].end.y >= segments[index].end.y {
        assert(result[ordered.len() as int] == index);
        assert forall|x: int| result.contains(x) <==> x == index || ordered.contains(x) by {
            if ordered.contains(x) {
                let k = choose|k: int| 0 <= k < ordered.len() && ordered[k] == x;
                assert(result[k] == x);
            }
        }
    } else {
        let rest = ordered.drop_last();
        let inner = placed(segments, rest, index);
        placing_keeps_the_items(segments, rest, index);
        assert forall|x: int| result.contains(x) <==> x == index || ordered.contains(x) by {
            if inner.contains(x) {
                let k = choose|k: int| 0 <= k < inner.len() && inner[k] == x;
                assert(result[k] == x);
            }
            if ordered.contains(x) {
                let k = choose|k: int| 0 <= k < ordered.len() && ordered[k] == x;
                if k < rest.len() {
                    assert(rest[k] == x);
                } else {
                    assert(result[inner.len() as int] == x);
                }
            }
            if rest.contains(x) {
                let k = choose|k: int| 0 <= k < rest.len() && rest[k] == x;
                assert(ordered[k] == x);
            }
            if result.contains(x) {
                let k = choose|k: int| 0 <= k < result.len() && result[k] == x;
                if k < inner.len() {
                    assert(inner[k] == x);
                } else {
                    assert(ordered[ordered.len() - 1] == x);
                }
            }
        }
        if ordered.no_duplicates() && !ordered.contains(index) {
            assert(!rest.contains(index)) by {
                if rest.contains(index) {
                    let k = choose|k: int| 0 <= k < rest.len() && rest[k] == index;
                    assert(ordered[k] == index);
                }
            }
            assert(!inner.contains(ordered.last())) by {
                assert(ordered[ordered.len() - 1] == ordered.last());
                if rest.contains(ordered.last()) {
                    let k = choose|k: int| 0 <= k < rest.len() && rest[k] == ordered.last();
                    assert(ordered[k] == ordered[ordered.len() - 1]);
                }
            }
            assert forall|i: int, j: int|
                0 <= i < result.len() && 0 <= j < result.len() && i != j implies result[i]
                != result[j] by {
                if i < inner.len() && j < inner.len() {
                    assert(inner[i] != inner[j]);
                } else if i < inner.len() {
                    assert(inner.contains(inner[i]));
                } else {
                    assert(inner.contains(inner[j]));
                }
            }
        }
    }
}

/// Ordering a connection keeps its segments.
pub proof fn ordering_keeps_the_segments(segments: Seq<Segment>, indices: Seq<int>)
    ensures
        by_end(segments, indices).len() == indices.len(),
        forall|x: int|
            #[trigger] by_end(segments, indices).contains(x) <==> indices.contains(x),
        indices.no_duplicates() ==> by_end(segments, indices).no_duplicates(),
    decreases indices.len(),
{
    if indices.len() > 0 {
        let rest = indices.drop_last();
        ordering_keeps_the_segments(segments, rest);
        placing_keeps_the_items(segments, by_end(segments, rest), indices.last());
        assert forall|x: int|
            #[trigger] by_end(segments, indices).contains(x) <==> indices.contains(x) by {
            if indices.contains(x) {
                let k = choose|k: int| 0 <= k < indices.len() && indices[k] == x;
                if k < rest.len() {
                    assert(rest[k] == x);
                }
            }
            if rest.contains(x) {
                let k = choose|k: int| 0 <= k < rest.len() && rest[k] == x;
                assert(indices[k] == x);
            }
            assert(indices[indices.len() - 1] == indices.last());
        }
        if indices.no_duplicates() {
            assert(!rest.contains(indices.last())) by {
                if rest.contains(indices.last()) {
                    let k = choose|k: int| 0 <= k < rest.len() && rest[k] == indices.last();
                    assert(indices[k] == indices[indices.len() - 1]);
                }
            }
        }
    }
}

/// The segments of a connection from the lowest end up.
fn ordered_by_end(segments: &[Segment], indices: &[usize]) -> (order: Vec<usize>)
    requires
        forall|i: int| 0 <= i < indices@.len() ==> #[trigger] indices@[i] < segments@.len(),
    ensures
        ints(order@) == by_end(segments@, ints(indices@)),
        forall|i: int| 0 <= i < order@.len() ==> #[trigger] order@[i] < segments@.len(),
{
    let mut order: Vec<usize> = Vec::new();
    let ghost all = ints(indices@);
    let mut i: usize = 0;
    assert(ints(order@) =~= by_end(segments@, all.take(0)));
    while i < indices.len()
        invariant
            i <= indices.len(),
            all == ints(indices@),
            forall|k: int| 0 <= k < indices@.len() ==> #[trigger] indices@[k] < segments@.len(),
            forall|k: int| 0 <= k < order@.len() ==> #[trigger] order@[k] < segments@.len(),
            ints(order@) == by_end(segments@, all.take(i as int)),
        decreases indices.len() - i,
    {
        let index: usize = indices[i];
        let ghost before = ints(order@);
        let mut at: usize = order.len();
        assert(before.take(at as int) =~= before);
        assert(before.skip(at as int) =~= Seq::empty());
        assert(placed(segments@, before, index as int) =~= placed(
            segments@,
            before.take(at as int),
            index as int,
        ) + before.skip(at as int));
        while at > 0 && segments[order[at - 1]].end.y < segments[index].end.y
            invariant
                at <= order.len(),
                index < segments@.len(),
                before == ints(order@),
                forall|k: int| 0 <= k < order@.len() ==> #[trigger] order@[k] < segments@.len(),
                placed(segments@, before, index as int) == placed(
                    segments@,
                    before.take(at as int),
                    index as int,
                ) + before.skip(at as int),
            decreases at,
        {
            proof {
                let head = before.take(at as int);
                assert(head.last() == order@[at - 1] as int);
                assert(head.drop_last() =~= before.take(at - 1));
                assert(placed(segments@, head, index as int) + before.skip(at as int) =~= placed(
                    segments@,
                    before.take(at - 1),
                    index as int,
                ) + before.skip(at - 1));
            }
            at = at - 1;
        }
        proof {
            let head = before.take(at as int);
            if at > 0 {
                assert(head.last() == order@[at - 1] as int);
            }
            assert(placed(segments@, head, index as int) == head.push(index as int));
        }
        order.insert(at, index);
        proof {
            assert(ints(order@) =~= before.take(at as int).push(index as int) + before.skip(
                at as int,
            ));
            assert(all.take(i + 1).drop_last() =~= all.take(i as int));
            assert(all.take(i + 1).last() == index as int);
        }
        i = i + 1;
    }
    assert(all.take(i as int) =~= all);
    order
}

/// Whether the timings of a connection count up to `bound` at most.
proof fn distances_are_bounded(
    segments: Seq<Segment>,
    lengths: Seq<u64>,
    order: Seq<int>,
    k: int,
    point: Point,
    step: int,
)
    requires
        0 <= k <= order.len(),
        0 <= step,
        forall|i: int| 0 <= i < order.len() ==> lengths[#[trigger] order[i]] <= step,
    ensures
        0 <= reach(segments, lengths, order, k, point) <= k * step,
        0 <= total(segments, lengths, order, k) <= k * step,
    decreases k,
{
    assert(0 <= k * step) by (nonlinear_arith)
        requires
            0 <= k,
            0 <= step,
    ;
    if k > 0 {
        distances_are_bounded(segments, lengths, order, k - 1, point, step);
        distances_are_bounded(
            segments,
            lengths,
            order,
            k - 1,
            segments[order[k - 1]].end,
            step,
        );
        assert((k - 1) * step + step == k * step) by (nonlinear_arith);
        assert(0 <= (k - 1) * step) by (nonlinear_arith)
            requires
                k >= 1,
                step >= 0,
        ;
        assert(lengths[order[k - 1]] <= step);
    }
}

proof fn unreached_points_have_no_distance(
    segments: Seq<Segment>,
    lengths: Seq<u64>,
    order: Seq<int>,
    k: int,
    point: Point,
)
    requires
        !starts(segments, order, k).contains(point),
    ensures
        reach(segments, lengths, order, k, point) == 0,
    decreases k,
{
    if k > 0 {
        let before = starts(segments, order, k - 1);
        let now = starts(segments, order, k);
        let start = segments[order[k - 1]].start;
        if before.contains(point) {
            let i = choose|i: int| 0 <= i < before.len() && before[i] == point;
            assert(now[i] == point);
        }
        if start == point && !before.contains(start) {
            assert(now[before.len() as int] == point);
        }
        unreached_points_have_no_distance(segments, lengths, order, k - 1, point);
    }
}

/// Where a point stands among the distances.
fn find_point(distances: &Vec<(Point, u64)>, point: Point) -> (at: Option<usize>)
    ensures
        match at {
            Some(at) => at < distances@.len() && distances@[at as int].0 == point,
            None => forall|i: int| 0 <= i < distances@.len() ==> #[trigger] distances@[i].0 != point,
        },
{
    let mut i: usize = 0;
    while i < distances.len()
        invariant
            i <= distances.len(),
            forall|k: int| 0 <= k < i ==> #[trigger] distances@[k].0 != point,
        decreases distances.len() - i,
    {
        if distances[i].0 == point {
            return Some(i);
        }
        i = i + 1;
    }
    None
}

/// Whether the distances are those reached after `k` segments.
spec fn measured(
    segments: Seq<Segment>,
    lengths: Seq<u64>,
    order: Seq<int>,
    k: int,
    distances: Seq<(Point, u64)>,
) -> bool {
    let points = starts(segments, order, k);
    &&& distances.len() == points.len()
    &&& forall|i: int|
        #![trigger distances[i]]
        0 <= i < distances.len() ==> distances[i].0 == points[i] && distances[i].1 == reach(
            segments,
            lengths,
            order,
            k,
            points[i],
        )
}

/// Whether lengths can be summed along any connection, and none is empty.
pub open spec fn summable(lengths: Seq<u64>) -> bool {
    &&& forall|i: int|
        0 <= i < lengths.len() ==> #[trigger] lengths[i] * lengths.len() <= u64::MAX
    &&& forall|i: int| 0 <= i < lengths.len() ==> #[trigger] lengths[i] > 0
}

proof fn distances_fit(
    segments: Seq<Segment>,
    lengths: Seq<u64>,
    order: Seq<int>,
    k: int,
    point: Point,
)
    requires
        0 <= k <= order.len() <= lengths.len(),
        summable(lengths),
        forall|i: int| 0 <= i < order.len() ==> 0 <= #[trigger] order[i] < lengths.len(),
    ensures
        0 <= reach(segments, lengths, order, k, point) <= u64::MAX,
        0 <= total(segments, lengths, order, k) <= u64::MAX,
{
    if lengths.len() > 0 {
        let n = lengths.len() as int;
        let step = u64::MAX as int / n;
        assert forall|i: int| 0 <= i < order.len() implies lengths[#[trigger] order[i]]
            <= step by {
            let l = lengths[order[i]] as int;
            assert(l * n <= u64::MAX);
            assert(l <= u64::MAX as int / n) by (nonlinear_arith)
                requires
                    l * n <= u64::MAX,
                    n > 0,
            ;
        }
        assert(step >= 0) by (nonlinear_arith)
            requires
                step == u64::MAX as int / n,
                n > 0,
        ;
        distances_are_bounded(segments, lengths, order, k, point, step);
        assert(k * step <= u64::MAX) by (nonlinear_arith)
            requires
                0 <= k <= n,
                step == u64::MAX as int / n,
                n > 0,
        ;
    }
}

/// Whether the timings of a connection stand in the growth.
pub open spec fn timed(
    segments: Seq<Segment>,
    lengths: Seq<u64>,
    indices: Seq<int>,
    timings: Seq<Timing>,
) -> bool {
    let order = by_end(segments, indices);
    forall|k: int|
        0 <= k < order.len() ==> timings[#[trigger] order[k]] == timing(
            segments,
            lengths,
            order,
            k,
        )
}

/// Times one connection, given by its segments in traversal order.
pub fn grow_component(
    segments: &[Segment],
    lengths: &[u64],
    component: &[usize],
    growth: &mut Growth,
)
    requires
        segments@.len() == lengths@.len() == old(growth).segments@.len(),
        summable(lengths@),
        distinct_below(ints(component@), segments@.len() as int),
        component@.len() <= segments@.len(),
    ensures
        final(growth).segments@.len() == old(growth).segments@.len(),
        timed(segments@, lengths@, ints(component@), final(growth).segments@),
        forall|i: int|
            0 <= i < segments@.len() && !ints(component@).contains(i)
                ==> #[trigger] final(growth).segments@[i] == old(growth).segments@[i],
        final(growth).arrivals@ == old(growth).arrivals@ + arrivals(
            segments@,
            lengths@,
            by_end(segments@, ints(component@)),
        ),
{
    assert forall|i: int| 0 <= i < component@.len() implies #[trigger] component@[i]
        < segments@.len() by {
        assert(ints(component@)[i] == component@[i]);
    }
    let order = ordered_by_end(segments, component);
    let ghost seq_order = ints(order@);
    proof {
        ordering_keeps_the_segments(segments@, ints(component@));
        assert forall|i: int| 0 <= i < seq_order.len() implies 0 <= #[trigger] seq_order[i]
            < lengths@.len() by {
            assert(seq_order[i] == order@[i] as int);
        }
    }
    let mut distances: Vec<(Point, u64)> = Vec::new();
    let mut delays: Vec<u64> = Vec::new();
    let mut total_ticks: u64 = 0;
    let mut k: usize = 0;
    while k < order.len()
        invariant
            k <= order.len(),
            delays@.len() == k,
            segments@.len() == lengths@.len(),
            order@.len() <= lengths@.len(),
            summable(lengths@),
            seq_order == ints(order@),
            seq_order.len() == order@.len(),
            forall|i: int| 0 <= i < seq_order.len() ==> 0 <= #[trigger] seq_order[i]
                < lengths@.len(),
            measured(segments@, lengths@, seq_order, k as int, distances@),
            total_ticks == total(segments@, lengths@, seq_order, k as int),
            forall|i: int|
                0 <= i < k ==> #[trigger] delays@[i] == reach(
                    segments@,
                    lengths@,
                    seq_order,
                    i,
                    segments@[seq_order[i]].end,
                ),
        decreases order.len() - k,
    {
        let ghost points = starts(segments@, seq_order, k as int);
        assert(seq_order[k as int] == order@[k as int] as int);
        let index: usize = order[k];
        let segment = segments[index];
        let delay: u64 = match find_point(&distances, segment.end) {
            Some(at) => {
                let found: u64 = distances[at].1;
                assert(distances@[at as int].0 == points[at as int]);
                found
            },
            None => {
                proof {
                    assert(!points.contains(segment.end)) by {
                        if points.contains(segment.end) {
                            let i = choose|i: int|
                                0 <= i < points.len() && points[i] == segment.end;
                            assert(distances@[i].0 == segment.end);
                        }
                    }
                    unreached_points_have_no_distance(
                        segments@,
                        lengths@,
                        seq_order,
                        k as int,
                        segment.end,
                    );
                }
                0
            },
        };
        proof {
            distances_fit(segments@, lengths@, seq_order, k + 1, segment.start);
            assert(total(segments@, lengths@, seq_order, k + 1) >= delay + lengths@[index as int]);
        }
        let end_time: u64 = delay + lengths[index];
        let ghost old_distances = distances@;
        match find_point(&distances, segment.start) {
            Some(at) => {
                assert(points[at as int] == segment.start);
                assert(points.contains(segment.start));
                if distances[at].1 < end_time {
                    distances.set(at, (segment.start, end_time));
                }
                proof {
                    assert forall|i: int|
                        #![trigger distances@[i]]
                        0 <= i < distances@.len() implies distances@[i].0 == points[i]
                        && distances@[i].1 == reach(
                        segments@,
                        lengths@,
                        seq_order,
                        k + 1,
                        points[i],
                    ) by {
                        assert(old_distances[i].0 == points[i]);
                        if i != at as int {
                            starts_are_distinct(segments@, seq_order, k as int);
                            assert(points[i] != points[at as int]);
                        }
                    }
                }
            },
            None => {
                proof {
                    assert(!points.contains(segment.start)) by {
                        if points.contains(segment.start) {
                            let i = choose|i: int|
                                0 <= i < points.len() && points[i] == segment.start;
                            assert(distances@[i].0 == segment.start);
                        }
                    }
                    unreached_points_have_no_distance(
                        segments@,
                        lengths@,
                        seq_order,
                        k as int,
                        segment.start,
                    );
                }
                distances.push((segment.start, end_time));
                proof {
                    let now = starts(segments@, seq_order, k + 1);
                    assert(now == points.push(segment.start));
                    assert forall|i: int|
                        #![trigger distances@[i]]
                        0 <= i < distances@.len() implies distances@[i].0 == now[i]
                        && distances@[i].1 == reach(
                        segments@,
                        lengths@,
                        seq_order,
                        k + 1,
                        now[i],
                    ) by {
                        if i < points.len() {
                            assert(old_distances[i].0 == points[i]);
                            assert(points[i] != segment.start) by {
                                if points[i] == segment.start {
                                    assert(points.contains(segment.start));
                                }
                            }
                        }
                    }
                }
            },
        }
        if end_time >= total_ticks {
            total_ticks = end_time;
        }
        delays.push(delay);
        k = k + 1;
    }
    let ghost before = growth.segments@;
    let ghost n = order@.len() as int;
    let mut k: usize = 0;
    while k < order.len()
        invariant
            k <= order.len(),
            n == order@.len(),
            delays@.len() == n,
            segments@.len() == lengths@.len(),
            growth.segments@.len() == segments@.len(),
            before.len() == segments@.len(),
            growth.arrivals@ == old(growth).arrivals@,
            seq_order == ints(order@),
            seq_order.no_duplicates(),
            forall|i: int| 0 <= i < seq_order.len() ==> 0 <= #[trigger] seq_order[i]
                < lengths@.len(),
            total_ticks == total(segments@, lengths@, seq_order, n),
            forall|i: int|
                0 <= i < n ==> #[trigger] delays@[i] == reach(
                    segments@,
                    lengths@,
                    seq_order,
                    i,
                    segments@[seq_order[i]].end,
                ),
            forall|i: int|
                0 <= i < k ==> growth.segments@[#[trigger] seq_order[i]] == timing(
                    segments@,
                    lengths@,
                    seq_order,
                    i,
                ),
            forall|i: int|
                0 <= i < segments@.len() && !seq_order.contains(i)
                    ==> #[trigger] growth.segments@[i] == before[i],
        decreases order.len() - k,
    {
        assert(seq_order[k as int] == order@[k as int] as int);
        let index: usize = order[k];
        let ghost held = growth.segments@;
        growth.segments.set(
            index,
            Timing { delay: delays[k], duration: lengths[index], total: total_ticks },
        );
        proof {
            assert(seq_order.contains(index as int));
            assert forall|i: int| 0 <= i < k + 1 implies growth.segments@[#[trigger] seq_order[i]]
                == timing(segments@, lengths@, seq_order, i) by {
                if i < k {
                    assert(seq_order[i] != seq_order[k as int]);
                    assert(growth.segments@[seq_order[i]] == held[seq_order[i]]);
                }
            }
        }
        k = k + 1;
    }
    let ghost reached = growth.arrivals@;
    let ghost expected = arrivals(segments@, lengths@, seq_order);
    let ghost done = growth.segments@;
    let mut i: usize = 0;
    assert(growth.arrivals@ =~= reached + expected.take(0));
    while i < distances.len()
        invariant
            i <= distances.len(),
            n == order@.len(),
            n == seq_order.len(),
            measured(segments@, lengths@, seq_order, n, distances@),
            expected == arrivals(segments@, lengths@, seq_order),
            total_ticks == total(segments@, lengths@, seq_order, n),
            growth.segments@ == done,
            growth.arrivals@ == reached + expected.take(i as int),
        decreases distances.len() - i,
    {
        let (point, distance) = distances[i];
        assert(distances@[i as int].0 == starts(segments@, seq_order, n)[i as int]);
        growth.arrivals.push(Arrival { point, distance, total: total_ticks });
        assert(growth.arrivals@ =~= reached + expected.take(i + 1));
        i = i + 1;
    }
    assert(expected.take(i as int) =~= expected);
}

proof fn starts_are_distinct(segments: Seq<Segment>, order: Seq<int>, k: int)
    ensures
        starts(segments, order, k).no_duplicates(),
    decreases k,
{
    if k > 0 {
        starts_are_distinct(segments, order, k - 1);
    }
}

/// Plans the growth of all segments.
pub fn plan(segments: &[Segment], lengths: &[u64]) -> (growth: Growth)
    requires
        segments@.len() == lengths@.len(),
        summable(lengths@),
    ensures
        planned(segments@, lengths@, growth.segments@),
        growth.arrivals@ == all_arrivals(
            segments@,
            lengths@,
            connections(segments@),
            connections(segments@).len() as int,
        ),
{
    let mut growth = Growth { segments: Vec::new(), arrivals: Vec::new() };
    let mut visited: Vec<bool> = Vec::new();
    let mut i: usize = 0;
    while i < segments.len()
        invariant
            i <= segments.len(),
            visited@.len() == i,
            growth.segments@.len() == i,
            growth.arrivals@.len() == 0,
            forall|k: int| 0 <= k < i ==> #[trigger] visited@[k] == false,
        decreases segments.len() - i,
    {
        visited.push(false);
        growth.segments.push(Timing { delay: 0, duration: 0, total: 0 });
        i = i + 1;
    }
    let mut seen: Vec<usize> = Vec::new();
    let ghost mut parts: Seq<Seq<int>> = Seq::empty();
    let mut seed: usize = 0;
    proof {
        assert(ints(seen@) =~= Seq::empty());
        assert(parts + connections_from(segments@, 0, ints(seen@)) =~= connections(segments@));
        assert(growth.arrivals@ =~= Seq::empty());
    }
    while seed < segments.len()
        invariant
            seed <= segments.len(),
            segments@.len() == lengths@.len(),
            summable(lengths@),
            growth.segments@.len() == segments@.len(),
            visited@.len() == segments@.len(),
            marks(visited@, ints(seen@)),
            distinct_below(ints(seen@), segments@.len() as int),
            parts + connections_from(segments@, seed as int, ints(seen@)) == connections(segments@),
            forall|c: int, k: int|
                #![trigger parts[c][k]]
                0 <= c < parts.len() && 0 <= k < parts[c].len() ==> ints(seen@).contains(
                    parts[c][k],
                ) && 0 <= parts[c][k] < segments@.len(),
            forall|c: int|
                0 <= c < parts.len() ==> timed(
                    segments@,
                    lengths@,
                    #[trigger] parts[c],
                    growth.segments@,
                ),
            growth.arrivals@ == all_arrivals(segments@, lengths@, parts, parts.len() as int),
        decreases segments.len() - seed,
    {
        if !visited[seed] {
            let ghost known = ints(seen@);
            let from: usize = seen.len();
            assert(!known.contains(seed as int));
            traverse(segments, seed, &mut seen, &mut visited);
            let ghost after = ints(seen@);
            let ghost part = after.skip(known.len() as int);
            let mut component: Vec<usize> = Vec::new();
            let mut k: usize = from;
            while k < seen.len()
                invariant
                    from <= k <= seen.len(),
                    from == known.len(),
                    after == ints(seen@),
                    ints(component@) == after.subrange(from as int, k as int),
                decreases seen.len() - k,
            {
                let ghost had = component@;
                component.push(seen[k]);
                assert(ints(component@) =~= ints(had).push(after[k as int]));
                assert(ints(component@) =~= after.subrange(from as int, k + 1));
                k = k + 1;
            }
            proof {
                assert(ints(component@) =~= part);
                assert forall|i: int| 0 <= i < part.len() implies 0 <= #[trigger] part[i]
                    < segments@.len() && !known.contains(part[i]) by {
                    assert(part[i] == after[i + known.len()]);
                    if known.contains(part[i]) {
                        let j = choose|j: int| 0 <= j < known.len() && known[j] == part[i];
                        assert(after.take(known.len() as int)[j] == after[j]);
                        assert(after[j] == after[i + known.len()]);
                    }
                }
                assert(part.no_duplicates());
                distinct_fits(after, segments@.len() as int);
                assert(component@.len() == part.len());
            }
            let ghost held = growth.segments@;
            let ghost had = growth.arrivals@;
            grow_component(segments, lengths, component.as_slice(), &mut growth);
            proof {
                assert forall|c: int| 0 <= c < parts.len() implies timed(
                    segments@,
                    lengths@,
                    #[trigger] parts[c],
                    growth.segments@,
                ) by {
                    let order = by_end(segments@, parts[c]);
                    ordering_keeps_the_segments(segments@, parts[c]);
                    assert forall|k: int|
                        0 <= k < order.len() implies growth.segments@[#[trigger] order[k]]
                        == timing(segments@, lengths@, order, k) by {
                        let x = order[k];
                        assert(order.contains(x));
                        assert(parts[c].contains(x));
                        let j = choose|j: int| 0 <= j < parts[c].len() && parts[c][j] == x;
                        assert(known.contains(parts[c][j]));
                        assert(!part.contains(x)) by {
                            if part.contains(x) {
                                let m = choose|m: int| 0 <= m < part.len() && part[m] == x;
                                assert(!known.contains(part[m]));
                            }
                        }
                        assert(growth.segments@[x] == held[x]);
                        assert(timed(segments@, lengths@, parts[c], held));
                    }
                }
                let grown = parts.push(part);
                assert(grown + connections_from(segments@, seed + 1, after) =~= parts
                    + connections_from(segments@, seed as int, known));
                assert(all_arrivals(segments@, lengths@, grown, grown.len() as int) == growth.arrivals@)
                    by {
                    arrivals_depend_on_the_parts(
                        segments@,
                        lengths@,
                        grown,
                        parts,
                        parts.len() as int,
                    );
                }
                assert forall|c: int, k: int|
                    #![trigger grown[c][k]]
                    0 <= c < grown.len() && 0 <= k < grown[c].len() implies after.contains(
                    grown[c][k],
                ) && 0 <= grown[c][k] < segments@.len() by {
                    if c < parts.len() {
                        let x = parts[c][k];
                        assert(known.contains(x));
                        let j = choose|j: int| 0 <= j < known.len() && known[j] == x;
                        assert(after.take(known.len() as int)[j] == after[j]);
                        assert(after[j] == x);
                    } else {
                        assert(after[k + known.len()] == part[k]);
                    }
                }
                parts = grown;
            }
        } else {
            assert(ints(seen@).contains(seed as int));
        }
        seed = seed + 1;
    }
    assert(parts =~= connections(segments@));
    growth
}

impl Growth {
    /// When the growth reaches a point, if it does.
    pub fn arrival(&self, point: Point) -> (found: Option<Arrival>)
        ensures
            match found {
                Some(found) => self.arrivals@.contains(found) && found.point == point,
                None => forall|i: int|
                    0 <= i < self.arrivals@.len() ==> #[trigger] self.arrivals@[i].point != point,
            },
    {
        let mut i: usize = 0;
        while i < self.arrivals.len()
            invariant
                i <= self.arrivals.len(),
                forall|k: int| 0 <= k < i ==> #[trigger] self.arrivals@[k].point != point,
            decreases self.arrivals.len() - i,
        {
            if self.arrivals[i].point == point {
                assert(self.arrivals@[i as int].point == point);
                return Some(self.arrivals[i]);
            }
            i = i + 1;
        }
        None
    }
}

proof fn arrivals_depend_on_the_parts(
    segments: Seq<Segment>,
    lengths: Seq<u64>,
    a: Seq<Seq<int>>,
    b: Seq<Seq<int>>,
    n: int,
)
    requires
        n <= a.len(),
        n <= b.len(),
        forall|c: int| 0 <= c < n ==> #[trigger] a[c] == b[c],
    ensures
        all_arrivals(segments, lengths, a, n) == all_arrivals(segments, lengths, b, n),
    decreases n,
{
    if n > 0 {
        arrivals_depend_on_the_parts(segments, lengths, a, b, n - 1);
        assert(a[n - 1] == b[n - 1]);
    }
}

proof fn distinct_fits(indices: Seq<int>, n: int)
    requires
        distinct_below(indices, n),
        0 <= n,
    ensures
        indices.len() <= n,
{
    let all = set_int_range(0, n);
    lemma_int_range(0, n);
    indices.unique_seq_to_set();
    assert(indices.to_set().subset_of(all)) by {
        assert forall|x: int| indices.to_set().contains(x) implies all.contains(x) by {
            let i = choose|i: int| 0 <= i < indices.len() && indices[i] == x;
            assert(0 <= indices[i] < n);
        }
    }
    lemma_len_subset(indices.to_set(), all);
}

/// Whether the segments at `k` and behind it in a chain share an end.
pub open spec fn joins_the_next(segments: Seq<Segment>, chain: Seq<int>, k: int) -> bool {
    adjacent(segments[chain[k]], segments[chain[k + 1]])
}

/// Whether each segment of a chain shares an end with the next.
pub open spec fn is_chain(segments: Seq<Segment>, chain: Seq<int>) -> bool {
    &&& chain.len() > 0
    &&& forall|k: int| 0 <= k < chain.len() ==> 0 <= #[trigger] chain[k] < segments.len()
    &&& forall|k: int|
        0 <= k < chain.len() - 1 ==> #[trigger] joins_the_next(segments, chain, k)
}

/// Whether a chain of shared ends leads from one segment to another.
pub open spec fn linked(segments: Seq<Segment>, a: int, b: int) -> bool {
    exists|chain: Seq<int>| #[trigger]
        is_chain(segments, chain) && chain.first() == a && chain.last() == b
}

proof fn links_join(segments: Seq<Segment>, a: int, b: int, c: int)
    requires
        linked(segments, a, b),
        linked(segments, b, c),
    ensures
        linked(segments, a, c),
{
    let one = choose|chain: Seq<int>| #[trigger]
        is_chain(segments, chain) && chain.first() == a && chain.last() == b;
    let two = choose|chain: Seq<int>| #[trigger]
        is_chain(segments, chain) && chain.first() == b && chain.last() == c;
    let both = one + two.skip(1);
    assert forall|k: int| 0 <= k < both.len() - 1 implies #[trigger] joins_the_next(
        segments,
        both,
        k,
    ) by {
        if k < one.len() - 1 {
            assert(joins_the_next(segments, one, k));
        } else {
            assert(joins_the_next(segments, two, k - (one.len() - 1)));
        }
    }
    assert forall|k: int| 0 <= k < both.len() implies 0 <= #[trigger] both[k]
        < segments.len() by {
        if k < one.len() {
            assert(both[k] == one[k]);
        } else {
            assert(both[k] == two[k - one.len() + 1]);
        }
    }
    assert(is_chain(segments, both));
    assert(both.last() == c) by {
        if two.len() > 1 {
            assert(both[both.len() - 1] == two[two.len() - 1]);
        }
    }
}

proof fn links_turn_round(segments: Seq<Segment>, a: int, b: int)
    requires
        linked(segments, a, b),
    ensures
        linked(segments, b, a),
{
    let chain = choose|chain: Seq<int>| #[trigger]
        is_chain(segments, chain) && chain.first() == a && chain.last() == b;
    let back = chain.reverse();
    assert forall|k: int| 0 <= k < back.len() - 1 implies #[trigger] joins_the_next(
        segments,
        back,
        k,
    ) by {
        assert(joins_the_next(segments, chain, chain.len() - 2 - k));
    }
    assert(is_chain(segments, back));
}

proof fn adjacent_segments_are_linked(segments: Seq<Segment>, a: int, b: int)
    requires
        0 <= a < segments.len(),
        0 <= b < segments.len(),
        a == b || adjacent(segments[a], segments[b]),
    ensures
        linked(segments, a, b),
{
    if a == b {
        assert(is_chain(segments, seq![a]));
    } else {
        assert(is_chain(segments, seq![a, b]));
        assert(seq![a, b].last() == b);
    }
}

proof fn touching_is_complete(segments: Seq<Segment>, point: Point, n: int, index: int)
    requires
        0 <= n <= segments.len(),
    ensures
        touching(segments, point, n).contains(index) <==> 0 <= index < n && touches(
            segments[index],
            point,
        ),
    decreases n,
{
    if n > 0 {
        touching_is_complete(segments, point, n - 1, index);
        let list = touching(segments, point, n);
        let rest = touching(segments, point, n - 1);
        if rest.contains(index) {
            let k = choose|k: int| 0 <= k < rest.len() && rest[k] == index;
            assert(list[k] == index);
        }
        if list.contains(index) {
            let k = choose|k: int| 0 <= k < list.len() && list[k] == index;
            if k < rest.len() {
                assert(rest[k] == index);
            }
        }
        if index == n - 1 && touches(segments[index], point) {
            assert(list[rest.len() as int] == index);
        }
    }
}

proof fn neighbours_are_the_adjacent(segments: Seq<Segment>, a: int, b: int)
    requires
        0 <= a < segments.len(),
    ensures
        neighbours(segments, a).contains(b) <==> 0 <= b < segments.len() && adjacent(
            segments[a],
            segments[b],
        ),
{
    let n = segments.len() as int;
    let first = touching(segments, segments[a].start, n);
    let second = touching(segments, segments[a].end, n);
    touching_is_complete(segments, segments[a].start, n, b);
    touching_is_complete(segments, segments[a].end, n, b);
    let all = neighbours(segments, a);
    if first.contains(b) {
        let k = choose|k: int| 0 <= k < first.len() && first[k] == b;
        assert(all[k] == b);
    }
    if second.contains(b) {
        let k = choose|k: int| 0 <= k < second.len() && second[k] == b;
        assert(all[first.len() + k] == b);
    }
    if all.contains(b) {
        let k = choose|k: int| 0 <= k < all.len() && all[k] == b;
        if k < first.len() {
            assert(first[k] == b);
        } else {
            assert(second[k - first.len()] == b);
        }
    }
}

proof fn full_is_everything(seen: Seq<int>, n: int, index: int)
    requires
        distinct_below(seen, n),
        seen.len() >= n,
        0 <= index < n,
    ensures
        seen.contains(index),
{
    if !seen.contains(index) {
        let more = seen.push(index);
        assert(distinct_below(more, n)) by {
            assert forall|i: int, j: int|
                0 <= i < more.len() && 0 <= j < more.len() && i != j implies more[i] != more[j] by {
                if i < seen.len() {
                    assert(seen.contains(seen[i]));
                }
                if j < seen.len() {
                    assert(seen.contains(seen[j]));
                }
            }
        }
        distinct_fits(more, n);
    }
}

/// What a traversal adds: everything pending, whatever is adjacent to what it
/// adds, and nothing that is not linked to something pending.
proof fn walking_closes(segments: Seq<Segment>, pending: Seq<int>, seen: Seq<int>)
    requires
        distinct_below(seen, segments.len() as int),
        forall|i: int| 0 <= i < pending.len() ==> 0 <= #[trigger] pending[i] < segments.len(),
    ensures
        ({
            let after = walk(segments, pending, seen);
            &&& distinct_below(after, segments.len() as int)
            &&& seen.len() <= after.len()
            &&& after.take(seen.len() as int) == seen
            &&& forall|i: int| 0 <= i < pending.len() ==> after.contains(#[trigger] pending[i])
            &&& forall|x: int, y: int|
                #![trigger after.contains(x), after.contains(y)]
                after.contains(x) && !seen.contains(x) && 0 <= y < segments.len() && adjacent(
                    segments[x],
                    segments[y],
                ) ==> after.contains(y)
            &&& forall|x: int|
                #[trigger] after.contains(x) && !seen.contains(x) ==> exists|i: int|
                    0 <= i < pending.len() && linked(segments, #[trigger] pending[i], x)
        }),
    decreases segments.len() - seen.len(), pending.len(),
{
    let n = segments.len() as int;
    let after = walk(segments, pending, seen);
    if pending.len() == 0 || seen.len() >= segments.len() {
        assert(after.take(seen.len() as int) =~= seen);
        if pending.len() > 0 {
            assert forall|i: int| 0 <= i < pending.len() implies after.contains(
                #[trigger] pending[i],
            ) by {
                full_is_everything(seen, n, pending[i]);
            }
        }
    } else {
        let top = pending.last();
        let rest = pending.drop_last();
        assert(pending[pending.len() - 1] == top);
        if seen.contains(top) {
            walking_closes(segments, rest, seen);
            let j = choose|j: int| 0 <= j < seen.len() && seen[j] == top;
            assert(after.take(seen.len() as int)[j] == after[j]);
            assert forall|i: int| 0 <= i < pending.len() implies after.contains(
                #[trigger] pending[i],
            ) by {
                if i < rest.len() {
                    assert(rest[i] == pending[i]);
                }
            }
            assert forall|x: int|
                #[trigger] after.contains(x) && !seen.contains(x) implies exists|i: int|
                0 <= i < pending.len() && linked(segments, #[trigger] pending[i], x) by {
                let i = choose|i: int|
                    0 <= i < rest.len() && linked(segments, #[trigger] rest[i], x);
                assert(linked(segments, pending[i], x));
            }
        } else {
            let known = seen.push(top);
            let more = rest + neighbours(segments, top);
            touching_is_in_range(segments, segments[top].start, n);
            touching_is_in_range(segments, segments[top].end, n);
            assert forall|i: int| 0 <= i < more.len() implies 0 <= #[trigger] more[i] < n by {
                if i < rest.len() {
                    assert(more[i] == pending[i]);
                } else {
                    assert(more[i] == neighbours(segments, top)[i - rest.len()]);
                }
            }
            assert(distinct_below(known, n)) by {
                assert forall|i: int, j: int|
                    0 <= i < known.len() && 0 <= j < known.len() && i != j implies known[i]
                    != known[j] by {
                    if i < seen.len() {
                        assert(seen.contains(seen[i]));
                    }
                    if j < seen.len() {
                        assert(seen.contains(seen[j]));
                    }
                }
            }
            walking_closes(segments, more, known);
            assert(after.take(seen.len() as int) =~= after.take(known.len() as int).take(
                seen.len() as int,
            ));
            assert(known.take(seen.len() as int) =~= seen);
            assert(after.contains(top)) by {
                assert(after.take(known.len() as int)[seen.len() as int] == top);
                assert(after[seen.len() as int] == top);
            }
            assert forall|i: int| 0 <= i < pending.len() implies after.contains(
                #[trigger] pending[i],
            ) by {
                if i < rest.len() {
                    assert(more[i] == pending[i]);
                }
            }
            assert forall|x: int| !seen.contains(x) && x != top implies !known.contains(x) by {
                if known.contains(x) {
                    let k = choose|k: int| 0 <= k < known.len() && known[k] == x;
                    if k < seen.len() {
                        assert(seen[k] == x);
                    }
                }
            }
            assert forall|x: int, y: int|
                #![trigger after.contains(x), after.contains(y)]
                after.contains(x) && !seen.contains(x) && 0 <= y < segments.len() && adjacent(
                    segments[x],
                    segments[y],
                ) implies after.contains(y) by {
                if x == top {
                    neighbours_are_the_adjacent(segments, top, y);
                    let k = choose|k: int|
                        0 <= k < neighbours(segments, top).len() && neighbours(segments, top)[k]
                            == y;
                    assert(more[rest.len() + k] == y);
                }
            }
            assert forall|x: int|
                #[trigger] after.contains(x) && !seen.contains(x) implies exists|i: int|
                0 <= i < pending.len() && linked(segments, #[trigger] pending[i], x) by {
                if x == top {
                    adjacent_segments_are_linked(segments, top, top);
                    assert(linked(segments, pending[pending.len() - 1], x));
                } else {
                    let i = choose|i: int|
                        0 <= i < more.len() && linked(segments, #[trigger] more[i], x);
                    if i < rest.len() {
                        assert(pending[i] == more[i]);
                        assert(linked(segments, pending[i], x));
                    } else {
                        let p = more[i];
                        assert(neighbours(segments, top)[i - rest.len()] == p);
                        assert(neighbours(segments, top).contains(p));
                        neighbours_are_the_adjacent(segments, top, p);
                        adjacent_segments_are_linked(segments, top, p);
                        links_join(segments, top, p, x);
                        assert(linked(segments, pending[pending.len() - 1], x));
                    }
                }
            }
        }
    }
}

/// Whether what has been seen holds every neighbour of what it holds.
spec fn closed_under_ends(segments: Seq<Segment>, seen: Seq<int>) -> bool {
    forall|x: int, y: int|
        #![trigger seen.contains(x), seen.contains(y)]
        seen.contains(x) && 0 <= y < segments.len() && adjacent(segments[x], segments[y])
            ==> seen.contains(y)
}

proof fn connections_from_a_seed(segments: Seq<Segment>, seed: int, seen: Seq<int>)
    requires
        0 <= seed <= segments.len(),
        distinct_below(seen, segments.len() as int),
        closed_under_ends(segments, seen),
        forall|i: int| 0 <= i < seed ==> #[trigger] seen.contains(i),
    ensures
        ({
            let parts = connections_from(segments, seed, seen);
            &&& forall|i: int|
                #![trigger seen.contains(i)]
                0 <= i < segments.len() && !seen.contains(i) ==> exists|c: int|
                    0 <= c < parts.len() && (#[trigger] parts[c]).contains(i)
            &&& forall|c: int, i: int|
                #![trigger parts[c].contains(i)]
                0 <= c < parts.len() && parts[c].contains(i) ==> 0 <= i < segments.len()
                    && !seen.contains(i)
            &&& forall|c: int, d: int, i: int|
                #![trigger parts[c].contains(i), parts[d].contains(i)]
                0 <= c < parts.len() && 0 <= d < parts.len() && parts[c].contains(i)
                    && parts[d].contains(i) ==> c == d
            &&& forall|c: int| 0 <= c < parts.len() ==> (#[trigger] parts[c]).no_duplicates()
            &&& forall|c: int, i: int, j: int|
                #![trigger parts[c].contains(i), parts[c].contains(j)]
                0 <= c < parts.len() && parts[c].contains(i) && 0 <= j < segments.len()
                    && adjacent(segments[i], segments[j]) ==> parts[c].contains(j)
            &&& forall|c: int, i: int, j: int|
                #![trigger parts[c].contains(i), parts[c].contains(j)]
                0 <= c < parts.len() && parts[c].contains(i) && parts[c].contains(j)
                    ==> linked(segments, i, j)
        }),
    decreases segments.len() - seed,
{
    let n = segments.len() as int;
    let parts = connections_from(segments, seed, seen);
    if seed < n {
        if seen.contains(seed) {
            connections_from_a_seed(segments, seed + 1, seen);
            assert(parts == connections_from(segments, seed + 1, seen));
        } else {
            let after = walk(segments, seq![seed], seen);
            walking_closes(segments, seq![seed], seen);
            let first = after.skip(seen.len() as int);
            let tail = connections_from(segments, seed + 1, after);
            assert forall|x: int| after.contains(x) <==> seen.contains(x) || first.contains(x) by {
                if after.contains(x) {
                    let k = choose|k: int| 0 <= k < after.len() && after[k] == x;
                    if k < seen.len() {
                        assert(after.take(seen.len() as int)[k] == x);
                        assert(seen[k] == x);
                    } else {
                        assert(first[k - seen.len()] == x);
                    }
                }
                if seen.contains(x) {
                    let k = choose|k: int| 0 <= k < seen.len() && seen[k] == x;
                    assert(after.take(seen.len() as int)[k] == after[k]);
                }
                if first.contains(x) {
                    let k = choose|k: int| 0 <= k < first.len() && first[k] == x;
                    assert(after[k + seen.len()] == x);
                }
            }
            assert forall|x: int| first.contains(x) implies !seen.contains(x) && 0 <= x < n by {
                let k = choose|k: int| 0 <= k < first.len() && first[k] == x;
                assert(after[k + seen.len()] == x);
                if seen.contains(x) {
                    let j = choose|j: int| 0 <= j < seen.len() && seen[j] == x;
                    assert(after.take(seen.len() as int)[j] == after[j]);
                    assert(after[j] == after[k + seen.len()]);
                }
            }
            assert(closed_under_ends(segments, after)) by {
                assert forall|x: int, y: int|
                    #![trigger after.contains(x), after.contains(y)]
                    after.contains(x) && 0 <= y < segments.len() && adjacent(
                        segments[x],
                        segments[y],
                    ) implies after.contains(y) by {
                    if seen.contains(x) {
                        assert(seen.contains(y) || !seen.contains(y));
                        assert(seen.contains(y));
                    }
                }
            }
            assert(seq![seed][0] == seed);
            assert forall|i: int| 0 <= i < seed + 1 implies #[trigger] after.contains(i) by {
                if i < seed {
                    assert(seen.contains(i));
                } else {
                    assert(after.contains(seq![seed][0]));
                }
            }
            connections_from_a_seed(segments, seed + 1, after);
            assert(parts[0] == first);
            assert forall|c: int| 0 < c < parts.len() implies #[trigger] parts[c] == tail[c - 1] by {}
            assert forall|i: int|
                #![trigger seen.contains(i)]
                0 <= i < segments.len() && !seen.contains(i) implies exists|c: int|
                0 <= c < parts.len() && (#[trigger] parts[c]).contains(i) by {
                if first.contains(i) {
                    assert(parts[0].contains(i));
                } else {
                    assert(!after.contains(i));
                    let c = choose|c: int|
                        0 <= c < tail.len() && (#[trigger] tail[c]).contains(i);
                    assert(parts[c + 1].contains(i));
                }
            }
            assert forall|c: int, i: int|
                #![trigger parts[c].contains(i)]
                0 <= c < parts.len() && parts[c].contains(i) implies 0 <= i < segments.len()
                && !seen.contains(i) by {
                if c > 0 {
                    assert(tail[c - 1].contains(i));
                    assert(!after.contains(i));
                } else {
                    assert(first.contains(i));
                }
            }
            assert forall|c: int| 0 <= c < parts.len() implies (#[trigger] parts[c]).no_duplicates() by {
                if c > 0 {
                    assert(tail[c - 1].no_duplicates());
                } else {
                    assert forall|i: int, j: int|
                        0 <= i < first.len() && 0 <= j < first.len() && i != j implies first[i]
                        != first[j] by {
                        assert(after[i + seen.len()] != after[j + seen.len()]);
                    }
                }
            }
            assert forall|c: int, d: int, i: int|
                #![trigger parts[c].contains(i), parts[d].contains(i)]
                0 <= c < parts.len() && 0 <= d < parts.len() && parts[c].contains(i)
                    && parts[d].contains(i) implies c == d by {
                if c > 0 && d > 0 {
                    assert(tail[c - 1].contains(i) && tail[d - 1].contains(i));
                } else if c > 0 {
                    assert(tail[c - 1].contains(i));
                    assert(first.contains(i));
                } else if d > 0 {
                    assert(tail[d - 1].contains(i));
                    assert(first.contains(i));
                }
            }
            assert forall|c: int, i: int, j: int|
                #![trigger parts[c].contains(i), parts[c].contains(j)]
                0 <= c < parts.len() && parts[c].contains(i) && 0 <= j < segments.len()
                    && adjacent(segments[i], segments[j]) implies parts[c].contains(j) by {
                if c > 0 {
                    assert(tail[c - 1].contains(i));
                    assert(tail[c - 1].contains(j) || !tail[c - 1].contains(j));
                } else {
                    assert(after.contains(i) && !seen.contains(i));
                    assert(after.contains(j) || !after.contains(j));
                    if seen.contains(j) {
                        assert(adjacent(segments[j], segments[i]));
                    }
                }
            }
            assert forall|c: int, i: int, j: int|
                #![trigger parts[c].contains(i), parts[c].contains(j)]
                0 <= c < parts.len() && parts[c].contains(i) && parts[c].contains(j) implies linked(
                segments,
                i,
                j,
            ) by {
                if c > 0 {
                    assert(tail[c - 1].contains(i) && tail[c - 1].contains(j));
                } else {
                    assert(after.contains(i) && !seen.contains(i));
                    assert(after.contains(j) && !seen.contains(j));
                    assert(linked(segments, seed, i));
                    assert(linked(segments, seed, j));
                    links_turn_round(segments, seed, i);
                    links_join(segments, i, seed, j);
                }
            }
        }
    } else {
        assert(parts =~= Seq::empty());
    }
}

/// Every segment belongs to exactly one connection, and stands in it once.
pub proof fn connections_partition_the_segments(segments: Seq<Segment>, index: int)
    requires
        0 <= index < segments.len(),
    ensures
        exists|c: int|
            0 <= c < connections(segments).len() && (#[trigger] connections(segments)[c]).contains(
                index,
            ),
        forall|c: int, d: int|
            #![trigger connections(segments)[c], connections(segments)[d]]
            0 <= c < connections(segments).len() && 0 <= d < connections(segments).len()
                && connections(segments)[c].contains(index) && connections(segments)[d].contains(
                index,
            ) ==> c == d,
        forall|c: int|
            0 <= c < connections(segments).len() ==> (#[trigger] connections(
                segments,
            )[c]).no_duplicates(),
{
    let none = Seq::<int>::empty();
    connections_from_a_seed(segments, 0, none);
    assert(!none.contains(index));
    let c = choose|c: int|
        0 <= c < connections(segments).len() && (#[trigger] connections_from(
            segments,
            0,
            none,
        )[c]).contains(index);
    assert(connections(segments)[c].contains(index));
}

/// Two segments grow in one connection if and only if a chain of shared ends
/// leads from one to the other.
pub proof fn connections_are_the_linked_segments(segments: Seq<Segment>, c: int, i: int, j: int)
    requires
        0 <= c < connections(segments).len(),
        connections(segments)[c].contains(i),
        0 <= j < segments.len(),
    ensures
        connections(segments)[c].contains(j) <==> linked(segments, i, j),
{
    let none = Seq::<int>::empty();
    connections_from_a_seed(segments, 0, none);
    let part = connections(segments)[c];
    assert(part.contains(j) || !part.contains(j));
    if linked(segments, i, j) {
        let chain = choose|chain: Seq<int>| #[trigger]
            is_chain(segments, chain) && chain.first() == i && chain.last() == j;
        chains_stay_in_their_connection(segments, c, chain, chain.len() - 1);
    }
}

proof fn chains_stay_in_their_connection(
    segments: Seq<Segment>,
    c: int,
    chain: Seq<int>,
    k: int,
)
    requires
        0 <= c < connections(segments).len(),
        is_chain(segments, chain),
        connections(segments)[c].contains(chain[0]),
        0 <= k < chain.len(),
    ensures
        connections(segments)[c].contains(chain[k]),
    decreases k,
{
    if k > 0 {
        chains_stay_in_their_connection(segments, c, chain, k - 1);
        let none = Seq::<int>::empty();
        connections_from_a_seed(segments, 0, none);
        let part = connections(segments)[c];
        assert(joins_the_next(segments, chain, k - 1));
        assert(part.contains(chain[k - 1]));
        assert(part.contains(chain[k]) || !part.contains(chain[k]));
    }
}

/// Whether a sequence of segments runs from the lowest end up.
spec fn falling(segments: Seq<Segment>, order: Seq<int>) -> bool {
    forall|a: int, b: int|
        #![trigger order[a], order[b]]
        0 <= a <= b < order.len() ==> segments[order[a]].end.y >= segments[order[b]].end.y
}

proof fn placing_keeps_the_fall(segments: Seq<Segment>, ordered: Seq<int>, index: int)
    requires
        falling(segments, ordered),
    ensures
        falling(segments, placed(segments, ordered, index)),
        forall|a: int|
            0 <= a < placed(segments, ordered, index).len() ==> segments[#[trigger] placed(
                segments,
                ordered,
                index,
            )[a]].end.y >= segments[index].end.y || (ordered.len() > 0 && segments[placed(
                segments,
                ordered,
                index,
            )[a]].end.y >= segments[ordered.last()].end.y),
    decreases ordered.len(),
{
    let result = placed(segments, ordered, index);
    if ordered.len() == 0 || segments[ordered.last()].end.y >= segments[index].end.y {
        assert forall|a: int, b: int|
            #![trigger result[a], result[b]]
            0 <= a <= b < result.len() implies segments[result[a]].end.y
            >= segments[result[b]].end.y by {
            if b < ordered.len() {
                assert(result[a] == ordered[a] && result[b] == ordered[b]);
            } else if a < ordered.len() {
                assert(result[a] == ordered[a]);
                assert(segments[ordered[a]].end.y >= segments[ordered[ordered.len() - 1]].end.y);
            }
        }
        assert forall|a: int|
            0 <= a < result.len() implies segments[#[trigger] result[a]].end.y
            >= segments[index].end.y || (ordered.len() > 0 && segments[result[a]].end.y
            >= segments[ordered.last()].end.y) by {
            if a < ordered.len() {
                assert(result[a] == ordered[a]);
                assert(segments[ordered[a]].end.y >= segments[ordered[ordered.len() - 1]].end.y);
            }
        }
    } else {
        let rest = ordered.drop_last();
        let inner = placed(segments, rest, index);
        assert(falling(segments, rest)) by {
            assert forall|a: int, b: int|
                #![trigger rest[a], rest[b]]
                0 <= a <= b < rest.len() implies segments[rest[a]].end.y
                >= segments[rest[b]].end.y by {
                assert(rest[a] == ordered[a] && rest[b] == ordered[b]);
            }
        }
        placing_keeps_the_fall(segments, rest, index);
        let last = ordered.last();
        assert(ordered[ordered.len() - 1] == last);
        assert forall|a: int| 0 <= a < inner.len() implies segments[#[trigger] inner[a]].end.y
            >= segments[last].end.y by {
            if rest.len() > 0 {
                assert(rest.last() == ordered[ordered.len() - 2]);
                assert(segments[ordered[ordered.len() - 2]].end.y >= segments[ordered[ordered.len()
                    - 1]].end.y);
            }
        }
        assert forall|a: int, b: int|
            #![trigger result[a], result[b]]
            0 <= a <= b < result.len() implies segments[result[a]].end.y
            >= segments[result[b]].end.y by {
            if a < inner.len() {
                assert(result[a] == inner[a]);
            }
            if b < inner.len() {
                assert(result[b] == inner[b]);
            }
        }
        assert forall|a: int|
            0 <= a < result.len() implies segments[#[trigger] result[a]].end.y
            >= segments[index].end.y || segments[result[a]].end.y >= segments[last].end.y by {
            if a < inner.len() {
                assert(result[a] == inner[a]);
            }
        }
    }
}

proof fn ordering_falls(segments: Seq<Segment>, indices: Seq<int>)
    ensures
        falling(segments, by_end(segments, indices)),
    decreases indices.len(),
{
    if indices.len() > 0 {
        ordering_falls(segments, indices.drop_last());
        placing_keeps_the_fall(
            segments,
            by_end(segments, indices.drop_last()),
            indices.last(),
        );
    }
}

proof fn reach_covers_the_laid(
    segments: Seq<Segment>,
    lengths: Seq<u64>,
    order: Seq<int>,
    k: int,
    m: int,
)
    requires
        0 <= m < k <= order.len(),
    ensures
        reach(segments, lengths, order, k, segments[order[m]].start) >= finish(
            segments,
            lengths,
            order,
            m,
        ),
        total(segments, lengths, order, k) >= finish(segments, lengths, order, m),
    decreases k,
{
    if m < k - 1 {
        reach_covers_the_laid(segments, lengths, order, k - 1, m);
    }
}

proof fn reach_comes_from_somewhere(
    segments: Seq<Segment>,
    lengths: Seq<u64>,
    order: Seq<int>,
    k: int,
    point: Point,
) -> (m: int)
    requires
        0 <= k <= order.len(),
        reach(segments, lengths, order, k, point) > 0,
    ensures
        0 <= m < k,
        segments[order[m]].start == point,
        reach(segments, lengths, order, k, point) == finish(segments, lengths, order, m),
    decreases k,
{
    if segments[order[k - 1]].start == point && reach(segments, lengths, order, k, point) == finish(
        segments,
        lengths,
        order,
        k - 1,
    ) {
        k - 1
    } else {
        reach_comes_from_somewhere(segments, lengths, order, k - 1, point)
    }
}

/// Whether every connection of the segments is timed.
pub open spec fn planned(
    segments: Seq<Segment>,
    lengths: Seq<u64>,
    timings: Seq<Timing>,
) -> bool {
    &&& timings.len() == segments.len()
    &&& forall|c: int|
        0 <= c < connections(segments).len() ==> timed(
            segments,
            lengths,
            #[trigger] connections(segments)[c],
            timings,
        )
}

/// Where a segment is laid in its connection.
proof fn laid(
    segments: Seq<Segment>,
    lengths: Seq<u64>,
    timings: Seq<Timing>,
    c: int,
    index: int,
) -> (k: int)
    requires
        segments.len() == lengths.len(),
        summable(lengths),
        planned(segments, lengths, timings),
        0 <= c < connections(segments).len(),
        connections(segments)[c].contains(index),
    ensures
        ({
            let order = by_end(segments, connections(segments)[c]);
            &&& 0 <= k < order.len()
            &&& order[k] == index
            &&& timings[index].delay == reach(
                segments,
                lengths,
                order,
                k,
                segments[index].end,
            )
            &&& timings[index].duration == lengths[index]
            &&& timings[index].total == total(segments, lengths, order, order.len() as int)
            &&& finish(segments, lengths, order, k) == timings[index].delay + timings[index].duration
            &&& finish(segments, lengths, order, k) <= timings[index].total
        }),
{
    let part = connections(segments)[c];
    let order = by_end(segments, part);
    ordering_keeps_the_segments(segments, part);
    let none = Seq::<int>::empty();
    connections_from_a_seed(segments, 0, none);
    assert(order.contains(index));
    let k = choose|k: int| 0 <= k < order.len() && order[k] == index;
    assert forall|i: int| 0 <= i < order.len() implies 0 <= #[trigger] order[i] < lengths.len() by {
        assert(order.contains(order[i]));
        assert(part.contains(order[i]));
    }
    distinct_fits(order, segments.len() as int);
    distances_fit(segments, lengths, order, k, segments[index].end);
    distances_fit(segments, lengths, order, order.len() as int, segments[index].end);
    reach_covers_the_laid(segments, lengths, order, order.len() as int, k);
    assert(timings[order[k]] == timing(segments, lengths, order, k));
    k
}

/// Growth runs upward without a gap: where every segment ends below its start,
/// a segment begins no earlier than each segment that leads to it is complete,
/// and no later than the last of them. Every segment is complete within the
/// total of its connection.
pub proof fn growth_is_continuous(
    segments: Seq<Segment>,
    lengths: Seq<u64>,
    timings: Seq<Timing>,
    index: int,
)
    requires
        segments.len() == lengths.len(),
        summable(lengths),
        planned(segments, lengths, timings),
        0 <= index < segments.len(),
        forall|i: int|
            0 <= i < segments.len() ==> (#[trigger] segments[i]).start.y < segments[i].end.y,
    ensures
        timings[index].delay + timings[index].duration <= timings[index].total,
        forall|j: int|
            0 <= j < segments.len() && (#[trigger] segments[j]).start == segments[index].end
                ==> timings[index].delay >= timings[j].delay + timings[j].duration
                && timings[index].total == timings[j].total,
        timings[index].delay > 0 ==> exists|j: int|
            0 <= j < segments.len() && (#[trigger] segments[j]).start == segments[index].end
                && timings[index].delay == timings[j].delay + timings[j].duration,
{
    connections_partition_the_segments(segments, index);
    let c = choose|c: int|
        0 <= c < connections(segments).len() && (#[trigger] connections(segments)[c]).contains(
            index,
        );
    let part = connections(segments)[c];
    let order = by_end(segments, part);
    let k = laid(segments, lengths, timings, c, index);
    ordering_falls(segments, part);
    ordering_keeps_the_segments(segments, part);
    let none = Seq::<int>::empty();
    connections_from_a_seed(segments, 0, none);
    assert forall|j: int|
        0 <= j < segments.len() && (#[trigger] segments[j]).start
            == segments[index].end implies timings[index].delay >= timings[j].delay
        + timings[j].duration && timings[index].total == timings[j].total by {
        assert(adjacent(segments[index], segments[j]));
        assert(part.contains(index));
        assert(part.contains(j) || !part.contains(j));
        let m = laid(segments, lengths, timings, c, j);
        assert(m < k) by {
            if k <= m {
                assert(segments[order[k]].end.y >= segments[order[m]].end.y);
            }
        }
        reach_covers_the_laid(segments, lengths, order, k, m);
    }
    if timings[index].delay > 0 {
        let m = reach_comes_from_somewhere(
            segments,
            lengths,
            order,
            k,
            segments[index].end,
        );
        let j = order[m];
        assert(order.contains(j));
        assert(part.contains(j));
        let again = laid(segments, lengths, timings, c, j);
        assert(again == m) by {
            assert(order[again] == order[m]);
            assert(part.no_duplicates());
        }
        assert(segments[j].start == segments[index].end);
    }
}

proof fn starts_come_from_the_order(segments: Seq<Segment>, order: Seq<int>, k: int)
    requires
        0 <= k <= order.len(),
    ensures
        forall|i: int|
            0 <= i < starts(segments, order, k).len() ==> exists|m: int|
                0 <= m < k && segments[#[trigger] order[m]].start == #[trigger] starts(
                    segments,
                    order,
                    k,
                )[i],
    decreases k,
{
    if k > 0 {
        starts_come_from_the_order(segments, order, k - 1);
        let before = starts(segments, order, k - 1);
        let now = starts(segments, order, k);
        assert forall|i: int| 0 <= i < now.len() implies exists|m: int|
            0 <= m < k && segments[#[trigger] order[m]].start == #[trigger] now[i] by {
            if i < before.len() {
                assert(now[i] == before[i]);
            } else {
                assert(segments[order[k - 1]].start == now[i]);
            }
        }
    }
}

/// Whether an arrival is the start of a segment of one of the first `n` parts.
spec fn arises(
    segments: Seq<Segment>,
    parts: Seq<Seq<int>>,
    n: int,
    arrival: Arrival,
    c: int,
    index: int,
) -> bool {
    0 <= c < n && parts[c].contains(index) && segments[index].start == arrival.point
}

proof fn arrivals_arise(
    segments: Seq<Segment>,
    lengths: Seq<u64>,
    parts: Seq<Seq<int>>,
    n: int,
    i: int,
) -> (found: (int, int))
    requires
        0 <= n <= parts.len(),
        0 <= i < all_arrivals(segments, lengths, parts, n).len(),
    ensures
        arises(
            segments,
            parts,
            n,
            all_arrivals(segments, lengths, parts, n)[i],
            found.0,
            found.1,
        ),
    decreases n,
{
    let before = all_arrivals(segments, lengths, parts, n - 1);
    if i < before.len() {
        arrivals_arise(segments, lengths, parts, n - 1, i)
    } else {
        let order = by_end(segments, parts[n - 1]);
        let points = starts(segments, order, order.len() as int);
        starts_come_from_the_order(segments, order, order.len() as int);
        ordering_keeps_the_segments(segments, parts[n - 1]);
        let k = i - before.len();
        assert(all_arrivals(segments, lengths, parts, n)[i] == arrivals(
            segments,
            lengths,
            order,
        )[k]);
        let m = choose|m: int|
            0 <= m < order.len() && segments[#[trigger] order[m]].start == points[k];
        assert(order.contains(order[m]));
        (n - 1, order[m])
    }
}

/// The growth reaches each point once: no two arrivals are at the same point.
pub proof fn points_are_reached_once(
    segments: Seq<Segment>,
    lengths: Seq<u64>,
    n: int,
    i: int,
    j: int,
)
    requires
        0 <= n <= connections(segments).len(),
        0 <= i < j < all_arrivals(segments, lengths, connections(segments), n).len(),
    ensures
        all_arrivals(segments, lengths, connections(segments), n)[i].point != all_arrivals(
            segments,
            lengths,
            connections(segments),
            n,
        )[j].point,
    decreases n,
{
    let parts = connections(segments);
    let before = all_arrivals(segments, lengths, parts, n - 1);
    let all = all_arrivals(segments, lengths, parts, n);
    let order = by_end(segments, parts[n - 1]);
    let points = starts(segments, order, order.len() as int);
    if j < before.len() {
        points_are_reached_once(segments, lengths, n - 1, i, j);
        assert(all[i] == before[i] && all[j] == before[j]);
    } else if i < before.len() {
        let (c, a) = arrivals_arise(segments, lengths, parts, n - 1, i);
        starts_come_from_the_order(segments, order, order.len() as int);
        ordering_keeps_the_segments(segments, parts[n - 1]);
        let k = j - before.len();
        assert(all[j] == arrivals(segments, lengths, order)[k]);
        let m = choose|m: int|
            0 <= m < order.len() && segments[#[trigger] order[m]].start == points[k];
        let b = order[m];
        assert(order.contains(b));
        let none = Seq::<int>::empty();
        connections_from_a_seed(segments, 0, none);
        assert(parts[c].contains(a));
        assert(parts[n - 1].contains(b));
        assert(all[i] == before[i]);
        if all[i].point == all[j].point {
            assert(0 <= b < segments.len());
            assert(segments[a].start == all[i].point);
            assert(all[j].point == points[k]);
            assert(segments[b].start == points[k]);
            assert(adjacent(segments[a], segments[b]));
            assert(parts[c].contains(b) || !parts[c].contains(b));
            assert(parts[c].contains(b));
            assert(false);
        }
    } else {
        starts_are_distinct(segments, order, order.len() as int);
        assert(all[i] == arrivals(segments, lengths, order)[i - before.len()]);
        assert(all[j] == arrivals(segments, lengths, order)[j - before.len()]);
    }
}

proof fn total_comes_from_somewhere(
    segments: Seq<Segment>,
    lengths: Seq<u64>,
    order: Seq<int>,
    k: int,
) -> (m: int)
    requires
        0 < k <= order.len(),
        forall|i: int| 0 <= i < k ==> lengths[#[trigger] order[i]] > 0,
    ensures
        0 <= m < k,
        total(segments, lengths, order, k) == finish(segments, lengths, order, m),
    decreases k,
{
    let last = finish(segments, lengths, order, k - 1);
    if total(segments, lengths, order, k) == last {
        k - 1
    } else if k == 1 {
        assert(lengths[order[0]] > 0);
        assert(reach(segments, lengths, order, 0, segments[order[0]].end) == 0);
        assert(finish(segments, lengths, order, 0) > 0);
        assert(total(segments, lengths, order, 0) == 0);
        assert(total(segments, lengths, order, 1) == last);
        0
    } else {
        total_comes_from_somewhere(segments, lengths, order, k - 1)
    }
}

/// A segment grows for as long as it is, and the last one of a connection is complete
/// exactly when the connection is.
pub proof fn connections_grow_until_their_last_segment(
    segments: Seq<Segment>,
    lengths: Seq<u64>,
    timings: Seq<Timing>,
    c: int,
    index: int,
) -> (last: int)
    requires
        segments.len() == lengths.len(),
        summable(lengths),
        planned(segments, lengths, timings),
        0 <= c < connections(segments).len(),
        connections(segments)[c].contains(index),
    ensures
        timings[index].duration == lengths[index],
        connections(segments)[c].contains(last),
        timings[index].total == timings[last].total,
        timings[index].total == timings[last].delay + timings[last].duration,
{
    let part = connections(segments)[c];
    let order = by_end(segments, part);
    let k = laid(segments, lengths, timings, c, index);
    ordering_keeps_the_segments(segments, part);
    let none = Seq::<int>::empty();
    connections_from_a_seed(segments, 0, none);
    assert forall|i: int| 0 <= i < order.len() implies lengths[#[trigger] order[i]] > 0 by {
        assert(order.contains(order[i]));
        assert(part.contains(order[i]));
    }
    let m = total_comes_from_somewhere(segments, lengths, order, order.len() as int);
    let last = order[m];
    assert(order.contains(last));
    let again = laid(segments, lengths, timings, c, last);
    assert(again == m) by {
        assert(order[again] == order[m]);
        assert(part.no_duplicates());
    }
    last
}

/// A connection is laid from its lowest end up.
pub proof fn connections_are_laid_from_below(
    segments: Seq<Segment>,
    indices: Seq<int>,
    a: int,
    b: int,
)
    requires
        0 <= a <= b < indices.len(),
    ensures
        ({
            let order = by_end(segments, indices);
            segments[order[a]].end.y >= segments[order[b]].end.y
        }),
{
    ordering_falls(segments, indices);
    ordering_keeps_the_segments(segments, indices);
}

proof fn starts_hold_the_laid(segments: Seq<Segment>, order: Seq<int>, k: int, m: int)
    requires
        0 <= m < k <= order.len(),
    ensures
        starts(segments, order, k).contains(segments[order[m]].start),
    decreases k,
{
    let before = starts(segments, order, k - 1);
    let now = starts(segments, order, k);
    if m < k - 1 {
        starts_hold_the_laid(segments, order, k - 1, m);
        let i = choose|i: int| 0 <= i < before.len() && before[i] == segments[order[m]].start;
        assert(now[i] == before[i]);
    } else if !before.contains(segments[order[k - 1]].start) {
        assert(now[before.len() as int] == segments[order[k - 1]].start);
    }
}

/// The growth arrives at the start of every segment of a connection, as soon as the last
/// segment that leads there is complete.
pub proof fn points_are_reached_by_the_last_segment(
    segments: Seq<Segment>,
    lengths: Seq<u64>,
    timings: Seq<Timing>,
    c: int,
    index: int,
) -> (found: (int, int))
    requires
        segments.len() == lengths.len(),
        summable(lengths),
        planned(segments, lengths, timings),
        0 <= c < connections(segments).len(),
        connections(segments)[c].contains(index),
    ensures
        ({
            let part = connections(segments)[c];
            let all = arrivals(segments, lengths, by_end(segments, part));
            let (at, last) = found;
            &&& 0 <= at < all.len()
            &&& all[at].point == segments[index].start
            &&& all[at].total == timings[index].total
            &&& all[at].distance >= timings[index].delay + timings[index].duration
            &&& part.contains(last)
            &&& segments[last].start == segments[index].start
            &&& all[at].distance == timings[last].delay + timings[last].duration
        }),
{
    let part = connections(segments)[c];
    let order = by_end(segments, part);
    let n = order.len() as int;
    let point = segments[index].start;
    let k = laid(segments, lengths, timings, c, index);
    ordering_keeps_the_segments(segments, part);
    let none = Seq::<int>::empty();
    connections_from_a_seed(segments, 0, none);
    starts_hold_the_laid(segments, order, n, k);
    let points = starts(segments, order, n);
    let at = choose|i: int| 0 <= i < points.len() && points[i] == point;
    assert forall|i: int| 0 <= i < order.len() implies 0 <= #[trigger] order[i] < lengths.len() by {
        assert(order.contains(order[i]));
        assert(part.contains(order[i]));
    }
    distinct_fits(order, segments.len() as int);
    distances_fit(segments, lengths, order, n, point);
    reach_covers_the_laid(segments, lengths, order, n, k);
    assert(lengths[index] > 0);
    assert(finish(segments, lengths, order, k) > 0);
    let m = reach_comes_from_somewhere(segments, lengths, order, n, point);
    let last = order[m];
    assert(order.contains(last));
    let again = laid(segments, lengths, timings, c, last);
    assert(again == m) by {
        assert(order[again] == order[m]);
        assert(part.no_duplicates());
    }
    (at, last)
}

} // verus!
