use editchain_history::growth::{plan, Growth, Point, Segment};

fn segment(start: (i64, i64), end: (i64, i64)) -> Segment {
    Segment {
        start: Point {
            x: start.0,
            y: start.1,
        },
        end: Point { x: end.0, y: end.1 },
    }
}

/// Lengths in ticks of a millionth of a pixel.
fn grow(segments: &[Segment]) -> Growth {
    let lengths: Vec<u64> = segments
        .iter()
        .map(|segment| {
            let x = (segment.end.x - segment.start.x) as f64;
            let y = (segment.end.y - segment.start.y) as f64;
            (x.hypot(y).max(1.0) * 1_000_000.0).round() as u64
        })
        .collect();
    plan(segments, &lengths)
}

fn delay(growth: &Growth, at: usize) -> f64 {
    growth.segments[at].delay as f64 * 520.0 / growth.segments[at].total as f64
}

fn duration(growth: &Growth, at: usize) -> f64 {
    growth.segments[at].duration as f64 * 520.0 / growth.segments[at].total as f64
}

#[test]
fn connection_grows_continuously_from_parent_through_each_row_seam() {
    let growth = grow(&[
        segment((0, 0), (0, 10)),
        segment((0, 10), (0, 20)),
        segment((0, 20), (0, 30)),
    ]);
    assert!(delay(&growth, 2).abs() < 0.01);
    assert!((duration(&growth, 2) - delay(&growth, 1)).abs() < 0.01);
    assert!((delay(&growth, 1) + duration(&growth, 1) - delay(&growth, 0)).abs() < 0.01);
    assert!((delay(&growth, 0) + duration(&growth, 0) - 520.0).abs() < 0.01);
}

#[test]
fn forks_and_merges_join_at_the_endpoint_while_separate_connections_grow_in_parallel() {
    let growth = grow(&[
        segment((10, 0), (0, 10)),
        segment((10, 0), (20, 10)),
        segment((10, -10), (10, 0)),
        segment((100, 0), (100, 1000)),
    ]);
    assert!((duration(&growth, 0) - duration(&growth, 1)).abs() < 0.01);
    assert!((delay(&growth, 2) - duration(&growth, 0)).abs() < 0.01);
    assert!((delay(&growth, 2) + duration(&growth, 2) - 520.0).abs() < 0.01);
    assert!(delay(&growth, 3).abs() < 0.01);
    assert!((duration(&growth, 3) - 520.0).abs() < 0.01);
}

#[test]
fn arrivals_name_each_end_once() {
    let growth = plan(&[segment((0, 0), (0, 10)), segment((0, 10), (0, 20))], &[10, 10]);
    let points: Vec<i64> = growth.arrivals.iter().map(|arrival| arrival.point.y).collect();
    assert_eq!(points.iter().filter(|y| **y == 10).count(), 1);
    assert!(growth.arrival(Point { x: 0, y: 20 }).is_none());
    assert_eq!(growth.arrival(Point { x: 0, y: 10 }).unwrap().distance, 10);
    let top = growth.arrival(Point { x: 0, y: 0 }).unwrap();
    assert_eq!((top.distance, top.total), (20, 20));
    assert!(growth.arrival(Point { x: 1, y: 1 }).is_none());
    assert!(plan(&[], &[]).segments.is_empty());
}
