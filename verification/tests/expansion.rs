use editchain_history::coordinates::{
    ExpandedRow, Pixels, VisibleRow, MAX_EXACT_INTEGER, MAX_RENDER_ROWS, ROW_H,
};
use editchain_history::expansion::ExpansionIndex;
use editchain_history::protocol::ExpansionSpanDto;

fn span(row: u64, descendant_count: u64) -> ExpansionSpanDto {
    ExpansionSpanDto {
        row,
        descendant_count,
    }
}

#[test]
fn invalid_metadata_cannot_construct_an_index() {
    for spans in [
        vec![span(0, 5), span(0, 5)],
        vec![span(0, 5), span(4, 3)],
        vec![span(9, 1)],
        vec![span(0, 0)],
        vec![span(u64::MAX, 1)],
        vec![span(0, u64::MAX)],
    ] {
        assert!(ExpansionIndex::from_metadata(10, None, Some(&spans)).is_err());
    }
    for counts in [vec![], vec![0], vec![10], vec![usize::MAX]] {
        assert!(ExpansionIndex::from_metadata(10, Some(&counts), None).is_err());
    }
    assert!(ExpansionIndex::from_metadata(2, Some(&[1]), Some(&[])).is_err());
    assert!(ExpansionIndex::from_metadata(2, Some(&[0, 0]), Some(&[span(0, 1)])).is_err());
    assert!(
        ExpansionIndex::from_metadata(MAX_RENDER_ROWS.saturating_add(1), None, Some(&[])).is_err()
    );
}

#[test]
fn nested_forest_maps_every_disclosure_combination_and_page_boundary() {
    let spans = [span(0, 7), span(1, 2), span(4, 2), span(9, 1)];
    for mask in 0u8..16 {
        let mut index =
            ExpansionIndex::from_metadata(12, Some(&[7, 0, 1, 0]), Some(&spans)).unwrap();
        for (bit, parent) in [0, 1, 4, 9].into_iter().enumerate() {
            if mask & (1 << bit) != 0 {
                assert!(index.toggle(ExpandedRow::new(parent).unwrap()));
            }
        }
        let mut expected = vec![0];
        if mask & 1 != 0 {
            expected.push(1);
            if mask & 2 != 0 {
                expected.extend([2, 3]);
            }
            expected.push(4);
            if mask & 4 != 0 {
                expected.extend([5, 6]);
            }
            expected.push(7);
        }
        expected.extend([8, 9]);
        if mask & 8 != 0 {
            expected.push(10);
        }
        expected.push(11);
        assert_eq!(
            index.visible_total(),
            i64::try_from(expected.len()).unwrap()
        );
        for (rank, row) in expected.iter().copied().enumerate() {
            let rank = VisibleRow::new(i64::try_from(rank).unwrap()).unwrap();
            let row = ExpandedRow::new(row).unwrap();
            assert_eq!(index.expanded_for(rank), Some(row));
            assert_eq!(index.visible_for(row), Some(rank));
        }
        for top in 0..12 {
            assert_eq!(
                index.visible_for(ExpandedRow::new(top).unwrap()).is_some(),
                expected.contains(&top)
            );
            for bottom in top..12 {
                let actual: Vec<_> = index
                    .visible_between(
                        ExpandedRow::new(top).unwrap(),
                        ExpandedRow::new(bottom).unwrap(),
                    )
                    .into_iter()
                    .map(ExpandedRow::get)
                    .collect();
                let slice: Vec<_> = expected
                    .iter()
                    .copied()
                    .filter(|row| *row >= top && *row <= bottom)
                    .collect();
                assert_eq!(actual, slice);
            }
        }
        assert!(index
            .expanded_for(VisibleRow::new(index.visible_total()).unwrap())
            .is_none());
        assert!(index.visible_for(ExpandedRow::new(12).unwrap()).is_none());
    }
}

#[test]
fn plain_ranges_have_constant_storage_at_the_coordinate_limit() {
    let index = ExpansionIndex::from_metadata(MAX_RENDER_ROWS, None, Some(&[])).unwrap();
    assert!(index.spans.is_empty());
    assert_eq!(index.runs.len(), 1);
    let last = MAX_RENDER_ROWS.saturating_sub(1);
    assert_eq!(
        index
            .expanded_for(VisibleRow::new(last).unwrap())
            .map(ExpandedRow::get),
        Some(last)
    );
    assert_eq!(
        index
            .visible_for(ExpandedRow::new(last).unwrap())
            .map(VisibleRow::get),
        Some(last)
    );
    assert_eq!(
        VisibleRow::new(last).unwrap().pixel_offset().row().get(),
        last
    );
}

#[test]
fn the_last_row_is_the_last_with_an_exact_offset() {
    assert!(MAX_RENDER_ROWS * ROW_H <= MAX_EXACT_INTEGER);
    assert!((MAX_RENDER_ROWS + 1) * ROW_H > MAX_EXACT_INTEGER);
    assert!(ExpandedRow::new(-1).is_none());
    assert!(ExpandedRow::new(MAX_RENDER_ROWS + 1).is_none());
    assert_eq!(Pixels::new(-5).row().get(), 0);
    assert_eq!(Pixels::new(67).row().get(), 1);
    assert_eq!(Pixels::new(68).row().get(), 2);
    assert_eq!(Pixels::new(68).get(), 68);
}

#[test]
fn toggling_twice_restores_the_visible_rows() {
    let mut index =
        ExpansionIndex::from_metadata(6, None, Some(&[span(0, 3), span(1, 1)])).unwrap();
    let rows = |index: &ExpansionIndex| -> Vec<i64> {
        index
            .visible_between(ExpandedRow::new(0).unwrap(), ExpandedRow::new(5).unwrap())
            .into_iter()
            .map(ExpandedRow::get)
            .collect()
    };
    assert_eq!(rows(&index), vec![0, 4, 5]);
    let first = ExpandedRow::new(0).unwrap();
    assert!(index.toggle(first));
    assert!(index.is_expanded(first));
    assert_eq!(rows(&index), vec![0, 1, 3, 4, 5]);
    assert_eq!(index.rank_before(ExpandedRow::new(4).unwrap()), 3);
    assert!(index.toggle(first));
    assert_eq!(rows(&index), vec![0, 4, 5]);
    assert!(!index.toggle(ExpandedRow::new(5).unwrap()));
    assert_eq!(index.total(), 6);
}

#[test]
fn snapshots_agree_on_rows_and_spans_whatever_is_disclosed() {
    let spans = [span(0, 3), span(1, 1)];
    let collapsed = ExpansionIndex::from_metadata(6, None, Some(&spans)).unwrap();
    let mut disclosed = ExpansionIndex::from_metadata(6, None, Some(&spans)).unwrap();
    assert!(disclosed.toggle(ExpandedRow::new(0).unwrap()));
    assert!(collapsed.same_snapshot(&disclosed));
    let longer = ExpansionIndex::from_metadata(7, None, Some(&spans)).unwrap();
    assert!(!collapsed.same_snapshot(&longer));
    let other = ExpansionIndex::from_metadata(6, None, Some(&[span(0, 3), span(1, 2)])).unwrap();
    assert!(!collapsed.same_snapshot(&other));
    let fewer = ExpansionIndex::from_metadata(6, None, Some(&[span(0, 3)])).unwrap();
    assert!(!collapsed.same_snapshot(&fewer));
}

#[test]
fn the_order_of_spans_does_not_matter() {
    let sorted = [span(0, 3), span(1, 1), span(5, 2)];
    let shuffled = [span(5, 2), span(0, 3), span(1, 1)];
    let left = ExpansionIndex::from_metadata(9, None, Some(&sorted)).unwrap();
    let right = ExpansionIndex::from_metadata(9, None, Some(&shuffled)).unwrap();
    assert!(left.same_snapshot(&right));
    assert_eq!(left.runs, right.runs);
    let crossing = [span(0, 3), span(2, 3)];
    let turned = [span(2, 3), span(0, 3)];
    let left = ExpansionIndex::from_metadata(9, None, Some(&crossing)).unwrap_err();
    let right = ExpansionIndex::from_metadata(9, None, Some(&turned)).unwrap_err();
    assert_eq!(left.message, "Crossing history expansion spans.");
    assert_eq!(left.message, right.message);
}

#[test]
fn runs_take_no_more_room_than_the_spans() {
    let spans = [span(0, 3), span(4, 2), span(7, 1)];
    let mut index = ExpansionIndex::from_metadata(1000, None, Some(&spans)).unwrap();
    assert_eq!(index.runs.len(), 4);
    assert!(index.toggle(ExpandedRow::new(4).unwrap()));
    assert_eq!(index.runs.len(), 3);
}
