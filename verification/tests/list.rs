use gpui_react::list::{check_remeasure, check_scroll_to, cover, splice_bounds, supplied, window_start, ListError, RowRange};

#[test]
fn supplied_rows_clamp_to_the_row_count() {
    assert_eq!(supplied(10, 5, 100), RowRange { start: 10, end: 15 });
    assert_eq!(supplied(98, 5, 100), RowRange { start: 98, end: 100 });
    assert_eq!(supplied(120, 5, 100), RowRange { start: 100, end: 100 });
    assert_eq!(supplied(0, usize::MAX, 7), RowRange { start: 0, end: 7 });
    assert_eq!(window_start(Some(100), 40, 30), 30);
    assert_eq!(window_start(None, 40, 30), 0);
}

#[test]
fn a_pending_request_grows_to_take_in_each_missing_row() {
    let first = cover(None, 7);
    assert_eq!(first, RowRange { start: 7, end: 8 });
    let grown = cover(Some(first), 3);
    assert_eq!(grown, RowRange { start: 3, end: 8 });
    assert_eq!(cover(Some(grown), 12), RowRange { start: 3, end: 13 });
    assert_eq!(cover(Some(grown), 5), grown);
}

#[test]
fn splice_keeps_the_rows_both_lists_share_at_either_end() {
    // Appending replaces nothing: every old row is in the common prefix.
    assert_eq!(splice_bounds(&[1, 2, 3], &[1, 2, 3, 4]), (3, 0));
    // Replacing a middle row keeps both ends.
    assert_eq!(splice_bounds(&[1, 2, 3, 4], &[1, 9, 3, 4]), (1, 2));
    // Prepending keeps the old rows as the common suffix.
    assert_eq!(splice_bounds(&[2, 3], &[1, 2, 3]), (0, 2));
    assert_eq!(splice_bounds(&[], &[1]), (0, 0));
    assert_eq!(splice_bounds(&[5, 5], &[5]), (1, 0));
}

#[test]
fn commands_check_indices_against_the_row_count() {
    assert_eq!(check_scroll_to(10, 10), Ok(()));
    assert_eq!(check_scroll_to(11, 10), Err(ListError::IndexPastEnd));
    assert_eq!(check_remeasure(2, 5, 10), Ok(RowRange { start: 2, end: 5 }));
    assert_eq!(check_remeasure(5, 2, 10), Err(ListError::BadRange));
    assert_eq!(check_remeasure(2, 11, 10), Err(ListError::BadRange));
    assert_eq!(ListError::BadRange.message(), "invalid list measurement range");
}
