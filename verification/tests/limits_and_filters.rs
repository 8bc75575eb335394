use michael_visualizer::filtering::{count_file_filterings, lock_new_limit};
use michael_visualizer::tabs::{CoordinatePoint, LimitRequest, Rectangle};
use michael_visualizer::grid::{grid_index, grid_size};
use michael_visualizer::confirm_exit::{ConfirmExit, DialogReply};
use michael_visualizer::filtering::{compute_filters, count_filtering, moved_index};
use michael_visualizer::keys::LimitKey;
use michael_visualizer::limit_kind::{check_key, LimitDataKind, UniqueInt};
use std::collections::HashSet;

fn uniques(kind: &LimitDataKind) -> Option<HashSet<i32>> {
    match kind {
        LimitDataKind::Int {
            uniques: UniqueInt::Uniques(s),
            ..
        } => Some(s.clone()),
        _ => None,
    }
}

fn bounds(kind: &LimitDataKind) -> Option<(i32, i32)> {
    match kind {
        LimitDataKind::Int { min, max, .. } => Some((*min, *max)),
        LimitDataKind::Float => None,
    }
}

#[test]
fn a_column_of_floats_is_float() {
    let kind = LimitDataKind::new(None);
    assert!(!kind.is_int());
    assert!(!kind.is_trivial());
    assert!(matches!(kind, LimitDataKind::Float));
}

#[test]
fn a_column_of_integers_keeps_its_distinct_values_and_bounds() {
    let kind = LimitDataKind::new(Some(&[3, -2, 3, 7, -2]));
    assert!(kind.is_int());
    assert_eq!(bounds(&kind), Some((-2, 7)));
    assert_eq!(uniques(&kind), Some(HashSet::from([3, -2, 7])));
    assert!(!kind.is_trivial());
}

#[test]
fn an_empty_column_of_integers_has_zero_bounds() {
    let kind = LimitDataKind::new(Some(&[]));
    assert_eq!(bounds(&kind), Some((0, 0)));
    assert_eq!(uniques(&kind), Some(HashSet::new()));
    assert!(kind.is_trivial());
    let single = LimitDataKind::new(Some(&[5, 5, 5]));
    assert_eq!(bounds(&single), Some((5, 5)));
    assert!(single.is_trivial());
}

#[test]
fn more_than_a_hundred_distinct_values_are_not_kept() {
    let values: Vec<i32> = (0..101).collect();
    let kind = LimitDataKind::new(Some(&values));
    assert_eq!(bounds(&kind), Some((0, 100)));
    assert!(matches!(
        kind,
        LimitDataKind::Int {
            uniques: UniqueInt::MoreThanHundredDifferent,
            ..
        }
    ));
    assert!(!kind.is_trivial());
    let hundred: Vec<i32> = (0..100).collect();
    assert_eq!(uniques(&LimitDataKind::new(Some(&hundred))).map(|s| s.len()), Some(100));
}

#[test]
fn update_merges_values_and_bounds() {
    let mut kind = LimitDataKind::new(Some(&[1, 2]));
    kind.update(&LimitDataKind::new(Some(&[2, 5, -1])));
    assert_eq!(bounds(&kind), Some((-1, 5)));
    assert_eq!(uniques(&kind), Some(HashSet::from([1, 2, 5, -1])));
}

#[test]
fn update_with_floats_gives_floats() {
    let mut kind = LimitDataKind::new(Some(&[1, 2]));
    kind.update(&LimitDataKind::new(None));
    assert!(!kind.is_int());
    let mut kind = LimitDataKind::new(None);
    kind.update(&LimitDataKind::new(Some(&[1])));
    assert!(!kind.is_int());
}

#[test]
fn update_past_a_hundred_distinct_values_stops_keeping_them() {
    let low: Vec<i32> = (0..60).collect();
    let high: Vec<i32> = (50..110).collect();
    let mut kind = LimitDataKind::new(Some(&low));
    kind.update(&LimitDataKind::new(Some(&high)));
    assert_eq!(bounds(&kind), Some((0, 109)));
    assert!(uniques(&kind).is_none());
    assert!(kind.is_int());
    let mut again = LimitDataKind::new(Some(&[200]));
    again.update(&kind);
    assert_eq!(bounds(&again), Some((0, 200)));
    assert!(uniques(&again).is_none());
}

#[test]
fn check_key_keeps_a_key_of_integers() {
    let kind = LimitDataKind::new(Some(&[4, 9]));
    let mut key = Some(LimitKey(3));
    assert_eq!(check_key(&mut key, Some(&kind)), Some((LimitKey(3), 4, 9)));
    assert_eq!(key, Some(LimitKey(3)));
}

#[test]
fn check_key_clears_a_key_of_floats_or_of_no_limit() {
    let kind = LimitDataKind::new(None);
    let mut key = Some(LimitKey(3));
    assert_eq!(check_key(&mut key, Some(&kind)), None);
    assert_eq!(key, None);
    let mut key = Some(LimitKey(4));
    assert_eq!(check_key(&mut key, None), None);
    assert_eq!(key, None);
    let mut key = None;
    assert_eq!(check_key(&mut key, Some(&kind)), None);
    assert_eq!(key, None);
}

#[test]
fn count_filtering_adds_one_per_filtered_row() {
    let mut total = vec![0, 2, 5];
    count_filtering(&mut total, &[true, false, true]);
    assert_eq!(total, vec![1, 2, 6]);
    count_filtering(&mut total, &[true]);
    assert_eq!(total, vec![2, 2, 6]);
}

#[test]
fn compute_filters_follows_the_changed_rows() {
    let mut total = vec![1, 1, 0, 0];
    let mut old = vec![true, true, false, false];
    let changed = compute_filters(&mut total, &mut old, vec![true, false, true, false]);
    assert!(changed);
    assert_eq!(total, vec![1, 0, 1, 0]);
    assert_eq!(old, vec![true, false, true, false]);
    let changed = compute_filters(&mut total, &mut old, vec![true, false, true, false]);
    assert!(!changed);
    assert_eq!(total, vec![1, 0, 1, 0]);
}

#[test]
fn counting_then_recounting_equals_counting_the_second() {
    let first = [true, true, false, false];
    let second = vec![true, false, true, false];
    let mut via_first = vec![3, 0, 1, 2];
    count_filtering(&mut via_first, &first);
    let mut recorded = first.to_vec();
    let _ = compute_filters(&mut via_first, &mut recorded, second.clone());
    let mut direct = vec![3, 0, 1, 2];
    count_filtering(&mut direct, &second);
    assert_eq!(via_first, direct);
}

#[test]
fn recounting_back_restores_the_counts() {
    let mut total = vec![2, 1, 0];
    let mut recorded = vec![true, true, false];
    let _ = compute_filters(&mut total, &mut recorded, vec![false, true, true]);
    let _ = compute_filters(&mut total, &mut recorded, vec![true, true, false]);
    assert_eq!(total, vec![2, 1, 0]);
}

#[test]
fn moved_index_stays_inside_the_list() {
    assert_eq!(moved_index(0, 1, 3), Some(1));
    assert_eq!(moved_index(2, 1, 3), None);
    assert_eq!(moved_index(0, -1, 3), None);
    assert_eq!(moved_index(2, -1, 3), Some(1));
    assert_eq!(moved_index(1, -1, 2), Some(0));
}

#[test]
fn confirm_exit_asks_once_and_follows_the_answer() {
    let mut confirm = ConfirmExit::english();
    assert!(!confirm.shall_be_closed(DialogReply::Pending));
    let dialog = confirm.close_event().expect("first request opens a dialog");
    assert_eq!(dialog.title, "Close?");
    assert_eq!(dialog.question, "Shall the app be closed?");
    assert_eq!(dialog.label_ok, "Ok");
    assert_eq!(dialog.label_cancel, "Cancel");
    assert!(confirm.dialog_open());
    assert!(confirm.close_event().is_none());
    assert!(!confirm.shall_be_closed(DialogReply::Pending));
    assert!(confirm.dialog_open());
    assert!(confirm.shall_be_closed(DialogReply::Answer(true)));
    assert!(!confirm.dialog_open());
    assert!(confirm.close_event().is_none());
    assert!(confirm.shall_be_closed(DialogReply::Answer(false)));
}

#[test]
fn confirm_exit_cancel_or_leaving_lets_the_user_ask_again() {
    let mut confirm = ConfirmExit::new(
        "Quit".to_string(),
        "Really?".to_string(),
        "Yes".to_string(),
        "No".to_string(),
    );
    assert!(confirm.close_event().is_some());
    assert!(!confirm.shall_be_closed(DialogReply::Answer(false)));
    let dialog = confirm.close_event().expect("asks again after cancel");
    assert_eq!(dialog.title, "Quit");
    assert!(!confirm.shall_be_closed(DialogReply::Disconnected));
    assert!(!confirm.dialog_open());
    assert!(confirm.close_event().is_some());
}

#[test]
fn grid_size_counts_both_ends() {
    assert_eq!(grid_size(-2, 2, 5, 7), (5, 3));
    assert_eq!(grid_size(4, 4, 0, 0), (1, 1));
    let (width, height) = grid_size(-2, 2, 5, 7);
    assert_eq!(grid_index(-2, 5, -2, 5, width, height), 0);
    assert_eq!(grid_index(2, 5, -2, 5, width, height), 4);
    assert_eq!(grid_index(-2, 6, -2, 5, width, height), 5);
    assert_eq!(grid_index(2, 7, -2, 5, width, height), 14);
}

#[test]
fn a_rectangle_bounds_both_axes_to_the_cells_on_screen() {
    let rectangle = Rectangle {
        left_top: CoordinatePoint { x: -3, y: 4 },
        right_bottom: CoordinatePoint { x: 5, y: 10 },
    };
    assert_eq!(rectangle.x_range(), (-3, 4));
    assert_eq!(rectangle.y_range(), (4, 9));
    let request = LimitRequest::ShowRectangle {
        x_key: LimitKey(1),
        y_key: LimitKey(2),
        rectangle,
    };
    assert!(matches!(request, LimitRequest::ShowRectangle { rectangle: r, .. } if r.x_range() == (-3, 4)));
}

#[test]
fn count_file_filterings_counts_each_column() {

    let mut total = vec![0, 1, 0];
    count_file_filterings(&mut total, &[vec![true, false, true], vec![true, true, false]]);
    assert_eq!(total, vec![2, 2, 1]);
    count_file_filterings(&mut total, &[]);
    assert_eq!(total, vec![2, 2, 1]);
}

#[test]
fn only_the_first_new_limit_is_locked() {

    let mut locked = Vec::new();
    lock_new_limit(&mut locked, false, LimitKey(0));
    assert!(locked.is_empty());
    lock_new_limit(&mut locked, true, LimitKey(1));
    lock_new_limit(&mut locked, true, LimitKey(2));
    assert_eq!(locked, vec![LimitKey(1)]);
}
