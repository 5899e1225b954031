use diffview::navigate::{find_last_not_after, find_next, find_prev, zoom, DEFAULT_TEXT_SIZE, MAX_TEXT_SIZE, MIN_TEXT_SIZE};

#[test]
fn targets_are_found_around_the_cursor() {
    let targets = [0, 4, 9];
    assert_eq!(find_next(&targets, 0), Some(4));
    assert_eq!(find_next(&targets, 5), Some(9));
    assert_eq!(find_next(&targets, 9), None);
    assert_eq!(find_prev(&targets, 9), Some(4));
    assert_eq!(find_prev(&targets, 5), Some(4));
    assert_eq!(find_prev(&targets, 0), None);
    assert_eq!(find_next(&[], 0), None);
    assert_eq!(find_prev(&[], 0), None);
}

#[test]
fn next_and_previous_undo_each_other_on_headers() {
    let targets = [2, 3, 8];
    for target in &targets[..2] {
        let next = find_next(&targets, *target).unwrap();
        assert_eq!(find_prev(&targets, next), Some(*target));
    }
}

#[test]
fn the_file_of_a_row_is_found() {
    let targets = [0, 4, 9];
    assert_eq!(find_last_not_after(&targets, 0), Some(0));
    assert_eq!(find_last_not_after(&targets, 3), Some(0));
    assert_eq!(find_last_not_after(&targets, 4), Some(1));
    assert_eq!(find_last_not_after(&targets, 99), Some(2));
    assert_eq!(find_last_not_after(&[5], 4), None);
    assert_eq!(find_last_not_after(&[], 4), None);
}

#[test]
fn zooming_steps_and_stops_at_the_limits() {
    assert_eq!(zoom(13, 1, false), Some(14));
    assert_eq!(zoom(14, -1, false), Some(13));
    assert_eq!(zoom(28, 1, false), None);
    assert_eq!(zoom(7, -1, false), None);
    assert_eq!(zoom(20, 0, true), Some(13));
    assert_eq!(zoom(13, 0, true), None);
    assert_eq!(zoom(13, 100, false), Some(28));
    assert_eq!(zoom(13, i32::MIN, false), Some(7));
    assert_eq!((MIN_TEXT_SIZE, DEFAULT_TEXT_SIZE, MAX_TEXT_SIZE), (7, 13, 28));
}
