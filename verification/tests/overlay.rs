use diffview::overlay::{merge_highlights, Style};

fn style(face: u32, background: Option<u32>) -> Style {
    Style { face, background }
}

#[test]
fn nothing_gives_nothing() {
    assert!(merge_highlights(&[], &[], None, 9, None).is_empty());
    assert!(merge_highlights(&[(3..3, style(1, None))], &[], None, 9, Some(4..4)).is_empty());
}

#[test]
fn backgrounds_lie_over_tokens() {
    let merged = merge_highlights(
        &[(0..4, style(1, None)), (4..10, style(2, Some(5)))],
        &[2..6],
        Some(7),
        9,
        Some(5..8),
    );
    assert_eq!(
        merged,
        vec![
            (0..2, style(1, None)),
            (2..4, style(1, Some(7))),
            (4..5, style(2, Some(7))),
            (5..8, style(2, Some(9))),
            (8..10, style(2, Some(5))),
        ]
    );
}

#[test]
fn gaps_stay_open() {
    let merged = merge_highlights(
        &[(0..2, style(1, None)), (8..9, style(1, None))],
        &[4..5],
        Some(7),
        9,
        None,
    );
    assert_eq!(
        merged,
        vec![(0..2, style(1, None)), (4..5, style(0, Some(7))), (8..9, style(1, None))]
    );
}

#[test]
fn equal_neighbors_are_joined() {
    let merged = merge_highlights(
        &[(0..2, style(1, None)), (2..4, style(1, None)), (4..6, style(2, None))],
        &[],
        None,
        9,
        None,
    );
    assert_eq!(merged, vec![(0..4, style(1, None)), (4..6, style(2, None))]);
    let selected = merge_highlights(&[], &[1..3], Some(7), 9, Some(0..5));
    assert_eq!(selected, vec![(0..5, style(0, Some(9)))]);
}

#[test]
fn words_without_a_color_clear_the_background() {
    let merged = merge_highlights(&[(0..4, style(1, Some(5)))], &[1..2], None, 9, None);
    assert_eq!(
        merged,
        vec![(0..1, style(1, Some(5))), (1..2, style(1, None)), (2..4, style(1, Some(5)))]
    );
}
