use diffview::diff::{DiffRow, Highlights};
use diffview::highlight::{
    hunk_sources, hunk_syntax, MAX_HUNK_SOURCE_BYTES, MAX_SYNTAX_LINE_BYTES,
};

fn add(text: &str) -> DiffRow {
    DiffRow::Added { new_no: 1, text: text.to_string(), intra: vec![] }
}

fn rem(text: &str) -> DiffRow {
    DiffRow::Removed { old_no: 1, text: text.to_string(), intra: vec![] }
}

fn ctx(text: &str) -> DiffRow {
    DiffRow::Context { old_no: 1, new_no: 1, text: text.to_string() }
}

#[test]
fn each_side_has_its_source() {
    let sources = hunk_sources(&[ctx("a"), rem("b"), add("c"), ctx("d")]);
    assert_eq!(sources.old.as_deref(), Some("a\nb\nd\n"));
    assert_eq!(sources.new.as_deref(), Some("a\nc\nd\n"));
}

#[test]
fn an_empty_side_is_not_highlighted() {
    let sources = hunk_sources(&[add("c")]);
    assert_eq!(sources.old, None);
    assert_eq!(sources.new.as_deref(), Some("c\n"));
    let none = hunk_sources(&[]);
    assert_eq!((none.old, none.new), (None, None));
}

#[test]
fn a_long_side_is_not_highlighted() {
    let fits = "x".repeat(MAX_HUNK_SOURCE_BYTES - 1);
    let too_long = "x".repeat(MAX_HUNK_SOURCE_BYTES);
    let sources = hunk_sources(&[rem(&fits), add(&too_long)]);
    assert_eq!(sources.old.map(|source| source.len()), Some(MAX_HUNK_SOURCE_BYTES));
    assert_eq!(sources.new, None);
    assert_eq!(MAX_HUNK_SOURCE_BYTES, 102400);
}

#[test]
fn lines_get_the_spans_of_their_side() {
    let highlights = Some(Highlights {
        old: vec![vec![(0..1, 10u8)], vec![(0..1, 11)], vec![(0..1, 12)]],
        new: vec![vec![(0..1, 20)], vec![(0..1, 21)]],
    });
    let spans = hunk_syntax(&highlights, &[ctx("a"), rem("b"), add("c"), ctx("d")]);
    assert_eq!(
        spans,
        vec![vec![(0..1, 20)], vec![(0..1, 11)], vec![(0..1, 21)], vec![]]
    );
}

#[test]
fn unknown_languages_have_no_spans() {
    let spans = hunk_syntax::<u8>(&None, &[ctx("a"), rem("b")]);
    assert_eq!(spans, vec![vec![], vec![]]);
}

#[test]
fn long_lines_have_no_spans() {
    let fits = "x".repeat(MAX_SYNTAX_LINE_BYTES);
    let too_long = "ä".repeat(MAX_SYNTAX_LINE_BYTES / 2) + "x";
    let highlights = Some(Highlights {
        old: vec![],
        new: vec![vec![(0..3, 1u8)], vec![(0..3, 2)], vec![(0..3, 3)]],
    });
    let spans = hunk_syntax(&highlights, &[add(&fits), add(&too_long), add("abc")]);
    assert_eq!(spans, vec![vec![(0..3, 1)], vec![], vec![(0..3, 3)]]);
}

#[test]
fn lines_are_looked_up_at_their_place_on_their_side() {
    let rows = [ctx("a"), rem("b"), rem("c"), add("d"), ctx("e")];
    let sources = hunk_sources(&rows);
    let words = |source: Option<String>| -> Vec<Vec<(std::ops::Range<usize>, String)>> {
        source
            .unwrap()
            .lines()
            .map(|line| vec![(0..line.len(), line.to_string())])
            .collect()
    };
    let old = words(sources.old);
    let new = words(sources.new);
    let highlights = Some(Highlights {
        old: (0..old.len()).map(|i| vec![(0..1, i)]).collect(),
        new: (0..new.len()).map(|i| vec![(0..1, i)]).collect(),
    });
    let spans = hunk_syntax(&highlights, &rows);
    for (row, span) in rows.iter().zip(spans) {
        let side = if matches!(row, DiffRow::Removed { .. }) { &old } else { &new };
        assert_eq!(side[span[0].1][0].1, row.text());
    }
}

#[test]
fn sides_that_are_too_long_have_no_spans() {
    let too_long = "x".repeat(MAX_SYNTAX_LINE_BYTES);
    let mut rows: Vec<DiffRow> = (0..25).map(|_| add(&too_long)).collect();
    rows.push(rem("abc"));
    let highlights = Some(Highlights {
        old: vec![vec![(0..3, 1u8)]],
        new: (0..25).map(|_| vec![(0..3, 2)]).collect(),
    });
    let spans = hunk_syntax(&highlights, &rows);
    assert!(spans[..25].iter().all(|line| line.is_empty()));
    assert_eq!(spans[25], vec![(0..3, 1)]);
    let fewer = hunk_syntax(&highlights, &rows[1..]);
    assert_eq!(fewer[0], vec![(0..3, 2)]);
}
