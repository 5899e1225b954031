use diffview::rows::{Cell, LineKind, Row};
use diffview::selection::{
    char_to_byte, row_highlight, row_selection_range, row_side_text, selection_text,
    split_highlight, RowCol, SelSide, Selection,
};

fn line(text: &str) -> Row<u8> {
    Row::Line {
        old_no: Some(1),
        new_no: Some(1),
        kind: LineKind::Context,
        text: text.into(),
        intra: vec![],
        syntax: vec![],
    }
}

fn split(left: Option<&str>, right: Option<&str>) -> Row<u8> {
    let cell = |text: &str| Cell {
        no: 1,
        kind: LineKind::Context,
        text: text.to_string(),
        intra: vec![],
        syntax: vec![],
    };
    Row::SplitLine { left: left.map(cell), right: right.map(cell) }
}

fn select(side: SelSide, anchor: (usize, usize), head: (usize, usize)) -> Selection {
    Selection {
        side,
        anchor: RowCol { row: anchor.0, col: anchor.1 },
        head: RowCol { row: head.0, col: head.1 },
    }
}

#[test]
fn selection_range_slices_ascii() {
    let row: Row<u8> = Row::Line {
        old_no: Some(1),
        new_no: Some(1),
        kind: LineKind::Context,
        text: "hello".into(),
        intra: vec![],
        syntax: vec![],
    };
    let sel = Selection {
        side: SelSide::Unified,
        anchor: RowCol { row: 0, col: 1 },
        head: RowCol { row: 0, col: 4 },
    };
    assert_eq!(row_selection_range(&sel, 0, &row), Some(1..4));
}

#[test]
fn selection_range_slices_other_scripts() {
    let row = line("aäb€c");
    let sel = select(SelSide::Unified, (0, 1), (0, 4));
    assert_eq!(row_selection_range(&sel, 0, &row), Some(1..7));
    assert_eq!(&"aäb€c"[1..7], "äb€");
    let past = select(SelSide::Unified, (0, 2), (0, 99));
    assert_eq!(row_selection_range(&past, 0, &row), Some(3..8));
    let beyond = select(SelSide::Unified, (0, 50), (0, 99));
    assert_eq!(row_selection_range(&beyond, 0, &row), Some(8..8));
}

#[test]
fn rows_outside_the_selection_have_no_range() {
    let sel = select(SelSide::Unified, (1, 2), (3, 1));
    let row = line("hello");
    assert_eq!(row_selection_range(&sel, 0, &row), None);
    assert_eq!(row_selection_range(&sel, 1, &row), Some(2..5));
    assert_eq!(row_selection_range(&sel, 2, &row), Some(0..5));
    assert_eq!(row_selection_range(&sel, 3, &row), Some(0..1));
    assert_eq!(row_selection_range(&sel, 4, &row), None);
    assert_eq!(row_selection_range(&sel, 2, &Row::<u8>::Spacer), None);
}

#[test]
fn columns_are_found_in_bytes() {
    assert_eq!(char_to_byte("aä€", 0), 0);
    assert_eq!(char_to_byte("aä€", 1), 1);
    assert_eq!(char_to_byte("aä€", 2), 3);
    assert_eq!(char_to_byte("aä€", 3), 6);
    assert_eq!(char_to_byte("aä€", 9), 6);
    assert_eq!(char_to_byte("", 0), 0);
}

#[test]
fn each_side_has_its_text() {
    let row = split(Some("old"), Some("new"));
    assert_eq!(row_side_text(&row, SelSide::Left), Some("old"));
    assert_eq!(row_side_text(&row, SelSide::Right), Some("new"));
    assert_eq!(row_side_text(&row, SelSide::Unified), None);
    assert_eq!(row_side_text(&split(None, Some("new")), SelSide::Left), None);
    assert_eq!(row_side_text(&line("both"), SelSide::Unified), Some("both"));
    assert_eq!(row_side_text(&line("both"), SelSide::Left), None);
    assert_eq!(row_side_text(&Row::<u8>::Binary, SelSide::Unified), None);
}

#[test]
fn ends_are_ordered() {
    let a = RowCol { row: 1, col: 9 };
    let b = RowCol { row: 2, col: 0 };
    let c = RowCol { row: 2, col: 1 };
    let sel = |anchor, head| Selection { side: SelSide::Left, anchor, head };
    assert_eq!(sel(a, b).ordered(), (a, b));
    assert_eq!(sel(b, a).ordered(), (a, b));
    assert_eq!(sel(c, b).ordered(), (b, c));
    assert_eq!(sel(b, b).ordered(), (b, b));
}

#[test]
fn selected_text_is_joined_by_line_breaks() {
    let rows = vec![line("first"), Row::Spacer, line(""), line("last")];
    let sel = select(SelSide::Unified, (0, 2), (3, 2));
    assert_eq!(selection_text(&sel, &rows), "rst\n\nla");
    let back = select(SelSide::Unified, (3, 2), (0, 2));
    assert_eq!(selection_text(&back, &rows), "rst\n\nla");
    let past = select(SelSide::Unified, (0, 0), (99, 0));
    assert_eq!(selection_text(&past, &rows), "first\n\nlast");
    let nothing = select(SelSide::Left, (0, 0), (3, 9));
    assert_eq!(selection_text(&nothing, &rows), "");
    let after = select(SelSide::Unified, (7, 0), (9, 0));
    assert_eq!(selection_text(&after, &rows), "");
}

#[test]
fn only_the_selected_side_is_copied() {
    let rows = vec![
        split(Some("old one"), Some("new one")),
        split(Some("old two"), None),
        split(None, Some("new three")),
    ];
    let left = select(SelSide::Left, (0, 4), (2, 3));
    assert_eq!(selection_text(&left, &rows), "one\nold two");
    let right = select(SelSide::Right, (0, 4), (2, 3));
    assert_eq!(selection_text(&right, &rows), "one\nnew");
}

#[test]
fn empty_ranges_are_not_drawn() {
    let row = line("hello");
    let sel = select(SelSide::Unified, (0, 2), (1, 0));
    assert_eq!(row_highlight(&sel, 0, &row), Some((SelSide::Unified, 2..5)));
    assert_eq!(row_highlight(&sel, 1, &row), None);
    assert_eq!(row_highlight(&sel, 2, &row), None);
    assert_eq!(split_highlight(Some((SelSide::Left, 1..2))), (Some(1..2), None));
    assert_eq!(split_highlight(Some((SelSide::Right, 1..2))), (None, Some(1..2)));
    assert_eq!(split_highlight(Some((SelSide::Unified, 1..2))), (None, None));
    assert_eq!(split_highlight(None), (None, None));
}
