use diffview::diff::{DiffRow, FileDiff, FileStatus, Highlights, Hunk, PrDiff};
use diffview::rows::{build_rows, widest_line, Cell, LineKind, Row, ViewMode};

fn add(new_no: u32, text: &str) -> DiffRow {
    DiffRow::Added {
        new_no,
        text: text.to_string(),
        intra: Vec::new(),
    }
}

fn rem(old_no: u32, text: &str) -> DiffRow {
    DiffRow::Removed {
        old_no,
        text: text.to_string(),
        intra: Vec::new(),
    }
}

fn ctx(old_no: u32, new_no: u32, text: &str) -> DiffRow {
    DiffRow::Context {
        old_no,
        new_no,
        text: text.to_string(),
    }
}

fn hunk(rows: Vec<DiffRow>) -> Hunk<u8> {
    Hunk {
        old_start: 1,
        old_count: 1,
        new_start: 1,
        new_count: 1,
        section: String::new(),
        rows,
        highlights: None,
    }
}

fn file(path: &str, hunks: Vec<Hunk<u8>>) -> FileDiff<u8> {
    FileDiff {
        display_path: path.to_string(),
        old_path: Some(path.to_string()),
        status: FileStatus::Modified,
        hunks,
        additions: 0,
        deletions: 0,
    }
}

fn cell(no: u32, kind: LineKind, text: &str) -> Cell<u8> {
    Cell {
        no,
        kind,
        text: text.to_string(),
        intra: vec![],
        syntax: vec![],
    }
}

/// A row in words.
fn show(row: &Row<u8>) -> String {
    let side = |cell: &Option<Cell<u8>>| match cell {
        Some(cell) => format!("{} {:?} {}", cell.no, cell.kind, cell.text),
        None => "-".to_string(),
    };
    match row {
        Row::Spacer => "spacer".to_string(),
        Row::FileHeader { path, old_path, status, additions, deletions } => {
            format!("file {path} {old_path:?} {status:?} {additions} {deletions}")
        }
        Row::HunkHeader { label } => format!("hunk {label}"),
        Row::Binary => "binary".to_string(),
        Row::Line { old_no, new_no, kind, text, .. } => {
            format!("line {old_no:?} {new_no:?} {kind:?} {text}")
        }
        Row::SplitLine { left, right } => format!("split {} | {}", side(left), side(right)),
    }
}

fn shown(rows: &[Row<u8>]) -> Vec<String> {
    rows.iter().map(show).collect()
}

#[test]
fn unified_builds_headers_and_lines() {
    let diff = PrDiff {
        files: vec![file("a.rs", vec![hunk(vec![rem(1, "a"), add(1, "b")])])],
    };
    let (rows, file_rows, hunk_rows) = build_rows(&diff, ViewMode::Unified);
    assert_eq!(file_rows, vec![0]);
    assert_eq!(hunk_rows, vec![1]);
    assert!(matches!(rows[0], Row::FileHeader { .. }));
    assert!(matches!(rows[1], Row::HunkHeader { .. }));
    assert!(matches!(rows[2], Row::Line { .. }));
    assert!(matches!(rows[3], Row::Line { .. }));
    assert_eq!(rows.len(), 4);
}

#[test]
fn split_pairs_equal_runs() {
    let diff = PrDiff {
        files: vec![file(
            "a.rs",
            vec![hunk(vec![rem(1, "a"), rem(2, "b"), add(1, "c"), add(2, "d")])],
        )],
    };
    let (rows, _, _) = build_rows(&diff, ViewMode::Split);
    assert_eq!(rows.len(), 4);
    assert!(matches!(&rows[2], Row::SplitLine { left: Some(_), right: Some(_) }));
    assert!(matches!(&rows[3], Row::SplitLine { left: Some(_), right: Some(_) }));
}

#[test]
fn max_line_chars_spans_unified_and_split() {
    let rows: Vec<Row<u8>> = vec![
        Row::Line {
            old_no: Some(1),
            new_no: Some(1),
            kind: LineKind::Context,
            text: "hello".into(),
            intra: vec![],
            syntax: vec![],
        },
        Row::SplitLine {
            left: Some(cell(1, LineKind::Removed, "a very long line")),
            right: Some(cell(1, LineKind::Added, "short")),
        },
    ];
    assert_eq!(widest_line(&rows), (1, 16));
}

#[test]
fn widest_line_counts_characters_and_takes_the_first() {
    let line = |text: &str| Row::<u8>::SplitLine {
        left: None,
        right: Some(cell(1, LineKind::Added, text)),
    };
    assert_eq!(widest_line::<u8>(&[]), (0, 0));
    assert_eq!(widest_line::<u8>(&[Row::Spacer, Row::Binary]), (0, 0));
    assert_eq!(widest_line(&[line("abcd"), line("äöüß"), line("")]), (0, 4));
    assert_eq!(widest_line(&[Row::Spacer, line("ab"), line("äöü")]), (2, 3));
}

#[test]
fn split_leaves_unequal_runs_one_sided() {
    let diff = PrDiff {
        files: vec![file(
            "a.rs",
            vec![hunk(vec![
                add(1, "first"),
                ctx(1, 2, "same"),
                rem(2, "gone"),
                rem(3, "gone too"),
                add(3, "new"),
                rem(4, "old"),
                add(4, "a"),
                add(5, "b"),
            ])],
        )],
    };
    let (rows, _, _) = build_rows(&diff, ViewMode::Split);
    assert_eq!(
        shown(&rows[2..]),
        vec![
            "split - | 1 Added first",
            "split 1 Context same | 2 Context same",
            "split 2 Removed gone | 3 Added new",
            "split 3 Removed gone too | -",
            "split 4 Removed old | 4 Added a",
            "split - | 5 Added b",
        ]
    );
}

#[test]
fn unified_keeps_the_lines_in_order() {
    let diff = PrDiff {
        files: vec![file(
            "a.rs",
            vec![hunk(vec![ctx(1, 1, "same"), rem(2, "gone"), add(2, "new")])],
        )],
    };
    let (rows, _, _) = build_rows(&diff, ViewMode::Unified);
    assert_eq!(
        shown(&rows[2..]),
        vec![
            "line Some(1) Some(1) Context same",
            "line Some(2) None Removed gone",
            "line None Some(2) Added new",
        ]
    );
}

#[test]
fn files_are_set_apart_and_binary_files_show_no_hunks() {
    let mut renamed = file("new.rs", vec![hunk(vec![]), hunk(vec![])]);
    renamed.status = FileStatus::Renamed;
    renamed.old_path = Some("old.rs".to_string());
    renamed.additions = 3;
    renamed.deletions = 4;
    renamed.hunks[1].old_start = 10;
    renamed.hunks[1].old_count = 0;
    renamed.hunks[1].new_start = 4294967295;
    renamed.hunks[1].new_count = 7;
    renamed.hunks[1].section = "fn main() {".to_string();
    let mut binary = file("logo.png", vec![hunk(vec![add(1, "x")])]);
    binary.status = FileStatus::Binary;
    let diff = PrDiff { files: vec![binary, renamed, file("z.rs", vec![])] };
    for mode in [ViewMode::Unified, ViewMode::Split] {
        let (rows, file_rows, hunk_rows) = build_rows(&diff, mode);
        assert_eq!(
            shown(&rows),
            vec![
                "file logo.png None Binary 0 0",
                "binary",
                "spacer",
                "file new.rs Some(\"old.rs\") Renamed 3 4",
                "hunk @@ -1,1 +1,1 @@",
                "hunk @@ -10,0 +4294967295,7 @@ fn main() {",
                "spacer",
                "file z.rs None Modified 0 0",
            ]
        );
        assert_eq!(file_rows, vec![0, 3, 7]);
        assert_eq!(hunk_rows, vec![4, 5]);
    }
}

#[test]
fn no_files_make_no_rows() {
    let diff: PrDiff<u8> = PrDiff { files: vec![] };
    let (rows, file_rows, hunk_rows) = build_rows(&diff, ViewMode::Split);
    assert!(rows.is_empty() && file_rows.is_empty() && hunk_rows.is_empty());
}

#[test]
fn both_views_show_the_same_lines_on_each_side() {
    let rows = || {
        vec![
            ctx(1, 1, "same"),
            rem(2, "a"),
            rem(3, "b"),
            add(2, "c"),
            ctx(4, 3, "same too"),
            add(4, "d"),
            rem(5, "e"),
        ]
    };
    let diff = PrDiff { files: vec![file("a.rs", vec![hunk(rows())])] };
    let (unified, _, _) = build_rows(&diff, ViewMode::Unified);
    let (split, _, _) = build_rows(&diff, ViewMode::Split);
    let mut unified_old = Vec::new();
    let mut unified_new = Vec::new();
    for row in &unified {
        if let Row::Line { old_no, new_no, text, .. } = row {
            if let Some(no) = old_no {
                unified_old.push((*no, text.clone()));
            }
            if let Some(no) = new_no {
                unified_new.push((*no, text.clone()));
            }
        }
    }
    let mut split_old = Vec::new();
    let mut split_new = Vec::new();
    for row in &split {
        if let Row::SplitLine { left, right } = row {
            if let Some(cell) = left {
                split_old.push((cell.no, cell.text.clone()));
            }
            if let Some(cell) = right {
                split_new.push((cell.no, cell.text.clone()));
            }
        }
    }
    assert_eq!(unified_old, split_old);
    assert_eq!(unified_new, split_new);
    assert_eq!(unified_old.len(), 5);
    assert_eq!(unified_new.len(), 4);
}

#[test]
fn rows_carry_words_and_tokens() {
    let mut one = hunk(vec![
        ctx(1, 1, "same"),
        DiffRow::Removed { old_no: 2, text: "ab".to_string(), intra: vec![0..1] },
        DiffRow::Added { new_no: 2, text: "cd".to_string(), intra: vec![1..2] },
    ]);
    one.highlights = Some(Highlights {
        old: vec![vec![(0..4, 1)], vec![(0..2, 2)]],
        new: vec![vec![(0..4, 3)], vec![(0..2, 4)]],
    });
    let diff = PrDiff { files: vec![file("a.rs", vec![one])] };
    let (rows, _, _) = build_rows(&diff, ViewMode::Unified);
    let lines: Vec<_> = rows[2..]
        .iter()
        .map(|row| match row {
            Row::Line { intra, syntax, .. } => (intra.clone(), syntax.clone()),
            _ => panic!("not a line"),
        })
        .collect();
    assert_eq!(
        lines,
        vec![
            (vec![], vec![(0..4, 3)]),
            (vec![0..1], vec![(0..2, 2)]),
            (vec![1..2], vec![(0..2, 4)]),
        ]
    );
    let (rows, _, _) = build_rows(&diff, ViewMode::Split);
    match &rows[2] {
        Row::SplitLine { left: Some(left), right: Some(right) } => {
            assert_eq!(left.syntax, vec![(0..4, 3)]);
            assert_eq!(right.syntax, vec![(0..4, 3)]);
        }
        _ => panic!("not two cells"),
    }
    match &rows[3] {
        Row::SplitLine { left: Some(left), right: Some(right) } => {
            assert_eq!((left.intra.clone(), left.syntax.clone()), (vec![0..1], vec![(0..2, 2)]));
            assert_eq!((right.intra.clone(), right.syntax.clone()), (vec![1..2], vec![(0..2, 4)]));
        }
        _ => panic!("not two cells"),
    }
}
