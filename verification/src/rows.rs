//! The display rows of a diff, in the unified and in the split view.

use crate::diff::{
    diff_rows, span_lines, DiffRow, DiffRowView, FileDiff, FileStatus, FileView, Hunk, HunkView,
    PrDiff,
};
use crate::highlight::{copy_spans, hunk_spans, hunk_syntax};
use crate::text::{decimal, push_decimal};
use std::ops::Range;
use vstd::prelude::*;

verus! {

/// What a shown line is.
#[derive(Clone, Copy, PartialEq, Eq, Debug, Structural)]
pub enum LineKind {
    Context,
    Added,
    Removed,
}

/// How the lines of a hunk are laid out.
#[derive(Clone, Copy, PartialEq, Eq, Debug, Structural)]
pub enum ViewMode {
    Unified,
    Split,
}

/// One side of a split row: line number, kind, text, the byte ranges of changed
/// words, and token spans.
#[derive(Debug)]
pub struct Cell<T> {
    pub no: u32,
    pub kind: LineKind,
    pub text: String,
    pub intra: Vec<Range<usize>>,
    pub syntax: Vec<(Range<usize>, T)>,
}

/// One display row.
#[derive(Debug)]
pub enum Row<T> {
    Spacer,
    FileHeader {
        path: String,
        old_path: Option<String>,
        status: FileStatus,
        additions: u32,
        deletions: u32,
    },
    HunkHeader { label: String },
    Binary,
    Line {
        old_no: Option<u32>,
        new_no: Option<u32>,
        kind: LineKind,
        text: String,
        intra: Vec<Range<usize>>,
        syntax: Vec<(Range<usize>, T)>,
    },
    SplitLine { left: Option<Cell<T>>, right: Option<Cell<T>> },
}

/// The mathematical model of a [`Cell`].
pub struct CellView<T> {
    pub no: u32,
    pub kind: LineKind,
    pub text: Seq<char>,
    pub intra: Seq<Range<usize>>,
    pub syntax: Seq<(Range<usize>, T)>,
}

/// The mathematical model of a [`Row`].
pub enum RowView<T> {
    Spacer,
    FileHeader {
        path: Seq<char>,
        old_path: Option<Seq<char>>,
        status: FileStatus,
        additions: u32,
        deletions: u32,
    },
    HunkHeader { label: Seq<char> },
    Binary,
    Line {
        old_no: Option<u32>,
        new_no: Option<u32>,
        kind: LineKind,
        text: Seq<char>,
        intra: Seq<Range<usize>>,
        syntax: Seq<(Range<usize>, T)>,
    },
    SplitLine { left: Option<CellView<T>>, right: Option<CellView<T>> },
}

impl<T> View for Cell<T> {
    type V = CellView<T>;

    open spec fn view(&self) -> CellView<T> {
        CellView {
            no: self.no,
            kind: self.kind,
            text: self.text@,
            intra: self.intra@,
            syntax: self.syntax@,
        }
    }
}

/// The model of a cell, where there is one.
pub open spec fn cell_view<T>(cell: Option<Cell<T>>) -> Option<CellView<T>> {
    match cell {
        Some(cell) => Some(cell@),
        None => None,
    }
}

impl<T> View for Row<T> {
    type V = RowView<T>;

    open spec fn view(&self) -> RowView<T> {
        match *self {
            Row::Spacer => RowView::Spacer,
            Row::FileHeader { path, old_path, status, additions, deletions } => RowView::FileHeader {
                path: path@,
                old_path: match old_path {
                    Some(path) => Some(path@),
                    None => None,
                },
                status,
                additions,
                deletions,
            },
            Row::HunkHeader { label } => RowView::HunkHeader { label: label@ },
            Row::Binary => RowView::Binary,
            Row::Line { old_no, new_no, kind, text, intra, syntax } => RowView::Line {
                old_no,
                new_no,
                kind,
                text: text@,
                intra: intra@,
                syntax: syntax@,
            },
            Row::SplitLine { left, right } => RowView::SplitLine {
                left: cell_view(left),
                right: cell_view(right),
            },
        }
    }
}

/// The models of a list of rows.
pub open spec fn row_views<T>(rows: Seq<Row<T>>) -> Seq<RowView<T>> {
    rows.map_values(|row: Row<T>| row@)
}

/// A list of indices as integers.
pub open spec fn ints(s: Seq<usize>) -> Seq<int> {
    s.map_values(|x: usize| x as int)
}

// --- The unified view ------------------------------------------------------

/// The row of one line in the unified view.
pub open spec fn unified_row<T>(row: DiffRowView, syntax: Seq<(Range<usize>, T)>) -> RowView<T> {
    match row {
        DiffRowView::Context { old_no, new_no, text } => RowView::Line {
            old_no: Some(old_no),
            new_no: Some(new_no),
            kind: LineKind::Context,
            text,
            intra: seq![],
            syntax,
        },
        DiffRowView::Added { new_no, text, intra } => RowView::Line {
            old_no: None,
            new_no: Some(new_no),
            kind: LineKind::Added,
            text,
            intra,
            syntax,
        },
        DiffRowView::Removed { old_no, text, intra } => RowView::Line {
            old_no: Some(old_no),
            new_no: None,
            kind: LineKind::Removed,
            text,
            intra,
            syntax,
        },
    }
}

/// The lines of a hunk in the unified view: one row each, in order.
pub open spec fn unified_rows<T>(
    rows: Seq<DiffRowView>,
    spans: Seq<Seq<(Range<usize>, T)>>,
) -> Seq<RowView<T>> {
    Seq::new(rows.len(), |i: int| unified_row(rows[i], spans[i]))
}

// --- The split view --------------------------------------------------------

/// The cell of a line on the old (left) or on the new (right) side.
pub open spec fn side_cell<T>(
    row: DiffRowView,
    syntax: Seq<(Range<usize>, T)>,
    old: bool,
) -> CellView<T> {
    match row {
        DiffRowView::Context { old_no, new_no, text } => CellView {
            no: if old {
                old_no
            } else {
                new_no
            },
            kind: LineKind::Context,
            text,
            intra: seq![],
            syntax,
        },
        DiffRowView::Added { new_no, text, intra } => CellView {
            no: new_no,
            kind: LineKind::Added,
            text,
            intra,
            syntax,
        },
        DiffRowView::Removed { old_no, text, intra } => CellView {
            no: old_no,
            kind: LineKind::Removed,
            text,
            intra,
            syntax,
        },
    }
}

/// Where the run of removed lines that begins at `i` ends.
pub open spec fn removed_end(rows: Seq<DiffRowView>, i: int) -> int
    decreases rows.len() - i,
{
    if 0 <= i < rows.len() && rows[i] is Removed {
        removed_end(rows, i + 1)
    } else {
        i
    }
}

/// Where the run of added lines that begins at `i` ends.
pub open spec fn added_end(rows: Seq<DiffRowView>, i: int) -> int
    decreases rows.len() - i,
{
    if 0 <= i < rows.len() && rows[i] is Added {
        added_end(rows, i + 1)
    } else {
        i
    }
}

/// A run ends within the hunk and holds only lines of its kind.
pub proof fn lemma_run_ends(rows: Seq<DiffRowView>, i: int)
    requires
        0 <= i <= rows.len(),
    ensures
        i <= removed_end(rows, i) <= rows.len(),
        i <= added_end(rows, i) <= rows.len(),
        forall|k: int| i <= k < removed_end(rows, i) ==> rows[k] is Removed,
        forall|k: int| i <= k < added_end(rows, i) ==> rows[k] is Added,
        i < rows.len() && rows[i] is Removed ==> i < removed_end(rows, i),
    decreases rows.len() - i,
{
    if i < rows.len() {
        lemma_run_ends(rows, i + 1);
    }
}

/// The rows of a run of removed lines `start..mid` and the run of added lines
/// `mid..end` after it, paired by position. Where one run is longer, the rest
/// of it stands alone.
pub open spec fn paired_rows<T>(
    rows: Seq<DiffRowView>,
    spans: Seq<Seq<(Range<usize>, T)>>,
    start: int,
    mid: int,
    end: int,
) -> Seq<RowView<T>> {
    let (removed, added) = (mid - start, end - mid);
    let count = if removed >= added {
        removed
    } else {
        added
    };
    Seq::new(
        count as nat,
        |pair: int|
            RowView::SplitLine {
                left: if pair < removed {
                    Some(side_cell(rows[start + pair], spans[start + pair], true))
                } else {
                    None
                },
                right: if pair < added {
                    Some(side_cell(rows[mid + pair], spans[mid + pair], false))
                } else {
                    None
                },
            },
    )
}

/// The lines of a hunk from line `i` on in the split view: a context line stands
/// on both sides, removed lines and the added lines after them are paired, other
/// added lines stand alone on the right.
pub open spec fn split_rows<T>(
    rows: Seq<DiffRowView>,
    spans: Seq<Seq<(Range<usize>, T)>>,
    i: int,
) -> Seq<RowView<T>>
    decreases rows.len() - i,
{
    if i < 0 || i >= rows.len() {
        seq![]
    } else {
        match rows[i] {
            DiffRowView::Context { .. } => seq![
                RowView::SplitLine {
                    left: Some(side_cell(rows[i], spans[i], true)),
                    right: Some(side_cell(rows[i], spans[i], false)),
                },
            ] + split_rows(rows, spans, i + 1),
            DiffRowView::Added { .. } => seq![
                RowView::SplitLine {
                    left: None,
                    right: Some(side_cell(rows[i], spans[i], false)),
                },
            ] + split_rows(rows, spans, i + 1),
            DiffRowView::Removed { .. } => {
                let mid = removed_end(rows, i);
                let end = added_end(rows, mid);
                proof {
                    lemma_run_ends(rows, i);
                    lemma_run_ends(rows, mid);
                }
                paired_rows(rows, spans, i, mid, end) + split_rows(rows, spans, end)
            },
        }
    }
}

// --- Hunks, files and the whole diff ---------------------------------------

/// The label of a hunk, as in a patch.
pub open spec fn hunk_label<T>(hunk: HunkView<T>) -> Seq<char> {
    let range = "@@ -"@ + decimal(hunk.old_start as nat) + ","@ + decimal(hunk.old_count as nat)
        + " +"@ + decimal(hunk.new_start as nat) + ","@ + decimal(hunk.new_count as nat) + " @@"@;
    if hunk.section.len() == 0 {
        range
    } else {
        range + " "@ + hunk.section
    }
}

/// The rows of a hunk: its header, then its lines.
pub open spec fn hunk_block<T>(hunk: HunkView<T>, mode: ViewMode) -> Seq<RowView<T>> {
    let spans = hunk_spans(hunk.highlights, hunk.rows);
    seq![RowView::HunkHeader { label: hunk_label(hunk) }] + match mode {
        ViewMode::Unified => unified_rows(hunk.rows, spans),
        ViewMode::Split => split_rows(hunk.rows, spans, 0),
    }
}

/// The rows of a list of hunks.
pub open spec fn hunk_blocks<T>(hunks: Seq<HunkView<T>>, mode: ViewMode) -> Seq<RowView<T>>
    decreases hunks.len(),
{
    if hunks.len() == 0 {
        seq![]
    } else {
        hunk_blocks(hunks.drop_last(), mode) + hunk_block(hunks.last(), mode)
    }
}

/// The header row of a file. Only a renamed file shows its old path.
pub open spec fn file_header<T>(file: FileView<T>) -> RowView<T> {
    RowView::FileHeader {
        path: file.display_path,
        old_path: if file.status == FileStatus::Renamed {
            file.old_path
        } else {
            None
        },
        status: file.status,
        additions: file.additions,
        deletions: file.deletions,
    }
}

/// The rows of a file: its header, then its hunks, or a note that it is binary.
pub open spec fn file_block<T>(file: FileView<T>, mode: ViewMode) -> Seq<RowView<T>> {
    seq![file_header(file)] + if file.status == FileStatus::Binary {
        seq![RowView::Binary]
    } else {
        hunk_blocks(file.hunks, mode)
    }
}

/// The rows of a diff: the rows of its files, with a spacer between two files.
pub open spec fn layout<T>(files: Seq<FileView<T>>, mode: ViewMode) -> Seq<RowView<T>>
    decreases files.len(),
{
    if files.len() == 0 {
        seq![]
    } else if files.len() == 1 {
        file_block(files[0], mode)
    } else {
        layout(files.drop_last(), mode) + seq![RowView::Spacer] + file_block(files.last(), mode)
    }
}

/// The indices of the file headers among the rows, ascending.
pub open spec fn file_positions<T>(rows: Seq<RowView<T>>) -> Seq<int>
    decreases rows.len(),
{
    if rows.len() == 0 {
        seq![]
    } else if rows.last() is FileHeader {
        file_positions(rows.drop_last()).push(rows.len() - 1)
    } else {
        file_positions(rows.drop_last())
    }
}

/// The indices of the hunk headers among the rows, ascending.
pub open spec fn hunk_positions<T>(rows: Seq<RowView<T>>) -> Seq<int>
    decreases rows.len(),
{
    if rows.len() == 0 {
        seq![]
    } else if rows.last() is HunkHeader {
        hunk_positions(rows.drop_last()).push(rows.len() - 1)
    } else {
        hunk_positions(rows.drop_last())
    }
}

spec fn is_header<T>(row: RowView<T>) -> bool {
    row is FileHeader || row is HunkHeader
}

proof fn lemma_push_position<T>(rows: Seq<RowView<T>>, row: RowView<T>)
    ensures
        file_positions(rows.push(row)) == if row is FileHeader {
            file_positions(rows).push(rows.len() as int)
        } else {
            file_positions(rows)
        },
        hunk_positions(rows.push(row)) == if row is HunkHeader {
            hunk_positions(rows).push(rows.len() as int)
        } else {
            hunk_positions(rows)
        },
{
    assert(rows.push(row).drop_last() =~= rows);
}

/// Rows that are no headers add no position.
proof fn lemma_positions_append<T>(rows: Seq<RowView<T>>, more: Seq<RowView<T>>)
    requires
        forall|i: int| 0 <= i < more.len() ==> !is_header(#[trigger] more[i]),
    ensures
        file_positions(rows + more) == file_positions(rows),
        hunk_positions(rows + more) == hunk_positions(rows),
    decreases more.len(),
{
    if more.len() == 0 {
        assert(rows + more =~= rows);
    } else {
        assert(rows + more =~= (rows + more.drop_last()).push(more.last()));
        lemma_positions_append(rows, more.drop_last());
        lemma_push_position(rows + more.drop_last(), more.last());
    }
}

pub(crate) proof fn lemma_split_rows_are_lines<T>(
    rows: Seq<DiffRowView>,
    spans: Seq<Seq<(Range<usize>, T)>>,
    i: int,
)
    requires
        0 <= i,
    ensures
        forall|k: int|
            0 <= k < split_rows(rows, spans, i).len() ==> (#[trigger] split_rows(
                rows,
                spans,
                i,
            )[k]) is SplitLine,
    decreases rows.len() - i,
{
    if i < rows.len() {
        if rows[i] is Removed {
            lemma_run_ends(rows, i);
            lemma_run_ends(rows, removed_end(rows, i));
            lemma_split_rows_are_lines(rows, spans, added_end(rows, removed_end(rows, i)));
        } else {
            lemma_split_rows_are_lines(rows, spans, i + 1);
        }
    }
}

// --- Building the rows -----------------------------------------------------

/// A copy of a list of ranges.
fn copy_ranges(ranges: &Vec<Range<usize>>) -> (copied: Vec<Range<usize>>)
    ensures
        copied@ == ranges@,
{
    let mut copied: Vec<Range<usize>> = Vec::new();
    for i in 0..ranges.len()
        invariant
            copied@ == ranges@.take(i as int),
    {
        let (start, end) = (ranges[i].start, ranges[i].end);
        copied.push(start..end);
        assert(copied@ =~= ranges@.take(i + 1));
    }
    assert(ranges@.take(ranges.len() as int) =~= ranges@);
    copied
}

fn make_unified_row<T: Copy>(row: &DiffRow, spans: &Vec<(Range<usize>, T)>) -> (made: Row<T>)
    ensures
        made@ == unified_row(row@, spans@),
{
    let syntax = copy_spans(spans);
    match row {
        DiffRow::Context { old_no, new_no, text } => Row::Line {
            old_no: Some(*old_no),
            new_no: Some(*new_no),
            kind: LineKind::Context,
            text: text.clone(),
            intra: Vec::new(),
            syntax,
        },
        DiffRow::Added { new_no, text, intra } => Row::Line {
            old_no: None,
            new_no: Some(*new_no),
            kind: LineKind::Added,
            text: text.clone(),
            intra: copy_ranges(intra),
            syntax,
        },
        DiffRow::Removed { old_no, text, intra } => Row::Line {
            old_no: Some(*old_no),
            new_no: None,
            kind: LineKind::Removed,
            text: text.clone(),
            intra: copy_ranges(intra),
            syntax,
        },
    }
}

fn make_cell<T: Copy>(row: &DiffRow, spans: &Vec<(Range<usize>, T)>, old: bool) -> (made: Cell<T>)
    ensures
        made@ == side_cell(row@, spans@, old),
{
    let syntax = copy_spans(spans);
    match row {
        DiffRow::Context { old_no, new_no, text } => Cell {
            no: if old {
                *old_no
            } else {
                *new_no
            },
            kind: LineKind::Context,
            text: text.clone(),
            intra: Vec::new(),
            syntax,
        },
        DiffRow::Added { new_no, text, intra } => Cell {
            no: *new_no,
            kind: LineKind::Added,
            text: text.clone(),
            intra: copy_ranges(intra),
            syntax,
        },
        DiffRow::Removed { old_no, text, intra } => Cell {
            no: *old_no,
            kind: LineKind::Removed,
            text: text.clone(),
            intra: copy_ranges(intra),
            syntax,
        },
    }
}

/// Appends the lines of a hunk as the unified view shows them.
fn push_unified<T: Copy>(
    out: &mut Vec<Row<T>>,
    rows: &Vec<DiffRow>,
    spans: &Vec<Vec<(Range<usize>, T)>>,
)
    requires
        rows.len() == spans.len(),
    ensures
        row_views(final(out)@) == row_views(old(out)@) + unified_rows(
            diff_rows(rows@),
            span_lines(spans@),
        ),
{
    let ghost before = row_views(out@);
    let ghost made = unified_rows(diff_rows(rows@), span_lines(spans@));
    assert(row_views(out@) =~= before + made.take(0));
    for i in 0..rows.len()
        invariant
            rows.len() == spans.len(),
            made == unified_rows(diff_rows(rows@), span_lines(spans@)),
            row_views(out@) == before + made.take(i as int),
    {
        let row = make_unified_row(&rows[i], &spans[i]);
        assert(row@ == made[i as int]);
        let ghost shown = row_views(out@);
        out.push(row);
        assert(row_views(out@) =~= shown.push(made[i as int]));
        assert(row_views(out@) =~= before + made.take(i + 1));
    }
    assert(made.take(rows.len() as int) =~= made);
}

/// Appends the lines of a hunk as the split view shows them.
fn push_split<T: Copy>(
    out: &mut Vec<Row<T>>,
    rows: &Vec<DiffRow>,
    spans: &Vec<Vec<(Range<usize>, T)>>,
)
    requires
        rows.len() == spans.len(),
    ensures
        row_views(final(out)@) == row_views(old(out)@) + split_rows(
            diff_rows(rows@),
            span_lines(spans@),
            0,
        ),
{
    let ghost lines = diff_rows(rows@);
    let ghost styles = span_lines(spans@);
    let ghost all = row_views(out@) + split_rows(lines, styles, 0);
    let mut i: usize = 0;
    while i < rows.len()
        invariant
            0 <= i <= rows.len(),
            rows.len() == spans.len(),
            lines == diff_rows(rows@),
            styles == span_lines(spans@),
            row_views(out@) + split_rows(lines, styles, i as int) == all,
        decreases rows.len() - i,
    {
        assert(lines[i as int] == rows@[i as int]@);
        assert(styles[i as int] == spans@[i as int]@);
        let ghost shown = row_views(out@);
        match &rows[i] {
            DiffRow::Context { .. } => {
                let left = make_cell(&rows[i], &spans[i], true);
                let right = make_cell(&rows[i], &spans[i], false);
                out.push(Row::SplitLine { left: Some(left), right: Some(right) });
                i += 1;
                assert(row_views(out@) + split_rows(lines, styles, i as int) =~= shown + split_rows(
                    lines,
                    styles,
                    i - 1,
                ));
            },
            DiffRow::Added { .. } => {
                let right = make_cell(&rows[i], &spans[i], false);
                out.push(Row::SplitLine { left: None, right: Some(right) });
                i += 1;
                assert(row_views(out@) + split_rows(lines, styles, i as int) =~= shown + split_rows(
                    lines,
                    styles,
                    i - 1,
                ));
            },
            DiffRow::Removed { .. } => {
                let start: usize = i;
                proof {
                    lemma_run_ends(lines, start as int);
                }
                while i < rows.len() && matches!(rows[i], DiffRow::Removed { .. })
                    invariant
                        start <= i <= rows.len(),
                        lines == diff_rows(rows@),
                        removed_end(lines, start as int) == removed_end(lines, i as int),
                    decreases rows.len() - i,
                {
                    assert(lines[i as int] == rows@[i as int]@);
                    i += 1;
                }
                assert(i < rows.len() ==> lines[i as int] == rows@[i as int]@);
                let mid: usize = i;
                proof {
                    lemma_run_ends(lines, mid as int);
                }
                while i < rows.len() && matches!(rows[i], DiffRow::Added { .. })
                    invariant
                        mid <= i <= rows.len(),
                        lines == diff_rows(rows@),
                        added_end(lines, mid as int) == added_end(lines, i as int),
                    decreases rows.len() - i,
                {
                    assert(lines[i as int] == rows@[i as int]@);
                    i += 1;
                }
                assert(i < rows.len() ==> lines[i as int] == rows@[i as int]@);
                let removed: usize = mid - start;
                let added: usize = i - mid;
                let count: usize = if removed >= added {
                    removed
                } else {
                    added
                };
                let ghost pairs = paired_rows(lines, styles, start as int, mid as int, i as int);
                assert(row_views(out@) =~= shown + pairs.take(0));
                for pair in 0..count
                    invariant
                        start + removed == mid,
                        mid + added == i,
                        i <= rows.len(),
                        rows.len() == spans.len(),
                        count == pairs.len(),
                        lines == diff_rows(rows@),
                        styles == span_lines(spans@),
                        pairs == paired_rows(lines, styles, start as int, mid as int, i as int),
                        row_views(out@) == shown + pairs.take(pair as int),
                {
                    let left = if pair < removed {
                        assert(lines[start + pair] == rows@[start + pair]@);
                        assert(styles[start + pair] == spans@[start + pair]@);
                        Some(make_cell(&rows[start + pair], &spans[start + pair], true))
                    } else {
                        None
                    };
                    let right = if pair < added {
                        assert(lines[mid + pair] == rows@[mid + pair]@);
                        assert(styles[mid + pair] == spans@[mid + pair]@);
                        Some(make_cell(&rows[mid + pair], &spans[mid + pair], false))
                    } else {
                        None
                    };
                    let row = Row::SplitLine { left, right };
                    assert(row@ == pairs[pair as int]);
                    let ghost listed = row_views(out@);
                    out.push(row);
                    assert(row_views(out@) =~= listed.push(pairs[pair as int]));
                    assert(row_views(out@) =~= shown + pairs.take(pair + 1));
                }
                assert(pairs.take(count as int) =~= pairs);
                assert(row_views(out@) + split_rows(lines, styles, i as int) =~= shown + split_rows(
                    lines,
                    styles,
                    start as int,
                ));
            },
        }
    }
    assert(row_views(out@) =~= all);
}

fn make_hunk_label<T>(hunk: &Hunk<T>) -> (label: String)
    ensures
        label@ == hunk_label(hunk@),
{
    let mut label = String::new();
    label.append("@@ -");
    push_decimal(&mut label, hunk.old_start);
    label.append(",");
    push_decimal(&mut label, hunk.old_count);
    label.append(" +");
    push_decimal(&mut label, hunk.new_start);
    label.append(",");
    push_decimal(&mut label, hunk.new_count);
    label.append(" @@");
    if !hunk.section.as_str().is_empty() {
        label.append(" ");
        label.append(hunk.section.as_str());
    }
    assert(label@ =~= hunk_label(hunk@));
    label
}

fn make_file_header<T>(file: &FileDiff<T>) -> (header: Row<T>)
    ensures
        header@ == file_header(file@),
{
    Row::FileHeader {
        path: file.display_path.clone(),
        old_path: if file.status == FileStatus::Renamed {
            match &file.old_path {
                Some(path) => Some(path.clone()),
                None => None,
            }
        } else {
            None
        },
        status: file.status,
        additions: file.additions,
        deletions: file.deletions,
    }
}

/// Appends the rows of a hunk, and notes where its header stands.
fn push_hunk<T: Copy>(
    out: &mut Vec<Row<T>>,
    hunk_rows: &mut Vec<usize>,
    hunk: &Hunk<T>,
    mode: ViewMode,
)
    requires
        ints(old(hunk_rows)@) == hunk_positions(row_views(old(out)@)),
    ensures
        row_views(final(out)@) == row_views(old(out)@) + hunk_block(hunk@, mode),
        ints(final(hunk_rows)@) == hunk_positions(row_views(final(out)@)),
        file_positions(row_views(final(out)@)) == file_positions(row_views(old(out)@)),
{
    let ghost shown = row_views(out@);
    let spans = hunk_syntax(&hunk.highlights, hunk.rows.as_slice());
    let ghost styles = hunk_spans(hunk@.highlights, hunk@.rows);
    assert(span_lines(spans@) == styles);
    assert(span_lines(spans@).len() == spans.len());
    hunk_rows.push(out.len());
    let label = make_hunk_label(hunk);
    out.push(Row::HunkHeader { label });
    let ghost headed = row_views(out@);
    proof {
        assert(headed =~= shown.push(RowView::HunkHeader { label: hunk_label(hunk@) }));
        lemma_push_position(shown, RowView::HunkHeader { label: hunk_label(hunk@) });
        assert(ints(hunk_rows@) =~= ints(old(hunk_rows)@).push(shown.len() as int));
    }
    match mode {
        ViewMode::Unified => {
            push_unified(out, &hunk.rows, &spans);
            proof {
                lemma_positions_append(headed, unified_rows(hunk@.rows, styles));
            }
        },
        ViewMode::Split => {
            push_split(out, &hunk.rows, &spans);
            proof {
                lemma_split_rows_are_lines(hunk@.rows, styles, 0);
                lemma_positions_append(headed, split_rows(hunk@.rows, styles, 0));
            }
        },
    }
    assert(row_views(out@) =~= shown + hunk_block(hunk@, mode));
}

/// Appends the rows of a file, and notes where its headers stand.
fn push_file<T: Copy>(
    out: &mut Vec<Row<T>>,
    file_rows: &mut Vec<usize>,
    hunk_rows: &mut Vec<usize>,
    file: &FileDiff<T>,
    mode: ViewMode,
)
    requires
        ints(old(file_rows)@) == file_positions(row_views(old(out)@)),
        ints(old(hunk_rows)@) == hunk_positions(row_views(old(out)@)),
    ensures
        row_views(final(out)@) == row_views(old(out)@) + file_block(file@, mode),
        ints(final(file_rows)@) == file_positions(row_views(final(out)@)),
        ints(final(hunk_rows)@) == hunk_positions(row_views(final(out)@)),
{
    let ghost shown = row_views(out@);
    file_rows.push(out.len());
    out.push(make_file_header(file));
    let ghost headed = row_views(out@);
    proof {
        assert(headed =~= shown.push(file_header(file@)));
        lemma_push_position(shown, file_header(file@));
        assert(ints(file_rows@) =~= ints(old(file_rows)@).push(shown.len() as int));
    }
    if file.status == FileStatus::Binary {
        out.push(Row::Binary);
        proof {
            assert(row_views(out@) =~= headed.push(RowView::Binary));
            lemma_push_position(headed, RowView::Binary);
            assert(row_views(out@) =~= shown + file_block(file@, mode));
        }
        return ;
    }
    let ghost hunks = file@.hunks;
    assert(headed + hunk_blocks(hunks.take(0), mode) =~= headed);
    for i in 0..file.hunks.len()
        invariant
            hunks == file@.hunks,
            row_views(out@) == headed + hunk_blocks(hunks.take(i as int), mode),
            file_positions(row_views(out@)) == file_positions(headed),
            ints(hunk_rows@) == hunk_positions(row_views(out@)),
    {
        let ghost before = row_views(out@);
        push_hunk(out, hunk_rows, &file.hunks[i], mode);
        proof {
            assert(hunks.take(i + 1).drop_last() =~= hunks.take(i as int));
            assert(hunks.take(i + 1).last() == file.hunks@[i as int]@);
            assert(row_views(out@) =~= headed + hunk_blocks(hunks.take(i + 1), mode));
        }
    }
    assert(hunks.take(file.hunks.len() as int) =~= hunks);
    assert(row_views(out@) =~= shown + file_block(file@, mode));
}

/// Flattens the diff into display rows, with the indices of the file headers
/// and of the hunk headers among them.
pub fn build_rows<T: Copy>(diff: &PrDiff<T>, mode: ViewMode) -> (built: (
    Vec<Row<T>>,
    Vec<usize>,
    Vec<usize>,
))
    ensures
        row_views(built.0@) == layout(diff@, mode),
        ints(built.1@) == file_positions(layout(diff@, mode)),
        ints(built.2@) == hunk_positions(layout(diff@, mode)),
{
    let mut rows: Vec<Row<T>> = Vec::new();
    let mut file_rows: Vec<usize> = Vec::new();
    let mut hunk_rows: Vec<usize> = Vec::new();
    let ghost files = diff@;
    assert(row_views(rows@) =~= layout(files.take(0), mode));
    assert(ints(file_rows@) =~= file_positions(row_views(rows@)));
    assert(ints(hunk_rows@) =~= hunk_positions(row_views(rows@)));
    for i in 0..diff.files.len()
        invariant
            files == diff@,
            row_views(rows@) == layout(files.take(i as int), mode),
            i > 0 ==> rows.len() > 0,
            i == 0 ==> rows.len() == 0,
            ints(file_rows@) == file_positions(row_views(rows@)),
            ints(hunk_rows@) == hunk_positions(row_views(rows@)),
    {
        let ghost before = row_views(rows@);
        if !rows.is_empty() {
            rows.push(Row::Spacer);
            proof {
                assert(row_views(rows@) =~= before.push(RowView::Spacer));
                lemma_push_position(before, RowView::Spacer);
            }
        }
        push_file(&mut rows, &mut file_rows, &mut hunk_rows, &diff.files[i], mode);
        proof {
            let next = files.take(i + 1);
            assert(next.drop_last() =~= files.take(i as int));
            assert(next.last() == diff.files@[i as int]@);
            assert(row_views(rows@).len() == rows.len());
            assert(row_views(rows@) =~= layout(next, mode));
        }
    }
    assert(files.take(diff.files.len() as int) =~= files);
    (rows, file_rows, hunk_rows)
}

// --- The widest line -------------------------------------------------------

/// The number of characters of the text of a cell; 0 for a missing cell.
pub open spec fn cell_chars<T>(cell: Option<CellView<T>>) -> nat {
    match cell {
        Some(cell) => cell.text.len(),
        None => 0,
    }
}

/// The number of characters of the longest text in a row.
pub open spec fn row_chars<T>(row: RowView<T>) -> nat {
    match row {
        RowView::Line { text, .. } => text.len(),
        RowView::SplitLine { left, right } => if cell_chars(left) >= cell_chars(right) {
            cell_chars(left)
        } else {
            cell_chars(right)
        },
        _ => 0,
    }
}

/// Whether `chars` is the length of the longest text in the rows and `ix` the
/// first row that has it. Where no row has any text, `ix` is 0.
pub open spec fn is_widest<T>(rows: Seq<RowView<T>>, ix: int, chars: nat) -> bool {
    &&& forall|i: int| 0 <= i < rows.len() ==> row_chars(#[trigger] rows[i]) <= chars
    &&& if chars == 0 {
        ix == 0
    } else {
        &&& 0 <= ix < rows.len()
        &&& row_chars(rows[ix]) == chars
        &&& forall|i: int| 0 <= i < ix ==> row_chars(#[trigger] rows[i]) < chars
    }
}

fn count_cell_chars<T>(cell: &Option<Cell<T>>) -> (n: usize)
    ensures
        n == cell_chars(cell_view(*cell)),
{
    match cell {
        Some(cell) => cell.text.as_str().unicode_len(),
        None => 0,
    }
}

fn count_row_chars<T>(row: &Row<T>) -> (n: usize)
    ensures
        n == row_chars(row@),
{
    match row {
        Row::Line { text, .. } => text.as_str().unicode_len(),
        Row::SplitLine { left, right } => {
            let l = count_cell_chars(left);
            let r = count_cell_chars(right);
            if l >= r {
                l
            } else {
                r
            }
        },
        _ => 0,
    }
}

/// Index and length in characters of the longest line among the rows.
pub fn widest_line<T>(rows: &[Row<T>]) -> (widest: (usize, usize))
    ensures
        is_widest(row_views(rows@), widest.0 as int, widest.1 as nat),
{
    let mut best_ix: usize = 0;
    let mut best_chars: usize = 0;
    let ghost views = row_views(rows@);
    for ix in 0..rows.len()
        invariant
            views == row_views(rows@),
            is_widest(views.take(ix as int), best_ix as int, best_chars as nat),
    {
        let chars = count_row_chars(&rows[ix]);
        proof {
            assert(views.take(ix + 1) =~= views.take(ix as int).push(rows@[ix as int]@));
        }
        if chars > best_chars {
            best_chars = chars;
            best_ix = ix;
        }
    }
    assert(views.take(rows.len() as int) =~= views);
    (best_ix, best_chars)
}

}
