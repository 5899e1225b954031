//! What holds of the display rows as a whole.

use crate::diff::{DiffRowView, FileStatus, FileView, HunkView};
use crate::highlight::{hunk_spans, on_side};
use crate::rows::{
    added_end, file_block, file_header, file_positions, hunk_block, hunk_blocks, hunk_positions,
    ints, is_widest, layout, paired_rows, removed_end, row_chars, row_views, side_cell, split_rows,
    unified_rows, Cell, CellView, LineKind, Row, RowView, ViewMode,
};
use crate::text::spells;
use std::ops::Range;
use vstd::prelude::*;

verus! {

// --- Positions of headers --------------------------------------------------

/// The file positions are the indices of all file headers, in ascending order.
pub proof fn file_positions_are_the_file_headers<T>(rows: Seq<RowView<T>>)
    ensures
        forall|k: int|
            0 <= k < file_positions(rows).len() ==> 0 <= #[trigger] file_positions(rows)[k]
                < rows.len() && rows[file_positions(rows)[k]] is FileHeader,
        forall|j: int, k: int|
            0 <= j < k < file_positions(rows).len() ==> file_positions(rows)[j] < file_positions(
                rows,
            )[k],
        forall|i: int|
            0 <= i < rows.len() && (#[trigger] rows[i]) is FileHeader ==> file_positions(
                rows,
            ).contains(i),
    decreases rows.len(),
{
    if rows.len() > 0 {
        let shorter = file_positions(rows.drop_last());
        let all = file_positions(rows);
        file_positions_are_the_file_headers(rows.drop_last());
        assert forall|k: int| 0 <= k < all.len() implies 0 <= #[trigger] all[k] < rows.len()
            && rows[all[k]] is FileHeader by {
            if k < shorter.len() {
                assert(all[k] == shorter[k]);
                assert(rows.drop_last()[shorter[k]] == rows[shorter[k]]);
            }
        }
        assert forall|i: int| 0 <= i < rows.len() && (#[trigger] rows[i]) is FileHeader implies all.contains(
            i,
        ) by {
            if i < rows.len() - 1 {
                assert(rows.drop_last()[i] is FileHeader);
                let k = choose|k: int| 0 <= k < shorter.len() && shorter[k] == i;
                assert(all[k] == i);
            } else {
                assert(all[all.len() - 1] == i);
            }
        }
    }
}

/// The hunk positions are the indices of all hunk headers, in ascending order.
pub proof fn hunk_positions_are_the_hunk_headers<T>(rows: Seq<RowView<T>>)
    ensures
        forall|k: int|
            0 <= k < hunk_positions(rows).len() ==> 0 <= #[trigger] hunk_positions(rows)[k]
                < rows.len() && rows[hunk_positions(rows)[k]] is HunkHeader,
        forall|j: int, k: int|
            0 <= j < k < hunk_positions(rows).len() ==> hunk_positions(rows)[j] < hunk_positions(
                rows,
            )[k],
        forall|i: int|
            0 <= i < rows.len() && (#[trigger] rows[i]) is HunkHeader ==> hunk_positions(
                rows,
            ).contains(i),
    decreases rows.len(),
{
    if rows.len() > 0 {
        let shorter = hunk_positions(rows.drop_last());
        let all = hunk_positions(rows);
        hunk_positions_are_the_hunk_headers(rows.drop_last());
        assert forall|k: int| 0 <= k < all.len() implies 0 <= #[trigger] all[k] < rows.len()
            && rows[all[k]] is HunkHeader by {
            if k < shorter.len() {
                assert(all[k] == shorter[k]);
                assert(rows.drop_last()[shorter[k]] == rows[shorter[k]]);
            }
        }
        assert forall|i: int| 0 <= i < rows.len() && (#[trigger] rows[i]) is HunkHeader implies all.contains(
            i,
        ) by {
            if i < rows.len() - 1 {
                assert(rows.drop_last()[i] is HunkHeader);
                let k = choose|k: int| 0 <= k < shorter.len() && shorter[k] == i;
                assert(all[k] == i);
            } else {
                assert(all[all.len() - 1] == i);
            }
        }
    }
}

/// Positions in a longer list of rows: those of the first part, then those of
/// the second part, moved along.
proof fn lemma_file_positions_append<T>(a: Seq<RowView<T>>, b: Seq<RowView<T>>)
    ensures
        file_positions(a + b) == file_positions(a) + file_positions(b).map_values(
            |p: int| p + a.len(),
        ),
    decreases b.len(),
{
    if b.len() == 0 {
        assert(a + b =~= a);
    } else {
        assert((a + b).drop_last() =~= a + b.drop_last());
        assert((a + b).last() == b.last());
        lemma_file_positions_append(a, b.drop_last());
        assert(file_positions(a + b) =~= file_positions(a) + file_positions(b).map_values(
            |p: int| p + a.len(),
        ));
    }
}

proof fn lemma_no_file_header<T>(rows: Seq<RowView<T>>)
    requires
        forall|i: int| 0 <= i < rows.len() ==> !((#[trigger] rows[i]) is FileHeader),
    ensures
        file_positions(rows) == Seq::<int>::empty(),
    decreases rows.len(),
{
    if rows.len() > 0 {
        assert forall|i: int| 0 <= i < rows.drop_last().len() implies !((
        #[trigger] rows.drop_last()[i]) is FileHeader) by {
            assert(rows.drop_last()[i] == rows[i]);
        }
        lemma_no_file_header(rows.drop_last());
    }
}

proof fn lemma_hunk_blocks_kind<T>(hunks: Seq<HunkView<T>>, mode: ViewMode)
    ensures
        forall|i: int|
            0 <= i < hunk_blocks(hunks, mode).len() ==> !((#[trigger] hunk_blocks(
                hunks,
                mode,
            )[i]) is FileHeader),
    decreases hunks.len(),
{
    if hunks.len() > 0 {
        lemma_hunk_blocks_kind(hunks.drop_last(), mode);
        let last = hunks.last();
        crate::rows::lemma_split_rows_are_lines(last.rows, hunk_spans(last.highlights, last.rows), 0);
        assert forall|i: int| 0 <= i < hunk_block(last, mode).len() implies !((
        #[trigger] hunk_block(last, mode)[i]) is FileHeader) by {}
    }
}

proof fn lemma_file_block_positions<T>(file: FileView<T>, mode: ViewMode)
    ensures
        file_positions(file_block(file, mode)) == seq![0int],
{
    let head = seq![file_header(file)];
    let rest = if file.status == FileStatus::Binary {
        seq![RowView::Binary]
    } else {
        hunk_blocks(file.hunks, mode)
    };
    lemma_hunk_blocks_kind(file.hunks, mode);
    lemma_no_file_header(rest);
    assert(head.drop_last() =~= seq![]);
    assert(file_positions(head.drop_last()) =~= seq![]);
    assert(file_positions(head) =~= seq![0int]);
    lemma_file_positions_append(head, rest);
    assert(file_positions(file_block(file, mode)) =~= seq![0int]);
}

/// Every file has exactly one header: the `k`-th file position is the row of the
/// header of the `k`-th file.
pub proof fn each_file_has_its_header<T>(files: Seq<FileView<T>>, mode: ViewMode)
    ensures
        file_positions(layout(files, mode)).len() == files.len(),
        forall|k: int|
            0 <= k < files.len() ==> 0 <= #[trigger] file_positions(layout(files, mode))[k]
                < layout(files, mode).len() && layout(files, mode)[file_positions(
                layout(files, mode),
            )[k]] == file_header(files[k]),
    decreases files.len(),
{
    if files.len() == 0 {
    } else if files.len() == 1 {
        lemma_file_block_positions(files[0], mode);
    } else {
        let fewer = files.drop_last();
        let before = layout(fewer, mode);
        let gap = seq![RowView::<T>::Spacer];
        let block = file_block(files.last(), mode);
        each_file_has_its_header(fewer, mode);
        lemma_no_file_header(gap);
        lemma_file_positions_append(before, gap);
        lemma_file_block_positions(files.last(), mode);
        lemma_file_positions_append(before + gap, block);
        let all = layout(files, mode);
        assert(all == before + gap + block);
        assert(file_positions(before + gap) =~= file_positions(before));
        assert(file_positions(all) =~= file_positions(before).push((before.len() + 1) as int));
        assert forall|k: int| 0 <= k < files.len() implies 0 <= #[trigger] file_positions(all)[k]
            < all.len() && all[file_positions(all)[k]] == file_header(files[k]) by {
            if k < fewer.len() {
                assert(file_positions(all)[k] == file_positions(before)[k]);
                assert(fewer[k] == files[k]);
            } else {
                assert(all[(before.len() + 1) as int] == block[0]);
            }
        }
    }
}

/// A diff has no rows only if it has no files.
pub proof fn rows_are_empty_only_without_files<T>(files: Seq<FileView<T>>, mode: ViewMode)
    ensures
        layout(files, mode).len() == 0 <==> files.len() == 0,
{
}

// --- What is shown on each side --------------------------------------------

/// The cell that a row shows on the old (left) or on the new (right) side.
pub open spec fn shown_on<T>(row: RowView<T>, old: bool) -> Option<CellView<T>> {
    match row {
        RowView::Line { old_no, new_no, kind, text, intra, syntax } => {
            match if old {
                old_no
            } else {
                new_no
            } {
                Some(no) => Some(CellView { no, kind, text, intra, syntax }),
                None => None,
            }
        },
        RowView::SplitLine { left, right } => if old {
            left
        } else {
            right
        },
        _ => None,
    }
}

/// All that the rows show on one side, from top to bottom.
pub open spec fn column<T>(rows: Seq<RowView<T>>, old: bool) -> Seq<CellView<T>>
    decreases rows.len(),
{
    if rows.len() == 0 {
        seq![]
    } else {
        let above = column(rows.drop_last(), old);
        match shown_on(rows.last(), old) {
            Some(cell) => above.push(cell),
            None => above,
        }
    }
}

/// The lines of one side of a hunk, up to line `n`.
pub open spec fn side_cells<T>(
    rows: Seq<DiffRowView>,
    spans: Seq<Seq<(Range<usize>, T)>>,
    n: int,
    old: bool,
) -> Seq<CellView<T>>
    decreases n,
{
    if n <= 0 {
        seq![]
    } else {
        let above = side_cells(rows, spans, n - 1, old);
        if on_side(rows[n - 1], old) {
            above.push(side_cell(rows[n - 1], spans[n - 1], old))
        } else {
            above
        }
    }
}

proof fn lemma_column_append<T>(a: Seq<RowView<T>>, b: Seq<RowView<T>>, old: bool)
    ensures
        column(a + b, old) == column(a, old) + column(b, old),
    decreases b.len(),
{
    if b.len() == 0 {
        assert(a + b =~= a);
    } else {
        assert((a + b).drop_last() =~= a + b.drop_last());
        lemma_column_append(a, b.drop_last(), old);
        assert(column(a + b, old) =~= column(a, old) + column(b, old));
    }
}

proof fn lemma_unified_column<T>(
    rows: Seq<DiffRowView>,
    spans: Seq<Seq<(Range<usize>, T)>>,
    n: int,
    old: bool,
)
    requires
        0 <= n <= rows.len(),
    ensures
        column(unified_rows(rows, spans).take(n), old) == side_cells(rows, spans, n, old),
    decreases n,
{
    if n > 0 {
        lemma_unified_column(rows, spans, n - 1, old);
        let shown = unified_rows(rows, spans).take(n);
        assert(shown.drop_last() =~= unified_rows(rows, spans).take(n - 1));
    }
}

/// A run of removed lines and the run of added lines after it, paired up to pair
/// `n`: the left column holds the removed lines, the right column the added ones.
proof fn lemma_paired_column<T>(
    rows: Seq<DiffRowView>,
    spans: Seq<Seq<(Range<usize>, T)>>,
    start: int,
    mid: int,
    end: int,
    n: int,
)
    requires
        0 <= start <= mid <= end <= rows.len(),
        0 <= n <= paired_rows(rows, spans, start, mid, end).len(),
        forall|k: int| start <= k < mid ==> rows[k] is Removed,
        forall|k: int| mid <= k < end ==> rows[k] is Added,
    ensures
        side_cells(rows, spans, start, true) + column(
            paired_rows(rows, spans, start, mid, end).take(n),
            true,
        ) == side_cells(
            rows,
            spans,
            if start + n <= mid {
                start + n
            } else {
                mid
            },
            true,
        ),
        side_cells(rows, spans, mid, false) + column(
            paired_rows(rows, spans, start, mid, end).take(n),
            false,
        ) == side_cells(
            rows,
            spans,
            if mid + n <= end {
                mid + n
            } else {
                end
            },
            false,
        ),
    decreases n,
{
    let pairs = paired_rows(rows, spans, start, mid, end);
    if n == 0 {
        assert(pairs.take(0) =~= seq![]);
        assert(side_cells(rows, spans, start, true) + seq![] =~= side_cells(
            rows,
            spans,
            start,
            true,
        ));
        assert(side_cells(rows, spans, mid, false) + seq![] =~= side_cells(rows, spans, mid, false));
    } else {
        lemma_paired_column(rows, spans, start, mid, end, n - 1);
        assert(pairs.take(n).drop_last() =~= pairs.take(n - 1));
        assert(pairs.take(n).last() == pairs[n - 1]);
        let above_old = column(pairs.take(n - 1), true);
        let above_new = column(pairs.take(n - 1), false);
        if start + n <= mid {
            let cell = side_cell(rows[start + n - 1], spans[start + n - 1], true);
            assert(column(pairs.take(n), true) == above_old.push(cell));
            assert(side_cells(rows, spans, start, true) + above_old.push(cell) =~= (side_cells(
                rows,
                spans,
                start,
                true,
            ) + above_old).push(cell));
        }
        if mid + n <= end {
            let cell = side_cell(rows[mid + n - 1], spans[mid + n - 1], false);
            assert(column(pairs.take(n), false) == above_new.push(cell));
            assert(side_cells(rows, spans, mid, false) + above_new.push(cell) =~= (side_cells(
                rows,
                spans,
                mid,
                false,
            ) + above_new).push(cell));
        }
    }
}

/// Removed lines are not on the new side, added lines not on the old side.
proof fn lemma_side_cells_skip<T>(
    rows: Seq<DiffRowView>,
    spans: Seq<Seq<(Range<usize>, T)>>,
    from: int,
    to: int,
    old: bool,
)
    requires
        0 <= from <= to <= rows.len(),
        forall|k: int| from <= k < to ==> !on_side(#[trigger] rows[k], old),
    ensures
        side_cells(rows, spans, to, old) == side_cells(rows, spans, from, old),
    decreases to - from,
{
    if from < to {
        lemma_side_cells_skip(rows, spans, from, to - 1, old);
    }
}

proof fn lemma_split_column<T>(
    rows: Seq<DiffRowView>,
    spans: Seq<Seq<(Range<usize>, T)>>,
    i: int,
    old: bool,
)
    requires
        0 <= i <= rows.len(),
    ensures
        side_cells(rows, spans, i, old) + column(split_rows(rows, spans, i), old) == side_cells(
            rows,
            spans,
            rows.len() as int,
            old,
        ),
    decreases rows.len() - i,
{
    let above = side_cells(rows, spans, i, old);
    if i == rows.len() {
        assert(above + column(split_rows(rows, spans, i), old) =~= above);
    } else if rows[i] is Removed {
        let mid = removed_end(rows, i);
        let end = added_end(rows, mid);
        crate::rows::lemma_run_ends(rows, i);
        crate::rows::lemma_run_ends(rows, mid);
        let pairs = paired_rows(rows, spans, i, mid, end);
        assert(pairs.take(pairs.len() as int) =~= pairs);
        lemma_paired_column(rows, spans, i, mid, end, pairs.len() as int);
        lemma_side_cells_skip(rows, spans, mid, end, true);
        lemma_side_cells_skip(rows, spans, i, mid, false);
        assert(above + column(pairs, old) == side_cells(rows, spans, end, old));
        let rest = split_rows(rows, spans, end);
        lemma_split_column(rows, spans, end, old);
        lemma_column_append(pairs, rest, old);
        assert(above + (column(pairs, old) + column(rest, old)) =~= (above + column(pairs, old))
            + column(rest, old));
    } else {
        let rest = split_rows(rows, spans, i + 1);
        let row = split_rows(rows, spans, i)[0];
        let first = seq![row];
        assert(split_rows(rows, spans, i) =~= first + rest);
        lemma_split_column(rows, spans, i + 1, old);
        lemma_column_append(first, rest, old);
        assert(first.drop_last() =~= seq![]);
        assert(column(first.drop_last(), old) =~= seq![]);
        assert(above + column(first, old) =~= side_cells(rows, spans, i + 1, old));
        assert(above + (column(first, old) + column(rest, old)) =~= (above + column(first, old))
            + column(rest, old));
    }
}

/// A hunk shows on each side, in order and once each, the lines that the hunk
/// has there: context and removed lines on the old side, context and added lines
/// on the new side. This holds in both views.
pub proof fn hunk_shows_its_sides<T>(hunk: HunkView<T>, mode: ViewMode, old: bool)
    ensures
        column(hunk_block(hunk, mode), old) == side_cells(
            hunk.rows,
            hunk_spans(hunk.highlights, hunk.rows),
            hunk.rows.len() as int,
            old,
        ),
{
    let spans = hunk_spans(hunk.highlights, hunk.rows);
    let lines = match mode {
        ViewMode::Unified => unified_rows(hunk.rows, spans),
        ViewMode::Split => split_rows(hunk.rows, spans, 0),
    };
    let head = seq![RowView::<T>::HunkHeader { label: crate::rows::hunk_label(hunk) }];
    lemma_column_append(head, lines, old);
    assert(head.drop_last() =~= seq![]);
    assert(column(head.drop_last(), old) =~= seq![]);
    assert(head.last() == head[0]);
    assert(column(head, old) =~= seq![]);
    assert(unified_rows(hunk.rows, spans).take(hunk.rows.len() as int) =~= unified_rows(
        hunk.rows,
        spans,
    ));
    lemma_unified_column(hunk.rows, spans, hunk.rows.len() as int, old);
    lemma_split_column(hunk.rows, spans, 0, old);
    assert(side_cells(hunk.rows, spans, 0, old) =~= seq![]);
    assert(seq![] + column(lines, old) =~= column(lines, old));
}

proof fn lemma_hunk_blocks_column<T>(hunks: Seq<HunkView<T>>, old: bool)
    ensures
        column(hunk_blocks(hunks, ViewMode::Unified), old) == column(
            hunk_blocks(hunks, ViewMode::Split),
            old,
        ),
    decreases hunks.len(),
{
    if hunks.len() > 0 {
        lemma_hunk_blocks_column(hunks.drop_last(), old);
        hunk_shows_its_sides(hunks.last(), ViewMode::Unified, old);
        hunk_shows_its_sides(hunks.last(), ViewMode::Split, old);
        lemma_column_append(
            hunk_blocks(hunks.drop_last(), ViewMode::Unified),
            hunk_block(hunks.last(), ViewMode::Unified),
            old,
        );
        lemma_column_append(
            hunk_blocks(hunks.drop_last(), ViewMode::Split),
            hunk_block(hunks.last(), ViewMode::Split),
            old,
        );
    }
}

proof fn lemma_file_block_column<T>(file: FileView<T>, old: bool)
    ensures
        column(file_block(file, ViewMode::Unified), old) == column(
            file_block(file, ViewMode::Split),
            old,
        ),
{
    let head = seq![file_header(file)];
    if file.status != FileStatus::Binary {
        lemma_hunk_blocks_column(file.hunks, old);
        lemma_column_append(head, hunk_blocks(file.hunks, ViewMode::Unified), old);
        lemma_column_append(head, hunk_blocks(file.hunks, ViewMode::Split), old);
    }
}

/// The two views of a diff show the same: on each side the same lines, with the
/// same numbers, texts and highlights, in the same order.
pub proof fn both_views_show_the_same<T>(files: Seq<FileView<T>>, old: bool)
    ensures
        column(layout(files, ViewMode::Unified), old) == column(
            layout(files, ViewMode::Split),
            old,
        ),
    decreases files.len(),
{
    if files.len() == 1 {
        lemma_file_block_column(files[0], old);
    } else if files.len() > 1 {
        let fewer = files.drop_last();
        let gap = seq![RowView::<T>::Spacer];
        both_views_show_the_same(fewer, old);
        lemma_file_block_column(files.last(), old);
        lemma_column_append(layout(fewer, ViewMode::Unified), gap, old);
        lemma_column_append(layout(fewer, ViewMode::Split), gap, old);
        lemma_column_append(
            layout(fewer, ViewMode::Unified) + gap,
            file_block(files.last(), ViewMode::Unified),
            old,
        );
        lemma_column_append(
            layout(fewer, ViewMode::Split) + gap,
            file_block(files.last(), ViewMode::Split),
            old,
        );
    }
}

// --- The widest line -------------------------------------------------------

/// The widest line is determined by the rows.
pub proof fn widest_is_unique<T>(
    rows: Seq<RowView<T>>,
    ix1: int,
    chars1: nat,
    ix2: int,
    chars2: nat,
)
    requires
        is_widest(rows, ix1, chars1),
        is_widest(rows, ix2, chars2),
    ensures
        ix1 == ix2,
        chars1 == chars2,
{
    if chars1 > 0 {
        assert(row_chars(rows[ix1]) <= chars2);
    }
    if chars2 > 0 {
        assert(row_chars(rows[ix2]) <= chars1);
    }
    if chars1 > 0 && chars2 > 0 {
        if ix1 < ix2 {
            assert(row_chars(rows[ix1]) < chars2);
        } else if ix2 < ix1 {
            assert(row_chars(rows[ix2]) < chars1);
        }
    }
}

// --- The lines of a hunk, side by side -------------------------------------

/// Whether a cell shows a line on the old (left) or on the new (right) side: with
/// the number that the line has there, its kind, its text, the ranges of its changed
/// words and its tokens.
pub open spec fn is_cell_of<T>(
    cell: CellView<T>,
    line: DiffRowView,
    tokens: Seq<(Range<usize>, T)>,
    old: bool,
) -> bool {
    &&& cell.syntax == tokens
    &&& match line {
        DiffRowView::Context { old_no, new_no, text } => {
            &&& cell.no == if old {
                old_no
            } else {
                new_no
            }
            &&& cell.kind == LineKind::Context
            &&& cell.text == text
            &&& cell.intra.len() == 0
        },
        DiffRowView::Added { new_no, text, intra } => {
            &&& !old
            &&& cell.no == new_no
            &&& cell.kind == LineKind::Added
            &&& cell.text == text
            &&& cell.intra == intra
        },
        DiffRowView::Removed { old_no, text, intra } => {
            &&& old
            &&& cell.no == old_no
            &&& cell.kind == LineKind::Removed
            &&& cell.text == text
            &&& cell.intra == intra
        },
    }
}

/// Whether a row shows line `left` of the hunk on its left and line `right` on its
/// right, and nothing where there is no such line.
pub open spec fn sets_beside<T>(
    row: RowView<T>,
    rows: Seq<DiffRowView>,
    spans: Seq<Seq<(Range<usize>, T)>>,
    left: Option<int>,
    right: Option<int>,
) -> bool {
    match row {
        RowView::SplitLine { left: l, right: r } => {
            &&& match (l, left) {
                (Some(cell), Some(i)) => is_cell_of(cell, rows[i], spans[i], true),
                (None, None) => true,
                _ => false,
            }
            &&& match (r, right) {
                (Some(cell), Some(i)) => is_cell_of(cell, rows[i], spans[i], false),
                (None, None) => true,
                _ => false,
            }
        },
        _ => false,
    }
}

/// Whether no run of changes goes across the place before line `at`: a context line
/// stands on one side of it, or an added line before and a removed line after it.
pub open spec fn is_break(rows: Seq<DiffRowView>, at: int) -> bool {
    ||| at == 0
    ||| at == rows.len()
    ||| rows[at - 1] is Context
    ||| rows[at] is Context
    ||| rows[at - 1] is Added && rows[at] is Removed
}

proof fn lemma_run_ends_within(rows: Seq<DiffRowView>, i: int, c: int)
    requires
        0 <= i <= c <= rows.len(),
    ensures
        removed_end(rows, i) <= c ==> removed_end(rows.take(c), i) == removed_end(rows, i),
        added_end(rows, i) <= c ==> added_end(rows.take(c), i) == added_end(rows, i),
    decreases c - i,
{
    crate::rows::lemma_run_ends(rows, i);
    if i < c {
        assert(rows.take(c)[i] == rows[i]);
        lemma_run_ends_within(rows, i + 1, c);
    }
}

proof fn lemma_run_ends_after(rows: Seq<DiffRowView>, c: int, i: int)
    requires
        0 <= c,
        0 <= i,
        c + i <= rows.len(),
    ensures
        removed_end(rows.skip(c), i) + c == removed_end(rows, c + i),
        added_end(rows.skip(c), i) + c == added_end(rows, c + i),
    decreases rows.len() - c - i,
{
    if c + i < rows.len() {
        assert(rows.skip(c)[i] == rows[c + i]);
        lemma_run_ends_after(rows, c, i + 1);
    }
}

/// The rows from a line on depend on the lines from there on only.
proof fn lemma_split_after<T>(
    rows: Seq<DiffRowView>,
    spans: Seq<Seq<(Range<usize>, T)>>,
    c: int,
    i: int,
)
    requires
        0 <= c,
        0 <= i,
        c + i <= rows.len(),
        rows.len() == spans.len(),
    ensures
        split_rows(rows.skip(c), spans.skip(c), i) == split_rows(rows, spans, c + i),
    decreases rows.len() - c - i,
{
    if c + i < rows.len() {
        assert(rows.skip(c)[i] == rows[c + i]);
        assert(spans.skip(c)[i] == spans[c + i]);
        if rows[c + i] is Removed {
            let mid = removed_end(rows, c + i);
            let end = added_end(rows, mid);
            crate::rows::lemma_run_ends(rows, c + i);
            crate::rows::lemma_run_ends(rows, mid);
            lemma_run_ends_after(rows, c, i);
            lemma_run_ends_after(rows, c, mid - c);
            lemma_split_after(rows, spans, c, end - c);
            assert(paired_rows(rows.skip(c), spans.skip(c), i, mid - c, end - c) =~= paired_rows(
                rows,
                spans,
                c + i,
                mid,
                end,
            ));
        } else {
            lemma_split_after(rows, spans, c, i + 1);
        }
    }
}

proof fn lemma_split_before<T>(
    rows: Seq<DiffRowView>,
    spans: Seq<Seq<(Range<usize>, T)>>,
    c: int,
    i: int,
)
    requires
        0 <= i <= c <= rows.len(),
        is_break(rows, c),
        rows.len() == spans.len(),
    ensures
        split_rows(rows.take(c), spans.take(c), i) + split_rows(rows, spans, c) == split_rows(
            rows,
            spans,
            i,
        ),
    decreases c - i,
{
    let (part, tokens) = (rows.take(c), spans.take(c));
    let rest = split_rows(rows, spans, c);
    if i == c {
        assert(split_rows(part, tokens, i) + rest =~= rest);
    } else {
        assert(part[i] == rows[i]);
        assert(tokens[i] == spans[i]);
        if rows[i] is Removed {
            let mid = removed_end(rows, i);
            let end = added_end(rows, mid);
            crate::rows::lemma_run_ends(rows, i);
            crate::rows::lemma_run_ends(rows, mid);
            if mid > c {
                assert(rows[c - 1] is Removed && rows[c] is Removed);
            } else if end > c {
                assert(rows[c] is Added);
                if mid < c {
                    assert(rows[c - 1] is Added);
                } else {
                    assert(rows[c - 1] is Removed);
                }
            }
            lemma_run_ends_within(rows, i, c);
            lemma_run_ends_within(rows, mid, c);
            lemma_split_before(rows, spans, c, end);
            let pairs = paired_rows(rows, spans, i, mid, end);
            assert(paired_rows(part, tokens, i, mid, end) =~= pairs);
            assert(pairs + split_rows(part, tokens, end) + rest =~= pairs + (split_rows(
                part,
                tokens,
                end,
            ) + rest));
        } else {
            lemma_split_before(rows, spans, c, i + 1);
            let first = seq![split_rows(rows, spans, i)[0]];
            assert(split_rows(rows, spans, i) =~= first + split_rows(rows, spans, i + 1));
            assert(split_rows(part, tokens, i) =~= first + split_rows(part, tokens, i + 1));
            assert(first + split_rows(part, tokens, i + 1) + rest =~= first + (split_rows(
                part,
                tokens,
                i + 1,
            ) + rest));
        }
    }
}

/// In the split view, the parts of a hunk on the two sides of a break are shown one
/// below the other, each as it would be alone.
pub proof fn split_view_breaks_between_runs<T>(
    rows: Seq<DiffRowView>,
    spans: Seq<Seq<(Range<usize>, T)>>,
    at: int,
)
    requires
        0 <= at <= rows.len(),
        rows.len() == spans.len(),
        is_break(rows, at),
    ensures
        split_rows(rows, spans, 0) == split_rows(rows.take(at), spans.take(at), 0) + split_rows(
            rows.skip(at),
            spans.skip(at),
            0,
        ),
{
    lemma_split_before(rows, spans, at, 0);
    lemma_split_after(rows, spans, at, 0);
}

proof fn lemma_added_alone<T>(
    rows: Seq<DiffRowView>,
    spans: Seq<Seq<(Range<usize>, T)>>,
    i: int,
)
    requires
        0 <= i <= rows.len(),
        rows.len() == spans.len(),
        forall|k: int| i <= k < rows.len() ==> rows[k] is Added,
    ensures
        split_rows(rows, spans, i).len() == rows.len() - i,
        forall|k: int|
            0 <= k < rows.len() - i ==> sets_beside(
                #[trigger] split_rows(rows, spans, i)[k],
                rows,
                spans,
                None,
                Some(i + k),
            ),
    decreases rows.len() - i,
{
    if i < rows.len() {
        lemma_added_alone(rows, spans, i + 1);
        let rest = split_rows(rows, spans, i + 1);
        let all = split_rows(rows, spans, i);
        assert forall|k: int| 0 <= k < rows.len() - i implies sets_beside(
            #[trigger] all[k],
            rows,
            spans,
            None,
            Some(i + k),
        ) by {
            if k > 0 {
                assert(all[k] == rest[k - 1]);
                assert(sets_beside(rest[k - 1], rows, spans, None, Some((i + 1) + (k - 1))));
            }
        }
    }
}

/// In the split view, some removed lines followed by some added lines are paired by
/// position: row `k` shows the `k`-th removed line on the left and the `k`-th added
/// line on the right. Where one run is longer, the rest of it stands alone.
pub proof fn split_view_pairs_runs<T>(
    rows: Seq<DiffRowView>,
    spans: Seq<Seq<(Range<usize>, T)>>,
    mid: int,
)
    requires
        0 <= mid <= rows.len(),
        rows.len() == spans.len(),
        forall|k: int| 0 <= k < mid ==> rows[k] is Removed,
        forall|k: int| mid <= k < rows.len() ==> rows[k] is Added,
    ensures
        split_rows(rows, spans, 0).len() == if mid >= rows.len() - mid {
            mid
        } else {
            rows.len() - mid
        },
        forall|k: int|
            0 <= k < split_rows(rows, spans, 0).len() ==> sets_beside(
                #[trigger] split_rows(rows, spans, 0)[k],
                rows,
                spans,
                if k < mid {
                    Some(k)
                } else {
                    None
                },
                if k < rows.len() - mid {
                    Some(mid + k)
                } else {
                    None
                },
            ),
{
    let shown = split_rows(rows, spans, 0);
    let n = rows.len() as int;
    if mid == 0 {
        lemma_added_alone(rows, spans, 0);
        assert forall|k: int| 0 <= k < shown.len() implies sets_beside(
            #[trigger] shown[k],
            rows,
            spans,
            if k < mid {
                Some(k)
            } else {
                None
            },
            if k < n - mid {
                Some(mid + k)
            } else {
                None
            },
        ) by {
            assert(sets_beside(shown[k], rows, spans, None, Some(0 + k)));
        }
    } else {
        lemma_removed_end_is(rows, 0, mid);
        lemma_added_end_is(rows, mid, n);
        assert(split_rows(rows, spans, n) =~= seq![]);
        assert(shown =~= paired_rows(rows, spans, 0, mid, n));
    }
}

proof fn lemma_removed_end_is(rows: Seq<DiffRowView>, i: int, end: int)
    requires
        0 <= i <= end <= rows.len(),
        forall|k: int| i <= k < end ==> rows[k] is Removed,
        end < rows.len() ==> !(rows[end] is Removed),
    ensures
        removed_end(rows, i) == end,
    decreases end - i,
{
    if i < end {
        lemma_removed_end_is(rows, i + 1, end);
    }
}

proof fn lemma_added_end_is(rows: Seq<DiffRowView>, i: int, end: int)
    requires
        0 <= i <= end <= rows.len(),
        forall|k: int| i <= k < end ==> rows[k] is Added,
        end < rows.len() ==> !(rows[end] is Added),
    ensures
        added_end(rows, i) == end,
    decreases end - i,
{
    if i < end {
        lemma_added_end_is(rows, i + 1, end);
    }
}

/// The rows of a hunk are its header and then its lines. The lines between two
/// breaks `from` and `to` are shown together: after the header and after the lines
/// above them, before the lines below them.
proof fn lemma_part_of_block<T>(hunk: HunkView<T>, from: int, to: int) -> (at: int)
    requires
        0 <= from <= to <= hunk.rows.len(),
        is_break(hunk.rows, from),
        is_break(hunk.rows, to),
    ensures
        at >= 1,
        ({
            let spans = hunk_spans(hunk.highlights, hunk.rows);
            let part = split_rows(hunk.rows.subrange(from, to), spans.subrange(from, to), 0);
            &&& at + part.len() <= hunk_block(hunk, ViewMode::Split).len()
            &&& forall|k: int|
                0 <= k < part.len() ==> #[trigger] part[k] == hunk_block(
                    hunk,
                    ViewMode::Split,
                )[at + k]
        }),
{
    let rows = hunk.rows;
    let spans = hunk_spans(hunk.highlights, rows);
    let all = split_rows(rows, spans, 0);
    let (below, tokens) = (rows.skip(from), spans.skip(from));
    split_view_breaks_between_runs(rows, spans, from);
    assert(is_break(below, to - from)) by {
        if from < to < rows.len() {
            assert(below[to - from - 1] == rows[to - 1]);
            assert(below[to - from] == rows[to]);
        }
    }
    split_view_breaks_between_runs(below, tokens, to - from);
    assert(below.take(to - from) =~= rows.subrange(from, to));
    assert(tokens.take(to - from) =~= spans.subrange(from, to));
    let above = split_rows(rows.take(from), spans.take(from), 0);
    let part = split_rows(rows.subrange(from, to), spans.subrange(from, to), 0);
    let block = hunk_block(hunk, ViewMode::Split);
    let at = 1 + above.len() as int;
    assert forall|k: int| 0 <= k < part.len() implies #[trigger] part[k] == block[at + k] by {
        assert(block[at + k] == all[above.len() + k]);
    }
    at
}

proof fn lemma_beside_in_part<T>(
    row: RowView<T>,
    rows: Seq<DiffRowView>,
    spans: Seq<Seq<(Range<usize>, T)>>,
    from: int,
    to: int,
    left: Option<int>,
    right: Option<int>,
)
    requires
        0 <= from <= to <= rows.len(),
        rows.len() == spans.len(),
        sets_beside(row, rows.subrange(from, to), spans.subrange(from, to), left, right),
        left matches Some(i) ==> 0 <= i < to - from,
        right matches Some(i) ==> 0 <= i < to - from,
    ensures
        sets_beside(
            row,
            rows,
            spans,
            match left {
                Some(i) => Some(from + i),
                None => None,
            },
            match right {
                Some(i) => Some(from + i),
                None => None,
            },
        ),
{
}

/// In the split view of a hunk, a run of removed lines `start..mid` and the run of
/// added lines `mid..end` after it are paired by position: there are as many rows,
/// one below the other, as the longer run has lines, and the `k`-th of them shows
/// the `k`-th removed line on its left and the `k`-th added line on its right, and
/// nothing where the run has no such line. Either run may be empty. The proof gives
/// the first of these rows.
pub proof fn changes_are_paired_by_position<T>(
    hunk: HunkView<T>,
    start: int,
    mid: int,
    end: int,
) -> (at: int)
    requires
        0 <= start <= mid <= end <= hunk.rows.len(),
        start < end,
        forall|k: int| start <= k < mid ==> hunk.rows[k] is Removed,
        forall|k: int| mid <= k < end ==> hunk.rows[k] is Added,
        start > 0 ==> if start < mid {
            !(hunk.rows[start - 1] is Removed)
        } else {
            hunk.rows[start - 1] is Context
        },
        mid < hunk.rows.len() ==> !(hunk.rows[mid] is Removed),
        end < hunk.rows.len() ==> !(hunk.rows[end] is Added),
    ensures
        at >= 1,
        forall|k: int|
            0 <= k && (k < mid - start || k < end - mid) ==> {
                &&& at + k < hunk_block(hunk, ViewMode::Split).len()
                &&& sets_beside(
                    #[trigger] hunk_block(hunk, ViewMode::Split)[at + k],
                    hunk.rows,
                    hunk_spans(hunk.highlights, hunk.rows),
                    if k < mid - start {
                        Some(start + k)
                    } else {
                        None
                    },
                    if k < end - mid {
                        Some(mid + k)
                    } else {
                        None
                    },
                )
            },
{
    let rows = hunk.rows;
    let spans = hunk_spans(hunk.highlights, rows);
    let (lines, tokens) = (rows.subrange(start, end), spans.subrange(start, end));
    let at = lemma_part_of_block(hunk, start, end);
    split_view_pairs_runs(lines, tokens, mid - start);
    let part = split_rows(lines, tokens, 0);
    let block = hunk_block(hunk, ViewMode::Split);
    assert forall|k: int| 0 <= k && (k < mid - start || k < end - mid) implies {
        &&& at + k < block.len()
        &&& sets_beside(
            #[trigger] block[at + k],
            rows,
            spans,
            if k < mid - start {
                Some(start + k)
            } else {
                None
            },
            if k < end - mid {
                Some(mid + k)
            } else {
                None
            },
        )
    } by {
        assert(part[k] == block[at + k]);
        let left = if k < mid - start {
            Some(k)
        } else {
            None
        };
        let right = if k < lines.len() - (mid - start) {
            Some((mid - start) + k)
        } else {
            None
        };
        lemma_beside_in_part(part[k], rows, spans, start, end, left, right);
    }
    at
}

/// In the split view of a hunk, a context line stands in one row on both sides. The
/// proof gives the row.
pub proof fn context_stands_on_both_sides<T>(hunk: HunkView<T>, i: int) -> (at: int)
    requires
        0 <= i < hunk.rows.len(),
        hunk.rows[i] is Context,
    ensures
        1 <= at < hunk_block(hunk, ViewMode::Split).len(),
        sets_beside(
            hunk_block(hunk, ViewMode::Split)[at],
            hunk.rows,
            hunk_spans(hunk.highlights, hunk.rows),
            Some(i),
            Some(i),
        ),
{
    let rows = hunk.rows;
    let spans = hunk_spans(hunk.highlights, rows);
    let (lines, tokens) = (rows.subrange(i, i + 1), spans.subrange(i, i + 1));
    let at = lemma_part_of_block(hunk, i, i + 1);
    let part = split_rows(lines, tokens, 0);
    assert(lines[0] == rows[i] && tokens[0] == spans[i]);
    assert(split_rows(lines, tokens, 1) =~= seq![]);
    assert(part.len() == 1);
    assert(part[0] == hunk_block(hunk, ViewMode::Split)[at + 0]);
    at
}

proof fn lemma_split_rows_show_lines<T>(
    rows: Seq<DiffRowView>,
    spans: Seq<Seq<(Range<usize>, T)>>,
    i: int,
)
    requires
        0 <= i,
    ensures
        forall|k: int|
            0 <= k < split_rows(rows, spans, i).len() ==> ((#[trigger] split_rows(
                rows,
                spans,
                i,
            )[k]) matches RowView::SplitLine { left, right } && (left is Some || right is Some)),
    decreases rows.len() - i,
{
    if i < rows.len() {
        if rows[i] is Removed {
            let mid = removed_end(rows, i);
            let end = added_end(rows, mid);
            crate::rows::lemma_run_ends(rows, i);
            crate::rows::lemma_run_ends(rows, mid);
            lemma_split_rows_show_lines(rows, spans, end);
        } else {
            lemma_split_rows_show_lines(rows, spans, i + 1);
        }
    }
}

/// In the split view of a hunk, each row below the header shows a line on one of its
/// sides at least.
pub proof fn no_split_row_is_empty<T>(hunk: HunkView<T>, at: int)
    requires
        1 <= at < hunk_block(hunk, ViewMode::Split).len(),
    ensures
        hunk_block(hunk, ViewMode::Split)[at] matches RowView::SplitLine { left, right } && (
        left is Some || right is Some),
{
    let spans = hunk_spans(hunk.highlights, hunk.rows);
    lemma_split_rows_show_lines(hunk.rows, spans, 0);
    assert(hunk_block(hunk, ViewMode::Split)[at] == split_rows(hunk.rows, spans, 0)[at - 1]);
}

/// The unified view of a hunk has one row for each line, in order, below the header:
/// with the numbers that the line has on the two sides, its kind, its text, the
/// ranges of its changed words and its tokens.
pub proof fn unified_view_shows_each_line<T>(hunk: HunkView<T>, i: int)
    requires
        0 <= i < hunk.rows.len(),
    ensures
        hunk_block(hunk, ViewMode::Unified).len() == hunk.rows.len() + 1,
        hunk_block(hunk, ViewMode::Unified)[i + 1] matches RowView::Line {
            old_no,
            new_no,
            kind,
            text,
            intra,
            syntax,
        } && syntax == hunk_spans(hunk.highlights, hunk.rows)[i] && match hunk.rows[i] {
            DiffRowView::Context { old_no: o, new_no: n, text: t } => {
                &&& old_no == Some(o)
                &&& new_no == Some(n)
                &&& kind == LineKind::Context
                &&& text == t
                &&& intra.len() == 0
            },
            DiffRowView::Added { new_no: n, text: t, intra: w } => {
                &&& old_no is None
                &&& new_no == Some(n)
                &&& kind == LineKind::Added
                &&& text == t
                &&& intra == w
            },
            DiffRowView::Removed { old_no: o, text: t, intra: w } => {
                &&& old_no == Some(o)
                &&& new_no is None
                &&& kind == LineKind::Removed
                &&& text == t
                &&& intra == w
            },
        },
{
}

// --- How the rows are put together -----------------------------------------

/// A hunk is shown as its header and then its lines, as the view lays them out. The
/// label of the header tells the two ranges as a patch does, in decimal, and then the
/// section if there is one.
pub proof fn a_hunk_is_its_header_and_its_lines<T>(
    hunk: HunkView<T>,
    old_start: Seq<char>,
    old_count: Seq<char>,
    new_start: Seq<char>,
    new_count: Seq<char>,
)
    requires
        spells(old_start, hunk.old_start as nat),
        spells(old_count, hunk.old_count as nat),
        spells(new_start, hunk.new_start as nat),
        spells(new_count, hunk.new_count as nat),
    ensures
        hunk_block(hunk, ViewMode::Unified).len() == hunk.rows.len() + 1,
        hunk_block(hunk, ViewMode::Unified).skip(1) == unified_rows(
            hunk.rows,
            hunk_spans(hunk.highlights, hunk.rows),
        ),
        hunk_block(hunk, ViewMode::Split).skip(1) == split_rows(
            hunk.rows,
            hunk_spans(hunk.highlights, hunk.rows),
            0,
        ),
        forall|mode: ViewMode|
            ({
                let range = seq!['@', '@', ' ', '-'] + old_start + seq![','] + old_count + seq![
                    ' ',
                    '+',
                ] + new_start + seq![','] + new_count + seq![' ', '@', '@'];
                &&& (#[trigger] hunk_block(hunk, mode)).len() >= 1
                &&& hunk_block(hunk, mode)[0] == (RowView::<T>::HunkHeader {
                    label: if hunk.section.len() == 0 {
                        range
                    } else {
                        range + seq![' '] + hunk.section
                    },
                })
            }),
{
    crate::text::spelling_is_unique(old_start, hunk.old_start as nat);
    crate::text::spelling_is_unique(old_count, hunk.old_count as nat);
    crate::text::spelling_is_unique(new_start, hunk.new_start as nat);
    crate::text::spelling_is_unique(new_count, hunk.new_count as nat);
    reveal_strlit("@@ -");
    reveal_strlit(",");
    reveal_strlit(" +");
    reveal_strlit(" @@");
    reveal_strlit(" ");
    assert("@@ -"@ =~= seq!['@', '@', ' ', '-']);
    assert(","@ =~= seq![',']);
    assert(" +"@ =~= seq![' ', '+']);
    assert(" @@"@ =~= seq![' ', '@', '@']);
    assert(" "@ =~= seq![' ']);
    let spans = hunk_spans(hunk.highlights, hunk.rows);
    assert(hunk_block(hunk, ViewMode::Unified).skip(1) =~= unified_rows(hunk.rows, spans));
    assert(hunk_block(hunk, ViewMode::Split).skip(1) =~= split_rows(hunk.rows, spans, 0));
}

/// One file is shown as its header and then its hunks, one below the other. The
/// header tells the path, the status and the counts, and the old path of a renamed
/// file only. A binary file shows a note in place of its hunks.
pub proof fn a_file_is_its_header_and_its_hunks<T>(file: FileView<T>, mode: ViewMode)
    ensures
        layout(seq![file], mode).len() >= 1,
        layout(seq![file], mode)[0] matches RowView::FileHeader {
            path,
            old_path,
            status,
            additions,
            deletions,
        } && {
            &&& path == file.display_path
            &&& status == file.status
            &&& additions == file.additions
            &&& deletions == file.deletions
            &&& match old_path {
                Some(old) => file.status is Renamed && file.old_path == Some(old),
                None => !(file.status is Renamed) || file.old_path is None,
            }
        },
        file.status is Binary ==> layout(seq![file], mode).skip(1) == seq![RowView::<T>::Binary],
        !(file.status is Binary) && file.hunks.len() == 0 ==> layout(seq![file], mode).len() == 1,
        !(file.status is Binary) && file.hunks.len() > 0 ==> layout(seq![file], mode) == layout(
            seq![FileView { hunks: file.hunks.drop_last(), ..file }],
            mode,
        ) + hunk_block(file.hunks.last(), mode),
        layout(Seq::<FileView<T>>::empty(), mode).len() == 0,
{
    let one = seq![file];
    assert(one[0] == file);
    assert(layout(one, mode) == file_block(file, mode));
    if file.status == FileStatus::Binary {
        assert(layout(one, mode).skip(1) =~= seq![RowView::<T>::Binary]);
    } else if file.hunks.len() > 0 {
        let fewer = FileView { hunks: file.hunks.drop_last(), ..file };
        assert(seq![fewer][0] == fewer);
        assert(layout(seq![fewer], mode) == file_block(fewer, mode));
        assert(file_header(fewer) == file_header(file));
        assert(layout(one, mode) =~= layout(seq![fewer], mode) + hunk_block(
            file.hunks.last(),
            mode,
        ));
    }
}

/// Files are shown one below the other with a spacer between each two: the rows of
/// two diffs together are the rows of the first, a spacer, and the rows of the
/// second.
pub proof fn files_are_set_apart<T>(a: Seq<FileView<T>>, b: Seq<FileView<T>>, mode: ViewMode)
    requires
        a.len() > 0,
        b.len() > 0,
    ensures
        layout(a + b, mode) == layout(a, mode) + seq![RowView::<T>::Spacer] + layout(b, mode),
    decreases b.len(),
{
    let gap = seq![RowView::<T>::Spacer];
    assert((a + b).drop_last() =~= a + b.drop_last());
    assert((a + b).last() == b.last());
    if b.len() == 1 {
        assert(a + b.drop_last() =~= a);
        assert(b.last() == b[0]);
    } else {
        files_are_set_apart(a, b.drop_last(), mode);
        assert(layout(a + b, mode) =~= layout(a, mode) + gap + layout(b, mode));
    }
}

/// The model of a row holds all that the row shows.
pub proof fn model_of_a_row<T>(row: Row<T>)
    ensures
        match row {
            Row::Spacer => row@ is Spacer,
            Row::FileHeader { path, old_path, status, additions, deletions } => {
                &&& row@ matches RowView::FileHeader {
                    path: p,
                    old_path: o,
                    status: s,
                    additions: a,
                    deletions: d,
                }
                &&& p == path@
                &&& match (o, old_path) {
                    (Some(model), Some(old)) => model == old@,
                    (None, None) => true,
                    _ => false,
                }
                &&& s == status
                &&& a == additions
                &&& d == deletions
            },
            Row::HunkHeader { label } => row@ == (RowView::<T>::HunkHeader { label: label@ }),
            Row::Binary => row@ is Binary,
            Row::Line { old_no, new_no, kind, text, intra, syntax } => row@ == (RowView::Line {
                old_no,
                new_no,
                kind,
                text: text@,
                intra: intra@,
                syntax: syntax@,
            }),
            Row::SplitLine { left, right } => {
                &&& row@ matches RowView::SplitLine { left: l, right: r }
                &&& is_model_of_cell(l, left)
                &&& is_model_of_cell(r, right)
            },
        },
{
}

/// Whether a model of a cell holds all that the cell shows.
pub open spec fn is_model_of_cell<T>(model: Option<CellView<T>>, cell: Option<Cell<T>>) -> bool {
    match (model, cell) {
        (Some(model), Some(cell)) => {
            &&& model.no == cell.no
            &&& model.kind == cell.kind
            &&& model.text == cell.text@
            &&& model.intra == cell.intra@
            &&& model.syntax == cell.syntax@
        },
        (None, None) => true,
        _ => false,
    }
}

/// The models of rows are the models of the rows one by one; indices as integers are
/// the same numbers.
pub proof fn models_of_rows<T>(rows: Seq<Row<T>>, ixs: Seq<usize>)
    ensures
        row_views(rows).len() == rows.len(),
        forall|i: int| 0 <= i < rows.len() ==> #[trigger] row_views(rows)[i] == rows[i]@,
        ints(ixs).len() == ixs.len(),
        forall|i: int| 0 <= i < ixs.len() ==> #[trigger] ints(ixs)[i] == ixs[i],
{
}

/// Whether a row shows a text: that of a line, or that of one of two cells.
pub open spec fn shows_text<T>(row: RowView<T>, text: Seq<char>) -> bool {
    match row {
        RowView::Line { text: t, .. } => text == t,
        RowView::SplitLine { left, right } => {
            ||| left matches Some(cell) && cell.text == text
            ||| right matches Some(cell) && cell.text == text
        },
        _ => false,
    }
}

/// The widest line is the first row that shows a longest text: no row shows a longer
/// one, no row above it one as long. Where no row shows any character, it is row 0
/// with length 0.
pub proof fn widest_line_shows_a_longest_text<T>(rows: Seq<RowView<T>>, ix: int, chars: nat)
    requires
        is_widest(rows, ix, chars),
    ensures
        forall|i: int, text: Seq<char>|
            0 <= i < rows.len() && #[trigger] shows_text(rows[i], text) ==> text.len() <= chars,
        forall|i: int, text: Seq<char>|
            0 <= i < ix && #[trigger] shows_text(rows[i], text) ==> text.len() < chars,
        chars == 0 ==> ix == 0,
        chars > 0 ==> 0 <= ix < rows.len() && exists|text: Seq<char>| #[trigger]
            shows_text(rows[ix], text) && text.len() == chars,
{
    assert forall|i: int, text: Seq<char>|
        0 <= i < rows.len() && #[trigger] shows_text(rows[i], text) implies text.len()
        <= row_chars(rows[i]) by {}
    if chars > 0 {
        assert(row_chars(rows[ix]) == chars);
        match rows[ix] {
            RowView::Line { text, .. } => {
                assert(shows_text(rows[ix], text));
            },
            RowView::SplitLine { left, right } => {
                if let Some(cell) = left {
                    assert(shows_text(rows[ix], cell.text));
                }
                if let Some(cell) = right {
                    assert(shows_text(rows[ix], cell.text));
                }
            },
            _ => {},
        }
    }
}

}
