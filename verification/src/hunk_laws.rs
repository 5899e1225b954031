//! What holds of the hunk headers among the display rows.

use crate::diff::{FileStatus, FileView, HunkView};
use crate::highlight::hunk_spans;
use crate::rows::{
    file_block, file_header, hunk_block, hunk_blocks, hunk_label, hunk_positions, layout,
    split_rows, unified_rows, RowView, ViewMode,
};
use vstd::prelude::*;

verus! {

/// The hunks that a diff shows, from top to bottom. A binary file shows none.
pub open spec fn shown_hunks<T>(files: Seq<FileView<T>>) -> Seq<HunkView<T>>
    decreases files.len(),
{
    if files.len() == 0 {
        seq![]
    } else if files.last().status == FileStatus::Binary {
        shown_hunks(files.drop_last())
    } else {
        shown_hunks(files.drop_last()) + files.last().hunks
    }
}

/// The labels of the hunk headers, from top to bottom.
spec fn labels<T>(rows: Seq<RowView<T>>) -> Seq<Seq<char>>
    decreases rows.len(),
{
    if rows.len() == 0 {
        seq![]
    } else {
        match rows.last() {
            RowView::HunkHeader { label } => labels(rows.drop_last()).push(label),
            _ => labels(rows.drop_last()),
        }
    }
}

proof fn lemma_labels_append<T>(a: Seq<RowView<T>>, b: Seq<RowView<T>>)
    ensures
        labels(a + b) == labels(a) + labels(b),
    decreases b.len(),
{
    if b.len() == 0 {
        assert(a + b =~= a);
    } else {
        assert((a + b).drop_last() =~= a + b.drop_last());
        lemma_labels_append(a, b.drop_last());
        assert(labels(a + b) =~= labels(a) + labels(b));
    }
}

proof fn lemma_no_labels<T>(rows: Seq<RowView<T>>)
    requires
        forall|i: int| 0 <= i < rows.len() ==> !((#[trigger] rows[i]) is HunkHeader),
    ensures
        labels(rows) == Seq::<Seq<char>>::empty(),
    decreases rows.len(),
{
    if rows.len() > 0 {
        lemma_no_labels(rows.drop_last());
    }
}

/// The labels stand at the hunk positions.
proof fn lemma_labels_at_positions<T>(rows: Seq<RowView<T>>)
    ensures
        hunk_positions(rows).len() == labels(rows).len(),
        forall|k: int|
            0 <= k < labels(rows).len() ==> 0 <= #[trigger] hunk_positions(rows)[k] < rows.len()
                && rows[hunk_positions(rows)[k]] == (RowView::<T>::HunkHeader { label: labels(rows)[k] }),
    decreases rows.len(),
{
    if rows.len() > 0 {
        let shorter = rows.drop_last();
        lemma_labels_at_positions(shorter);
        assert forall|k: int| 0 <= k < labels(rows).len() implies 0 <= #[trigger] hunk_positions(
            rows,
        )[k] < rows.len() && rows[hunk_positions(rows)[k]] == (RowView::<T>::HunkHeader {
            label: labels(rows)[k],
        }) by {
            if k < labels(shorter).len() {
                assert(hunk_positions(rows)[k] == hunk_positions(shorter)[k]);
                assert(labels(rows)[k] == labels(shorter)[k]);
            }
        }
    }
}

proof fn lemma_hunk_block_labels<T>(hunk: HunkView<T>, mode: ViewMode)
    ensures
        labels(hunk_block(hunk, mode)) == seq![hunk_label(hunk)],
{
    let spans = hunk_spans(hunk.highlights, hunk.rows);
    let head = seq![RowView::<T>::HunkHeader { label: hunk_label(hunk) }];
    let lines = match mode {
        ViewMode::Unified => unified_rows(hunk.rows, spans),
        ViewMode::Split => split_rows(hunk.rows, spans, 0),
    };
    crate::rows::lemma_split_rows_are_lines(hunk.rows, spans, 0);
    lemma_no_labels(lines);
    lemma_no_labels(head.drop_last());
    assert(head.last() == (RowView::<T>::HunkHeader { label: hunk_label(hunk) }));
    assert(labels(head) =~= seq![hunk_label(hunk)]);
    lemma_labels_append(head, lines);
    assert(labels(hunk_block(hunk, mode)) =~= seq![hunk_label(hunk)]);
}

/// The labels of a list of hunks.
spec fn labels_of<T>(hunks: Seq<HunkView<T>>) -> Seq<Seq<char>> {
    hunks.map_values(|hunk: HunkView<T>| hunk_label(hunk))
}

proof fn lemma_hunk_blocks_labels<T>(hunks: Seq<HunkView<T>>, mode: ViewMode)
    ensures
        labels(hunk_blocks(hunks, mode)) == labels_of(hunks),
    decreases hunks.len(),
{
    if hunks.len() > 0 {
        lemma_hunk_blocks_labels(hunks.drop_last(), mode);
        lemma_hunk_block_labels(hunks.last(), mode);
        lemma_labels_append(hunk_blocks(hunks.drop_last(), mode), hunk_block(hunks.last(), mode));
    }
    assert(labels(hunk_blocks(hunks, mode)) =~= labels_of(hunks));
}

proof fn lemma_file_block_labels<T>(file: FileView<T>, mode: ViewMode)
    ensures
        labels(file_block(file, mode)) == if file.status == FileStatus::Binary {
            seq![]
        } else {
            labels_of(file.hunks)
        },
{
    let head = seq![file_header(file)];
    let rest = if file.status == FileStatus::Binary {
        seq![RowView::Binary]
    } else {
        hunk_blocks(file.hunks, mode)
    };
    lemma_no_labels(head);
    if file.status == FileStatus::Binary {
        lemma_no_labels(rest);
    } else {
        lemma_hunk_blocks_labels(file.hunks, mode);
    }
    lemma_labels_append(head, rest);
    assert(labels(file_block(file, mode)) =~= labels(rest));
}

proof fn lemma_layout_labels<T>(files: Seq<FileView<T>>, mode: ViewMode)
    ensures
        labels(layout(files, mode)) == labels_of(shown_hunks(files)),
    decreases files.len(),
{
    if files.len() > 0 {
        let fewer = files.drop_last();
        let before = layout(fewer, mode);
        let block = file_block(files.last(), mode);
        lemma_layout_labels(fewer, mode);
        lemma_file_block_labels(files.last(), mode);
        if files.len() == 1 {
            assert(shown_hunks(fewer) =~= seq![]);
        } else {
            let gap = seq![RowView::<T>::Spacer];
            lemma_no_labels(gap);
            lemma_labels_append(before, gap);
            lemma_labels_append(before + gap, block);
        }
        assert(labels(layout(files, mode)) =~= labels(before) + labels(block));
    }
    assert(labels(layout(files, mode)) =~= labels_of(shown_hunks(files)));
}

/// Every hunk that is shown has exactly one header: the `k`-th hunk position is the
/// row of the header of the `k`-th hunk.
pub proof fn each_hunk_has_its_header<T>(files: Seq<FileView<T>>, mode: ViewMode)
    ensures
        hunk_positions(layout(files, mode)).len() == shown_hunks(files).len(),
        forall|k: int|
            0 <= k < shown_hunks(files).len() ==> 0 <= #[trigger] hunk_positions(
                layout(files, mode),
            )[k] < layout(files, mode).len() && layout(files, mode)[hunk_positions(
                layout(files, mode),
            )[k]] == (RowView::<T>::HunkHeader { label: hunk_label(shown_hunks(files)[k]) }),
{
    lemma_layout_labels(files, mode);
    lemma_labels_at_positions(layout(files, mode));
}

}
