//! What holds over several steps of the viewer.

use crate::collapse::{is_hidden, visible};
use crate::diff::{display_paths, FileView};
use crate::item::{ItemData, Loaded};
use crate::layout_laws::{
    each_file_has_its_header, file_positions_are_the_file_headers, widest_is_unique,
};
use crate::navigate::{ascending, last_not_after, last_not_after_splits};
use crate::rows::{file_block, file_positions, ints, layout, row_views, ViewMode};
use crate::text::{spells, trimmed};
use crate::tree::{entry_views, EntryKindView, EntryView};
use crate::tree_laws::{each_file_is_listed_once, file_count};
use crate::selection::SelSide;
use crate::sidebar::{
    current_file, is_drawable, is_row_of, lists, row_numbers, stands_for, tells_of, FileStats,
    TreeListRow,
};
use crate::viewer::{header_row, is_switched, LoadState, ReviewApp};
use vstd::prelude::*;

verus! {

/// A display starts with the header of its first file.
proof fn lemma_first_header<T>(files: Seq<FileView<T>>, mode: ViewMode)
    requires
        files.len() > 0,
    ensures
        layout(files, mode).len() > 0,
        layout(files, mode)[0] is FileHeader,
    decreases files.len(),
{
    if files.len() == 1 {
        assert(file_block(files[0], mode)[0] is FileHeader);
    } else {
        lemma_first_header(files.drop_last(), mode);
    }
}

/// The rows of the file headers of a well-formed display: one for each file, in
/// ascending order, starting at the first row.
proof fn lemma_file_rows<T>(data: ItemData<T>)
    requires
        data.wf(),
    ensures
        ascending(ints(data.file_rows@)),
        data.file_rows.len() == data.diff@.len(),
        data.diff@.len() > 0 ==> data.file_rows.len() > 0 && data.file_rows@[0] == 0,
        data.diff@.len() == 0 <==> data.rows.len() == 0,
{
    let rows = row_views(data.rows@);
    let files = data.diff@;
    let mode = if data.shows(ViewMode::Unified) {
        ViewMode::Unified
    } else {
        ViewMode::Split
    };
    each_file_has_its_header(files, mode);
    file_positions_are_the_file_headers(rows);
    assert(ints(data.file_rows@).len() == data.file_rows.len());
    if files.len() > 0 {
        lemma_first_header(files, mode);
        assert(file_positions(rows).contains(0));
        assert(ints(data.file_rows@)[0] == data.file_rows@[0]);
    }
}

/// Every row lies in a file: some file is being read wherever the reader is.
pub proof fn each_row_lies_in_a_file<T>(data: ItemData<T>, row: int)
    requires
        data.wf(),
        0 <= row < data.rows.len(),
    ensures
        current_file(data, row) matches Some(file) && 0 <= file < data.diff@.len(),
{
    lemma_file_rows(data);
    last_not_after_splits(ints(data.file_rows@), row);
    assert(ints(data.file_rows@)[0] == 0);
}

/// A file that was jumped to is the one that is being read.
pub proof fn the_file_jumped_to_is_read<T>(data: ItemData<T>, file: int)
    requires
        data.wf(),
        0 <= file < data.diff@.len(),
    ensures
        file < data.file_rows.len(),
        current_file(data, data.file_rows@[file] as int) == Some(file),
{
    lemma_file_rows(data);
    let targets = ints(data.file_rows@);
    assert(targets[file] == data.file_rows@[file]);
    last_not_after_splits(targets, targets[file]);
    if let Some(at) = last_not_after(targets, targets[file]) {
        assert(targets[at] <= targets[file]);
    }
}

/// Switching the view keeps the reader in the same file, at its header.
pub proof fn switching_keeps_the_file<T>(before: ItemData<T>, after: ItemData<T>)
    requires
        before.wf(),
        after.wf(),
        is_switched(before, after),
    ensures
        current_file(after, after.cursor as int) == current_file(before, before.cursor as int),
        current_file(before, before.cursor as int) matches Some(file) ==> after.cursor
            == after.file_rows@[file],
{
    lemma_file_rows(before);
    lemma_file_rows(after);
    last_not_after_splits(ints(before.file_rows@), before.cursor as int);
    match current_file(before, before.cursor as int) {
        Some(file) => {
            assert(ints(after.file_rows@)[file] == after.file_rows@[file]);
            the_file_jumped_to_is_read(after, file);
        },
        None => {
            if before.diff@.len() > 0 {
                assert(ints(before.file_rows@)[0] == 0);
            }
            last_not_after_splits(ints(after.file_rows@), after.cursor as int);
        },
    }
}

/// Switching the view twice gives back what was on display, with the reader at the
/// header of the file.
pub proof fn switching_twice_shows_the_same<T>(
    before: ItemData<T>,
    between: ItemData<T>,
    after: ItemData<T>,
)
    requires
        before.wf(),
        before.shows(before.mode),
        is_switched(before, between),
        between.wf(),
        is_switched(between, after),
    ensures
        after.mode == before.mode,
        after.diff == before.diff,
        row_views(after.rows@) == row_views(before.rows@),
        ints(after.file_rows@) == ints(before.file_rows@),
        ints(after.hunk_rows@) == ints(before.hunk_rows@),
        after.widest_row_ix == before.widest_row_ix,
        after.max_line_chars == before.max_line_chars,
        after.tree == before.tree,
        after.collapsed == before.collapsed,
        after.cursor == header_row(
            ints(before.file_rows@),
            current_file(before, before.cursor as int),
        ),
{
    widest_is_unique(
        row_views(before.rows@),
        after.widest_row_ix as int,
        after.max_line_chars as nat,
        before.widest_row_ix as int,
        before.max_line_chars as nat,
    );
    switching_keeps_the_file(before, between);
}

/// Refreshing a diff that has not changed shows what was shown, and leaves the
/// reader in place.
pub proof fn refreshing_an_unchanged_diff_shows_the_same<T>(
    before: ItemData<T>,
    loaded: Loaded<T>,
    after: ItemData<T>,
)
    requires
        before.wf(),
        before.shows(before.mode),
        loaded.wf(),
        loaded.mode == before.mode,
        loaded.diff@ == before.diff@,
        after.is_replaced(before, loaded),
    ensures
        after.mode == before.mode,
        after.diff@ == before.diff@,
        row_views(after.rows@) == row_views(before.rows@),
        ints(after.file_rows@) == ints(before.file_rows@),
        ints(after.hunk_rows@) == ints(before.hunk_rows@),
        after.widest_row_ix == before.widest_row_ix,
        after.max_line_chars == before.max_line_chars,
        after.additions == before.additions,
        after.deletions == before.deletions,
        after.cursor == before.cursor,
        entry_views(after.tree@) == entry_views(before.tree@),
        after.collapsed@ == before.collapsed@,
{
    assert(row_views(after.rows@).len() == after.rows.len());
    assert(row_views(before.rows@).len() == before.rows.len());
    widest_is_unique(
        row_views(before.rows@),
        after.widest_row_ix as int,
        after.max_line_chars as nat,
        before.widest_row_ix as int,
        before.max_line_chars as nat,
    );
    assert(after.collapsed@ =~= before.collapsed@);
}

/// An entry for a file that is counted is there.
proof fn lemma_counted_is_there(entries: Seq<EntryView>, file: int) -> (at: int)
    requires
        file_count(entries, file) > 0,
    ensures
        0 <= at < entries.len(),
        entries[at].kind == (EntryKindView::File { file_ix: file }),
    decreases entries.len(),
{
    if entries.last().kind == (EntryKindView::File { file_ix: file }) {
        entries.len() - 1
    } else {
        lemma_counted_is_there(entries.drop_last(), file)
    }
}

/// Without a filter, each file has its line in the sidebar, unless it lies inside a
/// collapsed directory.
pub proof fn each_file_has_its_line<T>(
    data: ItemData<T>,
    filter: Seq<char>,
    rows: Seq<TreeListRow>,
    file: int,
    at: Option<usize>,
)
    requires
        data.wf(),
        trimmed(filter).len() == 0,
        lists(data, filter, rows),
        is_row_of(entry_views(data.tree@), rows, file, at),
    ensures
        at is Some <==> exists|i: int|
            0 <= i < data.tree.len() && #[trigger] entry_views(data.tree@)[i].kind == (
            EntryKindView::File { file_ix: file }) && !is_hidden(
                entry_views(data.tree@),
                data.collapsed@,
                i,
            ),
        0 <= file < data.diff@.len() && data.collapsed@ == Set::<Seq<char>>::empty() ==> at is Some,
{
    let entries = entry_views(data.tree@);
    let shown = visible(entries, data.collapsed@);
    crate::collapse::visible_is_not_hidden(entries, data.collapsed@, entries.len() as int);
    if let Some(at) = at {
        assert(row_numbers(rows)[at as int] == rows[at as int]->Entry_0);
        assert(shown.contains(shown[at as int]));
        let i = rows[at as int]->Entry_0 as int;
        assert(entries[i].kind == (EntryKindView::File { file_ix: file }));
    }
    assert forall|i: int|
        0 <= i < data.tree.len() && #[trigger] entries[i].kind == (EntryKindView::File {
            file_ix: file,
        }) && !is_hidden(entries, data.collapsed@, i) implies at is Some by {
        assert(shown.contains(i));
        let a = choose|a: int| 0 <= a < shown.len() && shown[a] == i;
        assert(row_numbers(rows)[a] == i);
        assert(rows[a] is Entry);
        assert(stands_for(entries, rows[a], file));
    }
    if 0 <= file < data.diff@.len() && data.collapsed@ == Set::<Seq<char>>::empty() {
        each_file_is_listed_once(display_paths(data.diff@), file);
        let i = lemma_counted_is_there(entries, file);
        assert(entries[i].kind == (EntryKindView::File { file_ix: file }));
        assert(!is_hidden(entries, data.collapsed@, i));
    }
}

/// Each line that the sidebar lists is one of the tree, or of a file of the diff.
pub proof fn each_line_can_be_drawn<T>(
    data: ItemData<T>,
    filter: Seq<char>,
    rows: Seq<TreeListRow>,
    at: int,
)
    requires
        data.wf(),
        lists(data, filter, rows),
        0 <= at < rows.len(),
    ensures
        is_drawable(data, rows[at]),
{
    let entries = entry_views(data.tree@);
    let paths = display_paths(data.diff@);
    assert(row_numbers(rows)[at] == (match rows[at] {
        TreeListRow::Entry(ix) => ix as int,
        TreeListRow::FilteredFile(ix) => ix as int,
    }));
    match rows[at] {
        TreeListRow::Entry(ix) => {
            let shown = visible(entries, data.collapsed@);
            crate::collapse::visible_is_not_hidden(entries, data.collapsed@, entries.len() as int);
            assert(shown.contains(shown[at]));
            crate::tree_paths::entries_spell_the_paths(paths, ix as int);
            assert(entries[ix as int] == data.tree@[ix as int]@);
        },
        TreeListRow::FilteredFile(ix) => {},
    }
}

// --- What each step shows --------------------------------------------------

/// A diff that was just loaded is shown from its top in the view that it was loaded
/// for: its own rows and headers, the totals of its files, the tree of their paths,
/// nothing selected and nothing collapsed.
pub proof fn a_new_display_shows_the_diff<T>(data: ItemData<T>, loaded: Loaded<T>)
    requires
        data.is_new(loaded),
    ensures
        data.diff == loaded.diff,
        data.rows == loaded.rows,
        data.file_rows == loaded.file_rows,
        data.hunk_rows == loaded.hunk_rows,
        data.mode == loaded.mode,
        data.cursor == 0,
        data.selection is None,
        data.tree_last_file is None,
        data.additions == crate::diff::total_additions(loaded.diff@),
        data.deletions == crate::diff::total_deletions(loaded.diff@),
        entry_views(data.tree@) == crate::tree::tree(display_paths(loaded.diff@)),
        forall|path: Seq<char>| !#[trigger] data.collapsed@.contains(path),
        crate::rows::is_widest(
            row_views(loaded.rows@),
            data.widest_row_ix as int,
            data.max_line_chars as nat,
        ),
{
}

/// A refresh shows the new diff and keeps the place of the reader: the view stays;
/// the cursor stays in its row, or goes to the last row if there are fewer; a
/// directory is collapsed exactly if it was and is still in the tree. The selection
/// goes.
pub proof fn a_refresh_keeps_the_place<T>(
    before: ItemData<T>,
    loaded: Loaded<T>,
    after: ItemData<T>,
    path: Seq<char>,
)
    requires
        after.is_replaced(before, loaded),
    ensures
        after.diff == loaded.diff,
        after.rows == loaded.rows,
        after.file_rows == loaded.file_rows,
        after.hunk_rows == loaded.hunk_rows,
        after.mode == before.mode,
        after.selection is None,
        after.tree_last_file is None,
        after.additions == crate::diff::total_additions(loaded.diff@),
        after.deletions == crate::diff::total_deletions(loaded.diff@),
        entry_views(after.tree@) == crate::tree::tree(display_paths(loaded.diff@)),
        before.cursor < loaded.rows.len() ==> after.cursor == before.cursor,
        before.cursor >= loaded.rows.len() && loaded.rows.len() > 0 ==> after.cursor
            == loaded.rows.len() - 1,
        loaded.rows.len() == 0 ==> after.cursor == 0,
        after.collapsed@.contains(path) <==> before.collapsed@.contains(path) && exists|i: int|
            0 <= i < after.tree.len() && (#[trigger] entry_views(after.tree@)[i]).kind == (
            EntryKindView::Dir { path }),
        crate::rows::is_widest(
            row_views(loaded.rows@),
            after.widest_row_ix as int,
            after.max_line_chars as nat,
        ),
{
    crate::collapse::directories_are_the_directory_entries(entry_views(after.tree@), path);
}

/// Rows that are those of a diff in a view are the rows of the diff in that view, and
/// the headers noted are the headers among them.
pub proof fn a_loaded_diff_has_its_rows<T>(loaded: Loaded<T>)
    requires
        loaded.wf(),
    ensures
        row_views(loaded.rows@) == layout(loaded.diff@, loaded.mode),
        ints(loaded.file_rows@) == file_positions(row_views(loaded.rows@)),
        ints(loaded.hunk_rows@) == crate::rows::hunk_positions(row_views(loaded.rows@)),
{
}

/// Switching the view shows the same diff in the other view. The cursor goes to the
/// header of the last file whose header was not below it, or to the top if there is
/// none. The selection goes; the totals, the tree and what is collapsed stay.
pub proof fn switching_shows_the_other_view<T>(
    before: ItemData<T>,
    after: ItemData<T>,
    file: int,
)
    requires
        is_switched(before, after),
    ensures
        after.mode != before.mode,
        after.diff == before.diff,
        row_views(after.rows@) == layout(before.diff@, after.mode),
        ints(after.file_rows@) == file_positions(row_views(after.rows@)),
        ints(after.hunk_rows@) == crate::rows::hunk_positions(row_views(after.rows@)),
        crate::rows::is_widest(
            row_views(after.rows@),
            after.widest_row_ix as int,
            after.max_line_chars as nat,
        ),
        after.selection is None,
        after.additions == before.additions,
        after.deletions == before.deletions,
        after.tree == before.tree,
        after.collapsed == before.collapsed,
        after.tree_last_file == before.tree_last_file,
        0 <= file < before.file_rows.len() && file < after.file_rows.len()
            && before.file_rows@[file] <= before.cursor && (forall|k: int|
            file < k < before.file_rows.len() ==> #[trigger] before.file_rows@[k] > before.cursor)
            ==> after.cursor == after.file_rows@[file],
        (forall|k: int|
            0 <= k < before.file_rows.len() ==> #[trigger] before.file_rows@[k] > before.cursor)
            ==> after.cursor == 0,
{
    let targets = ints(before.file_rows@);
    crate::navigate::last_not_after_is_the_last(targets, before.cursor as int);
    assert forall|k: int| 0 <= k < before.file_rows.len() implies #[trigger] targets[k]
        == before.file_rows@[k] by {}
    assert forall|k: int| 0 <= k < after.file_rows.len() implies #[trigger] ints(
        after.file_rows@,
    )[k] == after.file_rows@[k] by {}
    if let Some(at) = last_not_after(targets, before.cursor as int) {
        assert(targets[at] == before.file_rows@[at]);
        if 0 <= file < before.file_rows.len() && before.file_rows@[file] <= before.cursor && (
        forall|k: int|
            file < k < before.file_rows.len() ==> #[trigger] before.file_rows@[k]
                > before.cursor) {
            assert(targets[file] == before.file_rows@[file]);
            if file < at {
                assert(before.file_rows@[at] > before.cursor);
            }
        }
    }
}

/// The file that is being read is the last one whose header is not below the row at
/// the top.
pub proof fn the_file_at_the_top_is_read<T>(data: ItemData<T>, top_row: int)
    ensures
        match current_file(data, top_row) {
            Some(file) => 0 <= file < data.file_rows.len() && data.file_rows@[file] <= top_row
                && forall|k: int|
                file < k < data.file_rows.len() ==> #[trigger] data.file_rows@[k] > top_row,
            None => forall|k: int|
                0 <= k < data.file_rows.len() ==> #[trigger] data.file_rows@[k] > top_row,
        },
{
    let targets = ints(data.file_rows@);
    crate::navigate::last_not_after_is_the_last(targets, top_row);
    assert forall|k: int| 0 <= k < data.file_rows.len() implies targets[k]
        == #[trigger] data.file_rows@[k] by {}
}

/// To move is to set the cursor and to change nothing else.
pub proof fn moving_sets_the_cursor<T>(
    before: ReviewApp<T>,
    after: ReviewApp<T>,
    to: Option<usize>,
)
    requires
        after.is_moved(before, to),
    ensures
        to is None ==> after == before,
        to matches Some(row) ==> {
            &&& after.state is Ready
            &&& after.state->Ready_0.cursor == row
            &&& after.state->Ready_0 == (ItemData {
                cursor: row,
                ..before.state->Ready_0
            })
            &&& after.reloading == before.reloading
            &&& after.refresh_error == before.refresh_error
            &&& after.sidebar_visible == before.sidebar_visible
            &&& after.titlebar_dragging == before.titlebar_dragging
            &&& after.keybindings_visible == before.keybindings_visible
            &&& after.drag_anchor == before.drag_anchor
        },
{
}

/// A display that is put in place of another is on display, and nothing else changes.
pub proof fn a_display_is_put_in_place<T>(app: ReviewApp<T>, data: ItemData<T>)
    ensures
        app.ready() <==> app.state is Ready,
        app.state matches LoadState::Ready(shown) ==> app.data() == shown,
        app.with_data(data) == (ReviewApp { state: LoadState::Ready(data), ..app }),
{
}

/// In the unified view there is one side. In the split view a place is on the side of
/// its half, unless a drag is locked to a side.
pub proof fn places_are_on_their_side(mode: ViewMode, left_half: bool, locked: Option<SelSide>)
    ensures
        mode is Unified ==> crate::viewer::hit_side(mode, left_half, locked) is Unified,
        mode is Split && locked is Some ==> crate::viewer::hit_side(mode, left_half, locked)
            == locked->0,
        mode is Split && locked is None && left_half ==> crate::viewer::hit_side(
            mode,
            left_half,
            locked,
        ) is Left,
        mode is Split && locked is None && !left_half ==> crate::viewer::hit_side(
            mode,
            left_half,
            locked,
        ) is Right,
{
}

/// The sidebar lists the visible entries of the tree, in order, if the filter is
/// blank, and else the files that the filter lists, in its order.
pub proof fn the_sidebar_lists_the_tree_or_the_matches<T>(
    data: ItemData<T>,
    filter: Seq<char>,
    rows: Seq<TreeListRow>,
    at: int,
)
    requires
        lists(data, filter, rows),
    ensures
        trimmed(filter).len() == 0 ==> rows.len() == visible(
            entry_views(data.tree@),
            data.collapsed@,
        ).len() && (0 <= at < rows.len() ==> (rows[at] matches TreeListRow::Entry(ix) && ix
            == visible(entry_views(data.tree@), data.collapsed@)[at])),
        trimmed(filter).len() > 0 ==> exists|listed: Seq<int>| #[trigger]
            crate::fuzzy::is_filtered(display_paths(data.diff@), filter, listed) && rows.len()
                == listed.len() && (0 <= at < rows.len() ==> (
            rows[at] matches TreeListRow::FilteredFile(ix) && ix == listed[at])),
{
    let numbers = row_numbers(rows);
    if 0 <= at < rows.len() {
        assert(numbers[at] == (match rows[at] {
            TreeListRow::Entry(ix) => ix as int,
            TreeListRow::FilteredFile(ix) => ix as int,
        }));
    }
    if trimmed(filter).len() > 0 {
        assert(crate::fuzzy::is_filtered(display_paths(data.diff@), filter, numbers));
    }
}

/// The line of a file is the first line that is an entry of the tree for it or that
/// is the file itself; without one there is none.
pub proof fn the_line_of_a_file_is_the_first<T>(
    data: ItemData<T>,
    rows: Seq<TreeListRow>,
    file: int,
    at: Option<usize>,
    k: int,
)
    requires
        is_row_of(entry_views(data.tree@), rows, file, at),
        0 <= k < rows.len(),
    ensures
        at matches Some(found) ==> found < rows.len(),
        ({
            let is_its_line = match rows[k] {
                TreeListRow::Entry(ix) => entry_views(data.tree@)[ix as int].kind == (
                EntryKindView::File { file_ix: file }),
                TreeListRow::FilteredFile(ix) => ix == file,
            };
            match at {
                Some(found) => {
                    &&& k == found ==> is_its_line
                    &&& k < found ==> !is_its_line
                },
                None => !is_its_line,
            }
        }),
{
    assert(stands_for(entry_views(data.tree@), rows[k], file) == (match rows[k] {
        TreeListRow::Entry(ix) => entry_views(data.tree@)[ix as int].kind == (EntryKindView::File {
            file_ix: file,
        }),
        TreeListRow::FilteredFile(ix) => ix == file,
    }));
}

/// What a line tells of a file: its status, its added lines behind a plus and its
/// removed lines behind a minus sign, in decimal.
pub proof fn lines_tell_the_counts<T>(
    data: ItemData<T>,
    file: int,
    stats: FileStats,
    additions: Seq<char>,
    deletions: Seq<char>,
)
    requires
        tells_of(data, file, stats),
        spells(additions, data.diff@[file].additions as nat),
        spells(deletions, data.diff@[file].deletions as nat),
    ensures
        stats.status == data.diff@[file].status,
        stats.additions@ == seq!['+'] + additions,
        stats.deletions@ == seq!['−'] + deletions,
{
    crate::text::spelling_is_unique(additions, data.diff@[file].additions as nat);
    crate::text::spelling_is_unique(deletions, data.diff@[file].deletions as nat);
    reveal_strlit("+");
    reveal_strlit("−");
    assert("+"@ =~= seq!['+']);
    assert("−"@ =~= seq!['−']);
}

/// The parts of a well-formed display fit together: its rows are those of its diff in
/// one of the two views, the headers and the widest line noted are those of the rows,
/// the totals and the tree are those of the diff, the cursor is a row, and what is
/// collapsed are directories of the tree.
pub proof fn a_display_fits_together<T>(data: ItemData<T>)
    requires
        data.wf(),
    ensures
        row_views(data.rows@) == layout(data.diff@, ViewMode::Unified) || row_views(data.rows@)
            == layout(data.diff@, ViewMode::Split),
        ints(data.file_rows@) == file_positions(row_views(data.rows@)),
        ints(data.hunk_rows@) == crate::rows::hunk_positions(row_views(data.rows@)),
        crate::rows::is_widest(
            row_views(data.rows@),
            data.widest_row_ix as int,
            data.max_line_chars as nat,
        ),
        data.cursor == 0 || data.cursor < data.rows.len(),
        data.additions == crate::diff::total_additions(data.diff@),
        data.deletions == crate::diff::total_deletions(data.diff@),
        entry_views(data.tree@) == crate::tree::tree(display_paths(data.diff@)),
        forall|path: Seq<char>| #[trigger]
            data.collapsed@.contains(path) ==> crate::collapse::dir_paths(
                entry_views(data.tree@),
            ).contains(path),
{
}

}
