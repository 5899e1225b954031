//! The sidebar: the file tree, or the files that the filter lists.

use crate::collapse::{dir_paths, is_dir_at, toggled, visible, visible_entries};
use crate::diff::{display_paths, FileStatus};
use crate::fuzzy::{fuzzy_file_matches, is_filtered, matchable};
use crate::item::ItemData;
use crate::labels::{additions_label, deletions_label, dir_marker};
use crate::navigate::{find_last_not_after, last_not_after, opt_int};
use crate::rows::ints;
use crate::text::{decimal, trim, trimmed};
use crate::tree::{entry_views, EntryKindView, EntryView, TreeEntryKind};
use crate::viewer::{LoadState, ReviewApp};
use vstd::prelude::*;

verus! {

/// What a click on an entry of the tree leads to.
#[derive(Clone, Copy, PartialEq, Eq, Debug, Structural)]
pub enum TreeClick {
    Ignored,
    Toggled,
    Jumped(usize),
}

/// One line of the sidebar: an entry of the tree, or a file that the filter lists.
#[derive(Clone, Copy, PartialEq, Eq, Debug, Structural)]
pub enum TreeListRow {
    Entry(usize),
    FilteredFile(usize),
}

/// What the sidebar shows: its lines, the line of the file that is being read, the
/// line to scroll to, and whether to say that no file matches the filter.
#[derive(Debug)]
pub struct Sidebar {
    pub rows: Vec<TreeListRow>,
    pub current_row: Option<usize>,
    pub scroll_to: Option<usize>,
    pub no_matches: bool,
}

/// The numbers of the lines of the sidebar.
pub open spec fn row_numbers(rows: Seq<TreeListRow>) -> Seq<int> {
    rows.map_values(
        |row: TreeListRow|
            match row {
                TreeListRow::Entry(ix) => ix as int,
                TreeListRow::FilteredFile(ix) => ix as int,
            },
    )
}

/// Whether `rows` are the lines of the sidebar: the visible entries of the tree if
/// the filter is blank, else the files that it lists.
pub open spec fn lists<T>(data: ItemData<T>, filter: Seq<char>, rows: Seq<TreeListRow>) -> bool {
    if trimmed(filter).len() == 0 {
        &&& forall|i: int| 0 <= i < rows.len() ==> (#[trigger] rows[i]) is Entry
        &&& row_numbers(rows) == visible(entry_views(data.tree@), data.collapsed@)
    } else {
        &&& forall|i: int| 0 <= i < rows.len() ==> (#[trigger] rows[i]) is FilteredFile
        &&& is_filtered(display_paths(data.diff@), filter, row_numbers(rows))
    }
}

/// Whether a line of the sidebar stands for the file with index `file`.
pub open spec fn stands_for(entries: Seq<EntryView>, row: TreeListRow, file: int) -> bool {
    match row {
        TreeListRow::Entry(ix) => entries[ix as int].kind == (EntryKindView::File { file_ix: file }),
        TreeListRow::FilteredFile(ix) => ix == file,
    }
}

/// Whether `at` is the first line that stands for a file; `None` if no line does.
pub open spec fn is_row_of(
    entries: Seq<EntryView>,
    rows: Seq<TreeListRow>,
    file: int,
    at: Option<usize>,
) -> bool {
    match at {
        Some(at) => at < rows.len() && stands_for(entries, rows[at as int], file) && forall|i: int|
            0 <= i < at ==> !stands_for(entries, #[trigger] rows[i], file),
        None => forall|i: int|
            0 <= i < rows.len() ==> !stands_for(entries, #[trigger] rows[i], file),
    }
}

impl<T> ItemData<T> {
    /// The lines of the sidebar under a filter.
    pub fn list_rows(&self, filter: &str) -> (rows: Vec<TreeListRow>)
        requires
            trimmed(filter@).len() > 0 ==> matchable(display_paths(self.diff@)),
        ensures
            lists(*self, filter@, rows@),
            trimmed(filter@).len() == 0 ==> forall|i: int|
                0 <= i < rows.len() ==> 0 <= #[trigger] row_numbers(rows@)[i] < self.tree.len(),
    {
        let mut rows: Vec<TreeListRow> = Vec::new();
        if trim(filter).is_empty() {
            let shown = visible_entries(self.tree.as_slice(), &self.collapsed);
            let ghost entries = entry_views(self.tree@);
            proof {
                crate::collapse::visible_is_not_hidden(
                    entries,
                    self.collapsed@,
                    entries.len() as int,
                );
            }
            for i in 0..shown.len()
                invariant
                    rows.len() == i,
                    forall|j: int|
                        0 <= j < i ==> #[trigger] rows@[j] == TreeListRow::Entry(shown@[j]),
            {
                rows.push(TreeListRow::Entry(shown[i]));
            }
            proof {
                assert(row_numbers(rows@) =~= ints(shown@));
                assert forall|i: int| 0 <= i < rows.len() implies 0 <= #[trigger] row_numbers(
                    rows@,
                )[i] < self.tree.len() by {
                    assert(visible(entries, self.collapsed@).contains(ints(shown@)[i]));
                }
            }
        } else {
            let paths = self.diff.paths();
            let listed = fuzzy_file_matches(paths.as_slice(), filter);
            for i in 0..listed.len()
                invariant
                    rows.len() == i,
                    forall|j: int|
                        0 <= j < i ==> #[trigger] rows@[j] == TreeListRow::FilteredFile(listed@[j]),
            {
                rows.push(TreeListRow::FilteredFile(listed[i]));
            }
            assert(row_numbers(rows@) =~= ints(listed@));
        }
        rows
    }

    /// The first line of the sidebar that stands for a file.
    fn find_row(&self, rows: &Vec<TreeListRow>, file: usize) -> (at: Option<usize>)
        requires
            forall|i: int|
                0 <= i < rows.len() ==> ((#[trigger] rows@[i]) matches TreeListRow::Entry(ix) ==> ix
                    < self.tree.len()),
        ensures
            is_row_of(entry_views(self.tree@), rows@, file as int, at),
    {
        let ghost entries = entry_views(self.tree@);
        for i in 0..rows.len()
            invariant
                entries == entry_views(self.tree@),
                forall|i: int|
                    0 <= i < rows.len() ==> ((#[trigger] rows@[i]) matches TreeListRow::Entry(ix)
                        ==> ix < self.tree.len()),
                forall|j: int| 0 <= j < i ==> !stands_for(entries, #[trigger] rows@[j], file as int),
        {
            let found = match rows[i] {
                TreeListRow::Entry(ix) => {
                    assert(entries[ix as int] == self.tree@[ix as int]@);
                    match &self.tree[ix].kind {
                        TreeEntryKind::File { file_ix } => *file_ix == file,
                        TreeEntryKind::Dir { .. } => false,
                    }
                },
                TreeListRow::FilteredFile(ix) => ix == file,
            };
            if found {
                return Some(i);
            }
        }
        None
    }
}

/// What a line of the sidebar tells of a file.
#[derive(Debug)]
pub struct FileStats {
    pub status: FileStatus,
    pub additions: String,
    pub deletions: String,
}

/// What a line of the sidebar shows: a directory of the tree with its sign, a file
/// of the tree, or a file that the filter lists.
#[derive(Debug)]
pub enum TreeLine<'a> {
    Dir { depth: usize, marker: &'static str, name: &'a str },
    File { depth: usize, name: &'a str, stats: FileStats },
    Match { path: &'a str, stats: FileStats },
}

/// Whether a line of the sidebar is one of the tree, or of a file of the diff.
pub open spec fn is_drawable<T>(data: ItemData<T>, row: TreeListRow) -> bool {
    match row {
        TreeListRow::Entry(ix) => {
            &&& ix < data.tree.len()
            &&& data.tree@[ix as int]@.kind matches EntryKindView::File { file_ix } ==> file_ix
                < data.diff@.len()
        },
        TreeListRow::FilteredFile(ix) => ix < data.diff@.len(),
    }
}

/// Whether `stats` tells of the file with index `file`.
pub open spec fn tells_of<T>(data: ItemData<T>, file: int, stats: FileStats) -> bool {
    &&& stats.status == data.diff@[file].status
    &&& stats.additions@ == "+"@ + decimal(data.diff@[file].additions as nat)
    &&& stats.deletions@ == "−"@ + decimal(data.diff@[file].deletions as nat)
}

impl<T> ItemData<T> {
    /// What the sidebar tells of a file.
    fn stats(&self, file: usize) -> (stats: FileStats)
        requires
            file < self.diff@.len(),
        ensures
            tells_of(*self, file as int, stats),
    {
        let changed = &self.diff.files[file];
        assert(self.diff@[file as int] == changed@);
        FileStats {
            status: changed.status,
            additions: additions_label(changed.additions),
            deletions: deletions_label(changed.deletions),
        }
    }

    /// What a line of the sidebar shows.
    pub fn tree_line(&self, row: TreeListRow) -> (line: TreeLine<'_>)
        requires
            is_drawable(*self, row),
        ensures
            match row {
                TreeListRow::Entry(ix) => {
                    let entry = self.tree@[ix as int]@;
                    match entry.kind {
                        EntryKindView::Dir { path } => {
                            &&& line matches TreeLine::Dir { depth, marker, name }
                            &&& depth == entry.depth
                            &&& marker@ == if self.collapsed@.contains(path) {
                                "▸"@
                            } else {
                                "▾"@
                            }
                            &&& name@ == entry.name
                        },
                        EntryKindView::File { file_ix } => {
                            &&& line matches TreeLine::File { depth, name, stats }
                            &&& depth == entry.depth
                            &&& name@ == entry.name
                            &&& tells_of(*self, file_ix, stats)
                        },
                    }
                },
                TreeListRow::FilteredFile(ix) => {
                    &&& line matches TreeLine::Match { path, stats }
                    &&& path@ == display_paths(self.diff@)[ix as int]
                    &&& tells_of(*self, ix as int, stats)
                },
            },
    {
        match row {
            TreeListRow::Entry(ix) => {
                let entry = &self.tree[ix];
                match &entry.kind {
                    TreeEntryKind::Dir { path } => TreeLine::Dir {
                        depth: entry.depth,
                        marker: dir_marker(self.collapsed.contains(path)),
                        name: entry.name.as_str(),
                    },
                    TreeEntryKind::File { file_ix } => TreeLine::File {
                        depth: entry.depth,
                        name: entry.name.as_str(),
                        stats: self.stats(*file_ix),
                    },
                }
            },
            TreeListRow::FilteredFile(ix) => {
                assert(self.diff@[ix as int] == self.diff.files@[ix as int]@);
                TreeLine::Match {
                    path: self.diff.files[ix].display_path.as_str(),
                    stats: self.stats(ix),
                }
            },
        }
    }
}

/// The file that is being read while row `top_row` is at the top.
pub open spec fn current_file<T>(data: ItemData<T>, top_row: int) -> Option<int> {
    last_not_after(ints(data.file_rows@), top_row)
}

impl<T> ReviewApp<T> {
    /// What the sidebar shows while row `top_row` of the diff is at the top. The
    /// sidebar follows the reader: when another file is being read than before, it
    /// scrolls to the line of that file.
    pub fn sidebar(&mut self, filter: &str, top_row: usize) -> (sidebar: Sidebar)
        requires
            old(self).ready() && trimmed(filter@).len() > 0 ==> matchable(
                display_paths(old(self).data().diff@),
            ),
        ensures
            if old(self).ready() {
                let data = old(self).data();
                let entries = entry_views(data.tree@);
                let file = current_file(data, top_row as int);
                &&& lists(data, filter@, sidebar.rows@)
                &&& match file {
                    Some(file) => {
                        &&& is_row_of(entries, sidebar.rows@, file, sidebar.current_row)
                        &&& sidebar.scroll_to == if opt_int(data.tree_last_file) != Some(file) {
                            sidebar.current_row
                        } else {
                            None
                        }
                        &&& *final(self) == old(self).with_data(
                            ItemData { tree_last_file: Some(file as usize), ..data },
                        )
                    },
                    None => sidebar.current_row is None && sidebar.scroll_to is None && *final(self)
                        == *old(self),
                }
                &&& sidebar.no_matches == (trimmed(filter@).len() > 0 && sidebar.rows.len() == 0)
            } else {
                &&& sidebar.rows.len() == 0
                &&& sidebar.current_row is None
                &&& sidebar.scroll_to is None
                &&& !sidebar.no_matches
                &&& *final(self) == *old(self)
            },
            old(self).wf() ==> final(self).wf(),
    {
        match &mut self.state {
            LoadState::Ready(data) => {
                let rows = data.list_rows(filter);
                proof {
                    assert forall|i: int| 0 <= i < rows.len() implies ((
                    #[trigger] rows@[i]) matches TreeListRow::Entry(ix) ==> ix < data.tree.len()) by {
                        assert(row_numbers(rows@)[i] == (match rows@[i] {
                            TreeListRow::Entry(ix) => ix as int,
                            TreeListRow::FilteredFile(ix) => ix as int,
                        }));
                    }
                }
                let no_matches = !trim(filter).is_empty() && rows.len() == 0;
                match find_last_not_after(data.file_rows.as_slice(), top_row) {
                    Some(file) => {
                        let current_row = data.find_row(&rows, file);
                        let followed = match data.tree_last_file {
                            Some(last) => last == file,
                            None => false,
                        };
                        let scroll_to = if followed {
                            None
                        } else {
                            current_row
                        };
                        data.tree_last_file = Some(file);
                        Sidebar { rows, current_row, scroll_to, no_matches }
                    },
                    None => Sidebar { rows, current_row: None, scroll_to: None, no_matches },
                }
            },
            _ => Sidebar {
                rows: Vec::new(),
                current_row: None,
                scroll_to: None,
                no_matches: false,
            },
        }
    }

    /// A click on an entry of the tree: a directory is collapsed or opened, a file
    /// is jumped to.
    pub fn tree_entry_clicked(&mut self, entry_ix: usize) -> (effect: TreeClick)
        ensures
            if old(self).ready() && entry_ix < old(self).data().tree.len() {
                let data = old(self).data();
                match data.tree@[entry_ix as int]@.kind {
                    EntryKindView::Dir { path } => {
                        &&& effect is Toggled
                        &&& final(self).ready()
                        &&& final(self).data().collapsed@ == toggled(data.collapsed@, path)
                        &&& *final(self) == old(self).with_data(
                            ItemData { collapsed: final(self).data().collapsed, ..data },
                        )
                    },
                    EntryKindView::File { file_ix } => if file_ix < data.file_rows.len() {
                        &&& effect == TreeClick::Jumped(data.file_rows@[file_ix])
                        &&& final(self).is_moved(*old(self), Some(data.file_rows@[file_ix]))
                    } else {
                        effect is Ignored && *final(self) == *old(self)
                    },
                }
            } else {
                effect is Ignored && *final(self) == *old(self)
            },
            old(self).wf() ==> final(self).wf(),
    {
        let file_ix: usize = match &mut self.state {
            LoadState::Ready(data) => {
                if entry_ix >= data.tree.len() {
                    return TreeClick::Ignored;
                }
                match &data.tree[entry_ix].kind {
                    TreeEntryKind::Dir { path } => {
                        let path = path.clone();
                        proof {
                            let entries = entry_views(data.tree@);
                            assert(is_dir_at(entries[entry_ix as int], path@));
                            assert(dir_paths(entries).contains(path@));
                        }
                        data.collapsed.toggle(path);
                        return TreeClick::Toggled;
                    },
                    TreeEntryKind::File { file_ix } => *file_ix,
                }
            },
            _ => return TreeClick::Ignored,
        };
        match self.jump_to_file(file_ix) {
            Some(row) => TreeClick::Jumped(row),
            None => TreeClick::Ignored,
        }
    }

    /// Confirms the filter: jumps to the file that it lists first.
    pub fn tree_filter_confirm(&mut self, filter: &str) -> (scroll: Option<usize>)
        requires
            old(self).ready() && trimmed(filter@).len() > 0 ==> matchable(
                display_paths(old(self).data().diff@),
            ),
        ensures
            if old(self).ready() && trimmed(filter@).len() > 0 {
                exists|listed: Seq<int>| #[trigger]
                    is_filtered(display_paths(old(self).data().diff@), filter@, listed)
                        && scroll == if listed.len() > 0 && listed[0]
                        < old(self).data().file_rows.len() {
                        Some(old(self).data().file_rows@[listed[0]])
                    } else {
                        None
                    }
            } else {
                scroll is None
            },
            final(self).is_moved(*old(self), scroll),
            old(self).wf() ==> final(self).wf(),
    {
        let file_ix: usize = match self.active_data() {
            Some(data) => {
                if trim(filter).is_empty() {
                    return None;
                }
                let paths = data.diff.paths();
                let listed = fuzzy_file_matches(paths.as_slice(), filter);
                assert(is_filtered(display_paths(data.diff@), filter@, ints(listed@)));
                if listed.len() == 0 {
                    return None;
                }
                assert(ints(listed@)[0] == listed@[0]);
                listed[0]
            },
            None => return None,
        };
        self.jump_to_file(file_ix)
    }
}

}
