//! The diff on display, with its rows, its tree and the place of the reader in it.

use crate::collapse::{dir_paths, PathSet};
use crate::diff::{display_paths, total_additions, total_deletions, totals_fit, PrDiff};
use crate::rows::{
    build_rows, file_positions, hunk_positions, ints, is_widest, layout, row_views, widest_line,
    Row, ViewMode,
};
use crate::selection::Selection;
use crate::tree::{build_tree, entry_views, tree, TreeEntry};
use vstd::prelude::*;

verus! {

/// A diff with its rows, ready to be shown.
#[derive(Debug)]
pub struct Loaded<T> {
    pub diff: PrDiff<T>,
    pub rows: Vec<Row<T>>,
    pub file_rows: Vec<usize>,
    pub hunk_rows: Vec<usize>,
    pub mode: ViewMode,
}

impl<T> Loaded<T> {
    /// Whether the rows are those of the diff in the given view.
    pub open spec fn wf(self) -> bool {
        &&& row_views(self.rows@) == layout(self.diff@, self.mode)
        &&& ints(self.file_rows@) == file_positions(layout(self.diff@, self.mode))
        &&& ints(self.hunk_rows@) == hunk_positions(layout(self.diff@, self.mode))
    }
}

/// The path of the repository to open: the first argument if it is a directory, else
/// the working directory.
pub fn repo_path(arg: Option<&str>, is_dir: bool) -> (path: &str)
    ensures
        path@ == (match arg {
            Some(arg) => if is_dir {
                arg@
            } else {
                "."@
            },
            None => "."@,
        }),
{
    match arg {
        Some(arg) => if is_dir {
            arg
        } else {
            "."
        },
        None => ".",
    }
}

/// Builds the rows of a diff.
pub fn load_item<T: Copy>(diff: PrDiff<T>, mode: ViewMode) -> (loaded: Loaded<T>)
    ensures
        loaded.wf(),
        loaded.diff == diff,
        loaded.mode == mode,
{
    let (rows, file_rows, hunk_rows) = build_rows(&diff, mode);
    Loaded { diff, rows, file_rows, hunk_rows, mode }
}

/// The diff on display.
#[derive(Debug)]
pub struct ItemData<T> {
    pub diff: PrDiff<T>,
    pub mode: ViewMode,
    pub rows: Vec<Row<T>>,
    pub file_rows: Vec<usize>,
    pub hunk_rows: Vec<usize>,
    pub max_line_chars: usize,
    pub widest_row_ix: usize,
    pub cursor: usize,
    pub additions: u32,
    pub deletions: u32,
    pub selection: Option<Selection>,
    pub tree: Vec<TreeEntry>,
    pub collapsed: PathSet,
    pub tree_last_file: Option<usize>,
}

impl<T> ItemData<T> {
    /// Whether the rows are those of the diff in the view `mode`.
    pub open spec fn shows(self, mode: ViewMode) -> bool {
        row_views(self.rows@) == layout(self.diff@, mode)
    }

    /// Whether all parts fit together. The rows are those of the diff in one of the
    /// two views; that is the view `mode`, unless the view was switched while a
    /// refresh was under way.
    pub open spec fn wf(self) -> bool {
        &&& self.shows(ViewMode::Unified) || self.shows(ViewMode::Split)
        &&& ints(self.file_rows@) == file_positions(row_views(self.rows@))
        &&& ints(self.hunk_rows@) == hunk_positions(row_views(self.rows@))
        &&& is_widest(
            row_views(self.rows@),
            self.widest_row_ix as int,
            self.max_line_chars as nat,
        )
        &&& self.cursor == 0 || self.cursor < self.rows.len()
        &&& self.additions == total_additions(self.diff@)
        &&& self.deletions == total_deletions(self.diff@)
        &&& self.selection is Some ==> self.rows.len() > 0
        &&& entry_views(self.tree@) == tree(display_paths(self.diff@))
        &&& self.collapsed@.subset_of(dir_paths(entry_views(self.tree@)))
    }

    /// Takes over new rows.
    pub fn set_rows(&mut self, rows: Vec<Row<T>>, file_rows: Vec<usize>, hunk_rows: Vec<usize>)
        ensures
            is_widest(
                row_views(rows@),
                final(self).widest_row_ix as int,
                final(self).max_line_chars as nat,
            ),
            *final(self) == (ItemData {
                rows,
                file_rows,
                hunk_rows,
                widest_row_ix: final(self).widest_row_ix,
                max_line_chars: final(self).max_line_chars,
                ..*old(self)
            }),
    {
        let (widest_row_ix, max_line_chars) = widest_line(rows.as_slice());
        self.widest_row_ix = widest_row_ix;
        self.max_line_chars = max_line_chars;
        self.rows = rows;
        self.file_rows = file_rows;
        self.hunk_rows = hunk_rows;
    }

    /// Builds the tree of the diff. Directories that are gone are no longer
    /// collapsed.
    pub fn rebuild_tree(&mut self)
        ensures
            entry_views(final(self).tree@) == tree(display_paths(old(self).diff@)),
            final(self).collapsed@ == old(self).collapsed@.intersect(
                dir_paths(tree(display_paths(old(self).diff@))),
            ),
            *final(self) == (ItemData {
                tree: final(self).tree,
                collapsed: final(self).collapsed,
                tree_last_file: None,
                ..*old(self)
            }),
    {
        let paths = self.diff.paths();
        let tree = build_tree(paths.as_slice());
        self.collapsed.retain_dirs(&tree);
        self.tree = tree;
        self.tree_last_file = None;
    }

    /// Whether this is the display of `loaded`, up to the place of the reader, the
    /// view and the collapsed directories.
    pub open spec fn displays(self, loaded: Loaded<T>) -> bool {
        &&& self.diff == loaded.diff
        &&& self.rows == loaded.rows
        &&& self.file_rows == loaded.file_rows
        &&& self.hunk_rows == loaded.hunk_rows
        &&& is_widest(
            row_views(loaded.rows@),
            self.widest_row_ix as int,
            self.max_line_chars as nat,
        )
        &&& self.additions == total_additions(loaded.diff@)
        &&& self.deletions == total_deletions(loaded.diff@)
        &&& self.selection is None
        &&& entry_views(self.tree@) == tree(display_paths(loaded.diff@))
        &&& self.tree_last_file is None
    }

    /// Whether this is the display of a diff that was just loaded, from its top.
    pub open spec fn is_new(self, loaded: Loaded<T>) -> bool {
        &&& self.displays(loaded)
        &&& self.mode == loaded.mode
        &&& self.cursor == 0
        &&& self.collapsed@ == Set::<Seq<char>>::empty()
    }

    /// Whether this is the display after `loaded` took the place of what was on
    /// display `before`. The view stays. The cursor stays, or goes to the last row.
    /// Directories that are still there stay collapsed.
    pub open spec fn is_replaced(self, before: ItemData<T>, loaded: Loaded<T>) -> bool {
        &&& self.displays(loaded)
        &&& self.mode == before.mode
        &&& self.cursor == if before.cursor < loaded.rows.len() {
            before.cursor as int
        } else if loaded.rows.len() > 0 {
            loaded.rows.len() - 1
        } else {
            0
        }
        &&& self.collapsed@ == before.collapsed@.intersect(
            dir_paths(tree(display_paths(loaded.diff@))),
        )
    }

    /// The display of a diff that was just loaded, from its top.
    pub fn new(loaded: Loaded<T>) -> (data: ItemData<T>)
        requires
            totals_fit(loaded.diff@),
        ensures
            data.is_new(loaded),
            loaded.wf() ==> data.wf(),
    {
        let (additions, deletions) = loaded.diff.totals().unwrap();
        let (widest_row_ix, max_line_chars) = widest_line(loaded.rows.as_slice());
        let mut data = ItemData {
            diff: loaded.diff,
            mode: loaded.mode,
            rows: loaded.rows,
            file_rows: loaded.file_rows,
            hunk_rows: loaded.hunk_rows,
            max_line_chars,
            widest_row_ix,
            cursor: 0,
            additions,
            deletions,
            selection: None,
            tree: Vec::new(),
            collapsed: PathSet::new(),
            tree_last_file: None,
        };
        data.rebuild_tree();
        assert(data.collapsed@ =~= Set::<Seq<char>>::empty());
        proof {
            if data.mode == ViewMode::Unified {
                assert(loaded.wf() ==> data.shows(ViewMode::Unified));
            } else {
                assert(loaded.wf() ==> data.shows(ViewMode::Split));
            }
        }
        data
    }

    /// Takes over a diff that was loaded anew. The view, the place of the reader
    /// and the collapsed directories stay as far as they can; the selection goes.
    pub fn replace(&mut self, loaded: Loaded<T>)
        requires
            totals_fit(loaded.diff@),
        ensures
            final(self).is_replaced(*old(self), loaded),
            loaded.wf() ==> final(self).wf(),
    {
        let (additions, deletions) = loaded.diff.totals().unwrap();
        let ghost mode = loaded.mode;
        let ghost fits = loaded.wf();
        let count: usize = loaded.rows.len();
        self.diff = loaded.diff;
        self.additions = additions;
        self.deletions = deletions;
        self.set_rows(loaded.rows, loaded.file_rows, loaded.hunk_rows);
        if self.cursor >= count {
            self.cursor = if count > 0 {
                count - 1
            } else {
                0
            };
        }
        self.selection = None;
        self.rebuild_tree();
        proof {
            if mode == ViewMode::Unified {
                assert(fits ==> self.shows(ViewMode::Unified));
            } else {
                assert(fits ==> self.shows(ViewMode::Split));
            }
        }
    }
}

}
