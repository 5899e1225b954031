//! The state of the viewer: what is loaded, where the reader is, what is shown.

use crate::diff::totals_fit;
use crate::item::{ItemData, Loaded};
use crate::navigate::{
    find_last_not_after, find_next, find_prev, last_not_after, next_target, opt_int, prev_target,
};
use crate::rows::{
    build_rows, file_positions, hunk_positions, ints, is_widest, layout, row_views, ViewMode,
};
use crate::selection::{copied_text, selection_text, RowCol, SelSide, Selection};
use vstd::prelude::*;

verus! {

/// Whether a diff is on display.
#[derive(Debug)]
pub enum LoadState<T> {
    Loading,
    Ready(ItemData<T>),
    Failed(String),
}

/// The state of the viewer.
#[derive(Debug)]
pub struct ReviewApp<T> {
    pub state: LoadState<T>,
    pub reloading: bool,
    pub refresh_error: Option<String>,
    pub sidebar_visible: bool,
    pub titlebar_dragging: bool,
    pub keybindings_visible: bool,
    pub drag_anchor: Option<(SelSide, RowCol)>,
}

impl<T> ReviewApp<T> {
    /// Whether a diff is on display.
    pub open spec fn ready(self) -> bool {
        self.state is Ready
    }

    /// The diff on display.
    pub open spec fn data(self) -> ItemData<T> {
        self.state->Ready_0
    }

    /// Whether all parts of the diff on display fit together.
    pub open spec fn wf(self) -> bool {
        self.ready() ==> self.data().wf()
    }

    /// The state with another diff on display.
    pub open spec fn with_data(self, data: ItemData<T>) -> ReviewApp<T> {
        ReviewApp { state: LoadState::Ready(data), ..self }
    }

    /// The state at the start: a fetch for the split view is under way.
    pub fn new() -> (app: ReviewApp<T>)
        ensures
            app.state is Loading,
            !app.reloading,
            app.refresh_error is None,
            app.sidebar_visible,
            !app.titlebar_dragging,
            !app.keybindings_visible,
            app.drag_anchor is None,
    {
        ReviewApp {
            state: LoadState::Loading,
            reloading: false,
            refresh_error: None,
            sidebar_visible: true,
            titlebar_dragging: false,
            keybindings_visible: false,
            drag_anchor: None,
        }
    }

    /// The diff on display, if there is one.
    pub fn active_data(&self) -> (data: Option<&ItemData<T>>)
        ensures
            match data {
                Some(data) => self.ready() && *data == self.data(),
                None => !self.ready(),
            },
    {
        match &self.state {
            LoadState::Ready(data) => Some(data),
            _ => None,
        }
    }

    /// The diff on display, to be changed.
    pub fn active_data_mut(&mut self) -> (data: Option<&mut ItemData<T>>)
        ensures
            match data {
                Some(data) => old(self).ready() && *data == old(self).data() && *final(self)
                    == old(self).with_data(*final(data)),
                None => !old(self).ready() && *final(self) == *old(self),
            },
    {
        match &mut self.state {
            LoadState::Ready(data) => Some(data),
            _ => None,
        }
    }
}

// --- Loading ---------------------------------------------------------------

impl<T> ReviewApp<T> {
    /// Puts a loaded diff on display.
    pub fn install(&mut self, loaded: Loaded<T>)
        requires
            totals_fit(loaded.diff@),
        ensures
            final(self).ready(),
            if old(self).ready() {
                final(self).data().is_replaced(old(self).data(), loaded)
            } else {
                final(self).data().is_new(loaded)
            },
            *final(self) == (ReviewApp {
                state: final(self).state,
                refresh_error: None,
                ..*old(self)
            }),
            loaded.wf() ==> final(self).wf(),
    {
        self.refresh_error = None;
        match &mut self.state {
            LoadState::Ready(data) => {
                data.replace(loaded);
            },
            _ => {
                self.state = LoadState::Ready(ItemData::new(loaded));
            },
        }
    }

    /// Takes note of the outcome of a fetch. A failure leaves a diff that is on
    /// display as it is.
    pub fn fetched(&mut self, outcome: Result<Loaded<T>, String>)
        requires
            outcome matches Ok(loaded) ==> totals_fit(loaded.diff@),
        ensures
            match outcome {
                Ok(loaded) => {
                    &&& final(self).ready()
                    &&& if old(self).ready() {
                        final(self).data().is_replaced(old(self).data(), loaded)
                    } else {
                        final(self).data().is_new(loaded)
                    }
                    &&& *final(self) == (ReviewApp {
                        state: final(self).state,
                        reloading: false,
                        refresh_error: None,
                        ..*old(self)
                    })
                    &&& loaded.wf() ==> final(self).wf()
                },
                Err(message) => *final(self) == if old(self).ready() {
                    ReviewApp { reloading: false, refresh_error: Some(message), ..*old(self) }
                } else {
                    ReviewApp { reloading: false, state: LoadState::Failed(message), ..*old(self) }
                },
            },
    {
        self.reloading = false;
        match outcome {
            Ok(loaded) => self.install(loaded),
            Err(message) => {
                match &self.state {
                    LoadState::Ready(_) => {
                        self.refresh_error = Some(message);
                    },
                    _ => {
                        self.state = LoadState::Failed(message);
                    },
                }
            },
        }
    }

    /// Asks for a refresh. Returns the view to fetch the diff for, or `None` if a
    /// fetch is under way already.
    pub fn refresh(&mut self) -> (fetch: Option<ViewMode>)
        ensures
            if old(self).reloading || old(self).state is Loading {
                fetch is None && *final(self) == *old(self)
            } else if old(self).ready() {
                fetch == Some(old(self).data().mode) && *final(self) == (ReviewApp {
                    reloading: true,
                    refresh_error: None,
                    ..*old(self)
                })
            } else {
                fetch == Some(ViewMode::Split) && *final(self) == (ReviewApp {
                    state: LoadState::Loading,
                    refresh_error: None,
                    ..*old(self)
                })
            },
    {
        if self.reloading {
            return None;
        }
        let mode = match &self.state {
            LoadState::Loading => return None,
            LoadState::Ready(data) => {
                self.reloading = true;
                data.mode
            },
            LoadState::Failed(_) => {
                self.state = LoadState::Loading;
                ViewMode::Split
            },
        };
        self.refresh_error = None;
        Some(mode)
    }
}

// --- Moving around ---------------------------------------------------------

/// The other view.
pub open spec fn other_mode(mode: ViewMode) -> ViewMode {
    match mode {
        ViewMode::Unified => ViewMode::Split,
        ViewMode::Split => ViewMode::Unified,
    }
}

/// The row of the `pos`-th file header; the first row if there is none.
pub open spec fn header_row(file_rows: Seq<int>, pos: Option<int>) -> int {
    match pos {
        Some(pos) => if 0 <= pos < file_rows.len() {
            file_rows[pos]
        } else {
            0
        },
        None => 0,
    }
}

/// Whether `after` is the display `before` in its other view, with the cursor on
/// the header of the file that it was in.
pub open spec fn is_switched<T>(before: ItemData<T>, after: ItemData<T>) -> bool {
    let mode = other_mode(before.mode);
    &&& after.shows(mode)
    &&& ints(after.file_rows@) == file_positions(layout(before.diff@, mode))
    &&& ints(after.hunk_rows@) == hunk_positions(layout(before.diff@, mode))
    &&& is_widest(
        layout(before.diff@, mode),
        after.widest_row_ix as int,
        after.max_line_chars as nat,
    )
    &&& after.cursor == header_row(
        ints(after.file_rows@),
        last_not_after(ints(before.file_rows@), before.cursor as int),
    )
    &&& after == (ItemData {
        mode,
        rows: after.rows,
        file_rows: after.file_rows,
        hunk_rows: after.hunk_rows,
        widest_row_ix: after.widest_row_ix,
        max_line_chars: after.max_line_chars,
        cursor: after.cursor,
        selection: None,
        ..before
    })
}

impl<T> ReviewApp<T> {
    /// Moves the cursor to a row. Returns the row to scroll to the top.
    pub fn jump(&mut self, ix: usize) -> (scroll: Option<usize>)
        ensures
            if old(self).ready() {
                scroll == Some(ix) && *final(self) == old(self).with_data(
                    ItemData { cursor: ix, ..old(self).data() },
                )
            } else {
                scroll is None && *final(self) == *old(self)
            },
            old(self).wf() && old(self).ready() && (ix == 0 || ix < old(self).data().rows.len())
                ==> final(self).wf(),
    {
        match &mut self.state {
            LoadState::Ready(data) => {
                data.cursor = ix;
                Some(ix)
            },
            _ => None,
        }
    }
}

impl<T: Copy> ReviewApp<T> {
    /// Switches between the two views. Returns the row to scroll to the top.
    pub fn toggle_view(&mut self) -> (scroll: Option<usize>)
        ensures
            if old(self).ready() {
                &&& final(self).ready()
                &&& is_switched(old(self).data(), final(self).data())
                &&& *final(self) == old(self).with_data(final(self).data())
                &&& scroll == Some(final(self).data().cursor)
            } else {
                scroll is None && *final(self) == *old(self)
            },
            old(self).wf() ==> final(self).wf(),
    {
        match &mut self.state {
            LoadState::Ready(data) => {
                let file_pos = find_last_not_after(data.file_rows.as_slice(), data.cursor);
                data.selection = None;
                data.mode = match data.mode {
                    ViewMode::Unified => ViewMode::Split,
                    ViewMode::Split => ViewMode::Unified,
                };
                let (rows, file_rows, hunk_rows) = build_rows(&data.diff, data.mode);
                data.set_rows(rows, file_rows, hunk_rows);
                let target: usize = match file_pos {
                    Some(pos) => if pos < data.file_rows.len() {
                        data.file_rows[pos]
                    } else {
                        0
                    },
                    None => 0,
                };
                proof {
                    let views = row_views(data.rows@);
                    crate::layout_laws::file_positions_are_the_file_headers(views);
                    if let Some(pos) = file_pos {
                        if pos < data.file_rows.len() {
                            assert(ints(data.file_rows@)[pos as int] == target);
                            assert(0 <= file_positions(views)[pos as int] < views.len());
                        }
                    }
                }
                data.cursor = target;
                Some(target)
            },
            _ => None,
        }
    }
}

impl<T> ReviewApp<T> {
    /// Jumps to the first of `targets` that is after the cursor, if there is one.
    pub fn jump_next(&mut self, targets: &[usize]) -> (scroll: Option<usize>)
        ensures
            opt_int(scroll) == if old(self).ready() {
                next_target(ints(targets@), old(self).data().cursor as int)
            } else {
                None
            },
            match scroll {
                Some(ix) => *final(self) == old(self).with_data(
                    ItemData { cursor: ix, ..old(self).data() },
                ),
                None => *final(self) == *old(self),
            },
    {
        let cursor: usize = match self.active_data() {
            Some(data) => data.cursor,
            None => return None,
        };
        match find_next(targets, cursor) {
            Some(ix) => self.jump(ix),
            None => None,
        }
    }

    /// Jumps to the last of `targets` that is before the cursor, if there is one.
    pub fn jump_prev(&mut self, targets: &[usize]) -> (scroll: Option<usize>)
        ensures
            opt_int(scroll) == if old(self).ready() {
                prev_target(ints(targets@), old(self).data().cursor as int)
            } else {
                None
            },
            match scroll {
                Some(ix) => *final(self) == old(self).with_data(
                    ItemData { cursor: ix, ..old(self).data() },
                ),
                None => *final(self) == *old(self),
            },
    {
        let cursor: usize = match self.active_data() {
            Some(data) => data.cursor,
            None => return None,
        };
        match find_prev(targets, cursor) {
            Some(ix) => self.jump(ix),
            None => None,
        }
    }

    /// Jumps to the header of the `file_ix`-th file.
    pub fn jump_to_file(&mut self, file_ix: usize) -> (scroll: Option<usize>)
        ensures
            scroll == if old(self).ready() && file_ix < old(self).data().file_rows.len() {
                Some(old(self).data().file_rows[file_ix as int])
            } else {
                None
            },
            match scroll {
                Some(ix) => *final(self) == old(self).with_data(
                    ItemData { cursor: ix, ..old(self).data() },
                ),
                None => *final(self) == *old(self),
            },
            old(self).wf() ==> final(self).wf(),
    {
        let row: usize = match self.active_data() {
            Some(data) => {
                if file_ix >= data.file_rows.len() {
                    return None;
                }
                proof {
                    let views = row_views(data.rows@);
                    crate::layout_laws::file_positions_are_the_file_headers(views);
                    assert(ints(data.file_rows@)[file_ix as int] == data.file_rows[file_ix as int]);
                }
                data.file_rows[file_ix]
            },
            None => return None,
        };
        self.jump(row)
    }
}

impl<T> ReviewApp<T> {
    /// The rows of the file headers.
    fn file_targets(&self) -> (targets: Vec<usize>)
        ensures
            targets@ == if self.ready() {
                self.data().file_rows@
            } else {
                seq![]
            },
    {
        match self.active_data() {
            Some(data) => {
                let targets = data.file_rows.clone();
                assert(targets@ =~= data.file_rows@);
                targets
            },
            None => Vec::new(),
        }
    }

    /// The rows of the hunk headers.
    fn hunk_targets(&self) -> (targets: Vec<usize>)
        ensures
            targets@ == if self.ready() {
                self.data().hunk_rows@
            } else {
                seq![]
            },
    {
        match self.active_data() {
            Some(data) => {
                let targets = data.hunk_rows.clone();
                assert(targets@ =~= data.hunk_rows@);
                targets
            },
            None => Vec::new(),
        }
    }

    /// Jumps to the next file.
    pub fn next_file(&mut self) -> (scroll: Option<usize>)
        ensures
            opt_int(scroll) == if old(self).ready() {
                next_target(ints(old(self).data().file_rows@), old(self).data().cursor as int)
            } else {
                None
            },
            final(self).is_moved(*old(self), scroll),
            old(self).wf() ==> final(self).wf(),
    {
        let targets = self.file_targets();
        proof {
            if self.wf() && self.ready() {
                self.lemma_targets();
                crate::navigate::next_target_is_the_nearest(
                    ints(self.data().file_rows@),
                    self.data().cursor as int,
                );
            }
        }
        self.jump_next(targets.as_slice())
    }

    /// Jumps to the file before.
    pub fn prev_file(&mut self) -> (scroll: Option<usize>)
        ensures
            opt_int(scroll) == if old(self).ready() {
                prev_target(ints(old(self).data().file_rows@), old(self).data().cursor as int)
            } else {
                None
            },
            final(self).is_moved(*old(self), scroll),
            old(self).wf() ==> final(self).wf(),
    {
        let targets = self.file_targets();
        proof {
            if self.wf() && self.ready() {
                self.lemma_targets();
                crate::navigate::prev_target_is_the_nearest(
                    ints(self.data().file_rows@),
                    self.data().cursor as int,
                );
            }
        }
        self.jump_prev(targets.as_slice())
    }

    /// Jumps to the next hunk.
    pub fn next_hunk(&mut self) -> (scroll: Option<usize>)
        ensures
            opt_int(scroll) == if old(self).ready() {
                next_target(ints(old(self).data().hunk_rows@), old(self).data().cursor as int)
            } else {
                None
            },
            final(self).is_moved(*old(self), scroll),
            old(self).wf() ==> final(self).wf(),
    {
        let targets = self.hunk_targets();
        proof {
            if self.wf() && self.ready() {
                self.lemma_targets();
                crate::navigate::next_target_is_the_nearest(
                    ints(self.data().hunk_rows@),
                    self.data().cursor as int,
                );
            }
        }
        self.jump_next(targets.as_slice())
    }

    /// Jumps to the hunk before.
    pub fn prev_hunk(&mut self) -> (scroll: Option<usize>)
        ensures
            opt_int(scroll) == if old(self).ready() {
                prev_target(ints(old(self).data().hunk_rows@), old(self).data().cursor as int)
            } else {
                None
            },
            final(self).is_moved(*old(self), scroll),
            old(self).wf() ==> final(self).wf(),
    {
        let targets = self.hunk_targets();
        proof {
            if self.wf() && self.ready() {
                self.lemma_targets();
                crate::navigate::prev_target_is_the_nearest(
                    ints(self.data().hunk_rows@),
                    self.data().cursor as int,
                );
            }
        }
        self.jump_prev(targets.as_slice())
    }

    /// Jumps to the first row.
    pub fn go_to_top(&mut self) -> (scroll: Option<usize>)
        ensures
            scroll == if old(self).ready() {
                Some(0usize)
            } else {
                None
            },
            final(self).is_moved(*old(self), scroll),
            old(self).wf() ==> final(self).wf(),
    {
        self.jump(0)
    }

    /// Jumps to the last row.
    pub fn go_to_bottom(&mut self) -> (scroll: Option<usize>)
        ensures
            opt_int(scroll) == if !old(self).ready() {
                None
            } else if old(self).data().rows.len() > 0 {
                Some(old(self).data().rows.len() - 1)
            } else {
                Some(0int)
            },
            final(self).is_moved(*old(self), scroll),
            old(self).wf() ==> final(self).wf(),
    {
        let last: usize = match self.active_data() {
            Some(data) => if data.rows.len() > 0 {
                data.rows.len() - 1
            } else {
                0
            },
            None => return None,
        };
        self.jump(last)
    }

    /// Whether this is the state `before` with the cursor moved to the row `to`, if
    /// there is one.
    pub open spec fn is_moved(self, before: ReviewApp<T>, to: Option<usize>) -> bool {
        match to {
            Some(ix) => self == before.with_data(ItemData { cursor: ix, ..before.data() }),
            None => self == before,
        }
    }

    /// The headers of a well-formed display are rows of it, in ascending order.
    proof fn lemma_targets(self)
        requires
            self.ready(),
            self.data().wf(),
        ensures
            crate::navigate::ascending(ints(self.data().file_rows@)),
            crate::navigate::ascending(ints(self.data().hunk_rows@)),
            forall|row: int| #[trigger]
                ints(self.data().file_rows@).contains(row) ==> 0 <= row < self.data().rows.len(),
            forall|row: int| #[trigger]
                ints(self.data().hunk_rows@).contains(row) ==> 0 <= row < self.data().rows.len(),
    {
        let views = row_views(self.data().rows@);
        crate::layout_laws::file_positions_are_the_file_headers(views);
        crate::layout_laws::hunk_positions_are_the_hunk_headers(views);
    }
}

// --- Selecting -------------------------------------------------------------

/// The side on which a place in the pane lies.
pub open spec fn hit_side(mode: ViewMode, left_half: bool, locked: Option<SelSide>) -> SelSide {
    match mode {
        ViewMode::Unified => SelSide::Unified,
        ViewMode::Split => match locked {
            Some(side) => side,
            None => if left_half {
                SelSide::Left
            } else {
                SelSide::Right
            },
        },
    }
}

impl<T> ReviewApp<T> {
    /// The side and the row of a place in the pane. `row` counts the rows from the
    /// top, also past the last one; `locked` is the side on which a drag began.
    pub fn pane_text_hit(&self, row: usize, left_half: bool, locked: Option<SelSide>) -> (hit:
        Option<(SelSide, usize)>)
        ensures
            if self.ready() && self.data().rows.len() > 0 {
                &&& hit matches Some((side, at))
                &&& side == hit_side(self.data().mode, left_half, locked)
                &&& at == if row < self.data().rows.len() {
                    row as int
                } else {
                    self.data().rows.len() - 1
                }
            } else {
                hit is None
            },
    {
        match self.active_data() {
            Some(data) => {
                if data.rows.len() == 0 {
                    return None;
                }
                let at: usize = if row < data.rows.len() {
                    row
                } else {
                    data.rows.len() - 1
                };
                let side = match data.mode {
                    ViewMode::Unified => SelSide::Unified,
                    ViewMode::Split => match locked {
                        Some(side) => side,
                        None => if left_half {
                            SelSide::Left
                        } else {
                            SelSide::Right
                        },
                    },
                };
                Some((side, at))
            },
            None => None,
        }
    }

    /// The mouse goes down at a place: a drag may begin there, and what was selected
    /// is no longer. Returns whether anything was.
    pub fn mouse_down(&mut self, hit: Option<(SelSide, RowCol)>) -> (changed: bool)
        ensures
            changed == (old(self).ready() && old(self).data().selection is Some),
            *final(self) == (ReviewApp {
                drag_anchor: hit,
                state: if old(self).ready() {
                    LoadState::Ready(ItemData { selection: None, ..old(self).data() })
                } else {
                    old(self).state
                },
                ..*old(self)
            }),
            old(self).wf() ==> final(self).wf(),
    {
        self.drag_anchor = hit;
        self.drop_selection()
    }

    /// Drops the selection. Returns whether there was one.
    fn drop_selection(&mut self) -> (changed: bool)
        ensures
            changed == (old(self).ready() && old(self).data().selection is Some),
            *final(self) == (ReviewApp {
                state: if old(self).ready() {
                    LoadState::Ready(ItemData { selection: None, ..old(self).data() })
                } else {
                    old(self).state
                },
                ..*old(self)
            }),
            old(self).wf() ==> final(self).wf(),
    {
        match &mut self.state {
            LoadState::Ready(data) => {
                let changed = data.selection.is_some();
                data.selection = None;
                changed
            },
            _ => false,
        }
    }

    /// The side to which a drag is locked.
    pub fn drag_side(&self) -> (side: Option<SelSide>)
        ensures
            side == (match self.drag_anchor {
                Some((side, _)) => Some(side),
                None => None,
            }),
    {
        match self.drag_anchor {
            Some((side, _)) => Some(side),
            None => None,
        }
    }

    /// The mouse is dragged to a place: what lies between where the drag began and
    /// that place is selected, on the side where it began. Returns whether the
    /// selection changed.
    pub fn drag_to(&mut self, hit: Option<(SelSide, RowCol)>) -> (changed: bool)
        ensures
            match (old(self).drag_anchor, hit) {
                (Some((side, anchor)), Some((_, head))) => {
                    let selection = if head != anchor {
                        Some(Selection { side, anchor, head })
                    } else {
                        None
                    };
                    if old(self).ready() {
                        &&& changed == (old(self).data().selection != selection)
                        &&& *final(self) == old(self).with_data(
                            ItemData { selection, ..old(self).data() },
                        )
                    } else {
                        !changed && *final(self) == *old(self)
                    }
                },
                _ => !changed && *final(self) == *old(self),
            },
            old(self).wf() && (hit is Some && old(self).ready() ==> old(self).data().rows.len() > 0)
                ==> final(self).wf(),
    {
        let (side, anchor) = match self.drag_anchor {
            Some(began) => began,
            None => return false,
        };
        let head = match hit {
            Some((_, head)) => head,
            None => return false,
        };
        let selection = if head != anchor {
            Some(Selection { side, anchor, head })
        } else {
            None
        };
        match &mut self.state {
            LoadState::Ready(data) => {
                let same = match (data.selection, selection) {
                    (Some(before), Some(now)) => before == now,
                    (None, None) => true,
                    _ => false,
                };
                data.selection = selection;
                !same
            },
            _ => false,
        }
    }

    /// The mouse is released: a drag ends.
    pub fn mouse_up(&mut self)
        ensures
            *final(self) == (ReviewApp { drag_anchor: None, ..*old(self) }),
            old(self).wf() ==> final(self).wf(),
    {
        self.drag_anchor = None;
    }

    /// Leaves what is on top: the list of keys if it is shown, else the selection.
    /// Returns whether anything changed.
    pub fn clear_selection(&mut self) -> (changed: bool)
        ensures
            changed == (old(self).keybindings_visible || (old(self).ready() && old(
                self,
            ).data().selection is Some)),
            *final(self) == if old(self).keybindings_visible {
                ReviewApp { keybindings_visible: false, ..*old(self) }
            } else {
                ReviewApp {
                    state: if old(self).ready() {
                        LoadState::Ready(ItemData { selection: None, ..old(self).data() })
                    } else {
                        old(self).state
                    },
                    ..*old(self)
                }
            },
            old(self).wf() ==> final(self).wf(),
    {
        if self.keybindings_visible {
            self.keybindings_visible = false;
            return true;
        }
        self.drop_selection()
    }

    /// The text to copy: what is selected, if that is not empty.
    pub fn copy_selection(&self) -> (text: Option<String>)
        requires
            self.ready() && self.data().selection is Some ==> self.data().rows.len() > 0
                || self.data().selection->0.start().row > 0,
        ensures
            match text {
                Some(text) => {
                    &&& self.ready() && self.data().selection is Some
                    &&& text@ == copied_text(
                        self.data().selection->0,
                        row_views(self.data().rows@),
                    )
                    &&& text@.len() > 0
                },
                None => self.ready() && self.data().selection is Some ==> copied_text(
                    self.data().selection->0,
                    row_views(self.data().rows@),
                ).len() == 0,
            },
    {
        match self.active_data() {
            Some(data) => match data.selection {
                Some(sel) => {
                    let text = selection_text(&sel, data.rows.as_slice());
                    if text.as_str().is_empty() {
                        None
                    } else {
                        Some(text)
                    }
                },
                None => None,
            },
            None => None,
        }
    }
}

// --- What is shown around the diff -----------------------------------------

impl<T> ReviewApp<T> {
    /// Shows or hides the sidebar.
    pub fn toggle_sidebar(&mut self)
        ensures
            *final(self) == (ReviewApp {
                sidebar_visible: !old(self).sidebar_visible,
                ..*old(self)
            }),
    {
        self.sidebar_visible = !self.sidebar_visible;
    }

    /// Shows or hides the list of keys.
    pub fn toggle_keybindings(&mut self)
        ensures
            *final(self) == (ReviewApp {
                keybindings_visible: !old(self).keybindings_visible,
                ..*old(self)
            }),
    {
        self.keybindings_visible = !self.keybindings_visible;
    }

    /// Hides the list of keys.
    pub fn hide_keybindings(&mut self)
        ensures
            *final(self) == (ReviewApp { keybindings_visible: false, ..*old(self) }),
    {
        self.keybindings_visible = false;
    }

    /// The filter is about to get the focus: the sidebar has to be visible.
    pub fn focus_tree_filter(&mut self)
        ensures
            *final(self) == (ReviewApp { sidebar_visible: true, ..*old(self) }),
    {
        self.sidebar_visible = true;
    }

    /// The mouse goes down on the title bar.
    pub fn titlebar_down(&mut self)
        ensures
            *final(self) == (ReviewApp { titlebar_dragging: true, ..*old(self) }),
    {
        self.titlebar_dragging = true;
    }

    /// The mouse moves over the title bar. Returns whether the window is to be moved
    /// from here on: once after the mouse went down.
    pub fn titlebar_moved(&mut self) -> (starts: bool)
        ensures
            starts == old(self).titlebar_dragging,
            *final(self) == (ReviewApp { titlebar_dragging: false, ..*old(self) }),
    {
        let starts = self.titlebar_dragging;
        self.titlebar_dragging = false;
        starts
    }

    /// The mouse is released on the title bar or outside of it.
    pub fn titlebar_up(&mut self)
        ensures
            *final(self) == (ReviewApp { titlebar_dragging: false, ..*old(self) }),
    {
        self.titlebar_dragging = false;
    }

    /// What the title bar says while no diff is on display.
    pub fn title(&self) -> (title: Option<&'static str>)
        ensures
            match title {
                Some(title) => title@ == (match self.state {
                    LoadState::Loading => "loading…"@,
                    _ => "failed"@,
                }) && !self.ready(),
                None => self.ready(),
            },
    {
        match &self.state {
            LoadState::Ready(_) => None,
            LoadState::Loading => Some("loading…"),
            LoadState::Failed(_) => Some("failed"),
        }
    }

    /// The note at the end of the title bar: that a refresh is under way, or why the
    /// last one failed.
    pub fn note(&self) -> (note: Option<String>)
        ensures
            match note {
                Some(note) => if self.reloading {
                    note@ == "reloading…"@
                } else {
                    &&& self.refresh_error is Some
                    &&& note@ == "refresh failed: "@ + self.refresh_error->0@
                },
                None => !self.reloading && self.refresh_error is None,
            },
    {
        if self.reloading {
            return Some("reloading…".to_owned());
        }
        match &self.refresh_error {
            Some(error) => {
                let mut note = "refresh failed: ".to_owned();
                note.append(error.as_str());
                Some(note)
            },
            None => None,
        }
    }
}

}
