use diffview::diff::{DiffRow, FileDiff, FileStatus, Hunk, PrDiff};
use diffview::item::{load_item, repo_path, ItemData};
use diffview::rows::ViewMode;
use diffview::selection::{RowCol, SelSide, Selection};
use diffview::sidebar::{TreeClick, TreeLine, TreeListRow};
use diffview::viewer::{LoadState, ReviewApp};

fn file(path: &str, counts: (u32, u32), hunks: usize) -> FileDiff<u8> {
    FileDiff {
        display_path: path.to_string(),
        old_path: None,
        status: FileStatus::Modified,
        hunks: (0..hunks)
            .map(|_| Hunk {
                old_start: 1,
                old_count: 1,
                new_start: 1,
                new_count: 1,
                section: String::new(),
                rows: vec![
                    DiffRow::Removed { old_no: 1, text: "old".to_string(), intra: vec![] },
                    DiffRow::Added { new_no: 1, text: "newer".to_string(), intra: vec![] },
                ],
                highlights: None,
            })
            .collect(),
        additions: counts.0,
        deletions: counts.1,
    }
}

/// In the split view: `src/a.rs` at 0, hunks at 1 and 3; `src/b.rs` at 6, a hunk at
/// 7; `c.md` at 10. In the unified view: 0, hunks at 1 and 4; 8, a hunk at 9; 13.
fn diff() -> PrDiff<u8> {
    PrDiff {
        files: vec![
            file("src/a.rs", (2, 2), 2),
            file("src/b.rs", (1, 1), 1),
            file("c.md", (5, 0), 0),
        ],
    }
}

fn ready() -> ReviewApp<u8> {
    let mut app = ReviewApp::new();
    app.fetched(Ok(load_item(diff(), ViewMode::Split)));
    app
}

fn data(app: &ReviewApp<u8>) -> &ItemData<u8> {
    app.active_data().unwrap()
}

#[test]
fn the_viewer_starts_loading() {
    let mut app: ReviewApp<u8> = ReviewApp::new();
    assert!(app.active_data().is_none());
    assert!(app.active_data_mut().is_none());
    assert_eq!(app.title(), Some("loading…"));
    assert_eq!(app.note(), None);
    assert!(app.sidebar_visible);
    assert!(!app.keybindings_visible);
    assert_eq!(app.refresh(), None);
}

#[test]
fn a_fetched_diff_is_shown_from_its_top() {
    let app = ready();
    let data = data(&app);
    assert_eq!(app.title(), None);
    assert_eq!(data.mode, ViewMode::Split);
    assert_eq!(data.cursor, 0);
    assert_eq!((data.additions, data.deletions), (8, 3));
    assert_eq!(data.file_rows, vec![0, 6, 10]);
    assert_eq!(data.hunk_rows, vec![1, 3, 7]);
    assert_eq!(data.rows.len(), 11);
    assert_eq!((data.widest_row_ix, data.max_line_chars), (2, 5));
    let names: Vec<&str> = data.tree.iter().map(|entry| entry.name.as_str()).collect();
    assert_eq!(names, vec!["src", "a.rs", "b.rs", "c.md"]);
}

#[test]
fn a_first_failure_is_shown_and_can_be_retried() {
    let mut app: ReviewApp<u8> = ReviewApp::new();
    app.fetched(Err("no repository".to_string()));
    assert!(matches!(&app.state, LoadState::Failed(message) if message == "no repository"));
    assert_eq!(app.title(), Some("failed"));
    assert_eq!(app.refresh(), Some(ViewMode::Split));
    assert!(matches!(app.state, LoadState::Loading));
    assert!(!app.reloading);
    app.fetched(Ok(load_item(diff(), ViewMode::Split)));
    assert!(app.active_data().is_some());
}

#[test]
fn a_failed_refresh_keeps_the_diff() {
    let mut app = ready();
    app.toggle_view();
    app.next_file();
    assert_eq!(app.refresh(), Some(ViewMode::Unified));
    assert_eq!(app.note().as_deref(), Some("reloading…"));
    assert_eq!(app.refresh(), None);
    app.fetched(Err("gone".to_string()));
    assert_eq!(app.note().as_deref(), Some("refresh failed: gone"));
    assert_eq!(data(&app).cursor, 8);
    assert_eq!(data(&app).rows.len(), 14);
    app.refresh();
    assert_eq!(app.note().as_deref(), Some("reloading…"));
    app.fetched(Ok(load_item(diff(), ViewMode::Unified)));
    assert_eq!(app.note(), None);
    assert_eq!(data(&app).cursor, 8);
}

#[test]
fn a_refresh_keeps_what_it_can() {
    let mut app = ready();
    app.go_to_bottom();
    app.tree_entry_clicked(0);
    app.mouse_down(Some((SelSide::Left, RowCol { row: 2, col: 0 })));
    app.drag_to(Some((SelSide::Left, RowCol { row: 2, col: 2 })));
    assert!(data(&app).selection.is_some());
    let smaller = PrDiff { files: vec![file("src/a.rs", (1, 0), 1), file("src/new.rs", (1, 0), 0)] };
    app.fetched(Ok(load_item(smaller, ViewMode::Split)));
    assert_eq!(data(&app).rows.len(), 5);
    assert_eq!(data(&app).cursor, 4);
    assert_eq!(data(&app).selection, None);
    assert_eq!((data(&app).additions, data(&app).deletions), (2, 0));
    assert!(data(&app).collapsed.contains(&"src".to_string()));
    app.fetched(Ok(load_item(PrDiff { files: vec![] }, ViewMode::Split)));
    assert_eq!(data(&app).cursor, 0);
    assert!(!data(&app).collapsed.contains(&"src".to_string()));
}

#[test]
fn an_unchanged_diff_shows_the_same_after_a_refresh() {
    let mut app = ready();
    app.next_hunk();
    app.tree_entry_clicked(0);
    let before = format!("{:?}", data(&app));
    app.fetched(Ok(load_item(diff(), ViewMode::Split)));
    assert_eq!(format!("{:?}", data(&app)), before);
}

#[test]
fn totals_that_do_not_fit_are_noticed() {
    let fits = PrDiff { files: vec![file("a", (u32::MAX, 1), 0), file("b", (0, 2), 0)] };
    assert_eq!(fits.totals(), Some((u32::MAX, 3)));
    let added = PrDiff { files: vec![file("a", (u32::MAX, 0), 0), file("b", (1, 0), 0)] };
    assert_eq!(added.totals(), None);
    let removed = PrDiff { files: vec![file("a", (0, u32::MAX), 0), file("b", (0, 1), 0)] };
    assert_eq!(removed.totals(), None);
}

#[test]
fn jumps_go_to_the_headers() {
    let mut app = ready();
    assert_eq!(app.next_file(), Some(6));
    assert_eq!(app.next_file(), Some(10));
    assert_eq!(app.next_file(), None);
    assert_eq!(data(&app).cursor, 10);
    assert_eq!(app.prev_hunk(), Some(7));
    assert_eq!(app.prev_hunk(), Some(3));
    assert_eq!(app.next_hunk(), Some(7));
    assert_eq!(app.prev_file(), Some(6));
    assert_eq!(app.prev_file(), Some(0));
    assert_eq!(app.prev_file(), None);
    assert_eq!(app.prev_hunk(), None);
    assert_eq!(app.go_to_bottom(), Some(10));
    assert_eq!(app.go_to_top(), Some(0));
    assert_eq!(app.jump_to_file(1), Some(6));
    assert_eq!(app.jump_to_file(3), None);
    assert_eq!(data(&app).cursor, 6);
}

#[test]
fn nothing_moves_before_a_diff_is_there() {
    let mut app: ReviewApp<u8> = ReviewApp::new();
    assert_eq!(app.next_file(), None);
    assert_eq!(app.prev_hunk(), None);
    assert_eq!(app.go_to_top(), None);
    assert_eq!(app.go_to_bottom(), None);
    assert_eq!(app.jump(3), None);
    assert_eq!(app.toggle_view(), None);
    assert_eq!(app.tree_entry_clicked(0), TreeClick::Ignored);
    assert_eq!(app.tree_filter_confirm("a"), None);
    assert_eq!(app.copy_selection(), None);
    assert!(app.sidebar("", 0).rows.is_empty());
}

#[test]
fn switching_the_view_keeps_the_file() {
    let mut app = ready();
    app.jump(9);
    assert_eq!(app.toggle_view(), Some(8));
    assert_eq!(data(&app).mode, ViewMode::Unified);
    assert_eq!(data(&app).file_rows, vec![0, 8, 13]);
    assert_eq!(data(&app).hunk_rows, vec![1, 4, 9]);
    assert_eq!(app.toggle_view(), Some(6));
    assert_eq!(data(&app).mode, ViewMode::Split);
    assert_eq!(data(&app).file_rows, vec![0, 6, 10]);
    assert_eq!(data(&app).rows.len(), 11);
}

#[test]
fn switching_the_view_drops_the_selection() {
    let mut app = ready();
    app.mouse_down(Some((SelSide::Left, RowCol { row: 2, col: 0 })));
    assert!(app.drag_to(Some((SelSide::Left, RowCol { row: 2, col: 2 }))));
    app.toggle_view();
    assert_eq!(data(&app).selection, None);
}

#[test]
fn the_sidebar_follows_the_reader() {
    let mut app = ready();
    let first = app.sidebar("", 0);
    assert_eq!(
        first.rows,
        vec![
            TreeListRow::Entry(0),
            TreeListRow::Entry(1),
            TreeListRow::Entry(2),
            TreeListRow::Entry(3),
        ]
    );
    assert_eq!((first.current_row, first.scroll_to), (Some(1), Some(1)));
    let again = app.sidebar("", 5);
    assert_eq!((again.current_row, again.scroll_to), (Some(1), None));
    let other = app.sidebar("", 6);
    assert_eq!((other.current_row, other.scroll_to), (Some(2), Some(2)));
    assert!(!other.no_matches);
}

#[test]
fn the_sidebar_lists_what_the_filter_finds() {
    let mut app = ready();
    let listed = app.sidebar(" b.rs ", 6);
    assert_eq!(listed.rows, vec![TreeListRow::FilteredFile(1)]);
    assert_eq!(listed.current_row, Some(0));
    let nothing = app.sidebar("zzz", 6);
    assert!(nothing.rows.is_empty() && nothing.no_matches);
    assert_eq!(nothing.current_row, None);
}

#[test]
fn clicks_toggle_directories_and_open_files() {
    let mut app = ready();
    assert_eq!(app.tree_entry_clicked(0), TreeClick::Toggled);
    let collapsed = app.sidebar("", 0);
    assert_eq!(collapsed.rows, vec![TreeListRow::Entry(0), TreeListRow::Entry(3)]);
    assert_eq!(collapsed.current_row, None);
    assert_eq!(app.tree_entry_clicked(0), TreeClick::Toggled);
    assert_eq!(app.sidebar("", 0).rows.len(), 4);
    assert_eq!(app.tree_entry_clicked(2), TreeClick::Jumped(6));
    assert_eq!(data(&app).cursor, 6);
    assert_eq!(app.tree_entry_clicked(4), TreeClick::Ignored);
}

#[test]
fn lines_of_the_sidebar_show_directories_and_files() {
    let mut app = ready();
    let data = data(&app);
    assert!(matches!(
        data.tree_line(TreeListRow::Entry(0)),
        TreeLine::Dir { depth: 0, marker: "▾", name: "src" }
    ));
    match data.tree_line(TreeListRow::Entry(1)) {
        TreeLine::File { depth, name, stats } => {
            assert_eq!((depth, name, stats.status), (1, "a.rs", FileStatus::Modified));
            assert_eq!((stats.additions.as_str(), stats.deletions.as_str()), ("+2", "−2"));
        }
        _ => panic!("not a file"),
    }
    match data.tree_line(TreeListRow::FilteredFile(2)) {
        TreeLine::Match { path, stats } => {
            assert_eq!((path, stats.additions.as_str()), ("c.md", "+5"));
        }
        _ => panic!("not a match"),
    }
    app.tree_entry_clicked(0);
    assert!(matches!(
        app.active_data().unwrap().tree_line(TreeListRow::Entry(0)),
        TreeLine::Dir { marker: "▸", .. }
    ));
}

#[test]
fn confirming_the_filter_opens_the_best_match() {
    let mut app = ready();
    assert_eq!(app.tree_filter_confirm("c.md"), Some(10));
    assert_eq!(data(&app).cursor, 10);
    assert_eq!(app.tree_filter_confirm("  "), None);
    assert_eq!(app.tree_filter_confirm("zzz"), None);
    assert_eq!(data(&app).cursor, 10);
}

#[test]
fn dragging_selects_on_one_side() {
    let mut app = ready();
    assert_eq!(app.pane_text_hit(2, true, None), Some((SelSide::Left, 2)));
    assert_eq!(app.pane_text_hit(2, false, None), Some((SelSide::Right, 2)));
    assert_eq!(app.pane_text_hit(2, false, Some(SelSide::Left)), Some((SelSide::Left, 2)));
    assert_eq!(app.pane_text_hit(99, true, None), Some((SelSide::Left, 10)));
    let anchor = RowCol { row: 2, col: 1 };
    assert!(!app.mouse_down(Some((SelSide::Right, anchor))));
    assert_eq!(app.drag_side(), Some(SelSide::Right));
    assert!(!app.drag_to(Some((SelSide::Right, anchor))));
    let head = RowCol { row: 4, col: 3 };
    assert!(app.drag_to(Some((SelSide::Left, head))));
    assert!(!app.drag_to(Some((SelSide::Left, head))));
    assert_eq!(
        data(&app).selection,
        Some(Selection { side: SelSide::Right, anchor, head })
    );
    assert_eq!(app.copy_selection().as_deref(), Some("ewer\nnew"));
    assert!(!app.drag_to(None));
    app.mouse_up();
    assert_eq!(app.drag_side(), None);
    assert!(!app.drag_to(Some((SelSide::Right, anchor))));
    assert!(app.mouse_down(None));
    assert_eq!(app.copy_selection(), None);
}

#[test]
fn the_unified_view_has_one_side() {
    let mut app = ready();
    app.toggle_view();
    assert_eq!(app.pane_text_hit(2, true, Some(SelSide::Left)), Some((SelSide::Unified, 2)));
    app.fetched(Ok(load_item(PrDiff { files: vec![] }, ViewMode::Unified)));
    assert_eq!(app.pane_text_hit(2, true, None), None);
}

#[test]
fn nothing_is_copied_where_nothing_is_selected() {
    let mut app = ready();
    app.mouse_down(Some((SelSide::Left, RowCol { row: 0, col: 0 })));
    app.drag_to(Some((SelSide::Left, RowCol { row: 1, col: 4 })));
    assert!(data(&app).selection.is_some());
    assert_eq!(app.copy_selection(), None);
}

#[test]
fn escape_leaves_what_is_on_top() {
    let mut app = ready();
    app.mouse_down(Some((SelSide::Left, RowCol { row: 2, col: 0 })));
    app.drag_to(Some((SelSide::Left, RowCol { row: 2, col: 2 })));
    app.toggle_keybindings();
    assert!(app.keybindings_visible);
    assert!(app.clear_selection());
    assert!(!app.keybindings_visible);
    assert!(data(&app).selection.is_some());
    assert!(app.clear_selection());
    assert_eq!(data(&app).selection, None);
    assert!(!app.clear_selection());
    app.toggle_keybindings();
    app.hide_keybindings();
    assert!(!app.keybindings_visible);
}

#[test]
fn the_sidebar_is_shown_for_its_filter() {
    let mut app = ready();
    app.toggle_sidebar();
    assert!(!app.sidebar_visible);
    app.focus_tree_filter();
    assert!(app.sidebar_visible);
    app.focus_tree_filter();
    assert!(app.sidebar_visible);
}

#[test]
fn the_window_moves_once_for_each_press() {
    let mut app: ReviewApp<u8> = ReviewApp::new();
    assert!(!app.titlebar_moved());
    app.titlebar_down();
    assert!(app.titlebar_moved());
    assert!(!app.titlebar_moved());
    app.titlebar_down();
    app.titlebar_up();
    assert!(!app.titlebar_moved());
}

#[test]
fn the_repository_is_the_argument_or_the_working_directory() {
    assert_eq!(repo_path(Some("/tmp/repo"), true), "/tmp/repo");
    assert_eq!(repo_path(Some("--help"), false), ".");
    assert_eq!(repo_path(None, false), ".");
}
