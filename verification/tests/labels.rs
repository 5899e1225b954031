use diffview::diff::FileStatus;
use diffview::labels::{
    additions_label, base_label, deletions_label, dir_marker, kind_marker, line_number,
    renamed_from_label, status_label,
};
use diffview::rows::LineKind;

#[test]
fn lines_have_markers() {
    assert_eq!(kind_marker(LineKind::Context), "");
    assert_eq!(kind_marker(LineKind::Added), "+");
    assert_eq!(kind_marker(LineKind::Removed), "−");
}

#[test]
fn files_have_a_word_for_their_status() {
    assert_eq!(status_label(FileStatus::Added), "added");
    assert_eq!(status_label(FileStatus::Deleted), "deleted");
    assert_eq!(status_label(FileStatus::Modified), "modified");
    assert_eq!(status_label(FileStatus::Renamed), "renamed");
    assert_eq!(status_label(FileStatus::Binary), "binary");
}

#[test]
fn numbers_are_written_in_decimal() {
    assert_eq!(line_number(None), "");
    assert_eq!(line_number(Some(0)), "0");
    assert_eq!(line_number(Some(4294967295)), "4294967295");
    assert_eq!(additions_label(120), "+120");
    assert_eq!(deletions_label(7), "−7");
}

#[test]
fn labels_name_the_source() {
    assert_eq!(renamed_from_label("old.rs"), "← old.rs");
    assert_eq!(base_label("main"), "vs main");
    assert_eq!(dir_marker(true), "▸");
    assert_eq!(dir_marker(false), "▾");
}
