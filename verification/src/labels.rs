//! The texts of markers and labels.

use crate::diff::FileStatus;
use crate::rows::LineKind;
use crate::text::{decimal, push_decimal};
use vstd::prelude::*;

verus! {

/// The marker of a line of the given kind.
pub open spec fn marker(kind: LineKind) -> Seq<char> {
    match kind {
        LineKind::Context => ""@,
        LineKind::Added => "+"@,
        LineKind::Removed => "−"@,
    }
}

/// The marker in front of a line.
pub fn kind_marker(kind: LineKind) -> (text: &'static str)
    ensures
        text@ == marker(kind),
{
    match kind {
        LineKind::Context => "",
        LineKind::Added => "+",
        LineKind::Removed => "−",
    }
}

/// The word for what happened to a file.
pub open spec fn status_word(status: FileStatus) -> Seq<char> {
    match status {
        FileStatus::Added => "added"@,
        FileStatus::Deleted => "deleted"@,
        FileStatus::Modified => "modified"@,
        FileStatus::Renamed => "renamed"@,
        FileStatus::Binary => "binary"@,
    }
}

/// The word for what happened to a file.
pub fn status_label(status: FileStatus) -> (text: &'static str)
    ensures
        text@ == status_word(status),
{
    match status {
        FileStatus::Added => "added",
        FileStatus::Deleted => "deleted",
        FileStatus::Modified => "modified",
        FileStatus::Renamed => "renamed",
        FileStatus::Binary => "binary",
    }
}

/// A line number; nothing where there is none.
pub fn line_number(no: Option<u32>) -> (text: String)
    ensures
        text@ == (match no {
            Some(no) => decimal(no as nat),
            None => seq![],
        }),
{
    let mut text = String::new();
    if let Some(no) = no {
        push_decimal(&mut text, no);
        assert(text@ =~= decimal(no as nat));
    }
    text
}

/// The count of added lines.
pub fn additions_label(count: u32) -> (text: String)
    ensures
        text@ == "+"@ + decimal(count as nat),
{
    let mut text = "+".to_owned();
    push_decimal(&mut text, count);
    text
}

/// The count of removed lines.
pub fn deletions_label(count: u32) -> (text: String)
    ensures
        text@ == "−"@ + decimal(count as nat),
{
    let mut text = "−".to_owned();
    push_decimal(&mut text, count);
    text
}

/// Where a renamed file came from.
pub fn renamed_from_label(old_path: &str) -> (text: String)
    ensures
        text@ == "← "@ + old_path@,
{
    let mut text = "← ".to_owned();
    text.append(old_path);
    text
}

/// What the diff is taken against.
pub fn base_label(base: &str) -> (text: String)
    ensures
        text@ == "vs "@ + base@,
{
    let mut text = "vs ".to_owned();
    text.append(base);
    text
}

/// The sign in front of a directory of the tree.
pub fn dir_marker(collapsed: bool) -> (text: &'static str)
    ensures
        text@ == if collapsed {
            "▸"@
        } else {
            "▾"@
        },
{
    if collapsed {
        "▸"
    } else {
        "▾"
    }
}

/// Context lines have no marker, added lines a plus, removed lines a minus sign.
pub proof fn markers_tell_the_kind(kind: LineKind)
    ensures
        marker(kind) == (match kind {
            LineKind::Context => Seq::<char>::empty(),
            LineKind::Added => seq!['+'],
            LineKind::Removed => seq!['−'],
        }),
{
    reveal_strlit("");
    reveal_strlit("+");
    reveal_strlit("−");
    assert(""@ =~= Seq::<char>::empty());
    assert("+"@ =~= seq!['+']);
    assert("−"@ =~= seq!['−']);
}

/// Each status has a word of its own.
pub proof fn words_tell_the_status(status: FileStatus)
    ensures
        status_word(status) == (match status {
            FileStatus::Added => seq!['a', 'd', 'd', 'e', 'd'],
            FileStatus::Deleted => seq!['d', 'e', 'l', 'e', 't', 'e', 'd'],
            FileStatus::Modified => seq!['m', 'o', 'd', 'i', 'f', 'i', 'e', 'd'],
            FileStatus::Renamed => seq!['r', 'e', 'n', 'a', 'm', 'e', 'd'],
            FileStatus::Binary => seq!['b', 'i', 'n', 'a', 'r', 'y'],
        }),
{
    reveal_strlit("added");
    reveal_strlit("deleted");
    reveal_strlit("modified");
    reveal_strlit("renamed");
    reveal_strlit("binary");
    assert("added"@ =~= seq!['a', 'd', 'd', 'e', 'd']);
    assert("deleted"@ =~= seq!['d', 'e', 'l', 'e', 't', 'e', 'd']);
    assert("modified"@ =~= seq!['m', 'o', 'd', 'i', 'f', 'i', 'e', 'd']);
    assert("renamed"@ =~= seq!['r', 'e', 'n', 'a', 'm', 'e', 'd']);
    assert("binary"@ =~= seq!['b', 'i', 'n', 'a', 'r', 'y']);
}

}
