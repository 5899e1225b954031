//! A parsed diff: files, their hunks, and the lines of each hunk.
//!
//! `T` is the kind of token that a syntax highlighter gives to a span of text.

use std::ops::Range;
use vstd::prelude::*;

verus! {

/// What happened to a file.
#[derive(Clone, Copy, PartialEq, Eq, Debug, Structural)]
pub enum FileStatus {
    Added,
    Deleted,
    Modified,
    Renamed,
    Binary,
}

/// One line of a hunk. `intra` holds the byte ranges of the words that changed.
#[derive(Debug)]
pub enum DiffRow {
    Context { old_no: u32, new_no: u32, text: String },
    Added { new_no: u32, text: String, intra: Vec<Range<usize>> },
    Removed { old_no: u32, text: String, intra: Vec<Range<usize>> },
}

/// What a highlighter found in the two sides of a hunk: for each line of the
/// side, the byte ranges of its tokens.
#[derive(Debug)]
pub struct Highlights<T> {
    pub old: Vec<Vec<(Range<usize>, T)>>,
    pub new: Vec<Vec<(Range<usize>, T)>>,
}

/// One hunk. `highlights` is `None` where the language of the file is unknown.
#[derive(Debug)]
pub struct Hunk<T> {
    pub old_start: u32,
    pub old_count: u32,
    pub new_start: u32,
    pub new_count: u32,
    pub section: String,
    pub rows: Vec<DiffRow>,
    pub highlights: Option<Highlights<T>>,
}

/// One changed file. `display_path` is the path under which it is shown.
#[derive(Debug)]
pub struct FileDiff<T> {
    pub display_path: String,
    pub old_path: Option<String>,
    pub status: FileStatus,
    pub hunks: Vec<Hunk<T>>,
    pub additions: u32,
    pub deletions: u32,
}

/// All changed files.
#[derive(Debug)]
pub struct PrDiff<T> {
    pub files: Vec<FileDiff<T>>,
}

/// The mathematical model of a [`DiffRow`].
pub enum DiffRowView {
    Context { old_no: u32, new_no: u32, text: Seq<char> },
    Added { new_no: u32, text: Seq<char>, intra: Seq<Range<usize>> },
    Removed { old_no: u32, text: Seq<char>, intra: Seq<Range<usize>> },
}

/// The mathematical model of [`Highlights`].
pub struct HighlightsView<T> {
    pub old: Seq<Seq<(Range<usize>, T)>>,
    pub new: Seq<Seq<(Range<usize>, T)>>,
}

/// The mathematical model of a [`Hunk`].
pub struct HunkView<T> {
    pub old_start: u32,
    pub old_count: u32,
    pub new_start: u32,
    pub new_count: u32,
    pub section: Seq<char>,
    pub rows: Seq<DiffRowView>,
    pub highlights: Option<HighlightsView<T>>,
}

/// The mathematical model of a [`FileDiff`].
pub struct FileView<T> {
    pub display_path: Seq<char>,
    pub old_path: Option<Seq<char>>,
    pub status: FileStatus,
    pub hunks: Seq<HunkView<T>>,
    pub additions: u32,
    pub deletions: u32,
}

impl View for DiffRow {
    type V = DiffRowView;

    open spec fn view(&self) -> DiffRowView {
        match *self {
            DiffRow::Context { old_no, new_no, text } => DiffRowView::Context {
                old_no,
                new_no,
                text: text@,
            },
            DiffRow::Added { new_no, text, intra } => DiffRowView::Added {
                new_no,
                text: text@,
                intra: intra@,
            },
            DiffRow::Removed { old_no, text, intra } => DiffRowView::Removed {
                old_no,
                text: text@,
                intra: intra@,
            },
        }
    }
}

/// The models of a list of spans, line by line.
pub open spec fn span_lines<T>(lines: Seq<Vec<(Range<usize>, T)>>) -> Seq<Seq<(Range<usize>, T)>> {
    lines.map_values(|line: Vec<(Range<usize>, T)>| line@)
}

impl<T> View for Highlights<T> {
    type V = HighlightsView<T>;

    open spec fn view(&self) -> HighlightsView<T> {
        HighlightsView { old: span_lines(self.old@), new: span_lines(self.new@) }
    }
}

/// The model of what a highlighter found, where there was one.
pub open spec fn found<T>(highlights: Option<Highlights<T>>) -> Option<HighlightsView<T>> {
    match highlights {
        Some(highlights) => Some(highlights@),
        None => None,
    }
}

/// The models of the lines of a hunk.
pub open spec fn diff_rows(rows: Seq<DiffRow>) -> Seq<DiffRowView> {
    rows.map_values(|row: DiffRow| row@)
}

impl<T> View for Hunk<T> {
    type V = HunkView<T>;

    open spec fn view(&self) -> HunkView<T> {
        HunkView {
            old_start: self.old_start,
            old_count: self.old_count,
            new_start: self.new_start,
            new_count: self.new_count,
            section: self.section@,
            rows: diff_rows(self.rows@),
            highlights: found(self.highlights),
        }
    }
}

impl<T> View for FileDiff<T> {
    type V = FileView<T>;

    open spec fn view(&self) -> FileView<T> {
        FileView {
            display_path: self.display_path@,
            old_path: match self.old_path {
                Some(path) => Some(path@),
                None => None,
            },
            status: self.status,
            hunks: self.hunks@.map_values(|hunk: Hunk<T>| hunk@),
            additions: self.additions,
            deletions: self.deletions,
        }
    }
}

impl<T> View for PrDiff<T> {
    type V = Seq<FileView<T>>;

    open spec fn view(&self) -> Seq<FileView<T>> {
        self.files@.map_values(|file: FileDiff<T>| file@)
    }
}

/// The text of a line of a hunk.
pub open spec fn row_text(row: DiffRowView) -> Seq<char> {
    match row {
        DiffRowView::Context { text, .. } => text,
        DiffRowView::Added { text, .. } => text,
        DiffRowView::Removed { text, .. } => text,
    }
}

impl DiffRow {
    /// The text of the line.
    pub fn text(&self) -> (text: &str)
        ensures
            text@ == row_text(self@),
    {
        match self {
            DiffRow::Context { text, .. } => text.as_str(),
            DiffRow::Added { text, .. } => text.as_str(),
            DiffRow::Removed { text, .. } => text.as_str(),
        }
    }
}

/// The paths under which the files are shown.
pub open spec fn display_paths<T>(files: Seq<FileView<T>>) -> Seq<Seq<char>> {
    files.map_values(|file: FileView<T>| file.display_path)
}

/// The models of a list of strings.
pub open spec fn str_views(strs: Seq<&str>) -> Seq<Seq<char>> {
    strs.map_values(|s: &str| s@)
}

impl<T> PrDiff<T> {
    /// The path of each file, in order.
    pub fn paths(&self) -> (paths: Vec<&str>)
        ensures
            str_views(paths@) == display_paths(self@),
    {
        let mut paths: Vec<&str> = Vec::new();
        for i in 0..self.files.len()
            invariant
                paths.len() == i,
                forall|j: int| 0 <= j < i ==> (#[trigger] paths@[j])@ == self.files@[j].display_path@,
        {
            paths.push(self.files[i].display_path.as_str());
        }
        assert(str_views(paths@) =~= display_paths(self@));
        paths
    }
}

/// The added lines of all files together.
pub open spec fn total_additions<T>(files: Seq<FileView<T>>) -> nat
    decreases files.len(),
{
    if files.len() == 0 {
        0
    } else {
        total_additions(files.drop_last()) + files.last().additions as nat
    }
}

/// The removed lines of all files together.
pub open spec fn total_deletions<T>(files: Seq<FileView<T>>) -> nat
    decreases files.len(),
{
    if files.len() == 0 {
        0
    } else {
        total_deletions(files.drop_last()) + files.last().deletions as nat
    }
}

/// Whether both totals can be counted in 32 bits.
pub open spec fn totals_fit<T>(files: Seq<FileView<T>>) -> bool {
    total_additions(files) <= u32::MAX && total_deletions(files) <= u32::MAX
}

proof fn lemma_totals_grow<T>(files: Seq<FileView<T>>, n: int)
    requires
        0 <= n <= files.len(),
    ensures
        total_additions(files.take(n)) <= total_additions(files),
        total_deletions(files.take(n)) <= total_deletions(files),
    decreases files.len(),
{
    if n == files.len() {
        assert(files.take(n) =~= files);
    } else {
        lemma_totals_grow(files.drop_last(), n);
        assert(files.drop_last().take(n) =~= files.take(n));
    }
}

impl<T> PrDiff<T> {
    /// The added and the removed lines of all files together; `None` if one of
    /// the two does not fit into 32 bits.
    pub fn totals(&self) -> (totals: Option<(u32, u32)>)
        ensures
            match totals {
                Some((additions, deletions)) => {
                    &&& additions == total_additions(self@)
                    &&& deletions == total_deletions(self@)
                },
                None => !totals_fit(self@),
            },
    {
        let mut additions: u32 = 0;
        let mut deletions: u32 = 0;
        for i in 0..self.files.len()
            invariant
                additions == total_additions(self@.take(i as int)),
                deletions == total_deletions(self@.take(i as int)),
        {
            proof {
                assert(self@.take(i + 1).drop_last() =~= self@.take(i as int));
                assert(self@.take(i + 1).last() == self.files@[i as int]@);
                lemma_totals_grow(self@, i + 1);
            }
            let file = &self.files[i];
            match additions.checked_add(file.additions) {
                Some(sum) => additions = sum,
                None => return None,
            }
            match deletions.checked_add(file.deletions) {
                Some(sum) => deletions = sum,
                None => return None,
            }
        }
        assert(self@.take(self.files.len() as int) =~= self@);
        Some((additions, deletions))
    }
}

// --- What the models and the totals hold -----------------------------------

/// The model of a line holds its numbers, its text and the ranges of its changed
/// words.
pub proof fn model_of_a_line(row: DiffRow)
    ensures
        match row {
            DiffRow::Context { old_no, new_no, text } => {
                &&& row@ == (DiffRowView::Context { old_no, new_no, text: text@ })
                &&& row_text(row@) == text@
            },
            DiffRow::Added { new_no, text, intra } => {
                &&& row@ == (DiffRowView::Added { new_no, text: text@, intra: intra@ })
                &&& row_text(row@) == text@
            },
            DiffRow::Removed { old_no, text, intra } => {
                &&& row@ == (DiffRowView::Removed { old_no, text: text@, intra: intra@ })
                &&& row_text(row@) == text@
            },
        },
{
}

/// The model of a hunk holds its ranges, its section, the models of its lines and
/// what was found in its sides.
pub proof fn model_of_a_hunk<T>(hunk: Hunk<T>)
    ensures
        hunk@.old_start == hunk.old_start,
        hunk@.old_count == hunk.old_count,
        hunk@.new_start == hunk.new_start,
        hunk@.new_count == hunk.new_count,
        hunk@.section == hunk.section@,
        hunk@.rows.len() == hunk.rows.len(),
        forall|i: int| 0 <= i < hunk.rows.len() ==> #[trigger] hunk@.rows[i] == hunk.rows@[i]@,
        match (hunk@.highlights, hunk.highlights) {
            (Some(model), Some(sides)) => {
                &&& model.old.len() == sides.old.len()
                &&& model.new.len() == sides.new.len()
                &&& forall|i: int|
                    0 <= i < sides.old.len() ==> #[trigger] model.old[i] == sides.old@[i]@
                &&& forall|i: int|
                    0 <= i < sides.new.len() ==> #[trigger] model.new[i] == sides.new@[i]@
            },
            (None, None) => true,
            _ => false,
        },
{
}

/// The model of a file holds its paths, its status, the models of its hunks and its
/// counts; the model of a diff holds the models of its files.
pub proof fn model_of_a_file<T>(file: FileDiff<T>)
    ensures
        file@.display_path == file.display_path@,
        match (file@.old_path, file.old_path) {
            (Some(model), Some(path)) => model == path@,
            (None, None) => true,
            _ => false,
        },
        file@.status == file.status,
        file@.hunks.len() == file.hunks.len(),
        forall|i: int| 0 <= i < file.hunks.len() ==> #[trigger] file@.hunks[i] == file.hunks@[i]@,
        file@.additions == file.additions,
        file@.deletions == file.deletions,
{
}

/// The model of a diff holds the models of its files, and their paths are the paths
/// under which they are shown.
pub proof fn model_of_a_diff<T>(diff: PrDiff<T>)
    ensures
        diff@.len() == diff.files.len(),
        display_paths(diff@).len() == diff.files.len(),
        forall|i: int| 0 <= i < diff.files.len() ==> #[trigger] diff@[i] == diff.files@[i]@,
        forall|i: int|
            0 <= i < diff.files.len() ==> #[trigger] display_paths(diff@)[i]
                == diff.files@[i].display_path@,
{
}

/// The totals count each line once: the totals of two diffs together are the sums of
/// their totals, those of one file are its own counts, and those of none are zero.
pub proof fn totals_add_up<T>(a: Seq<FileView<T>>, b: Seq<FileView<T>>)
    ensures
        total_additions(a + b) == total_additions(a) + total_additions(b),
        total_deletions(a + b) == total_deletions(a) + total_deletions(b),
        a.len() == 0 ==> total_additions(a) == 0 && total_deletions(a) == 0,
        a.len() == 1 ==> total_additions(a) == a[0].additions && total_deletions(a)
            == a[0].deletions,
        totals_fit(a) <==> total_additions(a) <= 0xffff_ffff && total_deletions(a) <= 0xffff_ffff,
    decreases b.len(),
{
    if b.len() == 0 {
        assert(a + b =~= a);
    } else {
        assert((a + b).drop_last() =~= a + b.drop_last());
        totals_add_up(a, b.drop_last());
    }
    if a.len() == 1 {
        assert(total_additions(a.drop_last()) == 0);
        assert(total_deletions(a.drop_last()) == 0);
    }
}

/// The models of lists are the models of their members, one by one.
pub proof fn models_of_lists<T>(
    rows: Seq<DiffRow>,
    spans: Seq<Vec<(Range<usize>, T)>>,
    strs: Seq<&str>,
)
    ensures
        diff_rows(rows).len() == rows.len(),
        forall|i: int| 0 <= i < rows.len() ==> #[trigger] diff_rows(rows)[i] == rows[i]@,
        span_lines(spans).len() == spans.len(),
        forall|i: int| 0 <= i < spans.len() ==> #[trigger] span_lines(spans)[i] == spans[i]@,
        str_views(strs).len() == strs.len(),
        forall|i: int| 0 <= i < strs.len() ==> #[trigger] str_views(strs)[i] == strs[i]@,
{
}

/// The model of what a highlighter found holds the spans of each line of each side.
pub proof fn model_of_highlights<T>(highlights: Option<Highlights<T>>)
    ensures
        match (found(highlights), highlights) {
            (Some(model), Some(sides)) => {
                &&& model.old.len() == sides.old.len()
                &&& model.new.len() == sides.new.len()
                &&& forall|i: int|
                    0 <= i < sides.old.len() ==> #[trigger] model.old[i] == sides.old@[i]@
                &&& forall|i: int|
                    0 <= i < sides.new.len() ==> #[trigger] model.new[i] == sides.new@[i]@
            },
            (None, None) => true,
            _ => false,
        },
{
}

}
