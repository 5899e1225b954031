//! Syntax highlighting of hunks.
//!
//! Only the patch is at hand, not the full files, so each hunk is highlighted
//! on its own, side by side: the old side is its context and removed lines, the
//! new side its context and added lines. Each line then gets the spans of its
//! place on its side.

use crate::diff::{
    diff_rows, found, row_text, span_lines, DiffRow, DiffRowView, Highlights, HighlightsView,
};
use crate::text::{byte_len, utf8_len};
use std::ops::Range;
use vstd::prelude::*;

verus! {

/// The longest side of a hunk, in bytes, that is highlighted.
pub const MAX_HUNK_SOURCE_BYTES: usize = 100 * 1024;

/// The longest line, in bytes, that is highlighted.
pub const MAX_SYNTAX_LINE_BYTES: usize = 4096;

/// Whether a line stands on the old side (`old`) or on the new side of a hunk.
pub open spec fn on_side(row: DiffRowView, old: bool) -> bool {
    match row {
        DiffRowView::Context { .. } => true,
        DiffRowView::Added { .. } => !old,
        DiffRowView::Removed { .. } => old,
    }
}

/// The text of one side of a hunk: its lines, each with a line feed at its end.
pub open spec fn side_source(rows: Seq<DiffRowView>, old: bool) -> Seq<char>
    decreases rows.len(),
{
    if rows.len() == 0 {
        seq![]
    } else {
        let before = side_source(rows.drop_last(), old);
        if on_side(rows.last(), old) {
            before + row_text(rows.last()) + seq!['\n']
        } else {
            before
        }
    }
}

/// The number of lines on one side of a hunk.
pub open spec fn side_len(rows: Seq<DiffRowView>, old: bool) -> nat
    decreases rows.len(),
{
    if rows.len() == 0 {
        0
    } else {
        side_len(rows.drop_last(), old) + if on_side(rows.last(), old) {
            1nat
        } else {
            0nat
        }
    }
}

/// Whether a highlighter is asked for the spans of `source`.
pub open spec fn highlightable(source: Seq<char>) -> bool {
    0 < source.len() && utf8_len(source) <= MAX_HUNK_SOURCE_BYTES
}

/// The spans of line `i` of a hunk: those that the highlighter found at the
/// line's place on its side. A removed line is looked up on the old side, any
/// other on the new side. Lines of an overlong side, overlong lines, and lines for
/// which the highlighter has nothing, have none.
pub open spec fn line_spans<T>(
    highlights: Option<HighlightsView<T>>,
    rows: Seq<DiffRowView>,
    i: int,
) -> Seq<(Range<usize>, T)> {
    match highlights {
        None => seq![],
        Some(sides) => {
            let old = rows[i] is Removed;
            let side = if old {
                sides.old
            } else {
                sides.new
            };
            let line = side_len(rows.take(i), old) as int;
            if highlightable(side_source(rows, old)) && utf8_len(row_text(rows[i]))
                <= MAX_SYNTAX_LINE_BYTES && line < side.len() {
                side[line]
            } else {
                seq![]
            }
        },
    }
}

/// The spans of every line of a hunk.
pub open spec fn hunk_spans<T>(
    highlights: Option<HighlightsView<T>>,
    rows: Seq<DiffRowView>,
) -> Seq<Seq<(Range<usize>, T)>> {
    Seq::new(rows.len(), |i: int| line_spans(highlights, rows, i))
}

/// What a highlighter is to be asked about a hunk: the text of each side, or
/// `None` where the side is empty or too long.
#[derive(Debug)]
pub struct HunkSources {
    pub old: Option<String>,
    pub new: Option<String>,
}

/// Whether `asked` is the text of a side, if that side is to be highlighted.
pub open spec fn asks_for(asked: Option<String>, source: Seq<char>) -> bool {
    match asked {
        Some(text) => highlightable(source) && text@ == source,
        None => !highlightable(source),
    }
}

fn side_request(source: String) -> (asked: Option<String>)
    ensures
        asks_for(asked, source@),
{
    if source.as_str().is_empty() || byte_len(source.as_str()) > MAX_HUNK_SOURCE_BYTES {
        None
    } else {
        Some(source)
    }
}

/// The texts of the two sides of a hunk that a highlighter is to be asked about.
pub fn hunk_sources(rows: &[DiffRow]) -> (sources: HunkSources)
    ensures
        asks_for(sources.old, side_source(diff_rows(rows@), true)),
        asks_for(sources.new, side_source(diff_rows(rows@), false)),
{
    let mut old_source = String::new();
    let mut new_source = String::new();
    let ghost model = diff_rows(rows@);
    for i in 0..rows.len()
        invariant
            model == diff_rows(rows@),
            old_source@ == side_source(model.take(i as int), true),
            new_source@ == side_source(model.take(i as int), false),
    {
        proof {
            reveal_strlit("\n");
            assert(model.take(i + 1).drop_last() =~= model.take(i as int));
            assert(model.take(i + 1).last() == rows@[i as int]@);
            assert("\n"@ =~= seq!['\n']);
        }
        let text = rows[i].text();
        match &rows[i] {
            DiffRow::Context { .. } => {
                old_source.append(text);
                old_source.append("\n");
                new_source.append(text);
                new_source.append("\n");
            },
            DiffRow::Added { .. } => {
                new_source.append(text);
                new_source.append("\n");
            },
            DiffRow::Removed { .. } => {
                old_source.append(text);
                old_source.append("\n");
            },
        }
    }
    assert(model.take(rows.len() as int) =~= model);
    HunkSources { old: side_request(old_source), new: side_request(new_source) }
}

/// A copy of a list of spans.
pub fn copy_spans<T: Copy>(spans: &Vec<(Range<usize>, T)>) -> (copied: Vec<(Range<usize>, T)>)
    ensures
        copied@ == spans@,
{
    let mut copied: Vec<(Range<usize>, T)> = Vec::new();
    for i in 0..spans.len()
        invariant
            copied@ == spans@.take(i as int),
    {
        let (start, end) = (spans[i].0.start, spans[i].0.end);
        copied.push((start..end, spans[i].1));
        assert(copied@ =~= spans@.take(i + 1));
    }
    assert(spans@.take(spans.len() as int) =~= spans@);
    copied
}

/// The spans of each line of a hunk, from what the highlighter found in its two
/// sides. What it found in a side that it is not to be asked about does not count.
pub fn hunk_syntax<T: Copy>(highlights: &Option<Highlights<T>>, rows: &[DiffRow]) -> (spans: Vec<
    Vec<(Range<usize>, T)>,
>)
    ensures
        span_lines(spans@) == hunk_spans(found(*highlights), diff_rows(rows@)),
{
    let mut spans: Vec<Vec<(Range<usize>, T)>> = Vec::new();
    let ghost model = diff_rows(rows@);
    let ghost known = found(*highlights);
    let sources = hunk_sources(rows);
    let old_asked = sources.old.is_some();
    let new_asked = sources.new.is_some();
    let mut old_line: usize = 0;
    let mut new_line: usize = 0;
    for i in 0..rows.len()
        invariant
            model == diff_rows(rows@),
            known == found(*highlights),
            old_asked == highlightable(side_source(model, true)),
            new_asked == highlightable(side_source(model, false)),
            old_line == side_len(model.take(i as int), true),
            new_line == side_len(model.take(i as int), false),
            old_line <= i,
            new_line <= i,
            spans.len() == i,
            forall|j: int| 0 <= j < i ==> (#[trigger] spans@[j])@ == line_spans(known, model, j),
    {
        proof {
            assert(model.take(i + 1).drop_last() =~= model.take(i as int));
            assert(model.take(i + 1).last() == rows@[i as int]@);
            assert(model[i as int] == rows@[i as int]@);
        }
        let mut line_found: Vec<(Range<usize>, T)> = Vec::new();
        if let Some(sides) = highlights {
            if byte_len(rows[i].text()) <= MAX_SYNTAX_LINE_BYTES {
                match &rows[i] {
                    DiffRow::Removed { .. } => {
                        if old_asked && old_line < sides.old.len() {
                            line_found = copy_spans(&sides.old[old_line]);
                        }
                    },
                    _ => {
                        if new_asked && new_line < sides.new.len() {
                            line_found = copy_spans(&sides.new[new_line]);
                        }
                    },
                }
            }
        }
        assert(line_found@ =~= line_spans(known, model, i as int));
        spans.push(line_found);
        match &rows[i] {
            DiffRow::Context { .. } => {
                old_line += 1;
                new_line += 1;
            },
            DiffRow::Added { .. } => {
                new_line += 1;
            },
            DiffRow::Removed { .. } => {
                old_line += 1;
            },
        }
    }
    assert(span_lines(spans@) =~= hunk_spans(known, model));
    spans
}

// --- Lines and their places ------------------------------------------------

/// The number of line feeds in a text.
pub open spec fn line_feeds(text: Seq<char>) -> nat
    decreases text.len(),
{
    if text.len() == 0 {
        0
    } else {
        line_feeds(text.drop_last()) + if text.last() == '\n' {
            1nat
        } else {
            0nat
        }
    }
}

proof fn lemma_line_feeds_append(a: Seq<char>, b: Seq<char>)
    ensures
        line_feeds(a + b) == line_feeds(a) + line_feeds(b),
    decreases b.len(),
{
    if b.len() == 0 {
        assert(a + b =~= a);
    } else {
        assert((a + b).drop_last() =~= a + b.drop_last());
        lemma_line_feeds_append(a, b.drop_last());
    }
}

proof fn lemma_one_line_feed()
    ensures
        line_feeds(seq!['\n']) == 1,
{
    assert(seq!['\n'].drop_last() =~= seq![]);
    assert(line_feeds(seq!['\n'].drop_last()) == 0);
}

/// The source of the first rows starts the source of all rows.
proof fn lemma_source_prefix(rows: Seq<DiffRowView>, n: int, old: bool)
    requires
        0 <= n <= rows.len(),
    ensures
        side_source(rows.take(n), old).is_prefix_of(side_source(rows, old)),
    decreases rows.len() - n,
{
    if n == rows.len() {
        assert(rows.take(n) =~= rows);
    } else {
        lemma_source_prefix(rows, n + 1, old);
        assert(rows.take(n + 1).drop_last() =~= rows.take(n));
        let shorter = side_source(rows.take(n), old);
        let longer = side_source(rows.take(n + 1), old);
        assert(shorter.is_prefix_of(longer));
        assert(longer =~= side_source(rows, old).take(longer.len() as int));
        assert(shorter =~= side_source(rows, old).take(shorter.len() as int));
    }
}

/// Each line stands in the source of its side at the place under which its spans
/// are looked up: after it come a line feed and the lines below, and before it
/// stand as many line feeds as there are lines above it on that side. Lines hold no
/// line feeds.
pub proof fn each_line_stands_at_its_place(rows: Seq<DiffRowView>, i: int, old: bool)
    requires
        0 <= i < rows.len(),
        on_side(rows[i], old),
        forall|j: int| 0 <= j < i ==> line_feeds(row_text(#[trigger] rows[j])) == 0,
    ensures
        (side_source(rows.take(i), old) + row_text(rows[i]) + seq!['\n']).is_prefix_of(
            side_source(rows, old),
        ),
        line_feeds(side_source(rows.take(i), old)) == side_len(rows.take(i), old),
{
    lemma_source_prefix(rows, i + 1, old);
    assert(rows.take(i + 1).drop_last() =~= rows.take(i));
    lemma_feeds_are_lines(rows.take(i), old);
}

proof fn lemma_feeds_are_lines(rows: Seq<DiffRowView>, old: bool)
    requires
        forall|j: int| 0 <= j < rows.len() ==> line_feeds(row_text(#[trigger] rows[j])) == 0,
    ensures
        line_feeds(side_source(rows, old)) == side_len(rows, old),
    decreases rows.len(),
{
    if rows.len() > 0 {
        let before = side_source(rows.drop_last(), old);
        assert forall|j: int| 0 <= j < rows.drop_last().len() implies line_feeds(
            row_text(#[trigger] rows.drop_last()[j]),
        ) == 0 by {
            assert(rows.drop_last()[j] == rows[j]);
        }
        lemma_feeds_are_lines(rows.drop_last(), old);
        if on_side(rows.last(), old) {
            assert(line_feeds(row_text(rows[rows.len() - 1])) == 0);
            lemma_line_feeds_append(before, row_text(rows.last()));
            lemma_line_feeds_append(before + row_text(rows.last()), seq!['\n']);
            lemma_one_line_feed();
        }
    }
}

/// The source of a side is made line by line: the source of two parts of a hunk is
/// that of the first part and then that of the second; the source of one line is its
/// text and a line feed on the sides on which it stands, and empty on the other.
pub proof fn sources_are_made_of_lines(a: Seq<DiffRowView>, b: Seq<DiffRowView>, old: bool)
    ensures
        side_source(a + b, old) == side_source(a, old) + side_source(b, old),
        a.len() == 0 ==> side_source(a, old) == Seq::<char>::empty(),
        a.len() == 1 ==> side_source(a, old) == (match a[0] {
            DiffRowView::Context { text, .. } => text.push('\n'),
            DiffRowView::Added { text, .. } => if old {
                Seq::<char>::empty()
            } else {
                text.push('\n')
            },
            DiffRowView::Removed { text, .. } => if old {
                text.push('\n')
            } else {
                Seq::<char>::empty()
            },
        }),
    decreases b.len(),
{
    if b.len() == 0 {
        assert(a + b =~= a);
        assert(side_source(a, old) + side_source(b, old) =~= side_source(a, old));
    } else {
        assert((a + b).drop_last() =~= a + b.drop_last());
        sources_are_made_of_lines(a, b.drop_last(), old);
        assert(side_source(a + b, old) =~= side_source(a, old) + side_source(b, old));
    }
    if a.len() == 1 {
        let before = side_source(a.drop_last(), old);
        assert(before =~= Seq::<char>::empty());
        assert(a.last() == a[0]);
        let text = row_text(a[0]);
        assert(before + text + seq!['\n'] =~= text.push('\n'));
    }
}

/// A highlighter is asked about a source exactly if it is not empty and has at most
/// 100 KiB in UTF-8.
pub proof fn only_short_sources_are_highlighted(source: Seq<char>)
    ensures
        highlightable(source) <==> source.len() > 0 && vstd::utf8::encode_utf8(source).len()
            <= 102400,
{
}

/// How many lines above line `i` stand on the same side as it is looked up on: the
/// lines that are not added for a removed line, those that are not removed for any
/// other.
pub open spec fn lines_above(rows: Seq<DiffRowView>, i: int) -> nat {
    if rows[i] is Removed {
        rows.take(i).filter(|row: DiffRowView| !(row is Added)).len()
    } else {
        rows.take(i).filter(|row: DiffRowView| !(row is Removed)).len()
    }
}

proof fn lemma_side_len_counts(rows: Seq<DiffRowView>)
    ensures
        side_len(rows, true) == rows.filter(|row: DiffRowView| !(row is Added)).len(),
        side_len(rows, false) == rows.filter(|row: DiffRowView| !(row is Removed)).len(),
    decreases rows.len(),
{
    reveal(Seq::filter);
    if rows.len() > 0 {
        lemma_side_len_counts(rows.drop_last());
    }
}

/// Each line has the spans that the highlighter gave for its place on its side: all
/// of them, in order, and no others. A line of more than 4096 bytes has none, nor
/// has a line of a side that is not highlighted, nor one for whose place there is no
/// entry.
pub proof fn lines_have_all_their_spans<T>(
    highlights: Option<HighlightsView<T>>,
    rows: Seq<DiffRowView>,
    i: int,
)
    requires
        0 <= i < rows.len(),
    ensures
        hunk_spans(highlights, rows).len() == rows.len(),
        ({
            let text = match rows[i] {
                DiffRowView::Context { text, .. } => text,
                DiffRowView::Added { text, .. } => text,
                DiffRowView::Removed { text, .. } => text,
            };
            let source = side_source(rows, rows[i] is Removed);
            let spans = hunk_spans(highlights, rows)[i];
            match highlights {
                Some(sides) => {
                    let side = if rows[i] is Removed {
                        sides.old
                    } else {
                        sides.new
                    };
                    let place = lines_above(rows, i) as int;
                    if place < side.len() && vstd::utf8::encode_utf8(text).len() <= 4096
                        && source.len() > 0 && vstd::utf8::encode_utf8(source).len() <= 102400 {
                        &&& spans.len() == side[place].len()
                        &&& forall|k: int|
                            0 <= k < spans.len() ==> #[trigger] spans[k] == side[place][k]
                    } else {
                        spans.len() == 0
                    }
                },
                None => spans.len() == 0,
            }
        }),
{
    lemma_side_len_counts(rows.take(i));
}

/// A highlighter is asked about just the source of a side, whole and unchanged, if it
/// is not empty and has at most 100 KiB, and about nothing else.
pub proof fn highlighters_are_asked_about_the_source(asked: Option<String>, source: Seq<char>)
    requires
        asks_for(asked, source),
    ensures
        match asked {
            Some(text) => text@ == source,
            None => true,
        },
        asked is Some <==> source.len() > 0 && vstd::utf8::encode_utf8(source).len() <= 102400,
{
}

}
