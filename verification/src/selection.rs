//! Selecting text in the rows, and copying it.

use crate::rows::{row_views, Cell, Row, RowView};
use crate::text::{byte_len, utf8_len};
use std::ops::Range;
use vstd::prelude::*;
use vstd::utf8::encode_utf8;

verus! {

/// The column of text that a selection lies in.
#[derive(Clone, Copy, PartialEq, Eq, Debug, Structural)]
pub enum SelSide {
    Unified,
    Left,
    Right,
}

/// A place in the rows: a row, and a column counted in characters.
#[derive(Clone, Copy, PartialEq, Eq, PartialOrd, Ord, Debug, Structural)]
pub struct RowCol {
    pub row: usize,
    pub col: usize,
}

/// A selection, from where it began to where it is now.
#[derive(Clone, Copy, PartialEq, Eq, Debug, Structural)]
pub struct Selection {
    pub side: SelSide,
    pub anchor: RowCol,
    pub head: RowCol,
}

/// Whether one place is not after another: by row, then by column.
pub open spec fn not_after(a: RowCol, b: RowCol) -> bool {
    a.row < b.row || (a.row == b.row && a.col <= b.col)
}

impl Selection {
    /// The first of the two ends of the selection.
    pub open spec fn start(self) -> RowCol {
        if not_after(self.anchor, self.head) {
            self.anchor
        } else {
            self.head
        }
    }

    /// The second of the two ends of the selection.
    pub open spec fn end(self) -> RowCol {
        if not_after(self.anchor, self.head) {
            self.head
        } else {
            self.anchor
        }
    }

    /// The two ends of the selection in the order of the text.
    pub fn ordered(&self) -> (ends: (RowCol, RowCol))
        ensures
            ends.0 == self.start(),
            ends.1 == self.end(),
            not_after(ends.0, ends.1),
    {
        if self.anchor.row < self.head.row || (self.anchor.row == self.head.row && self.anchor.col
            <= self.head.col) {
            (self.anchor, self.head)
        } else {
            (self.head, self.anchor)
        }
    }
}

/// The text that a row shows on a side, if it shows any.
pub open spec fn side_text<T>(row: RowView<T>, side: SelSide) -> Option<Seq<char>> {
    match (row, side) {
        (RowView::Line { text, .. }, SelSide::Unified) => Some(text),
        (RowView::SplitLine { left: Some(cell), .. }, SelSide::Left) => Some(cell.text),
        (RowView::SplitLine { right: Some(cell), .. }, SelSide::Right) => Some(cell.text),
        _ => None,
    }
}

fn cell_text<T>(cell: &Option<Cell<T>>) -> (text: Option<&str>)
    ensures
        match (text, crate::rows::cell_view(*cell)) {
            (Some(text), Some(cell)) => text@ == cell.text,
            (None, None) => true,
            _ => false,
        },
{
    match cell {
        Some(cell) => Some(cell.text.as_str()),
        None => None,
    }
}

/// The text that a row shows on a side, if it shows any.
pub fn row_side_text<T>(row: &Row<T>, side: SelSide) -> (text: Option<&str>)
    ensures
        match (text, side_text(row@, side)) {
            (Some(text), Some(shown)) => text@ == shown,
            (None, None) => true,
            _ => false,
        },
{
    match (row, side) {
        (Row::Line { text, .. }, SelSide::Unified) => Some(text.as_str()),
        (Row::SplitLine { left, .. }, SelSide::Left) => cell_text(left),
        (Row::SplitLine { right, .. }, SelSide::Right) => cell_text(right),
        _ => None,
    }
}

/// The offset in bytes of column `col`; the end of the text if it is shorter.
pub open spec fn byte_offset(text: Seq<char>, col: int) -> nat {
    if 0 <= col < text.len() {
        utf8_len(text.take(col))
    } else {
        utf8_len(text)
    }
}

/// The offset in bytes of column `col`; the end of the text if it is shorter.
pub fn char_to_byte(text: &str, col: usize) -> (offset: usize)
    ensures
        offset == byte_offset(text@, col as int),
{
    if col < text.unicode_len() {
        let before = text.substring_char(0, col);
        assert(before@ =~= text@.take(col as int));
        byte_len(before)
    } else {
        byte_len(text)
    }
}

/// The columns of row `row_ix` that are selected, if its text has `chars`
/// characters: from the start of the selection or of the row to the end of the
/// selection or of the row. `None` if the selection does not reach the row.
pub open spec fn selected_columns(sel: Selection, row_ix: int, chars: int) -> Option<(int, int)> {
    if row_ix < sel.start().row || sel.end().row < row_ix {
        None
    } else {
        let first = if row_ix != sel.start().row {
            0
        } else if sel.start().col <= chars {
            sel.start().col as int
        } else {
            chars
        };
        let last = if row_ix != sel.end().row || chars < sel.end().col {
            chars
        } else {
            sel.end().col as int
        };
        Some((first, last))
    }
}

/// The text of row `row_ix` that is selected.
pub open spec fn selected_text<T>(sel: Selection, row_ix: int, row: RowView<T>) -> Option<
    Seq<char>,
> {
    match side_text(row, sel.side) {
        None => None,
        Some(text) => match selected_columns(sel, row_ix, text.len() as int) {
            None => None,
            Some((first, last)) => Some(text.subrange(first, last)),
        },
    }
}

/// The bytes of the text of row `row_ix` that are selected: where they start and
/// end.
pub open spec fn selected_bytes<T>(sel: Selection, row_ix: int, row: RowView<T>) -> Option<
    (nat, nat),
> {
    match side_text(row, sel.side) {
        None => None,
        Some(text) => match selected_columns(sel, row_ix, text.len() as int) {
            None => None,
            Some((first, last)) => Some((byte_offset(text, first), byte_offset(text, last))),
        },
    }
}

/// The selected columns are columns of the row, in order.
pub proof fn selected_columns_are_in_order(sel: Selection, row_ix: int, chars: int)
    requires
        0 <= chars,
    ensures
        selected_columns(sel, row_ix, chars) matches Some((first, last)) ==> 0 <= first <= last
            <= chars,
{
}

fn columns_in(sel: &Selection, row_ix: usize, chars: usize) -> (columns: Option<(usize, usize)>)
    ensures
        match (columns, selected_columns(*sel, row_ix as int, chars as int)) {
            (Some((first, last)), Some((f, l))) => first == f && last == l && first <= last
                <= chars,
            (None, None) => true,
            _ => false,
        },
{
    let (start, end) = sel.ordered();
    if row_ix < start.row || row_ix > end.row {
        return None;
    }
    let first: usize = if row_ix != start.row {
        0
    } else if start.col <= chars {
        start.col
    } else {
        chars
    };
    let last: usize = if row_ix != end.row || chars < end.col {
        chars
    } else {
        end.col
    };
    Some((first, last))
}

/// The range of bytes of a row's text that is selected.
pub fn row_selection_range<T>(sel: &Selection, row_ix: usize, row: &Row<T>) -> (range: Option<
    Range<usize>,
>)
    ensures
        match (range, selected_bytes(*sel, row_ix as int, row@)) {
            (Some(range), Some((first, last))) => range.start == first && range.end == last,
            (None, None) => true,
            _ => false,
        },
{
    match row_side_text(row, sel.side) {
        None => None,
        Some(text) => match columns_in(sel, row_ix, text.unicode_len()) {
            None => None,
            Some((first, last)) => Some(char_to_byte(text, first)..char_to_byte(text, last)),
        },
    }
}

/// The selected texts of the rows from `from` up to, not including, `to`.
pub open spec fn selected_lines<T>(
    sel: Selection,
    rows: Seq<RowView<T>>,
    from: int,
    to: int,
) -> Seq<Seq<char>>
    decreases to - from,
{
    if to <= from {
        seq![]
    } else {
        let above = selected_lines(sel, rows, from, to - 1);
        match selected_text(sel, to - 1, rows[to - 1]) {
            Some(text) => above.push(text),
            None => above,
        }
    }
}

/// Lines with a line feed between each two.
pub open spec fn joined_lines(lines: Seq<Seq<char>>) -> Seq<char>
    decreases lines.len(),
{
    if lines.len() == 0 {
        seq![]
    } else if lines.len() == 1 {
        lines[0]
    } else {
        joined_lines(lines.drop_last()) + seq!['\n'] + lines.last()
    }
}

/// The text that a selection copies: the selected texts of the rows that it
/// reaches and that have text on its side.
pub open spec fn copied_text<T>(sel: Selection, rows: Seq<RowView<T>>) -> Seq<char> {
    let to = if sel.end().row < rows.len() {
        sel.end().row + 1
    } else {
        rows.len() as int
    };
    joined_lines(selected_lines(sel, rows, sel.start().row as int, to))
}

/// The text that a selection copies.
pub fn selection_text<T>(sel: &Selection, rows: &[Row<T>]) -> (copied: String)
    requires
        rows.len() > 0 || sel.start().row > 0,
    ensures
        copied@ == copied_text(*sel, row_views(rows@)),
{
    let (start, end) = sel.ordered();
    let ghost views = row_views(rows@);
    let to: usize = if end.row < rows.len() {
        end.row + 1
    } else {
        rows.len()
    };
    let mut copied = String::new();
    let mut any = false;
    let mut ix: usize = start.row;
    proof {
        reveal_strlit("\n");
        assert("\n"@ =~= seq!['\n']);
    }
    while ix < to
        invariant
            "\n"@ == seq!['\n'],
            to <= rows.len(),
            views == row_views(rows@),
            start.row <= ix,
            any == (selected_lines(*sel, views, start.row as int, ix as int).len() > 0),
            copied@ == joined_lines(selected_lines(*sel, views, start.row as int, ix as int)),
            ix <= to || ix == start.row,
        decreases to - ix,
    {
        assert(views[ix as int] == rows@[ix as int]@);
        let ghost above = selected_lines(*sel, views, start.row as int, ix as int);
        if let Some(text) = row_side_text(&rows[ix], sel.side) {
            if let Some((first, last)) = columns_in(sel, ix, text.unicode_len()) {
                let part = text.substring_char(first, last);
                assert(above.push(part@).drop_last() =~= above);
                if any {
                    copied.append("\n");
                }
                copied.append(part);
                any = true;
                assert(copied@ =~= joined_lines(above.push(part@)));
            }
        }
        ix += 1;
    }
    copied
}

/// What a row draws of the selection: its side and the bytes that it covers, if it
/// covers any.
pub fn row_highlight<T>(sel: &Selection, row_ix: usize, row: &Row<T>) -> (drawn: Option<
    (SelSide, Range<usize>),
>)
    ensures
        match drawn {
            Some((side, range)) => side == sel.side && range.start < range.end && selected_bytes(
                *sel,
                row_ix as int,
                row@,
            ) == Some((range.start as nat, range.end as nat)),
            None => !(selected_bytes(*sel, row_ix as int, row@) matches Some((first, last))
                && first < last),
        },
{
    match row_selection_range(sel, row_ix, row) {
        Some(range) => {
            if range.start < range.end {
                Some((sel.side, range))
            } else {
                None
            }
        },
        None => None,
    }
}

/// The ranges that the two cells of a split row draw.
pub fn split_highlight(drawn: Option<(SelSide, Range<usize>)>) -> (sides: (
    Option<Range<usize>>,
    Option<Range<usize>>,
))
    ensures
        sides.0 == (match drawn {
            Some((SelSide::Left, range)) => Some(range),
            _ => None,
        }),
        sides.1 == (match drawn {
            Some((SelSide::Right, range)) => Some(range),
            _ => None,
        }),
{
    match drawn {
        Some((SelSide::Left, range)) => (Some(range), None),
        Some((SelSide::Right, range)) => (None, Some(range)),
        _ => (None, None),
    }
}

// --- Laws ------------------------------------------------------------------

/// It does not matter in which direction text is selected.
pub proof fn direction_does_not_matter<T>(
    side: SelSide,
    a: RowCol,
    b: RowCol,
    rows: Seq<RowView<T>>,
)
    ensures
        copied_text(Selection { side, anchor: a, head: b }, rows) == copied_text(
            Selection { side, anchor: b, head: a },
            rows,
        ),
        forall|i: int, row: RowView<T>|
            selected_bytes(Selection { side, anchor: a, head: b }, i, row)
                == #[trigger] selected_bytes(Selection { side, anchor: b, head: a }, i, row),
{
    let there = Selection { side, anchor: a, head: b };
    let back = Selection { side, anchor: b, head: a };
    assert(there.start() == back.start());
    assert(there.end() == back.end());
    lemma_same_lines(
        there,
        back,
        rows,
        there.start().row as int,
        if there.end().row < rows.len() {
            there.end().row + 1
        } else {
            rows.len() as int
        },
    );
}

proof fn lemma_same_lines<T>(
    a: Selection,
    b: Selection,
    rows: Seq<RowView<T>>,
    from: int,
    to: int,
)
    requires
        a.side == b.side,
        a.start() == b.start(),
        a.end() == b.end(),
    ensures
        selected_lines(a, rows, from, to) == selected_lines(b, rows, from, to),
    decreases to - from,
{
    if from < to {
        lemma_same_lines(a, b, rows, from, to - 1);
        assert(selected_text(a, to - 1, rows[to - 1]) == selected_text(b, to - 1, rows[to - 1]));
    }
}

proof fn lemma_encode_append(a: Seq<char>, b: Seq<char>)
    ensures
        encode_utf8(a + b) == encode_utf8(a) + encode_utf8(b),
    decreases a.len(),
{
    if a.len() == 0 {
        assert(a + b =~= b);
        assert(encode_utf8(a) + encode_utf8(b) =~= encode_utf8(b));
    } else {
        assert((a + b).drop_first() =~= a.drop_first() + b);
        lemma_encode_append(a.drop_first(), b);
        assert(encode_utf8(a + b) =~= encode_utf8(a) + encode_utf8(b));
    }
}

/// The selected bytes of a row are the bytes of its selected text.
pub proof fn selected_bytes_hold_the_selected_text<T>(
    sel: Selection,
    row_ix: int,
    row: RowView<T>,
)
    ensures
        match (selected_bytes(sel, row_ix, row), side_text(row, sel.side)) {
            (Some((first, last)), Some(text)) => {
                &&& first <= last <= encode_utf8(text).len()
                &&& encode_utf8(text).subrange(first as int, last as int) == encode_utf8(
                    selected_text(sel, row_ix, row)->0,
                )
            },
            (Some(_), None) => false,
            (None, _) => selected_text(sel, row_ix, row) is None,
        },
{
    if let Some(text) = side_text(row, sel.side) {
        if let Some((first, last)) = selected_columns(sel, row_ix, text.len() as int) {
            let head = text.take(first);
            let body = text.subrange(first, last);
            let tail = text.skip(last);
            assert(text.take(last) =~= head + body);
            assert(text =~= head + body + tail);
            lemma_encode_append(head, body);
            lemma_encode_append(head + body, tail);
            assert(text.take(text.len() as int) =~= text);
            assert(byte_offset(text, first) == encode_utf8(head).len());
            assert(byte_offset(text, last) == encode_utf8(head + body).len());
            assert(encode_utf8(text).subrange(
                encode_utf8(head).len() as int,
                encode_utf8(head + body).len() as int,
            ) =~= encode_utf8(body));
        }
    }
}

/// The texts that the rows from `from` up to `to` show on a side.
pub open spec fn shown_lines<T>(
    rows: Seq<RowView<T>>,
    side: SelSide,
    from: int,
    to: int,
) -> Seq<Seq<char>>
    decreases to - from,
{
    if to <= from {
        seq![]
    } else {
        let above = shown_lines(rows, side, from, to - 1);
        match side_text(rows[to - 1], side) {
            Some(text) => above.push(text),
            None => above,
        }
    }
}

/// A selection from the start of the first row to the end of the last one copies
/// every line that the rows show on its side.
pub proof fn selecting_everything_copies_everything<T>(sel: Selection, rows: Seq<RowView<T>>)
    requires
        sel.start() == (RowCol { row: 0, col: 0 }),
        sel.end().row >= rows.len() || (sel.end().row == rows.len() - 1 && (side_text(
            rows.last(),
            sel.side,
        ) matches Some(text) ==> text.len() <= sel.end().col)),
    ensures
        copied_text(sel, rows) == joined_lines(
            shown_lines(rows, sel.side, 0, rows.len() as int),
        ),
{
    lemma_all_lines(sel, rows, rows.len() as int);
}

proof fn lemma_all_lines<T>(sel: Selection, rows: Seq<RowView<T>>, to: int)
    requires
        0 <= to <= rows.len(),
        sel.start() == (RowCol { row: 0, col: 0 }),
        sel.end().row >= rows.len() || (sel.end().row == rows.len() - 1 && (side_text(
            rows.last(),
            sel.side,
        ) matches Some(text) ==> text.len() <= sel.end().col)),
    ensures
        selected_lines(sel, rows, 0, to) == shown_lines(rows, sel.side, 0, to),
    decreases to,
{
    if to > 0 {
        lemma_all_lines(sel, rows, to - 1);
        if let Some(text) = side_text(rows[to - 1], sel.side) {
            assert(text.subrange(0, text.len() as int) =~= text);
            assert(selected_text(sel, to - 1, rows[to - 1]) == Some(text));
        }
    }
}

// --- What is selected and copied -------------------------------------------

/// Whether `first` and `last` are the two ends of a selection in the order of the
/// text: by row, and within a row by column.
pub open spec fn are_ends(sel: Selection, first: RowCol, last: RowCol) -> bool {
    &&& (first == sel.anchor && last == sel.head) || (first == sel.head && last == sel.anchor)
    &&& first.row < last.row || (first.row == last.row && first.col <= last.col)
}

/// The start and the end of a selection are its two ends, in the order of the text.
pub proof fn start_and_end_are_the_ends(sel: Selection)
    ensures
        are_ends(sel, sel.start(), sel.end()),
        forall|first: RowCol, last: RowCol| #[trigger]
            are_ends(sel, first, last) ==> first == sel.start() && last == sel.end(),
{
}

/// A row has text on the side of the unified view if it is a line of that view, and
/// on a side of the split view if it has a cell there. No other row has text.
pub proof fn text_of_a_row<T>(row: RowView<T>)
    ensures
        side_text(row, SelSide::Unified) == (match row {
            RowView::Line { text, .. } => Some(text),
            _ => None,
        }),
        side_text(row, SelSide::Left) == (match row {
            RowView::SplitLine { left: Some(cell), .. } => Some(cell.text),
            _ => None,
        }),
        side_text(row, SelSide::Right) == (match row {
            RowView::SplitLine { right: Some(cell), .. } => Some(cell.text),
            _ => None,
        }),
{
}

/// The column of a text of `chars` characters, shown as row `row_ix`, from which on it
/// lies behind the first end: that of the end if it is in this row, else the first
/// column. An end behind the text is at its end.
pub open spec fn from_column(chars: int, row_ix: int, first: RowCol) -> int {
    if row_ix != first.row {
        0
    } else if first.col < chars {
        first.col as int
    } else {
        chars
    }
}

/// The column up to which it lies before the last end: that of the end if it is in
/// this row, else the end of the text.
pub open spec fn to_column(chars: int, row_ix: int, last: RowCol) -> int {
    if row_ix == last.row && last.col < chars {
        last.col as int
    } else {
        chars
    }
}

/// What lies between two ends of a text that is row `row_ix`.
pub open spec fn between(
    text: Seq<char>,
    row_ix: int,
    first: RowCol,
    last: RowCol,
) -> Seq<char> {
    text.subrange(
        from_column(text.len() as int, row_ix, first),
        to_column(text.len() as int, row_ix, last),
    )
}

/// A selection selects of each row from that of its first end to that of its last
/// end, and of no other row, what lies between the two ends.
pub proof fn rows_are_selected_between_the_ends<T>(
    sel: Selection,
    first: RowCol,
    last: RowCol,
    row_ix: int,
    row: RowView<T>,
)
    requires
        are_ends(sel, first, last),
    ensures
        match selected_text(sel, row_ix, row) {
            Some(taken) => {
                &&& first.row <= row_ix <= last.row
                &&& side_text(row, sel.side) matches Some(text) && taken == between(
                    text,
                    row_ix,
                    first,
                    last,
                )
            },
            None => row_ix < first.row || last.row < row_ix || side_text(row, sel.side) is None,
        },
        match selected_bytes(sel, row_ix, row) {
            Some((from, to)) => {
                &&& first.row <= row_ix <= last.row
                &&& side_text(row, sel.side) matches Some(text) && {
                    let chars = text.len() as int;
                    &&& from == encode_utf8(text.take(from_column(chars, row_ix, first))).len()
                    &&& to == encode_utf8(text.take(to_column(chars, row_ix, last))).len()
                }
            },
            None => row_ix < first.row || last.row < row_ix || side_text(row, sel.side) is None,
        },
{
    if let Some(text) = side_text(row, sel.side) {
        assert(text.take(text.len() as int) =~= text);
    }
    if let Some(text) = side_text(row, sel.side) {
        if let Some(taken) = selected_text(sel, row_ix, row) {
            assert(taken =~= between(text, row_ix, first, last));
        }
    }
}

/// The offset of a column is the number of bytes, in UTF-8, of the characters before
/// it; a column behind the text is at its end.
pub proof fn offset_counts_the_bytes_before(text: Seq<char>, col: int)
    requires
        0 <= col,
    ensures
        col <= text.len() ==> byte_offset(text, col) == encode_utf8(text.take(col)).len(),
        col > text.len() ==> byte_offset(text, col) == encode_utf8(text).len(),
{
    assert(text.take(text.len() as int) =~= text);
}

/// Lines are joined with one line feed between each two and are kept as they are:
/// two lists of lines together are joined as the first, a line feed, and the second;
/// one line is joined to itself.
pub proof fn lines_are_joined_by_line_feeds(a: Seq<Seq<char>>, b: Seq<Seq<char>>)
    ensures
        a.len() == 0 ==> joined_lines(a) == Seq::<char>::empty(),
        a.len() == 1 ==> joined_lines(a) == a[0],
        a.len() > 0 && b.len() > 0 ==> joined_lines(a + b) == joined_lines(a) + seq!['\n']
            + joined_lines(b),
    decreases b.len(),
{
    if a.len() > 0 && b.len() > 0 {
        assert((a + b).drop_last() =~= a + b.drop_last());
        assert((a + b).last() == b.last());
        if b.len() == 1 {
            assert(a + b.drop_last() =~= a);
        } else {
            lines_are_joined_by_line_feeds(a, b.drop_last());
        }
        assert(joined_lines(a + b) =~= joined_lines(a) + seq!['\n'] + joined_lines(b));
    }
}

/// A text split at its line feeds.
pub open spec fn split_at_feeds(text: Seq<char>) -> Seq<Seq<char>>
    decreases text.len(),
{
    if text.len() == 0 {
        seq![seq![]]
    } else {
        let before = split_at_feeds(text.drop_last());
        if text.last() == '\n' {
            before.push(seq![])
        } else {
            before.drop_last().push(before.last().push(text.last()))
        }
    }
}

proof fn lemma_split_nonempty(text: Seq<char>)
    ensures
        split_at_feeds(text).len() >= 1,
    decreases text.len(),
{
    if text.len() > 0 {
        lemma_split_nonempty(text.drop_last());
    }
}

/// A text without line feeds behind another text goes to its last part.
proof fn lemma_split_goes_on(text: Seq<char>, more: Seq<char>)
    requires
        !more.contains('\n'),
    ensures
        split_at_feeds(text + more) == split_at_feeds(text).drop_last().push(
            split_at_feeds(text).last() + more,
        ),
    decreases more.len(),
{
    let before = split_at_feeds(text);
    lemma_split_nonempty(text);
    if more.len() == 0 {
        assert(text + more =~= text);
        assert(before.last() + more =~= before.last());
        assert(before =~= before.drop_last().push(before.last()));
    } else {
        let shorter = more.drop_last();
        assert forall|i: int| 0 <= i < shorter.len() implies shorter[i] != '\n' by {
            assert(more.contains(more[i]));
        }
        assert(more.contains(more.last()));
        lemma_split_goes_on(text, shorter);
        assert((text + more).drop_last() =~= text + shorter);
        let up_to = split_at_feeds(text + shorter);
        assert(up_to.drop_last() =~= before.drop_last());
        assert((before.last() + shorter).push(more.last()) =~= before.last() + more);
    }
}

/// Splitting joined lines at the line feeds gives back the lines, as long as they
/// hold no line feeds themselves. The length of the joined text is the sum of their
/// lengths plus one less than their number.
pub proof fn splitting_gives_back_the_lines(lines: Seq<Seq<char>>)
    requires
        lines.len() > 0,
        forall|i: int| 0 <= i < lines.len() ==> !(#[trigger] lines[i]).contains('\n'),
    ensures
        split_at_feeds(joined_lines(lines)) == lines,
        joined_lines(lines).len() == lines.map_values(|line: Seq<char>| line.len() as int).fold_left(
            0int,
            |sum: int, n: int| sum + n,
        ) + lines.len() - 1,
    decreases lines.len(),
{
    let lengths = lines.map_values(|line: Seq<char>| line.len() as int);
    let shorter = lines.drop_last();
    let last = lines.last();
    let none = Seq::<char>::empty();
    assert(last == lines[lines.len() - 1]);
    assert(lengths.drop_last() =~= shorter.map_values(|line: Seq<char>| line.len() as int));
    reveal_with_fuel(Seq::fold_left, 2);
    if lines.len() == 1 {
        lemma_split_goes_on(none, last);
        assert(none + last =~= last);
        assert(split_at_feeds(none) =~= seq![none]);
        assert(split_at_feeds(none).last() + last =~= last);
        assert(split_at_feeds(joined_lines(lines)) =~= lines);
        assert(lengths.drop_last().len() == 0);
    } else {
        let before = joined_lines(shorter);
        splitting_gives_back_the_lines(shorter);
        let fed = before + seq!['\n'];
        assert(fed.drop_last() =~= before);
        assert(split_at_feeds(fed) == shorter.push(seq![]));
        lemma_split_goes_on(fed, last);
        assert(shorter.push(seq![]).drop_last() =~= shorter);
        assert(none + last =~= last);
        assert(shorter.push(last) =~= lines);
    }
}

proof fn lemma_lines_taken<T>(
    sel: Selection,
    first: RowCol,
    last: RowCol,
    rows: Seq<RowView<T>>,
    to: int,
) -> (at: Seq<int>)
    requires
        are_ends(sel, first, last),
        to <= rows.len(),
        to <= last.row + 1,
    ensures
        forall|a: int, b: int| 0 <= a < b < at.len() ==> at[a] < at[b],
        forall|r: int| #[trigger]
            at.contains(r) <==> first.row <= r < to && side_text(rows[r], sel.side) is Some,
        selected_lines(sel, rows, first.row as int, to).len() == at.len(),
        forall|k: int|
            0 <= k < at.len() ==> #[trigger] selected_lines(sel, rows, first.row as int, to)[k]
                == between(side_text(rows[at[k]], sel.side)->0, at[k], first, last),
    decreases to,
{
    if to <= first.row {
        Seq::<int>::empty()
    } else {
        let above = lemma_lines_taken(sel, first, last, rows, to - 1);
        rows_are_selected_between_the_ends(sel, first, last, to - 1, rows[to - 1]);
        if side_text(rows[to - 1], sel.side) is Some {
            let at = above.push(to - 1);
            assert forall|a: int, b: int| 0 <= a < b < at.len() implies at[a] < at[b] by {
                assert(above.contains(above[a]));
            }
            assert forall|r: int| #[trigger] at.contains(r) <==> first.row <= r < to && side_text(
                rows[r],
                sel.side,
            ) is Some by {
                if at.contains(r) && r != to - 1 {
                    let k = choose|k: int| 0 <= k < at.len() && at[k] == r;
                    assert(above[k] == r);
                    assert(above.contains(r));
                }
                if first.row <= r < to && side_text(rows[r], sel.side) is Some {
                    if r == to - 1 {
                        assert(at[at.len() - 1] == r);
                    } else {
                        assert(above.contains(r));
                        let k = choose|k: int| 0 <= k < above.len() && above[k] == r;
                        assert(at[k] == r);
                    }
                }
            }
            let lines = selected_lines(sel, rows, first.row as int, to);
            let fewer = selected_lines(sel, rows, first.row as int, to - 1);
            assert forall|k: int| 0 <= k < at.len() implies #[trigger] lines[k] == between(
                side_text(rows[at[k]], sel.side)->0,
                at[k],
                first,
                last,
            ) by {
                if k < above.len() {
                    assert(lines[k] == fewer[k]);
                    assert(at[k] == above[k]);
                }
            }
            at
        } else {
            assert forall|r: int| #[trigger] above.contains(r) <==> first.row <= r < to
                && side_text(rows[r], sel.side) is Some by {}
            above
        }
    }
}

/// The text that is copied. The proof gives the rows that it comes from: in order,
/// all rows from that of the first end to that of the last end that have text on the
/// side of the selection, and no others. The copied text is what lies between the
/// ends of each, unchanged, with one line feed between each two; and where none of
/// that holds a line feed, splitting the copied text at its line feeds gives it back.
pub proof fn copying_takes_what_is_between_the_ends<T>(
    sel: Selection,
    first: RowCol,
    last: RowCol,
    rows: Seq<RowView<T>>,
) -> (at: Seq<int>)
    requires
        are_ends(sel, first, last),
    ensures
        forall|a: int, b: int| 0 <= a < b < at.len() ==> at[a] < at[b],
        forall|r: int| #[trigger]
            at.contains(r) <==> 0 <= r < rows.len() && first.row <= r <= last.row && side_text(
                rows[r],
                sel.side,
            ) is Some,
        ({
            let lines = at.map_values(
                |r: int| between(side_text(rows[r], sel.side)->0, r, first, last),
            );
            &&& copied_text(sel, rows) == joined_lines(lines)
            &&& at.len() == 0 ==> copied_text(sel, rows).len() == 0
            &&& at.len() == 1 ==> copied_text(sel, rows) == lines[0]
            &&& at.len() > 0 && (forall|k: int|
                0 <= k < lines.len() ==> !(#[trigger] lines[k]).contains('\n')) ==> split_at_feeds(
                copied_text(sel, rows),
            ) == lines
        }),
{
    let to = if last.row < rows.len() {
        last.row + 1
    } else {
        rows.len() as int
    };
    let at = lemma_lines_taken(sel, first, last, rows, to);
    let lines = at.map_values(|r: int| between(side_text(rows[r], sel.side)->0, r, first, last));
    assert(selected_lines(sel, rows, first.row as int, to) =~= lines);
    assert forall|r: int| #[trigger] at.contains(r) <==> 0 <= r < rows.len() && first.row <= r
        <= last.row && side_text(rows[r], sel.side) is Some by {}
    lines_are_joined_by_line_feeds(lines, lines);
    if at.len() > 0 && (forall|k: int|
        0 <= k < lines.len() ==> !(#[trigger] lines[k]).contains('\n')) {
        splitting_gives_back_the_lines(lines);
    }
    at
}

}
