//! Overlaying syntax colors, changed words and the selection on one line.

use std::ops::Range;
use vstd::prelude::*;

verus! {

/// How a piece of text is drawn. `face` stands for everything but the
/// background; equal faces look the same, and face 0 is plain text. A
/// background is a color, or none.
#[derive(Clone, Copy, PartialEq, Eq, Debug, Structural)]
pub struct Style {
    pub face: u32,
    pub background: Option<u32>,
}

/// What lies over one line: styled tokens, changed words with their background,
/// and the selection with its background. All ranges count bytes.
pub struct Overlay {
    pub syntax: Seq<(Range<usize>, Style)>,
    pub intra: Seq<Range<usize>>,
    pub word_bg: Option<u32>,
    pub selection_bg: u32,
    pub selection: Option<Range<usize>>,
}

/// Whether byte `p` lies in a range.
pub open spec fn within(range: Range<usize>, p: int) -> bool {
    range.start <= p < range.end
}

/// The index, from `i` on, of the first range that ends after byte `p`; the
/// number of ranges if none does.
pub open spec fn first_open(ranges: Seq<Range<usize>>, p: int, i: int) -> int
    decreases ranges.len() - i,
{
    if i < 0 || i >= ranges.len() {
        ranges.len() as int
    } else if p < ranges[i].end {
        i
    } else {
        first_open(ranges, p, i + 1)
    }
}

/// Whether byte `p` is covered: the first range that ends after it holds it.
/// For sorted ranges that do not overlap, this is to lie in any of them.
pub open spec fn covered(ranges: Seq<Range<usize>>, p: int) -> bool {
    let i = first_open(ranges, p, 0);
    i < ranges.len() && within(ranges[i], p)
}

impl Overlay {
    /// The ranges of the tokens.
    pub open spec fn token_ranges(self) -> Seq<Range<usize>> {
        self.syntax.map_values(|token: (Range<usize>, Style)| token.0)
    }

    /// Whether byte `p` is selected.
    pub open spec fn selected(self, p: int) -> bool {
        match self.selection {
            Some(range) => within(range, p),
            None => false,
        }
    }

    /// The style of byte `p`; `None` where nothing lies over it. The face is that
    /// of the token; the background is that of the selection, else that of
    /// changed words, else that of the token.
    pub open spec fn style_at(self, p: int) -> Option<Style> {
        let in_token = covered(self.token_ranges(), p);
        let in_word = covered(self.intra, p);
        if !in_token && !in_word && !self.selected(p) {
            None
        } else {
            let base = if in_token {
                self.syntax[first_open(self.token_ranges(), p, 0)].1
            } else {
                Style { face: 0, background: None }
            };
            Some(
                Style {
                    face: base.face,
                    background: if self.selected(p) {
                        Some(self.selection_bg)
                    } else if in_word {
                        self.word_bg
                    } else {
                        base.background
                    },
                },
            )
        }
    }
}

/// Whether `pieces` is the overlay as a list of styled ranges: sorted, without
/// overlap and without empty ranges; each byte in a range has the style of the
/// range; each byte that has a style is in a range; and neighbors that touch
/// differ in style.
pub open spec fn is_merged(pieces: Seq<(Range<usize>, Style)>, overlay: Overlay) -> bool {
    &&& forall|i: int|
        0 <= i < pieces.len() ==> (#[trigger] pieces[i]).0.start < pieces[i].0.end
    &&& forall|i: int, j: int|
        0 <= i < j < pieces.len() ==> (#[trigger] pieces[i]).0.end <= (#[trigger] pieces[j]).0.start
    &&& forall|i: int, p: int|
        0 <= i < pieces.len() && #[trigger] within(pieces[i].0, p) ==> overlay.style_at(p) == Some(
            pieces[i].1,
        )
    &&& forall|p: int| #[trigger]
        overlay.style_at(p) is Some ==> exists|i: int|
            0 <= i < pieces.len() && #[trigger] within(pieces[i].0, p)
    &&& forall|i: int, j: int|
        0 <= i < pieces.len() && j == i + 1 && j < pieces.len() && (#[trigger] pieces[i]).0.end == (
        #[trigger] pieces[j]).0.start ==> pieces[i].1 != pieces[j].1
}

/// What `is_merged` says, for the bytes before `to` only.
spec fn merged_up_to(pieces: Seq<(Range<usize>, Style)>, overlay: Overlay, to: int) -> bool {
    &&& forall|i: int|
        0 <= i < pieces.len() ==> (#[trigger] pieces[i]).0.start < pieces[i].0.end <= to
    &&& forall|i: int, j: int|
        0 <= i < j < pieces.len() ==> (#[trigger] pieces[i]).0.end <= (#[trigger] pieces[j]).0.start
    &&& forall|i: int, p: int|
        0 <= i < pieces.len() && #[trigger] within(pieces[i].0, p) ==> overlay.style_at(p) == Some(
            pieces[i].1,
        )
    &&& forall|p: int|
        p < to && #[trigger] overlay.style_at(p) is Some ==> exists|i: int|
            0 <= i < pieces.len() && #[trigger] within(pieces[i].0, p)
    &&& forall|i: int, j: int|
        0 <= i < pieces.len() && j == i + 1 && j < pieces.len() && (#[trigger] pieces[i]).0.end == (
        #[trigger] pieces[j]).0.start ==> pieces[i].1 != pieces[j].1
}

spec fn ascending(bounds: Seq<usize>) -> bool {
    forall|i: int, j: int| 0 <= i < j < bounds.len() ==> bounds[i] < bounds[j]
}

/// Adds `bound` to an ascending list without duplicates.
fn add_bound(bounds: &mut Vec<usize>, bound: usize)
    requires
        ascending(old(bounds)@),
    ensures
        ascending(final(bounds)@),
        final(bounds)@.contains(bound),
        forall|b: usize| #[trigger]
            final(bounds)@.contains(b) ==> b == bound || old(bounds)@.contains(b),
        forall|b: usize| #[trigger] old(bounds)@.contains(b) ==> final(bounds)@.contains(b),
{
    let mut at: usize = bounds.len();
    while at > 0 && bounds[at - 1] > bound
        invariant
            at <= bounds.len(),
            ascending(bounds@),
            forall|i: int| at <= i < bounds.len() ==> bound < bounds[i],
        decreases at,
    {
        at -= 1;
    }
    if at > 0 && bounds[at - 1] == bound {
        assert(bounds@[at - 1] == bound);
        return ;
    }
    let ghost before = bounds@;
    bounds.insert(at, bound);
    proof {
        let after = bounds@;
        assert(after == before.insert(at as int, bound));
        assert(after[at as int] == bound);
        assert forall|b: usize| #[trigger] before.contains(b) implies after.contains(b) by {
            let i = choose|i: int| 0 <= i < before.len() && before[i] == b;
            if i < at {
                assert(after[i] == b);
            } else {
                assert(after[i + 1] == b);
            }
        }
        assert forall|b: usize| #[trigger] after.contains(b) implies b == bound || before.contains(
            b,
        ) by {
            let i = choose|i: int| 0 <= i < after.len() && after[i] == b;
            if i < at {
                assert(before[i] == b);
            } else if i > at {
                assert(before[i - 1] == b);
            }
        }
    }
}

/// Whether the ends of all ranges are among `bounds`.
spec fn bounded_by(ranges: Seq<Range<usize>>, bounds: Seq<usize>) -> bool {
    forall|i: int|
        0 <= i < ranges.len() ==> bounds.contains((#[trigger] ranges[i]).start) && bounds.contains(
            ranges[i].end,
        )
}

/// `first_open` is the least index of a range that ends after `p`.
proof fn lemma_first_open(ranges: Seq<Range<usize>>, p: int, i: int)
    requires
        0 <= i <= ranges.len(),
    ensures
        i <= first_open(ranges, p, i) <= ranges.len(),
        forall|k: int| i <= k < first_open(ranges, p, i) ==> (#[trigger] ranges[k]).end <= p,
        first_open(ranges, p, i) < ranges.len() ==> p < ranges[first_open(ranges, p, i)].end,
    decreases ranges.len() - i,
{
    if i < ranges.len() && ranges[i].end <= p {
        lemma_first_open(ranges, p, i + 1);
    }
}

/// An index with the properties of `first_open` is `first_open`.
proof fn lemma_first_open_is(ranges: Seq<Range<usize>>, p: int, at: int)
    requires
        0 <= at <= ranges.len(),
        forall|k: int| 0 <= k < at ==> (#[trigger] ranges[k]).end <= p,
        at < ranges.len() ==> p < ranges[at].end,
    ensures
        first_open(ranges, p, 0) == at,
{
    lemma_first_open(ranges, p, 0);
    let found = first_open(ranges, p, 0);
    if found < at {
        assert(ranges[found].end <= p);
    } else if at < found {
        assert(ranges[at].end <= p);
    }
}

/// Between two neighboring bounds nothing changes.
proof fn lemma_constant_between(
    ranges: Seq<Range<usize>>,
    bounds: Seq<usize>,
    k: int,
    p: int,
)
    requires
        bounded_by(ranges, bounds),
        ascending(bounds),
        0 <= k < bounds.len() - 1,
        bounds[k] <= p < bounds[k + 1],
    ensures
        first_open(ranges, p, 0) == first_open(ranges, bounds[k] as int, 0),
        covered(ranges, p) == covered(ranges, bounds[k] as int),
{
    let b = bounds[k] as int;
    let at = first_open(ranges, b, 0);
    lemma_first_open(ranges, b, 0);
    assert forall|i: int| 0 <= i < ranges.len() implies ((#[trigger] ranges[i]).end <= p
        <==> ranges[i].end <= b) && (ranges[i].start <= p <==> ranges[i].start <= b) by {
        lemma_bound_outside(bounds, k, ranges[i].end);
        lemma_bound_outside(bounds, k, ranges[i].start);
    }
    lemma_first_open_is(ranges, p, at);
}

/// No bound lies strictly between two neighbors.
proof fn lemma_bound_outside(bounds: Seq<usize>, k: int, b: usize)
    requires
        ascending(bounds),
        bounds.contains(b),
        0 <= k < bounds.len() - 1,
    ensures
        b <= bounds[k] || bounds[k + 1] <= b,
{
    let i = choose|i: int| 0 <= i < bounds.len() && bounds[i] == b;
    if i < k {
        assert(bounds[i] < bounds[k]);
    } else if i > k + 1 {
        assert(bounds[k + 1] < bounds[i]);
    }
}

/// Before the first and from the last bound on nothing is covered.
proof fn lemma_outside_bounds(ranges: Seq<Range<usize>>, bounds: Seq<usize>, p: int)
    requires
        bounded_by(ranges, bounds),
        ascending(bounds),
        bounds.len() > 0 ==> p < bounds[0] || bounds.last() <= p,
    ensures
        !covered(ranges, p),
{
    lemma_first_open(ranges, p, 0);
    let at = first_open(ranges, p, 0);
    if at < ranges.len() {
        let range = ranges[at];
        let i = choose|i: int| 0 <= i < bounds.len() && bounds[i] == range.start;
        let j = choose|j: int| 0 <= j < bounds.len() && bounds[j] == range.end;
        assert(bounds[0] <= bounds[i]);
        assert(bounds[j] <= bounds.last());
    }
}

/// The style is the same all over the segment between two neighboring bounds.
proof fn lemma_segment_style(overlay: Overlay, bounds: Seq<usize>, k: int, p: int)
    requires
        ascending(bounds),
        bounded_by(overlay.token_ranges(), bounds),
        bounded_by(overlay.intra, bounds),
        overlay.selection matches Some(range) ==> bounds.contains(range.start) && bounds.contains(
            range.end,
        ),
        0 <= k < bounds.len() - 1,
        bounds[k] <= p < bounds[k + 1],
    ensures
        overlay.style_at(p) == overlay.style_at(bounds[k] as int),
{
    lemma_constant_between(overlay.token_ranges(), bounds, k, p);
    lemma_constant_between(overlay.intra, bounds, k, p);
    if let Some(range) = overlay.selection {
        lemma_bound_outside(bounds, k, range.start);
        lemma_bound_outside(bounds, k, range.end);
    }
}

/// Nothing has a style before the first or from the last bound on.
proof fn lemma_no_style_outside(overlay: Overlay, bounds: Seq<usize>, p: int)
    requires
        ascending(bounds),
        bounded_by(overlay.token_ranges(), bounds),
        bounded_by(overlay.intra, bounds),
        overlay.selection matches Some(range) ==> bounds.contains(range.start) && bounds.contains(
            range.end,
        ),
        bounds.len() > 0 ==> p < bounds[0] || bounds.last() <= p,
    ensures
        overlay.style_at(p) is None,
{
    lemma_outside_bounds(overlay.token_ranges(), bounds, p);
    lemma_outside_bounds(overlay.intra, bounds, p);
    if let Some(range) = overlay.selection {
        let i = choose|i: int| 0 <= i < bounds.len() && bounds[i] == range.start;
        let j = choose|j: int| 0 <= j < bounds.len() && bounds[j] == range.end;
        assert(bounds[0] <= bounds[i]);
        assert(bounds[j] <= bounds.last());
    }
}

/// One more segment, at the end of the pieces found so far.
proof fn lemma_add_segment(
    before: Seq<(Range<usize>, Style)>,
    after: Seq<(Range<usize>, Style)>,
    overlay: Overlay,
    start: usize,
    end: usize,
)
    requires
        merged_up_to(before, overlay, start as int),
        start < end,
        forall|p: int|
            start <= p < end ==> #[trigger] overlay.style_at(p) == overlay.style_at(start as int),
        match overlay.style_at(start as int) {
            None => after == before,
            Some(style) => if before.len() > 0 && before.last().0.end == start && before.last().1
                == style {
                after == before.update(
                    before.len() - 1,
                    (Range { start: before.last().0.start, end }, style),
                )
            } else {
                after == before.push((Range { start, end }, style))
            },
        },
    ensures
        merged_up_to(after, overlay, end as int),
{
    assert forall|p: int| p < end && #[trigger] overlay.style_at(p) is Some implies exists|i: int|
        0 <= i < after.len() && #[trigger] within(after[i].0, p) by {
        if p < start {
            let i = choose|i: int| 0 <= i < before.len() && #[trigger] within(before[i].0, p);
            assert(within(after[i].0, p));
        } else {
            assert(overlay.style_at(p) == overlay.style_at(start as int));
            assert(within(after[after.len() - 1].0, p));
        }
    }
    assert forall|i: int, p: int| 0 <= i < after.len() && #[trigger] within(
        after[i].0,
        p,
    ) implies overlay.style_at(p) == Some(after[i].1) by {
        if i < before.len() {
            assert(within(before[i].0, p) || start <= p < end);
        }
    }
}

/// Overlays syntax colors, the background of changed words and the background of
/// the selection into one sorted list of styled ranges without overlap.
pub fn merge_highlights(
    syntax: &[(Range<usize>, Style)],
    intra: &[Range<usize>],
    word_bg: Option<u32>,
    selection_bg: u32,
    selection: Option<Range<usize>>,
) -> (pieces: Vec<(Range<usize>, Style)>)
    ensures
        is_merged(
            pieces@,
            (Overlay { syntax: syntax@, intra: intra@, word_bg, selection_bg, selection }),
        ),
{
    let ghost overlay = Overlay {
        syntax: syntax@,
        intra: intra@,
        word_bg,
        selection_bg,
        selection,
    };
    let ghost tokens = overlay.token_ranges();
    let mut bounds: Vec<usize> = Vec::new();
    for i in 0..syntax.len()
        invariant
            tokens == syntax@.map_values(|token: (Range<usize>, Style)| token.0),
            ascending(bounds@),
            bounded_by(tokens.take(i as int), bounds@),
    {
        let (start, end) = (syntax[i].0.start, syntax[i].0.end);
        add_bound(&mut bounds, start);
        add_bound(&mut bounds, end);
        proof {
            assert(tokens[i as int] == syntax@[i as int].0);
            assert(tokens.take(i + 1) =~= tokens.take(i as int).push(tokens[i as int]));
        }
    }
    assert(tokens.take(syntax.len() as int) =~= tokens);
    for i in 0..intra.len()
        invariant
            ascending(bounds@),
            bounded_by(tokens, bounds@),
            bounded_by(intra@.take(i as int), bounds@),
    {
        let (start, end) = (intra[i].start, intra[i].end);
        add_bound(&mut bounds, start);
        add_bound(&mut bounds, end);
        assert(intra@.take(i + 1) =~= intra@.take(i as int).push(intra@[i as int]));
    }
    assert(intra@.take(intra.len() as int) =~= intra@);
    if let Some(range) = &selection {
        add_bound(&mut bounds, range.start);
        add_bound(&mut bounds, range.end);
    }
    let mut pieces: Vec<(Range<usize>, Style)> = Vec::new();
    if bounds.len() == 0 {
        proof {
            assert forall|p: int| (#[trigger] overlay.style_at(p)) is None by {
                lemma_no_style_outside(overlay, bounds@, p);
            }
        }
        return pieces;
    }
    proof {
        assert forall|p: int| p < bounds@[0] implies (#[trigger] overlay.style_at(p)) is None by {
            lemma_no_style_outside(overlay, bounds@, p);
        }
    }
    let mut token_at: usize = 0;
    let mut word_at: usize = 0;
    for k in 0..bounds.len() - 1
        invariant
            bounds.len() > 0,
            overlay == (Overlay {
                syntax: syntax@,
                intra: intra@,
                word_bg,
                selection_bg,
                selection,
            }),
            tokens == overlay.token_ranges(),
            ascending(bounds@),
            bounded_by(tokens, bounds@),
            bounded_by(intra@, bounds@),
            selection matches Some(range) ==> bounds@.contains(range.start) && bounds@.contains(
                range.end,
            ),
            token_at <= syntax.len(),
            word_at <= intra.len(),
            forall|i: int| 0 <= i < token_at ==> (#[trigger] tokens[i]).end <= bounds@[k as int],
            forall|i: int| 0 <= i < word_at ==> (#[trigger] intra@[i]).end <= bounds@[k as int],
            merged_up_to(pieces@, overlay, bounds@[k as int] as int),
    {
        let start: usize = bounds[k];
        let end: usize = bounds[k + 1];
        while token_at < syntax.len() && syntax[token_at].0.end <= start
            invariant
                token_at <= syntax.len(),
                tokens == syntax@.map_values(|token: (Range<usize>, Style)| token.0),
                forall|i: int| 0 <= i < token_at ==> (#[trigger] tokens[i]).end <= start,
            decreases syntax.len() - token_at,
        {
            assert(tokens[token_at as int] == syntax@[token_at as int].0);
            token_at += 1;
        }
        while word_at < intra.len() && intra[word_at].end <= start
            invariant
                word_at <= intra.len(),
                forall|i: int| 0 <= i < word_at ==> (#[trigger] intra@[i]).end <= start,
            decreases intra.len() - word_at,
        {
            word_at += 1;
        }
        proof {
            if token_at < syntax.len() {
                assert(tokens[token_at as int] == syntax@[token_at as int].0);
            }
            lemma_first_open_is(tokens, start as int, token_at as int);
            lemma_first_open_is(intra@, start as int, word_at as int);
        }
        let in_token = token_at < syntax.len() && syntax[token_at].0.start <= start;
        let in_word = word_at < intra.len() && intra[word_at].start <= start;
        let in_selection = match &selection {
            Some(range) => range.start <= start && start < range.end,
            None => false,
        };
        let ghost before = pieces@;
        if in_token || in_word || in_selection {
            let mut style = if in_token {
                syntax[token_at].1
            } else {
                Style { face: 0, background: None }
            };
            if in_word {
                style.background = word_bg;
            }
            if in_selection {
                style.background = Some(selection_bg);
            }
            assert(overlay.style_at(start as int) == Some(style));
            let n: usize = pieces.len();
            if n > 0 && pieces[n - 1].0.end == start && pieces[n - 1].1 == style {
                let from: usize = pieces[n - 1].0.start;
                pieces.set(n - 1, (from..end, style));
            } else {
                pieces.push((start..end, style));
            }
        } else {
            assert(overlay.style_at(start as int) is None);
        }
        proof {
            assert forall|p: int| start <= p < end implies #[trigger] overlay.style_at(p)
                == overlay.style_at(start as int) by {
                lemma_segment_style(overlay, bounds@, k as int, p);
            }
            lemma_add_segment(before, pieces@, overlay, start, end);
        }
    }
    proof {
        let last = bounds@[bounds.len() - 1] as int;
        assert(merged_up_to(pieces@, overlay, last));
        assert forall|p: int| (#[trigger] overlay.style_at(p)) is Some implies exists|i: int|
            0 <= i < pieces.len() && #[trigger] within(pieces@[i].0, p) by {
            if p >= last {
                lemma_no_style_outside(overlay, bounds@, p);
            }
        }
    }
    pieces
}

/// For sorted ranges that do not overlap, a byte is covered exactly if it lies in
/// one of the ranges, and that range is the one that `first_open` finds.
pub proof fn covered_is_to_lie_in_a_range(ranges: Seq<Range<usize>>, p: int)
    requires
        forall|i: int, j: int|
            0 <= i < j < ranges.len() ==> (#[trigger] ranges[i]).end <= (
            #[trigger] ranges[j]).start,
    ensures
        covered(ranges, p) <==> exists|i: int|
            0 <= i < ranges.len() && #[trigger] within(ranges[i], p),
        forall|i: int|
            0 <= i < ranges.len() && #[trigger] within(ranges[i], p) ==> first_open(ranges, p, 0)
                == i,
{
    lemma_first_open(ranges, p, 0);
    let at = first_open(ranges, p, 0);
    assert forall|i: int| 0 <= i < ranges.len() && #[trigger] within(ranges[i], p) implies at
        == i by {
        if i < at {
            assert(ranges[i].end <= p);
        } else if at < i {
            assert(ranges[at].end <= ranges[i].start);
        }
    }
    if covered(ranges, p) {
        assert(within(ranges[at], p));
    }
}

/// Two lists that are the same overlay begin alike.
proof fn lemma_same_piece(
    a: Seq<(Range<usize>, Style)>,
    b: Seq<(Range<usize>, Style)>,
    overlay: Overlay,
    i: int,
)
    requires
        is_merged(a, overlay),
        is_merged(b, overlay),
        0 <= i < a.len(),
        forall|k: int| 0 <= k < i && k < b.len() ==> #[trigger] a[k] == b[k],
    ensures
        i < b.len(),
        b[i].0.start <= a[i].0.start,
{
    let p = a[i].0.start as int;
    assert(within(a[i].0, p));
    assert(overlay.style_at(p) is Some);
    let j = choose|j: int| 0 <= j < b.len() && #[trigger] within(b[j].0, p);
    if j < i {
        assert(a[j] == b[j]);
        assert(a[j].0.end <= a[i].0.start);
    } else if i < j {
        assert(b[i].0.end <= b[j].0.start);
    }
}

/// Of two pieces that start together, neither ends first.
proof fn lemma_same_end(
    a: Seq<(Range<usize>, Style)>,
    b: Seq<(Range<usize>, Style)>,
    overlay: Overlay,
    i: int,
)
    requires
        is_merged(a, overlay),
        is_merged(b, overlay),
        0 <= i < a.len(),
        i < b.len(),
        a[i].0.start == b[i].0.start,
    ensures
        a[i].1 == b[i].1,
        b[i].0.end <= a[i].0.end,
{
    assert(within(a[i].0, a[i].0.start as int));
    assert(within(b[i].0, a[i].0.start as int));
    if a[i].0.end < b[i].0.end {
        let p = a[i].0.end as int;
        assert(within(b[i].0, p));
        let k = choose|k: int| 0 <= k < a.len() && #[trigger] within(a[k].0, p);
        if k < i {
            assert(a[k].0.end <= a[i].0.start);
        } else if k > i + 1 {
            assert(a[i].0.end <= a[i + 1].0.start);
            assert(a[i + 1].0.start < a[i + 1].0.end);
            assert(a[i + 1].0.end <= a[k].0.start);
        } else if k == i + 1 {
            assert(a[i].0.end <= a[i + 1].0.start);
            assert(a[i].1 != a[i + 1].1);
        }
    }
}

proof fn lemma_same_pieces(
    a: Seq<(Range<usize>, Style)>,
    b: Seq<(Range<usize>, Style)>,
    overlay: Overlay,
    n: int,
)
    requires
        is_merged(a, overlay),
        is_merged(b, overlay),
        0 <= n <= a.len(),
    ensures
        n <= b.len(),
        forall|k: int| 0 <= k < n ==> #[trigger] a[k] == b[k],
    decreases n,
{
    if n > 0 {
        let i = n - 1;
        lemma_same_pieces(a, b, overlay, i);
        lemma_same_piece(a, b, overlay, i);
        assert forall|k: int| 0 <= k < i && k < a.len() implies #[trigger] b[k] == a[k] by {
            assert(a[k] == b[k]);
        }
        lemma_same_piece(b, a, overlay, i);
        lemma_same_end(a, b, overlay, i);
        lemma_same_end(b, a, overlay, i);
        assert(a[i].0 == b[i].0);
    }
}

/// The styled ranges are determined by what lies over the line.
pub proof fn merged_is_unique(
    a: Seq<(Range<usize>, Style)>,
    b: Seq<(Range<usize>, Style)>,
    overlay: Overlay,
)
    requires
        is_merged(a, overlay),
        is_merged(b, overlay),
    ensures
        a == b,
{
    lemma_same_pieces(a, b, overlay, a.len() as int);
    lemma_same_pieces(b, a, overlay, b.len() as int);
    assert(a =~= b);
}

// --- What is drawn at a byte -----------------------------------------------

/// Whether token `t` lies at byte `p`: it holds the byte, and all tokens listed
/// before it end at the byte or before. Tokens that do not overlap are listed in
/// order, so that this is the token that holds the byte.
pub open spec fn is_token_at(syntax: Seq<(Range<usize>, Style)>, p: int, t: int) -> bool {
    &&& 0 <= t < syntax.len()
    &&& syntax[t].0.start <= p < syntax[t].0.end
    &&& forall|u: int| 0 <= u < t ==> (#[trigger] syntax[u]).0.end <= p
}

/// Whether changed word `w` lies at byte `p`.
pub open spec fn is_word_at(intra: Seq<Range<usize>>, p: int, w: int) -> bool {
    &&& 0 <= w < intra.len()
    &&& intra[w].start <= p < intra[w].end
    &&& forall|u: int| 0 <= u < w ==> (#[trigger] intra[u]).end <= p
}

proof fn lemma_covered_is_word(ranges: Seq<Range<usize>>, p: int)
    ensures
        covered(ranges, p) <==> exists|w: int| #[trigger] is_word_at(ranges, p, w),
        forall|w: int| #[trigger] is_word_at(ranges, p, w) ==> first_open(ranges, p, 0) == w,
{
    lemma_first_open(ranges, p, 0);
    let at = first_open(ranges, p, 0);
    assert forall|w: int| #[trigger] is_word_at(ranges, p, w) implies at == w by {
        if w < at {
            assert(ranges[w].end <= p);
        } else if at < w {
            assert(ranges[at].end <= p);
        }
    }
    if covered(ranges, p) {
        assert(is_word_at(ranges, p, at));
    }
}

proof fn lemma_token_is_range(overlay: Overlay, p: int, t: int)
    ensures
        is_token_at(overlay.syntax, p, t) <==> is_word_at(overlay.token_ranges(), p, t),
{
    let ranges = overlay.token_ranges();
    if is_token_at(overlay.syntax, p, t) {
        assert forall|u: int| 0 <= u < t implies (#[trigger] ranges[u]).end <= p by {
            assert(ranges[u] == overlay.syntax[u].0);
        }
        assert(ranges[t] == overlay.syntax[t].0);
    }
    if is_word_at(ranges, p, t) {
        assert forall|u: int| 0 <= u < t implies (#[trigger] overlay.syntax[u]).0.end <= p by {
            assert(ranges[u] == overlay.syntax[u].0);
        }
        assert(ranges[t] == overlay.syntax[t].0);
    }
}

/// What is drawn at byte `p`. The byte is drawn in a piece exactly if it is selected
/// or lies in a token or in a changed word. The piece has the face of the token, and
/// the plain face where there is none. Its background is that of the selection if the
/// byte is selected, whatever else lies there; else that of changed words if it lies
/// in one; else that of the token.
pub proof fn each_byte_is_drawn_right(
    pieces: Seq<(Range<usize>, Style)>,
    overlay: Overlay,
    p: int,
)
    requires
        is_merged(pieces, overlay),
    ensures
        ({
            let selected = overlay.selection matches Some(range) && range.start <= p < range.end;
            let in_word = exists|w: int| #[trigger] is_word_at(overlay.intra, p, w);
            let in_token = exists|t: int| #[trigger] is_token_at(overlay.syntax, p, t);
            &&& selected || in_word || in_token <==> exists|i: int|
                0 <= i < pieces.len() && (#[trigger] pieces[i]).0.start <= p < pieces[i].0.end
            &&& forall|i: int|
                0 <= i < pieces.len() && (#[trigger] pieces[i]).0.start <= p < pieces[i].0.end
                    ==> {
                    &&& !in_token ==> pieces[i].1.face == 0
                    &&& forall|t: int| #[trigger]
                        is_token_at(overlay.syntax, p, t) ==> pieces[i].1.face
                            == overlay.syntax[t].1.face
                    &&& selected ==> pieces[i].1.background == Some(overlay.selection_bg)
                    &&& !selected && in_word ==> pieces[i].1.background == overlay.word_bg
                    &&& forall|t: int|
                        !selected && !in_word && #[trigger] is_token_at(overlay.syntax, p, t)
                            ==> pieces[i].1.background == overlay.syntax[t].1.background
                }
        }),
{
    let ranges = overlay.token_ranges();
    lemma_covered_is_word(overlay.intra, p);
    lemma_covered_is_word(ranges, p);
    assert forall|t: int| #[trigger] is_token_at(overlay.syntax, p, t) implies is_word_at(
        ranges,
        p,
        t,
    ) by {
        lemma_token_is_range(overlay, p, t);
    }
    assert forall|t: int| #[trigger] is_word_at(ranges, p, t) implies is_token_at(
        overlay.syntax,
        p,
        t,
    ) by {
        lemma_token_is_range(overlay, p, t);
    }
    assert forall|i: int|
        0 <= i < pieces.len() && (#[trigger] pieces[i]).0.start <= p < pieces[i].0.end implies within(
        pieces[i].0,
        p,
    ) by {}
    if overlay.style_at(p) is Some {
        let i = choose|i: int| 0 <= i < pieces.len() && #[trigger] within(pieces[i].0, p);
        assert(pieces[i].0.start <= p < pieces[i].0.end);
    }
}

/// The pieces are in order, do not overlap and are not empty, and no two that touch
/// could be one.
pub proof fn pieces_are_in_order(pieces: Seq<(Range<usize>, Style)>, overlay: Overlay, i: int)
    requires
        is_merged(pieces, overlay),
        0 <= i < pieces.len(),
    ensures
        pieces[i].0.start < pieces[i].0.end,
        forall|j: int| i < j < pieces.len() ==> pieces[i].0.end <= (#[trigger] pieces[j]).0.start,
        i + 1 < pieces.len() && pieces[i].0.end == pieces[i + 1].0.start ==> pieces[i].1
            != pieces[i + 1].1,
{
}

}
