//! Jumping from header to header, and the size of the text.

use crate::rows::ints;
use vstd::prelude::*;

verus! {

/// The first of `targets`, in their order, that is after row `from`.
pub open spec fn next_target(targets: Seq<int>, from: int) -> Option<int>
    decreases targets.len(),
{
    if targets.len() == 0 {
        None
    } else if targets[0] > from {
        Some(targets[0])
    } else {
        next_target(targets.drop_first(), from)
    }
}

/// The last of `targets`, in their order, that is before row `from`.
pub open spec fn prev_target(targets: Seq<int>, from: int) -> Option<int>
    decreases targets.len(),
{
    if targets.len() == 0 {
        None
    } else if targets.last() < from {
        Some(targets.last())
    } else {
        prev_target(targets.drop_last(), from)
    }
}

/// The index of the last of `targets` that is not after `row`.
pub open spec fn last_not_after(targets: Seq<int>, row: int) -> Option<int>
    decreases targets.len(),
{
    if targets.len() == 0 {
        None
    } else if targets.last() <= row {
        Some(targets.len() - 1)
    } else {
        last_not_after(targets.drop_last(), row)
    }
}

/// An index as an integer.
pub open spec fn opt_int(ix: Option<usize>) -> Option<int> {
    match ix {
        Some(ix) => Some(ix as int),
        None => None,
    }
}

/// The first of `targets` that is after row `from`.
pub fn find_next(targets: &[usize], from: usize) -> (found: Option<usize>)
    ensures
        opt_int(found) == next_target(ints(targets@), from as int),
{
    let ghost all = ints(targets@);
    assert(all.skip(0) =~= all);
    for i in 0..targets.len()
        invariant
            all == ints(targets@),
            next_target(all, from as int) == next_target(all.skip(i as int), from as int),
    {
        proof {
            assert(all.skip(i as int)[0] == targets@[i as int]);
            assert(all.skip(i as int).drop_first() =~= all.skip(i + 1));
        }
        if targets[i] > from {
            return Some(targets[i]);
        }
    }
    None
}

/// The last of `targets` that is before row `from`.
pub fn find_prev(targets: &[usize], from: usize) -> (found: Option<usize>)
    ensures
        opt_int(found) == prev_target(ints(targets@), from as int),
{
    let ghost all = ints(targets@);
    let mut i: usize = targets.len();
    assert(all.take(i as int) =~= all);
    while i > 0
        invariant
            i <= targets.len(),
            all == ints(targets@),
            prev_target(all, from as int) == prev_target(all.take(i as int), from as int),
        decreases i,
    {
        proof {
            assert(all.take(i as int).last() == targets@[i - 1]);
            assert(all.take(i as int).drop_last() =~= all.take(i - 1));
        }
        i -= 1;
        if targets[i] < from {
            return Some(targets[i]);
        }
    }
    None
}

/// The index of the last of `targets` that is not after `row`.
pub fn find_last_not_after(targets: &[usize], row: usize) -> (found: Option<usize>)
    ensures
        opt_int(found) == last_not_after(ints(targets@), row as int),
        found matches Some(ix) ==> ix < targets.len(),
{
    let ghost all = ints(targets@);
    let mut i: usize = targets.len();
    assert(all.take(i as int) =~= all);
    while i > 0
        invariant
            i <= targets.len(),
            all == ints(targets@),
            last_not_after(all, row as int) == last_not_after(all.take(i as int), row as int),
        decreases i,
    {
        proof {
            assert(all.take(i as int).last() == targets@[i - 1]);
            assert(all.take(i as int).drop_last() =~= all.take(i - 1));
        }
        i -= 1;
        if targets[i] <= row {
            return Some(i);
        }
    }
    None
}

// --- The size of the text --------------------------------------------------

/// The size of the text at first, and after a reset.
pub const DEFAULT_TEXT_SIZE: u32 = 13;

/// The smallest size of the text.
pub const MIN_TEXT_SIZE: u32 = 7;

/// The largest size of the text.
pub const MAX_TEXT_SIZE: u32 = 28;

/// The size of the text after a change by `delta`, or after a reset.
pub open spec fn zoomed(size: int, delta: int, reset: bool) -> int {
    if reset {
        DEFAULT_TEXT_SIZE as int
    } else if size + delta < MIN_TEXT_SIZE {
        MIN_TEXT_SIZE as int
    } else if size + delta > MAX_TEXT_SIZE {
        MAX_TEXT_SIZE as int
    } else {
        size + delta
    }
}

/// The new size of the text; `None` if it stays as it is.
pub fn zoom(size: u32, delta: i32, reset: bool) -> (next: Option<u32>)
    ensures
        match next {
            Some(next) => next == zoomed(size as int, delta as int, reset) && next != size,
            None => zoomed(size as int, delta as int, reset) == size,
        },
{
    let next: u32 = if reset {
        DEFAULT_TEXT_SIZE
    } else {
        let wanted: i64 = size as i64 + delta as i64;
        if wanted < MIN_TEXT_SIZE as i64 {
            MIN_TEXT_SIZE
        } else if wanted > MAX_TEXT_SIZE as i64 {
            MAX_TEXT_SIZE
        } else {
            wanted as u32
        }
    };
    if next == size {
        None
    } else {
        Some(next)
    }
}

// --- Laws ------------------------------------------------------------------

/// Whether targets are in ascending order, as headers are.
pub open spec fn ascending(targets: Seq<int>) -> bool {
    forall|i: int, j: int| 0 <= i < j < targets.len() ==> targets[i] < targets[j]
}

/// Among ascending targets, the next one is the nearest after the row.
pub proof fn next_target_is_the_nearest(targets: Seq<int>, from: int)
    requires
        ascending(targets),
    ensures
        match next_target(targets, from) {
            Some(row) => targets.contains(row) && from < row && forall|i: int|
                0 <= i < targets.len() && from < #[trigger] targets[i] ==> row <= targets[i],
            None => forall|i: int| 0 <= i < targets.len() ==> #[trigger] targets[i] <= from,
        },
    decreases targets.len(),
{
    if targets.len() > 0 {
        let rest = targets.drop_first();
        if targets[0] > from {
            assert(targets.contains(targets[0]));
        } else {
            assert(ascending(rest));
            next_target_is_the_nearest(rest, from);
            assert forall|i: int| 0 < i < targets.len() implies #[trigger] targets[i] == rest[i
                - 1] by {}
            if let Some(row) = next_target(rest, from) {
                let i = choose|i: int| 0 <= i < rest.len() && rest[i] == row;
                assert(targets[i + 1] == row);
            }
        }
    }
}

/// Among ascending targets, the previous one is the nearest before the row.
pub proof fn prev_target_is_the_nearest(targets: Seq<int>, from: int)
    requires
        ascending(targets),
    ensures
        match prev_target(targets, from) {
            Some(row) => targets.contains(row) && row < from && forall|i: int|
                0 <= i < targets.len() && #[trigger] targets[i] < from ==> targets[i] <= row,
            None => forall|i: int| 0 <= i < targets.len() ==> from <= #[trigger] targets[i],
        },
    decreases targets.len(),
{
    if targets.len() > 0 {
        let rest = targets.drop_last();
        if targets.last() < from {
            assert(targets.contains(targets.last()));
        } else {
            assert(ascending(rest));
            prev_target_is_the_nearest(rest, from);
            assert forall|i: int| 0 <= i < targets.len() - 1 implies #[trigger] targets[i]
                == rest[i] by {}
            if let Some(row) = prev_target(rest, from) {
                let i = choose|i: int| 0 <= i < rest.len() && rest[i] == row;
                assert(targets[i] == row);
            }
        }
    }
}

/// From one header, the next jump goes to the one after it and the previous jump
/// to the one before it. So a jump forth from a header and a jump back lead to the
/// same header.
pub proof fn jumps_go_from_header_to_header(targets: Seq<int>, k: int)
    requires
        ascending(targets),
        0 <= k < targets.len(),
    ensures
        next_target(targets, targets[k]) == if k + 1 < targets.len() {
            Some(targets[k + 1])
        } else {
            None
        },
        prev_target(targets, targets[k]) == if k > 0 {
            Some(targets[k - 1])
        } else {
            None
        },
        next_target(targets, targets[k]) matches Some(row) ==> prev_target(targets, row) == Some(
            targets[k],
        ),
        prev_target(targets, targets[k]) matches Some(row) ==> next_target(targets, row) == Some(
            targets[k],
        ),
{
    lemma_next_is(targets, k);
    lemma_prev_is(targets, k);
    if k + 1 < targets.len() {
        lemma_prev_is(targets, k + 1);
    }
    if k > 0 {
        lemma_next_is(targets, k - 1);
    }
}

proof fn lemma_next_is(targets: Seq<int>, k: int)
    requires
        ascending(targets),
        0 <= k < targets.len(),
    ensures
        next_target(targets, targets[k]) == if k + 1 < targets.len() {
            Some(targets[k + 1])
        } else {
            None
        },
{
    next_target_is_the_nearest(targets, targets[k]);
    match next_target(targets, targets[k]) {
        Some(row) => {
            let i = choose|i: int| 0 <= i < targets.len() && targets[i] == row;
            assert(k < i);
            assert(targets[k] < targets[k + 1]);
            if k + 1 < i {
                assert(targets[k + 1] < targets[i]);
            }
        },
        None => {
            if k + 1 < targets.len() {
                assert(targets[k] < targets[k + 1]);
            }
        },
    }
}

proof fn lemma_prev_is(targets: Seq<int>, k: int)
    requires
        ascending(targets),
        0 <= k < targets.len(),
    ensures
        prev_target(targets, targets[k]) == if k > 0 {
            Some(targets[k - 1])
        } else {
            None
        },
{
    prev_target_is_the_nearest(targets, targets[k]);
    match prev_target(targets, targets[k]) {
        Some(row) => {
            let i = choose|i: int| 0 <= i < targets.len() && targets[i] == row;
            assert(i < k);
            assert(targets[k - 1] < targets[k]);
            if i < k - 1 {
                assert(targets[i] < targets[k - 1]);
            }
        },
        None => {
            if k > 0 {
                assert(targets[k - 1] < targets[k]);
            }
        },
    }
}

/// Among ascending targets, `last_not_after` finds the target that the row belongs
/// to: all up to it are not after the row, all others are.
pub proof fn last_not_after_splits(targets: Seq<int>, row: int)
    requires
        ascending(targets),
    ensures
        match last_not_after(targets, row) {
            Some(at) => 0 <= at < targets.len() && forall|i: int|
                0 <= i < targets.len() ==> (#[trigger] targets[i] <= row <==> i <= at),
            None => forall|i: int| 0 <= i < targets.len() ==> row < #[trigger] targets[i],
        },
    decreases targets.len(),
{
    if targets.len() > 0 {
        let rest = targets.drop_last();
        if targets.last() > row {
            assert(ascending(rest));
            last_not_after_splits(rest, row);
            assert forall|i: int| 0 <= i < targets.len() - 1 implies #[trigger] targets[i]
                == rest[i] by {}
        }
    }
}

/// The text never gets smaller or larger than the limits.
pub proof fn zoom_keeps_the_limits(size: int, delta: int, reset: bool)
    ensures
        MIN_TEXT_SIZE <= zoomed(size, delta, reset) <= MAX_TEXT_SIZE,
{
}

/// Within the limits, a step back undoes a step.
pub proof fn zooming_back_undoes_a_step(size: int, delta: int)
    requires
        MIN_TEXT_SIZE <= size <= MAX_TEXT_SIZE,
        MIN_TEXT_SIZE <= size + delta <= MAX_TEXT_SIZE,
    ensures
        zoomed(zoomed(size, delta, false), -delta, false) == size,
{
}

/// The next target is the first in the list that is after the row.
pub proof fn next_target_is_the_first_after(targets: Seq<int>, from: int)
    ensures
        match next_target(targets, from) {
            Some(row) => exists|i: int|
                0 <= i < targets.len() && #[trigger] targets[i] == row && row > from && forall|j: int|
                    0 <= j < i ==> #[trigger] targets[j] <= from,
            None => forall|i: int| 0 <= i < targets.len() ==> #[trigger] targets[i] <= from,
        },
    decreases targets.len(),
{
    if targets.len() > 0 {
        let rest = targets.drop_first();
        if targets[0] <= from {
            next_target_is_the_first_after(rest, from);
            assert forall|i: int| 0 < i < targets.len() implies #[trigger] targets[i] == rest[i
                - 1] by {}
            if let Some(row) = next_target(rest, from) {
                let i = choose|i: int|
                    0 <= i < rest.len() && #[trigger] rest[i] == row && row > from && forall|j: int|
                        0 <= j < i ==> #[trigger] rest[j] <= from;
                assert(targets[i + 1] == row);
            }
        } else {
            assert(targets[0] == next_target(targets, from)->0);
        }
    }
}

/// The previous target is the last in the list that is before the row.
pub proof fn prev_target_is_the_last_before(targets: Seq<int>, from: int)
    ensures
        match prev_target(targets, from) {
            Some(row) => exists|i: int|
                0 <= i < targets.len() && #[trigger] targets[i] == row && row < from && forall|j: int|
                    i < j < targets.len() ==> #[trigger] targets[j] >= from,
            None => forall|i: int| 0 <= i < targets.len() ==> #[trigger] targets[i] >= from,
        },
    decreases targets.len(),
{
    if targets.len() > 0 {
        let rest = targets.drop_last();
        let last = targets.len() - 1;
        if targets[last] >= from {
            prev_target_is_the_last_before(rest, from);
            assert forall|i: int| 0 <= i < last implies #[trigger] targets[i] == rest[i] by {}
            if let Some(row) = prev_target(rest, from) {
                let i = choose|i: int|
                    0 <= i < rest.len() && #[trigger] rest[i] == row && row < from && forall|j: int|
                        i < j < rest.len() ==> #[trigger] rest[j] >= from;
                assert(targets[i] == row);
            }
        } else {
            assert(targets[last] == prev_target(targets, from)->0);
        }
    }
}

/// The target that a row belongs to is the last in the list that is not after it.
pub proof fn last_not_after_is_the_last(targets: Seq<int>, row: int)
    ensures
        match last_not_after(targets, row) {
            Some(at) => 0 <= at < targets.len() && targets[at] <= row && forall|j: int|
                at < j < targets.len() ==> #[trigger] targets[j] > row,
            None => forall|i: int| 0 <= i < targets.len() ==> #[trigger] targets[i] > row,
        },
    decreases targets.len(),
{
    if targets.len() > 0 {
        let rest = targets.drop_last();
        let last = targets.len() - 1;
        if targets[last] > row {
            last_not_after_is_the_last(rest, row);
            assert forall|i: int| 0 <= i < last implies #[trigger] targets[i] == rest[i] by {}
        }
    }
}

/// A step changes the size of the text by just that step, as far as the limits of 7
/// and 28 allow. A reset makes it 13.
pub proof fn zoom_steps_within_the_limits(size: int, delta: int)
    ensures
        zoomed(size, delta, true) == 13,
        7 <= size + delta <= 28 ==> zoomed(size, delta, false) == size + delta,
        size + delta > 28 ==> zoomed(size, delta, false) == 28,
        size + delta < 7 ==> zoomed(size, delta, false) == 7,
{
}

/// An index as an integer is the same number.
pub proof fn an_index_is_its_number(ix: Option<usize>)
    ensures
        match (opt_int(ix), ix) {
            (Some(n), Some(i)) => n == i,
            (None, None) => true,
            _ => false,
        },
{
}

}
