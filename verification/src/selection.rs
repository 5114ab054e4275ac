//! Which entry of the shortlist is selected, and how the selection moves.

use vstd::prelude::*;

verus! {

/// The selection after a step down, a step up, both or none, on a shortlist of
/// `count` entries: a step down goes to the next entry unless the selection is
/// on the last one, a step up, taken after it, goes to the entry before unless
/// the selection is on the first one.
pub open spec fn moved(selected: usize, count: usize, down: bool, up: bool) -> usize {
    let lowered = if down && selected + 1 < count {
        (selected + 1) as usize
    } else {
        selected
    };
    if up && lowered > 0 {
        (lowered - 1) as usize
    } else {
        lowered
    }
}

/// A selection on the shortlist stays on it, and moves by one entry at most.
pub proof fn law_selection_stays_on_the_shortlist(
    selected: usize,
    count: usize,
    down: bool,
    up: bool,
)
    requires
        selected < count,
    ensures
        moved(selected, count, down, up) < count,
        selected - 1 <= moved(selected, count, down, up) <= selected + 1,
{
}

/// Moves the selection by the steps asked for.
pub fn scroll(selected: usize, count: usize, down: bool, up: bool) -> (next: usize)
    ensures
        next == moved(selected, count, down, up),
{
    let mut next = selected;
    if down && selected < count && selected + 1 < count {
        next = selected + 1;
    }
    if up && next > 0 {
        next = next - 1;
    }
    next
}

} // verus!
