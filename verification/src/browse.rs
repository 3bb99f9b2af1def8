//! Stepping through the population while it is shown.

use vstd::prelude::*;

verus! {

/// The index shown next, from the shown index `current` among `len`
/// chromosomes: one further on when `right` was pressed and there is a next
/// one, then one back when `left` was pressed and there is a previous one.
pub open spec fn stepped_index(current: int, len: int, right: bool, left: bool) -> int {
    let a = if right && current < len - 1 { current + 1 } else { current };
    if left && a > 0 { a - 1 } else { a }
}

/// The index of the chromosome to show after a frame's key presses.
pub fn next_shown_index(current: usize, len: usize, right: bool, left: bool) -> (r: usize)
    requires
        right ==> len > 0,
    ensures
        r == stepped_index(current as int, len as int, right, left),
{
    let mut index = current;
    if right && current < len - 1 {
        index = index + 1;
    }
    if left && index > 0 {
        index = index - 1;
    }
    index
}

/// The arrow keys move the shown index by one within the population: Left
/// alone goes back one unless at the first, Right alone goes on one unless at
/// the last, no key keeps it, and an index inside the population stays inside.
pub proof fn law_arrow_keys_step_by_one(current: int, len: int, right: bool, left: bool)
    ensures
        current > 0 ==> stepped_index(current, len, false, true) == current - 1,
        current <= 0 ==> stepped_index(current, len, false, true) == current,
        current < len - 1 ==> stepped_index(current, len, true, false) == current + 1,
        current >= len - 1 ==> stepped_index(current, len, true, false) == current,
        stepped_index(current, len, false, false) == current,
        0 <= current < len ==> 0 <= stepped_index(current, len, right, left) < len,
{
}

} // verus!
