//! Whether a node takes a turn of the wheel or passes it on to what encloses it.

use vstd::prelude::*;
use crate::single::Single;

verus! {

/// Whether a node takes a turn along one axis, or passes it on. It takes the turn unless it
/// does not scroll that way, there is none, or it is already at the end the turn is towards,
/// so that the wheel carries through to whatever encloses it.
pub fn takes_turn(scrolls: bool, position: Single, limit: Single, delta: Single) -> (answer: bool)
    ensures
        answer == (scrolls && (delta.below(Single(0)) || Single(0).below(delta) || delta.nan()) && !(
        if Single(0).below(delta) {
            limit.at_most(position)
        } else {
            position.at_most(Single(0))
        })),
{
    if !scrolls || !(delta.lt(Single(0)) || Single(0).lt(delta) || delta.is_nan()) {
        return false;
    }
    if Single(0).lt(delta) {
        !limit.le(position)
    } else {
        !position.le(Single(0))
    }
}

} // verus!
