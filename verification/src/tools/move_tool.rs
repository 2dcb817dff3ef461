//! The Move tool's decisions on plain values: what a drag duplicates, what
//! its drop sends, and the arrow-key nudges.
use vstd::prelude::*;

verus! {

/// The move a nudge sends: the engine merges a repeat of the same edit by
/// undoing the last one and applying the new command instead, so a key
/// within the burst of the previous nudges sends the running total, and
/// any other key starts a new total.
pub open spec fn spec_nudge_total(previous: Option<(i32, i32)>, in_burst: bool, step: (i32, i32)) -> (int, int) {
    match previous {
        Some((x, y)) if in_burst => (x + step.0, y + step.1),
        _ => (step.0 as int, step.1 as int),
    }
}

/// The total a nudge by `step` sends, after the `previous` total (`None`
/// before the first) and whether it comes within that total's burst.
pub fn nudge_total(previous: Option<(i32, i32)>, in_burst: bool, step: (i32, i32)) -> (total: (i32, i32))
    requires
        match previous {
            Some((x, y)) => in_burst ==> i32::MIN <= x + step.0 <= i32::MAX && i32::MIN <= y + step.1 <= i32::MAX,
            None => true,
        },
    ensures
        (total.0 as int, total.1 as int) == spec_nudge_total(previous, in_burst, step),
{
    match previous {
        Some((x, y)) if in_burst => (x + step.0, y + step.1),
        _ => step,
    }
}

/// What dropping a Move drag sends.
#[derive(Clone, Copy, Debug, PartialEq, Eq, Structural)]
pub enum DropAction {
    /// The pointer came back where it started: nothing moves.
    Nothing,
    /// Move the selected pixels of the active layer by the delta.
    MovePixels(i32, i32),
    /// Move the selected layers by the delta.
    MoveLayers(i32, i32),
    /// Duplicate the selected layers, then move the copies by the delta
    /// (two history steps).
    DuplicateThenMove(i32, i32),
}

/// Whether a drag duplicates the layers it moves: Alt held at the press,
/// and no pixel selection (selected pixels are moved, not copied).
pub fn duplicates(alt: bool, pixels: bool) -> (dup: bool)
    ensures
        dup == (alt && !pixels),
{
    alt && !pixels
}

/// What dropping a drag that moved by `delta` sends, for a drag of the
/// selected pixels (`pixels`) or of the selected layers, duplicated first
/// or not.
pub open spec fn spec_drop_action(delta: (i32, i32), pixels: bool, duplicate: bool) -> DropAction {
    if delta.0 == 0 && delta.1 == 0 {
        DropAction::Nothing
    } else if pixels {
        DropAction::MovePixels(delta.0, delta.1)
    } else if duplicate {
        DropAction::DuplicateThenMove(delta.0, delta.1)
    } else {
        DropAction::MoveLayers(delta.0, delta.1)
    }
}

/// What dropping a drag sends (see [`spec_drop_action`]).
pub fn drop_action(delta: (i32, i32), pixels: bool, duplicate: bool) -> (action: DropAction)
    ensures
        action == spec_drop_action(delta, pixels, duplicate),
{
    if delta.0 == 0 && delta.1 == 0 {
        DropAction::Nothing
    } else if pixels {
        DropAction::MovePixels(delta.0, delta.1)
    } else if duplicate {
        DropAction::DuplicateThenMove(delta.0, delta.1)
    } else {
        DropAction::MoveLayers(delta.0, delta.1)
    }
}

} // verus!
