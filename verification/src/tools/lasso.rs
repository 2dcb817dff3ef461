//! The lasso tools' kinds, and what a key does to a path in progress.
use vstd::prelude::*;

use crate::strings::str_eq;

verus! {

/// Which lasso a tool id is.
#[derive(Clone, Copy, Debug, PartialEq, Eq, Structural)]
pub enum Kind {
    /// Points follow the pointer while the button is down.
    Freehand,
    /// One point per click, closed on Enter, a double-click or the first point.
    Polygonal,
}

/// What a key does to the lasso's path.
#[derive(Clone, Copy, Debug, PartialEq, Eq, Structural)]
pub enum KeyAction {
    /// Nothing: the key is not the tool's, or no path is in progress.
    Ignore,
    /// Drop the path without selecting anything.
    Cancel,
    /// Close the path: it becomes the selection.
    Close,
    /// Drop the last point; the rest of the path stays.
    DropLast,
}

/// What `key` does to a path of `points` points: Escape cancels any path;
/// on the polygonal lasso Enter closes a path of three points or more (a
/// shorter one is cancelled rather than made a sliver), and Backspace or
/// Delete drops the last point (dropping the only one cancels). Anything
/// else, and any key without a path, does nothing.
pub open spec fn spec_key_action(kind: Kind, points: nat, key: Seq<char>) -> KeyAction {
    if points == 0 {
        KeyAction::Ignore
    } else if key == "Escape"@ {
        KeyAction::Cancel
    } else if kind == Kind::Polygonal && key == "Enter"@ {
        if points >= 3 {
            KeyAction::Close
        } else {
            KeyAction::Cancel
        }
    } else if kind == Kind::Polygonal && (key == "Backspace"@ || key == "Delete"@) {
        if points >= 2 {
            KeyAction::DropLast
        } else {
            KeyAction::Cancel
        }
    } else {
        KeyAction::Ignore
    }
}

/// What `key` does to a path of `points` points (see [`spec_key_action`]).
pub fn key_action(kind: Kind, points: usize, key: &str) -> (action: KeyAction)
    ensures
        action == spec_key_action(kind, points as nat, key@),
{
    if points == 0 {
        KeyAction::Ignore
    } else if str_eq(key, "Escape") {
        KeyAction::Cancel
    } else if kind == Kind::Polygonal && str_eq(key, "Enter") {
        if points >= 3 {
            KeyAction::Close
        } else {
            KeyAction::Cancel
        }
    } else if kind == Kind::Polygonal && (str_eq(key, "Backspace") || str_eq(key, "Delete")) {
        if points >= 2 {
            KeyAction::DropLast
        } else {
            KeyAction::Cancel
        }
    } else {
        KeyAction::Ignore
    }
}

/// A key never leaves a path that could not be closed later: closing takes
/// three points or more, dropping a point leaves at least one, and the
/// freehand lasso only ever cancels.
pub proof fn law_keys_keep_paths_closable(kind: Kind, points: nat, key: Seq<char>)
    ensures
        spec_key_action(kind, points, key) == KeyAction::Close ==> points >= 3,
        spec_key_action(kind, points, key) == KeyAction::DropLast ==> points - 1 >= 1,
        kind == Kind::Freehand ==> (spec_key_action(kind, points, key) == KeyAction::Ignore || spec_key_action(
            kind,
            points,
            key,
        ) == KeyAction::Cancel),
{
}

} // verus!
