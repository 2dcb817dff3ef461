use fx_engine::tools::lasso::{key_action, KeyAction, Kind};
use fx_engine::tools::move_tool::{drop_action, duplicates, nudge_total, DropAction};

/// The path after `key`, and what the key did.
fn key(kind: Kind, path: &mut Vec<(f64, f64)>, key: &str) -> KeyAction {
    let action = key_action(kind, path.len(), key);
    match action {
        KeyAction::Cancel | KeyAction::Close => path.clear(),
        KeyAction::DropLast => {
            path.pop();
        }
        KeyAction::Ignore => {}
    }
    action
}

#[test]
fn backspace_drops_the_last_point_and_escape_cancels() {
    let mut path = vec![(10.0, 10.0), (200.0, 10.0), (200.0, 200.0)];
    assert_eq!(key(Kind::Polygonal, &mut path, "Backspace"), KeyAction::DropLast);
    assert_eq!(path, [(10.0, 10.0), (200.0, 10.0)], "the third point is gone");
    // Enter with two points left cancels instead of making a sliver.
    assert_eq!(key(Kind::Polygonal, &mut path, "Enter"), KeyAction::Cancel);
    assert!(path.is_empty());
    // Escape cancels a path in progress, whatever its length.
    let mut path = vec![(10.0, 10.0), (200.0, 10.0), (200.0, 200.0)];
    assert_eq!(key(Kind::Polygonal, &mut path, "Escape"), KeyAction::Cancel);
    assert!(path.is_empty());
    // A key the tool does not use changes nothing.
    assert_eq!(key(Kind::Polygonal, &mut path, "ArrowLeft"), KeyAction::Ignore);
}

#[test]
fn the_freehand_lasso_ignores_the_polygon_keys() {
    let mut path = vec![(10.0, 10.0), (60.0, 60.0)];
    assert_eq!(key(Kind::Freehand, &mut path, "Backspace"), KeyAction::Ignore);
    assert_eq!(path.len(), 2, "the freehand path is untouched");
    assert_eq!(key(Kind::Freehand, &mut path, "Enter"), KeyAction::Ignore);
    // Escape still cancels it.
    assert_eq!(key(Kind::Freehand, &mut path, "Escape"), KeyAction::Cancel);
    assert!(path.is_empty());
}

#[test]
fn enter_closes_a_polygon_of_three_points() {
    assert_eq!(key_action(Kind::Polygonal, 3, "Enter"), KeyAction::Close);
    assert_eq!(key_action(Kind::Polygonal, 1, "Delete"), KeyAction::Cancel);
    assert_eq!(key_action(Kind::Polygonal, 0, "Escape"), KeyAction::Ignore, "no path, nothing to cancel");
}

#[test]
fn a_burst_of_nudges_sends_the_running_total() {
    let first = nudge_total(None, true, (1, 0));
    assert_eq!(first, (1, 0));
    let second = nudge_total(Some(first), true, (10, 0));
    assert_eq!(second, (11, 0));
    assert_eq!(nudge_total(Some(second), false, (0, -1)), (0, -1), "a late key starts a new total");
}

#[test]
fn a_move_drop_sends_its_step() {
    assert_eq!(drop_action((0, 0), false, true), DropAction::Nothing);
    assert_eq!(drop_action((3, -2), true, false), DropAction::MovePixels(3, -2));
    assert_eq!(drop_action((3, -2), false, false), DropAction::MoveLayers(3, -2));
    assert_eq!(drop_action((0, 5), false, true), DropAction::DuplicateThenMove(0, 5));
    assert!(duplicates(true, false));
    assert!(!duplicates(true, true));
    assert!(!duplicates(false, false));
}
