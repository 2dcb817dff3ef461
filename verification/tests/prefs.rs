use fx_engine::prefs::{add_recent, add_recent_marked, RECENT_MAX};

fn strings(list: &[&str]) -> Vec<String> {
    list.iter().map(|s| s.to_string()).collect()
}

#[test]
fn the_opened_path_comes_first_once() {
    let list = strings(&["b", "a", "c"]);
    assert_eq!(add_recent(&list, "a"), strings(&["a", "b", "c"]));
}

#[test]
fn the_same_file_spelled_otherwise_leaves_the_list() {
    let list = strings(&["x/a/b/", "y", "x//a/b", "x/a/b"]);
    assert_eq!(add_recent(&list, "x/a/b"), strings(&["x/a/b", "y"]));
}

#[test]
fn the_recent_list_keeps_ten_entries() {
    let list: Vec<String> = (0..RECENT_MAX).map(|k| format!("f{k}")).collect();
    let recent = add_recent(&list, "new");
    assert_eq!(recent.len(), RECENT_MAX);
    assert_eq!(recent[0], "new");
    assert_eq!(recent[RECENT_MAX - 1], format!("f{}", RECENT_MAX - 2));
}

#[test]
fn marked_entries_are_dropped() {
    let list = strings(&["a", "b", "c"]);
    assert_eq!(add_recent_marked(&list, "z", &vec![false, true, false]), strings(&["z", "a", "c"]));
}
