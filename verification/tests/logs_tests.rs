use celestial::ids::{contains_id, fresh_id};
use celestial::logs::logs_to_delete;

fn names(v: &[&str]) -> Vec<String> {
    v.iter().map(|s| s.to_string()).collect()
}

#[test]
fn oldest_logs_by_name_go_first() {
    let files = names(&["celestial.log.2024-03-01", "other.txt", "celestial.log.2024-01-01", "celestial.log.2024-02-01"]);
    assert_eq!(logs_to_delete(&files, "celestial.log", 1), vec![2, 3]);
    assert_eq!(logs_to_delete(&files, "celestial.log", 2), vec![2]);
}

#[test]
fn nothing_to_delete_within_the_rotation() {
    let files = names(&["a.log", "b.log", "c.txt"]);
    assert_eq!(logs_to_delete(&files, "a", 1), Vec::<usize>::new());
    assert_eq!(logs_to_delete(&files, "", 3), Vec::<usize>::new());
    assert_eq!(logs_to_delete(&Vec::new(), "x", 0), Vec::<usize>::new());
}

#[test]
fn rotation_zero_deletes_every_matching_log() {
    let files = names(&["b", "a", "ab", "c"]);
    assert_eq!(logs_to_delete(&files, "", 0), vec![1, 2, 0, 3]);
    assert_eq!(logs_to_delete(&files, "a", 0), vec![1, 2]);
}

#[test]
fn equal_names_keep_their_order() {
    let files = names(&["x", "x", "w"]);
    assert_eq!(logs_to_delete(&files, "", 1), vec![2, 0]);
}

#[test]
fn fresh_ids_are_unused() {
    let used = vec![0u128, 1, 2, 5];
    assert!(contains_id(&used, 5));
    assert!(!contains_id(&used, 3));
    for _ in 0..10 {
        let id = fresh_id(&used);
        assert!(!used.contains(&id));
    }
}
