use std::collections::HashMap;

use celestial::error::Error;
use celestial::pathdata::{CompFile, HighPassFilter, Path, PathCollection};
use celestial::pathlog::{Comparison, PathLog, DEFAULT_COLLECTION_NAME};

const TRIGGERS: [[[u32; 3]; 3]; 2] = [[[1, 1, 1], [0, 0, 0], [2, 2, 2]], [[3, 3, 3], [0, 0, 0], [2, 2, 2]]];

fn file_with(cols: &[(u128, &[(u128, u64)])]) -> CompFile {
    let mut paths = HashMap::new();
    let mut collections = Vec::new();
    for (cid, entries) in cols {
        let mut c = PathCollection::with_id(*cid, format!("c{}", cid));
        for (pid, time) in entries.iter() {
            paths.insert(*pid, Path::from_parts(*pid, vec![*time], vec![vec![]]));
            c.push(*pid);
        }
        collections.push(c);
    }
    CompFile::from_parts("0.5.1".to_string(), paths, TRIGGERS, collections)
}

fn loaded(cols: &[(u128, &[(u128, u64)])]) -> PathLog {
    let mut log = PathLog::init();
    log.load_comparison(file_with(cols)).unwrap();
    log
}

#[test]
fn init_is_empty_and_idle() {
    let log = PathLog::init();
    assert!(log.is_empty());
    assert!(log.collections().is_empty());
    assert!(log.compared_paths().paths().is_empty());
    assert!(log.ignored_paths().is_empty());
    assert_eq!(log.comparison_mode(), Comparison::All);
    assert_eq!(log.time(), 0);
    assert!(log.main_triggers[0].is_none() && log.main_triggers[1].is_none());
}

#[test]
fn load_compares_every_path_fastest_first() {
    let log = loaded(&[(1, &[(10, 300), (11, 100), (12, 200)])]);
    assert_eq!(log.compared_paths().paths(), &vec![11, 12, 10]);
    assert_eq!(log.collections()[0].paths(), &vec![10, 11, 12]);
    assert_eq!(log.mute_paths.get(&11), Some(&false));
    assert_eq!(log.solo_collections.get(&1), Some(&false));
    assert_eq!(log.selected_paths.get(&1), Some(&vec![]));
    assert_eq!(log.main_triggers[0].unwrap().position(), [1, 1, 1]);
    assert_eq!(log.main_triggers[1].unwrap().position(), [3, 3, 3]);
    assert!(!log.is_empty());
}

#[test]
fn load_refuses_unstored_paths() {
    let mut log = loaded(&[(1, &[(10, 300)])]);
    // a collection that lists a path the file does not store
    let mut c = PathCollection::with_id(2, "x".to_string());
    c.push(99);
    let bad = CompFile::from_parts("0.5.1".to_string(), HashMap::new(), TRIGGERS, vec![c]);
    assert!(matches!(log.load_comparison(bad), Err(Error::Binary { .. })));
    assert_eq!(log.collections().len(), 1);
    assert_eq!(log.collections()[0].paths(), &vec![10]);
}

#[test]
fn load_keeps_repeats() {
    // a path listed twice stays at both places, and is compared once
    let log = loaded(&[(3, &[(20, 1), (21, 2), (20, 1)]), (4, &[(21, 2), (22, 3)])]);
    assert_eq!(log.collections().len(), 2);
    assert_eq!(log.collections()[0].paths(), &vec![20, 21, 20]);
    assert_eq!(log.collections()[1].paths(), &vec![21, 22]);
    assert_eq!(log.compared_paths().paths(), &vec![20, 21, 22]);
    // a repeated collection id keeps both collections
    let log = loaded(&[(4, &[(21, 1)]), (4, &[(22, 2)]), (5, &[(23, 3)])]);
    assert_eq!(log.collections().len(), 3);
    assert_eq!(log.collections()[1].id(), 4);
    assert_eq!(log.collections()[1].paths(), &vec![22]);
    assert_eq!(log.compared_paths().paths(), &vec![21, 22, 23]);
}

#[test]
fn deletions_that_would_leave_dangling_entries_are_refused() {
    let log = loaded(&[(3, &[(20, 1), (21, 2), (20, 1)]), (4, &[(21, 2), (22, 3)])]);
    assert!(!log.can_delete_path(20));
    assert!(log.can_delete_path(21));
    assert!(log.can_delete_path(99));
    // collection 3 shares path 21 with collection 4
    assert!(!log.can_delete_collection(3));
    assert!(!log.can_delete_collection(4));
    assert!(log.can_delete_collection(99));
    let log = loaded(&[(4, &[(21, 1)]), (4, &[(22, 2)]), (5, &[(23, 3)])]);
    assert!(!log.can_delete_collection(4));
    assert!(log.can_delete_collection(5));
}

#[test]
fn delete_path_listed_in_two_collections() {
    let mut log = loaded(&[(3, &[(20, 1), (21, 2)]), (4, &[(21, 2), (22, 3)])]);
    log.delete_path(21);
    assert_eq!(log.collections()[0].paths(), &vec![20]);
    assert_eq!(log.collections()[1].paths(), &vec![22]);
    assert!(log.path(&21).is_none());
    assert_eq!(log.compared_paths().paths(), &vec![20, 22]);
}

#[test]
fn mute_hides_a_path() {
    let mut log = loaded(&[(1, &[(10, 300), (11, 100), (12, 200)])]);
    log.toggle_mute(11);
    assert_eq!(log.mute_paths.get(&11), Some(&true));
    assert_eq!(log.compared_paths().paths(), &vec![12, 10]);
    log.toggle_mute(11);
    assert_eq!(log.compared_paths().paths(), &vec![11, 12, 10]);
}

#[test]
fn solo_shows_only_that_path() {
    let mut log = loaded(&[(1, &[(10, 300), (11, 100), (12, 200)])]);
    log.toggle_solo(12);
    assert_eq!(log.compared_paths().paths(), &vec![12]);
    assert_eq!(log.solo_paths.get(&12), Some(&true));
    log.update_visible();
    assert_eq!(log.compared_paths().paths(), &vec![12]);
    assert_eq!(log.solo_paths.get(&12), Some(&true));
    log.toggle_solo(12);
    assert_eq!(log.compared_paths().paths(), &vec![11, 12, 10]);
}

#[test]
fn muted_collection_is_not_compared() {
    let mut log = loaded(&[(1, &[(10, 300)]), (2, &[(20, 50)])]);
    assert_eq!(log.compared_paths().paths(), &vec![20, 10]);
    log.toggle_mute(2);
    assert_eq!(log.compared_paths().paths(), &vec![10]);
    log.toggle_solo(2);
    log.toggle_mute(2);
    assert_eq!(log.compared_paths().paths(), &vec![20]);
}

#[test]
fn delete_path_removes_it_everywhere() {
    let mut log = loaded(&[(1, &[(10, 300), (11, 100)])]);
    log.delete_path(11);
    assert_eq!(log.collections()[0].paths(), &vec![10]);
    assert!(log.path(&11).is_none());
    assert!(log.mute_paths.get(&11).is_none());
    assert_eq!(log.compared_paths().paths(), &vec![10]);
    assert_eq!(log.path(&10).unwrap().time(), 300);
}

#[test]
fn delete_collection_removes_its_paths() {
    let mut log = loaded(&[(1, &[(10, 300)]), (2, &[(20, 50)])]);
    log.delete_collection(2);
    assert_eq!(log.collections().len(), 1);
    assert!(log.path(&20).is_none());
    assert!(log.mute_collections.get(&2).is_none());
    assert_eq!(log.compared_paths().paths(), &vec![10]);
    log.delete_collection(77);
    assert_eq!(log.collections().len(), 1);
}

#[test]
fn create_and_rename_collections() {
    let mut log = PathLog::init();
    log.create_collection();
    let first = log.collections()[0].id();
    assert_eq!(log.collections()[0].name, DEFAULT_COLLECTION_NAME);
    assert_eq!(log.active_collection, Some(first));
    assert_eq!(log.mute_collections.get(&first), Some(&false));
    log.create_collection();
    let second = log.collections()[1].id();
    assert_ne!(first, second);
    assert_eq!(log.active_collection, Some(first));
    log.rename_collection(second, "fast".to_string());
    assert_eq!(log.collections()[1].name, "fast");
    log.rename_collection(second, "".to_string());
    assert_eq!(log.collections()[1].name, "can't put nothing bro");
    assert!(log.get_collection(second).is_some());
    assert!(log.get_collection(12345).is_none());
}

#[test]
fn recording_goes_to_the_active_collection() {
    let mut log = PathLog::init();
    log.create_collection();
    let cid = log.collections()[0].id();
    let rec = log.recording_path.id();
    log.start();
    log.pause();
    log.unpause();
    let save = log.stop();
    assert!(save.is_none());
    assert_eq!(log.collections()[0].paths(), &vec![rec]);
    assert_eq!(log.latest_path, rec);
    assert!(log.path(&rec).is_some());
    assert_eq!(log.path(&rec).unwrap().segment_time(1).is_some(), true);
    assert_ne!(log.recording_path.id(), rec);
    assert_eq!(log.compared_paths().paths(), &vec![rec]);
    assert_eq!(log.active_collection, Some(cid));
}

#[test]
fn stop_without_recording_changes_nothing() {
    let mut log = PathLog::init();
    log.create_collection();
    assert!(log.stop().is_none());
    assert!(log.is_empty());
}

#[test]
fn gold_filter_turns_away_slower_paths() {
    let mut log = loaded(&[(1, &[(10, 0)])]);
    log.active_collection = Some(1);
    log.toggle_gold_filter(1);
    assert_eq!(log.filters.get(&1), Some(&HighPassFilter::Gold));
    let rec = log.recording_path.id();
    log.start();
    log.stop();
    assert_eq!(log.collections()[0].paths(), &vec![10]);
    assert!(log.path(&rec).is_some());
}

#[test]
fn path_filter_takes_faster_paths_before_the_filter_path() {
    let mut log = loaded(&[(1, &[(10, 0), (11, 1_000_000_000)])]);
    log.active_collection = Some(1);
    log.set_path_filter(1, 11);
    assert_eq!(log.filters.get(&1), Some(&HighPassFilter::Path { id: 11 }));
    let rec = log.recording_path.id();
    log.start();
    log.stop();
    let paths = log.collections()[0].paths().clone();
    assert_eq!(paths.len(), 3);
    assert_eq!(paths[2], 11);
    assert!(paths.contains(&rec));
}

#[test]
fn filters_toggle() {
    let mut log = PathLog::init();
    log.toggle_gold_filter(1);
    assert_eq!(log.filters.get(&1), Some(&HighPassFilter::Gold));
    log.toggle_gold_filter(1);
    assert!(log.filters.get(&1).is_none());
    log.set_path_filter(1, 5);
    assert_eq!(log.filters.get(&1), Some(&HighPassFilter::Path { id: 5 }));
    log.toggle_gold_filter(1);
    assert_eq!(log.filters.get(&1), Some(&HighPassFilter::Gold));
    log.set_path_filter(1, 5);
    log.set_path_filter(1, 6);
    assert_eq!(log.filters.get(&1), Some(&HighPassFilter::Path { id: 6 }));
    log.set_path_filter(1, 6);
    assert!(log.filters.get(&1).is_none());
}

#[test]
fn active_collection_toggles() {
    let mut log = PathLog::init();
    log.toggle_active(3);
    assert_eq!(log.active_collection, Some(3));
    log.toggle_active(4);
    assert_eq!(log.active_collection, Some(4));
    log.toggle_active(4);
    assert_eq!(log.active_collection, None);
}

#[test]
fn triggers_and_the_frame_update() {
    let mut log = PathLog::init();
    log.create_collection();
    log.create_trigger(0, [1, 1, 1], [0, 0, 0], [1, 1, 1]);
    log.create_trigger(1, [9, 9, 9], [0, 0, 0], [1, 1, 1]);
    log.create_trigger(2, [5, 5, 5], [0, 0, 0], [1, 1, 1]);
    assert_eq!(log.checkpoint_triggers.len(), 1);
    let rec = log.recording_path.id();
    let (u, s) = log.update([true, false], [1, 1, 1]);
    assert!(!u.paths && s.is_none());
    let (u, _) = log.update([false, false], [2, 2, 2]);
    assert!(!u.paths);
    log.update([false, false], [3, 3, 3]);
    let (u, s) = log.update([false, true], [9, 9, 9]);
    assert!(u.paths);
    assert!(s.is_none());
    assert_eq!(log.collections()[0].paths(), &vec![rec]);
    let p = log.path(&rec).unwrap();
    assert_eq!(p.segment_nodes(0), Some(vec![[2, 2, 2], [3, 3, 3]]));
}

#[test]
fn update_without_triggers_does_nothing() {
    let mut log = PathLog::init();
    let (u, s) = log.update([true, true], [0, 0, 0]);
    assert!(!u.paths && s.is_none());
    assert_eq!(log.time(), 0);
}

#[test]
fn clear_and_delete_triggers() {
    let mut log = PathLog::init();
    log.create_trigger(0, [1, 1, 1], [0, 0, 0], [1, 1, 1]);
    log.create_trigger(1, [2, 2, 2], [0, 0, 0], [1, 1, 1]);
    log.create_trigger(5, [3, 3, 3], [0, 0, 0], [1, 1, 1]);
    let cp = log.checkpoint_triggers[0].id();
    assert_eq!(log.delete_trigger(cp), [false, false]);
    assert!(log.checkpoint_triggers.is_empty());
    let start = log.main_triggers[0].unwrap().id();
    assert_eq!(log.delete_trigger(start), [true, false]);
    assert!(log.main_triggers[0].is_none() && log.main_triggers[1].is_some());
    log.clear_triggers();
    assert!(log.main_triggers[1].is_none());
    // with paths in a collection the triggers stay
    let mut full = loaded(&[(1, &[(10, 5)])]);
    full.clear_triggers();
    assert!(full.main_triggers[0].is_some());
}

#[test]
fn save_snapshots_the_comparison() {
    let mut log = PathLog::init();
    assert!(log.save_comparison("a.ccmp".to_string()).is_none());
    let mut log = loaded(&[(1, &[(10, 300), (11, 100)])]);
    let req = log.save_comparison("b.ccmp".to_string()).unwrap();
    assert_eq!(req.file_path, "b.ccmp");
    assert_eq!(req.data.version(), "0.5.1");
    assert_eq!(req.data.trigger_data(), TRIGGERS);
    assert_eq!(req.data.get_collections()[0].paths(), &vec![10, 11]);
    // loading the snapshot gives back the same paths and collections
    let mut other = PathLog::init();
    other.load_comparison(req.data).unwrap();
    assert_eq!(other.collections()[0].paths(), &vec![10, 11]);
    assert_eq!(other.collections()[0].id(), 1);
    assert_eq!(other.path(&10).unwrap().time(), 300);
    assert_eq!(other.main_triggers[1].unwrap().position(), [3, 3, 3]);
    assert_eq!(other.compared_paths().paths(), &vec![11, 10]);
}

#[test]
fn autosave_after_a_recording() {
    let mut log = loaded(&[(1, &[(10, 5)])]);
    log.active_collection = Some(1);
    log.set_autosave(true);
    assert!(log.save_comparison("auto.ccmp".to_string()).is_some());
    log.start();
    let req = log.stop().unwrap();
    assert_eq!(req.file_path, "auto.ccmp");
    assert_eq!(req.data.get_collections()[0].paths().len(), 2);
}

#[test]
fn direct_mode_keeps_recordings_out() {
    let mut log = PathLog::init();
    log.create_collection();
    log.set_direct_mode(true);
    let rec = log.recording_path.id();
    log.start();
    log.stop();
    assert!(log.is_empty());
    assert!(log.path(&rec).is_none());
    assert_eq!(log.latest_path, rec);
    assert_ne!(log.recording_path.id(), rec);
}

#[test]
fn reset_drops_the_recording() {
    let mut log = PathLog::init();
    log.start();
    log.recording_path.add_node([1, 2, 3]);
    log.reset();
    assert_eq!(log.recording_path.len(), 0);
    assert_eq!(log.time(), 0);
    log.toggle_pause();
    log.set_autoreset(false);
}

#[test]
fn selection_by_click() {
    let mut log = loaded(&[(1, &[(10, 1), (11, 2), (12, 3), (13, 4)])]);
    assert!(log.can_select(11, 1, 0));
    log.select_path(11, 1, 0);
    assert_eq!(log.selected_paths.get(&1), Some(&vec![11]));
    log.select_path(13, 1, 2);
    assert_eq!(log.selected_paths.get(&1), Some(&vec![11, 13]));
    log.select_path(11, 1, 2);
    assert_eq!(log.selected_paths.get(&1), Some(&vec![13]));
    // shift: from the last selected (13, excluded) back to 10 (included)
    log.select_path(10, 1, 1);
    assert_eq!(log.selected_paths.get(&1), Some(&vec![13, 10, 11, 12]));
    assert!(!log.can_select(99, 1, 0));
    assert!(!log.can_select(10, 7, 0));
}

fn times_of(log: &PathLog, k: usize) -> Vec<u64> {
    log.collections()[k].paths().iter().map(|id| log.path(id).unwrap().time()).collect()
}

#[test]
fn collections_stay_in_order_of_time() {
    let mut log = loaded(&[(1, &[(10, 0), (11, 5_000), (12, 1_000_000_000)])]);
    log.active_collection = Some(1);
    for _ in 0..3 {
        log.start();
        log.stop();
        let t = times_of(&log, 0);
        assert!(t.windows(2).all(|w| w[0] <= w[1]));
    }
    assert_eq!(log.collections()[0].paths().len(), 6);
    let compared: Vec<u64> = log.compared_paths().paths().iter().map(|id| log.path(id).unwrap().time()).collect();
    assert!(compared.windows(2).all(|w| w[0] <= w[1]));
    assert_eq!(compared.len(), 6);
}

#[test]
fn start_trigger_primes_without_autoreset() {
    let mut log = PathLog::init();
    log.create_collection();
    log.set_autoreset(false);
    log.create_trigger(0, [1, 1, 1], [0, 0, 0], [1, 1, 1]);
    log.create_trigger(1, [9, 9, 9], [0, 0, 0], [1, 1, 1]);
    let rec = log.recording_path.id();
    log.update([true, false], [1, 1, 1]);
    log.update([false, false], [2, 2, 2]);
    log.update([false, true], [9, 9, 9]);
    assert_eq!(log.collections()[0].paths(), &vec![rec]);
}

#[test]
fn running_time_adds_the_finished_segments() {
    let p = Path::from_parts(1, vec![100, 20], vec![vec![], vec![]]);
    assert_eq!(celestial::pathlog::running_time_of(5, &p), 125);
    assert_eq!(celestial::pathlog::running_time_of(u64::MAX, &p), u64::MAX);
    assert_eq!(celestial::pathlog::running_time_of(0, &Path::with_id(2)), 0);
}
