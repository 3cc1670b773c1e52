use std::collections::HashMap;

use celestial::events::{can_handle, process_event, CelEvent, TeleportIndex};
use celestial::pathdata::{CompFile, HighPassFilter, Path, PathCollection};
use celestial::pathlog::PathLog;
use celestial::rendering::RenderUpdates;

fn loaded(entries: &[(u128, u64)]) -> PathLog {
    let mut paths = HashMap::new();
    let mut c = PathCollection::with_id(1, "c".to_string());
    for (pid, time) in entries {
        paths.insert(*pid, Path::from_parts(*pid, vec![*time], vec![vec![]]));
        c.push(*pid);
    }
    let data = CompFile::from_parts("0.5.1".to_string(), paths, [[[0; 3]; 3]; 2], vec![c]);
    let mut log = PathLog::init();
    log.load_comparison(data).unwrap();
    log
}

fn asks_for_redraw(later: &[CelEvent]) -> bool {
    later.len() == 1 && matches!(later[0], CelEvent::RenderUpdate { update } if update == RenderUpdates::paths())
}

#[test]
fn delete_path_event_redraws() {
    let mut log = loaded(&[(10, 5), (11, 6)]);
    let mut render = RenderUpdates::new();
    let r = process_event(&mut log, &mut render, CelEvent::DeletePath { path_id: 10 });
    assert!(asks_for_redraw(&r.later));
    assert!(r.queued.is_empty() && r.save.is_none() && !r.passed_on);
    assert_eq!(log.collections()[0].paths(), &vec![11]);
    assert_eq!(render, RenderUpdates::new());
}

#[test]
fn deletions_are_checked_before_handling() {
    // path 10 is listed twice in the one collection
    let log = loaded(&[(10, 5), (11, 6), (10, 5)]);
    assert!(!can_handle(&log, &CelEvent::DeletePath { path_id: 10 }));
    assert!(can_handle(&log, &CelEvent::DeletePath { path_id: 11 }));
    assert!(can_handle(&log, &CelEvent::DeleteCollection { id: 1 }));
    assert!(can_handle(&log, &CelEvent::DeleteCollection { id: 7 }));
}

#[test]
fn spawn_trigger_only_while_empty() {
    let mut log = PathLog::init();
    let mut render = RenderUpdates::new();
    let r = process_event(
        &mut log,
        &mut render,
        CelEvent::SpawnTrigger { index: 1, center: [1, 2, 3], rotation: [0, 0, 0], size: [1, 1, 1] },
    );
    assert_eq!(log.main_triggers[1].unwrap().position(), [1, 2, 3]);
    assert_eq!(r.queued.len(), 1);
    assert!(matches!(r.queued[0], CelEvent::SpawnTeleport { index: TeleportIndex::Main { i: 1 } }));
    let mut full = loaded(&[(10, 5)]);
    let r = process_event(
        &mut full,
        &mut render,
        CelEvent::SpawnTrigger { index: 1, center: [7, 7, 7], rotation: [0, 0, 0], size: [1, 1, 1] },
    );
    assert!(r.queued.is_empty());
    assert_eq!(full.main_triggers[1].unwrap().position(), [0, 0, 0]);
}

#[test]
fn delete_trigger_event_drops_teleports() {
    let mut log = PathLog::init();
    let mut render = RenderUpdates::new();
    log.create_trigger(0, [1, 1, 1], [0, 0, 0], [1, 1, 1]);
    let id = log.main_triggers[0].unwrap().id();
    let r = process_event(&mut log, &mut render, CelEvent::DeleteTrigger { id });
    assert_eq!(r.dropped_teleports, [true, false]);
    assert!(log.main_triggers[0].is_none());
    let r = process_event(&mut log, &mut render, CelEvent::ClearTriggers);
    assert_eq!(r.dropped_teleports, [true, true]);
}

#[test]
fn stop_event_stores_and_redraws() {
    let mut log = PathLog::init();
    let mut render = RenderUpdates::new();
    process_event(&mut log, &mut render, CelEvent::CreateCollection);
    let rec = log.recording_path.id();
    process_event(&mut log, &mut render, CelEvent::StartRecording);
    let r = process_event(&mut log, &mut render, CelEvent::StopRecording);
    assert!(asks_for_redraw(&r.later));
    assert!(r.save.is_none());
    assert_eq!(log.collections()[0].paths(), &vec![rec]);
    assert_eq!(log.mute_paths.get(&rec), Some(&false));
}

#[test]
fn filter_events() {
    let mut log = PathLog::init();
    let mut render = RenderUpdates::new();
    process_event(&mut log, &mut render, CelEvent::ToggleGoldFilter { collection_id: 3 });
    assert_eq!(log.filters.get(&3), Some(&HighPassFilter::Gold));
    process_event(&mut log, &mut render, CelEvent::SetPathFilter { collection_id: 3, path_id: 8 });
    assert_eq!(log.filters.get(&3), Some(&HighPassFilter::Path { id: 8 }));
    process_event(&mut log, &mut render, CelEvent::SetPathFilter { collection_id: 3, path_id: 8 });
    assert!(log.filters.get(&3).is_none());
}

#[test]
fn mode_events() {
    let mut log = PathLog::init();
    let mut render = RenderUpdates::new();
    let r = process_event(&mut log, &mut render, CelEvent::ChangeAutosave { new: true });
    assert!(r.later.is_empty() && r.queued.is_empty());
    process_event(&mut log, &mut render, CelEvent::ChangeDirectMode { new: true });
    process_event(&mut log, &mut render, CelEvent::ChangeAutoReset { new: false });
    process_event(&mut log, &mut render, CelEvent::CreateCollection);
    let id = log.collections()[0].id();
    process_event(&mut log, &mut render, CelEvent::ToggleActive { id });
    assert_eq!(log.active_collection, None);
    process_event(&mut log, &mut render, CelEvent::RenameCollection { id, new_name: "x".to_string() });
    assert_eq!(log.collections()[0].name, "x");
    let r = process_event(&mut log, &mut render, CelEvent::DeleteCollection { id });
    assert!(asks_for_redraw(&r.later));
    assert!(log.collections().is_empty());
}

#[test]
fn mute_solo_and_select_events() {
    let mut log = loaded(&[(10, 5), (11, 6)]);
    let mut render = RenderUpdates::new();
    let r = process_event(&mut log, &mut render, CelEvent::ToggleMute { id: 10 });
    assert!(asks_for_redraw(&r.later));
    assert_eq!(log.compared_paths().paths(), &vec![11]);
    assert_eq!(log.mute_paths.get(&10), Some(&true));
    process_event(&mut log, &mut render, CelEvent::ToggleSolo { id: 1 });
    assert_eq!(log.solo_collections.get(&1), Some(&true));
    process_event(&mut log, &mut render, CelEvent::ToggleSolo { id: 11 });
    assert_eq!(log.solo_paths.get(&11), Some(&true));
    assert_eq!(log.compared_paths().paths(), &vec![11]);
    let click = CelEvent::SelectPath { path_id: 11, collection_id: 1, modifier: 0 };
    assert!(can_handle(&log, &click));
    let r = process_event(&mut log, &mut render, click);
    assert!(asks_for_redraw(&r.later));
    assert_eq!(log.selected_paths.get(&1), Some(&vec![11]));
    assert!(!can_handle(&log, &CelEvent::SelectPath { path_id: 99, collection_id: 1, modifier: 0 }));
}

#[test]
fn render_update_event_merges_and_recomputes() {
    let mut log = loaded(&[(10, 5)]);
    let mut render = RenderUpdates::triggers();
    log.mute_paths.insert(10, true);
    let r = process_event(&mut log, &mut render, CelEvent::RenderUpdate { update: RenderUpdates::paths() });
    assert!(r.later.is_empty());
    assert_eq!(render, RenderUpdates { paths: true, triggers: true, teleports: false, shapes: false });
    assert!(log.compared_paths().paths().is_empty());
}

#[test]
fn io_events_are_passed_on() {
    let mut log = PathLog::init();
    let mut render = RenderUpdates::new();
    for e in [
        CelEvent::SaveComparison,
        CelEvent::LoadComparison,
        CelEvent::SaveConfig,
        CelEvent::LoadConfig,
        CelEvent::Teleport { index: TeleportIndex::Extra { i: 3 } },
        CelEvent::SpawnTeleport { index: TeleportIndex::Main { i: 0 } },
    ] {
        let r = process_event(&mut log, &mut render, e);
        assert!(r.passed_on);
        assert!(r.later.is_empty() && r.queued.is_empty());
    }
    let r = process_event(&mut log, &mut render, CelEvent::ResetRecording);
    assert!(!r.passed_on);
}
