use vstd::prelude::*;

use crate::pathdata::{BoxCollider, Node, PathCollectionView};
use crate::pathlog::{
    all_empty, autosave_due, collection_created, collection_deleted, collection_position, deletable_alone, flipped,
    given_name, listed_at_most_once,
    gold_toggled, has_collection, has_trigger_id, path_deleted, path_filter_set, reset_state, saved_file,
    select_possible, start_state, stopped, trigger_placed, stored_recording, trigger_ids, visible_updated, PathLog, PathLogView,
    SaveRequest,
};
use crate::rendering::{union_of, RenderUpdates};
use crate::selection::selection_after;
use crate::seqs::{equal_to, first_match};

verus! {

/// Which teleport an event means: one of the two at the main triggers, or
/// one of the extra ones.
#[derive(Clone, Copy, PartialEq, Eq, Structural, Debug)]
pub enum TeleportIndex {
    Main { i: usize },
    Extra { i: usize },
}

/// Something the user or the game asked for, handled once per frame.
#[derive(Clone, Debug)]
pub enum CelEvent {
    DeletePath { path_id: u128 },
    ChangeDirectMode { new: bool },
    ChangeAutosave { new: bool },
    ChangeAutoReset { new: bool },
    /// Place the trigger `index` (0 start, 1 finish, else a checkpoint)
    /// around `center`, with the given rotation and size.
    SpawnTrigger { index: usize, center: Node, rotation: Node, size: Node },
    DeleteTrigger { id: u128 },
    StartRecording,
    StopRecording,
    ResetRecording,
    ClearTriggers,
    CreateCollection,
    RenameCollection { id: u128, new_name: String },
    DeleteCollection { id: u128 },
    ToggleMute { id: u128 },
    ToggleSolo { id: u128 },
    ToggleActive { id: u128 },
    ToggleGoldFilter { collection_id: u128 },
    SetPathFilter { collection_id: u128, path_id: u128 },
    SaveComparison,
    LoadComparison,
    SaveConfig,
    LoadConfig,
    SelectPath { path_id: u128, collection_id: u128, modifier: u8 },
    Teleport { index: TeleportIndex },
    SpawnTeleport { index: TeleportIndex },
    RenderUpdate { update: RenderUpdates },
}

/// What handling one event leaves to the caller.
pub struct EventOutcome {
    /// Events to queue at once.
    pub queued: Vec<CelEvent>,
    /// Events to queue after those, for the next round.
    pub later: Vec<CelEvent>,
    /// Which of the two main teleports to drop.
    pub dropped_teleports: [bool; 2],
    /// A comparison snapshot to write.
    pub save: Option<SaveRequest>,
    /// Whether the event is the caller's own: opening a file dialog, reading
    /// or writing the configuration, or moving the player.
    pub passed_on: bool,
}

/// Whether an event is one the caller handles itself.
pub open spec fn is_passed_on(e: CelEvent) -> bool {
    ||| e is SaveComparison
    ||| e is LoadComparison
    ||| e is SaveConfig
    ||| e is LoadConfig
    ||| e is Teleport
    ||| e is SpawnTeleport
}

/// Whether the log can apply the event: a click names a selection it can
/// make, a deleted path is listed at most once in each collection, and a
/// deleted collection shares neither its id nor its paths with another
/// (every other event can always be handled).
pub open spec fn event_admitted(v: PathLogView, e: CelEvent) -> bool {
    match e {
        CelEvent::SelectPath { path_id, collection_id, modifier } => select_possible(
            v,
            path_id,
            collection_id,
            modifier,
        ),
        CelEvent::DeletePath { path_id } => listed_at_most_once(v.collections, path_id),
        CelEvent::DeleteCollection { id } => collection_position(v.collections, id) < v.collections.len()
            ==> deletable_alone(v.collections, collection_position(v.collections, id)),
        _ => true,
    }
}

/// The paths must be drawn again, for the next round.
pub open spec fn redraw_paths(r: EventOutcome) -> bool {
    r.later@ == seq![CelEvent::RenderUpdate { update: RenderUpdates { paths: true, triggers: false, teleports: false, shapes: false } }]
}

/// No event is queued, no teleport dropped, nothing to write.
pub open spec fn quiet(r: EventOutcome) -> bool {
    &&& r.queued@.len() == 0
    &&& r.dropped_teleports == [false, false]
    &&& r.save is None
    &&& !r.passed_on
}

/// Nothing is queued but a redraw of the paths for the next round.
pub open spec fn quiet_redraw(r: EventOutcome) -> bool {
    &&& r.queued@.len() == 0
    &&& r.dropped_teleports == [false, false]
    &&& r.save is None
    &&& !r.passed_on
    &&& redraw_paths(r)
}

/// Nothing at all is left to the caller.
pub open spec fn silent(r: EventOutcome) -> bool {
    quiet(r) && r.later@.len() == 0
}

/// What handling the event `e` does to the log (from `v` to `w`), to the
/// pending render updates (from `u0` to `u1`), and what it leaves to the
/// caller in `r`.
pub open spec fn handled(
    v: PathLogView,
    w: PathLogView,
    u0: RenderUpdates,
    u1: RenderUpdates,
    e: CelEvent,
    r: EventOutcome,
) -> bool {
    &&& (!(e is RenderUpdate) ==> u1 == u0)
    &&& match e {
        CelEvent::DeletePath { path_id } => w == path_deleted(v, path_id) && quiet_redraw(r),
        CelEvent::ChangeDirectMode { new } => w == (PathLogView { direct: new, ..v }) && silent(r),
        CelEvent::ChangeAutosave { new } => w == (PathLogView { autosave: new, ..v }) && silent(r),
        CelEvent::ChangeAutoReset { new } => w == (PathLogView { autoreset: new, ..v }) && silent(r),
        CelEvent::SpawnTrigger { index, center, rotation, size } => {
            &&& r.later@.len() == 0
            &&& r.dropped_teleports == [false, false]
            &&& r.save is None
            &&& !r.passed_on
            &&& !all_empty(v.collections) ==> w == v && r.queued@.len() == 0
            &&& all_empty(v.collections) ==> {
                &&& r.queued@ == seq![CelEvent::SpawnTeleport { index: TeleportIndex::Main { i: index } }]
                &&& exists|b: BoxCollider| {
                    &&& b@.position == center && b@.rotation == rotation && b@.size == size
                    &&& #[trigger] trigger_placed(v, index, b) == w
                }
            }
        },
        CelEvent::DeleteTrigger { id } => {
            let k = first_match(trigger_ids(v.checkpoint_triggers), equal_to(id));
            &&& r.queued@.len() == 0
            &&& r.later@.len() == 0
            &&& r.save is None
            &&& !r.passed_on
            &&& k < v.checkpoint_triggers.len() ==> r.dropped_teleports == [false, false] && w == (PathLogView {
                checkpoint_triggers: v.checkpoint_triggers.remove(k),
                ..v
            })
            &&& k >= v.checkpoint_triggers.len() ==> {
                &&& r.dropped_teleports == [
                    has_trigger_id(v.main_triggers[0], id),
                    has_trigger_id(v.main_triggers[1], id),
                ]
                &&& w == (PathLogView {
                    main_triggers: [
                        if r.dropped_teleports[0] { None } else { v.main_triggers[0] },
                        if r.dropped_teleports[1] { None } else { v.main_triggers[1] },
                    ],
                    ..v
                })
            }
        },
        CelEvent::StartRecording => w == start_state(v) && silent(r),
        CelEvent::StopRecording => {
            let f = PathLogView {
                mute_paths: v.mute_paths.insert(v.recording_path.id, false),
                solo_paths: v.solo_paths.insert(v.recording_path.id, false),
                ..v
            };
            &&& r.queued@.len() == 0
            &&& r.dropped_teleports == [false, false]
            &&& !r.passed_on
            &&& redraw_paths(r)
            &&& !v.recording ==> w == f && r.save is None
            &&& v.recording ==> exists|t: u64, next_id: u128| {
                &&& w == #[trigger] stopped(f, t, next_id)
                &&& next_id != v.recording_path.id
                &&& (r.save is Some) == autosave_due(f)
                &&& r.save matches Some(req) ==> {
                    &&& f.current_file == Some(req.file_path@)
                    &&& saved_file(stored_recording(f, t), req.data@)
                }
            }
        },
        CelEvent::ResetRecording => w == reset_state(v) && silent(r),
        CelEvent::ClearTriggers => {
            &&& r.queued@.len() == 0
            &&& r.later@.len() == 0
            &&& r.dropped_teleports == [true, true]
            &&& r.save is None
            &&& !r.passed_on
            &&& !all_empty(v.collections) ==> w == v
            &&& all_empty(v.collections) ==> w == (PathLogView {
                main_triggers: [None, None],
                current_file: None,
                ..v
            })
        },
        CelEvent::CreateCollection => silent(r) && exists|id: u128| {
            &&& w == #[trigger] collection_created(v, id)
            &&& !has_collection(v.collections, id)
            &&& id != v.compared.id
        },
        CelEvent::RenameCollection { id, new_name } => {
            let k = collection_position(v.collections, id);
            &&& silent(r)
            &&& k < v.collections.len() ==> w == (PathLogView {
                collections: v.collections.update(
                    k,
                    PathCollectionView { name: given_name(new_name@), ..v.collections[k] },
                ),
                ..v
            })
            &&& k >= v.collections.len() ==> w == v
        },
        CelEvent::DeleteCollection { id } => {
            let k = collection_position(v.collections, id);
            &&& quiet_redraw(r)
            &&& k < v.collections.len() ==> w == collection_deleted(v, k)
            &&& k >= v.collections.len() ==> w == v
        },
        CelEvent::ToggleMute { id } => quiet_redraw(r) && w == visible_updated(
            PathLogView {
                mute_paths: flipped(v.mute_paths, id),
                mute_collections: flipped(v.mute_collections, id),
                ..v
            },
        ) && w.mute_paths == flipped(v.mute_paths, id)
            && w.mute_collections == flipped(v.mute_collections, id),
        CelEvent::ToggleSolo { id } => quiet_redraw(r) && w == visible_updated(
            PathLogView {
                solo_paths: flipped(v.solo_paths, id),
                solo_collections: flipped(v.solo_collections, id),
                ..v
            },
        ) && w.solo_paths == flipped(v.solo_paths, id)
            && w.solo_collections == flipped(v.solo_collections, id),
        CelEvent::ToggleActive { id } => silent(r) && w == (PathLogView {
            active_collection: if v.active_collection == Some(id) { None } else { Some(id) },
            ..v
        }),
        CelEvent::ToggleGoldFilter { collection_id } => silent(r) && w == (PathLogView {
            filters: gold_toggled(v.filters, collection_id),
            ..v
        }),
        CelEvent::SetPathFilter { collection_id, path_id } => silent(r) && w == (PathLogView {
            filters: path_filter_set(v.filters, collection_id, path_id),
            ..v
        }),
        CelEvent::SelectPath { path_id, collection_id, modifier } => quiet_redraw(r) && w == (PathLogView {
            selected_paths: v.selected_paths.insert(
                collection_id,
                selection_after(
                    v.selected_paths[collection_id],
                    v.collections[collection_position(v.collections, collection_id)].paths,
                    v.paths[path_id].id,
                    modifier,
                ),
            ),
            ..v
        }),
        CelEvent::RenderUpdate { update } => {
            &&& silent(r)
            &&& u1 == union_of(u0, update)
            &&& update.paths ==> w == visible_updated(v)
            &&& !update.paths ==> w == v
        },
        _ => is_passed_on(e) && w == v && r.passed_on && r.queued@.len() == 0 && r.later@.len() == 0
            && r.dropped_teleports == [false, false] && r.save is None,
    }
}

/// An outcome that leaves nothing to the caller.
fn outcome_silent() -> (r: EventOutcome)
    ensures
        silent(r),
{
    EventOutcome { queued: Vec::new(), later: Vec::new(), dropped_teleports: [false, false], save: None, passed_on: false }
}

/// An outcome that only asks for the paths to be drawn again next round.
fn outcome_redraw() -> (r: EventOutcome)
    ensures
        quiet_redraw(r),
{
    let mut later: Vec<CelEvent> = Vec::new();
    later.push(CelEvent::RenderUpdate { update: RenderUpdates::paths() });
    proof {
        assert(later@ =~= seq![CelEvent::RenderUpdate { update: RenderUpdates { paths: true, triggers: false, teleports: false, shapes: false } }]);
    }
    EventOutcome { queued: Vec::new(), later, dropped_teleports: [false, false], save: None, passed_on: false }
}

/// Whether the log can handle the event, as `event_admitted` says.
pub fn can_handle(log: &PathLog, event: &CelEvent) -> (r: bool)
    requires
        log.wf(),
    ensures
        r == event_admitted(log@, *event),
{
    match event {
        CelEvent::SelectPath { path_id, collection_id, modifier } => log.can_select(*path_id, *collection_id, *modifier),
        CelEvent::DeletePath { path_id } => log.can_delete_path(*path_id),
        CelEvent::DeleteCollection { id } => log.can_delete_collection(*id),
        _ => true,
    }
}

/// Handles one event: applies it to the log and to the pending render
/// updates as `handled` says, and returns what is left to the caller.
#[verifier::rlimit(80)]
#[verifier::spinoff_prover]
pub fn process_event(log: &mut PathLog, render: &mut RenderUpdates, event: CelEvent) -> (r: EventOutcome)
    requires
        old(log).wf(),
        event_admitted(old(log)@, event),
    ensures
        final(log).wf(),
        handled(old(log)@, final(log)@, *old(render), *final(render), event, r),
{
    let ghost v = log@;
    let ghost u0 = *render;
    let ghost e = event;
    let r = match event {
        CelEvent::DeletePath { path_id } => {
            log.delete_path(path_id);
            outcome_redraw()
        },
        CelEvent::ChangeDirectMode { new } => {
            log.set_direct_mode(new);
            outcome_silent()
        },
        CelEvent::ChangeAutosave { new } => {
            log.set_autosave(new);
            outcome_silent()
        },
        CelEvent::ChangeAutoReset { new } => {
            log.set_autoreset(new);
            outcome_silent()
        },
        CelEvent::SpawnTrigger { index, center, rotation, size } => {
            let mut r = outcome_silent();
            if log.is_empty() {
                log.create_trigger(index, center, rotation, size);
                r.queued.push(CelEvent::SpawnTeleport { index: TeleportIndex::Main { i: index } });
                proof {
                    assert(r.queued@ =~= seq![CelEvent::SpawnTeleport { index: TeleportIndex::Main { i: index } }]);
                }
            }
            r
        },
        CelEvent::DeleteTrigger { id } => {
            let dropped = log.delete_trigger(id);
            let mut r = outcome_silent();
            r.dropped_teleports = dropped;
            r
        },
        CelEvent::StartRecording => {
            log.start();
            outcome_silent()
        },
        CelEvent::StopRecording => {
            log.clear_recording_flags();
            let save = log.stop();
            let mut r = outcome_redraw();
            r.save = save;
            r
        },
        CelEvent::ResetRecording => {
            log.reset();
            outcome_silent()
        },
        CelEvent::ClearTriggers => {
            log.clear_triggers();
            let mut r = outcome_silent();
            r.dropped_teleports = [true, true];
            r
        },
        CelEvent::CreateCollection => {
            log.create_collection();
            outcome_silent()
        },
        CelEvent::RenameCollection { id, new_name } => {
            log.rename_collection(id, new_name);
            outcome_silent()
        },
        CelEvent::DeleteCollection { id } => {
            log.delete_collection(id);
            outcome_redraw()
        },
        CelEvent::ToggleMute { id } => {
            log.toggle_mute(id);
            outcome_redraw()
        },
        CelEvent::ToggleSolo { id } => {
            log.toggle_solo(id);
            outcome_redraw()
        },
        CelEvent::ToggleActive { id } => {
            log.toggle_active(id);
            outcome_silent()
        },
        CelEvent::ToggleGoldFilter { collection_id } => {
            log.toggle_gold_filter(collection_id);
            outcome_silent()
        },
        CelEvent::SetPathFilter { collection_id, path_id } => {
            log.set_path_filter(collection_id, path_id);
            outcome_silent()
        },
        CelEvent::SelectPath { path_id, collection_id, modifier } => {
            log.select_path(path_id, collection_id, modifier);
            outcome_redraw()
        },
        CelEvent::RenderUpdate { update } => {
            render.or(update);
            if update.paths {
                log.update_visible();
            }
            outcome_silent()
        },
        _ => {
            let mut r = outcome_silent();
            r.passed_on = true;
            r
        },
    };
    proof {
        match e {
            CelEvent::DeletePath { .. } => assert(handled(v, log@, u0, *render, e, r)),
            CelEvent::ChangeDirectMode { .. } => assert(handled(v, log@, u0, *render, e, r)),
            CelEvent::ChangeAutosave { .. } => assert(handled(v, log@, u0, *render, e, r)),
            CelEvent::ChangeAutoReset { .. } => assert(handled(v, log@, u0, *render, e, r)),
            CelEvent::SpawnTrigger { .. } => assert(handled(v, log@, u0, *render, e, r)),
            CelEvent::DeleteTrigger { .. } => assert(handled(v, log@, u0, *render, e, r)),
            CelEvent::StartRecording => assert(handled(v, log@, u0, *render, e, r)),
            CelEvent::StopRecording => assert(handled(v, log@, u0, *render, e, r)),
            CelEvent::ResetRecording => assert(handled(v, log@, u0, *render, e, r)),
            CelEvent::ClearTriggers => assert(handled(v, log@, u0, *render, e, r)),
            CelEvent::CreateCollection => assert(handled(v, log@, u0, *render, e, r)),
            CelEvent::RenameCollection { .. } => assert(handled(v, log@, u0, *render, e, r)),
            CelEvent::DeleteCollection { .. } => assert(handled(v, log@, u0, *render, e, r)),
            CelEvent::ToggleMute { .. } => assert(handled(v, log@, u0, *render, e, r)),
            CelEvent::ToggleSolo { .. } => assert(handled(v, log@, u0, *render, e, r)),
            CelEvent::ToggleActive { .. } => assert(handled(v, log@, u0, *render, e, r)),
            CelEvent::ToggleGoldFilter { .. } => assert(handled(v, log@, u0, *render, e, r)),
            CelEvent::SetPathFilter { .. } => assert(handled(v, log@, u0, *render, e, r)),
            CelEvent::SelectPath { .. } => assert(handled(v, log@, u0, *render, e, r)),
            CelEvent::RenderUpdate { .. } => assert(handled(v, log@, u0, *render, e, r)),
            _ => assert(handled(v, log@, u0, *render, e, r)),
        }
    }
    r
}

} // verus!
