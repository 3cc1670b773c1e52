use std::collections::HashMap;
use std::time::Instant;
use vstd::prelude::*;
use vstd::string::StringExecFns;

use crate::clock::{elapsed_millis, instant_now};
use crate::error::Error;
use crate::ids::contains_id;
use crate::ids::fresh_id;
use crate::seqs::{equal_to, first_match, lemma_first_match, lemma_first_match_bounds, lemma_first_match_found, lemma_first_match_le};
use crate::rendering::RenderUpdates;
use crate::selection::{select_in, selection_after, selection_possible};
use crate::pathdata::{
    clone_collections, collection_views, path_views, segments_after_add, total_time, trigger_record, BoxCollider,
    CompFile, CompFileView, HighPassFilter, Node, Path, PathCollection, PathCollectionView,
    PathView, remove_first, CURRENT_FILE_VERSION, DEFAULT_NAME_FOR_EMPTY,
};

verus! {

broadcast use {
    vstd::std_specs::hash::group_hash_axioms,
    vstd::std_specs::hash::axiom_u128_obeys_hash_table_key_model,
    vstd::std_specs::hash::axiom_random_state_builds_valid_hashers,
};

/// The name a new collection gets.
pub const DEFAULT_COLLECTION_NAME: &'static str = "New Collection";

/// Which paths of each collection are compared.
#[derive(Clone, Copy, PartialEq, Eq, Structural, Debug)]
pub enum Comparison {
    /// Every shown path.
    All,
    /// The fastest path of each shown collection.
    Gold,
    /// The middle path of each shown collection.
    Average,
}

/// The abstract state of a path log.
#[verifier::ext_equal]
pub struct PathLogView {
    pub paused: bool,
    pub primed: bool,
    pub recording: bool,
    pub direct: bool,
    pub autosave: bool,
    pub autoreset: bool,
    pub current_file: Option<Seq<char>>,
    /// Whether a clock reading marks the start of the running segment.
    pub started: bool,
    pub latest_path: u128,
    pub latest_time: u64,
    pub recording_path: PathView,
    pub active_collection: Option<u128>,
    pub filters: Map<u128, HighPassFilter>,
    pub main_triggers: [Option<BoxCollider>; 2],
    pub checkpoint_triggers: Seq<BoxCollider>,
    pub paths: Map<u128, PathView>,
    pub collections: Seq<PathCollectionView>,
    pub mute_paths: Map<u128, bool>,
    pub solo_paths: Map<u128, bool>,
    pub mute_collections: Map<u128, bool>,
    pub solo_collections: Map<u128, bool>,
    pub selected_paths: Map<u128, Seq<u128>>,
    pub mode: Comparison,
    pub compared: PathCollectionView,
    pub ignored: Seq<Seq<u128>>,
}

/// A comparison file to write: where, and what.
pub struct SaveRequest {
    pub file_path: String,
    pub data: CompFile,
}

/// The recorder and the store of recorded paths: it starts and stops
/// recordings at the triggers, keeps the collections sorted by time, and
/// works out which paths are shown.
pub struct PathLog {
    paused: bool,
    primed: bool,
    recording: bool,
    direct: bool,
    autosave: bool,
    autoreset: bool,
    current_file: Option<String>,
    recording_start: Option<Instant>,
    pub latest_path: u128,
    latest_time: u64,
    pub recording_path: Path,
    pub active_collection: Option<u128>,
    pub filters: HashMap<u128, HighPassFilter>,
    pub main_triggers: [Option<BoxCollider>; 2],
    pub checkpoint_triggers: Vec<BoxCollider>,
    paths: HashMap<u128, Path>,
    path_collections: Vec<PathCollection>,
    pub mute_paths: HashMap<u128, bool>,
    pub solo_paths: HashMap<u128, bool>,
    pub mute_collections: HashMap<u128, bool>,
    pub solo_collections: HashMap<u128, bool>,
    pub selected_paths: HashMap<u128, Vec<u128>>,
    comparison_mode: Comparison,
    compared_paths: PathCollection,
    ignored_paths: Vec<Vec<u128>>,
}

/// The view of each list of ids in a map.
pub open spec fn id_list_views(m: Map<u128, Vec<u128>>) -> Map<u128, Seq<u128>> {
    m.map_values(|v: Vec<u128>| v@)
}

/// The view of each list of ids in a sequence.
pub open spec fn id_seq_views(s: Seq<Vec<u128>>) -> Seq<Seq<u128>> {
    s.map_values(|v: Vec<u128>| v@)
}

impl View for PathLog {
    type V = PathLogView;

    closed spec fn view(&self) -> PathLogView {
        PathLogView {
            paused: self.paused,
            primed: self.primed,
            recording: self.recording,
            direct: self.direct,
            autosave: self.autosave,
            autoreset: self.autoreset,
            current_file: match self.current_file {
                Some(s) => Some(s@),
                None => None,
            },
            started: self.recording_start is Some,
            latest_path: self.latest_path,
            latest_time: self.latest_time,
            recording_path: self.recording_path@,
            active_collection: self.active_collection,
            filters: self.filters@,
            main_triggers: self.main_triggers,
            checkpoint_triggers: self.checkpoint_triggers@,
            paths: path_views(self.paths@),
            collections: collection_views(self.path_collections@),
            mute_paths: self.mute_paths@,
            solo_paths: self.solo_paths@,
            mute_collections: self.mute_collections@,
            solo_collections: self.solo_collections@,
            selected_paths: id_list_views(self.selected_paths@),
            mode: self.comparison_mode,
            compared: self.compared_paths@,
            ignored: id_seq_views(self.ignored_paths@),
        }
    }
}

/// A list holds the id `id` at most once.
pub open spec fn once_at_most(s: Seq<u128>, id: u128) -> bool {
    forall|a: int, b: int| 0 <= a < b < s.len() && #[trigger] s[a] == id ==> #[trigger] s[b] != id
}

/// No collection lists the path `id` more than once.
pub open spec fn listed_at_most_once(cols: Seq<PathCollectionView>, id: u128) -> bool {
    forall|i: int| 0 <= i < cols.len() ==> once_at_most(#[trigger] cols[i].paths, id)
}

/// The collection at position `k` can go on its own: no other collection
/// has its id or lists one of its paths.
pub open spec fn deletable_alone(cols: Seq<PathCollectionView>, k: int) -> bool {
    &&& forall|i: int| 0 <= i < cols.len() && i != k ==> #[trigger] cols[i].id != cols[k].id
    &&& forall|i: int, a: int| 0 <= i < cols.len() && i != k && 0 <= a < cols[i].paths.len()
        ==> !cols[k].paths.contains(#[trigger] cols[i].paths[a])
}

/// Whether a path id occurs in some collection.
pub open spec fn in_some_collection(cols: Seq<PathCollectionView>, id: u128) -> bool {
    exists|i: int| 0 <= i < cols.len() && #[trigger] cols[i].paths.contains(id)
}

/// Whether some collection has the given id.
pub open spec fn has_collection(cols: Seq<PathCollectionView>, id: u128) -> bool {
    exists|i: int| 0 <= i < cols.len() && #[trigger] cols[i].id == id
}

/// The state every method keeps: no collection has the id of the compared
/// paths, every listed path is stored and has its mute and solo flags,
/// every collection has its flags, the path being recorded is in no
/// collection, a recording has a start reading, paths are compared one by
/// one, and every compared path is stored. Collections may share an id, and
/// a path may be listed at several places.
pub open spec fn well_formed(v: PathLogView) -> bool {
    &&& structure_ok(v)
    &&& compared_stored(v)
}

/// The invariant without its part on the compared paths, which are worked
/// out again from the rest.
pub open spec fn structure_ok(v: PathLogView) -> bool {
    &&& !has_collection(v.collections, v.compared.id)
    &&& forall|i: int, a: int| #![trigger v.collections[i].paths[a]]
        0 <= i < v.collections.len() && 0 <= a < v.collections[i].paths.len() ==> {
            &&& v.paths.contains_key(v.collections[i].paths[a])
            &&& v.mute_paths.contains_key(v.collections[i].paths[a])
            &&& v.solo_paths.contains_key(v.collections[i].paths[a])
        }
    &&& forall|i: int| #![trigger v.collections[i]] 0 <= i < v.collections.len() ==> {
            &&& v.mute_collections.contains_key(v.collections[i].id)
            &&& v.solo_collections.contains_key(v.collections[i].id)
        }
    &&& !in_some_collection(v.collections, v.recording_path.id)
    &&& v.recording ==> v.started
    &&& v.mode == Comparison::All
}

/// The state after pausing, when the running segment took `t` milliseconds.
pub open spec fn paused_after(v: PathLogView, t: u64) -> PathLogView {
    PathLogView {
        paused: true,
        recording_path: PathView {
            times: v.recording_path.times.push(t),
            segments: v.recording_path.segments.push(Seq::empty()),
            ..v.recording_path
        },
        ..v
    }
}

/// The timer value while the running segment has taken `t` milliseconds.
pub open spec fn running_time(t: u64, times: Seq<u64>) -> u64 {
    if t + total_time(times) > u64::MAX {
        u64::MAX
    } else {
        (t + total_time(times)) as u64
    }
}

/// A time of `e` milliseconds added, without wrapping, to the time of the
/// finished segments.
pub open spec fn plus_finished(e: u64, times: Seq<u64>) -> int {
    e + total_time(times)
}

/// The timer value of a path whose running segment has taken `elapsed`
/// milliseconds: that time plus the time of its finished segments, held at
/// `u64::MAX` should the sum not fit.
pub fn running_time_of(elapsed: u64, path: &Path) -> (r: u64)
    ensures
        r == running_time(elapsed, path@.times),
        r >= total_time(path@.times),
        exists|e: u64| r as int == #[trigger] plus_finished(e, path@.times),
{
    let r = elapsed.saturating_add(path.time());
    assert(r as int == plus_finished((r - total_time(path@.times)) as u64, path@.times));
    r
}

/// The time of a stored path.
pub open spec fn time_of(paths: Map<u128, PathView>, id: u128) -> u64 {
    total_time(paths[id].times)
}

/// The filter of a collection, if it has one.
pub open spec fn filter_of(filters: Map<u128, HighPassFilter>, collection_id: u128) -> Option<HighPassFilter> {
    if filters.contains_key(collection_id) {
        Some(filters[collection_id])
    } else {
        None
    }
}

/// The paths that are not faster than `t`.
pub open spec fn not_faster(paths: Map<u128, PathView>, t: u64) -> spec_fn(u128) -> bool {
    |x: u128| time_of(paths, x) >= t
}

/// The paths that are slower than `t`, and the path `id`.
pub open spec fn slower_or_path(paths: Map<u128, PathView>, t: u64, id: u128) -> spec_fn(u128) -> bool {
    |x: u128| time_of(paths, x) > t || paths[x].id == id
}

/// The ids of a list of collections.
pub open spec fn ids_of(cols: Seq<PathCollectionView>) -> Seq<u128> {
    cols.map_values(|c: PathCollectionView| c.id)
}

/// Where a path that took `t` milliseconds goes into the list `coll`, or
/// `None` when the filter turns it away. Without a filter it goes before the
/// first path that is not faster. With the gold filter it goes first when it
/// is faster than the first path (or the list is empty) and is turned away
/// otherwise. With a path filter it goes before the first slower path, unless
/// the filter path comes first, in which case it is turned away.
pub open spec fn insert_position(
    coll: Seq<u128>,
    paths: Map<u128, PathView>,
    filter: Option<HighPassFilter>,
    t: u64,
) -> Option<int> {
    match filter {
        None => Some(first_match(coll, not_faster(paths, t))),
        Some(HighPassFilter::Gold) => {
            if coll.len() == 0 || time_of(paths, coll[0]) > t {
                Some(0)
            } else {
                None
            }
        },
        Some(HighPassFilter::Path { id }) => {
            if coll.len() == 0 {
                Some(0)
            } else {
                let p = first_match(coll, slower_or_path(paths, t, id));
                if p < coll.len() && time_of(paths, coll[p]) > t {
                    Some(p)
                } else {
                    None
                }
            }
        },
    }
}

/// The list after the path `new` is offered to it under the filter.
pub open spec fn filtered_insert(
    coll: Seq<u128>,
    paths: Map<u128, PathView>,
    filter: Option<HighPassFilter>,
    new: u128,
) -> Seq<u128> {
    match insert_position(coll, paths, filter, time_of(paths, new)) {
        Some(p) => coll.insert(p, new),
        None => coll,
    }
}

/// The position of the first collection with the given id; the number of
/// collections when there is none.
pub open spec fn collection_position(cols: Seq<PathCollectionView>, id: u128) -> int {
    first_match(ids_of(cols), equal_to(id))
}

/// The state after the path `id` is offered to the collection `cid` (a
/// collection of the log, or else the compared paths): the filter of the
/// collection decides where it goes, and a path stored into a collection of
/// the log gets its mute and solo flags cleared. An unknown collection leaves
/// the state as it is.
pub open spec fn added_to(v: PathLogView, id: u128, cid: u128) -> PathLogView {
    let k = collection_position(v.collections, cid);
    let flags = PathLogView {
        mute_paths: v.mute_paths.insert(id, false),
        solo_paths: v.solo_paths.insert(id, false),
        ..v
    };
    let filter = filter_of(v.filters, cid);
    if k < v.collections.len() {
        let c = v.collections[k];
        PathLogView {
            collections: v.collections.update(
                k,
                PathCollectionView { paths: filtered_insert(c.paths, v.paths, filter, id), ..c },
            ),
            ..flags
        }
    } else if cid == v.compared.id {
        PathLogView {
            compared: PathCollectionView {
                paths: filtered_insert(v.compared.paths, v.paths, filter, id),
                ..v.compared
            },
            ..v
        }
    } else {
        v
    }
}

/// Every path listed in a collection is stored.
pub open spec fn entries_stored(cols: Seq<PathCollectionView>, paths: Map<u128, PathView>) -> bool {
    forall|i: int, a: int| #![trigger cols[i].paths[a]]
        0 <= i < cols.len() && 0 <= a < cols[i].paths.len() ==> paths.contains_key(cols[i].paths[a])
}

/// Every compared path is stored.
pub open spec fn compared_stored(v: PathLogView) -> bool {
    forall|a: int| 0 <= a < v.compared.paths.len() ==> v.paths.contains_key(#[trigger] v.compared.paths[a])
}

/// Where a path that took `t` milliseconds goes into the list `coll`.
fn find_insert_position(
    paths: &HashMap<u128, Path>,
    filter: Option<HighPassFilter>,
    coll: &Vec<u128>,
    t: u64,
) -> (r: Option<usize>)
    requires
        forall|a: int| 0 <= a < coll@.len() ==> paths@.contains_key(#[trigger] coll@[a]),
    ensures
        match r {
            Some(p) => insert_position(coll@, path_views(paths@), filter, t) == Some(p as int),
            None => insert_position(coll@, path_views(paths@), filter, t) is None,
        },
        r matches Some(p) ==> p <= coll@.len(),
{
    let ghost pv = path_views(paths@);
    match filter {
        None => {
            let ghost pred = not_faster(pv, t);
            let mut i: usize = 0;
            while i < coll.len()
                invariant
                    0 <= i <= coll.len(),
                    pv == path_views(paths@),
                    pred == not_faster(pv, t),
                    filter is None,
                    forall|a: int| 0 <= a < coll@.len() ==> paths@.contains_key(#[trigger] coll@[a]),
                    forall|j: int| 0 <= j < i ==> !pred(#[trigger] coll@[j]),
                decreases coll.len() - i,
            {
                let tp = paths.get(&coll[i]).unwrap().time();
                assert(pv[coll@[i as int]] == paths@[coll@[i as int]]@);
                assert(pred(coll@[i as int]) == (tp >= t));
                if tp >= t {
                    proof { lemma_first_match(coll@, pred, i as int); }
                    return Some(i);
                }
                i = i + 1;
            }
            proof { lemma_first_match(coll@, pred, i as int); }
            Some(i)
        },
        Some(HighPassFilter::Gold) => {
            if coll.len() == 0 {
                return Some(0);
            }
            let t0 = paths.get(&coll[0]).unwrap().time();
            assert(pv[coll@[0]] == paths@[coll@[0]]@);
            if t0 > t {
                Some(0)
            } else {
                None
            }
        },
        Some(HighPassFilter::Path { id }) => {
            if coll.len() == 0 {
                return Some(0);
            }
            let ghost pred = slower_or_path(pv, t, id);
            let mut i: usize = 0;
            while i < coll.len()
                invariant
                    0 <= i <= coll.len(),
                    pv == path_views(paths@),
                    pred == slower_or_path(pv, t, id),
                    filter == Some(HighPassFilter::Path { id }),
                    coll@.len() > 0,
                    forall|a: int| 0 <= a < coll@.len() ==> paths@.contains_key(#[trigger] coll@[a]),
                    forall|j: int| 0 <= j < i ==> !pred(#[trigger] coll@[j]),
                decreases coll.len() - i,
            {
                let p = paths.get(&coll[i]).unwrap();
                assert(pv[coll@[i as int]] == paths@[coll@[i as int]]@);
                assert(pred(coll@[i as int]) == (p@.id == id || total_time(p@.times) > t));
                if p.time() > t {
                    proof { lemma_first_match(coll@, pred, i as int); }
                    return Some(i);
                }
                if p.id() == id {
                    proof { lemma_first_match(coll@, pred, i as int); }
                    return None;
                }
                i = i + 1;
            }
            proof { lemma_first_match(coll@, pred, i as int); }
            None
        },
    }
}

/// Whether some flag of the map is set.
pub open spec fn any_set(m: Map<u128, bool>) -> bool {
    exists|k: u128| m.contains_key(k) && #[trigger] m[k]
}

/// Whether an item with these flags is shown: it is not muted, and it is
/// soloed or nothing is soloed.
pub open spec fn shown(solo: Map<u128, bool>, mute: Map<u128, bool>, id: u128) -> bool {
    !mute[id] && (solo[id] || !any_set(solo))
}

/// The shown paths of the list `ps` that are not in `acc`, in order, each
/// once.
pub open spec fn shown_paths(ps: Seq<u128>, acc: Seq<u128>, solo: Map<u128, bool>, mute: Map<u128, bool>) -> Seq<u128>
    decreases ps.len(),
{
    if ps.len() == 0 {
        Seq::empty()
    } else {
        let r = shown_paths(ps.drop_last(), acc, solo, mute);
        if !(acc + r).contains(ps.last()) && shown(solo, mute, ps.last()) {
            r.push(ps.last())
        } else {
            r
        }
    }
}

/// The shown paths of the shown collections among the first `n`, in order,
/// each once.
pub open spec fn visible_prefix(v: PathLogView, n: int) -> Seq<u128>
    decreases n,
{
    if n <= 0 {
        Seq::empty()
    } else {
        let acc = visible_prefix(v, n - 1);
        let c = v.collections[n - 1];
        if c.paths.len() == 0 || !shown(v.solo_collections, v.mute_collections, c.id) {
            acc
        } else {
            acc + shown_paths(c.paths, acc, v.solo_paths, v.mute_paths)
        }
    }
}

/// The shown paths of all shown collections, in order, each once.
pub open spec fn visible_ids(v: PathLogView) -> Seq<u128> {
    visible_prefix(v, v.collections.len() as int)
}

/// The state after the paths `ids` are offered, one after the other, to
/// the collection `cid`.
pub open spec fn added_all(v: PathLogView, ids: Seq<u128>, cid: u128) -> PathLogView
    decreases ids.len(),
{
    if ids.len() == 0 {
        v
    } else {
        added_to(added_all(v, ids.drop_last(), cid), ids.last(), cid)
    }
}

/// The state after the compared paths are worked out again: they are
/// cleared, then every shown path of every shown collection is offered to
/// them; nothing is set aside, and no flag changes.
pub open spec fn visible_updated(v: PathLogView) -> PathLogView {
    let cleared = PathLogView {
        compared: PathCollectionView { paths: Seq::empty(), ..v.compared },
        ignored: Seq::new(v.collections.len(), |i: int| Seq::<u128>::empty()),
        ..v
    };
    added_all(cleared, visible_ids(v), v.compared.id)
}

/// Offering a path to a list adds at most that path.
pub proof fn lemma_filtered_insert_elements(
    coll: Seq<u128>,
    paths: Map<u128, PathView>,
    filter: Option<HighPassFilter>,
    new: u128,
    x: u128,
)
    requires
        filtered_insert(coll, paths, filter, new).contains(x),
    ensures
        coll.contains(x) || x == new,
{
    let t = time_of(paths, new);
    lemma_first_match_bounds(coll, not_faster(paths, t));
    match filter {
        Some(HighPassFilter::Path { id }) => {
            lemma_first_match_bounds(coll, slower_or_path(paths, t, id));
        },
        _ => {},
    }
    match insert_position(coll, paths, filter, t) {
        Some(p) => {
            let r = coll.insert(p, new);
            let k = choose|k: int| 0 <= k < r.len() && r[k] == x;
            if k < p {
                assert(coll[k] == x);
            } else if k > p {
                assert(coll[k - 1] == x);
            }
        },
        None => {},
    }
}

/// The shown paths of a list are paths of the list.
pub proof fn lemma_shown_paths_elements(
    ps: Seq<u128>,
    acc: Seq<u128>,
    solo: Map<u128, bool>,
    mute: Map<u128, bool>,
    x: u128,
)
    requires
        shown_paths(ps, acc, solo, mute).contains(x),
    ensures
        ps.contains(x),
    decreases ps.len(),
{
    if ps.len() > 0 {
        let r = shown_paths(ps.drop_last(), acc, solo, mute);
        if r.contains(x) {
            lemma_shown_paths_elements(ps.drop_last(), acc, solo, mute, x);
            let k = choose|k: int| 0 <= k < ps.drop_last().len() && ps.drop_last()[k] == x;
            assert(ps[k] == x);
        } else {
            assert(ps[ps.len() - 1] == x);
        }
    }
}

/// The visible paths of the first `n` collections are listed in one of them.
pub proof fn lemma_visible_prefix_elements(v: PathLogView, n: int, x: u128)
    requires
        0 <= n <= v.collections.len(),
        visible_prefix(v, n).contains(x),
    ensures
        exists|k: int| 0 <= k < n && #[trigger] v.collections[k].paths.contains(x),
    decreases n,
{
    if n > 0 {
        let acc = visible_prefix(v, n - 1);
        if acc.contains(x) {
            lemma_visible_prefix_elements(v, n - 1, x);
        } else {
            let c = v.collections[n - 1];
            let sp = shown_paths(c.paths, acc, v.solo_paths, v.mute_paths);
            let k = choose|k: int| 0 <= k < visible_prefix(v, n).len() && visible_prefix(v, n)[k] == x;
            assert(sp.contains(x)) by {
                assert(sp[k - acc.len()] == x);
            }
            lemma_shown_paths_elements(c.paths, acc, v.solo_paths, v.mute_paths, x);
            assert(v.collections[n - 1].paths.contains(x));
        }
    }
}

/// When no collection has the id, offering goes to the compared paths.
pub proof fn lemma_no_collection_position(cols: Seq<PathCollectionView>, id: u128)
    requires
        !has_collection(cols, id),
    ensures
        collection_position(cols, id) == cols.len(),
{
    let ids = ids_of(cols);
    assert forall|j: int| 0 <= j < cols.len() implies !equal_to(id)(#[trigger] ids[j]) by {
        assert(ids[j] == cols[j].id);
    }
    lemma_first_match(ids, equal_to(id), cols.len() as int);
}

/// The position of a collection that exists holds it.
pub proof fn lemma_collection_found(cols: Seq<PathCollectionView>, id: u128)
    requires
        has_collection(cols, id),
    ensures
        0 <= collection_position(cols, id) < cols.len(),
        cols[collection_position(cols, id)].id == id,
{
    let ids = ids_of(cols);
    let i = choose|i: int| 0 <= i < cols.len() && #[trigger] cols[i].id == id;
    assert(ids[i] == cols[i].id);
    lemma_first_match_le(ids, equal_to(id), i);
    lemma_first_match_bounds(ids, equal_to(id));
    lemma_first_match_found(ids, equal_to(id));
    assert(ids[collection_position(cols, id)] == cols[collection_position(cols, id)].id);
}

/// A collection position before the end holds a collection with that id.
pub proof fn lemma_collection_at(cols: Seq<PathCollectionView>, id: u128)
    requires
        collection_position(cols, id) < cols.len(),
    ensures
        has_collection(cols, id),
        cols[collection_position(cols, id)].id == id,
{
    let ids = ids_of(cols);
    lemma_first_match_bounds(ids, equal_to(id));
    lemma_first_match_found(ids, equal_to(id));
    let k = collection_position(cols, id);
    assert(ids[k] == cols[k].id);
}

/// The state after the trigger `b` is placed at `index`: 0 is the start,
/// 1 the finish, any other index adds a checkpoint; the current file is
/// forgotten.
pub open spec fn trigger_placed(v: PathLogView, index: usize, b: BoxCollider) -> PathLogView {
    PathLogView {
        current_file: None,
        main_triggers: if index == 0 {
            [Some(b), v.main_triggers[1]]
        } else if index == 1 {
            [v.main_triggers[0], Some(b)]
        } else {
            v.main_triggers
        },
        checkpoint_triggers: if index < 2 {
            v.checkpoint_triggers
        } else {
            v.checkpoint_triggers.push(b)
        },
        ..v
    }
}

/// Every collection is empty.
pub open spec fn all_empty(cols: Seq<PathCollectionView>) -> bool {
    forall|i: int| 0 <= i < cols.len() ==> (#[trigger] cols[i]).paths.len() == 0
}

/// The file content that saving writes: both main triggers, the stored
/// paths and the collections.
pub open spec fn saved_file(v: PathLogView, data: CompFileView) -> bool {
    &&& v.main_triggers[0] is Some
    &&& v.main_triggers[1] is Some
    &&& data.version == CURRENT_FILE_VERSION@
    &&& data.trigger_data == [
        trigger_record(v.main_triggers[0]->0@),
        trigger_record(v.main_triggers[1]->0@),
    ]
    &&& data.paths == v.paths
    &&& data.collections == v.collections
}

/// The recording path with its last segment closed after `t` milliseconds.
pub open spec fn finished_path(v: PathLogView, t: u64) -> PathView {
    PathView { times: v.recording_path.times.push(t), ..v.recording_path }
}

/// The state after a recording whose last segment took `t` milliseconds is
/// finished and, unless recordings are direct, stored and offered to the
/// active collection (when a collection has that id).
pub open spec fn stored_recording(v: PathLogView, t: u64) -> PathLogView {
    let rec = finished_path(v, t);
    let base = PathLogView { recording: false, latest_time: total_time(rec.times), recording_path: rec, ..v };
    if !v.direct && v.active_collection is Some && has_collection(v.collections, v.active_collection->0) {
        added_to(PathLogView { paths: base.paths.insert(rec.id, rec), ..base }, rec.id, v.active_collection->0)
    } else {
        base
    }
}

/// The state after a running recording is stopped: it is stored as
/// `stored_recording` says, it becomes the latest path, a new empty
/// recording path with the id `next_id` takes its place, and the compared
/// paths are worked out again.
pub open spec fn stopped(v: PathLogView, t: u64, next_id: u128) -> PathLogView {
    let s = stored_recording(v, t);
    visible_updated(PathLogView {
        latest_path: v.recording_path.id,
        recording_path: PathView { id: next_id, times: Seq::empty(), segments: Seq::empty() },
        started: false,
        ..s
    })
}

/// Whether stopping the recording writes the comparison file: recordings
/// are not direct, autosave is on, some collection held a path before, a
/// file was saved or loaded, and both main triggers are set.
pub open spec fn autosave_due(v: PathLogView) -> bool {
    &&& !v.direct
    &&& v.autosave
    &&& !all_empty(v.collections)
    &&& v.current_file is Some
    &&& v.main_triggers[0] is Some
    &&& v.main_triggers[1] is Some
}

/// Every path listed in a collection is stored and has its mute and solo flags.
pub open spec fn entries_flagged(v: PathLogView) -> bool {
    forall|i: int, a: int| #![trigger v.collections[i].paths[a]]
        0 <= i < v.collections.len() && 0 <= a < v.collections[i].paths.len() ==> {
            &&& v.paths.contains_key(v.collections[i].paths[a])
            &&& v.mute_paths.contains_key(v.collections[i].paths[a])
            &&& v.solo_paths.contains_key(v.collections[i].paths[a])
        }
}

/// Offering a stored path keeps every listed path stored and flagged.
pub proof fn lemma_offer_keeps_flagged(v: PathLogView, x: u128, cid: u128)
    requires
        v.paths.contains_key(x),
        entries_flagged(v),
    ensures
        entries_flagged(added_to(v, x, cid)),
        added_to(v, x, cid).paths == v.paths,
        added_to(v, x, cid).collections.len() == v.collections.len(),
{
    let w = added_to(v, x, cid);
    let k = collection_position(v.collections, cid);
    lemma_first_match_bounds(ids_of(v.collections), equal_to(cid));
    assert(ids_of(v.collections).len() == v.collections.len());
    assert forall|i: int, a: int| #![trigger w.collections[i].paths[a]]
        0 <= i < w.collections.len() && 0 <= a < w.collections[i].paths.len() implies {
            &&& w.paths.contains_key(w.collections[i].paths[a])
            &&& w.mute_paths.contains_key(w.collections[i].paths[a])
            &&& w.solo_paths.contains_key(w.collections[i].paths[a])
        } by {
        let y = w.collections[i].paths[a];
        if k < v.collections.len() && i == k {
            let c = v.collections[k];
            assert(w.collections[i].paths.contains(y));
            lemma_filtered_insert_elements(c.paths, v.paths, filter_of(v.filters, cid), x, y);
            if y != x {
                let b = choose|b: int| 0 <= b < c.paths.len() && c.paths[b] == y;
                assert(v.collections[k].paths[b] == y);
            }
        } else {
            assert(w.collections[i] == v.collections[i]);
        }
    }
}

/// The collections with the first occurrence of `id` taken out of each.
pub open spec fn without_path(cols: Seq<PathCollectionView>, id: u128) -> Seq<PathCollectionView> {
    cols.map_values(|c: PathCollectionView| PathCollectionView { paths: remove_first(c.paths, id), ..c })
}

/// The state after the path `id` is deleted: it leaves every collection,
/// the store and the flags, and the compared paths are worked out again.
pub open spec fn path_deleted(v: PathLogView, id: u128) -> PathLogView {
    visible_updated(PathLogView {
        collections: without_path(v.collections, id),
        mute_paths: v.mute_paths.remove(id),
        solo_paths: v.solo_paths.remove(id),
        paths: v.paths.remove(id),
        ..v
    })
}

/// The state after the collection at position `k` is deleted: it and its
/// paths leave the log, and the compared paths are worked out again.
pub open spec fn collection_deleted(v: PathLogView, k: int) -> PathLogView {
    let c = v.collections[k];
    visible_updated(PathLogView {
        collections: v.collections.remove(k),
        mute_paths: v.mute_paths.remove_keys(c.paths.to_set()),
        solo_paths: v.solo_paths.remove_keys(c.paths.to_set()),
        paths: v.paths.remove_keys(c.paths.to_set()),
        mute_collections: v.mute_collections.remove(c.id),
        solo_collections: v.solo_collections.remove(c.id),
        ..v
    })
}

/// The state after an empty collection with the id `id` is added; it
/// becomes the active one when it is the first.
pub open spec fn collection_created(v: PathLogView, id: u128) -> PathLogView {
    PathLogView {
        collections: v.collections.push(
            PathCollectionView { id, name: DEFAULT_COLLECTION_NAME@, paths: Seq::empty() },
        ),
        active_collection: if v.collections.len() == 0 { Some(id) } else { v.active_collection },
        mute_collections: v.mute_collections.insert(id, false),
        solo_collections: v.solo_collections.insert(id, false),
        selected_paths: v.selected_paths.insert(id, Seq::empty()),
        ..v
    }
}

/// The name a collection gets when it is renamed to `name`: an empty name
/// is replaced.
pub open spec fn given_name(name: Seq<char>) -> Seq<char> {
    if name == ""@ {
        DEFAULT_NAME_FOR_EMPTY@
    } else {
        name
    }
}

/// A list without the first occurrence of an id is the list itself, when it
/// does not hold the id, or the list with that position taken out.
pub proof fn lemma_remove_first_shape(s: Seq<u128>, x: u128)
    ensures
        (remove_first(s, x) == s && !s.contains(x)) || exists|r: int|
            0 <= r < s.len() && s[r] == x && #[trigger] s.remove(r) == remove_first(s, x),
{
    let i = first_match(s, equal_to(x));
    lemma_first_match_bounds(s, equal_to(x));
    if i < s.len() {
        lemma_first_match_found(s, equal_to(x));
        assert(s.remove(i) == remove_first(s, x));
    } else {
        assert forall|j: int| 0 <= j < s.len() implies s[j] != x by {
            if s[j] == x {
                lemma_first_match_le(s, equal_to(x), j);
            }
        }
    }
}

/// Taking the first occurrence of `id` out of every collection, when none
/// lists it twice, leaves it in none of them, and what is left was there
/// before.
pub proof fn lemma_without_path(cols: Seq<PathCollectionView>, id: u128)
    requires
        listed_at_most_once(cols, id),
    ensures
        without_path(cols, id).len() == cols.len(),
        forall|i: int| #![trigger without_path(cols, id)[i]] 0 <= i < cols.len() ==> {
            &&& without_path(cols, id)[i].id == cols[i].id
            &&& without_path(cols, id)[i].name == cols[i].name
        },
        forall|i: int, a: int| #![trigger without_path(cols, id)[i].paths[a]]
            0 <= i < cols.len() && 0 <= a < without_path(cols, id)[i].paths.len() ==> {
                &&& cols[i].paths.contains(without_path(cols, id)[i].paths[a])
                &&& without_path(cols, id)[i].paths[a] != id
            },
{
    let w = without_path(cols, id);
    assert forall|i: int, a: int| #![trigger w[i].paths[a]]
        0 <= i < cols.len() && 0 <= a < w[i].paths.len() implies {
            &&& cols[i].paths.contains(w[i].paths[a])
            &&& w[i].paths[a] != id
        } by {
        let s = cols[i].paths;
        lemma_remove_first_shape(s, id);
        if w[i].paths == s {
            assert(s[a] == w[i].paths[a]);
        } else {
            let r = choose|r: int| 0 <= r < s.len() && s[r] == id && #[trigger] s.remove(r) == remove_first(s, id);
            let b = if a < r { a } else { a + 1 };
            assert(s[b] == w[i].paths[a]);
            assert(once_at_most(s, id));
            if w[i].paths[a] == id {
                if b < r {
                    assert(s[b] == id && s[r] == id);
                } else {
                    assert(s[r] == id && s[b] == id);
                }
            }
        }
    }
}

/// Position `(j, b)` comes before position `(i, a)`.
pub open spec fn earlier(j: int, b: int, i: int, a: int) -> bool {
    j < i || (j == i && b < a)
}

/// The state after a file is loaded: its triggers, paths and
/// collections replace the old ones, every flag is cleared, the current
/// file is forgotten, the compared paths and the recording path carry the
/// given ids, and the compared paths are worked out again.
pub open spec fn loaded(
    v: PathLogView,
    d: CompFileView,
    t0: BoxCollider,
    t1: BoxCollider,
    compared_id: u128,
    recording_id: u128,
) -> PathLogView {
    visible_updated(PathLogView {
        main_triggers: [Some(t0), Some(t1)],
        paths: d.paths,
        collections: d.collections,
        current_file: None,
        mute_paths: Map::new(|x: u128| in_some_collection(d.collections, x), |x: u128| false),
        solo_paths: Map::new(|x: u128| in_some_collection(d.collections, x), |x: u128| false),
        mute_collections: Map::new(|x: u128| has_collection(d.collections, x), |x: u128| false),
        solo_collections: Map::new(|x: u128| has_collection(d.collections, x), |x: u128| false),
        selected_paths: Map::new(|x: u128| has_collection(d.collections, x), |x: u128| Seq::<u128>::empty()),
        compared: PathCollectionView { id: compared_id, ..v.compared },
        recording_path: PathView { id: recording_id, ..v.recording_path },
        ..v
    })
}

/// Whether the list holds the id at most once.
fn holds_at_most_once(s: &Vec<u128>, id: u128) -> (r: bool)
    ensures
        r == once_at_most(s@, id),
{
    let mut seen = false;
    let mut a: usize = 0;
    while a < s.len()
        invariant
            0 <= a <= s@.len(),
            seen == exists|b: int| 0 <= b < a && s@[b] == id,
            forall|b: int, c: int| 0 <= b < c < a && #[trigger] s@[b] == id ==> #[trigger] s@[c] != id,
        decreases s.len() - a,
    {
        if s[a] == id {
            if seen {
                proof {
                    let b = choose|b: int| 0 <= b < a && s@[b] == id;
                    assert(s@[b] == id && s@[a as int] == id);
                }
                return false;
            }
            seen = true;
            assert(s@[a as int] == id);
        }
        a = a + 1;
    }
    true
}

/// Whether every path listed in a collection is stored.
fn entries_all_stored(paths: &HashMap<u128, Path>, cols: &Vec<PathCollection>) -> (r: bool)
    ensures
        r == entries_stored(collection_views(cols@), path_views(paths@)),
{
    let ghost cv = collection_views(cols@);
    let ghost pv = path_views(paths@);
    let mut i: usize = 0;
    while i < cols.len()
        invariant
            0 <= i <= cols.len(),
            cv == collection_views(cols@),
            pv == path_views(paths@),
            forall|j: int, a: int| #![trigger cv[j].paths[a]]
                0 <= j < i && 0 <= a < cv[j].paths.len() ==> pv.contains_key(cv[j].paths[a]),
        decreases cols.len() - i,
    {
        let ps = cols[i].paths();
        assert(ps@ == cv[i as int].paths);
        let mut a: usize = 0;
        while a < ps.len()
            invariant
                0 <= i < cols.len(),
                0 <= a <= ps@.len(),
                cv == collection_views(cols@),
                pv == path_views(paths@),
                ps@ == cv[i as int].paths,
                forall|j: int, b: int| #![trigger cv[j].paths[b]]
                    0 <= j < i && 0 <= b < cv[j].paths.len() ==> pv.contains_key(cv[j].paths[b]),
                forall|b: int| 0 <= b < a ==> pv.contains_key(#[trigger] cv[i as int].paths[b]),
            decreases ps.len() - a,
        {
            if paths.get(&ps[a]).is_none() {
                assert(!pv.contains_key(cv[i as int].paths[a as int]));
                return false;
            }
            a = a + 1;
        }
        i = i + 1;
    }
    true
}

/// Some position before `(i, a)` lists the path `x`.
pub open spec fn listed_before(cols: Seq<PathCollectionView>, i: int, a: int, x: u128) -> bool {
    exists|j: int, b: int| 0 <= j <= i && j < cols.len() && 0 <= b < cols[j].paths.len() && earlier(j, b, i, a) && #[trigger] cols[j].paths[b] == x
}

/// Some collection before position `i` has the id `x`.
pub open spec fn id_before(cols: Seq<PathCollectionView>, i: int, x: u128) -> bool {
    exists|j: int| 0 <= j < i && #[trigger] cols[j].id == x
}

/// The state after `reset` drops a running recording.
pub open spec fn reset_state(v: PathLogView) -> PathLogView {
    if v.recording {
        PathLogView {
            recording: false,
            started: false,
            recording_path: PathView { times: Seq::empty(), segments: Seq::empty(), ..v.recording_path },
            ..v
        }
    } else {
        v
    }
}

/// The state after `start` starts a recording.
pub open spec fn start_state(v: PathLogView) -> PathLogView {
    if v.recording {
        v
    } else {
        PathLogView { recording: true, started: true, ..v }
    }
}

/// Both main triggers are set.
pub open spec fn triggers_set(v: PathLogView) -> bool {
    v.main_triggers[0] is Some && v.main_triggers[1] is Some
}

/// The state after the trigger checks of a frame: entering the start
/// trigger primes the start (and, with autoreset, drops the running
/// recording); leaving it while primed starts a recording.
pub open spec fn primed_state(v: PathLogView, in_trigger: [bool; 2]) -> PathLogView {
    if triggers_set(v) && in_trigger[0] && !v.primed {
        PathLogView { primed: true, ..(if v.autoreset { reset_state(v) } else { v }) }
    } else if triggers_set(v) && !in_trigger[0] && v.primed {
        start_state(PathLogView { primed: false, ..v })
    } else {
        v
    }
}

/// Whether the frame ends the recording: it reaches the finish trigger.
pub open spec fn finishes(v: PathLogView, in_trigger: [bool; 2]) -> bool {
    triggers_set(v) && in_trigger[1] && primed_state(v, in_trigger).recording
}

/// The state after a frame in which the player stands at `center`: the
/// trigger checks, the stop at the finish trigger (its last segment taking
/// `t` milliseconds, the new recording path getting the id `next_id`), and,
/// while recording and not paused, the node added to the recording path.
pub open spec fn after_update(v: PathLogView, in_trigger: [bool; 2], center: Node, t: u64, next_id: u128) -> PathLogView {
    let s1 = primed_state(v, in_trigger);
    let s2 = if finishes(v, in_trigger) { stopped(s1, t, next_id) } else { s1 };
    if !s2.recording || s2.paused {
        s2
    } else {
        PathLogView {
            recording_path: PathView {
                segments: segments_after_add(s2.recording_path.segments, s2.recording_path.times, center),
                ..s2.recording_path
            },
            ..s2
        }
    }
}

/// Whether some flag of the map is set.
fn any_flag_set(m: &HashMap<u128, bool>) -> (r: bool)
    ensures
        r == any_set(m@),
{
    let mut found = false;
    let ghost vals = m@.values();
    for v in it: m.values()
        invariant
            vals == m@.values(),
            it.seq().unref().to_set() == vals,
            found == it.seq().unref().take(it.index()).contains(true),
            it.seq().unref().take(it.seq().len() as int) == it.seq().unref(),
    {
        if *v {
            found = true;
        }
    }
    assert(found == vals.contains(true));
    proof {
        if found {
            assert(m@.values().contains(true));
        } else {
            assert forall|k: u128| m@.contains_key(k) implies !#[trigger] m@[k] by {
                assert(m@.values().contains(m@[k]));
            }
        }
    }
    found
}

impl PathLog {
    /// Whether the log keeps its invariant.
    pub open spec fn wf(&self) -> bool {
        well_formed(self@)
    }

    /// A log with no paths, no collections and no triggers, not recording.
    pub fn init() -> (r: PathLog)
        ensures
            r.wf(),
            !r@.paused && !r@.primed && !r@.recording && !r@.direct && !r@.autosave && r@.autoreset,
            r@.current_file is None,
            !r@.started,
            r@.latest_time == 0,
            r@.recording_path.times.len() == 0,
            r@.recording_path.segments.len() == 0,
            r@.active_collection is None,
            r@.filters == Map::<u128, HighPassFilter>::empty(),
            r@.main_triggers == [None::<BoxCollider>, None],
            r@.checkpoint_triggers.len() == 0,
            r@.paths == Map::<u128, PathView>::empty(),
            r@.collections.len() == 0,
            r@.mute_paths == Map::<u128, bool>::empty(),
            r@.solo_paths == Map::<u128, bool>::empty(),
            r@.mute_collections == Map::<u128, bool>::empty(),
            r@.solo_collections == Map::<u128, bool>::empty(),
            r@.selected_paths == Map::<u128, Seq<u128>>::empty(),
            r@.mode == Comparison::All,
            r@.compared.name == "compared"@,
            r@.compared.paths.len() == 0,
            r@.ignored.len() == 0,
    {
        let r = PathLog {
            paused: false,
            primed: false,
            recording: false,
            direct: false,
            autosave: false,
            autoreset: true,
            current_file: None,
            recording_start: None,
            latest_path: crate::ids::random_id(),
            latest_time: 0,
            recording_path: Path::new(),
            active_collection: None,
            filters: HashMap::new(),
            main_triggers: [None, None],
            checkpoint_triggers: Vec::new(),
            paths: HashMap::new(),
            path_collections: Vec::new(),
            mute_paths: HashMap::new(),
            solo_paths: HashMap::new(),
            mute_collections: HashMap::new(),
            solo_collections: HashMap::new(),
            selected_paths: HashMap::new(),
            comparison_mode: Comparison::All,
            compared_paths: PathCollection::new(String::from_str("compared")),
            ignored_paths: Vec::new(),
        };
        assert(r@.paths =~= Map::<u128, PathView>::empty());
        assert(r@.selected_paths =~= Map::<u128, Seq<u128>>::empty());
        r
    }

    /// The paths that are compared, in order.
    pub fn compared_paths(&self) -> (r: &PathCollection)
        ensures
            r@ == self@.compared,
    {
        &self.compared_paths
    }

    /// The paths set aside in each collection when comparing by the middle path.
    pub fn ignored_paths(&self) -> (r: &Vec<Vec<u128>>)
        ensures
            id_seq_views(r@) == self@.ignored,
    {
        &self.ignored_paths
    }

    /// Which paths of each collection are compared.
    pub fn comparison_mode(&self) -> (r: Comparison)
        ensures
            r == self@.mode,
    {
        self.comparison_mode
    }

    /// The stored path with the given id.
    pub fn path(&self, path_id: &u128) -> (r: Option<&Path>)
        ensures
            match r {
                Some(p) => self@.paths.contains_key(*path_id) && p@ == self@.paths[*path_id],
                None => !self@.paths.contains_key(*path_id),
            },
    {
        self.paths.get(path_id)
    }

    /// The collections, in order.
    pub fn collections(&self) -> (r: &Vec<PathCollection>)
        ensures
            collection_views(r@) == self@.collections,
    {
        &self.path_collections
    }

    /// The position of the first collection with the given id.
    fn find_collection(&self, collection_id: u128) -> (r: Option<usize>)
        ensures
            match r {
                Some(k) => k == collection_position(self@.collections, collection_id)
                    && k < self@.collections.len(),
                None => collection_position(self@.collections, collection_id) == self@.collections.len(),
            },
    {
        let ghost ids = ids_of(self@.collections);
        let ghost pred = equal_to(collection_id);
        let mut i: usize = 0;
        while i < self.path_collections.len()
            invariant
                0 <= i <= self.path_collections.len(),
                ids == ids_of(self@.collections),
                ids.len() == self.path_collections@.len(),
                pred == equal_to(collection_id),
                forall|j: int| 0 <= j < i ==> !pred(#[trigger] ids[j]),
            decreases self.path_collections.len() - i,
        {
            assert(ids[i as int] == self.path_collections@[i as int]@.id);
            if self.path_collections[i].id() == collection_id {
                proof { lemma_first_match(ids, pred, i as int); }
                return Some(i);
            }
            i = i + 1;
        }
        proof { lemma_first_match(ids, pred, i as int); }
        None
    }

    /// Whether the path can be deleted: no collection lists it twice.
    pub fn can_delete_path(&self, path_id: u128) -> (r: bool)
        ensures
            r == listed_at_most_once(self@.collections, path_id),
    {
        let mut i: usize = 0;
        while i < self.path_collections.len()
            invariant
                0 <= i <= self.path_collections.len(),
                forall|j: int| 0 <= j < i ==> once_at_most(#[trigger] self@.collections[j].paths, path_id),
            decreases self.path_collections.len() - i,
        {
            assert(self.path_collections@[i as int]@ == self@.collections[i as int]);
            if !holds_at_most_once(self.path_collections[i].paths(), path_id) {
                return false;
            }
            i = i + 1;
        }
        true
    }

    /// Whether the collection can be deleted: when some collection has the
    /// id, no other collection has it or lists one of its paths.
    pub fn can_delete_collection(&self, collection_id: u128) -> (r: bool)
        ensures
            r == (collection_position(self@.collections, collection_id) < self@.collections.len() ==> deletable_alone(
                self@.collections,
                collection_position(self@.collections, collection_id),
            )),
    {
        let k = match self.find_collection(collection_id) {
            Some(k) => k,
            None => return true,
        };
        let ghost cols = self@.collections;
        let gone = self.path_collections[k].paths();
        assert(gone@ == cols[k as int].paths);
        proof {
            lemma_collection_at(cols, collection_id);
        }
        let mut i: usize = 0;
        while i < self.path_collections.len()
            invariant
                0 <= k < self.path_collections.len(),
                k == collection_position(cols, collection_id),
                cols[k as int].id == collection_id,
                0 <= i <= self.path_collections.len(),
                cols == self@.collections,
                gone@ == cols[k as int].paths,
                forall|j: int| 0 <= j < i && j != k ==> #[trigger] cols[j].id != cols[k as int].id,
                forall|j: int, a: int| 0 <= j < i && j != k && 0 <= a < cols[j].paths.len()
                    ==> !cols[k as int].paths.contains(#[trigger] cols[j].paths[a]),
            decreases self.path_collections.len() - i,
        {
            assert(self.path_collections@[i as int]@ == cols[i as int]);
            if i != k {
                if self.path_collections[i].id() == collection_id {
                    return false;
                }
                let ps = self.path_collections[i].paths();
                let mut a: usize = 0;
                while a < ps.len()
                    invariant
                        0 <= k < cols.len(),
                        k == collection_position(cols, collection_id),
                        cols == self@.collections,
                        0 <= i < cols.len(),
                        i != k,
                        0 <= a <= ps@.len(),
                        ps@ == cols[i as int].paths,
                        gone@ == cols[k as int].paths,
                        forall|b: int| 0 <= b < a ==> !cols[k as int].paths.contains(#[trigger] cols[i as int].paths[b]),
                    decreases ps.len() - a,
                {
                    if contains_id(gone, ps[a]) {
                        assert(cols[k as int].paths.contains(cols[i as int].paths[a as int]));
                        return false;
                    }
                    a = a + 1;
                }
            }
            i = i + 1;
        }
        true
    }

    /// Offers the stored path `path_id` to the collection `collection_id`,
    /// or to the compared paths when no collection has that id.
    fn add_path_to_collection(&mut self, path_id: u128, collection_id: u128)
        requires
            old(self)@.paths.contains_key(path_id),
            entries_stored(old(self)@.collections, old(self)@.paths),
            compared_stored(old(self)@),
        ensures
            final(self)@ == added_to(old(self)@, path_id, collection_id),
    {
        let filter = match self.filters.get(&collection_id) {
            Some(f) => Some(*f),
            None => None,
        };
        let new_time = self.paths.get(&path_id).unwrap().time();
        match self.find_collection(collection_id) {
            Some(k) => {
                self.mute_paths.insert(path_id, false);
                self.solo_paths.insert(path_id, false);
                let pos = find_insert_position(&self.paths, filter, self.path_collections[k].paths(), new_time);
                if let Some(p) = pos {
                    let mut c = self.path_collections[k].clone_collection();
                    c.insert(p, path_id);
                    self.path_collections.set(k, c);
                    assert(self@.collections =~= old(self)@.collections.update(
                        k as int,
                        PathCollectionView {
                            paths: filtered_insert(old(self)@.collections[k as int].paths, old(self)@.paths, filter, path_id),
                            ..old(self)@.collections[k as int]
                        },
                    ));
                }
                assert(self@ =~= added_to(old(self)@, path_id, collection_id));
            },
            None => {
                if collection_id == self.compared_paths.id() {
                    let pos = find_insert_position(&self.paths, filter, self.compared_paths.paths(), new_time);
                    if let Some(p) = pos {
                        self.compared_paths.insert(p, path_id);
                    }
                    assert(self@ =~= added_to(old(self)@, path_id, collection_id));
                }
            },
        }
    }

    /// Works out again which paths are compared: every shown path of every
    /// shown, non-empty collection, the first time it is listed, offered in
    /// order to the compared paths. Every collection gets an empty list of
    /// set-aside paths, and no flag changes.
    pub fn update_visible(&mut self)
        requires
            structure_ok(old(self)@),
        ensures
            final(self).wf(),
            final(self)@ == visible_updated(old(self)@),
            final(self)@.collections == old(self)@.collections,
            final(self)@.paths == old(self)@.paths,
            final(self)@.mute_paths == old(self)@.mute_paths,
            final(self)@.solo_paths == old(self)@.solo_paths,
            final(self)@.mute_collections == old(self)@.mute_collections,
            final(self)@.solo_collections == old(self)@.solo_collections,
    {
        let ghost v = old(self)@;
        self.compared_paths.clear_paths();
        self.ignored_paths.clear();
        let mut compared_paths: Vec<u128> = Vec::new();
        let no_solo_collection = !any_flag_set(&self.solo_collections);
        let no_solo_path = !any_flag_set(&self.solo_paths);
        let mut i: usize = 0;
        while i < self.path_collections.len()
            invariant
                structure_ok(v),
                0 <= i <= self.path_collections.len(),
                self@ == (PathLogView {
                    compared: PathCollectionView { paths: Seq::empty(), ..v.compared },
                    ignored: Seq::new(i as nat, |k: int| Seq::<u128>::empty()),
                    ..v
                }),
                no_solo_collection == !any_set(v.solo_collections),
                no_solo_path == !any_set(v.solo_paths),
                compared_paths@ == visible_prefix(v, i as int),
            decreases self.path_collections.len() - i,
        {
            let empty: Vec<u128> = Vec::new();
            let ghost prev_ignored = self.ignored_paths@;
            assert(id_seq_views(prev_ignored) == Seq::new(i as nat, |k: int| Seq::<u128>::empty()));
            self.ignored_paths.push(empty);
            proof {
                assert(self.ignored_paths@ == prev_ignored.push(empty));
                assert forall|k: int| 0 <= k < i + 1 implies #[trigger] id_seq_views(self.ignored_paths@)[k]
                    == Seq::<u128>::empty() by {
                    if k < i {
                        assert(id_seq_views(prev_ignored)[k] == Seq::<u128>::empty());
                        assert(self.ignored_paths@[k] == prev_ignored[k]);
                    }
                }
                assert(id_seq_views(self.ignored_paths@) =~= Seq::new((i + 1) as nat, |k: int| Seq::<u128>::empty()));
            }
            let collection = &self.path_collections[i];
            assert(collection@ == v.collections[i as int]);
            if collection.paths().len() == 0 {
                i = i + 1;
                continue;
            }
            let collection_id = collection.id();
            let mut visible = no_solo_collection;
            if *self.solo_collections.get(&collection_id).unwrap() {
                visible = true;
            }
            if *self.mute_collections.get(&collection_id).unwrap() {
                visible = false;
            }
            if !visible {
                i = i + 1;
                continue;
            }
            let ghost before = compared_paths@;
            let ghost c = v.collections[i as int];
            let mut j: usize = 0;
            while j < collection.paths().len()
                invariant
                    structure_ok(v),
                    0 <= i < v.collections.len(),
                    c == v.collections[i as int],
                    collection@ == c,
                    before == visible_prefix(v, i as int),
                    0 <= j <= c.paths.len(),
                    no_solo_path == !any_set(v.solo_paths),
                    self@.solo_paths == v.solo_paths,
                    self@.mute_paths == v.mute_paths,
                    compared_paths@ == before + shown_paths(c.paths.take(j as int), before, v.solo_paths, v.mute_paths),
                decreases c.paths.len() - j,
            {
                let path_id = collection.paths()[j];
                assert(c.paths.take(j + 1).drop_last() =~= c.paths.take(j as int));
                assert(c.paths.take(j + 1).last() == path_id);
                if contains_id(&compared_paths, path_id) {
                    j = j + 1;
                    continue;
                }
                proof {
                    assert(v.collections[i as int].paths[j as int] == path_id);
                }
                let mut visible = no_solo_path;
                if *self.solo_paths.get(&path_id).unwrap() {
                    visible = true;
                }
                if *self.mute_paths.get(&path_id).unwrap() {
                    visible = false;
                }
                if !visible {
                    j = j + 1;
                    continue;
                }
                compared_paths.push(path_id);
                j = j + 1;
            }
            assert(c.paths.take(c.paths.len() as int) =~= c.paths);
            i = i + 1;
        }
        assert(self@ =~= PathLogView {
            compared: PathCollectionView { paths: Seq::empty(), ..v.compared },
            ignored: Seq::new(v.collections.len(), |i: int| Seq::<u128>::empty()),
            ..v
        });
        let compared_id = self.compared_paths.id();
        let ghost cleared = self@;
        proof {
            lemma_no_collection_position(v.collections, compared_id);
        }
        let mut k: usize = 0;
        while k < compared_paths.len()
            invariant
                structure_ok(v),
                0 <= k <= compared_paths@.len(),
                compared_paths@ == visible_ids(v),
                compared_id == v.compared.id,
                collection_position(v.collections, compared_id) == v.collections.len(),
                self@ == added_all(cleared, compared_paths@.take(k as int), compared_id),
                self@.collections == v.collections,
                self@.paths == v.paths,
                self@.mute_paths == v.mute_paths,
                self@.solo_paths == v.solo_paths,
                self@.mute_collections == v.mute_collections,
                self@.solo_collections == v.solo_collections,
                self@.compared.id == v.compared.id,
                well_formed(self@),
                compared_stored(self@),
            decreases compared_paths@.len() - k,
        {
            let path_id = compared_paths[k];
            proof {
                assert(compared_paths@.contains(path_id));
                lemma_visible_prefix_elements(v, v.collections.len() as int, path_id);
                let ci = choose|ci: int| 0 <= ci < v.collections.len() && #[trigger] v.collections[ci].paths.contains(path_id);
                let a = choose|a: int| 0 <= a < v.collections[ci].paths.len() && v.collections[ci].paths[a] == path_id;
                assert(v.paths.contains_key(v.collections[ci].paths[a]));
            }
            let ghost prev = self@;
            self.add_path_to_collection(path_id, compared_id);
            proof {
                assert(compared_paths@.take(k + 1).drop_last() =~= compared_paths@.take(k as int));
                assert forall|a: int| 0 <= a < self@.compared.paths.len() implies self@.paths.contains_key(
                    #[trigger] self@.compared.paths[a],
                ) by {
                    let x = self@.compared.paths[a];
                    assert(self@.compared.paths.contains(x));
                    lemma_filtered_insert_elements(
                        prev.compared.paths,
                        prev.paths,
                        filter_of(prev.filters, compared_id),
                        path_id,
                        x,
                    );
                    if x != path_id {
                        let b = choose|b: int| 0 <= b < prev.compared.paths.len() && prev.compared.paths[b] == x;
                        assert(prev.paths.contains_key(prev.compared.paths[b]));
                    }
                }
            }
            k = k + 1;
        }
        assert(compared_paths@.take(k as int) =~= compared_paths@);
    }

    /// Whether every collection is empty.
    pub fn is_empty(&self) -> (r: bool)
        ensures
            r == all_empty(self@.collections),
    {
        let mut empty = true;
        let mut i: usize = 0;
        while i < self.path_collections.len()
            invariant
                0 <= i <= self.path_collections.len(),
                empty == forall|j: int| 0 <= j < i ==> (#[trigger] self@.collections[j]).paths.len() == 0,
            decreases self.path_collections.len() - i,
        {
            assert(self.path_collections@[i as int]@ == self@.collections[i as int]);
            empty = empty && self.path_collections[i].paths().len() == 0;
            i = i + 1;
        }
        empty
    }

    /// Every path id listed in a collection.
    fn all_entries(&self) -> (r: Vec<u128>)
        ensures
            forall|i: int, a: int| #![trigger self@.collections[i].paths[a]]
                0 <= i < self@.collections.len() && 0 <= a < self@.collections[i].paths.len()
                    ==> r@.contains(self@.collections[i].paths[a]),
            forall|x: u128| r@.contains(x) ==> in_some_collection(self@.collections, x),
    {
        let mut r: Vec<u128> = Vec::new();
        let mut i: usize = 0;
        while i < self.path_collections.len()
            invariant
                0 <= i <= self.path_collections.len(),
                forall|k: int, a: int| #![trigger self@.collections[k].paths[a]]
                    0 <= k < i && 0 <= a < self@.collections[k].paths.len()
                        ==> r@.contains(self@.collections[k].paths[a]),
                forall|x: u128| r@.contains(x) ==> in_some_collection(self@.collections, x),
            decreases self.path_collections.len() - i,
        {
            let ps = self.path_collections[i].paths();
            assert(ps@ == self@.collections[i as int].paths);
            let mut j: usize = 0;
            while j < ps.len()
                invariant
                    0 <= i < self.path_collections.len(),
                    ps@ == self@.collections[i as int].paths,
                    0 <= j <= ps.len(),
                    forall|k: int, a: int| #![trigger self@.collections[k].paths[a]]
                        0 <= k < i && 0 <= a < self@.collections[k].paths.len()
                            ==> r@.contains(self@.collections[k].paths[a]),
                    forall|a: int| 0 <= a < j ==> r@.contains(#[trigger] ps@[a]),
                    forall|x: u128| r@.contains(x) ==> in_some_collection(self@.collections, x),
                decreases ps.len() - j,
            {
                let ghost before = r@;
                r.push(ps[j]);
                assert forall|x: u128| r@.contains(x) implies in_some_collection(self@.collections, x) by {
                    if x == ps@[j as int] {
                        assert(self@.collections[i as int].paths.contains(x));
                    } else {
                        let q = choose|q: int| 0 <= q < r@.len() && r@[q] == x;
                        assert(before[q] == x);
                        assert(before.contains(x));
                    }
                }
                assert(r@[r@.len() - 1] == ps@[j as int]);
                assert forall|x: u128| before.contains(x) implies r@.contains(x) by {
                    let q = choose|q: int| 0 <= q < before.len() && before[q] == x;
                    assert(r@[q] == x);
                }
                j = j + 1;
            }
            i = i + 1;
        }
        r
    }

    /// Takes a snapshot of the comparison for writing to `file_path`, and
    /// remembers that file. Without both main triggers nothing happens.
    pub fn save_comparison(&mut self, file_path: String) -> (r: Option<SaveRequest>)
        ensures
            old(self)@.main_triggers[0] is None || old(self)@.main_triggers[1] is None ==> {
                &&& r is None
                &&& final(self)@ == old(self)@
            },
            old(self)@.main_triggers[0] is Some && old(self)@.main_triggers[1] is Some ==> {
                &&& r matches Some(req) && req.file_path@ == file_path@ && saved_file(old(self)@, req.data@)
                &&& final(self)@ == (PathLogView { current_file: Some(file_path@), ..old(self)@ })
            },
    {
        let (t0, t1) = match (self.main_triggers[0], self.main_triggers[1]) {
            (Some(t0), Some(t1)) => (t0, t1),
            _ => return None,
        };
        let data = CompFile::new([t0, t1], self.paths.clone(), clone_collections(&self.path_collections));
        let request = SaveRequest { file_path: file_path.clone(), data };
        self.current_file = Some(file_path);
        Some(request)
    }

    /// Stops the running recording: it is closed with the time of its last
    /// segment and becomes the latest path; unless recordings are direct it
    /// is stored and offered to the active collection, and, when
    /// `autosave_due`, a snapshot for the current file is returned. A new
    /// empty recording path takes its place and the compared paths are
    /// worked out again.
    pub fn stop(&mut self) -> (r: Option<SaveRequest>)
        requires
            old(self).wf(),
        ensures
            final(self).wf(),
            !old(self)@.recording ==> r is None && final(self)@ == old(self)@,
            old(self)@.recording ==> exists|t: u64, next_id: u128| {
                &&& final(self)@ == #[trigger] stopped(old(self)@, t, next_id)
                &&& next_id != old(self)@.recording_path.id
                &&& (r is Some) == autosave_due(old(self)@)
                &&& r matches Some(req) ==> {
                    &&& old(self)@.current_file == Some(req.file_path@)
                    &&& saved_file(stored_recording(old(self)@, t), req.data@)
                }
            },
    {
        if !self.recording {
            return None;
        }
        let ghost v = self@;
        self.recording = false;
        let time_recorded = match &self.recording_start {
            Some(start) => elapsed_millis(start),
            None => {
                assert(false);
                0
            },
        };
        self.recording_path.end_path(time_recorded);
        self.latest_time = self.recording_path.time();
        assert(self@ =~= PathLogView {
            recording: false,
            latest_time: total_time(finished_path(v, time_recorded).times),
            recording_path: finished_path(v, time_recorded),
            ..v
        });
        let mut request: Option<SaveRequest> = None;
        if self.direct {
        } else {
            let empty = self.is_empty();
            if let Some(active) = self.active_collection {
                if let Some(k) = self.find_collection(active) {
                    let ghost before = self@;
                    self.paths.insert(self.recording_path.id(), self.recording_path.clone_path());
                    proof {
                        assert(path_views(self.paths@) =~= before.paths.insert(
                            before.recording_path.id,
                            before.recording_path,
                        ));
                        assert(self@ =~= PathLogView {
                            paths: before.paths.insert(before.recording_path.id, before.recording_path),
                            ..before
                        });
                        lemma_first_match_found(ids_of(v.collections), equal_to(active));
                        assert(ids_of(v.collections)[k as int] == v.collections[k as int].id);
                        assert(v.collections[k as int].id == active);
                    }
                    let ghost inserted = self@;
                    self.add_path_to_collection(self.recording_path.id(), active);
                    proof {
                        lemma_offer_keeps_flagged(inserted, inserted.recording_path.id, active);
                    }
                } else {
                    proof {
                        if has_collection(v.collections, active) {
                            let q = choose|q: int| 0 <= q < v.collections.len() && #[trigger] v.collections[q].id == active;
                            let ids = ids_of(v.collections);
                            lemma_first_match_bounds(ids, equal_to(active));
                            assert(ids[q] == active);
                            assert forall|j: int| 0 <= j < ids.len() implies !equal_to(active)(#[trigger] ids[j]) by {
                                if ids[j] == active {
                                    // `first_match` would stop at the first such position.
                                    assert(first_match(ids, equal_to(active)) <= j) by {
                                        lemma_first_match_le(ids, equal_to(active), j);
                                    }
                                }
                            }
                        }
                    }
                }
            }
            assert(self@ == stored_recording(v, time_recorded));
            if self.autosave && !empty {
                match &self.current_file {
                    Some(file_path) => {
                        let fp = file_path.clone();
                        let ghost before_save = self@;
                        request = self.save_comparison(fp);
                        assert(self@ =~= before_save);
                    },
                    None => {},
                }
            }
        }
        assert(self@ == stored_recording(v, time_recorded));
        let ghost s = self@;
        let mut used = self.all_entries();
        let ghost listed = used@;
        used.push(self.recording_path.id());
        assert(self@ == s);
        self.latest_path = self.recording_path.id();
        let next_id = fresh_id(&used);
        self.recording_path = Path::with_id(next_id);
        self.recording_start = None;
        let ghost pre = PathLogView {
            latest_path: v.recording_path.id,
            recording_path: PathView { id: next_id, times: Seq::empty(), segments: Seq::empty() },
            started: false,
            ..s
        };
        proof {
            assert(self@ =~= pre);
            let cols = s.collections;
            assert(used@ == listed.push(v.recording_path.id));
            assert forall|i: int| 0 <= i < cols.len() implies !(#[trigger] cols[i]).paths.contains(next_id) by {
                if cols[i].paths.contains(next_id) {
                    let a = choose|a: int| 0 <= a < cols[i].paths.len() && cols[i].paths[a] == next_id;
                    assert(listed.contains(cols[i].paths[a]));
                    let q = choose|q: int| 0 <= q < listed.len() && listed[q] == next_id;
                    assert(used@[q] == next_id);
                }
            }
            assert(next_id != v.recording_path.id) by {
                assert(used@[used@.len() - 1] == v.recording_path.id);
            }
        }
        assert(!has_collection(self@.collections, self@.compared.id));
        assert(!in_some_collection(self@.collections, self@.recording_path.id));
        assert(compared_stored(self@));
        self.update_visible();
        assert(self@ == stopped(v, time_recorded, next_id));
        request
    }

    /// The first collection with the given id.
    pub fn get_collection(&self, collection_id: u128) -> (r: Option<&PathCollection>)
        ensures
            match r {
                Some(c) => {
                    let k = collection_position(self@.collections, collection_id);
                    k < self@.collections.len() && c@ == self@.collections[k]
                },
                None => !has_collection(self@.collections, collection_id),
            },
    {
        match self.find_collection(collection_id) {
            Some(k) => Some(&self.path_collections[k]),
            None => {
                proof {
                    if has_collection(self@.collections, collection_id) {
                        let q = choose|q: int| 0 <= q < self@.collections.len() && #[trigger] self@.collections[q].id == collection_id;
                        assert(ids_of(self@.collections)[q] == collection_id);
                        lemma_first_match_le(ids_of(self@.collections), equal_to(collection_id), q);
                    }
                }
                None
            },
        }
    }

    /// Deletes a path: its first place in each collection goes, it leaves
    /// the store and the flags, and the compared paths are worked out again.
    /// No collection may list it twice: the second place would be left
    /// naming a path that is no longer stored.
    pub fn delete_path(&mut self, path_id: u128)
        requires
            old(self).wf(),
            listed_at_most_once(old(self)@.collections, path_id),
        ensures
            final(self).wf(),
            final(self)@ == path_deleted(old(self)@, path_id),
            !in_some_collection(final(self)@.collections, path_id),
            !final(self)@.paths.contains_key(path_id),
    {
        let ghost v = self@;
        let ghost w = without_path(v.collections, path_id);
        let mut i: usize = 0;
        while i < self.path_collections.len()
            invariant
                0 <= i <= self.path_collections.len(),
                self.path_collections@.len() == v.collections.len(),
                w == without_path(v.collections, path_id),
                self@ == (PathLogView { collections: w.take(i as int) + v.collections.skip(i as int), ..v }),
            decreases self.path_collections.len() - i,
        {
            assert(self@.collections[i as int] == v.collections[i as int]);
            assert(self.path_collections@[i as int]@ == self@.collections[i as int]);
            let mut c = self.path_collections[i].clone_collection();
            c.remove(path_id);
            assert(c@ =~= w[i as int]);
            let ghost before = self.path_collections@;
            self.path_collections.set(i, c);
            assert(collection_views(self.path_collections@) =~= collection_views(before).update(i as int, w[i as int]));
            i = i + 1;
            assert(self@.collections =~= w.take(i as int) + v.collections.skip(i as int));
            assert(self@ =~= PathLogView { collections: w.take(i as int) + v.collections.skip(i as int), ..v });
        }
        self.mute_paths.remove(&path_id);
        self.solo_paths.remove(&path_id);
        self.paths.remove(&path_id);
        proof {
            assert(w.take(i as int) + v.collections.skip(i as int) =~= w);
            assert(path_views(self.paths@) =~= v.paths.remove(path_id));
            assert(self@ =~= PathLogView {
                collections: w,
                mute_paths: v.mute_paths.remove(path_id),
                solo_paths: v.solo_paths.remove(path_id),
                paths: v.paths.remove(path_id),
                ..v
            });
            lemma_without_path(v.collections, path_id);
            assert forall|i: int, a: int| #![trigger w[i].paths[a]]
                0 <= i < w.len() && 0 <= a < w[i].paths.len() implies {
                    &&& self@.paths.contains_key(w[i].paths[a])
                    &&& self@.mute_paths.contains_key(w[i].paths[a])
                    &&& self@.solo_paths.contains_key(w[i].paths[a])
                } by {
                let y = w[i].paths[a];
                let b = choose|b: int| 0 <= b < v.collections[i].paths.len() && v.collections[i].paths[b] == y;
                assert(v.paths.contains_key(v.collections[i].paths[b]));
            }
            assert forall|i: int| #![trigger w[i]] 0 <= i < w.len() implies {
                &&& self@.mute_collections.contains_key(w[i].id)
                &&& self@.solo_collections.contains_key(w[i].id)
            } by {
                assert(v.mute_collections.contains_key(v.collections[i].id));
            }
            assert(!has_collection(w, v.compared.id)) by {
                if has_collection(w, v.compared.id) {
                    let q = choose|q: int| 0 <= q < w.len() && #[trigger] w[q].id == v.compared.id;
                    assert(v.collections[q].id == v.compared.id);
                }
            }
            assert(!in_some_collection(w, v.recording_path.id)) by {
                if in_some_collection(w, v.recording_path.id) {
                    let q = choose|q: int| 0 <= q < w.len() && #[trigger] w[q].paths.contains(v.recording_path.id);
                    let a = choose|a: int| 0 <= a < w[q].paths.len() && w[q].paths[a] == v.recording_path.id;
                    assert(v.collections[q].paths.contains(w[q].paths[a]));
                }
            }
        }
        self.update_visible();
        proof {
            if in_some_collection(w, path_id) {
                let q = choose|q: int| 0 <= q < w.len() && #[trigger] w[q].paths.contains(path_id);
                let a = choose|a: int| 0 <= a < w[q].paths.len() && w[q].paths[a] == path_id;
                assert(w[q].paths[a] != path_id);
            }
        }
    }

    /// Deletes the first collection with the given id, with its paths and
    /// flags; the compared paths are then worked out again. An unknown id
    /// changes nothing. No other collection may have that id or list one of
    /// its paths: its flags, or the paths it lists, would be gone.
    pub fn delete_collection(&mut self, collection_id: u128)
        requires
            old(self).wf(),
            collection_position(old(self)@.collections, collection_id) < old(self)@.collections.len() ==> deletable_alone(
                old(self)@.collections,
                collection_position(old(self)@.collections, collection_id),
            ),
        ensures
            final(self).wf(),
            ({
                let v = old(self)@;
                let k = collection_position(v.collections, collection_id);
                &&& k < v.collections.len() ==> final(self)@ == collection_deleted(v, k)
                &&& k >= v.collections.len() ==> final(self)@ == v
            }),
    {
        let index = match self.find_collection(collection_id) {
            Some(index) => index,
            None => return,
        };
        let ghost v = self@;
        let ghost c = v.collections[index as int];
        proof {
            lemma_first_match_found(ids_of(v.collections), equal_to(collection_id));
            assert(ids_of(v.collections)[index as int] == c.id);
        }
        assert(self.path_collections@[index as int]@ == c);
        let mut ids: Vec<u128> = Vec::new();
        let mut j: usize = 0;
        let source = self.path_collections[index].paths();
        while j < source.len()
            invariant
                0 <= j <= source@.len(),
                source@ == c.paths,
                ids@ == c.paths.take(j as int),
            decreases source.len() - j,
        {
            ids.push(source[j]);
            j = j + 1;
            assert(ids@ =~= c.paths.take(j as int));
        }
        assert(c.paths.take(j as int) =~= c.paths);
        let mut j: usize = 0;
        while j < ids.len()
            invariant
                0 <= j <= ids@.len(),
                ids@ == c.paths,
                self@ == (PathLogView {
                    mute_paths: v.mute_paths.remove_keys(c.paths.take(j as int).to_set()),
                    solo_paths: v.solo_paths.remove_keys(c.paths.take(j as int).to_set()),
                    paths: v.paths.remove_keys(c.paths.take(j as int).to_set()),
                    ..v
                }),
            decreases ids.len() - j,
        {
            let path_id = ids[j];
            self.mute_paths.remove(&path_id);
            self.solo_paths.remove(&path_id);
            self.paths.remove(&path_id);
            proof {
                let before = c.paths.take(j as int).to_set();
                let after = c.paths.take(j + 1).to_set();
                assert(after =~= before.insert(path_id)) by {
                    assert forall|x: u128| after.contains(x) == before.insert(path_id).contains(x) by {
                        if after.contains(x) && x != path_id {
                            let q = choose|q: int| 0 <= q < j + 1 && #[trigger] c.paths.take(j + 1)[q] == x;
                            assert(c.paths.take(j as int)[q] == x);
                        }
                        if before.contains(x) {
                            let q = choose|q: int| 0 <= q < j && #[trigger] c.paths.take(j as int)[q] == x;
                            assert(c.paths.take(j + 1)[q] == x);
                        }
                        if x == path_id {
                            assert(c.paths.take(j + 1)[j as int] == x);
                        }
                    }
                }
                assert(v.mute_paths.remove_keys(after) =~= v.mute_paths.remove_keys(before).remove(path_id));
                assert(v.solo_paths.remove_keys(after) =~= v.solo_paths.remove_keys(before).remove(path_id));
                assert(v.paths.remove_keys(after) =~= v.paths.remove_keys(before).remove(path_id));
                assert(path_views(self.paths@) =~= v.paths.remove_keys(after));
            }
            j = j + 1;
            assert(self@ =~= PathLogView {
                mute_paths: v.mute_paths.remove_keys(c.paths.take(j as int).to_set()),
                solo_paths: v.solo_paths.remove_keys(c.paths.take(j as int).to_set()),
                paths: v.paths.remove_keys(c.paths.take(j as int).to_set()),
                ..v
            });
        }
        assert(c.paths.take(j as int) =~= c.paths);
        self.mute_collections.remove(&collection_id);
        self.solo_collections.remove(&collection_id);
        self.path_collections.remove(index);
        proof {
            let k = index as int;
            let n = v.collections.remove(k);
            let gone = c.paths.to_set();
            assert(collection_views(self.path_collections@) =~= n);
            let mid = PathLogView {
                collections: n,
                mute_paths: v.mute_paths.remove_keys(gone),
                solo_paths: v.solo_paths.remove_keys(gone),
                paths: v.paths.remove_keys(gone),
                mute_collections: v.mute_collections.remove(c.id),
                solo_collections: v.solo_collections.remove(c.id),
                ..v
            };
            assert(self@ =~= mid);
            assert(forall|i: int| 0 <= i < n.len() ==> #[trigger] n[i] == v.collections[if i < k { i } else { i + 1 }]);
            assert(!has_collection(n, v.compared.id)) by {
                if has_collection(n, v.compared.id) {
                    let q = choose|q: int| 0 <= q < n.len() && #[trigger] n[q].id == v.compared.id;
                    let qq = if q < k { q } else { q + 1 };
                    assert(v.collections[qq].id == v.compared.id);
                }
            }
            assert(entries_flagged(mid)) by {
                assert forall|i: int, a: int| #![trigger n[i].paths[a]]
                    0 <= i < n.len() && 0 <= a < n[i].paths.len() implies {
                        &&& mid.paths.contains_key(n[i].paths[a])
                        &&& mid.mute_paths.contains_key(n[i].paths[a])
                        &&& mid.solo_paths.contains_key(n[i].paths[a])
                    } by {
                    let ii = if i < k { i } else { i + 1 };
                    let y = v.collections[ii].paths[a];
                    assert(v.paths.contains_key(y));
                    assert(!c.paths.contains(v.collections[ii].paths[a]));
                }
            }
            assert forall|i: int| #![trigger n[i]] 0 <= i < n.len() implies {
                &&& mid.mute_collections.contains_key(n[i].id)
                &&& mid.solo_collections.contains_key(n[i].id)
            } by {
                let ii = if i < k { i } else { i + 1 };
                assert(v.mute_collections.contains_key(v.collections[ii].id));
                assert(v.collections[ii].id != v.collections[k].id);
            }
            assert(!in_some_collection(n, v.recording_path.id)) by {
                if in_some_collection(n, v.recording_path.id) {
                    let q = choose|q: int| 0 <= q < n.len() && #[trigger] n[q].paths.contains(v.recording_path.id);
                    let qq = if q < k { q } else { q + 1 };
                    assert(v.collections[qq].paths.contains(v.recording_path.id));
                }
            }
        }
        self.update_visible();
    }

    /// Loads the content of a comparison file: its triggers (with new
    /// ids), paths and collections replace the current ones, every mute,
    /// solo and selection flag is cleared, the current file is forgotten,
    /// and the compared paths are worked out again. The collections are kept
    /// exactly as the file has them, repeats included. A file that lists a
    /// path it does not store is refused and changes nothing. Should a loaded id collide with
    /// the id of the compared paths or of the recording path, that one gets a
    /// new id.
    pub fn load_comparison(&mut self, data: CompFile) -> (r: Result<(), Error>)
        requires
            old(self).wf(),
        ensures
            final(self).wf(),
            (r is Ok) == entries_stored(data@.collections, data@.paths),
            r matches Err(e) ==> final(self)@ == old(self)@ && e is Binary,
            r is Ok ==> exists|t0: BoxCollider, t1: BoxCollider, cid: u128, rid: u128| {
                &&& final(self)@ == #[trigger] loaded(old(self)@, data@, t0, t1, cid, rid)
                &&& trigger_record(t0@) == data@.trigger_data[0]
                &&& trigger_record(t1@) == data@.trigger_data[1]
                &&& !has_collection(data@.collections, cid)
                &&& (cid == old(self)@.compared.id || has_collection(data@.collections, old(self)@.compared.id))
                &&& !in_some_collection(data@.collections, rid)
                &&& (rid == old(self)@.recording_path.id || in_some_collection(
                    data@.collections,
                    old(self)@.recording_path.id,
                ))
            },
    {
        let ghost v = self@;
        let triggers = data.get_triggers();
        let paths = data.get_paths();
        let collections = data.get_collections();
        if !entries_all_stored(&paths, &collections) {
            return Err(Error::Binary { msg: String::from_str("the file lists a path it does not store") });
        }
        let ghost cv = data@.collections;
        self.main_triggers = triggers;
        self.paths = paths;
        self.path_collections = collections;
        self.current_file = None;
        self.mute_collections.clear();
        self.solo_collections.clear();
        self.selected_paths.clear();
        self.mute_paths.clear();
        self.solo_paths.clear();
        let ghost base = self@;
        let mut i: usize = 0;
        while i < self.path_collections.len()
            invariant
                0 <= i <= self.path_collections.len(),
                cv == self@.collections,
                self@ == (PathLogView {
                    mute_paths: self@.mute_paths,
                    solo_paths: self@.solo_paths,
                    mute_collections: self@.mute_collections,
                    solo_collections: self@.solo_collections,
                    selected_paths: self@.selected_paths,
                    ..base
                }),
                self.mute_collections@ == Map::new(|x: u128| id_before(cv, i as int, x), |x: u128| false),
                self.solo_collections@ == Map::new(|x: u128| id_before(cv, i as int, x), |x: u128| false),
                id_list_views(self.selected_paths@) == Map::new(|x: u128| id_before(cv, i as int, x), |x: u128| Seq::<u128>::empty()),
                self.mute_paths@ == Map::new(|x: u128| listed_before(cv, i as int, 0, x), |x: u128| false),
                self.solo_paths@ == Map::new(|x: u128| listed_before(cv, i as int, 0, x), |x: u128| false),
            decreases self.path_collections.len() - i,
        {
            let id = self.path_collections[i].id();
            assert(id == cv[i as int].id);
            self.mute_collections.insert(id, false);
            self.solo_collections.insert(id, false);
            let empty: Vec<u128> = Vec::new();
            assert(empty@ =~= Seq::<u128>::empty());
            let ghost sel_before = self.selected_paths@;
            self.selected_paths.insert(id, empty);
            proof {
                assert(id_list_views(self.selected_paths@) =~= id_list_views(sel_before).insert(id, Seq::<u128>::empty()));
                assert(self.mute_collections@ =~= Map::new(|x: u128| id_before(cv, i + 1, x), |x: u128| false)) by {
                    assert forall|x: u128| id_before(cv, i + 1, x) == (id_before(cv, i as int, x) || x == id) by {
                        if id_before(cv, i + 1, x) && x != id {
                            let j = choose|j: int| 0 <= j < i + 1 && #[trigger] cv[j].id == x;
                        }
                    }
                }
                assert(self.solo_collections@ =~= Map::new(|x: u128| id_before(cv, i + 1, x), |x: u128| false));
                assert(id_list_views(self.selected_paths@) =~= Map::new(|x: u128| id_before(cv, i + 1, x), |x: u128| Seq::<u128>::empty()));
            }
            let mut a: usize = 0;
            let n = self.path_collections[i].paths().len();
            while a < n
                invariant
                    0 <= i < self.path_collections.len(),
                    0 <= a <= n,
                    n == cv[i as int].paths.len(),
                    cv == self@.collections,
                    self@ == (PathLogView {
                        mute_paths: self@.mute_paths,
                        solo_paths: self@.solo_paths,
                        mute_collections: self@.mute_collections,
                        solo_collections: self@.solo_collections,
                        selected_paths: self@.selected_paths,
                        ..base
                    }),
                    self.mute_collections@ == Map::new(|x: u128| id_before(cv, i + 1, x), |x: u128| false),
                    self.solo_collections@ == Map::new(|x: u128| id_before(cv, i + 1, x), |x: u128| false),
                    id_list_views(self.selected_paths@) == Map::new(|x: u128| id_before(cv, i + 1, x), |x: u128| Seq::<u128>::empty()),
                    self.mute_paths@ == Map::new(|x: u128| listed_before(cv, i as int, a as int, x), |x: u128| false),
                    self.solo_paths@ == Map::new(|x: u128| listed_before(cv, i as int, a as int, x), |x: u128| false),
                decreases n - a,
            {
                let path_id = self.path_collections[i].paths()[a];
                assert(path_id == cv[i as int].paths[a as int]);
                self.mute_paths.insert(path_id, false);
                self.solo_paths.insert(path_id, false);
                proof {
                    assert forall|x: u128| listed_before(cv, i as int, a + 1, x) == (listed_before(cv, i as int, a as int, x) || x == path_id) by {
                        if listed_before(cv, i as int, a + 1, x) && x != path_id {
                            let (j, b) = choose|j: int, b: int| 0 <= j <= i && j < cv.len() && 0 <= b < cv[j].paths.len() && earlier(j, b, i as int, a + 1) && #[trigger] cv[j].paths[b] == x;
                            assert(earlier(j, b, i as int, a as int));
                        }
                        if x == path_id {
                            assert(cv[i as int].paths[a as int] == x);
                        }
                    }
                    assert(self.mute_paths@ =~= Map::new(|x: u128| listed_before(cv, i as int, a + 1, x), |x: u128| false));
                    assert(self.solo_paths@ =~= Map::new(|x: u128| listed_before(cv, i as int, a + 1, x), |x: u128| false));
                }
                a = a + 1;
            }
            proof {
                assert forall|x: u128| listed_before(cv, i as int, n as int, x) == listed_before(cv, i + 1, 0, x) by {
                    if listed_before(cv, i as int, n as int, x) {
                        let (j, b) = choose|j: int, b: int| 0 <= j <= i && j < cv.len() && 0 <= b < cv[j].paths.len() && earlier(j, b, i as int, n as int) && #[trigger] cv[j].paths[b] == x;
                        assert(earlier(j, b, i + 1, 0));
                    }
                    if listed_before(cv, i + 1, 0, x) {
                        let (j, b) = choose|j: int, b: int| 0 <= j <= i + 1 && j < cv.len() && 0 <= b < cv[j].paths.len() && earlier(j, b, i + 1, 0) && #[trigger] cv[j].paths[b] == x;
                        assert(earlier(j, b, i as int, n as int));
                    }
                }
                assert(self.mute_paths@ =~= Map::new(|x: u128| listed_before(cv, i + 1, 0, x), |x: u128| false));
                assert(self.solo_paths@ =~= Map::new(|x: u128| listed_before(cv, i + 1, 0, x), |x: u128| false));
            }
            i = i + 1;
        }
        proof {
            assert forall|x: u128| listed_before(cv, cv.len() as int, 0, x) == in_some_collection(cv, x) by {
                if listed_before(cv, cv.len() as int, 0, x) {
                    let (j, b) = choose|j: int, b: int| 0 <= j <= cv.len() && j < cv.len() && 0 <= b < cv[j].paths.len() && earlier(j, b, cv.len() as int, 0) && #[trigger] cv[j].paths[b] == x;
                    assert(cv[j].paths.contains(x));
                }
                if in_some_collection(cv, x) {
                    let j = choose|j: int| 0 <= j < cv.len() && #[trigger] cv[j].paths.contains(x);
                    let b = choose|b: int| 0 <= b < cv[j].paths.len() && cv[j].paths[b] == x;
                    assert(earlier(j, b, cv.len() as int, 0));
                }
            }
            assert forall|x: u128| id_before(cv, cv.len() as int, x) == has_collection(cv, x) by {}
            assert(self.mute_paths@ =~= Map::new(|x: u128| in_some_collection(cv, x), |x: u128| false));
            assert(self.solo_paths@ =~= Map::new(|x: u128| in_some_collection(cv, x), |x: u128| false));
            assert(self.mute_collections@ =~= Map::new(|x: u128| has_collection(cv, x), |x: u128| false));
            assert(self.solo_collections@ =~= Map::new(|x: u128| has_collection(cv, x), |x: u128| false));
            assert(id_list_views(self.selected_paths@) =~= Map::new(|x: u128| has_collection(cv, x), |x: u128| Seq::<u128>::empty()));
        }
        let ghost flagged = self@;
        // The compared paths and the recording path keep their ids unless a
        // loaded id takes them.
        let mut used_ids: Vec<u128> = Vec::new();
        let mut k: usize = 0;
        while k < self.path_collections.len()
            invariant
                0 <= k <= self.path_collections.len(),
                cv == self@.collections,
                self@ == flagged,
                used_ids@ == ids_of(cv).take(k as int),
            decreases self.path_collections.len() - k,
        {
            used_ids.push(self.path_collections[k].id());
            k = k + 1;
            assert(used_ids@ =~= ids_of(cv).take(k as int));
        }
        assert(ids_of(cv).take(k as int) =~= ids_of(cv));
        if contains_id(&used_ids, self.compared_paths.id()) {
            let new_id = fresh_id(&used_ids);
            self.compared_paths.set_id(new_id);
        }
        let cid = self.compared_paths.id();
        proof {
            if has_collection(cv, cid) {
                let q = choose|q: int| 0 <= q < cv.len() && #[trigger] cv[q].id == cid;
                assert(used_ids@[q] == cid);
            }
            if has_collection(cv, v.compared.id) {
                let q = choose|q: int| 0 <= q < cv.len() && #[trigger] cv[q].id == v.compared.id;
                assert(used_ids@[q] == v.compared.id);
            }
        }
        let entries = self.all_entries();
        assert(self@.collections == cv);
        if contains_id(&entries, self.recording_path.id()) {
            let new_id = fresh_id(&entries);
            self.recording_path.set_id(new_id);
        }
        let rid = self.recording_path.id();
        proof {
            if in_some_collection(cv, rid) {
                let q = choose|q: int| 0 <= q < cv.len() && #[trigger] cv[q].paths.contains(rid);
                let b = choose|b: int| 0 <= b < cv[q].paths.len() && cv[q].paths[b] == rid;
                assert(entries@.contains(cv[q].paths[b]));
            }
            if !in_some_collection(cv, v.recording_path.id) {
                if entries@.contains(v.recording_path.id) {
                    // every entry is listed in some collection
                }
            }
            let pre = PathLogView {
                main_triggers: triggers,
                paths: data@.paths,
                collections: cv,
                current_file: None,
                mute_paths: Map::new(|x: u128| in_some_collection(cv, x), |x: u128| false),
                solo_paths: Map::new(|x: u128| in_some_collection(cv, x), |x: u128| false),
                mute_collections: Map::new(|x: u128| has_collection(cv, x), |x: u128| false),
                solo_collections: Map::new(|x: u128| has_collection(cv, x), |x: u128| false),
                selected_paths: Map::new(|x: u128| has_collection(cv, x), |x: u128| Seq::<u128>::empty()),
                compared: PathCollectionView { id: cid, ..v.compared },
                recording_path: PathView { id: rid, ..v.recording_path },
                ..v
            };
            assert(self@ =~= pre);
            assert forall|i: int, a: int| #![trigger cv[i].paths[a]]
                0 <= i < cv.len() && 0 <= a < cv[i].paths.len() implies {
                    &&& pre.paths.contains_key(cv[i].paths[a])
                    &&& pre.mute_paths.contains_key(cv[i].paths[a])
                    &&& pre.solo_paths.contains_key(cv[i].paths[a])
                } by {
                assert(cv[i].paths.contains(cv[i].paths[a]));
            }
            assert forall|i: int| #![trigger cv[i]] 0 <= i < cv.len() implies {
                &&& pre.mute_collections.contains_key(cv[i].id)
                &&& pre.solo_collections.contains_key(cv[i].id)
            } by {
                assert(has_collection(cv, cv[i].id));
            }
        }
        self.update_visible();
        proof {
            let t0 = triggers[0]->0;
            let t1 = triggers[1]->0;
            assert(triggers == [Some(t0), Some(t1)]);
            assert(self@ == loaded(v, data@, t0, t1, cid, rid));
        }
        Ok(())
    }

    /// One frame of the recorder. `in_trigger` tells whether the player's
    /// centre lies in the start and in the finish trigger; it is read only
    /// when both triggers are set. Returns which groups must be drawn again
    /// and, when the stop at the finish trigger autosaves, the file to write.
    #[verifier::rlimit(40)]
    pub fn update(&mut self, in_trigger: [bool; 2], player_center: Node) -> (r: (RenderUpdates, Option<SaveRequest>))
        requires
            old(self).wf(),
        ensures
            final(self).wf(),
            r.0 == (RenderUpdates { paths: finishes(old(self)@, in_trigger), triggers: false, teleports: false, shapes: false }),
            exists|t: u64, next_id: u128| {
                &&& final(self)@ == #[trigger] after_update(old(self)@, in_trigger, player_center, t, next_id)
                &&& finishes(old(self)@, in_trigger) ==> next_id != old(self)@.recording_path.id
                &&& (r.1 is Some) == (finishes(old(self)@, in_trigger) && autosave_due(primed_state(old(self)@, in_trigger)))
                &&& r.1 matches Some(req) ==> {
                    &&& primed_state(old(self)@, in_trigger).current_file == Some(req.file_path@)
                    &&& saved_file(stored_recording(primed_state(old(self)@, in_trigger), t), req.data@)
                }
            },
    {
        let ghost v = self@;
        let mut updates = RenderUpdates::new();
        let mut request: Option<SaveRequest> = None;
        let ghost mut t_witness: u64 = 0;
        let ghost mut id_witness: u128 = 0;
        if self.main_triggers[0].is_some() && self.main_triggers[1].is_some() {
            if in_trigger[0] && !self.primed {
                if self.autoreset {
                    self.reset();
                }
                self.primed = true;
                assert(self@ =~= PathLogView { primed: true, ..(if v.autoreset { reset_state(v) } else { v }) });
            } else if !in_trigger[0] && self.primed {
                self.primed = false;
                self.start();
            }
            assert(self@ == primed_state(v, in_trigger));
            if in_trigger[1] && self.recording {
                let ghost s1 = self@;
                request = self.stop();
                proof {
                    let (t, nid) = choose|t: u64, nid: u128| {
                        &&& self@ == #[trigger] stopped(s1, t, nid)
                        &&& nid != s1.recording_path.id
                        &&& (request is Some) == autosave_due(s1)
                        &&& request matches Some(req) ==> {
                            &&& s1.current_file == Some(req.file_path@)
                            &&& saved_file(stored_recording(s1, t), req.data@)
                        }
                    };
                    t_witness = t;
                    id_witness = nid;
                }
                updates.paths = true;
            }
        }
        assert(self@ == if finishes(v, in_trigger) {
            stopped(primed_state(v, in_trigger), t_witness, id_witness)
        } else {
            primed_state(v, in_trigger)
        });
        if !self.recording || self.paused {
            return (updates, request);
        }
        let ghost s2 = self@;
        self.recording_path.add_node(player_center);
        assert(self@ =~= after_update(v, in_trigger, player_center, t_witness, id_witness));
        (updates, request)
    }

    /// Places a trigger: index 0 is the start, 1 the finish, and any other
    /// index adds a checkpoint. The trigger gets a new id; the current file
    /// is forgotten.
    pub fn create_trigger(&mut self, index: usize, center: Node, rotation: Node, size: Node)
        requires
            old(self).wf(),
        ensures
            final(self).wf(),
            exists|b: BoxCollider| {
                &&& b@.position == center && b@.rotation == rotation && b@.size == size
                &&& #[trigger] trigger_placed(old(self)@, index, b) == final(self)@
            },
    {
        self.current_file = None;
        let b = BoxCollider::new(center, rotation, size);
        if index < 2 {
            self.main_triggers.set(index, Some(b));
        } else {
            self.checkpoint_triggers.push(b);
        }
        assert(self@ =~= trigger_placed(old(self)@, index, b));
    }

    /// Removes both main triggers and forgets the current file, but only
    /// while every collection is empty.
    pub fn clear_triggers(&mut self)
        requires
            old(self).wf(),
        ensures
            final(self).wf(),
            !all_empty(old(self)@.collections) ==> final(self)@ == old(self)@,
            all_empty(old(self)@.collections) ==> final(self)@ == (PathLogView {
                main_triggers: [None, None],
                current_file: None,
                ..old(self)@
            }),
    {
        if !self.is_empty() {
            return;
        }
        self.main_triggers = [None, None];
        self.current_file = None;
    }

    /// Adds an empty collection with a new id that no collection (nor the
    /// compared paths) has; the first collection becomes the active one.
    pub fn create_collection(&mut self)
        requires
            old(self).wf(),
        ensures
            final(self).wf(),
            exists|id: u128| {
                &&& final(self)@ == #[trigger] collection_created(old(self)@, id)
                &&& !has_collection(old(self)@.collections, id)
                &&& id != old(self)@.compared.id
            },
    {
        let ghost v = self@;
        let mut used: Vec<u128> = Vec::new();
        let mut i: usize = 0;
        while i < self.path_collections.len()
            invariant
                0 <= i <= self.path_collections.len(),
                v == self@,
                used@ == ids_of(v.collections).take(i as int),
            decreases self.path_collections.len() - i,
        {
            used.push(self.path_collections[i].id());
            i = i + 1;
            assert(used@ =~= ids_of(v.collections).take(i as int));
        }
        used.push(self.compared_paths.id());
        let id = fresh_id(&used);
        proof {
            assert(ids_of(v.collections).take(i as int) =~= ids_of(v.collections));
            if has_collection(v.collections, id) {
                let q = choose|q: int| 0 <= q < v.collections.len() && #[trigger] v.collections[q].id == id;
                assert(used@[q] == id);
            }
            assert(used@[used@.len() - 1] == v.compared.id);
        }
        let new_collection = PathCollection::with_id(id, String::from_str(DEFAULT_COLLECTION_NAME));
        if self.path_collections.len() == 0 {
            self.active_collection = Some(id);
        }
        self.mute_collections.insert(id, false);
        self.solo_collections.insert(id, false);
        let empty: Vec<u128> = Vec::new();
        self.selected_paths.insert(id, empty);
        self.path_collections.push(new_collection);
        proof {
            assert(id_list_views(self.selected_paths@) =~= v.selected_paths.insert(id, Seq::empty()));
            assert(self@ =~= collection_created(v, id));
            let n = self@.collections;
            assert(!has_collection(n, v.compared.id)) by {
                if has_collection(n, v.compared.id) {
                    let q = choose|q: int| 0 <= q < n.len() && #[trigger] n[q].id == v.compared.id;
                    if q < v.collections.len() {
                        assert(v.collections[q].id == n[q].id);
                    }
                }
            }
            assert(entries_flagged(self@)) by {
                assert forall|i: int, a: int| #![trigger n[i].paths[a]]
                    0 <= i < n.len() && 0 <= a < n[i].paths.len() implies {
                        &&& self@.paths.contains_key(n[i].paths[a])
                        &&& self@.mute_paths.contains_key(n[i].paths[a])
                        &&& self@.solo_paths.contains_key(n[i].paths[a])
                    } by {
                    assert(n[i] == v.collections[i]);
                    assert(v.paths.contains_key(v.collections[i].paths[a]));
                }
            }
            assert(!in_some_collection(n, v.recording_path.id)) by {
                if in_some_collection(n, v.recording_path.id) {
                    let q = choose|q: int| 0 <= q < n.len() && #[trigger] n[q].paths.contains(v.recording_path.id);
                    assert(n[q] == v.collections[q]);
                }
            }
            assert forall|i: int| #![trigger n[i]] 0 <= i < n.len() implies {
                &&& self@.mute_collections.contains_key(n[i].id)
                &&& self@.solo_collections.contains_key(n[i].id)
            } by {
                if i < v.collections.len() {
                    assert(n[i] == v.collections[i]);
                }
            }
        }
    }

    /// Renames the first collection with the given id; an empty name is
    /// replaced by a fixed one.
    pub fn rename_collection(&mut self, collection_id: u128, new_name: String)
        requires
            old(self).wf(),
        ensures
            final(self).wf(),
            ({
                let v = old(self)@;
                let k = collection_position(v.collections, collection_id);
                &&& k < v.collections.len() ==> final(self)@ == (PathLogView {
                    collections: v.collections.update(
                        k,
                        PathCollectionView { name: given_name(new_name@), ..v.collections[k] },
                    ),
                    ..v
                })
                &&& k >= v.collections.len() ==> final(self)@ == v
            }),
    {
        let ghost v = self@;
        let name = if new_name == String::from_str("") {
            String::from_str(DEFAULT_NAME_FOR_EMPTY)
        } else {
            new_name
        };
        if let Some(k) = self.find_collection(collection_id) {
            let mut c = self.path_collections[k].clone_collection();
            c.set_name(name);
            self.path_collections.set(k, c);
            proof {
                let n = v.collections.update(
                    k as int,
                    PathCollectionView { name: given_name(new_name@), ..v.collections[k as int] },
                );
                assert(self@.collections =~= n);
                assert(self@ =~= PathLogView { collections: n, ..v });
                assert forall|i: int| 0 <= i < n.len() implies (#[trigger] n[i]).id == v.collections[i].id
                    && n[i].paths == v.collections[i].paths by {}
                assert(!has_collection(n, v.compared.id)) by {
                    if has_collection(n, v.compared.id) {
                        let q = choose|q: int| 0 <= q < n.len() && #[trigger] n[q].id == v.compared.id;
                        assert(v.collections[q].id == v.compared.id);
                    }
                }
                assert(entries_flagged(self@)) by {
                    assert forall|i: int, a: int| #![trigger n[i].paths[a]]
                        0 <= i < n.len() && 0 <= a < n[i].paths.len() implies {
                            &&& self@.paths.contains_key(n[i].paths[a])
                            &&& self@.mute_paths.contains_key(n[i].paths[a])
                            &&& self@.solo_paths.contains_key(n[i].paths[a])
                        } by {
                        assert(v.paths.contains_key(v.collections[i].paths[a]));
                    }
                }
                assert(!in_some_collection(n, v.recording_path.id)) by {
                    if in_some_collection(n, v.recording_path.id) {
                        let q = choose|q: int| 0 <= q < n.len() && #[trigger] n[q].paths.contains(v.recording_path.id);
                        assert(v.collections[q].paths.contains(v.recording_path.id));
                    }
                }
                assert forall|i: int| #![trigger n[i]] 0 <= i < n.len() implies {
                    &&& self@.mute_collections.contains_key(n[i].id)
                    &&& self@.solo_collections.contains_key(n[i].id)
                } by {
                    assert(v.mute_collections.contains_key(v.collections[i].id));
                }
            }
        }
    }

    /// Starts recording, unless a recording runs already.
    pub fn start(&mut self)
        requires
            old(self).wf(),
        ensures
            final(self).wf(),
            old(self)@.recording ==> final(self)@ == old(self)@,
            !old(self)@.recording ==> final(self)@ == (PathLogView { recording: true, started: true, ..old(self)@ }),
    {
        if self.recording {
            return;
        }
        self.recording = true;
        self.recording_start = Some(instant_now());
    }

    /// Drops the running recording: its nodes and times are cleared.
    pub fn reset(&mut self)
        requires
            old(self).wf(),
        ensures
            final(self).wf(),
            !old(self)@.recording ==> final(self)@ == old(self)@,
            old(self)@.recording ==> final(self)@ == (PathLogView {
                recording: false,
                started: false,
                recording_path: PathView {
                    times: Seq::empty(),
                    segments: Seq::empty(),
                    ..old(self)@.recording_path
                },
                ..old(self)@
            }),
    {
        if !self.recording {
            return;
        }
        self.recording = false;
        self.recording_path.clear_all();
        self.recording_start = None;
    }

    /// Pauses the running recording: the running segment ends with the time
    /// it took.
    pub fn pause(&mut self)
        requires
            old(self).wf(),
        ensures
            final(self).wf(),
            !old(self)@.recording || old(self)@.paused ==> final(self)@ == old(self)@,
            old(self)@.recording && !old(self)@.paused ==> exists|t: u64| final(self)@ == #[trigger] paused_after(old(self)@, t),
    {
        if !self.recording || self.paused {
            return;
        }
        let segment_time = match &self.recording_start {
            Some(start) => elapsed_millis(start),
            None => 0,
        };
        self.recording_path.end_segment(segment_time);
        self.paused = true;
        assert(self@ =~= paused_after(old(self)@, segment_time));
    }

    /// Resumes a paused recording: a new clock reading marks the start of
    /// the next segment.
    pub fn unpause(&mut self)
        requires
            old(self).wf(),
        ensures
            final(self).wf(),
            !old(self)@.recording || !old(self)@.paused ==> final(self)@ == old(self)@,
            old(self)@.recording && old(self)@.paused ==> final(self)@ == (PathLogView {
                paused: false,
                started: true,
                ..old(self)@
            }),
    {
        if !self.recording || !self.paused {
            return;
        }
        self.recording_start = Some(instant_now());
        self.paused = false;
    }

    /// Pauses a running recording or resumes a paused one.
    pub fn toggle_pause(&mut self)
        requires
            old(self).wf(),
        ensures
            final(self).wf(),
            !old(self)@.recording ==> final(self)@ == old(self)@,
            old(self)@.recording && old(self)@.paused ==> final(self)@ == (PathLogView {
                paused: false,
                started: true,
                ..old(self)@
            }),
            old(self)@.recording && !old(self)@.paused ==> exists|t: u64| final(self)@ == #[trigger] paused_after(old(self)@, t),
    {
        if self.paused {
            self.unpause();
        } else {
            self.pause();
        }
    }

    /// The time shown by the timer, in milliseconds: while a recording has a
    /// start reading, the finished segments plus (unless paused) the time
    /// since that reading, as `running_time_of` adds them; otherwise the time
    /// of the latest recording.
    pub fn time(&self) -> (r: u64)
        ensures
            !self@.started ==> r == self@.latest_time,
            self@.started && self@.paused ==> r == total_time(self@.recording_path.times),
            self@.started && !self@.paused ==> exists|t: u64| r == #[trigger] running_time(t, self@.recording_path.times),
            self@.started && !self@.paused ==> exists|e: u64| r as int == #[trigger] plus_finished(e, self@.recording_path.times),
    {
        match &self.recording_start {
            Some(rec_start) => {
                let mut current_time: u64 = 0;
                if !self.paused {
                    current_time = elapsed_millis(rec_start);
                }
                let r = running_time_of(current_time, &self.recording_path);
                proof {
                    assert(self@.recording_path == self.recording_path@);
                    assert(r == running_time(current_time, self@.recording_path.times));
                    let e = choose|e: u64| r as int == #[trigger] plus_finished(e, self.recording_path@.times);
                    assert(r as int == plus_finished(e, self@.recording_path.times));
                }
                r
            },
            None => self.latest_time,
        }
    }

    /// Sets whether recordings are kept out of the collections.
    pub fn set_direct_mode(&mut self, mode: bool)
        requires
            old(self).wf(),
        ensures
            final(self).wf(),
            final(self)@ == (PathLogView { direct: mode, ..old(self)@ }),
    {
        self.direct = mode;
    }

    /// Sets whether the comparison file is written after each recording.
    pub fn set_autosave(&mut self, mode: bool)
        requires
            old(self).wf(),
        ensures
            final(self).wf(),
            final(self)@ == (PathLogView { autosave: mode, ..old(self)@ }),
    {
        self.autosave = mode;
    }

    /// Sets whether entering the start trigger drops the running recording.
    pub fn set_autoreset(&mut self, mode: bool)
        requires
            old(self).wf(),
        ensures
            final(self).wf(),
            final(self)@ == (PathLogView { autoreset: mode, ..old(self)@ }),
    {
        self.autoreset = mode;
    }
    /// Flips the mute flag of the path or the collection with the given id
    /// (of each that has one) and works out again which paths are compared.
    pub fn toggle_mute(&mut self, id: u128)
        requires
            old(self).wf(),
        ensures
            final(self).wf(),
            final(self)@ == visible_updated(PathLogView {
                mute_paths: flipped(old(self)@.mute_paths, id),
                mute_collections: flipped(old(self)@.mute_collections, id),
                ..old(self)@
            }),
            final(self)@.mute_paths == flipped(old(self)@.mute_paths, id),
            final(self)@.mute_collections == flipped(old(self)@.mute_collections, id),
            final(self)@.solo_paths == old(self)@.solo_paths,
            final(self)@.solo_collections == old(self)@.solo_collections,
            final(self)@.collections == old(self)@.collections,
            final(self)@.paths == old(self)@.paths,
    {
        if let Some(b) = self.mute_paths.get(&id) {
            let nb = !*b;
            self.mute_paths.insert(id, nb);
        }
        if let Some(b) = self.mute_collections.get(&id) {
            let nb = !*b;
            self.mute_collections.insert(id, nb);
        }
        assert(self@ =~= PathLogView {
            mute_paths: flipped(old(self)@.mute_paths, id),
            mute_collections: flipped(old(self)@.mute_collections, id),
            ..old(self)@
        });
        self.update_visible();
    }

    /// Flips the solo flag of the path or the collection with the given id
    /// (of each that has one) and works out again which paths are compared.
    pub fn toggle_solo(&mut self, id: u128)
        requires
            old(self).wf(),
        ensures
            final(self).wf(),
            final(self)@ == visible_updated(PathLogView {
                solo_paths: flipped(old(self)@.solo_paths, id),
                solo_collections: flipped(old(self)@.solo_collections, id),
                ..old(self)@
            }),
            final(self)@.solo_paths == flipped(old(self)@.solo_paths, id),
            final(self)@.solo_collections == flipped(old(self)@.solo_collections, id),
            final(self)@.mute_paths == old(self)@.mute_paths,
            final(self)@.mute_collections == old(self)@.mute_collections,
            final(self)@.collections == old(self)@.collections,
            final(self)@.paths == old(self)@.paths,
    {
        if let Some(b) = self.solo_paths.get(&id) {
            let nb = !*b;
            self.solo_paths.insert(id, nb);
        }
        if let Some(b) = self.solo_collections.get(&id) {
            let nb = !*b;
            self.solo_collections.insert(id, nb);
        }
        assert(self@ =~= PathLogView {
            solo_paths: flipped(old(self)@.solo_paths, id),
            solo_collections: flipped(old(self)@.solo_collections, id),
            ..old(self)@
        });
        self.update_visible();
    }

    /// Makes the collection with the given id the active one, or, when it is
    /// already, leaves no collection active.
    pub fn toggle_active(&mut self, id: u128)
        requires
            old(self).wf(),
        ensures
            final(self).wf(),
            final(self)@ == (PathLogView {
                active_collection: if old(self)@.active_collection == Some(id) { None } else { Some(id) },
                ..old(self)@
            }),
    {
        if self.active_collection == Some(id) {
            self.active_collection = None;
        } else {
            self.active_collection = Some(id);
        }
    }

    /// Switches the gold filter of a collection: on where it has no filter
    /// or a path filter, off where it has the gold filter.
    pub fn toggle_gold_filter(&mut self, collection_id: u128)
        requires
            old(self).wf(),
        ensures
            final(self).wf(),
            final(self)@ == (PathLogView { filters: gold_toggled(old(self)@.filters, collection_id), ..old(self)@ }),
    {
        match self.filters.get(&collection_id) {
            Some(HighPassFilter::Gold) => {
                self.filters.remove(&collection_id);
            },
            _ => {
                self.filters.insert(collection_id, HighPassFilter::Gold);
            },
        }
        assert(self@ =~= PathLogView { filters: gold_toggled(old(self)@.filters, collection_id), ..old(self)@ });
    }

    /// Sets the filter of a collection on the path with the given id, or
    /// takes it off when it is set on that path already.
    pub fn set_path_filter(&mut self, collection_id: u128, path_id: u128)
        requires
            old(self).wf(),
        ensures
            final(self).wf(),
            final(self)@ == (PathLogView {
                filters: path_filter_set(old(self)@.filters, collection_id, path_id),
                ..old(self)@
            }),
    {
        match self.filters.get(&collection_id) {
            Some(HighPassFilter::Path { id }) if *id == path_id => {
                self.filters.remove(&collection_id);
            },
            _ => {
                self.filters.insert(collection_id, HighPassFilter::Path { id: path_id });
            },
        }
        assert(self@ =~= PathLogView {
            filters: path_filter_set(old(self)@.filters, collection_id, path_id),
            ..old(self)@
        });
    }

    /// Whether a click on a path of a collection can be applied, as
    /// `select_possible` says.
    pub fn can_select(&self, path_id: u128, collection_id: u128, modifier: u8) -> (r: bool)
        requires
            self.wf(),
        ensures
            r == select_possible(self@, path_id, collection_id, modifier),
    {
        let k = match self.find_collection(collection_id) {
            Some(k) => k,
            None => {
                proof {
                    if has_collection(self@.collections, collection_id) {
                        lemma_collection_found(self@.collections, collection_id);
                    }
                }
                return false;
            },
        };
        let p = match self.path(&path_id) {
            Some(path) => path.id(),
            None => return false,
        };
        let sel = match self.selected_paths.get(&collection_id) {
            Some(sel) => sel,
            None => {
                assert(!self@.selected_paths.contains_key(collection_id));
                return false;
            },
        };
        assert(sel@ == self@.selected_paths[collection_id]);
        proof {
            lemma_collection_at(self@.collections, collection_id);
        }
        if modifier != 1 {
            return true;
        }
        let coll = self.path_collections[k].paths();
        assert(coll@ == self@.collections[k as int].paths);
        let anchor = if sel.len() > 0 { sel[sel.len() - 1] } else { p };
        let a = crate::selection::position_of_id(coll, anchor);
        let b = crate::selection::position_of_id(coll, p);
        proof {
            if coll@.contains(anchor) {
                let j = choose|j: int| 0 <= j < coll@.len() && coll@[j] == anchor;
                lemma_first_match_le(coll@, equal_to(anchor), j);
            }
            if coll@.contains(p) {
                let j = choose|j: int| 0 <= j < coll@.len() && coll@[j] == p;
                lemma_first_match_le(coll@, equal_to(p), j);
            }
            if a < coll.len() {
                lemma_first_match_found(coll@, equal_to(anchor));
            }
            if b < coll.len() {
                lemma_first_match_found(coll@, equal_to(p));
            }
        }
        a < coll.len() && b < coll.len()
    }

    /// Applies a click on a path to the selection of a collection, as
    /// `selection_after` says, with the id that the stored path carries.
    pub fn select_path(&mut self, path_id: u128, collection_id: u128, modifier: u8)
        requires
            old(self).wf(),
            select_possible(old(self)@, path_id, collection_id, modifier),
        ensures
            final(self).wf(),
            final(self)@ == (PathLogView {
                selected_paths: old(self)@.selected_paths.insert(
                    collection_id,
                    selection_after(
                        old(self)@.selected_paths[collection_id],
                        old(self)@.collections[collection_position(old(self)@.collections, collection_id)].paths,
                        old(self)@.paths[path_id].id,
                        modifier,
                    ),
                ),
                ..old(self)@
            }),
    {
        proof {
            lemma_collection_found(self@.collections, collection_id);
        }
        let k = match self.find_collection(collection_id) {
            Some(k) => k,
            None => {
                assert(false);
                return;
            },
        };
        let p = match self.path(&path_id) {
            Some(path) => path.id(),
            None => {
                assert(false);
                return;
            },
        };
        let sel = match self.selected_paths.get(&collection_id) {
            Some(sel) => sel.clone(),
            None => {
                assert(false);
                return;
            },
        };
        proof {
            assert(sel@ == old(self)@.selected_paths[collection_id]);
        }
        let selected = select_in(sel, self.path_collections[k].paths(), p, modifier);
        self.selected_paths.insert(collection_id, selected);
        assert(self@ =~= PathLogView {
            selected_paths: old(self)@.selected_paths.insert(
                collection_id,
                selection_after(
                    old(self)@.selected_paths[collection_id],
                    old(self)@.collections[collection_position(old(self)@.collections, collection_id)].paths,
                    old(self)@.paths[path_id].id,
                    modifier,
                ),
            ),
            ..old(self)@
        });
    }

    /// Removes the trigger with the given id: the first checkpoint that has
    /// it, or else each main trigger that has it. Returns which main
    /// triggers were removed.
    pub fn delete_trigger(&mut self, id: u128) -> (r: [bool; 2])
        requires
            old(self).wf(),
        ensures
            final(self).wf(),
            ({
                let v = old(self)@;
                let k = first_match(trigger_ids(v.checkpoint_triggers), equal_to(id));
                &&& k < v.checkpoint_triggers.len() ==> r == [false, false] && final(self)@ == (PathLogView {
                    checkpoint_triggers: v.checkpoint_triggers.remove(k),
                    ..v
                })
                &&& k >= v.checkpoint_triggers.len() ==> {
                    &&& r == [has_trigger_id(v.main_triggers[0], id), has_trigger_id(v.main_triggers[1], id)]
                    &&& final(self)@ == (PathLogView {
                        main_triggers: [
                            if r[0] { None } else { v.main_triggers[0] },
                            if r[1] { None } else { v.main_triggers[1] },
                        ],
                        ..v
                    })
                }
            }),
    {
        let ghost v = self@;
        let k = self.checkpoint_position(id);
        if k < self.checkpoint_triggers.len() {
            self.checkpoint_triggers.remove(k);
            assert(self@ =~= PathLogView { checkpoint_triggers: v.checkpoint_triggers.remove(k as int), ..v });
            return [false, false];
        }
        let hit0 = match &self.main_triggers[0] {
            Some(trigger) => trigger.id() == id,
            None => false,
        };
        let hit1 = match &self.main_triggers[1] {
            Some(trigger) => trigger.id() == id,
            None => false,
        };
        if hit0 {
            self.main_triggers.set(0, None);
        }
        if hit1 {
            self.main_triggers.set(1, None);
        }
        let r = [hit0, hit1];
        assert(self@ =~= PathLogView {
            main_triggers: [
                if r[0] { None } else { v.main_triggers[0] },
                if r[1] { None } else { v.main_triggers[1] },
            ],
            ..v
        });
        r
    }

    /// The position of the first checkpoint with the given id; the number of
    /// checkpoints when none has it.
    fn checkpoint_position(&self, id: u128) -> (r: usize)
        ensures
            r == first_match(trigger_ids(self@.checkpoint_triggers), equal_to(id)),
            r <= self@.checkpoint_triggers.len(),
    {
        let ghost ids = trigger_ids(self@.checkpoint_triggers);
        let mut i: usize = 0;
        while i < self.checkpoint_triggers.len()
            invariant
                0 <= i <= self.checkpoint_triggers.len(),
                ids == trigger_ids(self@.checkpoint_triggers),
                forall|j: int| 0 <= j < i ==> !equal_to(id)(#[trigger] ids[j]),
            decreases self.checkpoint_triggers.len() - i,
        {
            assert(ids[i as int] == self@.checkpoint_triggers[i as int]@.id);
            if self.checkpoint_triggers[i].id() == id {
                proof {
                    lemma_first_match(ids, equal_to(id), i as int);
                }
                return i;
            }
            i = i + 1;
        }
        proof {
            lemma_first_match(ids, equal_to(id), i as int);
        }
        i
    }

    /// Clears the mute and solo flags of the path being recorded.
    pub fn clear_recording_flags(&mut self)
        requires
            old(self).wf(),
        ensures
            final(self).wf(),
            final(self)@ == (PathLogView {
                mute_paths: old(self)@.mute_paths.insert(old(self)@.recording_path.id, false),
                solo_paths: old(self)@.solo_paths.insert(old(self)@.recording_path.id, false),
                ..old(self)@
            }),
    {
        let id = self.recording_path.id();
        self.mute_paths.insert(id, false);
        self.solo_paths.insert(id, false);
        assert(self@ =~= PathLogView {
            mute_paths: old(self)@.mute_paths.insert(old(self)@.recording_path.id, false),
            solo_paths: old(self)@.solo_paths.insert(old(self)@.recording_path.id, false),
            ..old(self)@
        });
    }
}

/// The map with the flag of `id` flipped, when it has one.
pub open spec fn flipped(m: Map<u128, bool>, id: u128) -> Map<u128, bool> {
    if m.contains_key(id) {
        m.insert(id, !m[id])
    } else {
        m
    }
}

/// The filters after the gold filter of a collection is switched: off
/// where it is on, on otherwise (in place of a path filter too).
pub open spec fn gold_toggled(filters: Map<u128, HighPassFilter>, cid: u128) -> Map<u128, HighPassFilter> {
    if filters.contains_key(cid) && filters[cid] == HighPassFilter::Gold {
        filters.remove(cid)
    } else {
        filters.insert(cid, HighPassFilter::Gold)
    }
}

/// The filters after a collection's filter is set on the path `pid`: off
/// where it is on that path already, on that path otherwise.
pub open spec fn path_filter_set(filters: Map<u128, HighPassFilter>, cid: u128, pid: u128) -> Map<
    u128,
    HighPassFilter,
> {
    if filters.contains_key(cid) && filters[cid] == (HighPassFilter::Path { id: pid }) {
        filters.remove(cid)
    } else {
        filters.insert(cid, HighPassFilter::Path { id: pid })
    }
}

/// Whether a click on the path `pid` of the collection `cid` can be
/// applied: the collection, the path and the collection's selection exist,
/// and a range selection finds the clicked path and its anchor in the
/// collection.
pub open spec fn select_possible(v: PathLogView, pid: u128, cid: u128, modifier: u8) -> bool {
    &&& has_collection(v.collections, cid)
    &&& v.paths.contains_key(pid)
    &&& v.selected_paths.contains_key(cid)
    &&& selection_possible(
        v.selected_paths[cid],
        v.collections[collection_position(v.collections, cid)].paths,
        v.paths[pid].id,
        modifier,
    )
}

/// The ids of a list of triggers.
pub open spec fn trigger_ids(ts: Seq<BoxCollider>) -> Seq<u128> {
    ts.map_values(|b: BoxCollider| b@.id)
}

/// Whether a trigger slot holds a trigger with the given id.
pub open spec fn has_trigger_id(t: Option<BoxCollider>, id: u128) -> bool {
    t matches Some(b) && b@.id == id
}

} // verus!
