use vstd::prelude::*;

use crate::pathdata::{
    segments_after_add, total_time, trigger_record, BoxCollider, CompFileView, HighPassFilter, Node,
    PathCollectionView, PathView,
};
use crate::pathlog::{
    added_all, added_to, after_update, collection_position, filter_of, filtered_insert,
    entries_stored, finished_path, has_collection, in_some_collection, insert_position,
    lemma_collection_found, shown, shown_paths, visible_prefix,
    lemma_filtered_insert_elements, lemma_no_collection_position, loaded, not_faster, saved_file, slower_or_path,
    stopped, stored_recording, structure_ok, time_of, triggers_set, visible_ids, visible_updated, well_formed,
    finishes, paused_after, primed_state, running_time, PathLogView,
};
use crate::seqs::{
    equal_to, first_match, lemma_first_match_before, lemma_first_match_bounds, lemma_first_match_found,
    lemma_first_match_le,
};

verus! {

/// The paths of a list come in order of time, fastest first.
pub open spec fn sorted_by_time(coll: Seq<u128>, paths: Map<u128, PathView>) -> bool {
    forall|i: int, j: int|
        0 <= i <= j < coll.len() ==> #[trigger] time_of(paths, coll[i]) <= #[trigger] time_of(paths, coll[j])
}

/// The new path took less time than every path of the list.
pub open spec fn faster_than_all(coll: Seq<u128>, paths: Map<u128, PathView>, new: u128) -> bool {
    forall|i: int| 0 <= i < coll.len() ==> time_of(paths, new) < #[trigger] time_of(paths, coll[i])
}

/// Inserting a path at a place where everything before it is no slower and
/// everything after it is no faster keeps a list in order.
proof fn lemma_insert_keeps_order(coll: Seq<u128>, paths: Map<u128, PathView>, p: int, new: u128)
    requires
        sorted_by_time(coll, paths),
        0 <= p <= coll.len(),
        forall|j: int| 0 <= j < p ==> #[trigger] time_of(paths, coll[j]) <= time_of(paths, new),
        forall|j: int| p <= j < coll.len() ==> time_of(paths, new) <= #[trigger] time_of(paths, coll[j]),
    ensures
        sorted_by_time(coll.insert(p, new), paths),
{
    let r = coll.insert(p, new);
    assert forall|i: int, j: int| 0 <= i <= j < r.len() implies #[trigger] time_of(paths, r[i])
        <= #[trigger] time_of(paths, r[j]) by {
        if i < p {
            assert(r[i] == coll[i]);
        } else if i > p {
            assert(r[i] == coll[i - 1]);
        }
        if j < p {
            assert(r[j] == coll[j]);
        } else if j > p {
            assert(r[j] == coll[j - 1]);
        }
    }
}

/// Offering a path to a collection that is in order of time leaves it in
/// order of time, whatever its filter.
pub proof fn law_offer_keeps_order(
    coll: Seq<u128>,
    paths: Map<u128, PathView>,
    filter: Option<HighPassFilter>,
    new: u128,
)
    requires
        sorted_by_time(coll, paths),
    ensures
        sorted_by_time(filtered_insert(coll, paths, filter, new), paths),
{
    let t = time_of(paths, new);
    match insert_position(coll, paths, filter, t) {
        None => {},
        Some(p) => {
            match filter {
                None => {
                    let pred = not_faster(paths, t);
                    lemma_first_match_bounds(coll, pred);
                    assert forall|j: int| 0 <= j < p implies #[trigger] time_of(paths, coll[j]) <= t by {
                        lemma_first_match_before(coll, pred, j);
                    }
                    if p < coll.len() {
                        lemma_first_match_found(coll, pred);
                        assert forall|j: int| p <= j < coll.len() implies t <= #[trigger] time_of(
                            paths,
                            coll[j],
                        ) by {
                            assert(time_of(paths, coll[p]) <= time_of(paths, coll[j]));
                        }
                    }
                    lemma_insert_keeps_order(coll, paths, p, new);
                },
                Some(HighPassFilter::Gold) => {
                    assert forall|j: int| 0 <= j < coll.len() implies t <= #[trigger] time_of(paths, coll[j]) by {
                        assert(time_of(paths, coll[0]) <= time_of(paths, coll[j]));
                    }
                    lemma_insert_keeps_order(coll, paths, p, new);
                },
                Some(HighPassFilter::Path { id }) => {
                    if coll.len() == 0 {
                        lemma_insert_keeps_order(coll, paths, p, new);
                    } else {
                        let pred = slower_or_path(paths, t, id);
                        lemma_first_match_bounds(coll, pred);
                        assert forall|j: int| 0 <= j < p implies #[trigger] time_of(paths, coll[j]) <= t by {
                            lemma_first_match_before(coll, pred, j);
                        }
                        assert forall|j: int| p <= j < coll.len() implies t <= #[trigger] time_of(
                            paths,
                            coll[j],
                        ) by {
                            assert(time_of(paths, coll[p]) <= time_of(paths, coll[j]));
                        }
                        lemma_insert_keeps_order(coll, paths, p, new);
                    }
                },
            }
        },
    }
}

/// With the gold filter a collection in order of time takes a new path
/// exactly when the path is faster than every path in it, and then puts it
/// first.
pub proof fn law_gold_filter(coll: Seq<u128>, paths: Map<u128, PathView>, new: u128)
    requires
        sorted_by_time(coll, paths),
    ensures
        faster_than_all(coll, paths, new) ==> filtered_insert(coll, paths, Some(HighPassFilter::Gold), new)
            == coll.insert(0, new),
        !faster_than_all(coll, paths, new) ==> filtered_insert(coll, paths, Some(HighPassFilter::Gold), new)
            == coll,
{
    let t = time_of(paths, new);
    if coll.len() > 0 && time_of(paths, coll[0]) > t {
        assert forall|i: int| 0 <= i < coll.len() implies t < #[trigger] time_of(paths, coll[i]) by {
            assert(time_of(paths, coll[0]) <= time_of(paths, coll[i]));
        }
    }
}

/// With a filter on one of its paths, a collection in order of time whose
/// paths are stored under their own ids takes a new path exactly when the
/// path is faster than the filter path, and then puts it before the filter
/// path, which stays.
pub proof fn law_path_filter(coll: Seq<u128>, paths: Map<u128, PathView>, fid: u128, new: u128)
    requires
        sorted_by_time(coll, paths),
        coll.contains(fid),
        forall|i: int| 0 <= i < coll.len() ==> (#[trigger] paths[coll[i]]).id == coll[i],
    ensures
        time_of(paths, new) < time_of(paths, fid) ==> exists|p: int|
            0 <= p <= first_match(coll, equal_to(fid)) && filtered_insert(
                coll,
                paths,
                Some(HighPassFilter::Path { id: fid }),
                new,
            ) == coll.insert(p, new),
        time_of(paths, new) >= time_of(paths, fid) ==> filtered_insert(
            coll,
            paths,
            Some(HighPassFilter::Path { id: fid }),
            new,
        ) == coll,
{
    let t = time_of(paths, new);
    let pred = slower_or_path(paths, t, fid);
    let q = first_match(coll, equal_to(fid));
    let k = choose|k: int| 0 <= k < coll.len() && coll[k] == fid;
    lemma_first_match_le(coll, equal_to(fid), k);
    lemma_first_match_bounds(coll, equal_to(fid));
    lemma_first_match_found(coll, equal_to(fid));
    assert(coll[q] == fid);
    assert(pred(coll[q]));
    lemma_first_match_le(coll, pred, q);
    lemma_first_match_bounds(coll, pred);
    let p = first_match(coll, pred);
    lemma_first_match_found(coll, pred);
    if t >= time_of(paths, fid) {
        if p < q {
            assert(time_of(paths, coll[p]) <= time_of(paths, coll[q]));
            if paths[coll[p]].id == fid {
                lemma_first_match_before(coll, equal_to(fid), p);
            }
        }
    } else {
        assert(paths[coll[p]].id == coll[p]);
        assert(time_of(paths, coll[p]) > t);
        assert(filtered_insert(coll, paths, Some(HighPassFilter::Path { id: fid }), new) == coll.insert(p, new));
    }
}

/// Without a filter a collection takes every new path, and puts it before
/// the first path that is not faster.
pub proof fn law_no_filter_takes_all(coll: Seq<u128>, paths: Map<u128, PathView>, new: u128)
    ensures
        filtered_insert(coll, paths, None, new) == coll.insert(
            first_match(coll, not_faster(paths, time_of(paths, new))),
            new,
        ),
        0 <= first_match(coll, not_faster(paths, time_of(paths, new))) <= coll.len(),
{
    lemma_first_match_bounds(coll, not_faster(paths, time_of(paths, new)));
}

/// The list after the paths `ids` are offered to it one after the other.
pub open spec fn offered_all(
    coll: Seq<u128>,
    paths: Map<u128, PathView>,
    filter: Option<HighPassFilter>,
    ids: Seq<u128>,
) -> Seq<u128>
    decreases ids.len(),
{
    if ids.len() == 0 {
        coll
    } else {
        filtered_insert(offered_all(coll, paths, filter, ids.drop_last()), paths, filter, ids.last())
    }
}

/// Offering paths to the compared paths, which no collection shares an id
/// with, changes nothing but the compared list and the mute and solo flags.
pub proof fn lemma_offers_to_compared(v: PathLogView, ids: Seq<u128>)
    requires
        !has_collection(v.collections, v.compared.id),
    ensures
        added_all(v, ids, v.compared.id) == (PathLogView {
            compared: PathCollectionView {
                paths: offered_all(v.compared.paths, v.paths, filter_of(v.filters, v.compared.id), ids),
                ..v.compared
            },
            mute_paths: added_all(v, ids, v.compared.id).mute_paths,
            solo_paths: added_all(v, ids, v.compared.id).solo_paths,
            ..v
        }),
    decreases ids.len(),
{
    if ids.len() > 0 {
        lemma_offers_to_compared(v, ids.drop_last());
        let w = added_all(v, ids.drop_last(), v.compared.id);
        lemma_no_collection_position(w.collections, v.compared.id);
        assert(added_all(v, ids, v.compared.id) == added_to(w, ids.last(), v.compared.id));
    }
}

/// Offering paths one after the other to a list in order of time, without
/// a filter, gives a list in order of time that holds exactly the old paths
/// and the offered ones.
proof fn lemma_offered_all_unfiltered(coll: Seq<u128>, paths: Map<u128, PathView>, ids: Seq<u128>)
    requires
        sorted_by_time(coll, paths),
    ensures
        sorted_by_time(offered_all(coll, paths, None, ids), paths),
        forall|x: u128| coll.contains(x) || ids.contains(x) ==> #[trigger] offered_all(coll, paths, None, ids).contains(x),
        forall|x: u128| #[trigger] offered_all(coll, paths, None, ids).contains(x) ==> coll.contains(x) || ids.contains(x),
    decreases ids.len(),
{
    if ids.len() > 0 {
        let prev = ids.drop_last();
        let new = ids.last();
        lemma_offered_all_unfiltered(coll, paths, prev);
        let acc = offered_all(coll, paths, None, prev);
        let r = offered_all(coll, paths, None, ids);
        law_offer_keeps_order(acc, paths, None, new);
        law_no_filter_takes_all(acc, paths, new);
        let p = first_match(acc, not_faster(paths, time_of(paths, new)));
        assert(r == acc.insert(p, new));
        assert forall|x: u128| coll.contains(x) || ids.contains(x) implies #[trigger] r.contains(x) by {
            if x == new {
                assert(r[p] == new);
            } else {
                if ids.contains(x) {
                    let k = choose|k: int| 0 <= k < ids.len() && ids[k] == x;
                    assert(prev[k] == x);
                }
                assert(acc.contains(x));
                let k = choose|k: int| 0 <= k < acc.len() && acc[k] == x;
                if k < p {
                    assert(r[k] == x);
                } else {
                    assert(r[k + 1] == x);
                }
            }
        }
        assert forall|x: u128| #[trigger] r.contains(x) implies coll.contains(x) || ids.contains(x) by {
            lemma_filtered_insert_elements(acc, paths, None, new, x);
            if acc.contains(x) {
                if prev.contains(x) {
                    let k = choose|k: int| 0 <= k < prev.len() && prev[k] == x;
                    assert(ids[k] == x);
                }
            } else {
                assert(ids[ids.len() - 1] == x);
            }
        }
    }
}

/// Appending a value that a list without repeats does not hold keeps it
/// without repeats.
proof fn lemma_push_fresh(s: Seq<u128>, x: u128)
    requires
        s.no_duplicates(),
        !s.contains(x),
    ensures
        s.push(x).no_duplicates(),
{
    assert forall|i: int| 0 <= i < s.len() implies s[i] != x by {
        if s[i] == x {
            assert(s.contains(x));
        }
    }
    vstd::seq_lib::lemma_no_dup_in_concat(s, seq![x]);
    assert(s + seq![x] =~= s.push(x));
}

/// The shown paths a collection adds are new: after a list without repeats
/// they leave it without repeats.
proof fn lemma_shown_paths_fresh(ps: Seq<u128>, acc: Seq<u128>, solo: Map<u128, bool>, mute: Map<u128, bool>)
    requires
        acc.no_duplicates(),
    ensures
        (acc + shown_paths(ps, acc, solo, mute)).no_duplicates(),
    decreases ps.len(),
{
    if ps.len() > 0 {
        lemma_shown_paths_fresh(ps.drop_last(), acc, solo, mute);
        let r = shown_paths(ps.drop_last(), acc, solo, mute);
        let x = ps.last();
        if !(acc + r).contains(x) && shown(solo, mute, x) {
            lemma_push_fresh(acc + r, x);
            assert(acc + r.push(x) =~= (acc + r).push(x));
        }
    }
}

/// The shown paths of the shown collections come each once.
proof fn lemma_visible_prefix_fresh(v: PathLogView, n: int)
    ensures
        visible_prefix(v, n).no_duplicates(),
    decreases n,
{
    if n > 0 {
        lemma_visible_prefix_fresh(v, n - 1);
        let acc = visible_prefix(v, n - 1);
        lemma_shown_paths_fresh(v.collections[n - 1].paths, acc, v.solo_paths, v.mute_paths);
    }
}

/// Offering paths without repeats, none of them in the list already, to a
/// list without repeats and without a filter gives a list without repeats.
proof fn lemma_offered_all_fresh(coll: Seq<u128>, paths: Map<u128, PathView>, ids: Seq<u128>)
    requires
        (coll + ids).no_duplicates(),
    ensures
        offered_all(coll, paths, None, ids).no_duplicates(),
        forall|x: u128| #[trigger] offered_all(coll, paths, None, ids).contains(x) ==> coll.contains(x) || ids.contains(x),
    decreases ids.len(),
{
    if ids.len() == 0 {
        assert(coll + ids =~= coll);
    } else {
        let prev = ids.drop_last();
        let new = ids.last();
        let all = coll + ids;
        assert(coll + prev =~= all.drop_last());
        lemma_offered_all_fresh(coll, paths, prev);
        let acc = offered_all(coll, paths, None, prev);
        law_no_filter_takes_all(acc, paths, new);
        let p = first_match(acc, not_faster(paths, time_of(paths, new)));
        let r = acc.insert(p, new);
        assert(all[all.len() - 1] == new);
        assert(!acc.contains(new)) by {
            if acc.contains(new) {
                if coll.contains(new) {
                    let k = choose|k: int| 0 <= k < coll.len() && coll[k] == new;
                    assert(all[k] == new);
                } else {
                    let k = choose|k: int| 0 <= k < prev.len() && prev[k] == new;
                    assert(all[coll.len() + k] == new);
                }
            }
        }
        assert forall|i: int, j: int| 0 <= i < r.len() && 0 <= j < r.len() && i != j implies r[i] != r[j] by {
            if i == p {
                let jj = if j < p { j } else { j - 1 };
                assert(r[j] == acc[jj]);
            } else if j == p {
                let ii = if i < p { i } else { i - 1 };
                assert(r[i] == acc[ii]);
            } else {
                let ii = if i < p { i } else { i - 1 };
                let jj = if j < p { j } else { j - 1 };
                assert(r[i] == acc[ii]);
                assert(r[j] == acc[jj]);
            }
        }
        assert forall|x: u128| #[trigger] r.contains(x) implies coll.contains(x) || ids.contains(x) by {
            lemma_filtered_insert_elements(acc, paths, None, new, x);
            if acc.contains(x) {
                if prev.contains(x) {
                    let k = choose|k: int| 0 <= k < prev.len() && prev[k] == x;
                    assert(ids[k] == x);
                }
            } else {
                assert(ids[ids.len() - 1] == x);
            }
        }
    }
}

/// When the compared paths have no filter, working them out again lists
/// every shown path of every shown collection and nothing else, each once,
/// in order of time.
pub proof fn law_compared_sorted_and_complete(v: PathLogView)
    requires
        structure_ok(v),
        filter_of(v.filters, v.compared.id) is None,
    ensures
        sorted_by_time(visible_updated(v).compared.paths, v.paths),
        forall|x: u128| visible_ids(v).contains(x) ==> #[trigger] visible_updated(v).compared.paths.contains(x),
        forall|x: u128| #[trigger] visible_updated(v).compared.paths.contains(x) ==> visible_ids(v).contains(x),
        visible_updated(v).compared.paths.no_duplicates(),
{
    let cleared = PathLogView {
        compared: PathCollectionView { paths: Seq::empty(), ..v.compared },
        ignored: Seq::new(v.collections.len(), |i: int| Seq::<u128>::empty()),
        ..v
    };
    lemma_offers_to_compared(cleared, visible_ids(v));
    lemma_offered_all_unfiltered(Seq::empty(), v.paths, visible_ids(v));
    lemma_visible_prefix_fresh(v, v.collections.len() as int);
    assert(Seq::<u128>::empty() + visible_ids(v) =~= visible_ids(v));
    lemma_offered_all_fresh(Seq::empty(), v.paths, visible_ids(v));
}

/// Stopping a recording, when recordings are not direct and the active
/// collection exists, stores the finished path under its id and offers it
/// to that collection under the collection's filter; every other collection
/// stays as it was, the finished path becomes the latest one, and the
/// filters and the active collection stay.
pub proof fn law_stop_stores_recording(v: PathLogView, t: u64, next_id: u128)
    requires
        well_formed(v),
        v.recording,
        !v.direct,
        v.active_collection is Some,
        has_collection(v.collections, v.active_collection->0),
    ensures
        0 <= collection_position(v.collections, v.active_collection->0) < v.collections.len(),
        stopped(v, t, next_id).paths == v.paths.insert(v.recording_path.id, finished_path(v, t)),
        stopped(v, t, next_id).collections == v.collections.update(
            collection_position(v.collections, v.active_collection->0),
            PathCollectionView {
                paths: filtered_insert(
                    v.collections[collection_position(v.collections, v.active_collection->0)].paths,
                    v.paths.insert(v.recording_path.id, finished_path(v, t)),
                    filter_of(v.filters, v.active_collection->0),
                    v.recording_path.id,
                ),
                ..v.collections[collection_position(v.collections, v.active_collection->0)]
            },
        ),
        stopped(v, t, next_id).latest_path == v.recording_path.id,
        stopped(v, t, next_id).latest_time == total_time(finished_path(v, t).times),
        !stopped(v, t, next_id).recording,
        stopped(v, t, next_id).filters == v.filters,
        stopped(v, t, next_id).active_collection == v.active_collection,
{
    let a = v.active_collection->0;
    lemma_collection_found(v.collections, a);
    let k = collection_position(v.collections, a);
    let rec = finished_path(v, t);
    let ps = v.paths.insert(rec.id, rec);
    let cols = v.collections.update(
        k,
        PathCollectionView {
            paths: filtered_insert(v.collections[k].paths, ps, filter_of(v.filters, a), rec.id),
            ..v.collections[k]
        },
    );
    let st = stored_recording(v, t);
    assert(st.collections == cols);
    assert(st.paths == ps);
    let sv = PathLogView {
        latest_path: v.recording_path.id,
        recording_path: PathView { id: next_id, times: Seq::empty(), segments: Seq::empty() },
        started: false,
        ..st
    };
    let cleared = PathLogView {
        compared: PathCollectionView { paths: Seq::empty(), ..sv.compared },
        ignored: Seq::new(sv.collections.len(), |i: int| Seq::<u128>::empty()),
        ..sv
    };
    assert(!has_collection(cols, v.compared.id)) by {
        if has_collection(cols, v.compared.id) {
            let i = choose|i: int| 0 <= i < cols.len() && #[trigger] cols[i].id == v.compared.id;
            assert(v.collections[i].id == v.compared.id);
        }
    }
    assert(sv.compared.id == v.compared.id);
    lemma_offers_to_compared(cleared, visible_ids(sv));
    assert(stopped(v, t, next_id) == added_all(cleared, visible_ids(sv), sv.compared.id));
}

/// Stopping a recording keeps the active collection in order of time when
/// it was in order before.
pub proof fn law_stop_keeps_order(v: PathLogView, t: u64, next_id: u128)
    requires
        well_formed(v),
        v.recording,
        !v.direct,
        v.active_collection is Some,
        has_collection(v.collections, v.active_collection->0),
        sorted_by_time(v.collections[collection_position(v.collections, v.active_collection->0)].paths, v.paths),
    ensures
        sorted_by_time(
            stopped(v, t, next_id).collections[collection_position(v.collections, v.active_collection->0)].paths,
            stopped(v, t, next_id).paths,
        ),
{
    law_stop_stores_recording(v, t, next_id);
    let a = v.active_collection->0;
    let k = collection_position(v.collections, a);
    let rec = finished_path(v, t);
    let ps = v.paths.insert(rec.id, rec);
    let coll = v.collections[k].paths;
    assert forall|i: int, j: int| 0 <= i <= j < coll.len() implies #[trigger] time_of(ps, coll[i]) <= #[trigger] time_of(
        ps,
        coll[j],
    ) by {
        if coll[i] == rec.id || coll[j] == rec.id {
            assert(v.collections[k].paths.contains(v.recording_path.id));
        }
        assert(time_of(v.paths, coll[i]) <= time_of(v.paths, coll[j]));
    }
    law_offer_keeps_order(coll, ps, filter_of(v.filters, a), rec.id);
}

/// Loading what saving wrote gives back the saved paths and collections and
/// triggers at the saved places: the snapshot of a well formed state lists
/// only stored paths, so loading takes it, and the state loaded from it
/// (whatever state it is loaded into) holds the same paths, the same
/// collections, and triggers with the same position, rotation and size.
pub proof fn law_save_then_load(
    v: PathLogView,
    data: CompFileView,
    w: PathLogView,
    t0: BoxCollider,
    t1: BoxCollider,
    compared_id: u128,
    recording_id: u128,
)
    requires
        well_formed(v),
        saved_file(v, data),
        trigger_record(t0@) == data.trigger_data[0],
        trigger_record(t1@) == data.trigger_data[1],
        !has_collection(data.collections, compared_id),
    ensures
        entries_stored(data.collections, data.paths),
        loaded(w, data, t0, t1, compared_id, recording_id).paths == v.paths,
        loaded(w, data, t0, t1, compared_id, recording_id).collections == v.collections,
        trigger_record(loaded(w, data, t0, t1, compared_id, recording_id).main_triggers[0]->0@)
            == trigger_record(v.main_triggers[0]->0@),
        trigger_record(loaded(w, data, t0, t1, compared_id, recording_id).main_triggers[1]->0@)
            == trigger_record(v.main_triggers[1]->0@),
{
    law_load_keeps_file(w, data, t0, t1, compared_id, recording_id);
}

/// Loading a file takes its paths and its collections exactly as the file
/// has them, repeats included, and places the triggers it is given.
pub proof fn law_load_keeps_file(
    w: PathLogView,
    data: CompFileView,
    t0: BoxCollider,
    t1: BoxCollider,
    compared_id: u128,
    recording_id: u128,
)
    requires
        !has_collection(data.collections, compared_id),
    ensures
        loaded(w, data, t0, t1, compared_id, recording_id).paths == data.paths,
        loaded(w, data, t0, t1, compared_id, recording_id).collections == data.collections,
        loaded(w, data, t0, t1, compared_id, recording_id).main_triggers == [Some(t0), Some(t1)],
{
    let lv = PathLogView {
        main_triggers: [Some(t0), Some(t1)],
        paths: data.paths,
        collections: data.collections,
        current_file: None,
        mute_paths: Map::new(|x: u128| in_some_collection(data.collections, x), |x: u128| false),
        solo_paths: Map::new(|x: u128| in_some_collection(data.collections, x), |x: u128| false),
        mute_collections: Map::new(|x: u128| has_collection(data.collections, x), |x: u128| false),
        solo_collections: Map::new(|x: u128| has_collection(data.collections, x), |x: u128| false),
        selected_paths: Map::new(|x: u128| has_collection(data.collections, x), |x: u128| Seq::<u128>::empty()),
        compared: PathCollectionView { id: compared_id, ..w.compared },
        recording_path: PathView { id: recording_id, ..w.recording_path },
        ..w
    };
    let cleared = PathLogView {
        compared: PathCollectionView { paths: Seq::empty(), ..lv.compared },
        ignored: Seq::new(lv.collections.len(), |i: int| Seq::<u128>::empty()),
        ..lv
    };
    lemma_offers_to_compared(cleared, visible_ids(lv));
    assert(loaded(w, data, t0, t1, compared_id, recording_id) == added_all(cleared, visible_ids(lv), compared_id));
}

/// Entering the start trigger, with both triggers placed, primes the
/// start; with autoreset on it also drops a running recording, and with it
/// off a running recording goes on.
pub proof fn law_start_trigger_primes(v: PathLogView, center: Node, t: u64, next_id: u128)
    requires
        triggers_set(v),
        !v.primed,
    ensures
        after_update(v, [true, false], center, t, next_id).primed,
        v.autoreset ==> !after_update(v, [true, false], center, t, next_id).recording,
        !v.autoreset ==> after_update(v, [true, false], center, t, next_id).recording == v.recording,
{
}

/// Leaving the primed start trigger starts a recording, and the position
/// of that frame becomes its first node.
pub proof fn law_leaving_start_starts(v: PathLogView, center: Node, t: u64, next_id: u128)
    requires
        triggers_set(v),
        v.primed,
        !v.recording,
        !v.paused,
    ensures
        after_update(v, [false, false], center, t, next_id).recording,
        after_update(v, [false, false], center, t, next_id).started,
        !after_update(v, [false, false], center, t, next_id).primed,
        after_update(v, [false, false], center, t, next_id).recording_path.segments == segments_after_add(
            v.recording_path.segments,
            v.recording_path.times,
            center,
        ),
{
}

/// Reaching the finish trigger while recording stops the recording, as
/// stopping does, and adds no node.
pub proof fn law_finish_trigger_stops(v: PathLogView, center: Node, t: u64, next_id: u128)
    requires
        well_formed(v),
        triggers_set(v),
        v.recording,
        !v.primed,
    ensures
        after_update(v, [false, true], center, t, next_id) == stopped(v, t, next_id),
{
    if !v.direct && v.active_collection is Some && has_collection(v.collections, v.active_collection->0) {
        law_stop_stores_recording(v, t, next_id);
    } else {
        let st = stored_recording(v, t);
        let sv = PathLogView {
            latest_path: v.recording_path.id,
            recording_path: PathView { id: next_id, times: Seq::empty(), segments: Seq::empty() },
            started: false,
            ..st
        };
        let cleared = PathLogView {
            compared: PathCollectionView { paths: Seq::empty(), ..sv.compared },
            ignored: Seq::new(sv.collections.len(), |i: int| Seq::<u128>::empty()),
            ..sv
        };
        assert(sv.collections == v.collections);
        lemma_offers_to_compared(cleared, visible_ids(sv));
        assert(stopped(v, t, next_id) == added_all(cleared, visible_ids(sv), sv.compared.id));
    }
}

/// A frame while the recording is paused adds no position: when it does not
/// reach the finish, the recording path is the one the trigger checks leave,
/// which is the old one unless the frame enters the start trigger with
/// autoreset on; the recording stays paused.
pub proof fn law_paused_frame_adds_nothing(v: PathLogView, in_trigger: [bool; 2], center: Node, t: u64, next_id: u128)
    requires
        v.paused,
        !finishes(v, in_trigger),
    ensures
        after_update(v, in_trigger, center, t, next_id).recording_path == primed_state(v, in_trigger).recording_path,
        !(triggers_set(v) && in_trigger[0] && !v.primed && v.autoreset) ==> after_update(
            v,
            in_trigger,
            center,
            t,
            next_id,
        ).recording_path == v.recording_path,
        after_update(v, in_trigger, center, t, next_id).paused,
{
}

/// A frame of a running, unpaused recording away from both triggers (and
/// not primed) adds the player's position to the open segment and changes
/// nothing else of the recording.
pub proof fn law_running_frame_adds_node(v: PathLogView, in_trigger: [bool; 2], center: Node, t: u64, next_id: u128)
    requires
        v.recording,
        !v.paused,
        !v.primed,
        !in_trigger[0],
        !in_trigger[1],
    ensures
        after_update(v, in_trigger, center, t, next_id).recording_path.segments == segments_after_add(
            v.recording_path.segments,
            v.recording_path.times,
            center,
        ),
        after_update(v, in_trigger, center, t, next_id).recording_path.times == v.recording_path.times,
        after_update(v, in_trigger, center, t, next_id).recording,
{
}

/// Stopping closes the recording with the time `t` of its running segment:
/// the finished path, which becomes the latest one, took the time of its
/// earlier segments plus `t`.
pub proof fn law_stop_time(v: PathLogView, t: u64, next_id: u128)
    requires
        well_formed(v),
        v.recording,
    ensures
        stopped(v, t, next_id).latest_path == v.recording_path.id,
        total_time(v.recording_path.times) + t <= u64::MAX ==> stopped(v, t, next_id).latest_time == total_time(
            v.recording_path.times,
        ) + t,
        total_time(finished_path(v, t).times) == (total_time(v.recording_path.times) + t) % 0x1_0000_0000_0000_0000,
{
    assert(finished_path(v, t).times.drop_last() =~= v.recording_path.times);
    if !v.direct && v.active_collection is Some && has_collection(v.collections, v.active_collection->0) {
        law_stop_stores_recording(v, t, next_id);
    } else {
        let st = stored_recording(v, t);
        let sv = PathLogView {
            latest_path: v.recording_path.id,
            recording_path: PathView { id: next_id, times: Seq::empty(), segments: Seq::empty() },
            started: false,
            ..st
        };
        let cleared = PathLogView {
            compared: PathCollectionView { paths: Seq::empty(), ..sv.compared },
            ignored: Seq::new(sv.collections.len(), |i: int| Seq::<u128>::empty()),
            ..sv
        };
        assert(sv.collections == v.collections);
        lemma_offers_to_compared(cleared, visible_ids(sv));
        assert(stopped(v, t, next_id) == added_all(cleared, visible_ids(sv), sv.compared.id));
    }
}

/// Pausing closes the running segment with its time `t` and opens a new,
/// empty one: the recording's time grows by `t`, and its earlier segments
/// stay.
pub proof fn law_pause_time(v: PathLogView, t: u64)
    ensures
        paused_after(v, t).paused,
        paused_after(v, t).recording_path.times.len() == v.recording_path.times.len() + 1,
        paused_after(v, t).recording_path.times.last() == t,
        paused_after(v, t).recording_path.times.drop_last() == v.recording_path.times,
        total_time(v.recording_path.times) + t <= u64::MAX ==> total_time(paused_after(v, t).recording_path.times)
            == total_time(v.recording_path.times) + t,
        paused_after(v, t).recording_path.segments.len() == v.recording_path.segments.len() + 1,
        paused_after(v, t).recording_path.segments.last() == Seq::<Node>::empty(),
{
    assert(paused_after(v, t).recording_path.times.drop_last() =~= v.recording_path.times);
}

/// A pause does not lose time: a running recording paused after `t1`
/// milliseconds, resumed, and stopped `t2` milliseconds later took the time
/// of its earlier segments plus `t1` plus `t2`.
pub proof fn law_pause_then_stop(v: PathLogView, t1: u64, t2: u64, next_id: u128)
    requires
        well_formed(v),
        v.recording,
        !v.paused,
        total_time(v.recording_path.times) + t1 + t2 <= u64::MAX,
    ensures
        ({
            let resumed = PathLogView { paused: false, started: true, ..paused_after(v, t1) };
            stopped(resumed, t2, next_id).latest_time == total_time(v.recording_path.times) + t1 + t2
        }),
{
    let resumed = PathLogView { paused: false, started: true, ..paused_after(v, t1) };
    law_pause_time(v, t1);
    assert(resumed.recording_path.id == v.recording_path.id);
    assert(resumed.collections == v.collections);
    law_stop_time(resumed, t2, next_id);
}

/// The running timer is the time of the finished segments plus the time of
/// the running one, and it never runs backwards as that time grows.
pub proof fn law_running_time(e1: u64, e2: u64, times: Seq<u64>)
    ensures
        total_time(times) + e1 <= u64::MAX ==> running_time(e1, times) == total_time(times) + e1,
        running_time(e1, times) >= total_time(times),
        e1 <= e2 ==> running_time(e1, times) <= running_time(e2, times),
{
}

} // verus!
