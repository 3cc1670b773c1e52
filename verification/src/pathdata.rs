use std::collections::HashMap;
use vstd::prelude::*;
use vstd::string::StringExecFns;

use crate::ids::random_id;
use crate::seqs::{equal_to, first_match, lemma_first_match, lemma_first_match_bounds, lemma_first_match_found, lemma_first_match_le};

verus! {

broadcast use {
    vstd::std_specs::hash::group_hash_axioms,
    vstd::std_specs::hash::axiom_u128_obeys_hash_table_key_model,
    vstd::std_specs::hash::axiom_random_state_builds_valid_hashers,
};

/// The name a collection gets when it is renamed to an empty name.
pub const DEFAULT_NAME_FOR_EMPTY: &'static str = "can't put nothing bro";

/// The version written into new comparison files.
pub const CURRENT_FILE_VERSION: &'static str = "0.5.1";

/// A recorded position: the bit patterns of its three `f32` coordinates.
pub type Node = [u32; 3];

/// The sum of the recorded segment times, in milliseconds, wrapping at `2^64`.
pub open spec fn total_time(times: Seq<u64>) -> u64
    decreases times.len(),
{
    if times.len() == 0 {
        0
    } else {
        total_time(times.drop_last()).wrapping_add(times.last())
    }
}

/// The number of nodes over all segments.
pub open spec fn total_nodes(segments: Seq<Seq<Node>>) -> int
    decreases segments.len(),
{
    if segments.len() == 0 {
        0
    } else {
        total_nodes(segments.drop_last()) + segments.last().len()
    }
}

/// The segments after a node is added: an open last segment (one without a
/// time yet) gets the node, a closed one does not.
pub open spec fn segments_after_add(segments: Seq<Seq<Node>>, times: Seq<u64>, pos: Node) -> Seq<Seq<Node>> {
    let segs = if segments.len() == 0 { seq![Seq::<Node>::empty()] } else { segments };
    let last = segs.len() - 1;
    if last < times.len() {
        segs
    } else {
        segs.update(last, segs[last].push(pos))
    }
}

/// The abstract content of a path: its id, the time of each finished
/// segment, and the nodes of each segment.
#[verifier::ext_equal]
pub struct PathView {
    pub id: u128,
    pub times: Seq<u64>,
    pub segments: Seq<Seq<Node>>,
}

/// A recorded route, cut into segments wherever the recording was paused.
#[derive(Clone, Debug)]
pub struct Path {
    id: u128,
    times: Vec<u64>,
    segments: Vec<Vec<Node>>,
}

impl View for Path {
    type V = PathView;

    closed spec fn view(&self) -> PathView {
        PathView {
            id: self.id,
            times: self.times@,
            segments: self.segments@.map_values(|s: Vec<Node>| s@),
        }
    }
}

/// A copy of a list of nodes.
pub fn copy_nodes(nodes: &Vec<Node>) -> (r: Vec<Node>)
    ensures
        r@ == nodes@,
{
    let mut r: Vec<Node> = Vec::new();
    let mut i: usize = 0;
    while i < nodes.len()
        invariant
            0 <= i <= nodes.len(),
            r@ == nodes@.take(i as int),
        decreases nodes.len() - i,
    {
        let n: Node = nodes[i];
        r.push(n);
        i = i + 1;
        assert(r@ =~= nodes@.take(i as int));
    }
    assert(nodes@.take(nodes.len() as int) =~= nodes@);
    r
}

/// A copy of a list of segments.
pub fn copy_segments(segments: &Vec<Vec<Node>>) -> (r: Vec<Vec<Node>>)
    ensures
        r@.map_values(|s: Vec<Node>| s@) == segments@.map_values(|s: Vec<Node>| s@),
{
    let mut r: Vec<Vec<Node>> = Vec::new();
    let mut i: usize = 0;
    while i < segments.len()
        invariant
            0 <= i <= segments.len(),
            r@.len() == i,
            forall|j: int| 0 <= j < i ==> (#[trigger] r@[j])@ == segments@[j]@,
        decreases segments.len() - i,
    {
        let s = copy_nodes(&segments[i]);
        r.push(s);
        i = i + 1;
    }
    assert(r@.map_values(|s: Vec<Node>| s@) =~= segments@.map_values(|s: Vec<Node>| s@));
    r
}

/// A copy of a list of times.
pub fn copy_times(times: &Vec<u64>) -> (r: Vec<u64>)
    ensures
        r@ == times@,
{
    let mut r: Vec<u64> = Vec::new();
    let mut i: usize = 0;
    while i < times.len()
        invariant
            0 <= i <= times.len(),
            r@ == times@.take(i as int),
        decreases times.len() - i,
    {
        r.push(times[i]);
        i = i + 1;
        assert(r@ =~= times@.take(i as int));
    }
    assert(times@.take(times.len() as int) =~= times@);
    r
}

impl Path {
    /// An empty path with a new random id.
    pub fn new() -> (r: Path)
        ensures
            r@.times == Seq::<u64>::empty(),
            r@.segments == Seq::<Seq<Node>>::empty(),
    {
        Path::with_id(random_id())
    }

    /// An empty path with the given id.
    pub fn with_id(id: u128) -> (r: Path)
        ensures
            r@.id == id,
            r@.times == Seq::<u64>::empty(),
            r@.segments == Seq::<Seq<Node>>::empty(),
    {
        let r = Path { id, times: Vec::new(), segments: Vec::new() };
        assert(r@.segments =~= Seq::<Seq<Node>>::empty());
        r
    }

    /// A path with the given id, segment times and segments.
    pub fn from_parts(id: u128, times: Vec<u64>, segments: Vec<Vec<Node>>) -> (r: Path)
        ensures
            r@.id == id,
            r@.times == times@,
            r@.segments == segments@.map_values(|s: Vec<Node>| s@),
    {
        Path { id, times, segments }
    }

    /// Replaces the id; segments and times stay.
    pub(crate) fn set_id(&mut self, id: u128)
        ensures
            final(self)@ == (PathView { id, ..old(self)@ }),
    {
        self.id = id;
    }

    /// A copy of this path.
    pub fn clone_path(&self) -> (r: Path)
        ensures
            r@ == self@,
    {
        let r = Path {
            id: self.id,
            times: copy_times(&self.times),
            segments: copy_segments(&self.segments),
        };
        r
    }

    /// The number of nodes over all segments.
    pub fn len(&self) -> (r: usize)
        requires
            total_nodes(self@.segments) <= usize::MAX,
        ensures
            r == total_nodes(self@.segments),
    {
        let mut sum: usize = 0;
        let mut i: usize = 0;
        let ghost segs = self@.segments;
        while i < self.segments.len()
            invariant
                0 <= i <= self.segments.len(),
                segs == self@.segments,
                segs.len() == self.segments.len(),
                total_nodes(segs) <= usize::MAX,
                sum == total_nodes(segs.take(i as int)),
            decreases self.segments.len() - i,
        {
            proof {
                assert(segs.take(i + 1).drop_last() =~= segs.take(i as int));
                lemma_total_nodes_prefix(segs, i + 1);
            }
            sum = sum + self.segments[i].len();
            i = i + 1;
        }
        assert(segs.take(i as int) =~= segs);
        sum
    }

    /// The number of nodes of segment `index`, if there is such a segment.
    pub fn segment_len(&self, index: usize) -> (r: Option<usize>)
        ensures
            r == (if index < self@.segments.len() {
                Some(self@.segments[index as int].len() as usize)
            } else {
                None
            }),
    {
        if index < self.segments.len() {
            Some(self.segments[index].len())
        } else {
            None
        }
    }

    /// The id of this path.
    pub fn id(&self) -> (r: u128)
        ensures
            r == self@.id,
    {
        self.id
    }

    /// Node `index` of segment `segment`, if there is one.
    pub fn get_node(&self, segment: usize, index: usize) -> (r: Option<Node>)
        ensures
            r == (if segment < self@.segments.len() && index < self@.segments[segment as int].len() {
                Some(self@.segments[segment as int][index as int])
            } else {
                None
            }),
    {
        if segment < self.segments.len() && index < self.segments[segment].len() {
            Some(self.segments[segment][index])
        } else {
            None
        }
    }

    /// A copy of all segments.
    pub fn segments(&self) -> (r: Vec<Vec<Node>>)
        ensures
            r@.map_values(|s: Vec<Node>| s@) == self@.segments,
    {
        copy_segments(&self.segments)
    }

    /// A copy of the nodes of segment `index`, if there is such a segment.
    pub fn segment_nodes(&self, index: usize) -> (r: Option<Vec<Node>>)
        ensures
            match r {
                Some(v) => index < self@.segments.len() && v@ == self@.segments[index as int],
                None => index >= self@.segments.len(),
            },
    {
        if index < self.segments.len() {
            Some(copy_nodes(&self.segments[index]))
        } else {
            None
        }
    }

    /// Closes the current segment with the time it took and opens a new one.
    pub fn end_segment(&mut self, time: u64)
        ensures
            final(self)@.id == old(self)@.id,
            final(self)@.segments == old(self)@.segments.push(Seq::<Node>::empty()),
            final(self)@.times == old(self)@.times.push(time),
    {
        self.segments.push(Vec::new());
        self.times.push(time);
        assert(self@.segments =~= old(self)@.segments.push(Seq::<Node>::empty()));
    }

    /// Closes the path with the time of its last segment.
    pub fn end_path(&mut self, time: u64)
        ensures
            final(self)@.id == old(self)@.id,
            final(self)@.segments == old(self)@.segments,
            final(self)@.times == old(self)@.times.push(time),
    {
        self.times.push(time);
    }

    /// The total time of the path: the sum of its segment times.
    pub fn time(&self) -> (r: u64)
        ensures
            r == total_time(self@.times),
    {
        let mut sum: u64 = 0;
        let mut i: usize = 0;
        while i < self.times.len()
            invariant
                0 <= i <= self.times.len(),
                sum == total_time(self@.times.take(i as int)),
            decreases self.times.len() - i,
        {
            assert(self@.times.take(i + 1).drop_last() =~= self@.times.take(i as int));
            sum = sum.wrapping_add(self.times[i]);
            i = i + 1;
        }
        assert(self@.times.take(i as int) =~= self@.times);
        sum
    }

    /// The time of segment `index`, if that segment is finished.
    pub fn segment_time(&self, index: usize) -> (r: Option<u64>)
        ensures
            r == (if index < self@.times.len() { Some(self@.times[index as int]) } else { None }),
    {
        if index < self.times.len() {
            Some(self.times[index])
        } else {
            None
        }
    }

    /// Adds a node to the last segment, unless that segment is finished
    /// already. A path without segments gets one first.
    pub fn add_node(&mut self, pos: Node)
        ensures
            final(self)@.id == old(self)@.id,
            final(self)@.times == old(self)@.times,
            final(self)@.segments == segments_after_add(old(self)@.segments, old(self)@.times, pos),
    {
        if self.segments.len() == 0 {
            self.segments.push(Vec::new());
        }
        let last = self.segments.len() - 1;
        let ghost mid = self@.segments;
        if self.segment_time(last).is_none() {
            let mut seg = self.segments.pop().unwrap();
            seg.push(pos);
            self.segments.push(seg);
            assert(self@.segments =~= mid.update(last as int, mid[last as int].push(pos)));
        }
        assert(mid =~= (if old(self)@.segments.len() == 0 {
            seq![Seq::<Node>::empty()]
        } else {
            old(self)@.segments
        }));
    }

    /// Removes all segments and times; the id stays.
    pub fn clear_all(&mut self)
        ensures
            final(self)@.id == old(self)@.id,
            final(self)@.times == Seq::<u64>::empty(),
            final(self)@.segments == Seq::<Seq<Node>>::empty(),
    {
        self.segments.clear();
        self.times.clear();
        assert(self@.segments =~= Seq::<Seq<Node>>::empty());
    }
}

proof fn lemma_total_nodes_prefix(segs: Seq<Seq<Node>>, k: int)
    requires
        0 < k <= segs.len(),
    ensures
        total_nodes(segs.take(k)) == total_nodes(segs.take(k - 1)) + segs[k - 1].len(),
        total_nodes(segs.take(k)) <= total_nodes(segs),
    decreases segs.len() - k,
{
    assert(segs.take(k).drop_last() =~= segs.take(k - 1));
    if k < segs.len() {
        lemma_total_nodes_prefix(segs, k + 1);
    } else {
        assert(segs.take(k) =~= segs);
    }
}


/// Two paths are the same path when their ids are equal.
impl PartialEq for Path {
    fn eq(&self, other: &Self) -> (r: bool) {
        self.id == other.id
    }
}

impl vstd::std_specs::cmp::PartialEqSpecImpl for Path {
    open spec fn obeys_eq_spec() -> bool {
        true
    }

    open spec fn eq_spec(&self, other: &Self) -> bool {
        self@.id == other@.id
    }
}

/// A box-shaped trigger volume: centre, Euler rotation (XYZ) and half
/// extents, each as the bit patterns of three `f32` values.
#[derive(Clone, Copy, Debug)]
pub struct BoxCollider {
    id: u128,
    pub position: Node,
    rotation: Node,
    pub size: Node,
}

/// The abstract content of a trigger volume.
pub struct BoxColliderView {
    pub id: u128,
    pub position: Node,
    pub rotation: Node,
    pub size: Node,
}

impl View for BoxCollider {
    type V = BoxColliderView;

    closed spec fn view(&self) -> BoxColliderView {
        BoxColliderView { id: self.id, position: self.position, rotation: self.rotation, size: self.size }
    }
}

impl BoxCollider {
    /// A new trigger volume with a new random id.
    pub fn new(pos: Node, rotation: Node, size: Node) -> (r: BoxCollider)
        ensures
            r@.position == pos,
            r@.rotation == rotation,
            r@.size == size,
    {
        BoxCollider { id: random_id(), position: pos, rotation, size }
    }

    /// The id of this trigger.
    pub fn id(&self) -> (r: u128)
        ensures
            r == self@.id,
    {
        self.id
    }

    /// The centre of this trigger.
    pub fn position(&self) -> (r: Node)
        ensures
            r == self@.position,
    {
        self.position
    }

    /// The half extents of this trigger.
    pub fn size(&self) -> (r: Node)
        ensures
            r == self@.size,
    {
        self.size
    }

    /// The rotation of this trigger.
    pub fn rotation(&self) -> (r: Node)
        ensures
            r == self@.rotation,
    {
        self.rotation
    }

    /// Replaces the rotation of this trigger.
    pub fn set_rotation(&mut self, new_rot: Node)
        ensures
            final(self)@ == (BoxColliderView { rotation: new_rot, ..old(self)@ }),
    {
        self.rotation = new_rot;
    }
}

/// The high pass filter of a collection: which new paths it accepts.
#[derive(Clone, Copy, PartialEq, Eq, Structural, Debug)]
pub enum HighPassFilter {
    /// Only paths faster than every path of the collection.
    Gold,
    /// Only paths faster than the path with this id.
    Path { id: u128 },
}

/// The abstract content of a collection.
#[verifier::ext_equal]
pub struct PathCollectionView {
    pub id: u128,
    pub name: Seq<char>,
    pub paths: Seq<u128>,
}

/// A named, ordered list of path ids.
#[derive(Clone, Debug)]
pub struct PathCollection {
    id: u128,
    pub name: String,
    paths: Vec<u128>,
}

impl View for PathCollection {
    type V = PathCollectionView;

    closed spec fn view(&self) -> PathCollectionView {
        PathCollectionView { id: self.id, name: self.name@, paths: self.paths@ }
    }
}

/// The sequence without its first occurrence of `x`, if there is one.
pub open spec fn remove_first(s: Seq<u128>, x: u128) -> Seq<u128> {
    let i = first_match(s, equal_to(x));
    if i < s.len() {
        s.remove(i)
    } else {
        s
    }
}

/// The position of the first occurrence of `id` in `ids`, if there is one.
pub fn position_of(ids: &Vec<u128>, id: u128) -> (r: Option<usize>)
    ensures
        match r {
            Some(i) => i < ids@.len() && ids@[i as int] == id && forall|j: int| 0 <= j < i ==> ids@[j] != id,
            None => !ids@.contains(id),
        },
{
    let mut i: usize = 0;
    while i < ids.len()
        invariant
            0 <= i <= ids.len(),
            forall|j: int| 0 <= j < i ==> ids@[j] != id,
        decreases ids.len() - i,
    {
        if ids[i] == id {
            return Some(i);
        }
        i = i + 1;
    }
    None
}

impl PathCollection {
    /// An empty collection with a new random id.
    pub fn new(new_name: String) -> (r: PathCollection)
        ensures
            r@.name == new_name@,
            r@.paths == Seq::<u128>::empty(),
    {
        PathCollection::with_id(random_id(), new_name)
    }

    /// An empty collection with the given id.
    pub fn with_id(id: u128, new_name: String) -> (r: PathCollection)
        ensures
            r@.id == id,
            r@.name == new_name@,
            r@.paths == Seq::<u128>::empty(),
    {
        PathCollection { id, name: new_name, paths: Vec::new() }
    }

    /// The id of this collection.
    pub fn id(&self) -> (r: u128)
        ensures
            r == self@.id,
    {
        self.id
    }

    /// The ids of the paths of this collection, in order.
    pub fn paths(&self) -> (r: &Vec<u128>)
        ensures
            r@ == self@.paths,
    {
        &self.paths
    }

    /// Inserts a path id at position `index`.
    pub fn insert(&mut self, index: usize, path_id: u128)
        requires
            index <= old(self)@.paths.len(),
        ensures
            final(self)@.id == old(self)@.id,
            final(self)@.name == old(self)@.name,
            final(self)@.paths == old(self)@.paths.insert(index as int, path_id),
    {
        self.paths.insert(index, path_id);
    }

    /// Appends a path id.
    pub fn push(&mut self, path_id: u128)
        ensures
            final(self)@.id == old(self)@.id,
            final(self)@.name == old(self)@.name,
            final(self)@.paths == old(self)@.paths.push(path_id),
    {
        self.paths.push(path_id);
    }

    /// Removes the first occurrence of a path id, if there is one.
    pub fn remove(&mut self, id: u128)
        ensures
            final(self)@.id == old(self)@.id,
            final(self)@.name == old(self)@.name,
            final(self)@.paths == remove_first(old(self)@.paths, id),
    {
        match position_of(&self.paths, id) {
            Some(index) => {
                proof {
                    assert forall|j: int| 0 <= j < index implies !equal_to(id)(#[trigger] self.paths@[j]) by {}
                    lemma_first_match(self.paths@, equal_to(id), index as int);
                }
                self.paths.remove(index);
            },
            None => {
                proof {
                    assert forall|j: int| 0 <= j < self.paths@.len() implies !equal_to(id)(#[trigger] self.paths@[j]) by {
                        assert(self.paths@[j] != id);
                    }
                    lemma_first_match(self.paths@, equal_to(id), self.paths@.len() as int);
                }
            },
        }
    }

    /// Replaces the id.
    pub(crate) fn set_id(&mut self, id: u128)
        ensures
            final(self)@ == (PathCollectionView { id, ..old(self)@ }),
    {
        self.id = id;
    }

    /// Replaces the name.
    pub fn set_name(&mut self, name: String)
        ensures
            final(self)@ == (PathCollectionView { name: name@, ..old(self)@ }),
    {
        self.name = name;
    }

    /// Removes all path ids.
    pub fn clear_paths(&mut self)
        ensures
            final(self)@.id == old(self)@.id,
            final(self)@.name == old(self)@.name,
            final(self)@.paths == Seq::<u128>::empty(),
    {
        self.paths.clear();
    }
}


impl PathCollection {
    /// A copy of this collection.
    pub fn clone_collection(&self) -> (r: PathCollection)
        ensures
            r@ == self@,
    {
        let mut paths: Vec<u128> = Vec::new();
        let mut i: usize = 0;
        while i < self.paths.len()
            invariant
                0 <= i <= self.paths.len(),
                paths@ == self.paths@.take(i as int),
            decreases self.paths.len() - i,
        {
            paths.push(self.paths[i]);
            i = i + 1;
            assert(paths@ =~= self.paths@.take(i as int));
        }
        assert(self.paths@.take(i as int) =~= self.paths@);
        PathCollection { id: self.id, name: self.name.clone(), paths }
    }
}

/// A copy of a list of collections.
pub fn clone_collections(cols: &Vec<PathCollection>) -> (r: Vec<PathCollection>)
    ensures
        r@.map_values(|c: PathCollection| c@) == cols@.map_values(|c: PathCollection| c@),
{
    let mut r: Vec<PathCollection> = Vec::new();
    let mut i: usize = 0;
    while i < cols.len()
        invariant
            0 <= i <= cols.len(),
            r@.len() == i,
            forall|j: int| 0 <= j < i ==> (#[trigger] r@[j])@ == cols@[j]@,
        decreases cols.len() - i,
    {
        r.push(cols[i].clone_collection());
        i = i + 1;
    }
    assert(r@.map_values(|c: PathCollection| c@) =~= cols@.map_values(|c: PathCollection| c@));
    r
}

/// The abstract content of a comparison file.
pub struct CompFileView {
    pub version: Seq<char>,
    pub paths: Map<u128, PathView>,
    pub trigger_data: [[Node; 3]; 2],
    pub collections: Seq<PathCollectionView>,
}

/// The view of every path of a map.
pub open spec fn path_views(m: Map<u128, Path>) -> Map<u128, PathView> {
    m.map_values(|p: Path| p@)
}

/// The view of every collection of a list.
pub open spec fn collection_views(s: Seq<PathCollection>) -> Seq<PathCollectionView> {
    s.map_values(|c: PathCollection| c@)
}

/// The content of a comparison file: the two main triggers, every path by
/// id, and the collections that order them.
pub struct CompFile {
    version: String,
    paths: HashMap<u128, Path>,
    trigger_data: [[Node; 3]; 2],
    collections: Vec<PathCollection>,
}

impl View for CompFile {
    type V = CompFileView;

    closed spec fn view(&self) -> CompFileView {
        CompFileView {
            version: self.version@,
            paths: path_views(self.paths@),
            trigger_data: self.trigger_data,
            collections: collection_views(self.collections@),
        }
    }
}

/// The position, rotation and size of a trigger, as stored in a file.
pub open spec fn trigger_record(t: BoxColliderView) -> [Node; 3] {
    [t.position, t.rotation, t.size]
}

impl CompFile {
    /// A file of the current version holding the given triggers, paths and collections.
    pub fn new(trigger: [BoxCollider; 2], paths: HashMap<u128, Path>, collections: Vec<PathCollection>) -> (r: CompFile)
        ensures
            r@.version == CURRENT_FILE_VERSION@,
            r@.trigger_data == [trigger_record(trigger[0]@), trigger_record(trigger[1]@)],
            r@.paths == path_views(paths@),
            r@.collections == collection_views(collections@),
    {
        let trigger_data = [
            [trigger[0].position, trigger[0].rotation(), trigger[0].size],
            [trigger[1].position, trigger[1].rotation(), trigger[1].size],
        ];
        CompFile { version: String::from_str(CURRENT_FILE_VERSION), paths, trigger_data, collections }
    }

    /// A file with exactly the given parts.
    pub fn from_parts(
        version: String,
        paths: HashMap<u128, Path>,
        trigger_data: [[Node; 3]; 2],
        collections: Vec<PathCollection>,
    ) -> (r: CompFile)
        ensures
            r@.version == version@,
            r@.trigger_data == trigger_data,
            r@.paths == path_views(paths@),
            r@.collections == collection_views(collections@),
    {
        CompFile { version, paths, trigger_data, collections }
    }

    /// The version this file was written with.
    pub fn version(&self) -> (r: &String)
        ensures
            r@ == self@.version,
    {
        &self.version
    }

    /// Position, rotation and size of the start and the finish trigger.
    pub fn trigger_data(&self) -> (r: [[Node; 3]; 2])
        ensures
            r == self@.trigger_data,
    {
        self.trigger_data
    }

    /// The two main triggers of the file, each with a new random id.
    pub fn get_triggers(&self) -> (r: [Option<BoxCollider>; 2])
        ensures
            r[0] is Some && r[1] is Some,
            trigger_record(r[0]->0@) == self@.trigger_data[0],
            trigger_record(r[1]->0@) == self@.trigger_data[1],
    {
        let t0 = BoxCollider::new(self.trigger_data[0][0], self.trigger_data[0][1], self.trigger_data[0][2]);
        let t1 = BoxCollider::new(self.trigger_data[1][0], self.trigger_data[1][1], self.trigger_data[1][2]);
        let r = [Some(t0), Some(t1)];
        assert(trigger_record(t0@) =~= self.trigger_data[0]);
        assert(trigger_record(t1@) =~= self.trigger_data[1]);
        r
    }

    /// A copy of the paths of the file.
    pub fn get_paths(&self) -> (r: HashMap<u128, Path>)
        ensures
            path_views(r@) == self@.paths,
    {
        self.paths.clone()
    }

    /// A copy of the collections of the file.
    pub fn get_collections(&self) -> (r: Vec<PathCollection>)
        ensures
            collection_views(r@) == self@.collections,
    {
        clone_collections(&self.collections)
    }
}

} // verus!
