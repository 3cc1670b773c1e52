use vstd::prelude::*;
use vstd::string::StringExecFns;

use crate::binary::{decode_string, decode_u32};
use crate::binary::le_u32;
use crate::error::Error;
use std::collections::HashMap;
use crate::pathdata::{
    copy_nodes, copy_segments, copy_times, path_views, CompFile, Node, Path, PathCollection,
    PathView, CURRENT_FILE_VERSION,
};

verus! {

broadcast use {
    vstd::std_specs::hash::group_hash_axioms,
    vstd::std_specs::hash::axiom_u128_obeys_hash_table_key_model,
    vstd::std_specs::hash::axiom_random_state_builds_valid_hashers,
};

/// The layouts of comparison files that can be read.
#[derive(Clone, Copy, PartialEq, Eq, Structural, Debug)]
pub enum FileVersion {
    /// Files without a version field: one path per collection entry, one segment per path.
    V04,
    /// Version "0.5": paths stored inside their collections.
    V05,
    /// Version "0.5.1": paths stored by id beside the collections.
    V051,
}

/// Whether the bytes decode to exactly the given text.
pub open spec fn decodes_to(b: Seq<u8>, text: Seq<char>) -> bool {
    vstd::utf8::valid_utf8(b) && vstd::utf8::decode_utf8(b) == text
}

/// The length of the name of the first field of a file.
pub open spec fn name_len(fc: Seq<u8>) -> int {
    le_u32(fc.subrange(4, 8))
}

/// The bytes of the name of the first field of a file.
pub open spec fn name_bytes(fc: Seq<u8>) -> Seq<u8> {
    fc.subrange(8, 8 + name_len(fc))
}

/// The length of the version text of a file.
pub open spec fn version_len(fc: Seq<u8>) -> int {
    le_u32(fc.subrange(8 + name_len(fc), 12 + name_len(fc)))
}

/// The bytes of the version text of a file.
pub open spec fn version_bytes(fc: Seq<u8>) -> Seq<u8> {
    fc.subrange(12 + name_len(fc), 12 + name_len(fc) + version_len(fc))
}

/// The file is long enough for every header field that is read from it:
/// the name of the first field and, when that name is "version", the
/// version text.
pub open spec fn header_fits(fc: Seq<u8>) -> bool {
    &&& fc.len() >= 8
    &&& fc.len() >= 8 + name_len(fc)
    &&& decodes_to(name_bytes(fc), "version"@) ==> {
        &&& fc.len() >= 12 + name_len(fc)
        &&& fc.len() >= 12 + name_len(fc) + version_len(fc)
    }
}

/// The layout a file has, judged by its header; `None` when the header
/// names no layout that can be read.
pub open spec fn spec_file_version(fc: Seq<u8>) -> Option<FileVersion> {
    if !vstd::utf8::valid_utf8(name_bytes(fc)) {
        None
    } else if vstd::utf8::decode_utf8(name_bytes(fc)) != "version"@ {
        Some(FileVersion::V04)
    } else if decodes_to(version_bytes(fc), "0.5.1"@) {
        Some(FileVersion::V051)
    } else if decodes_to(version_bytes(fc), "0.5"@) {
        Some(FileVersion::V05)
    } else {
        None
    }
}

/// Whether the header of a file can be read without running past its end.
pub fn header_fits_exec(file_content: &[u8]) -> (r: bool)
    ensures
        r == header_fits(file_content@),
{
    if file_content.len() < 8 {
        return false;
    }
    let n1 = decode_u32(&file_content[4..8]).unwrap() as usize;
    if file_content.len() - 8 < n1 {
        return false;
    }
    let name = decode_string(&file_content[4..(8 + n1)]);
    proof {
        assert(file_content@.subrange(4, 8 + n1 as int).subrange(0, 4) =~= file_content@.subrange(4, 8));
        assert(file_content@.subrange(4, 8 + n1 as int).skip(4) =~= name_bytes(file_content@));
    }
    let is_version = match name {
        Ok(s) => s == String::from_str("version"),
        Err(_) => false,
    };
    if !is_version {
        return true;
    }
    let head = 8 + n1;
    if file_content.len() - head < 4 {
        return false;
    }
    let n2 = decode_u32(&file_content[head..(head + 4)]).unwrap() as usize;
    file_content.len() - head - 4 >= n2
}

impl CompFile {
    /// The layout of a comparison file, read from its header.
    ///
    /// A file whose first field is not named "version" has the oldest
    /// layout; otherwise its version text decides. A name or version that is
    /// no valid UTF-8, or a version that cannot be read, is an error.
    pub fn file_version(file_content: &[u8]) -> (r: Result<FileVersion, Error>)
        requires
            header_fits(file_content@),
        ensures
            match r {
                Ok(v) => spec_file_version(file_content@) == Some(v),
                Err(e) => spec_file_version(file_content@) is None && e is Binary,
            },
            r matches Err(Error::Binary { msg }) ==> (
                (decodes_to(name_bytes(file_content@), "version"@)
                && vstd::utf8::valid_utf8(version_bytes(file_content@)))
                ==> msg@ == "Version "@ + vstd::utf8::decode_utf8(version_bytes(file_content@))
                    + " not compatible."@),
    {
        let ghost fc = file_content@;
        assert(fc.len() == file_content.len());
        let mut head: usize = 4;
        let first_field_length = decode_u32(&file_content[head..(head + 4)]).unwrap() as usize;
        proof {
            assert(file_content@.subrange(4, 8) == fc.subrange(4, 8));
            assert(first_field_length == name_len(fc));
            assert(fc.subrange(4, 8 + first_field_length as int).subrange(0, 4) =~= fc.subrange(4, 8));
            assert(fc.subrange(4, 8 + first_field_length as int).skip(4) =~= name_bytes(fc));
        }
        let first_field_name = match decode_string(&file_content[head..(head + 4 + first_field_length)]) {
            Ok(s) => s,
            Err(e) => return Err(e),
        };
        head = head + 4 + first_field_length;

        if !(first_field_name == String::from_str("version")) {
            return Ok(FileVersion::V04);
        }

        assert(decodes_to(name_bytes(fc), "version"@));
        let file_version_len = decode_u32(&file_content[head..(head + 4)]).unwrap() as usize;
        proof {
            assert(file_version_len == version_len(fc));
            assert(fc.subrange(head as int, head + 4 + file_version_len).subrange(0, 4)
                =~= fc.subrange(8 + name_len(fc), 12 + name_len(fc)));
            assert(fc.subrange(head as int, head + 4 + file_version_len).skip(4) =~= version_bytes(fc));
        }
        let file_version = match decode_string(&file_content[head..(head + 4 + file_version_len)]) {
            Ok(s) => s,
            Err(e) => return Err(e),
        };

        if file_version == String::from_str("0.5.1") {
            Ok(FileVersion::V051)
        } else if file_version == String::from_str("0.5") {
            Ok(FileVersion::V05)
        } else {
            let msg = String::from_str("Version ").concat(file_version.as_str()).concat(" not compatible.");
            Err(Error::Binary { msg })
        }
    }
}


/// A path of the oldest file layout: one time and one list of nodes.
pub struct OldPath04 {
    pub id: u128,
    pub time: u64,
    pub nodes: Vec<Node>,
}

/// A collection of the oldest file layout, holding its paths.
pub struct PathCollection04 {
    pub id: u128,
    pub name: String,
    pub paths: Vec<OldPath04>,
}

/// A comparison file of the oldest layout.
pub struct CompFile04 {
    pub trigger_data: [[Node; 3]; 2],
    pub collections: Vec<PathCollection04>,
}

/// A path of layout "0.5".
pub struct Path05 {
    pub id: u128,
    pub times: Vec<u64>,
    pub segments: Vec<Vec<Node>>,
}

/// A collection of layout "0.5", holding its paths.
pub struct PathCollection05 {
    pub id: u128,
    pub name: String,
    pub paths: Vec<Path05>,
}

/// A comparison file of layout "0.5".
pub struct CompFile05 {
    pub version: String,
    pub trigger_data: [[Node; 3]; 2],
    pub collections: Vec<PathCollection05>,
}

/// The path a stored "0.5" path stands for.
pub open spec fn path05_view(p: Path05) -> PathView {
    PathView { id: p.id, times: p.times@, segments: p.segments@.map_values(|s: Vec<Node>| s@) }
}

/// A path of the oldest layout, as a "0.5" path: one segment with its time.
pub open spec fn upgraded_path(old: OldPath04, new: Path05) -> bool {
    &&& new.id == old.id
    &&& new.times@ == seq![old.time]
    &&& new.segments@.map_values(|s: Vec<Node>| s@) == seq![old.nodes@]
}

/// A collection of the oldest layout, as a "0.5" collection.
pub open spec fn upgraded_collection(old: PathCollection04, new: PathCollection05) -> bool {
    &&& new.id == old.id
    &&& new.name@ == old.name@
    &&& new.paths@.len() == old.paths@.len()
    &&& forall|i: int| 0 <= i < old.paths@.len() ==> upgraded_path(#[trigger] old.paths@[i], new.paths@[i])
}

/// Every stored path of a list of "0.5" collections, in order.
pub open spec fn stored_paths(cols: Seq<PathCollection05>) -> Seq<PathView>
    decreases cols.len(),
{
    if cols.len() == 0 {
        Seq::empty()
    } else {
        stored_paths(cols.drop_last()) + cols.last().paths@.map_values(|p: Path05| path05_view(p))
    }
}

/// The map from id to path that inserting the paths in order gives: a later
/// path replaces an earlier one with the same id.
pub open spec fn map_of_paths(ps: Seq<PathView>) -> Map<u128, PathView>
    decreases ps.len(),
{
    if ps.len() == 0 {
        Map::empty()
    } else {
        map_of_paths(ps.drop_last()).insert(ps.last().id, ps.last())
    }
}

impl PathCollection05 {
    /// Upgrades a collection of the oldest layout: each path gets a single
    /// segment with its nodes and its time.
    pub fn from_v04(old: PathCollection04) -> (r: PathCollection05)
        ensures
            upgraded_collection(old, r),
    {
        let mut paths: Vec<Path05> = Vec::new();
        let mut i: usize = 0;
        while i < old.paths.len()
            invariant
                0 <= i <= old.paths.len(),
                paths@.len() == i,
                forall|j: int| 0 <= j < i ==> upgraded_path(#[trigger] old.paths@[j], paths@[j]),
            decreases old.paths.len() - i,
        {
            let old_path = &old.paths[i];
            let mut times: Vec<u64> = Vec::new();
            let mut segments: Vec<Vec<Node>> = Vec::new();
            times.push(old_path.time);
            segments.push(copy_nodes(&old_path.nodes));
            let p = Path05 { id: old_path.id, times, segments };
            assert(p.segments@.map_values(|s: Vec<Node>| s@) =~= seq![old_path.nodes@]);
            assert(p.times@ =~= seq![old_path.time]);
            paths.push(p);
            i = i + 1;
        }
        PathCollection05 { id: old.id, name: old.name, paths }
    }
}

impl CompFile05 {
    /// Upgrades a file of the oldest layout to layout "0.5".
    pub fn from_v04(old_comp_file: CompFile04) -> (r: CompFile05)
        ensures
            r.version@ == "0.5"@,
            r.trigger_data == old_comp_file.trigger_data,
            r.collections@.len() == old_comp_file.collections@.len(),
            forall|i: int| 0 <= i < r.collections@.len() ==>
                upgraded_collection(#[trigger] old_comp_file.collections@[i], r.collections@[i]),
    {
        let CompFile04 { trigger_data, collections: old_collections } = old_comp_file;
        let mut collections: Vec<PathCollection05> = Vec::new();
        let mut old_collections = old_collections;
        let ghost olds = old_collections@;
        // Take the collections from the back, then restore their order.
        let mut reversed: Vec<PathCollection05> = Vec::new();
        while old_collections.len() > 0
            invariant
                olds == old_comp_file.collections@,
                old_collections@ == olds.take(old_collections@.len() as int),
                old_collections@.len() <= olds.len(),
                reversed@.len() == olds.len() - old_collections@.len(),
                forall|j: int| 0 <= j < reversed@.len() ==>
                    upgraded_collection(olds[olds.len() - 1 - j], #[trigger] reversed@[j]),
            decreases old_collections@.len(),
        {
            let c = old_collections.pop().unwrap();
            reversed.push(PathCollection05::from_v04(c));
            assert(old_collections@ =~= olds.take(old_collections@.len() as int));
        }
        while reversed.len() > 0
            invariant
                olds == old_comp_file.collections@,
                collections@.len() + reversed@.len() == olds.len(),
                forall|j: int| 0 <= j < reversed@.len() ==>
                    upgraded_collection(olds[olds.len() - 1 - j], #[trigger] reversed@[j]),
                forall|j: int| 0 <= j < collections@.len() ==>
                    upgraded_collection(olds[j], #[trigger] collections@[j]),
            decreases reversed@.len(),
        {
            let c = reversed.pop().unwrap();
            collections.push(c);
        }
        CompFile05 { version: String::from_str("0.5"), trigger_data, collections }
    }
}

proof fn lemma_map_of_paths_push(ps: Seq<PathView>, p: PathView)
    ensures
        map_of_paths(ps.push(p)) == map_of_paths(ps).insert(p.id, p),
{
    assert(ps.push(p).drop_last() =~= ps);
}

proof fn lemma_path_views_insert(m: Map<u128, Path>, k: u128, p: Path)
    ensures
        path_views(m.insert(k, p)) == path_views(m).insert(k, p@),
{
    assert(path_views(m.insert(k, p)) =~= path_views(m).insert(k, p@));
}

impl CompFile {
    /// Upgrades a file of layout "0.5": each collection keeps its id, name
    /// and order of path ids, and every path is stored by its id.
    pub fn from_v05(old_comp_file: CompFile05) -> (r: CompFile)
        ensures
            r@.version == CURRENT_FILE_VERSION@,
            r@.trigger_data == old_comp_file.trigger_data,
            r@.paths == map_of_paths(stored_paths(old_comp_file.collections@)),
            r@.collections.len() == old_comp_file.collections@.len(),
            forall|i: int| #![trigger r@.collections[i]] 0 <= i < r@.collections.len() ==> {
                &&& r@.collections[i].id == old_comp_file.collections@[i].id
                &&& r@.collections[i].name == old_comp_file.collections@[i].name@
                &&& r@.collections[i].paths == old_comp_file.collections@[i].paths@.map_values(|p: Path05| p.id)
            },
    {
        let ghost olds = old_comp_file.collections@;
        let mut collections: Vec<PathCollection> = Vec::new();
        let mut paths: HashMap<u128, Path> = HashMap::new();
        let mut i: usize = 0;
        assert(path_views(paths@) =~= map_of_paths(stored_paths(olds.take(0))));
        while i < old_comp_file.collections.len()
            invariant
                olds == old_comp_file.collections@,
                0 <= i <= olds.len(),
                collections@.len() == i,
                path_views(paths@) == map_of_paths(stored_paths(olds.take(i as int))),
                forall|k: int| #![trigger collections@[k]] 0 <= k < i ==> {
                    &&& collections@[k]@.id == olds[k].id
                    &&& collections@[k]@.name == olds[k].name@
                    &&& collections@[k]@.paths == olds[k].paths@.map_values(|p: Path05| p.id)
                },
            decreases olds.len() - i,
        {
            let old_collection = &old_comp_file.collections[i];
            let mut new_collection = PathCollection::with_id(old_collection.id, old_collection.name.clone());
            let ghost before = stored_paths(olds.take(i as int));
            let mut j: usize = 0;
            while j < old_collection.paths.len()
                invariant
                    olds == old_comp_file.collections@,
                    0 <= i < olds.len(),
                    *old_collection == olds[i as int],
                    before == stored_paths(olds.take(i as int)),
                    0 <= j <= old_collection.paths@.len(),
                    new_collection@.id == old_collection.id,
                    new_collection@.name == old_collection.name@,
                    new_collection@.paths == old_collection.paths@.take(j as int).map_values(|p: Path05| p.id),
                    path_views(paths@) == map_of_paths(
                        before + old_collection.paths@.take(j as int).map_values(|p: Path05| path05_view(p)),
                    ),
                decreases old_collection.paths@.len() - j,
            {
                let old_path = &old_collection.paths[j];
                new_collection.push(old_path.id);
                let p = Path::from_parts(old_path.id, copy_times(&old_path.times), copy_segments(&old_path.segments));
                proof {
                    lemma_path_views_insert(paths@, old_path.id, p);
                    let prev = before + old_collection.paths@.take(j as int).map_values(|q: Path05| path05_view(q));
                    lemma_map_of_paths_push(prev, p@);
                    assert(prev.push(p@) =~= before + old_collection.paths@.take(j + 1).map_values(
                        |q: Path05| path05_view(q),
                    ));
                    assert(old_collection.paths@.take(j + 1).map_values(|q: Path05| q.id) =~= old_collection.paths@.take(
                        j as int,
                    ).map_values(|q: Path05| q.id).push(old_path.id));
                }
                paths.insert(old_path.id, p);
                j = j + 1;
            }
            proof {
                assert(old_collection.paths@.take(j as int) =~= old_collection.paths@);
                assert(olds.take(i + 1).drop_last() =~= olds.take(i as int));
            }
            collections.push(new_collection);
            i = i + 1;
        }
        assert(olds.take(i as int) =~= olds);
        let r = CompFile::from_parts(
            String::from_str(CURRENT_FILE_VERSION),
            paths,
            old_comp_file.trigger_data,
            collections,
        );
        r
    }
}

} // verus!
