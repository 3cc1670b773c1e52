use std::collections::HashMap;

use celestial::error::Error;
use celestial::fileformat::{CompFile04, CompFile05, FileVersion, OldPath04, PathCollection04};
use celestial::pathdata::{BoxCollider, CompFile, Path, PathCollection, CURRENT_FILE_VERSION};
use celestial::rendering::RenderUpdates;

fn header(name: &str, version: Option<&str>) -> Vec<u8> {
    let mut bytes = vec![0u8, 0, 0, 0];
    bytes.extend_from_slice(&(name.len() as u32).to_le_bytes());
    bytes.extend_from_slice(name.as_bytes());
    if let Some(v) = version {
        bytes.extend_from_slice(&(v.len() as u32).to_le_bytes());
        bytes.extend_from_slice(v.as_bytes());
    }
    bytes
}

#[test]
fn render_updates_constructors() {
    let n = RenderUpdates::new();
    assert!(!n.paths && !n.triggers && !n.teleports && !n.shapes);
    let p = RenderUpdates::paths();
    assert!(p.paths && !p.triggers && !p.teleports && !p.shapes);
    let t = RenderUpdates::triggers();
    assert!(!t.paths && t.triggers && !t.teleports && !t.shapes);
    let tp = RenderUpdates::teleports();
    assert!(!tp.paths && !tp.triggers && tp.teleports && !tp.shapes);
    let s = RenderUpdates::shapes();
    assert!(!s.paths && !s.triggers && !s.teleports && s.shapes);
}

#[test]
fn render_updates_or_is_union() {
    let mut u = RenderUpdates::paths();
    u.or(RenderUpdates::shapes());
    assert_eq!(u, RenderUpdates { paths: true, triggers: false, teleports: false, shapes: true });
    let mut v = RenderUpdates::shapes();
    v.or(RenderUpdates::paths());
    assert_eq!(u, v);
    let mut w = u;
    w.or(u);
    assert_eq!(w, u);
    let mut x = u;
    x.or(RenderUpdates::new());
    assert_eq!(x, u);
}

#[test]
fn error_text_for_each_kind() {
    let io = Error::IO { msg: "no such file".to_string() };
    assert_eq!(io.to_string(), "Failed to read/write file!: no such file");
    let bin = Error::Binary { msg: "bad".to_string() };
    assert_eq!(bin.to_string(), "Failed to decode file!: bad");
}

#[test]
fn path_segments_and_times() {
    let mut p = Path::with_id(7);
    assert_eq!(p.id(), 7);
    assert_eq!(p.len(), 0);
    assert_eq!(p.time(), 0);
    p.add_node([1, 2, 3]);
    p.add_node([4, 5, 6]);
    assert_eq!(p.len(), 2);
    assert_eq!(p.segment_len(0), Some(2));
    p.end_segment(100);
    p.add_node([7, 8, 9]);
    p.end_path(50);
    assert_eq!(p.time(), 150);
    assert_eq!(p.segment_time(0), Some(100));
    assert_eq!(p.segment_time(1), Some(50));
    assert_eq!(p.segment_time(2), None);
    assert_eq!(p.get_node(1, 0), Some([7, 8, 9]));
    assert_eq!(p.get_node(1, 1), None);
    assert_eq!(p.segments(), vec![vec![[1, 2, 3], [4, 5, 6]], vec![[7, 8, 9]]]);
    assert_eq!(p.segment_nodes(0), Some(vec![[1, 2, 3], [4, 5, 6]]));
    assert_eq!(p.segment_nodes(5), None);
    p.add_node([0, 0, 0]);
    assert_eq!(p.len(), 3);
    let copy = p.clone_path();
    assert_eq!(copy.segments(), p.segments());
    assert_eq!(copy.time(), 150);
    p.clear_all();
    assert_eq!(p.len(), 0);
    assert_eq!(p.time(), 0);
    assert_eq!(p.id(), 7);
}

#[test]
fn path_time_wraps() {
    let p = Path::from_parts(1, vec![u64::MAX, 2], vec![vec![], vec![]]);
    assert_eq!(p.time(), 1);
}

#[test]
fn paths_compare_by_id() {
    let a = Path::from_parts(3, vec![1], vec![vec![]]);
    let b = Path::from_parts(3, vec![2], vec![vec![[1, 1, 1]]]);
    let c = Path::from_parts(4, vec![1], vec![vec![]]);
    assert!(a == b);
    assert!(a != c);
}

#[test]
fn collection_edits() {
    let mut c = PathCollection::with_id(9, "runs".to_string());
    assert_eq!(c.id(), 9);
    c.push(1);
    c.push(2);
    c.insert(1, 3);
    assert_eq!(c.paths(), &vec![1, 3, 2]);
    c.push(3);
    c.remove(3);
    assert_eq!(c.paths(), &vec![1, 2, 3]);
    c.remove(42);
    assert_eq!(c.paths(), &vec![1, 2, 3]);
    c.set_name("other".to_string());
    assert_eq!(c.name, "other");
    let copy = c.clone_collection();
    assert_eq!(copy.paths(), c.paths());
    assert_eq!(copy.id(), 9);
    c.clear_paths();
    assert!(c.paths().is_empty());
}

#[test]
fn box_collider_fields() {
    let mut b = BoxCollider::new([1, 2, 3], [4, 5, 6], [7, 8, 9]);
    assert_eq!(b.position(), [1, 2, 3]);
    assert_eq!(b.rotation(), [4, 5, 6]);
    assert_eq!(b.size(), [7, 8, 9]);
    b.set_rotation([0, 0, 1]);
    assert_eq!(b.rotation(), [0, 0, 1]);
    assert_eq!(b.position(), [1, 2, 3]);
}

#[test]
fn comp_file_snapshot_parts() {
    let t0 = BoxCollider::new([1, 1, 1], [2, 2, 2], [3, 3, 3]);
    let t1 = BoxCollider::new([4, 4, 4], [5, 5, 5], [6, 6, 6]);
    let mut paths = HashMap::new();
    paths.insert(10u128, Path::from_parts(10, vec![5], vec![vec![]]));
    let mut c = PathCollection::with_id(1, "c".to_string());
    c.push(10);
    let f = CompFile::new([t0, t1], paths, vec![c]);
    assert_eq!(f.version(), CURRENT_FILE_VERSION);
    assert_eq!(f.trigger_data(), [[[1, 1, 1], [2, 2, 2], [3, 3, 3]], [[4, 4, 4], [5, 5, 5], [6, 6, 6]]]);
    let triggers = f.get_triggers();
    let a = triggers[0].unwrap();
    let b = triggers[1].unwrap();
    assert_eq!((a.position(), a.rotation(), a.size()), ([1, 1, 1], [2, 2, 2], [3, 3, 3]));
    assert_eq!((b.position(), b.rotation(), b.size()), ([4, 4, 4], [5, 5, 5], [6, 6, 6]));
    assert_eq!(f.get_paths().len(), 1);
    assert_eq!(f.get_collections()[0].paths(), &vec![10]);
}

#[test]
fn file_version_of_headers() {
    assert_eq!(CompFile::file_version(&header("version", Some("0.5.1"))).unwrap(), FileVersion::V051);
    assert_eq!(CompFile::file_version(&header("version", Some("0.5"))).unwrap(), FileVersion::V05);
    assert_eq!(CompFile::file_version(&header("trigger_data", None)).unwrap(), FileVersion::V04);
    match CompFile::file_version(&header("version", Some("9.9"))) {
        Err(Error::Binary { msg }) => assert_eq!(msg, "Version 9.9 not compatible."),
        _ => panic!("a foreign version is refused"),
    }
}

#[test]
fn file_version_refuses_bad_utf8_name() {
    let mut bytes = vec![0u8, 0, 0, 0, 2, 0, 0, 0];
    bytes.extend_from_slice(&[0xff, 0xfe]);
    assert!(matches!(CompFile::file_version(&bytes), Err(Error::Binary { .. })));
}

#[test]
fn header_fits_checks_lengths() {
    assert!(!celestial::fileformat::header_fits_exec(&[0, 0, 0]));
    assert!(celestial::fileformat::header_fits_exec(&header("version", Some("0.5.1"))));
    let mut short = header("version", Some("0.5.1"));
    short.pop();
    assert!(!celestial::fileformat::header_fits_exec(&short));
    assert!(celestial::fileformat::header_fits_exec(&header("x", None)));
}

#[test]
fn old_files_upgrade() {
    let old = CompFile04 {
        trigger_data: [[[1, 2, 3], [4, 5, 6], [7, 8, 9]], [[0, 0, 0], [0, 0, 0], [1, 1, 1]]],
        collections: vec![PathCollection04 {
            id: 5,
            name: "old".to_string(),
            paths: vec![
                OldPath04 { id: 11, time: 300, nodes: vec![[1, 1, 1]] },
                OldPath04 { id: 12, time: 100, nodes: vec![] },
            ],
        }],
    };
    let v05 = CompFile05::from_v04(old);
    assert_eq!(v05.version, "0.5");
    assert_eq!(v05.collections[0].paths[0].times, vec![300]);
    assert_eq!(v05.collections[0].paths[0].segments, vec![vec![[1, 1, 1]]]);
    let f = CompFile::from_v05(v05);
    assert_eq!(f.version(), "0.5.1");
    let cols = f.get_collections();
    assert_eq!(cols[0].id(), 5);
    assert_eq!(cols[0].name, "old");
    assert_eq!(cols[0].paths(), &vec![11, 12]);
    let paths = f.get_paths();
    assert_eq!(paths[&11].time(), 300);
    assert_eq!(paths[&12].time(), 100);
    assert_eq!(f.trigger_data()[0][2], [7, 8, 9]);
}
