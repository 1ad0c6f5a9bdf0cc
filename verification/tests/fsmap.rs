use nfs_mirror::attr::{attr_differ, FileAttr, FileTime, FileType, NfsStatus};
use nfs_mirror::fsmap::{mount_name, name_matches, set_items, DirScan, FSMap, HostDirEntry};
use nfs_mirror::model::{HostStat, RefreshResult};
use std::collections::BTreeSet;
use std::path::PathBuf;

fn meta(ftype: FileType, size: u64, mtime: u32) -> FileAttr {
    FileAttr {
        ftype,
        mode: 0o755,
        nlink: 1,
        uid: 0,
        gid: 0,
        size,
        used: size,
        rdev_major: 0,
        rdev_minor: 0,
        fsid: 0,
        fileid: 77,
        atime: FileTime { seconds: 1, nseconds: 2 },
        mtime: FileTime { seconds: mtime, nseconds: 0 },
        ctime: FileTime { seconds: mtime, nseconds: 0 },
    }
}

fn d(mtime: u32) -> FileAttr {
    meta(FileType::Directory, 0, mtime)
}

fn f(size: u64) -> FileAttr {
    meta(FileType::Regular, size, 5)
}

fn two_mounts() -> FSMap {
    FSMap::new_with_mounts(
        d(1),
        vec![
            ("/a".to_string(), PathBuf::from("/srv/a"), false),
            ("//b".to_string(), PathBuf::from("/srv/b"), true),
        ],
        &vec![d(10), d(20)],
    )
}

fn listing(names: &[&str]) -> DirScan {
    DirScan {
        mounts: Vec::new(),
        entries: names
            .iter()
            .map(|n| HostDirEntry { name: n.as_bytes().to_vec(), attr: f(1) })
            .collect(),
        complete: true,
    }
}

/// Every entry's name is bound to the entry's id.
fn names_bound(map: &FSMap, ids: &[u64]) -> bool {
    ids.iter().all(|id| {
        let entry = map.find_entry(*id).unwrap();
        map.path_id(&entry.name) == Some(*id)
    })
}

#[test]
fn root_alone() {
    let map = FSMap::new_with_root(d(1));
    let root = map.find_entry(0).unwrap();
    assert!(root.name.is_empty());
    assert_eq!(root.fsmeta.fileid, 0);
    assert_eq!(root.children, Some(BTreeSet::new()));
    assert_eq!(map.path_id(&[]), Some(0));
    assert_eq!(map.next_fileid(), 1);
    assert!(map.mounts().is_empty());
    assert!(map.sym_to_real_path(&[]).is_none());
    assert_eq!(map.sym_to_fname(&[]), Vec::<u8>::new());
    assert_eq!(map.find_entry(1).err(), Some(NfsStatus::NoEnt));
}

#[test]
fn mounts_become_children_of_the_root() {
    let map = two_mounts();
    let root = map.find_entry(0).unwrap();
    assert!(root.name.is_empty());
    assert_eq!(root.children, Some(BTreeSet::from([1, 2])));
    let a = map.find_entry(1).unwrap();
    let b = map.find_entry(2).unwrap();
    assert_eq!(a.name, vec![0]);
    assert_eq!(b.name, vec![1]);
    assert_eq!(a.fsmeta.fileid, 1);
    assert_eq!(b.fsmeta.fileid, 2);
    assert_eq!(b.fsmeta.mtime.seconds, 20);
    assert!(a.children.is_none());
    assert_eq!(map.next_fileid(), 3);
    assert_eq!(map.sym_to_fname(&b.name), b"b".to_vec());
    assert_eq!(map.find_child(0, b"a"), Ok(1));
    assert_eq!(map.find_child(0, b"b"), Ok(2));
    assert!(names_bound(&map, &[0, 1, 2]));
}

#[test]
fn resolution_goes_through_the_first_component() {
    let mut map = two_mounts();
    let id = map.create_entry(&vec![1, 0], f(3));
    assert_eq!(id, 3);
    let (path, read_only) = map.sym_to_real_path(&[1, 0]).unwrap();
    assert_eq!(*path.source, PathBuf::from("/srv/b"));
    assert_eq!(path.tail, vec![b"a".to_vec()]);
    assert!(read_only);
    let (path, read_only) = map.sym_to_real_path(&[0]).unwrap();
    assert_eq!(*path.source, PathBuf::from("/srv/a"));
    assert!(path.tail.is_empty());
    assert!(!read_only);
    assert!(map.sym_to_real_path(&[]).is_none());
    assert!(map.sym_to_real_path(&[9]).is_none());
    assert!(map.sym_to_real_path(&[0, 9]).is_none());
    assert_eq!(map.sym_to_path(&[1, 0]), vec![b"b".to_vec(), b"a".to_vec()]);
}

#[test]
fn an_unmatched_first_component_does_not_resolve() {
    let mut map = two_mounts();
    assert_eq!(map.refresh_dir_list(1, &listing(&["zz"])), Ok(()));
    let zz = map.find_child(1, b"zz").unwrap();
    let sym = *map.find_entry(zz).unwrap().name.last().unwrap();
    assert_eq!(sym, 2);
    assert!(map.sym_to_real_path(&[sym]).is_none());
    assert!(map.sym_to_real_path(&[sym, 0]).is_none());
}

#[test]
fn leading_slashes_are_trimmed() {
    assert_eq!(mount_name("/a"), b"a".to_vec());
    assert_eq!(mount_name("///a/b"), b"a/b".to_vec());
    assert_eq!(mount_name("a/"), b"a/".to_vec());
    assert_eq!(mount_name("//"), Vec::<u8>::new());
    assert!(name_matches(b"/a", b"a"));
    assert!(name_matches(b"//a", b"a"));
    assert!(name_matches(b"a", b"a"));
    assert!(!name_matches(b"/a", b"/a"));
    assert!(!name_matches(b"/ab", b"a"));
    assert!(!name_matches(b"/a", b"ab"));
    assert!(name_matches(b"/", b""));
}

#[test]
fn create_entry_hands_out_increasing_ids() {
    let mut map = two_mounts();
    let first = map.create_entry(&vec![0, 0], f(1));
    let second = map.create_entry(&vec![0, 1], f(2));
    assert_eq!((first, second), (3, 4));
    assert!(second > first && first != 0);
    assert_eq!(map.next_fileid(), 5);
    let entry = map.find_entry(first).unwrap();
    assert_eq!(entry.name, vec![0, 0]);
    assert_eq!(entry.fsmeta.fileid, first);
    assert_eq!(entry.children_meta.fileid, first);
    assert_eq!(entry.fsmeta.size, 1);
    assert!(entry.children.is_none());
    assert!(names_bound(&map, &[0, 1, 2, 3, 4]));
}

#[test]
fn create_entry_refreshes_a_bound_path() {
    let mut map = two_mounts();
    let first = map.create_entry(&vec![0, 0], f(1));
    let again = map.create_entry(&vec![0, 0], f(9));
    assert_eq!(first, again);
    assert_eq!(map.next_fileid(), 4);
    let entry = map.find_entry(first).unwrap();
    assert_eq!(entry.fsmeta.size, 9);
    assert_eq!(entry.fsmeta.fileid, first);
    assert_eq!(entry.children_meta.size, 1);
}

#[test]
fn find_child_answers_from_the_cache_alone() {
    let mut map = two_mounts();
    assert_eq!(map.find_child(1, b"x"), Err(NfsStatus::NoEnt));
    assert_eq!(map.refresh_dir_list(1, &listing(&["x", "y"])), Ok(()));
    assert_eq!(map.find_child(1, b"x"), Ok(3));
    assert_eq!(map.find_child(1, b"y"), Ok(4));
    assert_eq!(map.find_child(2, b"x"), Err(NfsStatus::NoEnt));
    assert_eq!(map.find_child(1, b"never"), Err(NfsStatus::NoEnt));
    assert_eq!(map.find_child(99, b"x"), Err(NfsStatus::NoEnt));
}

#[test]
fn listing_fills_children_once() {
    let mut map = two_mounts();
    assert_eq!(map.refresh_dir_list(1, &listing(&["x", "y"])), Ok(()));
    let entry = map.find_entry(1).unwrap();
    assert_eq!(entry.children, Some(BTreeSet::from([3, 4])));
    assert_eq!(entry.children_meta, entry.fsmeta);
    // Listed and unchanged: a second scan is not taken in.
    assert_eq!(map.refresh_dir_list(1, &listing(&["z"])), Ok(()));
    assert_eq!(map.find_entry(1).unwrap().children, Some(BTreeSet::from([3, 4])));
    assert_eq!(map.find_child(1, b"z"), Err(NfsStatus::NoEnt));
    assert!(names_bound(&map, &[0, 1, 2, 3, 4]));
    // A file is never listed.
    assert_eq!(map.refresh_dir_list(3, &listing(&["q"])), Ok(()));
    assert!(map.find_entry(3).unwrap().children.is_none());
    assert_eq!(map.refresh_dir_list(42, &listing(&[])), Err(NfsStatus::NoEnt));
}

#[test]
fn a_changed_directory_is_listed_again() {
    let mut map = two_mounts();
    assert_eq!(map.refresh_dir_list(1, &listing(&["x", "y"])), Ok(()));
    assert_eq!(map.refresh_entry(1, HostStat::Found(d(11))), Ok(RefreshResult::Reload));
    assert_eq!(map.refresh_dir_list(1, &listing(&["y", "z"])), Ok(()));
    let entry = map.find_entry(1).unwrap();
    assert_eq!(entry.children, Some(BTreeSet::from([4, 5])));
    assert_eq!(entry.children_meta.mtime.seconds, 11);
    assert_eq!(map.find_child(1, b"z"), Ok(5));
}

#[test]
fn a_broken_scan_keeps_the_old_children() {
    let mut map = two_mounts();
    let mut broken = listing(&["x"]);
    broken.complete = false;
    assert_eq!(map.refresh_dir_list(1, &broken), Err(NfsStatus::Io));
    assert!(map.find_entry(1).unwrap().children.is_none());
    assert_eq!(map.find_child(1, b"x"), Ok(3));
}

#[test]
fn refresh_follows_the_host() {
    let mut map = two_mounts();
    let id = map.create_entry(&vec![0, 0], f(1));
    assert_eq!(map.refresh_entry(id, HostStat::Found(f(1))), Ok(RefreshResult::Noop));
    assert_eq!(map.refresh_entry(id, HostStat::Found(f(2))), Ok(RefreshResult::Reload));
    assert_eq!(map.find_entry(id).unwrap().fsmeta.size, 2);
    assert_eq!(map.find_entry(id).unwrap().fsmeta.fileid, id);
    assert_eq!(map.refresh_entry(id, HostStat::Failed), Err(NfsStatus::Io));
    assert!(map.contains(id));
    assert_eq!(map.refresh_entry(id, HostStat::Found(d(5))), Ok(RefreshResult::Delete));
    assert!(!map.contains(id));
    assert_eq!(map.path_id(&[0, 0]), None);
    assert_eq!(map.refresh_entry(id, HostStat::Found(f(2))), Err(NfsStatus::NoEnt));
    assert_eq!(map.refresh_entry(0, HostStat::Absent), Ok(RefreshResult::Noop));
    assert!(map.contains(0));
}

#[test]
fn delete_cascades_to_descendants() {
    let mut map = two_mounts();
    assert_eq!(map.refresh_dir_list(1, &DirScan {
        mounts: Vec::new(),
        entries: vec![
            HostDirEntry { name: b"sub".to_vec(), attr: d(3) },
            HostDirEntry { name: b"file".to_vec(), attr: f(1) },
        ],
        complete: true,
    }), Ok(()));
    let sub = map.find_child(1, b"sub").unwrap();
    assert_eq!(map.refresh_dir_list(sub, &listing(&["deep"])), Ok(()));
    let deep = map.find_child(sub, b"deep").unwrap();
    let file = map.find_child(1, b"file").unwrap();
    let deep_name = map.find_entry(deep).unwrap().name;
    let sub_name = map.find_entry(sub).unwrap().name;

    map.delete_entry(sub);
    assert!(!map.contains(sub));
    assert!(!map.contains(deep));
    assert!(map.contains(file));
    assert!(map.contains(1));
    assert!(map.contains(0));
    assert_eq!(map.path_id(&deep_name), None);
    assert_eq!(map.path_id(&sub_name), None);
    assert!(names_bound(&map, &[0, 1, 2, file]));

    map.delete_entry(1);
    assert!(!map.contains(1));
    assert!(!map.contains(file));
    assert!(map.contains(2));
    assert!(map.contains(0));
    assert_eq!(map.find_entry(0).unwrap().children, Some(BTreeSet::from([1, 2])));
    // An id without an entry is deleted without effect.
    map.delete_entry(1);
    assert!(map.contains(0));
}

#[test]
fn update_attr_stamps_the_id() {
    let mut map = two_mounts();
    let out = map.update_attr(2, f(8));
    assert_eq!(out.fileid, 2);
    assert_eq!(map.find_entry(2).unwrap().fsmeta, out);
    let out = map.update_attr(50, f(8));
    assert_eq!(out.fileid, 50);
    assert!(!map.contains(50));
}

#[test]
fn invalidation_predicate() {
    let base = f(1);
    assert!(!attr_differ(&base, &base));
    let mut other = base;
    other.fileid = 5;
    other.atime.seconds = 99;
    other.used = 99;
    other.fsid = 9;
    other.rdev_major = 1;
    assert!(!attr_differ(&base, &other));
    let mut x = base;
    x.ftype = FileType::Symlink;
    assert!(attr_differ(&base, &x));
    let mut x = base;
    x.size = 2;
    assert!(attr_differ(&base, &x));
    let mut x = base;
    x.mtime.nseconds = 1;
    assert!(attr_differ(&base, &x));
    let mut x = base;
    x.ctime.seconds = 6;
    assert!(attr_differ(&base, &x));
    let mut x = base;
    x.mode = 0o700;
    assert!(attr_differ(&base, &x));
    let mut x = base;
    x.uid = 1;
    assert!(attr_differ(&base, &x));
    let mut x = base;
    x.gid = 1;
    assert!(attr_differ(&base, &x));
    let mut x = base;
    x.nlink = 2;
    assert!(attr_differ(&base, &x));
}

#[test]
fn set_items_are_sorted() {
    let set = BTreeSet::from([9u64, 3, 7, 1]);
    assert_eq!(set_items(&set), vec![1, 3, 7, 9]);
    assert!(set_items(&BTreeSet::new()).is_empty());
}
