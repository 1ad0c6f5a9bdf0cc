use nfs_mirror::attr::{FileAttr, FileTime, FileType, NfsStatus};
use nfs_mirror::config::MountConfig;
use nfs_mirror::fsmap::{DirScan, HostDirEntry};
use nfs_mirror::mirrorfs::{read_window, ListTarget, LookupStep, MirrorFS};
use nfs_mirror::model::HostStat;
use std::path::PathBuf;

fn attr(ftype: FileType, size: u64, mtime: u32) -> FileAttr {
    FileAttr {
        ftype,
        mode: 0o644,
        nlink: if ftype == FileType::Directory { 2 } else { 1 },
        uid: 1000,
        gid: 1000,
        size,
        used: size,
        rdev_major: 0,
        rdev_minor: 0,
        fsid: 0,
        fileid: 0,
        atime: FileTime { seconds: mtime, nseconds: 0 },
        mtime: FileTime { seconds: mtime, nseconds: 0 },
        ctime: FileTime { seconds: mtime, nseconds: 0 },
    }
}

fn dir(mtime: u32) -> FileAttr {
    attr(FileType::Directory, 4096, mtime)
}

fn file(size: u64, mtime: u32) -> FileAttr {
    attr(FileType::Regular, size, mtime)
}

fn mount(source: &str, target: &str, read_only: bool) -> MountConfig {
    MountConfig {
        source: PathBuf::from(source),
        target: target.to_string(),
        read_only,
        description: None,
    }
}

fn one_mount(read_only: bool) -> MirrorFS {
    MirrorFS::new_with_mounts(dir(1), false, vec![mount("/tmp/A", "/a", read_only)], &vec![dir(10)])
}

fn scan(entries: Vec<(&str, FileAttr)>) -> DirScan {
    DirScan {
        mounts: Vec::new(),
        entries: entries
            .into_iter()
            .map(|(name, attr)| HostDirEntry { name: name.as_bytes().to_vec(), attr })
            .collect(),
        complete: true,
    }
}

fn no_scan() -> DirScan {
    scan(Vec::new())
}

/// Creates `name` under the mount node and returns its id.
fn create(fs: &mut MirrorFS, name: &str, child: FileAttr, dir_mtime: u32) -> u64 {
    let target = fs.create_target(1, name.as_bytes()).expect("the mount is writable");
    assert_eq!(*target.source, PathBuf::from("/tmp/A"));
    assert_eq!(target.tail, vec![name.as_bytes().to_vec()]);
    let (id, _) = fs
        .create_commit(1, name.as_bytes(), HostStat::Found(dir(dir_mtime)), HostStat::Found(child))
        .expect("the creation is recorded");
    id
}

#[test]
fn single_mount_bootstrap() {
    let mut fs = one_mount(false);
    assert_eq!(fs.root_dir(), 0);
    assert!(fs.refresh_target(0).is_none());
    assert_eq!(fs.readdir_refresh(0, HostStat::Absent), Ok(()));
    assert!(matches!(fs.list_target(0), ListTarget::Nothing));
    let page = fs.readdir(0, 0, 10, &no_scan()).unwrap();
    assert_eq!(page.entries.len(), 1);
    assert_eq!(page.entries[0].name, b"a".to_vec());
    assert_eq!(page.entries[0].attr.ftype, FileType::Directory);
    assert_eq!(page.entries[0].fileid, 1);
    assert_eq!(page.entries[0].attr.fileid, 1);
    assert!(page.end);

    let target = fs.refresh_target(1).expect("the mount node has host backing");
    assert_eq!(*target.source, PathBuf::from("/tmp/A"));
    assert!(target.tail.is_empty());
    assert_eq!(fs.readdir_refresh(1, HostStat::Found(dir(10))), Ok(()));
    match fs.list_target(1) {
        ListTarget::Dir(path) => {
            assert_eq!(*path.source, PathBuf::from("/tmp/A"));
            assert!(path.tail.is_empty());
        }
        _ => panic!("a directory that was never listed has to be scanned"),
    }
    let page = fs.readdir(1, 0, 10, &no_scan()).unwrap();
    assert!(page.entries.is_empty());
    assert!(page.end);
    assert!(matches!(fs.list_target(1), ListTarget::Nothing));
}

#[test]
fn create_read_remove() {
    let mut fs = one_mount(false);
    let target = fs.create_target(1, b"hello").unwrap();
    assert_eq!(target.tail, vec![b"hello".to_vec()]);
    let created = fs.create_commit(1, b"hello", HostStat::Found(dir(11)), HostStat::Found(file(0, 11)));
    let (id, fattr) = created.unwrap();
    assert_eq!(id, 2);
    assert_eq!(fattr.size, 0);
    assert_eq!(fattr.fileid, 2);

    let path = fs.write_target(2).unwrap();
    assert_eq!(*path.source, PathBuf::from("/tmp/A"));
    assert_eq!(path.tail, vec![b"hello".to_vec()]);
    let written = file(5, 12).with_fileid(2);
    assert_eq!(written.size, 5);
    assert_eq!(written.fileid, 2);

    let path = fs.read_target(2).unwrap();
    assert_eq!(path.tail, vec![b"hello".to_vec()]);
    let window = read_window(0, 1024, 5);
    assert_eq!((window.start, window.end, window.eof), (0, 5, true));

    let path = fs.remove_target(1, b"hello").unwrap();
    assert_eq!(path.tail, vec![b"hello".to_vec()]);
    assert_eq!(fs.remove_commit(1, b"hello", HostStat::Found(dir(13))), Ok(()));
    assert!(!fs.fsmap.contains(2));
    match fs.lookup_cached(1, b"hello") {
        LookupStep::Probe(path) => assert_eq!(path.tail, vec![b"hello".to_vec()]),
        LookupStep::Done(_) => panic!("the name is gone from the cache"),
    }
    assert_eq!(fs.lookup_refresh(1, false, HostStat::Absent), Err(NfsStatus::NoEnt));
}

#[test]
fn rename_preserves_fileid() {
    let mut fs = one_mount(false);
    assert_eq!(create(&mut fs, "hello", file(0, 11), 11), 2);
    let paths = fs.rename_target(1, b"hello", 1, b"world").unwrap();
    assert_eq!(paths.from.tail, vec![b"hello".to_vec()]);
    assert!(paths.to_dir.tail.is_empty());
    assert_eq!(paths.to.tail, vec![b"world".to_vec()]);
    let seen = HostStat::Found(dir(12));
    assert_eq!(fs.rename_commit(1, b"hello", 1, b"world", seen, seen), Ok(()));
    assert!(matches!(fs.lookup_cached(1, b"world"), LookupStep::Done(Ok(2))));
    assert!(matches!(fs.lookup_cached(1, b"hello"), LookupStep::Probe(_)));
    assert_eq!(fs.lookup_refresh(1, false, HostStat::Absent), Err(NfsStatus::NoEnt));
    assert_eq!(fs.fsmap.find_child(1, b"hello"), Err(NfsStatus::NoEnt));
    let name = fs.fsmap.find_entry(2).unwrap().name;
    assert_eq!(fs.fsmap.sym_to_fname(&name), b"world".to_vec());
}

#[test]
fn out_of_band_delete() {
    let mut fs = one_mount(false);
    assert_eq!(create(&mut fs, "x", file(3, 11), 11), 2);
    assert_eq!(fs.readdir_refresh(1, HostStat::Found(dir(11))), Ok(()));
    let page = fs.readdir(1, 0, 10, &scan(vec![("x", file(3, 11))])).unwrap();
    assert_eq!(page.entries.len(), 1);
    assert_eq!(page.entries[0].fileid, 2);

    let target = fs.refresh_target(2).unwrap();
    assert_eq!(target.tail, vec![b"x".to_vec()]);
    assert_eq!(fs.getattr(2, HostStat::Absent), Err(NfsStatus::NoEnt));
    assert!(!fs.fsmap.contains(2));

    assert_eq!(fs.readdir_refresh(1, HostStat::Found(dir(20))), Ok(()));
    assert!(matches!(fs.list_target(1), ListTarget::Dir(_)));
    let page = fs.readdir(1, 0, 10, &no_scan()).unwrap();
    assert!(page.entries.is_empty());
    assert!(page.end);
}

#[test]
fn read_only_mount() {
    let mut fs = MirrorFS::new_with_mounts(
        dir(1),
        false,
        vec![mount("/tmp/R", "/ro", true)],
        &vec![dir(10)],
    );
    assert_eq!(fs.readdir_refresh(1, HostStat::Found(dir(10))), Ok(()));
    let page = fs.readdir(1, 0, 10, &scan(vec![("f", file(7, 9))])).unwrap();
    assert_eq!(page.entries.len(), 1);
    let id = page.entries[0].fileid;
    assert_eq!(id, 2);

    assert_eq!(fs.write_target(id).err(), Some(NfsStatus::RoFs));
    assert_eq!(fs.create_target(1, b"new").err(), Some(NfsStatus::RoFs));
    let before = fs.fsmap.next_fileid();
    let seen = HostStat::Found(dir(10));
    assert_eq!(
        fs.create_commit(1, b"new", seen, HostStat::Found(file(0, 1))),
        Err(NfsStatus::RoFs)
    );
    assert_eq!(fs.fsmap.next_fileid(), before);
    assert_eq!(fs.fsmap.find_child(1, b"new"), Err(NfsStatus::NoEnt));

    let path = fs.read_target(id).unwrap();
    assert_eq!(*path.source, PathBuf::from("/tmp/R"));
    assert_eq!(path.tail, vec![b"f".to_vec()]);
    assert!(fs.read_page(1, 0, 10).is_ok());
}

#[test]
fn type_flip() {
    let mut fs = one_mount(false);
    assert_eq!(create(&mut fs, "p", file(1, 11), 11), 2);
    assert_eq!(fs.getattr(2, HostStat::Found(dir(30))), Err(NfsStatus::NoEnt));
    assert!(!fs.fsmap.contains(2));

    assert!(matches!(fs.lookup_cached(1, b"p"), LookupStep::Probe(_)));
    assert_eq!(fs.lookup_refresh(1, true, HostStat::Found(dir(30))), Ok(()));
    assert!(matches!(fs.list_target(1), ListTarget::Dir(_)));
    let found = fs.lookup_finish(1, b"p", &scan(vec![("p", dir(30))]));
    assert_eq!(found, Ok(3));
    assert_eq!(fs.fsmap.find_entry(3).unwrap().fsmeta.ftype, FileType::Directory);
    assert_eq!(fs.getattr(3, HostStat::Found(dir(30))).unwrap().fileid, 3);
}

#[test]
fn rename_onto_an_existing_name() {
    let mut fs = one_mount(false);
    assert_eq!(fs.readdir_refresh(1, HostStat::Found(dir(10))), Ok(()));
    assert!(fs.readdir(1, 0, 10, &no_scan()).unwrap().entries.is_empty());
    assert_eq!(create(&mut fs, "x", file(1, 11), 10), 2);
    assert_eq!(create(&mut fs, "y", file(2, 11), 10), 3);
    let seen = HostStat::Found(dir(10));
    assert_eq!(fs.rename_commit(1, b"x", 1, b"y", seen, seen), Ok(()));

    let renamed = fs.fsmap.find_entry(2).unwrap();
    assert_eq!(fs.fsmap.sym_to_path(&renamed.name), vec![b"a".to_vec(), b"y".to_vec()]);
    assert_eq!(fs.fsmap.path_id(&renamed.name), Some(2));
    assert_eq!(fs.fsmap.find_child(1, b"y"), Ok(2));
    assert_eq!(fs.fsmap.find_child(1, b"x"), Err(NfsStatus::NoEnt));
    assert!(!fs.fsmap.contains(3));
    assert_eq!(fs.fsmap.find_entry(3).err(), Some(NfsStatus::NoEnt));
    let children = fs.fsmap.find_entry(1).unwrap().children.unwrap();
    assert_eq!(children.into_iter().collect::<Vec<u64>>(), vec![2]);
    assert_eq!(fs.fsmap.next_fileid(), 4);
    let page = fs.read_page(1, 0, 10).unwrap();
    assert_eq!(page.entries.len(), 1);
    assert_eq!(page.entries[0].fileid, 2);
    assert_eq!(page.entries[0].name, b"y".to_vec());
}
