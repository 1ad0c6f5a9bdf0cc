use nfs_mirror::attr::{FileAttr, FileTime, FileType, NfsStatus};
use nfs_mirror::config::MountConfig;
use nfs_mirror::fsmap::{DirScan, HostDirEntry};
use nfs_mirror::mirrorfs::{
    failure_status, host_error_status, mknod_kind, read_window, refuses_existing, remove_call,
    CreateKind, HostError, HostFailure, ListTarget, LookupStep, MirrorFS, RemoveCall,
    VfsCapabilities,
};
use nfs_mirror::model::HostStat;
use std::collections::BTreeSet;
use std::path::PathBuf;

fn stat_of(ftype: FileType, size: u64, mtime: u32) -> FileAttr {
    FileAttr {
        ftype,
        mode: 0o644,
        nlink: 1,
        uid: 1,
        gid: 1,
        size,
        used: size,
        rdev_major: 0,
        rdev_minor: 0,
        fsid: 0,
        fileid: 0,
        atime: FileTime { seconds: 0, nseconds: 0 },
        mtime: FileTime { seconds: mtime, nseconds: 0 },
        ctime: FileTime { seconds: mtime, nseconds: 0 },
    }
}

fn folder(mtime: u32) -> FileAttr {
    stat_of(FileType::Directory, 0, mtime)
}

fn regular(size: u64) -> FileAttr {
    stat_of(FileType::Regular, size, 3)
}

fn export(source: &str, target: &str, read_only: bool) -> MountConfig {
    MountConfig {
        source: PathBuf::from(source),
        target: target.to_string(),
        read_only,
        description: None,
    }
}

/// A server with a writable mount `/rw` (id 1) and a read-only mount `/ro` (id 2).
fn server(read_only: bool) -> MirrorFS {
    MirrorFS::new_with_mounts(
        folder(1),
        read_only,
        vec![export("/srv/rw", "/rw", false), export("/srv/ro", "/ro", true)],
        &vec![folder(10), folder(20)],
    )
}

fn found(names: &[(&str, FileAttr)]) -> DirScan {
    DirScan {
        mounts: Vec::new(),
        entries: names
            .iter()
            .map(|(n, a)| HostDirEntry { name: n.as_bytes().to_vec(), attr: *a })
            .collect(),
        complete: true,
    }
}

fn make(fs: &mut MirrorFS, dirid: u64, name: &str, what: FileAttr) -> u64 {
    let seen = HostStat::Found(fs.fsmap.find_entry(dirid).unwrap().fsmeta);
    fs.create_commit(dirid, name.as_bytes(), seen, HostStat::Found(what)).unwrap().0
}

#[test]
fn capabilities_follow_the_flag() {
    assert_eq!(server(false).capabilities(), VfsCapabilities::ReadWrite);
    assert_eq!(server(true).capabilities(), VfsCapabilities::ReadOnly);
    assert_eq!(MirrorFS::new(folder(1), true).capabilities(), VfsCapabilities::ReadOnly);
    assert_eq!(MirrorFS::new(folder(1), false).root_dir(), 0);
}

#[test]
fn a_read_only_server_refuses_every_modification() {
    let mut fs = server(true);
    let seen = HostStat::Found(folder(10));
    assert_eq!(fs.write_target(1).err(), Some(NfsStatus::RoFs));
    assert_eq!(fs.create_target(1, b"n").err(), Some(NfsStatus::RoFs));
    assert_eq!(fs.remove_target(1, b"n").err(), Some(NfsStatus::RoFs));
    assert_eq!(fs.rename_target(1, b"a", 1, b"b").err(), Some(NfsStatus::RoFs));
    assert_eq!(fs.link_target(1, 1, b"l").err(), Some(NfsStatus::RoFs));
    // Even for ids that do not exist the flag comes first.
    assert_eq!(fs.write_target(99).err(), Some(NfsStatus::RoFs));
    let ids = fs.fsmap.next_fileid();
    assert_eq!(
        fs.create_commit(1, b"n", seen, HostStat::Found(regular(0))),
        Err(NfsStatus::RoFs)
    );
    assert_eq!(fs.remove_commit(1, b"n", seen), Err(NfsStatus::RoFs));
    assert_eq!(fs.rename_commit(1, b"a", 1, b"b", seen, seen), Err(NfsStatus::RoFs));
    assert_eq!(fs.link_commit(1, 1, b"l"), Err(NfsStatus::RoFs));
    assert_eq!(fs.fsmap.next_fileid(), ids);
    assert!(!fs.fsmap.can_intern(b"n") || fs.fsmap.find_child(1, b"n").is_err());
    assert_eq!(fs.fsmap.find_child(1, b"l"), Err(NfsStatus::NoEnt));
    assert!(fs.read_target(1).is_ok());
}

#[test]
fn a_read_only_mount_refuses_modification_under_it() {
    let mut fs = server(false);
    let seen = HostStat::Found(folder(20));
    assert_eq!(fs.write_target(2).err(), Some(NfsStatus::RoFs));
    assert_eq!(fs.create_target(2, b"n").err(), Some(NfsStatus::RoFs));
    assert_eq!(fs.remove_target(2, b"n").err(), Some(NfsStatus::RoFs));
    assert_eq!(fs.rename_target(1, b"a", 2, b"b").err(), Some(NfsStatus::RoFs));
    assert_eq!(fs.rename_target(2, b"a", 1, b"b").err(), Some(NfsStatus::RoFs));
    assert_eq!(fs.link_target(1, 2, b"l").err(), Some(NfsStatus::RoFs));
    assert_eq!(fs.rename_commit(2, b"a", 1, b"b", seen, seen), Err(NfsStatus::RoFs));
    assert_eq!(fs.link_commit(1, 2, b"l"), Err(NfsStatus::RoFs));
    assert_eq!(fs.fsmap.find_child(2, b"l"), Err(NfsStatus::NoEnt));
    // The writable mount is not affected, and a link out of the read-only one is let through.
    assert!(fs.create_target(1, b"n").is_ok());
    assert!(fs.link_target(2, 1, b"l").is_ok());
}

#[test]
fn nodes_without_host_backing() {
    let fs = server(false);
    assert_eq!(fs.read_target(0).err(), Some(NfsStatus::IsDir));
    assert_eq!(fs.write_target(0).err(), Some(NfsStatus::IsDir));
    assert_eq!(fs.readlink_target(0).err(), Some(NfsStatus::BadType));
    assert_eq!(fs.setattr_target(0).err(), Some(NfsStatus::Io));
    assert_eq!(fs.create_target(0, b"n").err(), Some(NfsStatus::Acces));
    assert_eq!(fs.remove_target(0, b"rw").err(), Some(NfsStatus::Acces));
    assert_eq!(fs.rename_target(0, b"rw", 1, b"x").err(), Some(NfsStatus::Acces));
    assert_eq!(fs.rename_target(1, b"x", 0, b"y").err(), Some(NfsStatus::Acces));
    assert_eq!(fs.link_target(0, 1, b"l").err(), Some(NfsStatus::Acces));
    assert_eq!(fs.link_target(1, 0, b"l").err(), Some(NfsStatus::Acces));
    assert!(fs.refresh_target(0).is_none());
    assert!(matches!(fs.lookup_cached(0, b"nothing"), LookupStep::Done(Err(NfsStatus::NoEnt))));
    assert!(matches!(fs.lookup_cached(0, b"rw"), LookupStep::Done(Ok(1))));
}

#[test]
fn unknown_ids_are_missing() {
    let mut fs = server(false);
    assert_eq!(fs.read_target(9).err(), Some(NfsStatus::NoEnt));
    assert_eq!(fs.write_target(9).err(), Some(NfsStatus::NoEnt));
    assert_eq!(fs.readlink_target(9).err(), Some(NfsStatus::NoEnt));
    assert_eq!(fs.setattr_target(9).err(), Some(NfsStatus::NoEnt));
    assert_eq!(fs.create_target(9, b"n").err(), Some(NfsStatus::NoEnt));
    assert_eq!(fs.rename_target(9, b"a", 1, b"b").err(), Some(NfsStatus::NoEnt));
    assert_eq!(fs.rename_target(1, b"a", 9, b"b").err(), Some(NfsStatus::NoEnt));
    assert_eq!(fs.link_target(9, 1, b"l").err(), Some(NfsStatus::NoEnt));
    assert_eq!(fs.link_target(1, 9, b"l").err(), Some(NfsStatus::NoEnt));
    assert_eq!(fs.getattr(9, HostStat::Absent), Err(NfsStatus::NoEnt));
    assert_eq!(fs.readdir_refresh(9, HostStat::Absent), Err(NfsStatus::NoEnt));
    assert!(fs.readdir(9, 0, 5, &found(&[])).is_err());
    assert!(matches!(fs.lookup_cached(9, b"x"), LookupStep::Done(Err(NfsStatus::NoEnt))));
    assert!(matches!(fs.list_target(9), ListTarget::Nothing));
}

#[test]
fn hard_links_share_the_file_id() {
    let mut fs = server(false);
    let dir = make(&mut fs, 1, "d", folder(5));
    let file = make(&mut fs, 1, "f", regular(4));
    let paths = fs.link_target(file, dir, b"alias").unwrap();
    assert_eq!(paths.file.tail, vec![b"f".to_vec()]);
    assert_eq!(paths.link.tail, vec![b"d".to_vec(), b"alias".to_vec()]);
    let ids = fs.fsmap.next_fileid();
    assert_eq!(fs.link_commit(file, dir, b"alias"), Ok(()));
    assert_eq!(fs.fsmap.next_fileid(), ids);
    assert_eq!(fs.fsmap.find_child(dir, b"alias"), Ok(file));
    assert_eq!(fs.fsmap.find_child(1, b"f"), Ok(file));
    assert!(matches!(fs.lookup_cached(dir, b"alias"), LookupStep::Done(Ok(id)) if id == file));
    // The entry keeps the name it had.
    let name = fs.fsmap.find_entry(file).unwrap().name;
    assert_eq!(fs.fsmap.sym_to_fname(&name), b"f".to_vec());
}

#[test]
fn a_link_into_a_listed_directory_shows_among_its_children() {
    let mut fs = server(false);
    let dir = make(&mut fs, 1, "d", folder(5));
    let file = make(&mut fs, 1, "f", regular(4));
    assert_eq!(fs.fsmap.refresh_dir_list(dir, &found(&[])), Ok(()));
    assert_eq!(fs.link_commit(file, dir, b"alias"), Ok(()));
    assert_eq!(fs.fsmap.find_entry(dir).unwrap().children, Some(BTreeSet::from([file])));
}

#[test]
fn a_rename_across_directories_moves_the_child() {
    let mut fs = server(false);
    let a = make(&mut fs, 1, "a", folder(5));
    let b = make(&mut fs, 1, "b", folder(6));
    assert_eq!(fs.fsmap.refresh_dir_list(a, &found(&[("x", regular(1))])), Ok(()));
    assert_eq!(fs.fsmap.refresh_dir_list(b, &found(&[])), Ok(()));
    let x = fs.fsmap.find_child(a, b"x").unwrap();
    let paths = fs.rename_target(a, b"x", b, b"y").unwrap();
    assert_eq!(paths.from.tail, vec![b"a".to_vec(), b"x".to_vec()]);
    assert_eq!(paths.to_dir.tail, vec![b"b".to_vec()]);
    assert_eq!(paths.to.tail, vec![b"b".to_vec(), b"y".to_vec()]);
    let seen_a = HostStat::Found(folder(5));
    let seen_b = HostStat::Found(folder(6));
    assert_eq!(fs.rename_commit(a, b"x", b, b"y", seen_a, seen_b), Ok(()));
    assert_eq!(fs.fsmap.find_child(b, b"y"), Ok(x));
    assert_eq!(fs.fsmap.find_child(a, b"x"), Err(NfsStatus::NoEnt));
    assert_eq!(fs.fsmap.find_entry(a).unwrap().children, Some(BTreeSet::new()));
    assert_eq!(fs.fsmap.find_entry(b).unwrap().children, Some(BTreeSet::from([x])));
    let name = fs.fsmap.find_entry(x).unwrap().name;
    assert_eq!(fs.fsmap.path_id(&name), Some(x));
    assert_eq!(
        fs.fsmap.sym_to_path(&name),
        vec![b"rw".to_vec(), b"b".to_vec(), b"y".to_vec()]
    );
}

#[test]
fn a_rename_of_an_unknown_name_changes_no_binding() {
    let mut fs = server(false);
    let seen = HostStat::Found(folder(10));
    assert_eq!(fs.rename_commit(1, b"ghost", 1, b"spirit", seen, seen), Ok(()));
    assert_eq!(fs.fsmap.find_child(1, b"ghost"), Err(NfsStatus::NoEnt));
    assert_eq!(fs.fsmap.find_child(1, b"spirit"), Err(NfsStatus::NoEnt));
    assert_eq!(fs.fsmap.next_fileid(), 3);
}

#[test]
fn removal_drops_the_entry_and_the_child() {
    let mut fs = server(false);
    assert_eq!(fs.fsmap.refresh_dir_list(1, &found(&[("x", regular(1)), ("y", regular(2))])), Ok(()));
    let x = fs.fsmap.find_child(1, b"x").unwrap();
    let y = fs.fsmap.find_child(1, b"y").unwrap();
    assert_eq!(fs.remove_commit(1, b"x", HostStat::Found(folder(10))), Ok(()));
    assert!(!fs.fsmap.contains(x));
    assert!(fs.fsmap.contains(y));
    assert_eq!(fs.fsmap.find_entry(1).unwrap().children, Some(BTreeSet::from([y])));
    // Removing a name that the cache does not hold changes nothing.
    assert_eq!(fs.remove_commit(1, b"zzz", HostStat::Found(folder(10))), Ok(()));
    assert!(fs.fsmap.contains(y));
}

#[test]
fn a_creation_that_cannot_be_examined_is_an_io_error() {
    let mut fs = server(false);
    let seen = HostStat::Found(folder(10));
    assert_eq!(fs.create_commit(1, b"n", seen, HostStat::Failed), Err(NfsStatus::Io));
    assert_eq!(fs.create_commit(1, b"n", seen, HostStat::Absent), Err(NfsStatus::Io));
    assert_eq!(fs.fsmap.find_child(1, b"n"), Err(NfsStatus::NoEnt));
    assert_eq!(fs.fsmap.next_fileid(), 3);
}

#[test]
fn a_creation_in_a_vanished_directory_is_missing() {
    let mut fs = server(false);
    let dir = make(&mut fs, 1, "d", folder(5));
    let out = fs.create_commit(dir, b"n", HostStat::Absent, HostStat::Found(regular(0)));
    assert_eq!(out, Err(NfsStatus::NoEnt));
    assert!(!fs.fsmap.contains(dir));
}

#[test]
fn a_creation_shows_among_listed_children() {
    let mut fs = server(false);
    assert_eq!(fs.fsmap.refresh_dir_list(1, &found(&[])), Ok(()));
    let id = make(&mut fs, 1, "n", regular(0));
    assert_eq!(fs.fsmap.find_entry(1).unwrap().children, Some(BTreeSet::from([id])));
    assert_eq!(fs.fsmap.find_child(1, b"n"), Ok(id));
}

#[test]
fn read_windows_are_clamped_to_the_file() {
    let w = read_window(0, 10, 5);
    assert_eq!((w.start, w.end, w.eof), (0, 5, true));
    let w = read_window(0, 5, 5);
    assert_eq!((w.start, w.end, w.eof), (0, 5, true));
    let w = read_window(0, 4, 5);
    assert_eq!((w.start, w.end, w.eof), (0, 4, false));
    let w = read_window(2, 2, 5);
    assert_eq!((w.start, w.end, w.eof), (2, 4, false));
    let w = read_window(7, 3, 5);
    assert_eq!((w.start, w.end, w.eof), (5, 5, true));
    let w = read_window(0, 0, 0);
    assert_eq!((w.start, w.end, w.eof), (0, 0, true));
    let w = read_window(u64::MAX, u32::MAX, 100);
    assert_eq!((w.start, w.end, w.eof), (100, 100, true));
    let w = read_window(u64::MAX - 1, 1, u64::MAX);
    assert_eq!((w.start, w.end, w.eof), (u64::MAX - 1, u64::MAX, true));
}

#[test]
fn consecutive_reads_reconstruct_the_file() {
    let content: Vec<u8> = (0u8..23).collect();
    let len = content.len() as u64;
    for offset in 0..30u64 {
        for count in 0..9u32 {
            let first = read_window(offset, count, len);
            let second = read_window(offset + count as u64, 64, len);
            let mut bytes = content[first.start as usize..first.end as usize].to_vec();
            bytes.extend_from_slice(&content[second.start as usize..second.end as usize]);
            let from = offset.min(len) as usize;
            assert_eq!(bytes, content[from..].to_vec());
            assert_eq!(first.eof, offset + count as u64 >= len);
            assert!(second.eof);
        }
    }
}

#[test]
fn pages_follow_the_order_of_ids() {
    let mut fs = server(false);
    let names = [("a", regular(1)), ("b", regular(2)), ("c", regular(3)), ("d", regular(4))];
    let page = fs.readdir(1, 0, 2, &found(&names)).unwrap();
    let ids: Vec<u64> = page.entries.iter().map(|e| e.fileid).collect();
    assert_eq!(ids, vec![3, 4]);
    assert_eq!(page.entries[0].name, b"a".to_vec());
    assert_eq!(page.entries[1].attr.size, 2);
    assert_eq!(page.entries[1].attr.fileid, 4);
    assert!(!page.end);
    let page = fs.read_page(1, 4, 2).unwrap();
    let ids: Vec<u64> = page.entries.iter().map(|e| e.fileid).collect();
    assert_eq!(ids, vec![5, 6]);
    assert!(page.end);
    let page = fs.read_page(1, 5, 10).unwrap();
    assert_eq!(page.entries.len(), 1);
    assert_eq!(page.entries[0].name, b"d".to_vec());
    assert!(page.end);
    let page = fs.read_page(1, 6, 10).unwrap();
    assert!(page.entries.is_empty());
    assert!(page.end);
    // A page never comes back empty while something remains.
    let page = fs.read_page(1, 0, 0).unwrap();
    assert_eq!(page.entries.len(), 1);
    assert_eq!(page.entries[0].fileid, 3);
    assert!(!page.end);
    let page = fs.read_page(1, 5, 0).unwrap();
    assert_eq!(page.entries.len(), 1);
    assert!(page.end);
    // A cursor between ids starts at the next id above it.
    let page = fs.read_page(0, 1, 10).unwrap();
    assert_eq!(page.entries.len(), 1);
    assert_eq!(page.entries[0].fileid, 2);
    assert_eq!(page.entries[0].name, b"ro".to_vec());
}

#[test]
fn only_listed_directories_can_be_read() {
    let mut fs = server(false);
    let file = make(&mut fs, 1, "f", regular(1));
    assert_eq!(fs.read_page(file, 0, 10).err(), Some(NfsStatus::NotDir));
    assert_eq!(fs.readdir(file, 0, 10, &found(&[])).err(), Some(NfsStatus::NotDir));
    assert_eq!(fs.read_page(1, 0, 10).err(), Some(NfsStatus::Io));
    let mut broken = found(&[("x", regular(1))]);
    broken.complete = false;
    assert_eq!(fs.readdir(1, 0, 10, &broken).err(), Some(NfsStatus::Io));
}

#[test]
fn a_page_with_a_vanished_child_fails() {
    let mut fs = server(false);
    assert_eq!(fs.fsmap.refresh_dir_list(1, &found(&[("x", regular(1)), ("y", regular(2))])), Ok(()));
    let x = fs.fsmap.find_child(1, b"x").unwrap();
    fs.fsmap.delete_entry(x);
    assert_eq!(fs.read_page(1, 0, 10).err(), Some(NfsStatus::NoEnt));
    assert_eq!(fs.read_page(1, x, 10).unwrap().entries.len(), 1);
}

#[test]
fn the_root_lists_the_mounts_that_exist() {
    let mut fs = server(false);
    // The root's attributes never change by themselves: its list stays.
    assert!(matches!(fs.list_target(0), ListTarget::Nothing));
    let page = fs.readdir(0, 0, 10, &found(&[])).unwrap();
    let names: Vec<Vec<u8>> = page.entries.iter().map(|e| e.name.clone()).collect();
    assert_eq!(names, vec![b"rw".to_vec(), b"ro".to_vec()]);
    // Once they have changed, the mounts are listed anew from their sources.
    {
        let root = fs.fsmap.find_entry_mut(0).unwrap();
        root.fsmeta.mtime.seconds = 99;
    }
    assert!(matches!(fs.list_target(0), ListTarget::Mounts));
    let scan = DirScan {
        mounts: vec![None, Some(folder(21))],
        entries: Vec::new(),
        complete: true,
    };
    let page = fs.readdir(0, 0, 10, &scan).unwrap();
    assert_eq!(page.entries.len(), 1);
    assert_eq!(page.entries[0].fileid, 2);
    assert_eq!(page.entries[0].attr.mtime.seconds, 21);
    assert!(page.end);
    let root = fs.fsmap.find_entry(0).unwrap();
    assert_eq!(root.children, Some(BTreeSet::from([2])));
    assert_eq!(root.children_meta, root.fsmeta);
}

#[test]
fn entries_can_be_updated_in_place() {
    let mut fs = server(false);
    {
        let entry = fs.fsmap.find_entry_mut(1).unwrap();
        assert_eq!(entry.fsmeta.fileid, 1);
        entry.fsmeta.size = 4242;
    }
    assert_eq!(fs.fsmap.find_entry(1).unwrap().fsmeta.size, 4242);
    assert_eq!(fs.fsmap.find_entry(2).unwrap().fsmeta.size, 0);
    assert_eq!(fs.fsmap.find_entry_mut(9).err(), Some(NfsStatus::NoEnt));
    let stamped = fs.setattr_commit(2, regular(8));
    assert_eq!(stamped.fileid, 2);
    assert_eq!(fs.fsmap.find_entry(2).unwrap().fsmeta.size, 8);
}

#[test]
fn host_failures_have_their_status() {
    assert_eq!(failure_status(HostFailure::ReadOpen), NfsStatus::NoEnt);
    assert_eq!(failure_status(HostFailure::ReadMetadata), NfsStatus::NoEnt);
    assert_eq!(failure_status(HostFailure::ReadSeek), NfsStatus::Io);
    assert_eq!(failure_status(HostFailure::ReadData), NfsStatus::Io);
    assert_eq!(failure_status(HostFailure::WriteOpen), NfsStatus::Io);
    assert_eq!(failure_status(HostFailure::WriteSeek), NfsStatus::Io);
    assert_eq!(failure_status(HostFailure::WriteData), NfsStatus::Io);
    assert_eq!(failure_status(HostFailure::WriteMetadata), NfsStatus::Io);
    assert_eq!(failure_status(HostFailure::SetattrStat), NfsStatus::Io);
    assert_eq!(failure_status(HostFailure::CreateExists), NfsStatus::Exist);
    assert_eq!(failure_status(HostFailure::Create(CreateKind::Directory)), NfsStatus::Io);
    assert_eq!(failure_status(HostFailure::Create(CreateKind::File)), NfsStatus::Io);
    assert_eq!(failure_status(HostFailure::Create(CreateKind::Symlink)), NfsStatus::Io);
    assert_eq!(failure_status(HostFailure::Create(CreateKind::Exclusive)), NfsStatus::Exist);
    assert_eq!(failure_status(HostFailure::RemoveStat), NfsStatus::NoEnt);
    assert_eq!(failure_status(HostFailure::RemoveUnlink), NfsStatus::Io);
    assert_eq!(failure_status(HostFailure::RenameDestination), NfsStatus::NoEnt);
    assert_eq!(failure_status(HostFailure::RenameSource), NfsStatus::NoEnt);
    assert_eq!(failure_status(HostFailure::RenameMove), NfsStatus::Io);
    assert_eq!(failure_status(HostFailure::ReadlinkNotSymlink), NfsStatus::BadType);
    assert_eq!(failure_status(HostFailure::ReadlinkRead), NfsStatus::Io);
    assert_eq!(failure_status(HostFailure::Link(HostError::PermissionDenied)), NfsStatus::Acces);
    assert_eq!(failure_status(HostFailure::Link(HostError::NotFound)), NfsStatus::NoEnt);
    assert_eq!(failure_status(HostFailure::Link(HostError::AlreadyExists)), NfsStatus::Exist);
    assert_eq!(failure_status(HostFailure::Link(HostError::Other)), NfsStatus::Io);
    assert_eq!(host_error_status(HostError::PermissionDenied), NfsStatus::Acces);
    assert_eq!(host_error_status(HostError::Other), NfsStatus::Io);
}

#[test]
fn special_nodes_become_regular_files() {
    assert_eq!(mknod_kind(FileType::CharDevice), Ok(CreateKind::File));
    assert_eq!(mknod_kind(FileType::BlockDevice), Ok(CreateKind::File));
    assert_eq!(mknod_kind(FileType::Socket), Ok(CreateKind::File));
    assert_eq!(mknod_kind(FileType::Fifo), Ok(CreateKind::File));
    assert_eq!(mknod_kind(FileType::Regular), Err(NfsStatus::BadType));
    assert_eq!(mknod_kind(FileType::Directory), Err(NfsStatus::BadType));
    assert_eq!(mknod_kind(FileType::Symlink), Err(NfsStatus::BadType));
    assert!(refuses_existing(CreateKind::Directory));
    assert!(refuses_existing(CreateKind::Symlink));
    assert!(!refuses_existing(CreateKind::File));
    assert!(!refuses_existing(CreateKind::Exclusive));
}

#[test]
fn room_is_tested_before_names_are_taken_in() {
    let fs = server(false);
    assert!(fs.fsmap.can_intern(b"new"));
    assert!(fs.fsmap.can_intern(b"rw"));
    assert!(fs.fsmap.can_intern_both(b"one", b"two"));
    assert!(fs.fsmap.can_intern_both(b"one", b"one"));
    assert!(fs.fsmap.has_room_for(0));
    assert!(fs.fsmap.has_room_for(1_000_000));
    assert!(!fs.fsmap.has_room_for(usize::MAX));
    assert!(!fs.fsmap.has_room_for(u32::MAX as usize));
}

#[test]
fn a_lookup_lists_the_directory_on_a_miss() {
    let mut fs = server(false);
    match fs.lookup_cached(1, b"late") {
        LookupStep::Probe(path) => {
            assert_eq!(*path.source, PathBuf::from("/srv/rw"));
            assert_eq!(path.tail, vec![b"late".to_vec()]);
        }
        LookupStep::Done(_) => panic!("nothing is cached yet"),
    }
    assert_eq!(fs.lookup_refresh(1, true, HostStat::Failed), Err(NfsStatus::Io));
    assert_eq!(fs.lookup_refresh(1, true, HostStat::Absent), Err(NfsStatus::NoEnt));
    assert!(!fs.fsmap.contains(1));

    let mut fs = server(false);
    assert_eq!(fs.lookup_refresh(1, true, HostStat::Found(folder(10))), Ok(()));
    let scan = found(&[("early", regular(1)), ("late", regular(2))]);
    assert_eq!(fs.lookup_finish(1, b"late", &scan), Ok(4));
    assert!(matches!(fs.lookup_cached(1, b"early"), LookupStep::Done(Ok(3))));
    assert_eq!(fs.lookup_finish(1, b"never", &found(&[])), Err(NfsStatus::NoEnt));
}

#[test]
fn a_rename_replaces_what_was_under_the_new_name() {
    let mut fs = server(false);
    let a = make(&mut fs, 1, "a", folder(5));
    let b = make(&mut fs, 1, "b", folder(6));
    assert_eq!(fs.fsmap.refresh_dir_list(a, &found(&[("x", regular(1))])), Ok(()));
    assert_eq!(fs.fsmap.refresh_dir_list(b, &found(&[("y", folder(7))])), Ok(()));
    let x = fs.fsmap.find_child(a, b"x").unwrap();
    let y = fs.fsmap.find_child(b, b"y").unwrap();
    assert_eq!(fs.fsmap.refresh_dir_list(y, &found(&[("deep", regular(3))])), Ok(()));
    let deep = fs.fsmap.find_child(y, b"deep").unwrap();
    let deep_name = fs.fsmap.find_entry(deep).unwrap().name;
    let ids = fs.fsmap.next_fileid();

    let seen_a = HostStat::Found(folder(5));
    let seen_b = HostStat::Found(folder(6));
    assert_eq!(fs.rename_commit(a, b"x", b, b"y", seen_a, seen_b), Ok(()));
    assert_eq!(fs.fsmap.find_child(b, b"y"), Ok(x));
    assert_eq!(fs.fsmap.find_child(a, b"x"), Err(NfsStatus::NoEnt));
    assert!(fs.fsmap.contains(x));
    assert!(!fs.fsmap.contains(y));
    assert!(!fs.fsmap.contains(deep));
    assert_eq!(fs.fsmap.path_id(&deep_name), None);
    assert_eq!(fs.fsmap.find_entry(a).unwrap().children, Some(BTreeSet::new()));
    assert_eq!(fs.fsmap.find_entry(b).unwrap().children, Some(BTreeSet::from([x])));
    let name = fs.fsmap.find_entry(x).unwrap().name;
    assert_eq!(fs.fsmap.path_id(&name), Some(x));
    assert_eq!(fs.fsmap.next_fileid(), ids);
}

#[test]
fn a_rename_onto_itself_changes_nothing() {
    let mut fs = server(false);
    assert_eq!(fs.fsmap.refresh_dir_list(1, &found(&[("x", regular(1))])), Ok(()));
    let x = fs.fsmap.find_child(1, b"x").unwrap();
    let seen = HostStat::Found(folder(10));
    assert_eq!(fs.rename_commit(1, b"x", 1, b"x", seen, seen), Ok(()));
    assert_eq!(fs.fsmap.find_child(1, b"x"), Ok(x));
    assert!(fs.fsmap.contains(x));
    assert_eq!(fs.fsmap.find_entry(1).unwrap().children, Some(BTreeSet::from([x])));
}

#[test]
fn directories_and_files_are_removed_by_their_own_calls() {
    assert_eq!(remove_call(true), RemoveCall::Directory);
    assert_eq!(remove_call(false), RemoveCall::File);
}
