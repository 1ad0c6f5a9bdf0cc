//! The NFS operations over the identifier map.
//!
//! Each operation is cut where it touches the host. What comes before is a
//! function that checks the request against the cached state and names the
//! host paths to work on; what comes after is a function that takes what the
//! host showed and brings the cached state up to date. The caller does the
//! host work in between, while it holds the map.

use crate::attr::FileAttr;
use crate::attr::FileType;
use crate::attr::NfsStatus;
use crate::config::MountConfig;
use crate::fsmap::DirScan;
use crate::fsmap::FSMap;
use crate::fsmap::increasing;
use crate::fsmap::RealPath;
use crate::fsmap::set_items;
use crate::model::FsModel;
use crate::model::HostPathView;
use crate::model::HostStat;
use crate::model::RefreshResult;
use crate::ops::after_cursor;
use crate::ops::DirEntryView;
use crate::ops::lemma_sorted_unique;
use crate::ops::LinkPathsView;
use crate::ops::ListTargetView;
use crate::ops::LookupStepView;
use crate::ops::page_len;
use crate::ops::ReadDirView;
use crate::ops::RenamePathsView;
use crate::ops::sorted;
use std::path::PathBuf;
use vstd::prelude::*;
use vstd::slice::slice_to_vec;

verus! {

/// Whether the server as a whole accepts modification.
#[derive(Clone, Copy, Debug, PartialEq, Eq, Structural)]
pub enum VfsCapabilities {
    ReadOnly,
    ReadWrite,
}

/// The kinds of object that the creating operations make.
#[derive(Clone, Copy, Debug, PartialEq, Eq, Structural)]
pub enum CreateKind {
    /// A directory.
    Directory,
    /// A file, truncated if it exists.
    File,
    /// A file that must not exist yet.
    Exclusive,
    /// A symbolic link.
    Symlink,
}

/// How a host operation failed, as far as the translation to a status tells
/// failures apart.
#[derive(Clone, Copy, Debug, PartialEq, Eq, Structural)]
pub enum HostError {
    PermissionDenied,
    NotFound,
    AlreadyExists,
    Other,
}

/// Where an operation failed on the host.
#[derive(Clone, Copy, Debug, PartialEq, Eq, Structural)]
pub enum HostFailure {
    /// The file to read could not be opened.
    ReadOpen,
    /// The length of the file to read could not be found out.
    ReadMetadata,
    /// The file to read could not be positioned.
    ReadSeek,
    /// The file gave fewer bytes than its length promised.
    ReadData,
    /// The file to write could not be opened.
    WriteOpen,
    /// The file to write could not be positioned.
    WriteSeek,
    /// The bytes could not be written.
    WriteData,
    /// The file could not be examined after the write.
    WriteMetadata,
    /// The object could not be examined after its attributes were set.
    SetattrStat,
    /// Something exists where an object is to be created that must not
    /// replace anything.
    CreateExists,
    /// The host refused to create an object of this kind.
    Create(CreateKind),
    /// The object to remove could not be examined.
    RemoveStat,
    /// The host refused to remove the object.
    RemoveUnlink,
    /// The directory to rename into does not exist.
    RenameDestination,
    /// The object to rename does not exist.
    RenameSource,
    /// The host refused the rename.
    RenameMove,
    /// The object whose link target is asked for is no symbolic link.
    ReadlinkNotSymlink,
    /// The link target could not be read.
    ReadlinkRead,
    /// The host refused the hard link, for this reason.
    Link(HostError),
}

/// The part of a file that a read returns.
#[derive(Clone, Copy, Debug, PartialEq, Eq, Structural)]
pub struct ReadWindow {
    /// The offset of the first byte to read.
    pub start: u64,
    /// The offset behind the last byte to read.
    pub end: u64,
    /// Whether the request reaches the end of the file.
    pub eof: bool,
}

/// The smaller of two integers.
pub open spec fn min_int(a: int, b: int) -> int {
    if a <= b {
        a
    } else {
        b
    }
}

/// The window of a read of `count` bytes at `offset` in a file of `len`
/// bytes: the requested range clamped to the file.
pub open spec fn read_window_spec(offset: u64, count: u32, len: u64) -> ReadWindow {
    ReadWindow {
        start: min_int(offset as int, len as int) as u64,
        end: min_int(offset + count, len as int) as u64,
        eof: offset + count >= len,
    }
}

/// What a read of `count` bytes at `offset` returns of a file that holds
/// `content`.
pub open spec fn read_spec(content: Seq<u8>, offset: u64, count: u32) -> (Seq<u8>, bool) {
    let window = read_window_spec(offset, count, content.len() as u64);
    (content.subrange(window.start as int, window.end as int), window.eof)
}

/// Clamps the range of a read to the file. The end of the request is
/// computed without wrapping, so a request that ends beyond any offset reads
/// to the end of the file.
pub fn read_window(offset: u64, count: u32, len: u64) -> (out: ReadWindow)
    ensures
        out == read_window_spec(offset, count, len),
        out.start <= out.end <= len,
{
    let want: u64 = count as u64;
    let beyond = want > u64::MAX - offset;
    let end: u64 = if beyond || offset + want > len {
        len
    } else {
        offset + want
    };
    let start: u64 = if offset >= len {
        len
    } else {
        offset
    };
    ReadWindow { start, end, eof: beyond || offset + want >= len }
}

/// The translation of a host error to a status: permission, absence and
/// existence have their own, everything else is an I/O error.
pub fn host_error_status(error: HostError) -> (out: NfsStatus)
    ensures
        out == match error {
            HostError::PermissionDenied => NfsStatus::Acces,
            HostError::NotFound => NfsStatus::NoEnt,
            HostError::AlreadyExists => NfsStatus::Exist,
            HostError::Other => NfsStatus::Io,
        },
{
    match error {
        HostError::PermissionDenied => NfsStatus::Acces,
        HostError::NotFound => NfsStatus::NoEnt,
        HostError::AlreadyExists => NfsStatus::Exist,
        HostError::Other => NfsStatus::Io,
    }
}

/// Whether creating an object of this kind is refused when something exists
/// at its path: directories and symbolic links are, files are not asked.
pub fn refuses_existing(kind: CreateKind) -> (out: bool)
    ensures
        out == (kind == CreateKind::Directory || kind == CreateKind::Symlink),
{
    match kind {
        CreateKind::Directory => true,
        CreateKind::Symlink => true,
        CreateKind::File => false,
        CreateKind::Exclusive => false,
    }
}

/// How an object is removed on the host.
#[derive(Clone, Copy, Debug, PartialEq, Eq, Structural)]
pub enum RemoveCall {
    /// As a directory.
    Directory,
    /// As a file: by unlinking its name.
    File,
}

/// The call that removes an object: a directory is removed as a directory,
/// everything else, a symbolic link to a directory too, as a file.
pub fn remove_call(is_dir: bool) -> (out: RemoveCall)
    ensures
        out == if is_dir {
            RemoveCall::Directory
        } else {
            RemoveCall::File
        },
{
    if is_dir {
        RemoveCall::Directory
    } else {
        RemoveCall::File
    }
}

/// What a request for a special node creates: device, socket and pipe nodes
/// become regular files; no other type can be asked for this way.
pub fn mknod_kind(ftype: FileType) -> (out: Result<CreateKind, NfsStatus>)
    ensures
        out == match ftype {
            FileType::CharDevice | FileType::BlockDevice | FileType::Socket | FileType::Fifo => Ok::<
                CreateKind,
                NfsStatus,
            >(CreateKind::File),
            _ => Err(NfsStatus::BadType),
        },
{
    match ftype {
        FileType::CharDevice => Ok(CreateKind::File),
        FileType::BlockDevice => Ok(CreateKind::File),
        FileType::Socket => Ok(CreateKind::File),
        FileType::Fifo => Ok(CreateKind::File),
        _ => Err(NfsStatus::BadType),
    }
}

/// The status that a failure on the host is reported with. What is missing
/// is `NoEnt`: a file that cannot be opened or examined for a read, an object
/// that cannot be examined for its removal, the source and the destination
/// directory of a rename. What is in the way of a creation is `Exist`, and so
/// is an exclusive creation that the host refused. A link target asked of
/// something that is no symbolic link is `BadType`. A refused hard link is
/// translated by the reason. Everything else is `Io`.
pub open spec fn failure_status_spec(failure: HostFailure) -> NfsStatus {
    match failure {
        HostFailure::ReadOpen | HostFailure::ReadMetadata => NfsStatus::NoEnt,
        HostFailure::RemoveStat => NfsStatus::NoEnt,
        HostFailure::RenameDestination | HostFailure::RenameSource => NfsStatus::NoEnt,
        HostFailure::CreateExists => NfsStatus::Exist,
        HostFailure::Create(CreateKind::Exclusive) => NfsStatus::Exist,
        HostFailure::ReadlinkNotSymlink => NfsStatus::BadType,
        HostFailure::Link(HostError::PermissionDenied) => NfsStatus::Acces,
        HostFailure::Link(HostError::NotFound) => NfsStatus::NoEnt,
        HostFailure::Link(HostError::AlreadyExists) => NfsStatus::Exist,
        _ => NfsStatus::Io,
    }
}

/// The status that a failure on the host is reported with.
pub fn failure_status(failure: HostFailure) -> (out: NfsStatus)
    ensures
        out == failure_status_spec(failure),
{
    match failure {
        HostFailure::ReadOpen => NfsStatus::NoEnt,
        HostFailure::ReadMetadata => NfsStatus::NoEnt,
        HostFailure::RemoveStat => NfsStatus::NoEnt,
        HostFailure::RenameDestination => NfsStatus::NoEnt,
        HostFailure::RenameSource => NfsStatus::NoEnt,
        HostFailure::CreateExists => NfsStatus::Exist,
        HostFailure::Create(kind) => match kind {
            CreateKind::Exclusive => NfsStatus::Exist,
            _ => NfsStatus::Io,
        },
        HostFailure::ReadlinkNotSymlink => NfsStatus::BadType,
        HostFailure::Link(error) => host_error_status(error),
        _ => NfsStatus::Io,
    }
}

/// The host path of `name` in the directory `dir`.
pub open spec fn child_path(dir: HostPathView, name: Seq<u8>) -> HostPathView {
    HostPathView { source: dir.source, tail: dir.tail.push(name) }
}

impl FsModel {
    /// The host path of entry `id` and the read-only flag of its mount.
    pub open spec fn entry_path(self, id: u64) -> Option<(HostPathView, bool)> {
        if self.entries.contains_key(id) {
            self.resolve(self.entries[id].name)
        } else {
            None
        }
    }

    /// The host path of entry `id`, for an operation that does not modify it;
    /// `unbacked` is the status for an entry without host backing.
    pub open spec fn read_target(self, id: u64, unbacked: NfsStatus) -> Result<
        HostPathView,
        NfsStatus,
    > {
        if !self.entries.contains_key(id) {
            Err(NfsStatus::NoEnt)
        } else {
            match self.resolve(self.entries[id].name) {
                Some((path, _)) => Ok(path),
                None => Err(unbacked),
            }
        }
    }

    /// The host path of entry `id`, for an operation that modifies it. The
    /// server-wide flag is tested first, then the entry, then its mount's flag.
    pub open spec fn write_target(self, read_only: bool, id: u64, unbacked: NfsStatus) -> Result<
        HostPathView,
        NfsStatus,
    > {
        if read_only {
            Err(NfsStatus::RoFs)
        } else if !self.entries.contains_key(id) {
            Err(NfsStatus::NoEnt)
        } else {
            match self.resolve(self.entries[id].name) {
                Some((path, mount_read_only)) => if mount_read_only {
                    Err(NfsStatus::RoFs)
                } else {
                    Ok(path)
                },
                None => Err(unbacked),
            }
        }
    }

    /// The host path of `name` in the directory `dirid`, for an operation
    /// that modifies the directory.
    pub open spec fn child_target(self, read_only: bool, dirid: u64, name: Seq<u8>) -> Result<
        HostPathView,
        NfsStatus,
    > {
        match self.write_target(read_only, dirid, NfsStatus::Acces) {
            Ok(dir) => Ok(child_path(dir, name)),
            Err(status) => Err(status),
        }
    }

    /// The outcome of asking for the attributes of entry `id`, given what a
    /// stat of its host path showed.
    pub open spec fn getattr_result(self, id: u64, seen: HostStat) -> Result<FileAttr, NfsStatus> {
        match self.refresh_result(id, seen) {
            Err(status) => Err(status),
            Ok(RefreshResult::Delete) => Err(NfsStatus::NoEnt),
            Ok(_) => Ok(self.after_refresh(id, seen).entries[id].fsmeta),
        }
    }
}

/// One entry of a directory as a read of the directory reports it.
#[derive(Debug)]
pub struct DirEntry {
    pub fileid: u64,
    /// The raw name: the last component of the entry's path.
    pub name: Vec<u8>,
    /// The attributes as of the entry's last refresh.
    pub attr: FileAttr,
}

impl View for DirEntry {
    type V = DirEntryView;

    open spec fn view(&self) -> DirEntryView {
        DirEntryView { fileid: self.fileid, name: self.name@, attr: self.attr }
    }
}

/// One page of a directory.
#[derive(Debug)]
pub struct ReadDirResult {
    pub entries: Vec<DirEntry>,
    /// Whether the page reaches the end of the directory.
    pub end: bool,
}

impl View for ReadDirResult {
    type V = ReadDirView;

    open spec fn view(&self) -> ReadDirView {
        ReadDirView {
            entries: Seq::new(self.entries@.len(), |i: int| self.entries@[i]@),
            end: self.end,
        }
    }
}

/// The outcome of a read of a directory, with the page by its view.
pub open spec fn page_view(r: Result<ReadDirResult, NfsStatus>) -> Result<ReadDirView, NfsStatus> {
    match r {
        Ok(page) => Ok(page@),
        Err(status) => Err(status),
    }
}

/// The host paths that a rename works on.
#[derive(Debug)]
pub struct RenamePaths<'a> {
    /// The path that is renamed.
    pub from: RealPath<'a>,
    /// The directory that receives it.
    pub to_dir: RealPath<'a>,
    /// The path that it is renamed to.
    pub to: RealPath<'a>,
}

impl<'a> View for RenamePaths<'a> {
    type V = RenamePathsView;

    open spec fn view(&self) -> RenamePathsView {
        RenamePathsView { from: self.from@, to_dir: self.to_dir@, to: self.to@ }
    }
}

/// The host paths that a hard link works on.
#[derive(Debug)]
pub struct LinkPaths<'a> {
    /// The file that gets one more name.
    pub file: RealPath<'a>,
    /// The path of the new name.
    pub link: RealPath<'a>,
}

impl<'a> View for LinkPaths<'a> {
    type V = LinkPathsView;

    open spec fn view(&self) -> LinkPathsView {
        LinkPathsView { file: self.file@, link: self.link@ }
    }
}

/// What a lookup does after it has asked the cache.
#[derive(Debug)]
pub enum LookupStep<'a> {
    /// The lookup is answered.
    Done(Result<u64, NfsStatus>),
    /// The host has to be asked whether this path exists.
    Probe(RealPath<'a>),
}

impl<'a> View for LookupStep<'a> {
    type V = LookupStepView;

    open spec fn view(&self) -> LookupStepView {
        match *self {
            LookupStep::Done(r) => LookupStepView::Done(r),
            LookupStep::Probe(p) => LookupStepView::Probe(p@),
        }
    }
}

/// What has to be scanned on the host before the children of an entry are
/// listed.
#[derive(Debug)]
pub enum ListTarget<'a> {
    /// Nothing: the cached list is used, or none is made.
    Nothing,
    /// The sources of the mounts.
    Mounts,
    /// The host directory at this path.
    Dir(RealPath<'a>),
}

impl<'a> View for ListTarget<'a> {
    type V = ListTargetView;

    open spec fn view(&self) -> ListTargetView {
        match *self {
            ListTarget::Nothing => ListTargetView::Nothing,
            ListTarget::Mounts => ListTargetView::Mounts,
            ListTarget::Dir(p) => ListTargetView::Dir(p@),
        }
    }
}

/// A refresh leaves every entry it keeps under its name, and keeps what is
/// interned.
pub proof fn lemma_refresh_keeps(m: FsModel, id: u64, seen: HostStat, path: Seq<u32>)
    requires
        m.inv(),
        m.known_path(path),
    ensures
        m.after_refresh(id, seen).names == m.names,
        m.after_refresh(id, seen).known_path(path),
        m.after_refresh(id, seen).next_fileid == m.next_fileid,
        m.after_refresh(id, seen).mounts == m.mounts,
        forall|x: u64| #[trigger]
            m.after_refresh(id, seen).entries.contains_key(x) ==> m.entries.contains_key(x)
                && m.after_refresh(id, seen).entries[x].name == m.entries[x].name,
{
}

/// The mounts of a configuration as the identifier map takes them: target,
/// source and read-only flag of each.
pub open spec fn mount_triples(mounts: Seq<MountConfig>) -> Seq<(String, PathBuf, bool)> {
    Seq::new(mounts.len(), |i: int| (mounts[i].target, mounts[i].source, mounts[i].read_only))
}

/// The mirror filesystem: the identifier map and the server-wide read-only
/// flag.
pub struct MirrorFS {
    /// The identifier map.
    pub fsmap: FSMap,
    /// Whether the server refuses all modification.
    pub read_only: bool,
}

/// A host path with one more component.
fn push_component<'a>(dir: RealPath<'a>, name: &[u8]) -> (out: RealPath<'a>)
    ensures
        out@ == child_path(dir@, name@),
{
    let RealPath { source, tail } = dir;
    let mut tail = tail;
    tail.push(slice_to_vec(name));
    let out = RealPath { source, tail };
    assert(out@.tail =~= dir@.tail.push(name@));
    out
}

impl MirrorFS {
    /// A filesystem that holds the root alone.
    pub fn new(root_meta: FileAttr, read_only: bool) -> (out: MirrorFS)
        ensures
            out.fsmap.wf(),
            out.read_only == read_only,
            out.fsmap@ == FsModel::initial(Seq::empty(), root_meta),
            out.fsmap@.maps_inverse(),
    {
        MirrorFS { fsmap: FSMap::new_with_root(root_meta), read_only }
    }

    /// A filesystem that holds the root and one node for each mount, in the
    /// order of the configuration. `root_meta` is the metadata of the root
    /// directory and `mount_meta` that of each mount's source.
    pub fn new_with_mounts(
        root_meta: FileAttr,
        read_only: bool,
        mounts: Vec<MountConfig>,
        mount_meta: &Vec<FileAttr>,
    ) -> (out: MirrorFS)
        requires
            mount_meta.len() == mounts.len(),
            mounts.len() < u32::MAX,
        ensures
            out.fsmap.wf(),
            out.read_only == read_only,
            out.fsmap.mount_list() == mount_triples(mounts@),
            out.fsmap@ == FsModel::initial(
                crate::fsmap::mounts_view(mount_triples(mounts@)),
                root_meta,
            ).after_mounts(mount_meta@, mounts@.len()),
            crate::laws::distinct_names(crate::fsmap::mounts_view(mount_triples(mounts@)))
                ==> out.fsmap@.maps_inverse() && crate::laws::mounted_shape(
                out.fsmap@,
                mount_meta@,
                mounts@.len(),
            ),
    {
        let ghost given = mounts@;
        let mut mounts = mounts;
        let mut triples: Vec<(String, PathBuf, bool)> = Vec::new();
        while mounts.len() > 0
            invariant
                mounts@.len() <= given.len(),
                triples@.len() + mounts@.len() == given.len(),
                triples@ == mount_triples(given.take(triples@.len() as int)),
                mounts@ == given.skip(triples@.len() as int),
            decreases mounts.len(),
        {
            let ghost done = triples@.len() as int;
            let mount = mounts.remove(0);
            triples.push((mount.target, mount.source, mount.read_only));
            proof {
                assert(mount == given[done]);
                assert(mounts@ =~= given.skip(done + 1));
                assert(triples@ =~= mount_triples(given.take(done + 1)));
            }
        }
        assert(given.take(given.len() as int) =~= given);
        MirrorFS {
            fsmap: FSMap::new_with_mounts(root_meta, triples, mount_meta),
            read_only,
        }
    }

    /// The file id of the root.
    pub fn root_dir(&self) -> (out: u64)
        ensures
            out == 0,
    {
        0
    }

    /// Whether the server as a whole accepts modification.
    pub fn capabilities(&self) -> (out: VfsCapabilities)
        ensures
            out == if self.read_only {
                VfsCapabilities::ReadOnly
            } else {
                VfsCapabilities::ReadWrite
            },
    {
        if self.read_only {
            VfsCapabilities::ReadOnly
        } else {
            VfsCapabilities::ReadWrite
        }
    }

    /// The host path to stat before entry `id` is refreshed; nothing for an
    /// entry that is unknown or has no host backing.
    pub fn refresh_target(&self, id: u64) -> (out: Option<RealPath<'_>>)
        ensures
            match out {
                Some(path) => self.fsmap@.entry_path(id) matches Some((p, _)) && p == path@,
                None => self.fsmap@.entry_path(id) is None,
            },
    {
        match self.fsmap.find_entry(id) {
            Ok(entry) => match self.fsmap.sym_to_real_path(entry.name.as_slice()) {
                Some((path, _)) => Some(path),
                None => None,
            },
            Err(_) => None,
        }
    }

    fn read_path(&self, id: u64, unbacked: NfsStatus) -> (out: Result<RealPath<'_>, NfsStatus>)
        ensures
            match out {
                Ok(path) => self.fsmap@.read_target(id, unbacked) == Ok::<HostPathView, NfsStatus>(
                    path@,
                ),
                Err(status) => self.fsmap@.read_target(id, unbacked) == Err::<
                    HostPathView,
                    NfsStatus,
                >(status),
            },
    {
        let entry = match self.fsmap.find_entry(id) {
            Ok(entry) => entry,
            Err(status) => {
                return Err(status);
            },
        };
        match self.fsmap.sym_to_real_path(entry.name.as_slice()) {
            Some((path, _)) => Ok(path),
            None => Err(unbacked),
        }
    }

    fn write_path(&self, id: u64, unbacked: NfsStatus) -> (out: Result<RealPath<'_>, NfsStatus>)
        ensures
            match out {
                Ok(path) => self.fsmap@.write_target(self.read_only, id, unbacked) == Ok::<
                    HostPathView,
                    NfsStatus,
                >(path@),
                Err(status) => self.fsmap@.write_target(self.read_only, id, unbacked) == Err::<
                    HostPathView,
                    NfsStatus,
                >(status),
            },
    {
        if self.read_only {
            return Err(NfsStatus::RoFs);
        }
        let entry = match self.fsmap.find_entry(id) {
            Ok(entry) => entry,
            Err(status) => {
                return Err(status);
            },
        };
        match self.fsmap.sym_to_real_path(entry.name.as_slice()) {
            Some((path, mount_read_only)) => {
                if mount_read_only {
                    Err(NfsStatus::RoFs)
                } else {
                    Ok(path)
                }
            },
            None => Err(unbacked),
        }
    }

    fn child_of(&self, dirid: u64, name: &[u8]) -> (out: Result<RealPath<'_>, NfsStatus>)
        ensures
            match out {
                Ok(path) => self.fsmap@.child_target(self.read_only, dirid, name@) == Ok::<
                    HostPathView,
                    NfsStatus,
                >(path@),
                Err(status) => self.fsmap@.child_target(self.read_only, dirid, name@) == Err::<
                    HostPathView,
                    NfsStatus,
                >(status),
            },
    {
        match self.write_path(dirid, NfsStatus::Acces) {
            Ok(dir) => Ok(push_component(dir, name)),
            Err(status) => Err(status),
        }
    }

    /// The attributes of entry `id`, after the entry has been reconciled with
    /// what a stat of its host path showed. An entry that the refresh deleted
    /// is reported as missing.
    pub fn getattr(&mut self, id: u64, seen: HostStat) -> (out: Result<FileAttr, NfsStatus>)
        requires
            old(self).fsmap.wf(),
        ensures
            final(self).fsmap.wf(),
            final(self).read_only == old(self).read_only,
            out == old(self).fsmap@.getattr_result(id, seen),
            final(self).fsmap@ == old(self).fsmap@.after_refresh(id, seen),
            old(self).fsmap@.maps_inverse() ==> final(self).fsmap@.maps_inverse(),
    {
        match self.fsmap.refresh_entry(id, seen) {
            Err(status) => Err(status),
            Ok(RefreshResult::Delete) => Err(NfsStatus::NoEnt),
            Ok(_) => {
                match self.fsmap.find_entry(id) {
                    Ok(entry) => Ok(entry.fsmeta),
                    Err(status) => Err(status),
                }
            },
        }
    }

    /// The host file that a read of entry `id` reads; the root and anything
    /// else without host backing cannot be read.
    pub fn read_target(&self, id: u64) -> (out: Result<RealPath<'_>, NfsStatus>)
        ensures
            match out {
                Ok(path) => self.fsmap@.read_target(id, NfsStatus::IsDir) == Ok::<
                    HostPathView,
                    NfsStatus,
                >(path@),
                Err(status) => self.fsmap@.read_target(id, NfsStatus::IsDir) == Err::<
                    HostPathView,
                    NfsStatus,
                >(status),
            },
    {
        self.read_path(id, NfsStatus::IsDir)
    }

    /// The host path whose link target a readlink of entry `id` reads.
    pub fn readlink_target(&self, id: u64) -> (out: Result<RealPath<'_>, NfsStatus>)
        ensures
            match out {
                Ok(path) => self.fsmap@.read_target(id, NfsStatus::BadType) == Ok::<
                    HostPathView,
                    NfsStatus,
                >(path@),
                Err(status) => self.fsmap@.read_target(id, NfsStatus::BadType) == Err::<
                    HostPathView,
                    NfsStatus,
                >(status),
            },
    {
        self.read_path(id, NfsStatus::BadType)
    }

    /// The host file that a write to entry `id` writes. A read-only server or
    /// mount refuses; the root and anything else without host backing cannot
    /// be written.
    pub fn write_target(&self, id: u64) -> (out: Result<RealPath<'_>, NfsStatus>)
        ensures
            match out {
                Ok(path) => self.fsmap@.write_target(self.read_only, id, NfsStatus::IsDir) == Ok::<
                    HostPathView,
                    NfsStatus,
                >(path@),
                Err(status) => self.fsmap@.write_target(self.read_only, id, NfsStatus::IsDir)
                    == Err::<HostPathView, NfsStatus>(status),
            },
    {
        self.write_path(id, NfsStatus::IsDir)
    }

    /// The host path at which `name` is created in the directory `dirid`. A
    /// read-only server or mount refuses; a parent without host backing is
    /// reported as inaccessible.
    pub fn create_target(&self, dirid: u64, name: &[u8]) -> (out: Result<RealPath<'_>, NfsStatus>)
        ensures
            match out {
                Ok(path) => self.fsmap@.child_target(self.read_only, dirid, name@) == Ok::<
                    HostPathView,
                    NfsStatus,
                >(path@),
                Err(status) => self.fsmap@.child_target(self.read_only, dirid, name@) == Err::<
                    HostPathView,
                    NfsStatus,
                >(status),
            },
    {
        self.child_of(dirid, name)
    }

    /// Brings the map up to date after `name` has been created on the host in
    /// the directory `dirid`. `dir_seen` is what a stat of the directory
    /// showed after the creation, `child` what a stat of the new object showed.
    /// A new object that cannot be examined gives `Io`; a directory that the
    /// refresh deleted gives `NoEnt`.
    pub fn create_commit(
        &mut self,
        dirid: u64,
        name: &[u8],
        dir_seen: HostStat,
        child: HostStat,
    ) -> (out: Result<(u64, FileAttr), NfsStatus>)
        requires
            old(self).fsmap.wf(),
            old(self).fsmap@.can_intern(name@),
            old(self).fsmap@.next_fileid < u64::MAX,
        ensures
            final(self).fsmap.wf(),
            final(self).read_only == old(self).read_only,
            out == old(self).fsmap@.create_commit_result(
                old(self).read_only,
                dirid,
                name@,
                dir_seen,
                child,
            ),
            final(self).fsmap@ == old(self).fsmap@.after_create_commit(
                old(self).read_only,
                dirid,
                name@,
                dir_seen,
                child,
            ),
            old(self).fsmap@.maps_inverse() ==> final(self).fsmap@.maps_inverse(),
    {
        proof {
            if self.fsmap@.maps_inverse() {
                crate::laws::lemma_create_commit_keeps_inverse(
                    self.fsmap@,
                    self.read_only,
                    dirid,
                    name@,
                    dir_seen,
                    child,
                );
            }
        }
        let ghost before = self.fsmap@;
        match self.child_of(dirid, name) {
            Err(status) => {
                return Err(status);
            },
            Ok(_) => {},
        }
        let mut path = match self.fsmap.find_entry(dirid) {
            Ok(entry) => entry.name,
            Err(status) => {
                return Err(status);
            },
        };
        assert(before.entry_ok(dirid));
        let _ = self.fsmap.refresh_entry(dirid, dir_seen);
        proof {
            lemma_refresh_keeps(before, dirid, dir_seen, path@);
        }
        let ghost refreshed = self.fsmap@;
        let sym = self.fsmap.intern_name(slice_to_vec(name));
        path.push(sym);
        let meta = match child {
            HostStat::Found(meta) => meta,
            _ => {
                return Err(NfsStatus::Io);
            },
        };
        proof {
            crate::upkeep::lemma_after_intern_inv(refreshed, name@);
            assert(self.fsmap@.known_path(path@)) by {
                assert forall|k: int| 0 <= k < path@.len() implies self.fsmap@.knows(
                    #[trigger] path@[k],
                ) by {
                    if k < path@.len() - 1 {
                        assert(path@[k] == before.entries[dirid].name[k]);
                        assert(refreshed.knows(before.entries[dirid].name[k]));
                    }
                }
            }
        }
        let id = self.fsmap.create_entry(&path, meta);
        if !self.fsmap.contains(dirid) {
            proof {
                assert(self.fsmap@.with_child(dirid, id) == self.fsmap@);
            }
            return Err(NfsStatus::NoEnt);
        }
        self.fsmap.add_child(dirid, id);
        Ok((id, meta.with_fileid(id)))
    }

    /// Brings the map up to date after `name` has been removed on the host
    /// from the directory `dirid`. The entry bound to the name's path goes,
    /// and with it the binding and the mention among the directory's children;
    /// then the directory is refreshed from `dir_seen`.
    pub fn remove_commit(&mut self, dirid: u64, name: &[u8], dir_seen: HostStat) -> (out: Result<
        (),
        NfsStatus,
    >)
        requires
            old(self).fsmap.wf(),
            old(self).fsmap@.can_intern(name@),
        ensures
            final(self).fsmap.wf(),
            final(self).read_only == old(self).read_only,
            out == match old(self).fsmap@.child_target(old(self).read_only, dirid, name@) {
                Ok(_) => Ok::<(), NfsStatus>(()),
                Err(status) => Err(status),
            },
            final(self).fsmap@ == old(self).fsmap@.after_remove_commit(
                old(self).read_only,
                dirid,
                name@,
                dir_seen,
            ),
            old(self).fsmap@.maps_inverse() ==> final(self).fsmap@.maps_inverse(),
            final(self).fsmap@.next_fileid == old(self).fsmap@.next_fileid,
    {
        proof {
            if self.fsmap@.maps_inverse() {
                crate::laws::lemma_remove_commit_keeps_inverse(
                    self.fsmap@,
                    self.read_only,
                    dirid,
                    name@,
                    dir_seen,
                );
            }
        }
        match self.child_of(dirid, name) {
            Err(status) => {
                return Err(status);
            },
            Ok(_) => {},
        }
        let mut path = match self.fsmap.find_entry(dirid) {
            Ok(entry) => entry.name,
            Err(status) => {
                return Err(status);
            },
        };
        let sym = self.fsmap.intern_name(slice_to_vec(name));
        path.push(sym);
        match self.fsmap.path_id(path.as_slice()) {
            Some(id) => {
                assert(id != 0);
                self.fsmap.forget(id, path.as_slice());
                self.fsmap.drop_child(dirid, id);
            },
            None => {},
        }
        let _ = self.fsmap.refresh_entry(dirid, dir_seen);
        Ok(())
    }

    /// The host paths that a rename works on. A read-only server refuses
    /// first; then each directory must be known and have host backing; then
    /// neither mount may be read-only.
    pub fn rename_target(
        &self,
        from_dirid: u64,
        from_name: &[u8],
        to_dirid: u64,
        to_name: &[u8],
    ) -> (out: Result<RenamePaths<'_>, NfsStatus>)
        ensures
            match out {
                Ok(paths) => self.fsmap@.rename_check(
                    self.read_only,
                    from_dirid,
                    from_name@,
                    to_dirid,
                    to_name@,
                ) == Ok::<RenamePathsView, NfsStatus>(paths@),
                Err(status) => self.fsmap@.rename_check(
                    self.read_only,
                    from_dirid,
                    from_name@,
                    to_dirid,
                    to_name@,
                ) == Err::<RenamePathsView, NfsStatus>(status),
            },
    {
        if self.read_only {
            return Err(NfsStatus::RoFs);
        }
        let from_entry = match self.fsmap.find_entry(from_dirid) {
            Ok(entry) => entry,
            Err(status) => {
                return Err(status);
            },
        };
        let (from_dir, from_read_only) = match self.fsmap.sym_to_real_path(
            from_entry.name.as_slice(),
        ) {
            Some(found) => found,
            None => {
                return Err(NfsStatus::Acces);
            },
        };
        let to_entry = match self.fsmap.find_entry(to_dirid) {
            Ok(entry) => entry,
            Err(status) => {
                return Err(status);
            },
        };
        let (to_dir, to_read_only) = match self.fsmap.sym_to_real_path(to_entry.name.as_slice()) {
            Some(found) => found,
            None => {
                return Err(NfsStatus::Acces);
            },
        };
        if from_read_only || to_read_only {
            return Err(NfsStatus::RoFs);
        }
        let to = match self.fsmap.sym_to_real_path(to_entry.name.as_slice()) {
            Some((path, _)) => push_component(path, to_name),
            None => {
                return Err(NfsStatus::Acces);
            },
        };
        Ok(RenamePaths { from: push_component(from_dir, from_name), to_dir, to })
    }

    /// Brings the map up to date after a rename has been done on the host.
    /// An object that the rename replaced goes from the map, with its
    /// descendants. The file id stays with the renamed object: its entry is
    /// renamed, the old path is unbound, the new path is bound to it, and
    /// across directories it moves from one list of children to the other.
    /// Then both directories are refreshed from what a stat of each showed.
    pub fn rename_commit(
        &mut self,
        from_dirid: u64,
        from_name: &[u8],
        to_dirid: u64,
        to_name: &[u8],
        from_seen: HostStat,
        to_seen: HostStat,
    ) -> (out: Result<(), NfsStatus>)
        requires
            old(self).fsmap.wf(),
            old(self).fsmap@.can_intern(from_name@),
            old(self).fsmap@.after_intern(from_name@).can_intern(to_name@),
        ensures
            final(self).fsmap.wf(),
            final(self).read_only == old(self).read_only,
            out == match old(self).fsmap@.rename_check(
                old(self).read_only,
                from_dirid,
                from_name@,
                to_dirid,
                to_name@,
            ) {
                Ok(_) => Ok::<(), NfsStatus>(()),
                Err(status) => Err(status),
            },
            final(self).fsmap@ == old(self).fsmap@.after_rename_commit(
                old(self).read_only,
                from_dirid,
                from_name@,
                to_dirid,
                to_name@,
                from_seen,
                to_seen,
            ),
            old(self).fsmap@.maps_inverse() ==> final(self).fsmap@.maps_inverse(),
            final(self).fsmap@.next_fileid == old(self).fsmap@.next_fileid,
    {
        proof {
            if self.fsmap@.maps_inverse() {
                crate::laws::lemma_rename_commit_keeps_inverse(
                    self.fsmap@,
                    self.read_only,
                    from_dirid,
                    from_name@,
                    to_dirid,
                    to_name@,
                    from_seen,
                    to_seen,
                );
            }
        }
        let ghost before = self.fsmap@;
        match self.rename_target(from_dirid, from_name, to_dirid, to_name) {
            Err(status) => {
                return Err(status);
            },
            Ok(_) => {},
        }
        let mut from = match self.fsmap.find_entry(from_dirid) {
            Ok(entry) => entry.name,
            Err(status) => {
                return Err(status);
            },
        };
        let mut to = match self.fsmap.find_entry(to_dirid) {
            Ok(entry) => entry.name,
            Err(status) => {
                return Err(status);
            },
        };
        assert(before.entry_ok(to_dirid));
        let old_sym = self.fsmap.intern_name(slice_to_vec(from_name));
        let ghost named_once = self.fsmap@;
        let new_sym = self.fsmap.intern_name(slice_to_vec(to_name));
        from.push(old_sym);
        to.push(new_sym);
        proof {
            crate::upkeep::lemma_after_intern_inv(before, from_name@);
            crate::upkeep::lemma_after_intern_inv(named_once, to_name@);
            assert(self.fsmap@.known_path(to@)) by {
                assert forall|k: int| 0 <= k < to@.len() implies self.fsmap@.knows(
                    #[trigger] to@[k],
                ) by {
                    if k < to@.len() - 1 {
                        assert(to@[k] == before.entries[to_dirid].name[k]);
                        assert(before.knows(before.entries[to_dirid].name[k]));
                    }
                }
            }
        }
        let ghost named = self.fsmap@;
        let replaced = match self.fsmap.path_id(from.as_slice()) {
            Some(id) => match self.fsmap.path_id(to.as_slice()) {
                Some(other) => if other != id {
                    Some(other)
                } else {
                    None
                },
                None => None,
            },
            None => None,
        };
        match replaced {
            Some(gone) => {
                assert(gone != 0);
                self.fsmap.delete_entry(gone);
                self.fsmap.drop_child(to_dirid, gone);
            },
            None => {},
        }
        assert(self.fsmap@ == named.without_replaced(from@, to@, to_dirid));
        match self.fsmap.rebind(from.as_slice(), to) {
            Some(id) => {
                if to_dirid != from_dirid {
                    self.fsmap.drop_child(from_dirid, id);
                    self.fsmap.add_child(to_dirid, id);
                }
            },
            None => {},
        }
        let _ = self.fsmap.refresh_entry(from_dirid, from_seen);
        if to_dirid != from_dirid {
            let _ = self.fsmap.refresh_entry(to_dirid, to_seen);
        }
        Ok(())
    }

    /// The host paths that a hard link works on. A read-only server refuses
    /// first; then the file and the directory of the new name must be known
    /// and have host backing; then the directory's mount may not be read-only.
    pub fn link_target(&self, fileid: u64, linkdirid: u64, name: &[u8]) -> (out: Result<
        LinkPaths<'_>,
        NfsStatus,
    >)
        ensures
            match out {
                Ok(paths) => self.fsmap@.link_check(self.read_only, fileid, linkdirid, name@)
                    == Ok::<LinkPathsView, NfsStatus>(paths@),
                Err(status) => self.fsmap@.link_check(self.read_only, fileid, linkdirid, name@)
                    == Err::<LinkPathsView, NfsStatus>(status),
            },
    {
        if self.read_only {
            return Err(NfsStatus::RoFs);
        }
        let file = match self.read_path(fileid, NfsStatus::Acces) {
            Ok(path) => path,
            Err(status) => {
                return Err(status);
            },
        };
        let dir_entry = match self.fsmap.find_entry(linkdirid) {
            Ok(entry) => entry,
            Err(status) => {
                return Err(status);
            },
        };
        match self.fsmap.sym_to_real_path(dir_entry.name.as_slice()) {
            Some((dir, read_only)) => {
                if read_only {
                    Err(NfsStatus::RoFs)
                } else {
                    Ok(LinkPaths { file, link: push_component(dir, name) })
                }
            },
            None => Err(NfsStatus::Acces),
        }
    }

    /// Brings the map up to date after a hard link has been made on the
    /// host. No file id is handed out: the new path is bound to the file's id,
    /// and the directory lists that id.
    pub fn link_commit(&mut self, fileid: u64, linkdirid: u64, name: &[u8]) -> (out: Result<
        (),
        NfsStatus,
    >)
        requires
            old(self).fsmap.wf(),
            old(self).fsmap@.can_intern(name@),
        ensures
            final(self).fsmap.wf(),
            final(self).read_only == old(self).read_only,
            out == match old(self).fsmap@.link_check(
                old(self).read_only,
                fileid,
                linkdirid,
                name@,
            ) {
                Ok(_) => Ok::<(), NfsStatus>(()),
                Err(status) => Err(status),
            },
            final(self).fsmap@ == old(self).fsmap@.after_link_commit(
                old(self).read_only,
                fileid,
                linkdirid,
                name@,
            ),
            final(self).fsmap@.next_fileid == old(self).fsmap@.next_fileid,
    {
        let ghost before = self.fsmap@;
        match self.link_target(fileid, linkdirid, name) {
            Err(status) => {
                return Err(status);
            },
            Ok(_) => {},
        }
        let mut path = match self.fsmap.find_entry(linkdirid) {
            Ok(entry) => entry.name,
            Err(status) => {
                return Err(status);
            },
        };
        proof {
            assert(before.entry_ok(0));
            assert(before.entry_ok(fileid));
        }
        let sym = self.fsmap.intern_name(slice_to_vec(name));
        path.push(sym);
        self.fsmap.alias(path, fileid);
        self.fsmap.add_child(linkdirid, fileid);
        Ok(())
    }

    /// The host path at which the attributes of entry `id` are set. An entry
    /// without host backing has none, which is reported as an I/O error.
    pub fn setattr_target(&self, id: u64) -> (out: Result<RealPath<'_>, NfsStatus>)
        ensures
            match out {
                Ok(path) => self.fsmap@.read_target(id, NfsStatus::Io) == Ok::<
                    HostPathView,
                    NfsStatus,
                >(path@),
                Err(status) => self.fsmap@.read_target(id, NfsStatus::Io) == Err::<
                    HostPathView,
                    NfsStatus,
                >(status),
            },
    {
        self.read_path(id, NfsStatus::Io)
    }

    /// Records the attributes of entry `id` as a stat showed them after they
    /// were set, and returns them stamped with the id.
    pub fn setattr_commit(&mut self, id: u64, meta: FileAttr) -> (out: FileAttr)
        requires
            old(self).fsmap.wf(),
        ensures
            final(self).fsmap.wf(),
            final(self).read_only == old(self).read_only,
            out == meta.with_fileid_spec(id),
            final(self).fsmap@ == if old(self).fsmap@.entries.contains_key(id) {
                old(self).fsmap@.with_fsmeta(id, out)
            } else {
                old(self).fsmap@
            },
            old(self).fsmap@.maps_inverse() ==> final(self).fsmap@.maps_inverse(),
    {
        self.fsmap.update_attr(id, meta)
    }

    /// The first step of a lookup of `name` in the directory `dirid`: the
    /// cache is asked, and only on a miss in a directory with host backing is
    /// the host to be asked.
    pub fn lookup_cached(&self, dirid: u64, name: &[u8]) -> (out: LookupStep<'_>)
        requires
            self.fsmap.wf(),
        ensures
            out@ == self.fsmap@.lookup_step(dirid, name@),
    {
        match self.fsmap.find_child(dirid, name) {
            Ok(id) => {
                if self.fsmap.contains(id) {
                    return LookupStep::Done(Ok(id));
                }
            },
            Err(_) => {},
        }
        match self.read_path(dirid, NfsStatus::NoEnt) {
            Ok(dir) => LookupStep::Probe(push_component(dir, name)),
            Err(status) => LookupStep::Done(Err(status)),
        }
    }

    /// The second step of a lookup. `present` says whether the host has the
    /// name; if it has not, the lookup ends with `NoEnt` and nothing changes.
    /// Otherwise the directory is refreshed from `dir_seen`, and a directory
    /// that the refresh deleted ends the lookup with `NoEnt`.
    pub fn lookup_refresh(&mut self, dirid: u64, present: bool, dir_seen: HostStat) -> (out: Result<
        (),
        NfsStatus,
    >)
        requires
            old(self).fsmap.wf(),
        ensures
            final(self).fsmap.wf(),
            final(self).read_only == old(self).read_only,
            out == old(self).fsmap@.lookup_refresh_result(dirid, present, dir_seen),
            final(self).fsmap@ == old(self).fsmap@.after_lookup_refresh(dirid, present, dir_seen),
            old(self).fsmap@.maps_inverse() ==> final(self).fsmap@.maps_inverse(),
    {
        if !present {
            return Err(NfsStatus::NoEnt);
        }
        match self.fsmap.refresh_entry(dirid, dir_seen) {
            Err(status) => Err(status),
            Ok(RefreshResult::Delete) => Err(NfsStatus::NoEnt),
            Ok(_) => Ok(()),
        }
    }

    /// What has to be scanned on the host before the children of `id` are
    /// listed.
    pub fn list_target(&self, id: u64) -> (out: ListTarget<'_>)
        requires
            self.fsmap.wf(),
        ensures
            out@ == self.fsmap@.list_target(id),
    {
        let entry = match self.fsmap.find_entry(id) {
            Ok(entry) => entry,
            Err(_) => {
                return ListTarget::Nothing;
            },
        };
        let stale = entry.children.is_none() || crate::attr::attr_differ(
            &entry.children_meta,
            &entry.fsmeta,
        );
        if !stale || !entry.fsmeta.is_dir() {
            return ListTarget::Nothing;
        }
        if entry.name.len() == 0 {
            return ListTarget::Mounts;
        }
        match self.fsmap.sym_to_real_path(entry.name.as_slice()) {
            Some((path, _)) => ListTarget::Dir(path),
            None => ListTarget::Nothing,
        }
    }

    /// The last step of a lookup: the children of the directory are listed
    /// from the scan, whatever comes of it, and the cache is asked again.
    pub fn lookup_finish(&mut self, dirid: u64, name: &[u8], scan: &DirScan) -> (out: Result<
        u64,
        NfsStatus,
    >)
        requires
            old(self).fsmap.wf(),
            old(self).fsmap@.names.len() + scan.entries.len() + old(self).fsmap@.mounts.len()
                <= u32::MAX,
            old(self).fsmap@.next_fileid + scan.entries.len() + old(self).fsmap@.mounts.len()
                <= u64::MAX,
        ensures
            final(self).fsmap.wf(),
            final(self).read_only == old(self).read_only,
            final(self).fsmap@ == old(self).fsmap@.after_dir_list(dirid, scan@),
            old(self).fsmap@.maps_inverse() ==> final(self).fsmap@.maps_inverse(),
            out == final(self).fsmap@.child_result(dirid, name@),
    {
        let _ = self.fsmap.refresh_dir_list(dirid, scan);
        self.fsmap.find_child(dirid, name)
    }

    /// Refreshes a directory before it is read. Only an error of the refresh
    /// ends the read; a directory that the refresh deleted is found missing by
    /// the next step.
    pub fn readdir_refresh(&mut self, dirid: u64, seen: HostStat) -> (out: Result<(), NfsStatus>)
        requires
            old(self).fsmap.wf(),
        ensures
            final(self).fsmap.wf(),
            final(self).read_only == old(self).read_only,
            out == old(self).fsmap@.readdir_refresh_result(dirid, seen),
            final(self).fsmap@ == old(self).fsmap@.after_refresh(dirid, seen),
            old(self).fsmap@.maps_inverse() ==> final(self).fsmap@.maps_inverse(),
    {
        match self.fsmap.refresh_entry(dirid, seen) {
            Err(status) => Err(status),
            Ok(_) => Ok(()),
        }
    }

    /// One page of the directory `dirid` from the cache: the children in the
    /// order of their ids, from behind the cursor `start_after`, at most
    /// `max_entries` of them but at least one where any remains.
    pub fn read_page(&self, dirid: u64, start_after: u64, max_entries: usize) -> (out: Result<
        ReadDirResult,
        NfsStatus,
    >)
        requires
            self.fsmap.wf(),
        ensures
            page_view(out) == self.fsmap@.page(dirid, start_after, max_entries),
    {
        let ghost model = self.fsmap@;
        let entry = match self.fsmap.find_entry(dirid) {
            Ok(entry) => entry,
            Err(status) => {
                return Err(status);
            },
        };
        if !entry.fsmeta.is_dir() {
            return Err(NfsStatus::NotDir);
        }
        let items = match &entry.children {
            Some(children) => set_items(children),
            None => {
                return Err(NfsStatus::Io);
            },
        };
        let ghost children = model.entries[dirid].children->Some_0;
        let mut first: usize = 0;
        if start_after > 0 {
            while first < items.len() && items[first] <= start_after
                invariant
                    first <= items.len(),
                    forall|j: int| 0 <= j < first ==> items@[j] <= start_after,
                decreases items.len() - first,
            {
                first = first + 1;
            }
        }
        let ghost rest = items@.skip(first as int);
        proof {
            assert(increasing(rest)) by {
                assert forall|a: int, b: int| 0 <= a < b < rest.len() implies rest[a]
                    < rest[b] by {
                    assert(items@[first + a] < items@[first + b]);
                }
            }
            assert(rest.to_set() =~= after_cursor(children, start_after)) by {
                assert forall|x: u64| rest.to_set().contains(x) implies after_cursor(
                    children,
                    start_after,
                ).contains(x) by {
                    let j = choose|j: int| 0 <= j < rest.len() && rest[j] == x;
                    assert(items@[first + j] == x);
                    assert(items@.to_set().contains(x));
                    if start_after > 0 && j > 0 {
                        assert(items@[first as int] < items@[first + j]);
                    }
                }
                assert forall|x: u64|
                    after_cursor(children, start_after).contains(x) implies rest.to_set().contains(
                    x,
                ) by {
                    assert(items@.to_set().contains(x));
                    let j = choose|j: int| 0 <= j < items@.len() && items@[j] == x;
                    assert(j >= first);
                    assert(rest[j - first] == x);
                }
            }
            let chosen = sorted(after_cursor(children, start_after));
            lemma_sorted_unique(rest, chosen);
        }
        let remaining = items.len() - first;
        let mut entries: Vec<DirEntry> = Vec::new();
        let mut i: usize = first;
        while i < items.len() && (i == first || i - first < max_entries)
            invariant
                first <= i <= items.len(),
                self.fsmap.wf(),
                model == self.fsmap@,
                rest == items@.skip(first as int),
                model.entries.contains_key(dirid),
                model.entries[dirid].fsmeta.ftype == FileType::Directory,
                model.entries[dirid].children == Some(children),
                rest == sorted(after_cursor(children, start_after)),
                entries@.len() == i - first,
                i - first <= page_len(rest.len(), max_entries),
                forall|j: int| 0 <= j < i - first ==> model.entries.contains_key(#[trigger] rest[j]),
                forall|j: int|
                    0 <= j < i - first ==> (#[trigger] entries@[j])@ == model.dir_entry(rest[j]),
            decreases items.len() - i,
        {
            let fileid = items[i];
            assert(rest[i - first] == fileid);
            assert(i - first < page_len(rest.len(), max_entries));
            let child = match self.fsmap.find_entry(fileid) {
                Ok(child) => child,
                Err(status) => {
                    assert(!model.entries.contains_key(rest[i - first]));
                    return Err(status);
                },
            };
            assert(model.entry_ok(fileid));
            let name = self.fsmap.sym_to_fname(child.name.as_slice());
            entries.push(DirEntry { fileid, name, attr: child.fsmeta });
            i = i + 1;
        }
        let out = ReadDirResult { end: entries.len() == remaining, entries };
        proof {
            let n = page_len(rest.len(), max_entries);
            assert(i - first == n);
            assert(out@.entries =~= Seq::new(n, |k: int| model.dir_entry(rest[k])));
        }
        Ok(out)
    }

    /// Reads one page of the directory `dirid`, after its children have been
    /// listed from the scan where the cached list was stale.
    pub fn readdir(
        &mut self,
        dirid: u64,
        start_after: u64,
        max_entries: usize,
        scan: &DirScan,
    ) -> (res: Result<ReadDirResult, NfsStatus>)
        requires
            old(self).fsmap.wf(),
            old(self).fsmap@.names.len() + scan.entries.len() + old(self).fsmap@.mounts.len()
                <= u32::MAX,
            old(self).fsmap@.next_fileid + scan.entries.len() + old(self).fsmap@.mounts.len()
                <= u64::MAX,
        ensures
            final(self).fsmap.wf(),
            final(self).read_only == old(self).read_only,
            final(self).fsmap@ == old(self).fsmap@.after_dir_list(dirid, scan@),
            old(self).fsmap@.maps_inverse() ==> final(self).fsmap@.maps_inverse(),
            page_view(res) == match old(self).fsmap@.dir_list_result(dirid, scan@) {
                Err(status) => Err::<ReadDirView, NfsStatus>(status),
                Ok(_) => final(self).fsmap@.page(dirid, start_after, max_entries),
            },
    {
        match self.fsmap.refresh_dir_list(dirid, scan) {
            Err(status) => {
                return Err(status);
            },
            Ok(()) => {},
        }
        self.read_page(dirid, start_after, max_entries)
    }

    /// The host path that is removed for `name` in the directory `dirid`,
    /// under the same conditions as a creation.
    pub fn remove_target(&self, dirid: u64, name: &[u8]) -> (out: Result<RealPath<'_>, NfsStatus>)
        ensures
            match out {
                Ok(path) => self.fsmap@.child_target(self.read_only, dirid, name@) == Ok::<
                    HostPathView,
                    NfsStatus,
                >(path@),
                Err(status) => self.fsmap@.child_target(self.read_only, dirid, name@) == Err::<
                    HostPathView,
                    NfsStatus,
                >(status),
            },
    {
        self.child_of(dirid, name)
    }
}

} // verus!
