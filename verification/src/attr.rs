//! NFSv3 attributes, status codes and the invalidation predicate.

use vstd::prelude::*;

verus! {

/// The NFSv3 status codes that this layer reports.
#[derive(Clone, Copy, Debug, PartialEq, Eq, Structural)]
pub enum NfsStatus {
    /// No such file or directory.
    NoEnt,
    /// A host operation failed in a way that has no closer status.
    Io,
    /// Permission denied, also reported for a parent that is no real directory.
    Acces,
    /// The name already exists.
    Exist,
    /// A directory operation on something that is no directory.
    NotDir,
    /// A file operation on a node without host backing.
    IsDir,
    /// A modifying operation on a read-only export.
    RoFs,
    /// The object has the wrong type for the operation.
    BadType,
}

/// The NFSv3 file types.
#[derive(Clone, Copy, Debug, PartialEq, Eq, Structural)]
pub enum FileType {
    Regular,
    Directory,
    BlockDevice,
    CharDevice,
    Symlink,
    Socket,
    Fifo,
}

/// A point in time as NFSv3 carries it.
#[derive(Clone, Copy, Debug, PartialEq, Eq, Structural)]
pub struct FileTime {
    pub seconds: u32,
    pub nseconds: u32,
}

/// Host metadata projected to the NFSv3 attribute set.
#[derive(Clone, Copy, Debug, PartialEq, Eq, Structural)]
pub struct FileAttr {
    pub ftype: FileType,
    pub mode: u32,
    pub nlink: u32,
    pub uid: u32,
    pub gid: u32,
    pub size: u64,
    pub used: u64,
    pub rdev_major: u32,
    pub rdev_minor: u32,
    pub fsid: u64,
    pub fileid: u64,
    pub atime: FileTime,
    pub mtime: FileTime,
    pub ctime: FileTime,
}

/// Two attribute tuples differ when the type, the size, the modify or change
/// time, the mode, the owner, the group or the link count differs.
pub open spec fn attr_differ_spec(lhs: FileAttr, rhs: FileAttr) -> bool {
    ||| lhs.ftype != rhs.ftype
    ||| lhs.size != rhs.size
    ||| lhs.mtime != rhs.mtime
    ||| lhs.ctime != rhs.ctime
    ||| lhs.mode != rhs.mode
    ||| lhs.uid != rhs.uid
    ||| lhs.gid != rhs.gid
    ||| lhs.nlink != rhs.nlink
}

impl FileAttr {
    /// The same attributes, reported for file id `id`.
    pub open spec fn with_fileid_spec(self, id: u64) -> FileAttr {
        FileAttr { fileid: id, ..self }
    }

    /// Stamps the attributes with the file id they are reported for.
    pub fn with_fileid(self, id: u64) -> (out: FileAttr)
        ensures
            out == self.with_fileid_spec(id),
    {
        FileAttr { fileid: id, ..self }
    }

    /// Whether the attributes describe a directory.
    pub fn is_dir(&self) -> (out: bool)
        ensures
            out == (self.ftype == FileType::Directory),
    {
        self.ftype == FileType::Directory
    }
}

/// The invalidation predicate: whether cached state derived from `rhs` is stale
/// once `lhs` has been observed.
pub fn attr_differ(lhs: &FileAttr, rhs: &FileAttr) -> (out: bool)
    ensures
        out == attr_differ_spec(*lhs, *rhs),
{
    lhs.ftype != rhs.ftype || lhs.size != rhs.size || lhs.mtime != rhs.mtime || lhs.ctime
        != rhs.ctime || lhs.mode != rhs.mode || lhs.uid != rhs.uid || lhs.gid != rhs.gid
        || lhs.nlink != rhs.nlink
}

} // verus!
