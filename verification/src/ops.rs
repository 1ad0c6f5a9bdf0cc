//! What the NFS operations do to the identifier map, stated over its model.

use crate::attr::FileAttr;
use crate::attr::FileType;
use crate::attr::NfsStatus;
use crate::fsmap::increasing;
use crate::mirrorfs::child_path;
use crate::model::FsModel;
use crate::model::HostPathView;
use crate::model::HostStat;
use crate::model::RefreshResult;
use vstd::prelude::*;

verus! {

/// The host paths that a rename works on.
pub struct RenamePathsView {
    /// The path that is renamed.
    pub from: HostPathView,
    /// The directory that receives it.
    pub to_dir: HostPathView,
    /// The path that it is renamed to.
    pub to: HostPathView,
}

/// The host paths that a hard link works on.
pub struct LinkPathsView {
    /// The file that gets one more name.
    pub file: HostPathView,
    /// The path of the new name.
    pub link: HostPathView,
}

/// What a lookup does after it has asked the cache.
pub enum LookupStepView {
    /// The lookup is answered.
    Done(Result<u64, NfsStatus>),
    /// The host has to be asked whether this path exists.
    Probe(HostPathView),
}

/// What has to be scanned on the host before the children of an entry are
/// listed.
pub enum ListTargetView {
    /// Nothing: the cached list is used, or none is made.
    Nothing,
    /// The sources of the mounts.
    Mounts,
    /// The host directory at this path.
    Dir(HostPathView),
}

/// One entry of a directory as a read of the directory reports it.
pub struct DirEntryView {
    pub fileid: u64,
    /// The raw name: the last component of the entry's path.
    pub name: Seq<u8>,
    /// The attributes as of the entry's last refresh.
    pub attr: FileAttr,
}

/// One page of a directory.
pub struct ReadDirView {
    pub entries: Seq<DirEntryView>,
    /// Whether the page reaches the end of the directory.
    pub end: bool,
}

/// The children behind the cursor: all of them for the cursor 0, else those
/// with an id above the cursor.
pub open spec fn after_cursor(children: Set<u64>, start_after: u64) -> Set<u64> {
    children.filter(|x: u64| start_after == 0 || x > start_after)
}

/// The members of a finite set of ids in increasing order.
pub open spec fn sorted(s: Set<u64>) -> Seq<u64> {
    choose|q: Seq<u64>| increasing(q) && q.to_set() == s
}

/// The number of entries on a page: all that remain, but no more than
/// `max_entries`, and one where `max_entries` is 0 and something remains.
pub open spec fn page_len(remaining: nat, max_entries: usize) -> nat {
    if remaining == 0 {
        0
    } else if max_entries == 0 {
        1
    } else if remaining <= max_entries {
        remaining
    } else {
        max_entries as nat
    }
}

/// An increasing sequence holds nothing twice.
pub proof fn lemma_increasing_distinct(a: Seq<u64>)
    requires
        increasing(a),
    ensures
        a.no_duplicates(),
{
    assert forall|i: int, j: int| 0 <= i < a.len() && 0 <= j < a.len() && i != j implies a[i]
        != a[j] by {
        if i < j {
            assert(a[i] < a[j]);
        } else {
            assert(a[j] < a[i]);
        }
    }
}

/// Two increasing sequences with the same members are the same sequence.
pub proof fn lemma_sorted_unique(a: Seq<u64>, b: Seq<u64>)
    requires
        increasing(a),
        increasing(b),
        a.to_set() == b.to_set(),
    ensures
        a == b,
    decreases a.len(),
{
    lemma_increasing_distinct(a);
    lemma_increasing_distinct(b);
    a.unique_seq_to_set();
    b.unique_seq_to_set();
    if a.len() > 0 {
        let x = a.last();
        let y = b.last();
        assert(a.to_set().contains(x));
        assert(b.to_set().contains(x));
        assert(b.to_set().contains(y));
        assert(a.to_set().contains(y));
        let i = choose|i: int| 0 <= i < b.len() && b[i] == x;
        let j = choose|j: int| 0 <= j < a.len() && a[j] == y;
        assert(x == y) by {
            if i < b.len() - 1 {
                assert(b[i] < b[b.len() - 1]);
            }
            if j < a.len() - 1 {
                assert(a[j] < a[a.len() - 1]);
            }
        }
        let a0 = a.drop_last();
        let b0 = b.drop_last();
        assert(a0.to_set() =~= b0.to_set()) by {
            assert forall|v: u64| a0.to_set().contains(v) implies b0.to_set().contains(v) by {
                let k = choose|k: int| 0 <= k < a0.len() && a0[k] == v;
                assert(a[k] == v);
                assert(a[k] < a[a.len() - 1]);
                assert(a.to_set().contains(v));
                assert(b.to_set().contains(v));
                let l = choose|l: int| 0 <= l < b.len() && b[l] == v;
                assert(b0[l] == v);
            }
            assert forall|v: u64| b0.to_set().contains(v) implies a0.to_set().contains(v) by {
                let k = choose|k: int| 0 <= k < b0.len() && b0[k] == v;
                assert(b[k] == v);
                assert(b[k] < b[b.len() - 1]);
                assert(b.to_set().contains(v));
                assert(a.to_set().contains(v));
                let l = choose|l: int| 0 <= l < a.len() && a[l] == v;
                assert(a0[l] == v);
            }
        }
        lemma_sorted_unique(a0, b0);
        assert(a =~= a0.push(x));
        assert(b =~= b0.push(y));
    } else {
        assert(a =~= b);
    }
}

impl FsModel {
    /// The raw name of entry `id`: the last component of its path, and the
    /// empty string for the root.
    pub open spec fn fname(self, id: u64) -> Seq<u8> {
        let name = self.entries[id].name;
        if name.len() == 0 {
            Seq::empty()
        } else {
            self.names[name.last() as int]
        }
    }

    /// Entry `id` as a read of its directory reports it.
    pub open spec fn dir_entry(self, id: u64) -> DirEntryView {
        DirEntryView { fileid: id, name: self.fname(id), attr: self.entries[id].fsmeta }
    }

    /// One page of the directory `dirid` from the cache: its children in the
    /// order of their ids, from behind the cursor `start_after`. A child on
    /// the page that has no entry makes the read fail with `NoEnt`.
    pub open spec fn page(self, dirid: u64, start_after: u64, max_entries: usize) -> Result<
        ReadDirView,
        NfsStatus,
    > {
        if !self.entries.contains_key(dirid) {
            Err(NfsStatus::NoEnt)
        } else if self.entries[dirid].fsmeta.ftype != FileType::Directory {
            Err(NfsStatus::NotDir)
        } else if self.entries[dirid].children is None {
            Err(NfsStatus::Io)
        } else {
            let rest = sorted(after_cursor(self.entries[dirid].children->Some_0, start_after));
            let n = page_len(rest.len(), max_entries);
            if exists|k: int| 0 <= k < n && !self.entries.contains_key(#[trigger] rest[k]) {
                Err(NfsStatus::NoEnt)
            } else {
                Ok(
                    ReadDirView {
                        entries: Seq::new(n, |k: int| self.dir_entry(rest[k])),
                        end: n == rest.len(),
                    },
                )
            }
        }
    }

    /// The state after an object named `name` has been created on the host
    /// in the directory `dirid`. The directory is refreshed, the name is
    /// interned, the object gets its entry, and the directory lists it.
    pub open spec fn after_create_commit(
        self,
        read_only: bool,
        dirid: u64,
        name: Seq<u8>,
        dir_seen: HostStat,
        child: HostStat,
    ) -> FsModel {
        if self.child_target(read_only, dirid, name) is Err {
            self
        } else {
            let path = self.entries[dirid].name.push(self.symbol_of(name));
            let named = self.after_refresh(dirid, dir_seen).after_intern(name);
            match child {
                HostStat::Found(meta) => named.after_create(path, meta).with_child(
                    dirid,
                    named.entry_id(path),
                ),
                _ => named,
            }
        }
    }

    /// The outcome of a creation: the id and the attributes of the new
    /// object.
    pub open spec fn create_commit_result(
        self,
        read_only: bool,
        dirid: u64,
        name: Seq<u8>,
        dir_seen: HostStat,
        child: HostStat,
    ) -> Result<(u64, FileAttr), NfsStatus> {
        match self.child_target(read_only, dirid, name) {
            Err(status) => Err(status),
            Ok(_) => {
                let path = self.entries[dirid].name.push(self.symbol_of(name));
                let named = self.after_refresh(dirid, dir_seen).after_intern(name);
                match child {
                    HostStat::Found(meta) => if named.entries.contains_key(dirid) {
                        Ok((named.entry_id(path), meta.with_fileid_spec(named.entry_id(path))))
                    } else {
                        Err(NfsStatus::NoEnt)
                    },
                    _ => Err(NfsStatus::Io),
                }
            },
        }
    }

    /// The state after `name` has been removed on the host from the
    /// directory `dirid`: the entry bound to its path goes, alone, with the
    /// binding, the directory no longer lists it and is refreshed.
    pub open spec fn after_remove_commit(
        self,
        read_only: bool,
        dirid: u64,
        name: Seq<u8>,
        dir_seen: HostStat,
    ) -> FsModel {
        if self.child_target(read_only, dirid, name) is Err {
            self
        } else {
            let path = self.entries[dirid].name.push(self.symbol_of(name));
            let named = self.after_intern(name);
            let dropped = if named.paths.contains_key(path) {
                named.forget(named.paths[path], path).without_child(dirid, named.paths[path])
            } else {
                named
            };
            dropped.after_refresh(dirid, dir_seen)
        }
    }

    /// The check of a rename: the server-wide flag, then the source
    /// directory, then the destination directory, then the mounts' flags.
    pub open spec fn rename_check(
        self,
        read_only: bool,
        from_dirid: u64,
        from_name: Seq<u8>,
        to_dirid: u64,
        to_name: Seq<u8>,
    ) -> Result<RenamePathsView, NfsStatus> {
        if read_only {
            Err(NfsStatus::RoFs)
        } else {
            match self.read_target(from_dirid, NfsStatus::Acces) {
                Err(status) => Err(status),
                Ok(from_dir) => match self.read_target(to_dirid, NfsStatus::Acces) {
                    Err(status) => Err(status),
                    Ok(to_dir) => if self.entry_path(from_dirid)->Some_0.1 || self.entry_path(
                        to_dirid,
                    )->Some_0.1 {
                        Err(NfsStatus::RoFs)
                    } else {
                        Ok(
                            RenamePathsView {
                                from: child_path(from_dir, from_name),
                                to_dir,
                                to: child_path(to_dir, to_name),
                            },
                        )
                    },
                },
            }
        }
    }

    /// The state with what stands in the way of a rename cleared. Where the
    /// old path is bound and the new path is bound to another id, the object
    /// under the new path is replaced on the host: its id goes, with its
    /// descendants, and the receiving directory no longer lists it.
    pub open spec fn without_replaced(self, from: Seq<u32>, to: Seq<u32>, to_dirid: u64) -> FsModel {
        if self.paths.contains_key(from) && self.paths.contains_key(to) && self.paths[to]
            != self.paths[from] {
            self.after_delete(self.paths[to]).without_child(to_dirid, self.paths[to])
        } else {
            self
        }
    }

    /// The state with the binding of `from` moved to `to`, if `from` is
    /// bound. The id stays; across directories it moves from one list of
    /// children to the other.
    pub open spec fn after_move(
        self,
        from: Seq<u32>,
        to: Seq<u32>,
        from_dirid: u64,
        to_dirid: u64,
    ) -> FsModel {
        if self.paths.contains_key(from) {
            if to_dirid != from_dirid {
                self.rebound(from, to).without_child(from_dirid, self.paths[from]).with_child(
                    to_dirid,
                    self.paths[from],
                )
            } else {
                self.rebound(from, to)
            }
        } else {
            self
        }
    }

    /// The state after a rename has been done on the host. Both names are
    /// interned. An object that the rename replaced goes from the map. The
    /// file id of the renamed object stays: its entry is renamed, the old path
    /// is unbound and the new one bound to it, and across directories the id
    /// moves from one list of children to the other. Then both directories
    /// are refreshed.
    pub open spec fn after_rename_commit(
        self,
        read_only: bool,
        from_dirid: u64,
        from_name: Seq<u8>,
        to_dirid: u64,
        to_name: Seq<u8>,
        from_seen: HostStat,
        to_seen: HostStat,
    ) -> FsModel {
        if self.rename_check(read_only, from_dirid, from_name, to_dirid, to_name) is Err {
            self
        } else {
            let from = self.entries[from_dirid].name.push(self.symbol_of(from_name));
            let to = self.entries[to_dirid].name.push(
                self.after_intern(from_name).symbol_of(to_name),
            );
            let named = self.after_intern(from_name).after_intern(to_name);
            let moved = named.without_replaced(from, to, to_dirid).after_move(
                from,
                to,
                from_dirid,
                to_dirid,
            );
            let first = moved.after_refresh(from_dirid, from_seen);
            if to_dirid != from_dirid {
                first.after_refresh(to_dirid, to_seen)
            } else {
                first
            }
        }
    }

    /// The check of a hard link: the server-wide flag, then the file, then
    /// the directory of the new name, then the flag of that directory's mount.
    pub open spec fn link_check(
        self,
        read_only: bool,
        fileid: u64,
        linkdirid: u64,
        name: Seq<u8>,
    ) -> Result<LinkPathsView, NfsStatus> {
        if read_only {
            Err(NfsStatus::RoFs)
        } else {
            match self.read_target(fileid, NfsStatus::Acces) {
                Err(status) => Err(status),
                Ok(file) => match self.read_target(linkdirid, NfsStatus::Acces) {
                    Err(status) => Err(status),
                    Ok(dir) => if self.entry_path(linkdirid)->Some_0.1 {
                        Err(NfsStatus::RoFs)
                    } else {
                        Ok(LinkPathsView { file, link: child_path(dir, name) })
                    },
                },
            }
        }
    }

    /// The state after a hard link has been made on the host: the new path
    /// is bound to the file's id, and the directory lists the id.
    pub open spec fn after_link_commit(
        self,
        read_only: bool,
        fileid: u64,
        linkdirid: u64,
        name: Seq<u8>,
    ) -> FsModel {
        if self.link_check(read_only, fileid, linkdirid, name) is Err {
            self
        } else {
            let path = self.entries[linkdirid].name.push(self.symbol_of(name));
            self.after_intern(name).aliased(path, fileid).with_child(linkdirid, fileid)
        }
    }

    /// The child that the cache holds under `dirid` for `name`, if its entry
    /// is still there.
    pub open spec fn cached_child(self, dirid: u64, name: Seq<u8>) -> Option<u64> {
        match self.child(dirid, name) {
            Some(id) => if self.entries.contains_key(id) {
                Some(id)
            } else {
                None
            },
            None => None,
        }
    }

    /// The first step of a lookup: a hit in the cache answers it; on a miss
    /// a directory that is unknown or has no host backing answers `NoEnt`, and
    /// otherwise the host is asked for the name.
    pub open spec fn lookup_step(self, dirid: u64, name: Seq<u8>) -> LookupStepView {
        match self.cached_child(dirid, name) {
            Some(id) => LookupStepView::Done(Ok(id)),
            None => match self.read_target(dirid, NfsStatus::NoEnt) {
                Err(status) => LookupStepView::Done(Err(status)),
                Ok(dir) => LookupStepView::Probe(child_path(dir, name)),
            },
        }
    }

    /// The outcome of the second step of a lookup: a name that the host does
    /// not have is missing; otherwise the directory is refreshed.
    pub open spec fn lookup_refresh_result(
        self,
        dirid: u64,
        present: bool,
        dir_seen: HostStat,
    ) -> Result<(), NfsStatus> {
        if !present {
            Err(NfsStatus::NoEnt)
        } else {
            match self.refresh_result(dirid, dir_seen) {
                Err(status) => Err(status),
                Ok(RefreshResult::Delete) => Err(NfsStatus::NoEnt),
                Ok(_) => Ok(()),
            }
        }
    }

    /// The state after the second step of a lookup.
    pub open spec fn after_lookup_refresh(
        self,
        dirid: u64,
        present: bool,
        dir_seen: HostStat,
    ) -> FsModel {
        if present {
            self.after_refresh(dirid, dir_seen)
        } else {
            self
        }
    }

    /// The answer of a lookup from the cache alone.
    pub open spec fn child_result(self, dirid: u64, name: Seq<u8>) -> Result<u64, NfsStatus> {
        match self.child(dirid, name) {
            Some(id) => Ok(id),
            None => Err(NfsStatus::NoEnt),
        }
    }

    /// What has to be scanned before the children of `id` are listed.
    pub open spec fn list_target(self, id: u64) -> ListTargetView {
        if !self.takes_listing(id) {
            ListTargetView::Nothing
        } else if self.entries[id].name.len() == 0 {
            ListTargetView::Mounts
        } else {
            ListTargetView::Dir(self.resolve(self.entries[id].name)->Some_0.0)
        }
    }

    /// The outcome of refreshing a directory before it is read: only an
    /// error of the refresh ends the read.
    pub open spec fn readdir_refresh_result(self, dirid: u64, seen: HostStat) -> Result<
        (),
        NfsStatus,
    > {
        match self.refresh_result(dirid, seen) {
            Err(status) => Err(status),
            Ok(_) => Ok(()),
        }
    }
}

} // verus!
