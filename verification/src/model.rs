//! The mathematical model of the identifier map.
//!
//! Everything the executable map promises is stated over [`FsModel`]: the
//! entries by file id, the bound paths, the interned names and the mount
//! table, all as plain mathematical values.

use crate::attr::attr_differ_spec;
use crate::attr::FileAttr;
use crate::attr::FileType;
use crate::attr::NfsStatus;
use std::path::PathBuf;
use vstd::prelude::*;

verus! {

/// `std::path::PathBuf`: a host path, carried through without being looked
/// into.
#[verifier::external_type_specification]
#[verifier::external_body]
pub struct ExPathBuf(PathBuf);

/// `PathBuf::clone`: the copy is the same path.
pub assume_specification[ <PathBuf as Clone>::clone ](path: &PathBuf) -> (out: PathBuf)
    ensures
        out == *path,
;

/// What happened to an entry when it was reconciled with the host.
#[derive(Clone, Copy, Debug, PartialEq, Eq, Structural)]
pub enum RefreshResult {
    /// The file id was deleted.
    Delete,
    /// The attributes changed in place; caches built on them are stale.
    Reload,
    /// Nothing has changed.
    Noop,
}

/// What a no-traverse stat of a host path showed.
#[derive(Clone, Copy, Debug, PartialEq, Eq, Structural)]
pub enum HostStat {
    /// Nothing exists at the path.
    Absent,
    /// Something exists at the path but reading its metadata failed.
    Failed,
    /// The metadata found at the path.
    Found(FileAttr),
}

/// An entry of the identifier map.
#[verifier::ext_equal]
pub struct EntryView {
    /// The symbolic path of the entry.
    pub name: Seq<u32>,
    /// The attributes as of the last refresh.
    pub fsmeta: FileAttr,
    /// The attributes that were in effect when `children` was last filled.
    pub children_meta: FileAttr,
    /// The ids of the children, once the directory has been listed.
    pub children: Option<Set<u64>>,
}

/// A configured export.
pub struct MountView {
    /// The single namespace segment under the root: the target without its
    /// leading slashes.
    pub name: Seq<u8>,
    /// The host directory that is grafted there.
    pub source: PathBuf,
    /// Whether the export refuses modification.
    pub read_only: bool,
}

/// A host path: a mount's source directory and the components below it.
pub struct HostPathView {
    pub source: PathBuf,
    pub tail: Seq<Seq<u8>>,
}

/// A name found in a host directory, with its metadata.
pub struct ListedView {
    pub name: Seq<u8>,
    pub attr: FileAttr,
}

/// What was found when a directory was scanned on the host.
pub struct ScanView {
    /// For each mount, in the order of the mount table: the metadata of its
    /// source, or nothing where the source does not exist.
    pub mounts: Seq<Option<FileAttr>>,
    /// The names found in a host directory, in the order in which they were
    /// read.
    pub entries: Seq<ListedView>,
    /// Whether the directory was read to its end.
    pub complete: bool,
}

/// The state of the identifier map.
#[verifier::ext_equal]
pub struct FsModel {
    pub mounts: Seq<MountView>,
    /// The id that the next new entry gets.
    pub next_fileid: u64,
    /// The interned path components; symbol `i` stands for `names[i]`.
    pub names: Seq<Seq<u8>>,
    pub entries: Map<u64, EntryView>,
    pub paths: Map<Seq<u32>, u64>,
}

/// Whether a scan saw the source of mount `k`.
pub open spec fn source_seen(seen: Seq<Option<FileAttr>>, k: int) -> bool {
    0 <= k < seen.len() && seen[k] is Some
}

/// The byte string without its leading slashes.
pub open spec fn trim_slashes(s: Seq<u8>) -> Seq<u8>
    decreases s.len(),
{
    if s.len() > 0 && s[0] == 47u8 {
        trim_slashes(s.skip(1))
    } else {
        s
    }
}

/// `i` is the first mount whose name is `name`.
pub open spec fn first_mount(mounts: Seq<MountView>, name: Seq<u8>, i: int) -> bool {
    &&& 0 <= i < mounts.len()
    &&& mounts[i].name == name
    &&& forall|j: int| 0 <= j < i ==> (#[trigger] mounts[j]).name != name
}

impl FsModel {
    /// Whether `sym` has been handed out by the interner.
    pub open spec fn knows(self, sym: u32) -> bool {
        (sym as int) < self.names.len()
    }

    /// Whether every component of `path` has been handed out by the interner.
    pub open spec fn known_path(self, path: Seq<u32>) -> bool {
        forall|i: int| 0 <= i < path.len() ==> self.knows(#[trigger] path[i])
    }

    /// The byte strings that the symbols stand for.
    pub open spec fn decode(self, syms: Seq<u32>) -> Seq<Seq<u8>> {
        Seq::new(syms.len(), |i: int| self.names[syms[i] as int])
    }

    /// Whether `path` has host backing: it is not the root, all its components
    /// are interned, and its first component names a mount.
    pub open spec fn resolves(self, path: Seq<u32>) -> bool {
        &&& path.len() > 0
        &&& self.known_path(path)
        &&& exists|i: int| first_mount(self.mounts, self.names[path[0] as int], i)
    }

    /// The mount that `path` lies under.
    pub open spec fn mount_of(self, path: Seq<u32>) -> int {
        choose|i: int| first_mount(self.mounts, self.names[path[0] as int], i)
    }

    /// The host path of a symbolic path and the read-only flag of its mount.
    pub open spec fn resolve(self, path: Seq<u32>) -> Option<(HostPathView, bool)> {
        if self.resolves(path) {
            let m = self.mounts[self.mount_of(path)];
            Some((HostPathView { source: m.source, tail: self.decode(path.skip(1)) }, m.read_only))
        } else {
            None
        }
    }

    /// What must hold of the entry with id `id`.
    pub open spec fn entry_ok(self, id: u64) -> bool {
        let e = self.entries[id];
        &&& id < self.next_fileid
        &&& (id != 0 ==> e.name.len() > 0)
        &&& self.known_path(e.name)
        &&& e.children matches Some(c) ==> c.finite() && !c.contains(0)
    }

    /// The invariant of the identifier map: the root is present under id 0
    /// with the empty path, no other entry and no other path shares them, every
    /// id in use lies below the counter, every symbol in an entry's name is
    /// interned, and so is the name of every mount.
    pub open spec fn inv(self) -> bool {
        &&& self.inv_core()
        &&& forall|i: int|
            0 <= i < self.mounts.len() ==> self.names.contains((#[trigger] self.mounts[i]).name)
    }

    /// The invariant but for what it says of the mounts' names.
    pub open spec fn inv_core(self) -> bool {
        &&& self.names.no_duplicates()
        &&& self.names.len() <= u32::MAX + 1
        &&& self.next_fileid >= 1
        &&& self.entries.dom().finite()
        &&& self.entries.contains_key(0)
        &&& self.entries[0].name.len() == 0
        &&& self.entries[0].children is Some
        &&& self.paths.contains_key(Seq::<u32>::empty())
        &&& self.paths[Seq::<u32>::empty()] == 0
        &&& forall|id: u64| #[trigger] self.entries.contains_key(id) ==> self.entry_ok(id)
        &&& forall|p: Seq<u32>| #[trigger]
            self.paths.contains_key(p) ==> self.paths[p] < self.next_fileid && (p.len() > 0
                ==> self.paths[p] != 0)
    }

    /// The two maps are mutual inverses: every entry's name is bound to the
    /// entry's id, and every bound path is the name of the entry it is bound to.
    pub open spec fn maps_inverse(self) -> bool {
        &&& forall|id: u64| #[trigger]
            self.entries.contains_key(id) ==> self.paths.contains_key(self.entries[id].name)
                && self.paths[self.entries[id].name] == id
        &&& forall|p: Seq<u32>| #[trigger]
            self.paths.contains_key(p) ==> self.entries.contains_key(self.paths[p])
                && self.entries[self.paths[p]].name == p
    }

    /// The symbol that `bytes` has once it is interned.
    pub open spec fn symbol_of(self, bytes: Seq<u8>) -> u32 {
        if self.names.contains(bytes) {
            self.names.index_of(bytes) as u32
        } else {
            self.names.len() as u32
        }
    }

    /// Whether `bytes` can be interned: it is interned already, or a symbol is
    /// left for it.
    pub open spec fn can_intern(self, bytes: Seq<u8>) -> bool {
        self.names.contains(bytes) || self.names.len() <= u32::MAX
    }

    /// The state after `bytes` has been interned.
    pub open spec fn after_intern(self, bytes: Seq<u8>) -> FsModel {
        if self.names.contains(bytes) {
            self
        } else {
            FsModel { names: self.names.push(bytes), ..self }
        }
    }

    /// The id under which `path` is known once an entry has been created for
    /// it: the id it is bound to, or else the next new id.
    pub open spec fn entry_id(self, path: Seq<u32>) -> u64 {
        if self.paths.contains_key(path) {
            self.paths[path]
        } else {
            self.next_fileid
        }
    }

    /// The state after an entry has been created for `path` with the host
    /// metadata `meta`. A bound path keeps its id and only has the attributes of
    /// its entry replaced; an unbound one gets a new entry under the next id.
    pub open spec fn after_create(self, path: Seq<u32>, meta: FileAttr) -> FsModel {
        if self.paths.contains_key(path) {
            let id = self.paths[path];
            if self.entries.contains_key(id) {
                FsModel {
                    entries: self.entries.insert(
                        id,
                        EntryView { fsmeta: meta.with_fileid_spec(id), ..self.entries[id] },
                    ),
                    ..self
                }
            } else {
                self
            }
        } else {
            let id = self.next_fileid;
            FsModel {
                next_fileid: (id + 1) as u64,
                entries: self.entries.insert(
                    id,
                    EntryView {
                        name: path,
                        fsmeta: meta.with_fileid_spec(id),
                        children_meta: meta.with_fileid_spec(id),
                        children: None,
                    },
                ),
                paths: self.paths.insert(path, id),
                ..self
            }
        }
    }

    /// `b` is listed as a child of the entry `a`.
    pub open spec fn edge(self, a: u64, b: u64) -> bool {
        &&& self.entries.contains_key(a)
        &&& self.entries[a].children matches Some(c) && c.contains(b)
    }

    /// A non-empty sequence of ids in which each is listed as a child of the
    /// one before.
    pub open spec fn is_walk(self, w: Seq<u64>) -> bool {
        &&& w.len() > 0
        &&& forall|i: int| 0 <= i < w.len() - 1 ==> self.edge(#[trigger] w[i], w[i + 1])
    }

    /// `to` is `from` or a transitive child of `from`.
    pub open spec fn reaches(self, from: u64, to: u64) -> bool {
        exists|w: Seq<u64>| #[trigger] self.is_walk(w) && w[0] == from && w.last() == to
    }

    /// The entries that go when `id` is deleted: `id` and its descendants.
    pub open spec fn doomed(self, id: u64) -> Set<u64> {
        Set::new(|x: u64| self.entries.contains_key(x) && self.reaches(id, x))
    }

    /// The names of the entries in `ids`.
    pub open spec fn names_of(self, ids: Set<u64>) -> Set<Seq<u32>> {
        Set::new(
            |p: Seq<u32>|
                exists|x: u64|
                    ids.contains(x) && self.entries.contains_key(x) && #[trigger] self.entries[x].name
                        == p,
        )
    }

    /// The state after `id` and all its descendants have been deleted from
    /// both maps.
    pub open spec fn after_delete(self, id: u64) -> FsModel {
        FsModel {
            entries: self.entries.remove_keys(self.doomed(id)),
            paths: self.paths.remove_keys(self.names_of(self.doomed(id))),
            ..self
        }
    }

    /// What holds while the deletion of `id` is under way: `gone` has been
    /// deleted and `work` is still to be visited. Everything in either is `id`
    /// or a descendant; the children of what is gone are gone or to be visited.
    pub open spec fn sweep_inv(self, id: u64, gone: Set<u64>, work: Seq<u64>) -> bool {
        &&& gone.finite()
        &&& forall|x: u64| #[trigger]
            gone.contains(x) ==> self.entries.contains_key(x) && self.reaches(id, x)
        &&& forall|k: int| 0 <= k < work.len() ==> self.reaches(id, #[trigger] work[k])
        &&& forall|x: u64, y: u64|
            gone.contains(x) && #[trigger] self.edge(x, y) && self.entries.contains_key(y)
                ==> gone.contains(y) || work.contains(y)
        &&& self.entries.contains_key(id) ==> gone.contains(id) || work.contains(id)
    }

    /// The state with `child` listed among the children of entry `dir`, if
    /// the entry exists and its children have been listed.
    pub open spec fn with_child(self, dir: u64, child: u64) -> FsModel {
        if self.entries.contains_key(dir) && self.entries[dir].children is Some {
            FsModel {
                entries: self.entries.insert(
                    dir,
                    EntryView {
                        children: Some(self.entries[dir].children->Some_0.insert(child)),
                        ..self.entries[dir]
                    },
                ),
                ..self
            }
        } else {
            self
        }
    }

    /// The state with `child` dropped from the children of entry `dir`, if
    /// the entry exists and its children have been listed.
    pub open spec fn without_child(self, dir: u64, child: u64) -> FsModel {
        if self.entries.contains_key(dir) && self.entries[dir].children is Some {
            FsModel {
                entries: self.entries.insert(
                    dir,
                    EntryView {
                        children: Some(self.entries[dir].children->Some_0.remove(child)),
                        ..self.entries[dir]
                    },
                ),
                ..self
            }
        } else {
            self
        }
    }

    /// The state without the entry `id` and without the binding of `path`.
    /// Descendants of the entry stay.
    pub open spec fn forget(self, id: u64, path: Seq<u32>) -> FsModel {
        FsModel { entries: self.entries.remove(id), paths: self.paths.remove(path), ..self }
    }

    /// The state with `path` bound to `id` as one more name of it.
    pub open spec fn aliased(self, path: Seq<u32>, id: u64) -> FsModel {
        FsModel { paths: self.paths.insert(path, id), ..self }
    }

    /// The state with the binding of `from` moved to `to`: the id stays, the
    /// entry under it, if there is one, is renamed, `from` is unbound and `to`
    /// is bound to the id.
    pub open spec fn rebound(self, from: Seq<u32>, to: Seq<u32>) -> FsModel {
        let id = self.paths[from];
        FsModel {
            entries: if self.entries.contains_key(id) {
                self.entries.insert(id, EntryView { name: to, ..self.entries[id] })
            } else {
                self.entries
            },
            paths: self.paths.remove(from).insert(to, id),
            ..self
        }
    }

    /// The state with the attributes of entry `id` replaced by `meta`.
    pub open spec fn with_fsmeta(self, id: u64, meta: FileAttr) -> FsModel {
        FsModel {
            entries: self.entries.insert(id, EntryView { fsmeta: meta, ..self.entries[id] }),
            ..self
        }
    }

    /// The outcome of reconciling entry `id` with what a no-traverse stat of
    /// its host path showed.
    pub open spec fn refresh_result(self, id: u64, seen: HostStat) -> Result<
        RefreshResult,
        NfsStatus,
    > {
        if !self.entries.contains_key(id) {
            Err(NfsStatus::NoEnt)
        } else if !self.resolves(self.entries[id].name) {
            Ok(RefreshResult::Noop)
        } else {
            match seen {
                HostStat::Absent => Ok(RefreshResult::Delete),
                HostStat::Failed => Err(NfsStatus::Io),
                HostStat::Found(meta) => {
                    let found = meta.with_fileid_spec(id);
                    let cached = self.entries[id].fsmeta;
                    if !attr_differ_spec(found, cached) {
                        Ok(RefreshResult::Noop)
                    } else if cached.ftype != found.ftype {
                        Ok(RefreshResult::Delete)
                    } else {
                        Ok(RefreshResult::Reload)
                    }
                },
            }
        }
    }

    /// The state after entry `id` has been reconciled with the host.
    pub open spec fn after_refresh(self, id: u64, seen: HostStat) -> FsModel {
        match self.refresh_result(id, seen) {
            Ok(RefreshResult::Delete) => self.after_delete(id),
            Ok(RefreshResult::Reload) => self.with_fsmeta(id, seen->Found_0.with_fileid_spec(id)),
            _ => self,
        }
    }

    /// Whether the children of entry `id` have to be listed anew: the entry
    /// is a directory, and it has never been listed or its attributes have
    /// changed since.
    pub open spec fn needs_listing(self, id: u64) -> bool {
        let e = self.entries[id];
        &&& self.entries.contains_key(id)
        &&& e.children is None || attr_differ_spec(e.children_meta, e.fsmeta)
        &&& e.fsmeta.ftype == FileType::Directory
    }

    /// The state after one listed name has been taken in under the directory
    /// `base`: the name is interned and an entry is created for its path.
    pub open spec fn after_listed(self, base: Seq<u32>, item: ListedView) -> FsModel {
        let interned = self.after_intern(item.name);
        interned.after_create(base.push(self.symbol_of(item.name)), item.attr)
    }

    /// The id of one listed name under the directory `base`.
    pub open spec fn listed_id(self, base: Seq<u32>, item: ListedView) -> u64 {
        self.after_intern(item.name).entry_id(base.push(self.symbol_of(item.name)))
    }

    /// The state after the listed names have been taken in, one after the
    /// other, under the directory `base`.
    pub open spec fn after_listing(self, base: Seq<u32>, items: Seq<ListedView>) -> FsModel
        decreases items.len(),
    {
        if items.len() == 0 {
            self
        } else {
            self.after_listing(base, items.drop_last()).after_listed(base, items.last())
        }
    }

    /// The ids of the listed names, in the order of the listing.
    pub open spec fn listing_ids(self, base: Seq<u32>, items: Seq<ListedView>) -> Seq<u64>
        decreases items.len(),
    {
        if items.len() == 0 {
            Seq::empty()
        } else {
            self.listing_ids(base, items.drop_last()).push(
                self.after_listing(base, items.drop_last()).listed_id(base, items.last()),
            )
        }
    }

    /// The id that the cache holds for the name `filename` under the entry
    /// `id`: the name must be interned and the composed path bound.
    pub open spec fn child(self, id: u64, filename: Seq<u8>) -> Option<u64> {
        if self.entries.contains_key(id) && self.names.contains(filename) {
            let path = self.entries[id].name.push(self.names.index_of(filename) as u32);
            if self.paths.contains_key(path) {
                Some(self.paths[path])
            } else {
                None
            }
        } else {
            None
        }
    }

    /// The map that holds the root alone.
    pub open spec fn initial(mounts: Seq<MountView>, root_meta: FileAttr) -> FsModel {
        FsModel {
            mounts,
            next_fileid: 1,
            names: Seq::empty(),
            entries: Map::empty().insert(
                0u64,
                EntryView {
                    name: Seq::empty(),
                    fsmeta: root_meta.with_fileid_spec(0),
                    children_meta: root_meta.with_fileid_spec(0),
                    children: Some(Set::empty()),
                },
            ),
            paths: Map::empty().insert(Seq::empty(), 0u64),
        }
    }

    /// The state after a node has been added for a mount: its name is
    /// interned, a new entry is bound to the one-component path, and the root
    /// lists it.
    pub open spec fn after_mount(self, name: Seq<u8>, meta: FileAttr) -> FsModel {
        let id = self.next_fileid;
        let path = seq![self.symbol_of(name)];
        let root = self.entries[0];
        FsModel {
            next_fileid: (id + 1) as u64,
            names: self.after_intern(name).names,
            entries: self.entries.insert(
                id,
                EntryView {
                    name: path,
                    fsmeta: meta.with_fileid_spec(id),
                    children_meta: meta.with_fileid_spec(id),
                    children: None,
                },
            ).insert(0, EntryView { children: Some(root.children->Some_0.insert(id)), ..root }),
            paths: self.paths.insert(path, id),
            ..self
        }
    }

    /// The state after nodes have been added for the first `n` mounts, in
    /// the order of the mount table.
    pub open spec fn after_mounts(self, metas: Seq<FileAttr>, n: nat) -> FsModel
        decreases n,
    {
        if n == 0 {
            self
        } else {
            self.after_mounts(metas, (n - 1) as nat).after_mount(
                self.mounts[n - 1].name,
                metas[n - 1],
            )
        }
    }

    /// The mounts among the first `n` whose source exists, as listed names.
    pub open spec fn mount_items(self, seen: Seq<Option<FileAttr>>, n: nat) -> Seq<ListedView>
        decreases n,
    {
        if n == 0 {
            Seq::empty()
        } else {
            let before = self.mount_items(seen, (n - 1) as nat);
            if n - 1 < seen.len() && n - 1 < self.mounts.len() && seen[n - 1] is Some {
                before.push(
                    ListedView { name: self.mounts[n - 1].name, attr: seen[n - 1]->Some_0 },
                )
            } else {
                before
            }
        }
    }

    /// The path of the node of mount `k`: the one symbol of the mount's name.
    pub open spec fn mount_path(self, k: int) -> Seq<u32> {
        seq![self.symbol_of(self.mounts[k].name)]
    }

    /// What a scan lists under entry `id`: the existing mounts under the
    /// root, the names read from the host directory under any other entry.
    pub open spec fn scan_items(self, id: u64, scan: ScanView) -> Seq<ListedView> {
        if self.entries[id].name.len() == 0 {
            self.mount_items(scan.mounts, self.mounts.len())
        } else {
            scan.entries
        }
    }

    /// Whether a scan of entry `id` is taken in at all: the entry needs
    /// listing, and it is the root or has host backing.
    pub open spec fn takes_listing(self, id: u64) -> bool {
        &&& self.needs_listing(id)
        &&& self.entries[id].name.len() == 0 || self.resolves(self.entries[id].name)
    }

    /// The outcome of listing the children of entry `id` from a scan.
    pub open spec fn dir_list_result(self, id: u64, scan: ScanView) -> Result<(), NfsStatus> {
        if !self.entries.contains_key(id) {
            Err(NfsStatus::NoEnt)
        } else if self.takes_listing(id) && self.entries[id].name.len() > 0 && !scan.complete {
            Err(NfsStatus::Io)
        } else {
            Ok(())
        }
    }

    /// The state after the children of entry `id` have been listed from a
    /// scan. Every listed name is taken in; the children are replaced unless
    /// the scan broke off.
    pub open spec fn after_dir_list(self, id: u64, scan: ScanView) -> FsModel {
        if self.takes_listing(id) {
            let base = self.entries[id].name;
            let items = self.scan_items(id, scan);
            let listed = self.after_listing(base, items);
            if base.len() > 0 && !scan.complete {
                listed
            } else {
                listed.with_children(id, self.listing_ids(base, items).to_set())
            }
        } else {
            self
        }
    }

    /// The state with the children of entry `id` replaced by `children`, and
    /// the attributes they were listed under set to the current ones.
    pub open spec fn with_children(self, id: u64, children: Set<u64>) -> FsModel {
        FsModel {
            entries: self.entries.insert(
                id,
                EntryView {
                    children: Some(children),
                    children_meta: self.entries[id].fsmeta,
                    ..self.entries[id]
                },
            ),
            ..self
        }
    }
}

} // verus!
