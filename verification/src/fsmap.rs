//! The identifier map: file ids, symbolic paths, cached attributes and
//! children, kept coherent with what the host reports.

use crate::attr::attr_differ;
use crate::attr::FileAttr;
use crate::attr::NfsStatus;
use crate::interner::PathInterner;
use crate::model::EntryView;
use crate::model::FsModel;
use crate::model::HostPathView;
use crate::model::HostStat;
use crate::model::ListedView;
use crate::model::MountView;
use crate::model::RefreshResult;
use crate::model::ScanView;
use crate::model::trim_slashes;
use crate::pathmap::PathIndex;
use std::collections::BTreeSet;
use std::collections::HashMap;
use std::path::PathBuf;
use vstd::prelude::*;
use vstd::slice::slice_to_vec;
use vstd::std_specs::cmp::OrdSpec;
use vstd::std_specs::iter::IteratorSpec;

verus! {

/// The cached state of one file id.
#[derive(Debug)]
pub struct FSEntry {
    /// The symbolic path of the entry.
    pub name: Vec<u32>,
    /// The attributes as of the last refresh.
    pub fsmeta: FileAttr,
    /// The attributes that were in effect when `children` was last filled.
    pub children_meta: FileAttr,
    /// The ids of the children, once the directory has been listed.
    pub children: Option<BTreeSet<u64>>,
}

impl View for FSEntry {
    type V = EntryView;

    open spec fn view(&self) -> EntryView {
        EntryView {
            name: self.name@,
            fsmeta: self.fsmeta,
            children_meta: self.children_meta,
            children: match self.children {
                Some(c) => Some(c@),
                None => None,
            },
        }
    }
}

impl Clone for FSEntry {
    fn clone(&self) -> (out: Self)
        ensures
            out@ == self@,
    {
        let children = match &self.children {
            Some(c) => Some(c.clone()),
            None => None,
        };
        FSEntry {
            name: self.name.clone(),
            fsmeta: self.fsmeta,
            children_meta: self.children_meta,
            children,
        }
    }
}

/// Whether a sequence of ids is strictly increasing.
pub open spec fn increasing(s: Seq<u64>) -> bool {
    forall|i: int, j: int| 0 <= i < j < s.len() ==> s[i] < s[j]
}

/// The members of a set of ids, in increasing order.
pub fn set_items(s: &BTreeSet<u64>) -> (out: Vec<u64>)
    ensures
        out@.to_set() == s@,
        increasing(out@),
{
    let mut out: Vec<u64> = Vec::new();
    for x in it: s.iter()
        invariant
            out@.len() == it.index(),
            it.seq() == vstd::std_specs::btree::spec_btree_keys_iter(s).remaining(),
            forall|k: int| 0 <= k < out@.len() ==> out@[k] == *it.seq()[k],
    {
        out.push(*x);
    }
    proof {
        broadcast use vstd::laws_cmp::lemma_ref_obeys_cmp_spec;

        let r = vstd::std_specs::btree::spec_btree_keys_iter(s).remaining();
        assert(out@ =~= r.unref());
        assert(vstd::laws_cmp::obeys_cmp::<&u64>());
        vstd::std_specs::btree::axiom_increasing_seq_meaning(r);
        assert forall|i: int, j: int| 0 <= i < j < out@.len() implies out@[i] < out@[j] by {
            assert(OrdSpec::cmp_spec(&r[i], &r[j]) is Less);
        }
    }
    out
}

/// Adds `id` to a set of ids.
pub(crate) fn insert_id(set: &mut BTreeSet<u64>, id: u64)
    ensures
        final(set)@ == old(set)@.insert(id),
{
    broadcast use vstd::laws_cmp::group_laws_cmp;

    set.insert(id);
}

/// Takes `id` out of a set of ids.
pub(crate) fn remove_id(set: &mut BTreeSet<u64>, id: u64)
    ensures
        final(set)@ == old(set)@.remove(id),
{
    broadcast use vstd::laws_cmp::group_laws_cmp;

    set.remove(&id);
}

/// The view of a list of byte strings.
pub open spec fn bytes_view(v: Seq<Vec<u8>>) -> Seq<Seq<u8>> {
    Seq::new(v.len(), |i: int| v[i]@)
}

/// A host path: a mount's source directory and the components below it, to be
/// joined by whoever touches the host.
#[derive(Debug)]
pub struct RealPath<'a> {
    pub source: &'a PathBuf,
    pub tail: Vec<Vec<u8>>,
}

impl<'a> View for RealPath<'a> {
    type V = HostPathView;

    open spec fn view(&self) -> HostPathView {
        HostPathView { source: *self.source, tail: bytes_view(self.tail@) }
    }
}

/// The mount that a configured triple of target, source and read-only flag
/// stands for.
pub open spec fn mount_view(m: (String, PathBuf, bool)) -> MountView {
    MountView { name: trim_slashes(vstd::utf8::encode_utf8(m.0@)), source: m.1, read_only: m.2 }
}

/// The mount table that a list of configured triples stands for.
pub open spec fn mounts_view(mounts: Seq<(String, PathBuf, bool)>) -> Seq<MountView> {
    Seq::new(mounts.len(), |i: int| mount_view(mounts[i]))
}

proof fn lemma_trim_stops(s: Seq<u8>, k: int)
    requires
        0 <= k <= s.len(),
        forall|j: int| 0 <= j < k ==> s[j] == 47u8,
        k == s.len() || s[k] != 47u8,
    ensures
        trim_slashes(s) == s.skip(k),
    decreases k,
{
    if k == 0 {
        assert(s.skip(0) =~= s);
    } else {
        let t = s.skip(1);
        assert forall|j: int| 0 <= j < k - 1 implies t[j] == 47u8 by {
            assert(t[j] == s[j + 1]);
        }
        lemma_trim_stops(t, k - 1);
        assert(t.skip(k - 1) =~= s.skip(k));
    }
}

/// Whether `target`, less its leading slashes, is `name`.
pub fn name_matches(target: &[u8], name: &[u8]) -> (out: bool)
    ensures
        out == (trim_slashes(target@) == name@),
{
    let mut k: usize = 0;
    while k < target.len() && target[k] == 47u8
        invariant
            k <= target.len(),
            forall|j: int| 0 <= j < k ==> target@[j] == 47u8,
        decreases target.len() - k,
    {
        k = k + 1;
    }
    proof {
        lemma_trim_stops(target@, k as int);
    }
    if target.len() - k != name.len() {
        return false;
    }
    let mut i: usize = 0;
    while i < name.len()
        invariant
            k <= target.len(),
            target.len() - k == name.len(),
            trim_slashes(target@) == target@.skip(k as int),
            i <= name.len(),
            forall|j: int| 0 <= j < i ==> target@[k + j] == name@[j],
        decreases name.len() - i,
    {
        if target[k + i] != name[i] {
            assert(target@.skip(k as int)[i as int] != name@[i as int]);
            return false;
        }
        i = i + 1;
    }
    assert(target@.skip(k as int) =~= name@);
    true
}

/// The mount's name: the target without its leading slashes.
pub fn mount_name(target: &str) -> (out: Vec<u8>)
    ensures
        out@ == trim_slashes(vstd::utf8::encode_utf8(target@)),
{
    let bytes = target.as_bytes();
    let mut k: usize = 0;
    while k < bytes.len() && bytes[k] == 47u8
        invariant
            k <= bytes.len(),
            forall|j: int| 0 <= j < k ==> bytes@[j] == 47u8,
        decreases bytes.len() - k,
    {
        k = k + 1;
    }
    proof {
        lemma_trim_stops(bytes@, k as int);
    }
    let mut out: Vec<u8> = Vec::new();
    let mut i: usize = k;
    while i < bytes.len()
        invariant
            k <= i <= bytes.len(),
            out@ == bytes@.subrange(k as int, i as int),
        decreases bytes.len() - i,
    {
        out.push(bytes[i]);
        assert(bytes@.subrange(k as int, i as int).push(bytes@[i as int]) =~= bytes@.subrange(
            k as int,
            i + 1,
        ));
        i = i + 1;
    }
    assert(bytes@.subrange(k as int, bytes@.len() as int) =~= bytes@.skip(k as int));
    out
}

/// A name found in a host directory, with its metadata.
#[derive(Debug)]
pub struct HostDirEntry {
    pub name: Vec<u8>,
    pub attr: FileAttr,
}

impl View for HostDirEntry {
    type V = ListedView;

    open spec fn view(&self) -> ListedView {
        ListedView { name: self.name@, attr: self.attr }
    }
}

/// The view of a list of names found on the host.
pub open spec fn listed_view(v: Seq<HostDirEntry>) -> Seq<ListedView> {
    Seq::new(v.len(), |i: int| v[i]@)
}

/// What was found when a directory was scanned on the host.
#[derive(Debug)]
pub struct DirScan {
    /// For each mount, in the order of the mount table: the metadata of its
    /// source, or nothing where the source does not exist.
    pub mounts: Vec<Option<FileAttr>>,
    /// The names found in a host directory, in the order in which they were
    /// read.
    pub entries: Vec<HostDirEntry>,
    /// Whether the directory was read to its end.
    pub complete: bool,
}

impl View for DirScan {
    type V = ScanView;

    open spec fn view(&self) -> ScanView {
        ScanView {
            mounts: self.mounts@,
            entries: listed_view(self.entries@),
            complete: self.complete,
        }
    }
}

/// `HashMap::get_mut`: a mutable reference to the value under the key, if
/// there is one. What the reference holds in the end is what the map holds
/// under the key; nothing else in the map changes.
#[verifier::external_body]
fn entry_mut<'a>(map: &'a mut HashMap<u64, FSEntry>, id: u64) -> (out: Option<&'a mut FSEntry>)
    ensures
        match out {
            Some(entry) => {
                &&& old(map)@.contains_key(id)
                &&& *entry == old(map)@[id]
                &&& final(map)@ == old(map)@.insert(id, *final(entry))
            },
            None => !old(map)@.contains_key(id) && final(map)@ == old(map)@,
        },
{
    map.get_mut(&id)
}

/// The identifier map.
pub struct FSMap {
    /// The configured exports: target, source and read-only flag.
    mounts: Vec<(String, PathBuf, bool)>,
    /// The id that the next new entry gets.
    next_fileid: u64,
    /// The interned path components.
    intern: PathInterner,
    /// The entries by file id.
    id_to_path: HashMap<u64, FSEntry>,
    /// The file ids by symbolic path.
    path_to_id: PathIndex,
}

impl View for FSMap {
    type V = FsModel;

    closed spec fn view(&self) -> FsModel {
        FsModel {
            mounts: mounts_view(self.mounts@),
            next_fileid: self.next_fileid,
            names: self.intern.names(),
            entries: Map::new(
                |id: u64| self.id_to_path@.contains_key(id),
                |id: u64| self.id_to_path@[id]@,
            ),
            paths: self.path_to_id@,
        }
    }
}

impl FSMap {
    /// The parts of the map are well-formed each by itself.
    pub closed spec fn rep_ok(&self) -> bool {
        &&& self.intern.wf()
        &&& self.path_to_id.wf()
    }

    /// The map is well-formed: every public function expects this and keeps it.
    pub open spec fn wf(&self) -> bool {
        &&& self.rep_ok()
        &&& self@.inv()
    }

    proof fn lemma_entries_finite(&self)
        ensures
            self@.entries.dom().finite(),
    {
        broadcast use vstd::std_specs::hash::axiom_hashmap_view_finite_dom;

        assert(self@.entries.dom() =~= self.id_to_path@.dom());
    }

    /// Stores `entry` under `id`, replacing what was there.
    pub(crate) fn put_entry(&mut self, id: u64, entry: FSEntry)
        requires
            old(self).rep_ok(),
        ensures
            final(self).rep_ok(),
            final(self).mount_list() == old(self).mount_list(),
            final(self)@ == (FsModel {
                entries: old(self)@.entries.insert(id, entry@),
                ..old(self)@
            }),
    {
        self.id_to_path.insert(id, entry);
        assert(self@.entries =~= old(self)@.entries.insert(id, entry@));
    }

    /// Takes the entry for `id` out of the map.
    pub(crate) fn take_entry(&mut self, id: u64) -> (out: Option<FSEntry>)
        requires
            old(self).rep_ok(),
        ensures
            final(self).rep_ok(),
            final(self).mount_list() == old(self).mount_list(),
            final(self)@ == (FsModel { entries: old(self)@.entries.remove(id), ..old(self)@ }),
            match out {
                Some(entry) => old(self)@.entries.contains_key(id) && entry@ == old(
                    self,
                )@.entries[id],
                None => !old(self)@.entries.contains_key(id),
            },
    {
        let out = self.id_to_path.remove(&id);
        assert(self@.entries =~= old(self)@.entries.remove(id));
        out
    }

    /// Binds `path` to `id`.
    pub(crate) fn bind_path(&mut self, path: Vec<u32>, id: u64)
        requires
            old(self).rep_ok(),
        ensures
            final(self).rep_ok(),
            final(self).mount_list() == old(self).mount_list(),
            final(self)@ == (FsModel { paths: old(self)@.paths.insert(path@, id), ..old(self)@ }),
    {
        self.path_to_id.bind(path, id);
    }

    /// Drops the binding of `path`.
    pub(crate) fn unbind_path(&mut self, path: &[u32])
        requires
            old(self).rep_ok(),
        ensures
            final(self).rep_ok(),
            final(self).mount_list() == old(self).mount_list(),
            final(self)@ == (FsModel { paths: old(self)@.paths.remove(path@), ..old(self)@ }),
    {
        self.path_to_id.unbind(path);
    }

    /// Interns `bytes` and returns its symbol.
    pub(crate) fn intern_name(&mut self, bytes: Vec<u8>) -> (sym: u32)
        requires
            old(self).rep_ok(),
            old(self)@.can_intern(bytes@),
        ensures
            final(self).rep_ok(),
            final(self).mount_list() == old(self).mount_list(),
            final(self)@ == old(self)@.after_intern(bytes@),
            sym == old(self)@.symbol_of(bytes@),
            final(self)@.knows(sym),
            final(self)@.names[sym as int] == bytes@,
            old(self).wf() ==> final(self).wf(),
    {
        let ghost before = self@;
        match self.intern.intern(bytes) {
            Some(sym) => {
                proof {
                    if old(self).wf() {
                        crate::upkeep::lemma_after_intern_inv(before, bytes@);
                    }
                    if before.names.contains(bytes@) {
                        before.names.index_of_first_ensures(bytes@);
                        assert(before.names.index_of(bytes@) == sym);
                    }
                }
                sym
            },
            None => 0,
        }
    }

    /// Takes the next file id from the counter.
    pub(crate) fn next_id(&mut self) -> (id: u64)
        requires
            old(self).rep_ok(),
            old(self)@.next_fileid < u64::MAX,
        ensures
            final(self).rep_ok(),
            final(self).mount_list() == old(self).mount_list(),
            id == old(self)@.next_fileid,
            final(self)@ == (FsModel { next_fileid: (id + 1) as u64, ..old(self)@ }),
    {
        let id = self.next_fileid;
        self.next_fileid = id + 1;
        id
    }

    /// The configured exports, as they were given.
    pub closed spec fn mount_list(&self) -> Seq<(String, PathBuf, bool)> {
        self.mounts@
    }

    /// The configured exports, as they were given.
    pub fn mounts(&self) -> (out: &Vec<(String, PathBuf, bool)>)
        ensures
            out@ == self.mount_list(),
            mounts_view(out@) == self@.mounts,
    {
        &self.mounts
    }

    /// The id that the next new entry gets.
    pub fn next_fileid(&self) -> (out: u64)
        ensures
            out == self@.next_fileid,
    {
        self.next_fileid
    }

    /// Whether `bytes` can be interned: it is interned already, or a symbol is
    /// left for it.
    pub fn can_intern(&self, bytes: &[u8]) -> (out: bool)
        ensures
            out == self@.can_intern(bytes@),
    {
        self.intern.check_interned(bytes).is_some() || self.intern.has_room()
    }

    /// Whether `first` and then `second` can be interned.
    pub fn can_intern_both(&self, first: &[u8], second: &[u8]) -> (out: bool)
        requires
            self.wf(),
        ensures
            out == (self@.can_intern(first@) && self@.after_intern(first@).can_intern(second@)),
    {
        let have_first = self.intern.check_interned(first).is_some();
        let have_second = self.intern.check_interned(second).is_some();
        let same = crate::pathmap::same_bytes(first, second);
        let count = self.intern.len();
        proof {
            let after = self@.after_intern(first@);
            if !have_first {
                assert(after.names[self@.names.len() as int] == first@);
                if after.names.contains(second@) && !have_second {
                    let i = choose|i: int| 0 <= i < after.names.len() && after.names[i] == second@;
                    if i < self@.names.len() {
                        assert(self@.names[i] == second@);
                    }
                }
                if have_second {
                    let i = choose|i: int| 0 <= i < self@.names.len() && self@.names[i] == second@;
                    assert(after.names[i] == second@);
                }
            }
        }
        if have_first {
            have_second || count <= 0xffff_ffff
        } else if count > 0xffff_ffff {
            false
        } else {
            have_second || same || count < 0xffff_ffff
        }
    }

    /// Whether a listing of `listed` names can be taken in, whatever the
    /// names are: symbols and file ids are left for all of them and for the
    /// mounts.
    pub fn has_room_for(&self, listed: usize) -> (out: bool)
        ensures
            out == (self@.names.len() + listed + self@.mounts.len() <= u32::MAX
                && self@.next_fileid + listed + self@.mounts.len() <= u64::MAX),
    {
        let names = self.intern.len();
        let mounts = self.mounts.len();
        let limit: usize = 0xffff_ffff;
        if names > limit || listed > limit - names || mounts > limit - names - listed {
            return false;
        }
        let more: u64 = (listed + mounts) as u64;
        more <= u64::MAX - self.next_fileid
    }

    /// Whether the map holds an entry for `id`.
    pub fn contains(&self, id: u64) -> (out: bool)
        ensures
            out == self@.entries.contains_key(id),
    {
        self.id_to_path.contains_key(&id)
    }

    /// Creates the entry for `fullpath`, or refreshes it. A path that is bound
    /// keeps its id, and the entry under that id has its attributes replaced
    /// by `meta`; an unbound path gets a new entry under the next id, without
    /// children. Either way the attributes are stamped with the id.
    pub fn create_entry(&mut self, fullpath: &Vec<u32>, meta: FileAttr) -> (id: u64)
        requires
            old(self).wf(),
            old(self)@.known_path(fullpath@),
            old(self)@.paths.contains_key(fullpath@) || old(self)@.next_fileid < u64::MAX,
        ensures
            final(self).wf(),
            id == old(self)@.entry_id(fullpath@),
            final(self)@ == old(self)@.after_create(fullpath@, meta),
            fullpath@.len() > 0 ==> id != 0,
            old(self)@.maps_inverse() ==> final(self)@.maps_inverse(),
            final(self)@.paths.contains_key(fullpath@),
            final(self)@.paths[fullpath@] == id,
            fullpath@.len() > 0 ==> final(self)@.entries[0] == old(self)@.entries[0],
            final(self)@.next_fileid >= old(self)@.next_fileid,
            !old(self)@.paths.contains_key(fullpath@) ==> {
                &&& id == old(self)@.next_fileid
                &&& final(self)@.next_fileid == id + 1
                &&& !old(self)@.entries.contains_key(id)
                &&& final(self)@.entries[id].name == fullpath@
            },
    {
        proof {
            if !self@.paths.contains_key(fullpath@) {
                crate::laws::lemma_new_id_is_fresh(self@, fullpath@, meta);
            }
            if self@.maps_inverse() {
                crate::laws::lemma_create_keeps_inverse(self@, fullpath@, meta);
            }
        }
        let ghost before = self@;
        match self.path_to_id.get(fullpath.as_slice()) {
            Some(id) => {
                match self.take_entry(id) {
                    Some(mut entry) => {
                        entry.fsmeta = meta.with_fileid(id);
                        self.put_entry(id, entry);
                        proof {
                            assert(self@ =~= before.after_create(fullpath@, meta));
                            crate::upkeep::lemma_after_create_inv(before, fullpath@, meta);
                        }
                    },
                    None => {
                        assert(self@ =~= before);
                    },
                }
                id
            },
            None => {
                let id = self.next_id();
                let attr = meta.with_fileid(id);
                let entry = FSEntry {
                    name: fullpath.clone(),
                    fsmeta: attr,
                    children_meta: attr,
                    children: None,
                };
                self.put_entry(id, entry);
                self.bind_path(fullpath.clone(), id);
                proof {
                    assert(self@ =~= before.after_create(fullpath@, meta));
                    crate::upkeep::lemma_after_create_inv(before, fullpath@, meta);
                }
                id
            },
        }
    }

    /// A map that holds the root alone, with `root_meta` as its attributes.
    pub fn new_with_root(root_meta: FileAttr) -> (out: FSMap)
        ensures
            out.wf(),
            out@ == FsModel::initial(Seq::empty(), root_meta),
            out@.maps_inverse(),
    {
        proof {
            crate::laws::lemma_mounted_inverse(Seq::empty(), root_meta, Seq::empty());
        }
        FSMap::with_root(Vec::new(), root_meta)
    }

    fn with_root(mounts: Vec<(String, PathBuf, bool)>, root_meta: FileAttr) -> (out: FSMap)
        ensures
            out.rep_ok(),
            out.mounts@ == mounts@,
            out@ == FsModel::initial(mounts_view(mounts@), root_meta),
            out@.inv_core(),
    {
        let mut out = FSMap {
            mounts,
            next_fileid: 1,
            intern: PathInterner::new(),
            id_to_path: HashMap::new(),
            path_to_id: PathIndex::new(),
        };
        let ghost empty = out@;
        assert(empty.entries =~= Map::<u64, EntryView>::empty());
        let attr = root_meta.with_fileid(0);
        let root = FSEntry {
            name: Vec::new(),
            fsmeta: attr,
            children_meta: attr,
            children: Some(BTreeSet::new()),
        };
        out.put_entry(0, root);
        out.bind_path(Vec::new(), 0);
        proof {
            let m = out@;
            assert(m =~= FsModel::initial(mounts_view(mounts@), root_meta));
            assert(m.entries.dom() =~= Set::<u64>::empty().insert(0u64));
            assert forall|p: Seq<u32>| #[trigger] m.paths.contains_key(p) implies m.paths[p]
                < m.next_fileid && (p.len() > 0 ==> m.paths[p] != 0) by {
                assert(p == Seq::<u32>::empty());
            }
        }
        out
    }

    /// A map that holds the root and, under it, one node for each mount, in
    /// the order of the mount table. `root_meta` is the metadata of the root
    /// directory and `mount_meta` that of each mount's source.
    pub fn new_with_mounts(
        root_meta: FileAttr,
        mounts: Vec<(String, PathBuf, bool)>,
        mount_meta: &Vec<FileAttr>,
    ) -> (out: FSMap)
        requires
            mount_meta.len() == mounts.len(),
            mounts.len() < u32::MAX,
        ensures
            out.wf(),
            out.mount_list() == mounts@,
            out@ == FsModel::initial(mounts_view(mounts@), root_meta).after_mounts(
                mount_meta@,
                mounts@.len(),
            ),
            crate::laws::distinct_names(mounts_view(mounts@)) ==> out@.maps_inverse()
                && crate::laws::mounted_shape(out@, mount_meta@, mounts@.len()),
    {
        proof {
            if crate::laws::distinct_names(mounts_view(mounts@)) {
                crate::laws::lemma_mounted_inverse(mounts_view(mounts@), root_meta, mount_meta@);
                crate::laws::lemma_mounted_shape(
                    mounts_view(mounts@),
                    root_meta,
                    mount_meta@,
                    mounts@.len(),
                );
            }
        }
        let ghost init = FsModel::initial(mounts_view(mounts@), root_meta);
        let ghost given = mounts@;
        let mut out = FSMap::with_root(mounts, root_meta);
        let n = out.mounts.len();
        let mut i: usize = 0;
        while i < n
            invariant
                out.rep_ok(),
                out.mounts@ == given,
                init.mounts == mounts_view(given),
                n == given.len(),
                n == mount_meta.len(),
                n < u32::MAX,
                i <= n,
                out@ == init.after_mounts(mount_meta@, i as nat),
                out@.inv_core(),
                out@.mounts == init.mounts,
                out@.next_fileid == i + 1,
                out@.names.len() <= i,
                forall|j: int| 0 <= j < i ==> out@.names.contains((#[trigger] init.mounts[j]).name),
            decreases n - i,
        {
            let ghost before = out@;
            let name = mount_name(out.mounts[i].0.as_str());
            assert(name@ == init.mounts[i as int].name);
            let sym = out.intern_name(name);
            let id = out.next_id();
            let attr = mount_meta[i].with_fileid(id);
            let mut path: Vec<u32> = Vec::new();
            path.push(sym);
            let entry = FSEntry {
                name: path.clone(),
                fsmeta: attr,
                children_meta: attr,
                children: None,
            };
            out.put_entry(id, entry);
            out.bind_path(path, id);
            out.add_child(0, id);
            proof {
                let after = before.after_mount(init.mounts[i as int].name, mount_meta@[i as int]);
                assert(path@ =~= seq![sym]);
                assert(out@ =~= after);
                crate::upkeep::lemma_after_mount_inv(before, init.mounts[i as int].name, mount_meta@[i as int]);
            }
            i = i + 1;
        }
        out
    }

    /// Lists `child` among the children of entry `dir`, if the entry exists and
    /// its children have been listed.
    pub(crate) fn add_child(&mut self, dir: u64, child: u64)
        requires
            old(self).rep_ok(),
        ensures
            final(self).rep_ok(),
            final(self).mount_list() == old(self).mount_list(),
            final(self)@ == old(self)@.with_child(dir, child),
            old(self).wf() && child != 0 ==> final(self).wf(),
    {
        let ghost before = self@;
        proof {
            if old(self).wf() && child != 0 {
                crate::upkeep::lemma_with_child_inv(before, dir, child);
            }
        }
        match self.take_entry(dir) {
            Some(entry) => {
                let FSEntry { name, fsmeta, children_meta, children } = entry;
                let children = match children {
                    Some(mut c) => {
                        insert_id(&mut c, child);
                        Some(c)
                    },
                    None => None,
                };
                self.put_entry(dir, FSEntry { name, fsmeta, children_meta, children });
                assert(self@ =~= before.with_child(dir, child));
            },
            None => {
                assert(self@ =~= before);
            },
        }
    }

    /// Drops `child` from the children of entry `dir`, if the entry exists and
    /// its children have been listed.
    pub(crate) fn drop_child(&mut self, dir: u64, child: u64)
        requires
            old(self).rep_ok(),
        ensures
            final(self).rep_ok(),
            final(self).mount_list() == old(self).mount_list(),
            final(self)@ == old(self)@.without_child(dir, child),
            old(self).wf() ==> final(self).wf(),
    {
        let ghost before = self@;
        proof {
            if old(self).wf() {
                crate::upkeep::lemma_without_child_inv(before, dir, child);
            }
        }
        match self.take_entry(dir) {
            Some(entry) => {
                let FSEntry { name, fsmeta, children_meta, children } = entry;
                let children = match children {
                    Some(mut c) => {
                        remove_id(&mut c, child);
                        Some(c)
                    },
                    None => None,
                };
                self.put_entry(dir, FSEntry { name, fsmeta, children_meta, children });
                assert(self@ =~= before.without_child(dir, child));
            },
            None => {
                assert(self@ =~= before);
            },
        }
    }

    /// Drops the entry `id` alone, and the binding of `path`.
    pub(crate) fn forget(&mut self, id: u64, path: &[u32])
        requires
            old(self).wf(),
            id != 0,
            path@.len() > 0,
        ensures
            final(self).wf(),
            final(self).mount_list() == old(self).mount_list(),
            final(self)@ == old(self)@.forget(id, path@),
    {
        let ghost before = self@;
        let _ = self.take_entry(id);
        self.unbind_path(path);
        proof {
            assert(self@ =~= before.forget(id, path@));
            crate::upkeep::lemma_forget_inv(before, id, path@);
        }
    }

    /// Binds `path` to the id `id`, which is in use.
    pub(crate) fn alias(&mut self, path: Vec<u32>, id: u64)
        requires
            old(self).wf(),
            path@.len() > 0,
            id != 0,
            id < old(self)@.next_fileid,
        ensures
            final(self).wf(),
            final(self).mount_list() == old(self).mount_list(),
            final(self)@ == old(self)@.aliased(path@, id),
    {
        let ghost before = self@;
        self.bind_path(path, id);
        proof {
            assert(self@ =~= before.aliased(path@, id));
            crate::upkeep::lemma_aliased_inv(before, path@, id);
        }
    }

    /// Moves the binding of `from` to `to`, and renames the entry it is bound
    /// to. Returns the id, or nothing, with nothing changed, if `from` is not
    /// bound.
    pub(crate) fn rebind(&mut self, from: &[u32], to: Vec<u32>) -> (out: Option<u64>)
        requires
            old(self).wf(),
            from@.len() > 0,
            to@.len() > 0,
            old(self)@.known_path(to@),
        ensures
            final(self).wf(),
            final(self).mount_list() == old(self).mount_list(),
            out == if old(self)@.paths.contains_key(from@) {
                Some(old(self)@.paths[from@])
            } else {
                None
            },
            final(self)@ == if old(self)@.paths.contains_key(from@) {
                old(self)@.rebound(from@, to@)
            } else {
                old(self)@
            },
    {
        let ghost before = self@;
        let id = match self.path_to_id.get(from) {
            Some(id) => id,
            None => {
                return None;
            },
        };
        match self.take_entry(id) {
            Some(entry) => {
                let FSEntry { name, fsmeta, children_meta, children } = entry;
                self.put_entry(id, FSEntry { name: to.clone(), fsmeta, children_meta, children });
            },
            None => {},
        }
        self.unbind_path(from);
        self.bind_path(to, id);
        proof {
            assert(self@ =~= before.rebound(from@, to@));
            crate::upkeep::lemma_rebound_inv(before, from@, to@);
        }
        Some(id)
    }

    /// The id that `path` is bound to.
    pub fn path_id(&self, path: &[u32]) -> (out: Option<u64>)
        requires
            self.wf(),
        ensures
            out == if self@.paths.contains_key(path@) {
                Some(self@.paths[path@])
            } else {
                None
            },
    {
        self.path_to_id.get(path)
    }

    /// Replaces the cached attributes of entry `id` by `meta`, stamped with
    /// the id; an unknown id changes nothing.
    pub fn update_attr(&mut self, id: u64, meta: FileAttr) -> (out: FileAttr)
        requires
            old(self).wf(),
        ensures
            final(self).wf(),
            out == meta.with_fileid_spec(id),
            final(self)@ == if old(self)@.entries.contains_key(id) {
                old(self)@.with_fsmeta(id, out)
            } else {
                old(self)@
            },
            old(self)@.maps_inverse() ==> final(self)@.maps_inverse(),
    {
        proof {
            if self@.maps_inverse() {
                crate::laws::lemma_updates_keep_inverse(
                    self@,
                    id,
                    0,
                    Set::empty(),
                    meta.with_fileid_spec(id),
                    Seq::empty(),
                );
            }
        }
        let ghost before = self@;
        let out = meta.with_fileid(id);
        match self.find_entry_mut(id) {
            Ok(entry) => {
                entry.fsmeta = out;
            },
            Err(_) => {},
        }
        proof {
            if before.entries.contains_key(id) {
                assert(self@ =~= before.with_fsmeta(id, out));
                crate::upkeep::lemma_with_fsmeta_inv(before, id, out);
            }
        }
        out
    }

    /// Replaces the cached attributes of entry `id`.
    pub(crate) fn set_fsmeta(&mut self, id: u64, meta: FileAttr)
        requires
            old(self).wf(),
            old(self)@.entries.contains_key(id),
        ensures
            final(self).wf(),
            final(self)@ == old(self)@.with_fsmeta(id, meta),
    {
        let ghost before = self@;
        match self.take_entry(id) {
            Some(mut entry) => {
                entry.fsmeta = meta;
                self.put_entry(id, entry);
            },
            None => {},
        }
        proof {
            assert(self@ =~= before.with_fsmeta(id, meta));
            crate::upkeep::lemma_with_fsmeta_inv(before, id, meta);
        }
    }

    /// Reconciles entry `id` with what a no-traverse stat of its host path
    /// showed. An entry without host backing is left alone. An entry whose
    /// path is gone from the host, or holds something of another type, is
    /// deleted with its descendants; one whose attributes differ has them
    /// replaced.
    pub fn refresh_entry(&mut self, id: u64, seen: HostStat) -> (out: Result<
        RefreshResult,
        NfsStatus,
    >)
        requires
            old(self).wf(),
        ensures
            final(self).wf(),
            out == old(self)@.refresh_result(id, seen),
            final(self)@ == old(self)@.after_refresh(id, seen),
            old(self)@.maps_inverse() ==> final(self)@.maps_inverse(),
            final(self)@.next_fileid == old(self)@.next_fileid,
    {
        proof {
            if self@.maps_inverse() {
                crate::laws::lemma_refresh_keeps_inverse(self@, id, seen);
            }
        }
        let (resolved, cached) = match self.id_to_path.get(&id) {
            Some(entry) => (self.sym_to_real_path(entry.name.as_slice()).is_some(), entry.fsmeta),
            None => {
                return Err(NfsStatus::NoEnt);
            },
        };
        if !resolved {
            return Ok(RefreshResult::Noop);
        }
        assert(id != 0) by {
            assert(self@.entry_ok(0));
        }
        match seen {
            HostStat::Absent => {
                self.delete_entry(id);
                Ok(RefreshResult::Delete)
            },
            HostStat::Failed => Err(NfsStatus::Io),
            HostStat::Found(meta) => {
                let found = meta.with_fileid(id);
                if !attr_differ(&found, &cached) {
                    Ok(RefreshResult::Noop)
                } else if cached.ftype != found.ftype {
                    self.delete_entry(id);
                    Ok(RefreshResult::Delete)
                } else {
                    self.set_fsmeta(id, found);
                    Ok(RefreshResult::Reload)
                }
            },
        }
    }

    /// Takes in the listed names under the directory `base`: each is interned
    /// and gets an entry. Returns their ids in the order of the listing.
    pub(crate) fn take_in(&mut self, base: &Vec<u32>, items: &Vec<HostDirEntry>) -> (ids: Vec<u64>)
        requires
            old(self).wf(),
            old(self)@.known_path(base@),
            old(self)@.names.len() + items.len() <= u32::MAX,
            old(self)@.next_fileid + items.len() <= u64::MAX,
        ensures
            final(self).wf(),
            final(self)@ == old(self)@.after_listing(base@, listed_view(items@)),
            ids@ == old(self)@.listing_ids(base@, listed_view(items@)),
            forall|k: int| 0 <= k < ids@.len() ==> ids@[k] != 0,
            final(self)@.mounts == old(self)@.mounts,
            forall|x: u64|
                old(self)@.entries.contains_key(x) ==> #[trigger] final(self)@.entries.contains_key(
                    x,
                ) && final(self)@.entries[x].name == old(self)@.entries[x].name,
    {
        let ghost start = self@;
        let ghost all = listed_view(items@);
        let mut ids: Vec<u64> = Vec::new();
        let mut k: usize = 0;
        assert(all.take(0) =~= Seq::<ListedView>::empty());
        while k < items.len()
            invariant
                k <= items.len(),
                all == listed_view(items@),
                self.wf(),
                self@.known_path(base@),
                self@ == start.after_listing(base@, all.take(k as int)),
                ids@ == start.listing_ids(base@, all.take(k as int)),
                forall|j: int| 0 <= j < ids@.len() ==> ids@[j] != 0,
                self@.names.len() <= start.names.len() + k,
                self@.next_fileid <= start.next_fileid + k,
                start.names.len() + items.len() <= u32::MAX,
                start.next_fileid + items.len() <= u64::MAX,
                self@.mounts == start.mounts,
                forall|x: u64|
                    start.entries.contains_key(x) ==> #[trigger] self@.entries.contains_key(x)
                        && self@.entries[x].name == start.entries[x].name,
            decreases items.len() - k,
        {
            let ghost before = self@;
            let ghost item = all[k as int];
            proof {
                assert(item == items@[k as int]@);
                assert(all.take(k + 1).drop_last() =~= all.take(k as int));
                assert(all.take(k + 1).last() == item);
                crate::upkeep::lemma_after_listed_inv(before, base@, item);
                crate::upkeep::lemma_after_intern_inv(before, item.name);
            }
            let sym = self.intern_name(items[k].name.clone());
            let mut path = base.clone();
            path.push(sym);
            assert(path@ =~= base@.push(sym));
            assert(self@.known_path(path@)) by {
                assert forall|j: int| 0 <= j < path@.len() implies self@.knows(
                    #[trigger] path@[j],
                ) by {
                    if j < base@.len() {
                        assert(self@.knows(base@[j]));
                    }
                }
            }
            let id = self.create_entry(&path, items[k].attr);
            ids.push(id);
            proof {
                let after = before.after_listed(base@, item);
                assert(self@ == after);
                assert forall|x: u64| start.entries.contains_key(x) implies #[trigger] self@.entries.contains_key(
                    x,
                ) && self@.entries[x].name == start.entries[x].name by {
                    assert(before.entries.contains_key(x));
                    assert(after.entries.contains_key(x));
                }
            }
            k = k + 1;
        }
        assert(all.take(items.len() as int) =~= all);
        ids
    }

    /// Replaces the children of entry `id` by `ids`, and records the current
    /// attributes as those the children were listed under.
    pub(crate) fn set_children(&mut self, id: u64, ids: &Vec<u64>)
        requires
            old(self).wf(),
            old(self)@.entries.contains_key(id),
            forall|k: int| 0 <= k < ids@.len() ==> ids@[k] != 0,
        ensures
            final(self).wf(),
            final(self)@ == old(self)@.with_children(id, ids@.to_set()),
    {
        let ghost before = self@;
        let mut set: BTreeSet<u64> = BTreeSet::new();
        let mut k: usize = 0;
        assert(ids@.take(0) =~= Seq::<u64>::empty());
        assert(Seq::<u64>::empty().to_set() =~= Set::<u64>::empty());
        while k < ids.len()
            invariant
                k <= ids.len(),
                set@ == ids@.take(k as int).to_set(),
            decreases ids.len() - k,
        {
            insert_id(&mut set, ids[k]);
            proof {
                assert(ids@.take(k + 1) =~= ids@.take(k as int).push(ids@[k as int]));
                ids@.take(k as int).lemma_push_to_set_commute(ids@[k as int]);
            }
            k = k + 1;
        }
        assert(ids@.take(ids.len() as int) =~= ids@);
        match self.take_entry(id) {
            Some(entry) => {
                let FSEntry { name, fsmeta, children_meta, children } = entry;
                self.put_entry(
                    id,
                    FSEntry { name, fsmeta, children_meta: fsmeta, children: Some(set) },
                );
            },
            None => {},
        }
        proof {
            assert(self@ =~= before.with_children(id, ids@.to_set()));
            vstd::seq_lib::seq_to_set_is_finite(ids@);
            assert(!ids@.to_set().contains(0)) by {
                if ids@.to_set().contains(0) {
                    let j = choose|j: int| 0 <= j < ids@.len() && ids@[j] == 0;
                }
            }
            crate::upkeep::lemma_with_children_inv(before, id, ids@.to_set());
        }
    }

    /// The mounts whose source exists, as listed names.
    fn mount_listing(&self, seen: &Vec<Option<FileAttr>>) -> (out: Vec<HostDirEntry>)
        ensures
            listed_view(out@) == self@.mount_items(seen@, self@.mounts.len()),
            out@.len() <= self@.mounts.len(),
    {
        let mut out: Vec<HostDirEntry> = Vec::new();
        let mut i: usize = 0;
        assert(listed_view(out@) =~= self@.mount_items(seen@, 0));
        while i < self.mounts.len()
            invariant
                i <= self.mounts.len(),
                self@.mounts.len() == self.mounts.len(),
                listed_view(out@) == self@.mount_items(seen@, i as nat),
                out@.len() <= i,
            decreases self.mounts.len() - i,
        {
            let ghost before = listed_view(out@);
            if i < seen.len() {
                match seen[i] {
                    Some(attr) => {
                        let name = mount_name(self.mounts[i].0.as_str());
                        out.push(HostDirEntry { name, attr });
                        assert(listed_view(out@) =~= before.push(
                            ListedView { name: self@.mounts[i as int].name, attr },
                        ));
                    },
                    None => {},
                }
            }
            i = i + 1;
        }
        out
    }

    /// Lists the children of entry `id` anew from a scan of the host, unless
    /// the cached list is still good: the entry is no directory, or its
    /// attributes have not changed since it was listed. Under the root the
    /// existing mounts are listed; under any other entry with host backing the
    /// names that the scan read. A scan that broke off gives `Io`, after the
    /// names read so far have been taken in.
    pub fn refresh_dir_list(&mut self, id: u64, scan: &DirScan) -> (out: Result<(), NfsStatus>)
        requires
            old(self).wf(),
            old(self)@.names.len() + scan.entries.len() + old(self)@.mounts.len() <= u32::MAX,
            old(self)@.next_fileid + scan.entries.len() + old(self)@.mounts.len() <= u64::MAX,
        ensures
            final(self).wf(),
            out == old(self)@.dir_list_result(id, scan@),
            final(self)@ == old(self)@.after_dir_list(id, scan@),
            old(self)@.maps_inverse() ==> final(self)@.maps_inverse(),
    {
        proof {
            if self@.maps_inverse() {
                crate::laws::lemma_dir_list_keeps_inverse(self@, id, scan@);
            }
        }
        let ghost before = self@;
        let (base, stale, is_dir) = match self.id_to_path.get(&id) {
            Some(entry) => (
                entry.name.clone(),
                entry.children.is_none() || attr_differ(&entry.children_meta, &entry.fsmeta),
                entry.fsmeta.is_dir(),
            ),
            None => {
                return Err(NfsStatus::NoEnt);
            },
        };
        if !stale || !is_dir {
            return Ok(());
        }
        assert(before.entry_ok(id));
        if base.len() == 0 {
            let items = self.mount_listing(&scan.mounts);
            let ids = self.take_in(&base, &items);
            self.set_children(id, &ids);
            Ok(())
        } else {
            if self.sym_to_real_path(base.as_slice()).is_none() {
                return Ok(());
            }
            let ids = self.take_in(&base, &scan.entries);
            if !scan.complete {
                return Err(NfsStatus::Io);
            }
            self.set_children(id, &ids);
            Ok(())
        }
    }

    /// Deletes the entry `id` and all its descendants from both maps. The
    /// descendants are what the children sets lead to; the root is never among
    /// them.
    pub fn delete_entry(&mut self, id: u64)
        requires
            old(self).wf(),
            id != 0,
        ensures
            final(self).wf(),
            final(self)@ == old(self)@.after_delete(id),
            old(self)@.maps_inverse() ==> final(self)@.maps_inverse(),
            !final(self)@.entries.contains_key(id),
            final(self)@.next_fileid == old(self)@.next_fileid,
    {
        proof {
            crate::upkeep::lemma_reaches_self(self@, id);
            if self@.maps_inverse() {
                crate::laws::lemma_delete_keeps_inverse(self@, id);
            }
        }
        let ghost start = self@;
        let ghost mut gone: Set<u64> = Set::empty();
        let mut work: Vec<u64> = Vec::new();
        work.push(id);
        proof {
            crate::upkeep::lemma_reaches_self(start, id);
            self.lemma_entries_finite();
            assert(work@[0] == id);
            assert(start.names_of(gone) =~= Set::<Seq<u32>>::empty());
            assert(start.entries.remove_keys(gone) =~= start.entries);
            assert(start.paths.remove_keys(start.names_of(gone)) =~= start.paths);
        }
        while work.len() > 0
            invariant
                self.rep_ok(),
                start.entries.dom().finite(),
                start.sweep_inv(id, gone, work@),
                self@ == (FsModel {
                    entries: start.entries.remove_keys(gone),
                    paths: start.paths.remove_keys(start.names_of(gone)),
                    ..start
                }),
            decreases start.entries.dom().len() - gone.len(), work.len(),
        {
            let ghost work_before = work@;
            let ghost gone_before = gone;
            proof {
                vstd::set_lib::lemma_len_subset(gone, start.entries.dom());
            }
            let x = match work.pop() {
                Some(x) => x,
                None => 0,
            };
            assert(work@ =~= work_before.drop_last());
            match self.take_entry(x) {
                Some(entry) => {
                    self.unbind_path(entry.name.as_slice());
                    let mut kids = match &entry.children {
                        Some(c) => set_items(c),
                        None => Vec::new(),
                    };
                    let ghost kid_ids = kids@;
                    work.append(&mut kids);
                    proof {
                        gone = gone_before.insert(x);
                        crate::upkeep::lemma_sweep_found(start, id, gone_before, work_before, kid_ids);
                        vstd::set_lib::lemma_len_subset(gone, start.entries.dom());
                        assert(start.entries.remove_keys(gone_before).remove(x)
                            =~= start.entries.remove_keys(gone));
                        assert(start.paths.remove_keys(start.names_of(gone_before)).remove(
                            entry.name@,
                        ) =~= start.paths.remove_keys(start.names_of(gone)));
                    }
                },
                None => {
                    proof {
                        crate::upkeep::lemma_sweep_missed(start, id, gone_before, work_before);
                    }
                },
            }
        }
        proof {
            assert(work@ =~= Seq::<u64>::empty());
            crate::upkeep::lemma_sweep_done(start, id, gone);
            crate::upkeep::lemma_after_delete_inv(start, id);
        }
    }

    /// The host path of a symbolic path and the read-only flag of its mount;
    /// nothing for the root, for a path under no mount, and for a path with a
    /// component that was never interned.
    pub fn sym_to_real_path(&self, symlist: &[u32]) -> (out: Option<(RealPath<'_>, bool)>)
        ensures
            match out {
                Some((path, read_only)) => self@.resolve(symlist@) == Some((path@, read_only)),
                None => self@.resolve(symlist@) is None,
            },
    {
        if symlist.len() == 0 {
            return None;
        }
        let name = match self.intern.get(symlist[0]) {
            Some(name) => name,
            None => {
                return None;
            },
        };
        let ghost model = self@;
        let mut i: usize = 0;
        while i < self.mounts.len()
            invariant
                i <= self.mounts.len(),
                model == self@,
                symlist@.len() > 0,
                model.knows(symlist@[0]),
                name@ == model.names[symlist@[0] as int],
                forall|j: int| 0 <= j < i ==> (#[trigger] model.mounts[j]).name != name@,
            decreases self.mounts.len() - i,
        {
            if name_matches(self.mounts[i].0.as_str().as_bytes(), name) {
                let mut tail: Vec<Vec<u8>> = Vec::new();
                let mut k: usize = 1;
                while k < symlist.len()
                    invariant
                        1 <= k <= symlist.len(),
                        model == self@,
                        model.knows(symlist@[0]),
                        forall|j: int| 0 <= j < k ==> model.knows(#[trigger] symlist@[j]),
                        tail@.len() == k - 1,
                        forall|j: int|
                            0 <= j < k - 1 ==> (#[trigger] tail@[j])@ == model.names[symlist@[j
                                + 1] as int],
                    decreases symlist.len() - k,
                {
                    match self.intern.get(symlist[k]) {
                        Some(bytes) => {
                            tail.push(slice_to_vec(bytes));
                        },
                        None => {
                            assert(!model.known_path(symlist@));
                            return None;
                        },
                    }
                    k = k + 1;
                }
                proof {
                    assert(model.known_path(symlist@));
                    assert(crate::model::first_mount(model.mounts, name@, i as int));
                    assert(model.resolves(symlist@));
                    let m = model.mount_of(symlist@);
                    assert(m == i);
                    assert(bytes_view(tail@) =~= model.decode(symlist@.skip(1)));
                }
                return Some((RealPath { source: &self.mounts[i].1, tail }, self.mounts[i].2));
            }
            i = i + 1;
        }
        proof {
            assert forall|m: int| !crate::model::first_mount(model.mounts, name@, m) by {
                if 0 <= m < model.mounts.len() {
                    assert(model.mounts[m].name != name@);
                }
            }
        }
        None
    }

    /// The components of a symbolic path as byte strings.
    pub fn sym_to_path(&self, symlist: &[u32]) -> (out: Vec<Vec<u8>>)
        requires
            self@.known_path(symlist@),
        ensures
            bytes_view(out@) == self@.decode(symlist@),
    {
        let mut out: Vec<Vec<u8>> = Vec::new();
        let mut k: usize = 0;
        while k < symlist.len()
            invariant
                k <= symlist.len(),
                self@.known_path(symlist@),
                out@.len() == k,
                forall|j: int|
                    0 <= j < k ==> (#[trigger] out@[j])@ == self@.names[symlist@[j] as int],
            decreases symlist.len() - k,
        {
            assert(self@.knows(symlist@[k as int]));
            match self.intern.get(symlist[k]) {
                Some(bytes) => {
                    out.push(slice_to_vec(bytes));
                },
                None => {},
            }
            k = k + 1;
        }
        assert(bytes_view(out@) =~= self@.decode(symlist@));
        out
    }

    /// The last component of a symbolic path as a byte string; the empty
    /// string for the root.
    pub fn sym_to_fname(&self, symlist: &[u32]) -> (out: Vec<u8>)
        requires
            self@.known_path(symlist@),
        ensures
            out@ == if symlist@.len() == 0 {
                Seq::<u8>::empty()
            } else {
                self@.names[symlist@.last() as int]
            },
    {
        if symlist.len() == 0 {
            return Vec::new();
        }
        assert(self@.knows(symlist@[symlist@.len() - 1]));
        match self.intern.get(symlist[symlist.len() - 1]) {
            Some(bytes) => slice_to_vec(bytes),
            None => Vec::new(),
        }
    }

    /// A copy of the entry for `id`.
    pub fn find_entry(&self, id: u64) -> (out: Result<FSEntry, NfsStatus>)
        ensures
            match out {
                Ok(entry) => self@.entries.contains_key(id) && entry@ == self@.entries[id],
                Err(status) => status == NfsStatus::NoEnt && !self@.entries.contains_key(id),
            },
    {
        match self.id_to_path.get(&id) {
            Some(entry) => Ok(entry.clone()),
            None => Err(NfsStatus::NoEnt),
        }
    }

    /// The entry for `id`, for an update in place. The map holds in the end
    /// what the caller leaves in the entry; it stays well-formed if the caller
    /// keeps the entry's name and puts no 0 among its children.
    pub fn find_entry_mut(&mut self, id: u64) -> (out: Result<&mut FSEntry, NfsStatus>)
        requires
            old(self).wf(),
        ensures
            match out {
                Ok(entry) => {
                    &&& old(self)@.entries.contains_key(id)
                    &&& entry@ == old(self)@.entries[id]
                    &&& final(self)@ == (FsModel {
                        entries: old(self)@.entries.insert(id, final(entry)@),
                        ..old(self)@
                    })
                    &&& final(self).rep_ok()
                },
                Err(status) => {
                    &&& status == NfsStatus::NoEnt
                    &&& !old(self)@.entries.contains_key(id)
                    &&& final(self)@ == old(self)@
                    &&& final(self).wf()
                },
            },
    {
        match entry_mut(&mut self.id_to_path, id) {
            Some(entry) => Ok(entry),
            None => Err(NfsStatus::NoEnt),
        }
    }

    /// The id that the cache holds for `filename` under the entry `id`. The
    /// answer comes from the maps alone: an unknown parent, a name that was
    /// never interned and an unbound path all give `NoEnt`.
    pub fn find_child(&self, id: u64, filename: &[u8]) -> (out: Result<u64, NfsStatus>)
        requires
            self.wf(),
        ensures
            out == match self@.child(id, filename@) {
                Some(child) => Ok::<u64, NfsStatus>(child),
                None => Err(NfsStatus::NoEnt),
            },
    {
        let entry = match self.id_to_path.get(&id) {
            Some(entry) => entry,
            None => {
                return Err(NfsStatus::NoEnt);
            },
        };
        let sym = match self.intern.check_interned(filename) {
            Some(sym) => sym,
            None => {
                return Err(NfsStatus::NoEnt);
            },
        };
        proof {
            self@.names.index_of_first_ensures(filename@);
            assert(self@.names.index_of(filename@) == sym);
        }
        let mut name = entry.name.clone();
        name.push(sym);
        match self.path_to_id.get(name.as_slice()) {
            Some(child) => Ok(child),
            None => Err(NfsStatus::NoEnt),
        }
    }
}

} // verus!
