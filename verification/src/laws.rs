//! Laws of the identifier map and of the operations over it.

use crate::attr::attr_differ_spec;
use crate::attr::FileAttr;
use crate::attr::NfsStatus;
use crate::mirrorfs::read_spec;
use crate::mirrorfs::read_window_spec;
use crate::model::EntryView;
use crate::model::FsModel;
use crate::model::HostStat;
use crate::model::ListedView;
use crate::model::MountView;
use crate::model::RefreshResult;
use crate::model::ScanView;
use crate::model::source_seen;
use vstd::prelude::*;

verus! {

/// A new file id is the counter's value: it is not 0, no entry has it, no
/// path is bound to it or to anything above it, and the counter moves past it.
pub proof fn lemma_new_id_is_fresh(m: FsModel, path: Seq<u32>, meta: FileAttr)
    requires
        m.inv(),
        !m.paths.contains_key(path),
        m.next_fileid < u64::MAX,
    ensures
        m.entry_id(path) == m.next_fileid,
        m.entry_id(path) != 0,
        !m.entries.contains_key(m.entry_id(path)),
        forall|p: Seq<u32>| m.paths.contains_key(p) ==> m.paths[p] < m.entry_id(path),
        forall|x: u64| m.entries.contains_key(x) ==> x < m.entry_id(path),
        m.after_create(path, meta).next_fileid == m.entry_id(path) + 1,
{
    assert forall|x: u64| m.entries.contains_key(x) implies x < m.next_fileid by {
        assert(m.entry_ok(x));
    }
}

/// File ids are handed out in increasing order: an id handed out in a state
/// whose counter is not below the one left by an earlier hand-out is greater
/// than the earlier id.
pub proof fn lemma_ids_increase(
    first: FsModel,
    first_path: Seq<u32>,
    first_meta: FileAttr,
    later: FsModel,
    later_path: Seq<u32>,
)
    requires
        first.next_fileid < u64::MAX,
        !first.paths.contains_key(first_path),
        !later.paths.contains_key(later_path),
        later.next_fileid >= first.after_create(first_path, first_meta).next_fileid,
    ensures
        later.entry_id(later_path) > first.entry_id(first_path),
{
}

/// No operation on the map moves the counter back: creating an entry,
/// deleting one and reconciling one with the host leave it where it was or
/// move it on.
pub proof fn lemma_counter_never_decreases(
    m: FsModel,
    path: Seq<u32>,
    meta: FileAttr,
    id: u64,
    seen: HostStat,
)
    requires
        m.paths.contains_key(path) || m.next_fileid < u64::MAX,
    ensures
        m.after_create(path, meta).next_fileid >= m.next_fileid,
        m.after_delete(id).next_fileid == m.next_fileid,
        m.after_refresh(id, seen).next_fileid == m.next_fileid,
{
}

/// A rename keeps the file id: the new path is bound to the id that the old
/// path was bound to, the old path is bound no more, and the entry under the
/// id carries the new path as its name, with its attributes as they were.
pub proof fn lemma_rename_preserves_identity(m: FsModel, from: Seq<u32>, to: Seq<u32>)
    requires
        m.paths.contains_key(from),
    ensures
        m.rebound(from, to).paths.contains_key(to),
        m.rebound(from, to).paths[to] == m.paths[from],
        from != to ==> !m.rebound(from, to).paths.contains_key(from),
        m.entries.contains_key(m.paths[from]) ==> {
            &&& m.rebound(from, to).entries.contains_key(m.paths[from])
            &&& m.rebound(from, to).entries[m.paths[from]].name == to
            &&& m.rebound(from, to).entries[m.paths[from]].fsmeta == m.entries[m.paths[from]].fsmeta
        },
        m.rebound(from, to).next_fileid == m.next_fileid,
{
}

/// What a rename may replace without harm to the renamed object: where the
/// new path is bound to another id, what goes with that id is neither the
/// renamed object nor one of the two directories, and goes by no name that
/// is the old path.
pub open spec fn replaces_apart(
    m: FsModel,
    from: Seq<u32>,
    to: Seq<u32>,
    from_dirid: u64,
    to_dirid: u64,
) -> bool {
    m.paths.contains_key(to) && m.paths[to] != m.paths[from] ==> {
        &&& !m.doomed(m.paths[to]).contains(m.paths[from])
        &&& !m.doomed(m.paths[to]).contains(from_dirid)
        &&& !m.doomed(m.paths[to]).contains(to_dirid)
        &&& !m.names_of(m.doomed(m.paths[to])).contains(from)
    }
}

/// A committed rename keeps the file id. Where both directories survive
/// their refresh, the new path is bound to the id that the old path was bound
/// to, the old path is bound no more, the entry under the id carries the new
/// path as its name, and the counter stays. Where nothing was bound to the
/// new path, no entry comes or goes. The renamed object must not be one of
/// the directories under another of its names, and what the rename replaces
/// must stand apart from it.
pub proof fn lemma_rename_commit_preserves_identity(
    m: FsModel,
    from_dirid: u64,
    from_name: Seq<u8>,
    to_dirid: u64,
    to_name: Seq<u8>,
    from_seen: HostStat,
    to_seen: HostStat,
)
    requires
        m.inv(),
        m.rename_check(false, from_dirid, from_name, to_dirid, to_name) is Ok,
        m.child(from_dirid, from_name) is Some,
        m.child(from_dirid, from_name) != Some(from_dirid),
        m.child(from_dirid, from_name) != Some(to_dirid),
        m.refresh_result(from_dirid, from_seen) != Ok::<RefreshResult, NfsStatus>(
            RefreshResult::Delete,
        ),
        m.refresh_result(to_dirid, to_seen) != Ok::<RefreshResult, NfsStatus>(
            RefreshResult::Delete,
        ),
        m.can_intern(to_name),
        replaces_apart(
            m,
            m.entries[from_dirid].name.push(m.symbol_of(from_name)),
            m.entries[to_dirid].name.push(m.symbol_of(to_name)),
            from_dirid,
            to_dirid,
        ),
    ensures
        ({
            let after = m.after_rename_commit(
                false,
                from_dirid,
                from_name,
                to_dirid,
                to_name,
                from_seen,
                to_seen,
            );
            let from = m.entries[from_dirid].name.push(m.symbol_of(from_name));
            let to = m.entries[to_dirid].name.push(m.symbol_of(to_name));
            let id = m.paths[from];
            &&& m.child(from_dirid, from_name) == Some(id)
            &&& after.paths.contains_key(to)
            &&& after.paths[to] == id
            &&& after.child(to_dirid, to_name) == Some(id)
            &&& from != to ==> !after.paths.contains_key(from)
            &&& from != to ==> after.child(from_dirid, from_name) is None
            &&& m.entries.contains_key(id) ==> after.entries.contains_key(id)
                && after.entries[id].name == to
            &&& after.next_fileid == m.next_fileid
            &&& !m.paths.contains_key(to) ==> after.entries.dom() == m.entries.dom()
        }),
{
    let from_base = m.entries[from_dirid].name;
    let to_base = m.entries[to_dirid].name;
    assert(m.entry_ok(from_dirid));
    assert(m.entry_ok(to_dirid));
    m.names.index_of_first_ensures(from_name);
    let from = from_base.push(m.symbol_of(from_name));
    let named = m.after_intern(to_name);
    crate::upkeep::lemma_after_intern_inv(m, to_name);
    let to = to_base.push(m.symbol_of(to_name));
    let id = m.paths[from];
    assert(named.known_path(to)) by {
        assert forall|k: int| 0 <= k < to.len() implies named.knows(#[trigger] to[k]) by {
            if k < to_base.len() {
                assert(to[k] == to_base[k]);
                assert(m.knows(to_base[k]));
            }
        }
    }
    let cleared = named.without_replaced(from, to, to_dirid);
    crate::upkeep::lemma_without_replaced_inv(named, from, to, to_dirid);
    if named.paths.contains_key(to) && named.paths[to] != id {
        crate::upkeep::lemma_doomed_by_entries(named, m, named.paths[to]);
    }
    assert(cleared.paths.contains_key(from) && cleared.paths[from] == id);
    assert(cleared.entries.contains_key(from_dirid) && cleared.entries.contains_key(to_dirid));
    assert(m.entries.contains_key(id) ==> cleared.entries.contains_key(id));
    assert(!m.paths.contains_key(to) ==> cleared == named);
    let moved = cleared.after_move(from, to, from_dirid, to_dirid);
    crate::upkeep::lemma_after_move_inv(cleared, from, to, from_dirid, to_dirid);
    assert(moved.paths == cleared.paths.remove(from).insert(to, id));
    assert(moved.entries[from_dirid].name == from_base);
    assert(moved.entries[from_dirid].fsmeta == m.entries[from_dirid].fsmeta);
    assert(moved.entries[to_dirid].name == to_base);
    assert(moved.entries[to_dirid].fsmeta == m.entries[to_dirid].fsmeta);
    assert(m.entries.contains_key(id) ==> moved.entries[id].name == to);
    lemma_resolves_kept(m, moved, from_base);
    lemma_resolves_kept(m, moved, to_base);
    assert(moved.refresh_result(from_dirid, from_seen) == m.refresh_result(from_dirid, from_seen));
    let first = moved.after_refresh(from_dirid, from_seen);
    assert(first.paths == moved.paths);
    assert(first.entries.dom() =~= moved.entries.dom());
    if to_dirid != from_dirid {
        lemma_resolves_kept(m, first, to_base);
        assert(first.entries[to_dirid].name == to_base);
        assert(first.entries[to_dirid].fsmeta == m.entries[to_dirid].fsmeta);
        assert(first.refresh_result(to_dirid, to_seen) == m.refresh_result(to_dirid, to_seen));
        let second = first.after_refresh(to_dirid, to_seen);
        assert(second.paths == first.paths);
        assert(second.entries.dom() =~= first.entries.dom());
    }
    let after = m.after_rename_commit(
        false,
        from_dirid,
        from_name,
        to_dirid,
        to_name,
        from_seen,
        to_seen,
    );
    assert(after.paths == moved.paths);
    assert(after.names == named.names);
    assert(after.entries[to_dirid].name == to_base);
    assert(after.entries[from_dirid].name == from_base);
    assert(from != to ==> after.child(from_dirid, from_name) is None) by {
        assert(after.names.index_of(from_name) == m.names.index_of(from_name));
    }
}

/// A path that resolves keeps resolving where the mounts are the same and
/// the names have only grown.
pub proof fn lemma_resolves_kept(m: FsModel, n: FsModel, path: Seq<u32>)
    requires
        m.resolves(path),
        n.mounts == m.mounts,
        m.names.len() <= n.names.len(),
        forall|i: int| 0 <= i < m.names.len() ==> n.names[i] == m.names[i],
    ensures
        n.resolves(path),
        n.resolve(path)->Some_0.1 == m.resolve(path)->Some_0.1,
{
    let i = m.mount_of(path);
    assert(m.knows(path[0]));
    assert forall|k: int| 0 <= k < path.len() implies n.knows(#[trigger] path[k]) by {
        assert(m.knows(path[k]));
    }
    assert(crate::model::first_mount(n.mounts, n.names[path[0] as int], i));
    let j = n.mount_of(path);
    assert(j == i);
}

/// After a hard link the new path and every path that was bound to the
/// file's id are bound to that one id; no id is handed out, no entry comes
/// or goes, and the directory, if it is listed, lists the id.
pub proof fn lemma_link_aliases(m: FsModel, fileid: u64, linkdirid: u64, name: Seq<u8>)
    requires
        m.inv(),
        m.link_check(false, fileid, linkdirid, name) is Ok,
        m.can_intern(name),
    ensures
        ({
            let after = m.after_link_commit(false, fileid, linkdirid, name);
            let link = m.entries[linkdirid].name.push(m.symbol_of(name));
            &&& after.paths.contains_key(link)
            &&& after.paths[link] == fileid
            &&& after.child(linkdirid, name) == Some(fileid)
            &&& forall|p: Seq<u32>|
                m.paths.contains_key(p) && m.paths[p] == fileid ==> after.paths.contains_key(p)
                    && after.paths[p] == fileid
            &&& after.next_fileid == m.next_fileid
            &&& after.entries.dom() == m.entries.dom()
            &&& after.entries[fileid].name == m.entries[fileid].name
            &&& m.entries[linkdirid].children matches Some(listed)
                ==> after.entries[linkdirid].children == Some(listed.insert(fileid))
            &&& m.entries[linkdirid].children is None
                ==> after.entries[linkdirid].children is None
        }),
{
    let after = m.after_link_commit(false, fileid, linkdirid, name);
    let named = m.after_intern(name);
    crate::upkeep::lemma_after_intern_inv(m, name);
    assert(after.entries.dom() =~= m.entries.dom());
}

/// On a read-only server every modifying operation is refused with `RoFs`,
/// and committing it changes nothing in the map.
pub proof fn lemma_read_only_server_refuses(
    m: FsModel,
    id: u64,
    other: u64,
    name: Seq<u8>,
    other_name: Seq<u8>,
    seen: HostStat,
    other_seen: HostStat,
    unbacked: NfsStatus,
)
    ensures
        m.write_target(true, id, unbacked) == Err::<crate::model::HostPathView, NfsStatus>(
            NfsStatus::RoFs,
        ),
        m.child_target(true, id, name) == Err::<crate::model::HostPathView, NfsStatus>(
            NfsStatus::RoFs,
        ),
        m.rename_check(true, id, name, other, other_name) == Err::<
            crate::ops::RenamePathsView,
            NfsStatus,
        >(NfsStatus::RoFs),
        m.link_check(true, id, other, name) == Err::<crate::ops::LinkPathsView, NfsStatus>(
            NfsStatus::RoFs,
        ),
        m.after_create_commit(true, id, name, seen, other_seen) == m,
        m.after_remove_commit(true, id, name, seen) == m,
        m.after_rename_commit(true, id, name, other, other_name, seen, other_seen) == m,
        m.after_link_commit(true, id, other, name) == m,
        m.create_commit_result(true, id, name, seen, other_seen) == Err::<
            (u64, FileAttr),
            NfsStatus,
        >(NfsStatus::RoFs),
{
}

/// Under a read-only mount every modifying operation on an entry with host
/// backing is refused with `RoFs`, and committing it changes nothing in the
/// map. For a rename either directory's mount refuses; for a hard link the
/// mount of the new name's directory does.
pub proof fn lemma_read_only_mount_refuses(
    m: FsModel,
    read_only: bool,
    id: u64,
    other: u64,
    name: Seq<u8>,
    other_name: Seq<u8>,
    seen: HostStat,
    other_seen: HostStat,
    unbacked: NfsStatus,
)
    requires
        m.entry_path(id) matches Some((_, mount_read_only)) && mount_read_only,
    ensures
        m.write_target(read_only, id, unbacked) == Err::<crate::model::HostPathView, NfsStatus>(
            NfsStatus::RoFs,
        ),
        m.child_target(read_only, id, name) == Err::<crate::model::HostPathView, NfsStatus>(
            NfsStatus::RoFs,
        ),
        m.after_create_commit(read_only, id, name, seen, other_seen) == m,
        m.after_remove_commit(read_only, id, name, seen) == m,
        m.entry_path(other) is Some ==> {
            &&& m.rename_check(read_only, id, name, other, other_name) == Err::<
                crate::ops::RenamePathsView,
                NfsStatus,
            >(NfsStatus::RoFs)
            &&& m.rename_check(read_only, other, other_name, id, name) == Err::<
                crate::ops::RenamePathsView,
                NfsStatus,
            >(NfsStatus::RoFs)
            &&& m.after_rename_commit(read_only, id, name, other, other_name, seen, other_seen)
                == m
            &&& m.after_rename_commit(read_only, other, other_name, id, name, other_seen, seen)
                == m
            &&& m.link_check(read_only, other, id, name) == Err::<
                crate::ops::LinkPathsView,
                NfsStatus,
            >(NfsStatus::RoFs)
            &&& m.after_link_commit(read_only, other, id, name) == m
        },
{
}

/// A refresh converges: afterwards the entry is gone, or its attributes do
/// not differ from what the host showed. Asking for the attributes then
/// gives `NoEnt` in the first case and attributes that reflect the host in
/// the second.
pub proof fn lemma_refresh_converges(m: FsModel, id: u64, meta: FileAttr)
    requires
        m.inv(),
        m.entries.contains_key(id),
        m.resolves(m.entries[id].name),
    ensures
        ({
            let seen = HostStat::Found(meta);
            let after = m.after_refresh(id, seen);
            match m.refresh_result(id, seen) {
                Ok(RefreshResult::Delete) => {
                    &&& !after.entries.contains_key(id)
                    &&& m.getattr_result(id, seen) == Err::<FileAttr, NfsStatus>(NfsStatus::NoEnt)
                },
                Ok(_) => {
                    &&& after.entries.contains_key(id)
                    &&& !attr_differ_spec(meta.with_fileid_spec(id), after.entries[id].fsmeta)
                    &&& m.getattr_result(id, seen) == Ok::<FileAttr, NfsStatus>(
                        after.entries[id].fsmeta,
                    )
                },
                Err(_) => false,
            }
        }),
        !m.after_refresh(id, HostStat::Absent).entries.contains_key(id),
        m.getattr_result(id, HostStat::Absent) == Err::<FileAttr, NfsStatus>(NfsStatus::NoEnt),
{
    crate::upkeep::lemma_reaches_self(m, id);
    assert(m.doomed(id).contains(id));
}

/// Two reads, the second starting where the first ended, return between
/// them the bytes from the first offset to the end of the second, as far as
/// the file reaches; taken one after the other they reconstruct the file from
/// the first offset on. A read reports the end of the file exactly when its
/// end reaches the file's length.
pub proof fn lemma_read_round_trip(content: Seq<u8>, offset: u64, count: u32, next_count: u32)
    requires
        content.len() <= u64::MAX,
        offset + count <= u64::MAX,
    ensures
        ({
            let len = content.len() as u64;
            let first = read_spec(content, offset, count);
            let second = read_spec(content, (offset + count) as u64, next_count);
            let start = read_window_spec(offset, count, len).start;
            let end = read_window_spec((offset + count) as u64, next_count, len).end;
            &&& first.0 + second.0 == content.subrange(start as int, end as int)
            &&& first.1 == (offset + count >= len)
            &&& second.1 ==> first.0 + second.0 == content.subrange(start as int, len as int)
            &&& offset <= len ==> start == offset
        }),
{
    let len = content.len() as u64;
    let first = read_spec(content, offset, count);
    let second = read_spec(content, (offset + count) as u64, next_count);
    let w1 = read_window_spec(offset, count, len);
    let w2 = read_window_spec((offset + count) as u64, next_count, len);
    assert(w1.end == w2.start);
    assert(first.0 + second.0 =~= content.subrange(w1.start as int, w2.end as int));
}

/// Whether no two mounts have the same name.
pub open spec fn distinct_names(mounts: Seq<MountView>) -> bool {
    forall|i: int, j: int|
        0 <= i < mounts.len() && 0 <= j < mounts.len() && i != j ==> mounts[i].name
            != mounts[j].name
}

/// The ids from `lo` up to and including `hi`.
pub open spec fn id_range(lo: int, hi: int) -> Set<u64> {
    Set::new(|x: u64| lo <= x <= hi)
}

/// What a map looks like that was made with mounts of distinct names, after
/// the nodes of the first `n` mounts have been added: mount `j` has the symbol
/// `j` and the file id `j + 1`, its node is bound to the path of that one
/// symbol, and the root lists exactly the ids of the mounts.
pub open spec fn mounted_shape(m: FsModel, metas: Seq<FileAttr>, n: nat) -> bool {
    &&& m.next_fileid == n + 1
    &&& m.names == Seq::new(n, |j: int| m.mounts[j].name)
    &&& m.entries.dom() == id_range(0, n as int)
    &&& m.entries[0].name == Seq::<u32>::empty()
    &&& m.entries[0].children == Some(id_range(1, n as int))
    &&& forall|j: int|
        0 <= j < n ==> #[trigger] m.entries[(j + 1) as u64] == (EntryView {
            name: seq![j as u32],
            fsmeta: metas[j].with_fileid_spec((j + 1) as u64),
            children_meta: metas[j].with_fileid_spec((j + 1) as u64),
            children: None,
        })
    &&& m.paths.dom() == Set::new(|p: Seq<u32>| p.len() == 0 || (p.len() == 1 && p[0] < n))
    &&& m.paths[Seq::<u32>::empty()] == 0
    &&& forall|j: int| 0 <= j < n ==> #[trigger] m.paths[seq![j as u32]] == j + 1
}

/// A map made with mounts of distinct names has the shape that
/// [`mounted_shape`] describes.
pub proof fn lemma_mounted_shape(
    mounts: Seq<MountView>,
    root_meta: FileAttr,
    metas: Seq<FileAttr>,
    n: nat,
)
    requires
        n <= mounts.len(),
        mounts.len() == metas.len(),
        mounts.len() < u32::MAX,
        distinct_names(mounts),
    ensures
        mounted_shape(FsModel::initial(mounts, root_meta).after_mounts(metas, n), metas, n),
        FsModel::initial(mounts, root_meta).after_mounts(metas, n).mounts == mounts,
    decreases n,
{
    let init = FsModel::initial(mounts, root_meta);
    let m = init.after_mounts(metas, n);
    if n == 0 {
        assert(m.names =~= Seq::new(0, |j: int| m.mounts[j].name));
        assert(m.entries.dom() =~= id_range(0, 0));
        assert(m.entries[0].children->Some_0 =~= id_range(1, 0));
        assert(m.paths.dom() =~= Set::new(
            |p: Seq<u32>| p.len() == 0 || (p.len() == 1 && p[0] < 0),
        )) by {
            assert forall|p: Seq<u32>| m.paths.contains_key(p) implies p.len() == 0 by {
                assert(p == Seq::<u32>::empty());
            }
            assert forall|p: Seq<u32>| p.len() == 0 implies m.paths.contains_key(p) by {
                assert(p =~= Seq::<u32>::empty());
            }
        }
    } else {
        let k = (n - 1) as nat;
        let b = init.after_mounts(metas, k);
        lemma_mounted_shape(mounts, root_meta, metas, k);
        let name = mounts[k as int].name;
        assert(!b.names.contains(name)) by {
            if b.names.contains(name) {
                let i = choose|i: int| 0 <= i < b.names.len() && b.names[i] == name;
                assert(mounts[i].name == mounts[k as int].name);
            }
        }
        assert(b.symbol_of(name) == k);
        let path = seq![k as u32];
        assert(m == b.after_mount(name, metas[k as int]));
        assert(m.names =~= Seq::new(n, |j: int| m.mounts[j].name));
        assert(m.entries.dom() =~= id_range(0, n as int));
        assert(m.entries[0].children->Some_0 =~= id_range(1, n as int));
        assert forall|j: int| 0 <= j < n implies #[trigger] m.entries[(j + 1) as u64] == (EntryView {
            name: seq![j as u32],
            fsmeta: metas[j].with_fileid_spec((j + 1) as u64),
            children_meta: metas[j].with_fileid_spec((j + 1) as u64),
            children: None,
        }) by {
            if j < k {
                assert(b.entries[(j + 1) as u64] == m.entries[(j + 1) as u64]);
            }
        }
        assert(m.paths.dom() =~= Set::new(
            |p: Seq<u32>| p.len() == 0 || (p.len() == 1 && p[0] < n),
        )) by {
            assert forall|p: Seq<u32>|
                p.len() == 0 || (p.len() == 1 && p[0] < n) implies m.paths.contains_key(p) by {
                if p.len() == 1 && p[0] == k {
                    assert(p =~= path);
                } else {
                    assert(b.paths.dom().contains(p));
                }
            }
            assert forall|p: Seq<u32>| m.paths.contains_key(p) implies p.len() == 0 || (p.len()
                == 1 && p[0] < n) by {
                if p != path {
                    assert(b.paths.dom().contains(p));
                }
            }
        }
        assert(path != Seq::<u32>::empty()) by {
            assert(path.len() == 1);
        }
        assert forall|j: int| 0 <= j < n implies #[trigger] m.paths[seq![j as u32]] == j + 1 by {
            if j < k {
                assert(seq![j as u32] != path) by {
                    assert(seq![j as u32][0] != path[0]);
                }
                assert(b.paths[seq![j as u32]] == j + 1);
            }
        }
    }
}

/// In a map made with mounts of distinct names the two maps are mutual
/// inverses, and the root lists exactly the ids that the mounts' paths are
/// bound to.
pub proof fn lemma_mounted_inverse(
    mounts: Seq<MountView>,
    root_meta: FileAttr,
    metas: Seq<FileAttr>,
)
    requires
        mounts.len() == metas.len(),
        mounts.len() < u32::MAX,
        distinct_names(mounts),
    ensures
        FsModel::initial(mounts, root_meta).after_mounts(metas, mounts.len()).maps_inverse(),
        ({
            let m = FsModel::initial(mounts, root_meta).after_mounts(metas, mounts.len());
            &&& m.entries[0].children is Some
            &&& forall|x: u64|
                m.entries[0].children->Some_0.contains(x) <==> exists|j: int|
                    0 <= j < mounts.len() && #[trigger] m.paths[seq![m.symbol_of(mounts[j].name)]]
                        == x
        }),
{
    let n = mounts.len();
    let m = FsModel::initial(mounts, root_meta).after_mounts(metas, n);
    lemma_mounted_shape(mounts, root_meta, metas, n);
    assert forall|id: u64| #[trigger] m.entries.contains_key(id) implies m.paths.contains_key(
        m.entries[id].name,
    ) && m.paths[m.entries[id].name] == id by {
        assert(m.entries.dom().contains(id));
        if id != 0 {
            let j = id - 1;
            assert(m.entries[(j + 1) as u64].name == seq![j as u32]);
            assert(m.paths.dom().contains(seq![j as u32]));
            assert(m.paths[seq![j as u32]] == j + 1);
        } else {
            assert(m.paths.dom().contains(Seq::<u32>::empty()));
        }
    }
    assert forall|p: Seq<u32>| #[trigger] m.paths.contains_key(p) implies m.entries.contains_key(
        m.paths[p],
    ) && m.entries[m.paths[p]].name == p by {
        assert(m.paths.dom().contains(p));
        if p.len() == 0 {
            assert(p =~= Seq::<u32>::empty());
            assert(m.entries.dom().contains(0));
        } else {
            let j = p[0] as int;
            assert(p =~= seq![j as u32]);
            assert(m.paths[seq![j as u32]] == j + 1);
            assert(m.entries.dom().contains((j + 1) as u64));
            assert(m.entries[(j + 1) as u64].name == seq![j as u32]);
        }
    }
    assert forall|j: int| 0 <= j < n implies m.symbol_of(#[trigger] mounts[j].name) == j by {
        assert(m.names[j] == mounts[j].name);
        m.names.index_of_first_ensures(mounts[j].name);
        let i = m.names.index_of(mounts[j].name);
        assert(m.names[i] == m.mounts[i].name);
    }
    assert forall|x: u64|
        m.entries[0].children->Some_0.contains(x) <==> exists|j: int|
            0 <= j < mounts.len() && #[trigger] m.paths[seq![m.symbol_of(mounts[j].name)]]
                == x by {
        if m.entries[0].children->Some_0.contains(x) {
            let j = x - 1;
            assert(m.symbol_of(mounts[j].name) == j);
            assert(m.paths[seq![j as u32]] == j + 1);
            assert(m.paths[seq![m.symbol_of(mounts[j].name)]] == x);
        }
        if exists|j: int|
            0 <= j < mounts.len() && #[trigger] m.paths[seq![m.symbol_of(mounts[j].name)]] == x {
            let j = choose|j: int|
                0 <= j < mounts.len() && #[trigger] m.paths[seq![m.symbol_of(mounts[j].name)]]
                    == x;
            assert(m.symbol_of(mounts[j].name) == j);
            assert(m.paths[seq![j as u32]] == j + 1);
        }
    }
}

/// Creating an entry keeps the two maps mutual inverses.
pub proof fn lemma_create_keeps_inverse(m: FsModel, path: Seq<u32>, meta: FileAttr)
    requires
        m.inv(),
        m.maps_inverse(),
        m.paths.contains_key(path) || m.next_fileid < u64::MAX,
    ensures
        m.after_create(path, meta).maps_inverse(),
{
    let n = m.after_create(path, meta);
    if !m.paths.contains_key(path) {
        let id = m.next_fileid;
        assert(!m.entries.contains_key(id)) by {
            if m.entries.contains_key(id) {
                assert(m.entry_ok(id));
            }
        }
        assert forall|x: u64| #[trigger] n.entries.contains_key(x) implies n.paths.contains_key(
            n.entries[x].name,
        ) && n.paths[n.entries[x].name] == x by {
            if x != id {
                assert(m.entries.contains_key(x));
            }
        }
        assert forall|p: Seq<u32>| #[trigger] n.paths.contains_key(p) implies n.entries.contains_key(
            n.paths[p],
        ) && n.entries[n.paths[p]].name == p by {
            if p != path {
                assert(m.paths.contains_key(p));
            }
        }
    } else {
        assert forall|x: u64| #[trigger] n.entries.contains_key(x) implies n.paths.contains_key(
            n.entries[x].name,
        ) && n.paths[n.entries[x].name] == x by {
            assert(m.entries.contains_key(x));
        }
    }
}

/// Deleting an entry with its descendants keeps the two maps mutual
/// inverses.
pub proof fn lemma_delete_keeps_inverse(m: FsModel, id: u64)
    requires
        m.maps_inverse(),
    ensures
        m.after_delete(id).maps_inverse(),
{
    let n = m.after_delete(id);
    let gone = m.doomed(id);
    assert forall|x: u64| #[trigger] n.entries.contains_key(x) implies n.paths.contains_key(
        n.entries[x].name,
    ) && n.paths[n.entries[x].name] == x by {
        assert(m.entries.contains_key(x));
        let p = m.entries[x].name;
        if m.names_of(gone).contains(p) {
            let y = choose|y: u64|
                gone.contains(y) && m.entries.contains_key(y) && #[trigger] m.entries[y].name == p;
            assert(m.paths[m.entries[y].name] == y);
        }
    }
    assert forall|p: Seq<u32>| #[trigger] n.paths.contains_key(p) implies n.entries.contains_key(
        n.paths[p],
    ) && n.entries[n.paths[p]].name == p by {
        assert(m.paths.contains_key(p));
        let x = m.paths[p];
        if gone.contains(x) {
            assert(m.entries[x].name == p);
            assert(m.names_of(gone).contains(p));
        }
    }
}

/// Reconciling an entry with the host keeps the two maps mutual inverses.
pub proof fn lemma_refresh_keeps_inverse(m: FsModel, id: u64, seen: HostStat)
    requires
        m.maps_inverse(),
    ensures
        m.after_refresh(id, seen).maps_inverse(),
{
    let n = m.after_refresh(id, seen);
    match m.refresh_result(id, seen) {
        Ok(RefreshResult::Delete) => {
            lemma_delete_keeps_inverse(m, id);
        },
        Ok(RefreshResult::Reload) => {
            assert forall|x: u64| #[trigger] n.entries.contains_key(x) implies n.paths.contains_key(
                n.entries[x].name,
            ) && n.paths[n.entries[x].name] == x by {
                assert(m.entries.contains_key(x));
            }
        },
        _ => {},
    }
}

/// Taking in a listing keeps the invariant and keeps the two maps mutual
/// inverses.
pub proof fn lemma_listing_keeps_inverse(m: FsModel, base: Seq<u32>, items: Seq<ListedView>)
    requires
        m.inv(),
        m.maps_inverse(),
        m.known_path(base),
        m.names.len() + items.len() <= u32::MAX,
        m.next_fileid + items.len() <= u64::MAX,
    ensures
        m.after_listing(base, items).inv(),
        m.after_listing(base, items).maps_inverse(),
        m.after_listing(base, items).known_path(base),
        m.after_listing(base, items).names.len() <= m.names.len() + items.len(),
        m.after_listing(base, items).next_fileid <= m.next_fileid + items.len(),
        m.after_listing(base, items).mounts == m.mounts,
        forall|x: u64|
            m.entries.contains_key(x) ==> #[trigger] m.after_listing(
                base,
                items,
            ).entries.contains_key(x) && m.after_listing(base, items).entries[x].name
                == m.entries[x].name,
    decreases items.len(),
{
    if items.len() > 0 {
        let front = items.drop_last();
        let item = items.last();
        lemma_listing_keeps_inverse(m, base, front);
        let b = m.after_listing(base, front);
        crate::upkeep::lemma_after_listed_inv(b, base, item);
        crate::upkeep::lemma_after_intern_inv(b, item.name);
        let i = b.after_intern(item.name);
        let path = base.push(b.symbol_of(item.name));
        assert(i.maps_inverse());
        lemma_create_keeps_inverse(i, path, item.attr);
        assert forall|x: u64| m.entries.contains_key(x) implies #[trigger] m.after_listing(
            base,
            items,
        ).entries.contains_key(x) && m.after_listing(base, items).entries[x].name
            == m.entries[x].name by {
            assert(b.entries.contains_key(x));
        }
    }
}

/// Listing the children of an entry keeps the two maps mutual inverses.
pub proof fn lemma_dir_list_keeps_inverse(m: FsModel, id: u64, scan: ScanView)
    requires
        m.inv(),
        m.maps_inverse(),
        m.names.len() + scan.entries.len() + m.mounts.len() <= u32::MAX,
        m.next_fileid + scan.entries.len() + m.mounts.len() <= u64::MAX,
    ensures
        m.after_dir_list(id, scan).maps_inverse(),
{
    if m.takes_listing(id) {
        let base = m.entries[id].name;
        let items = m.scan_items(id, scan);
        assert(m.entry_ok(id));
        lemma_mount_items_len(m, scan.mounts, m.mounts.len());
        lemma_listing_keeps_inverse(m, base, items);
        let listed = m.after_listing(base, items);
        let ids = m.listing_ids(base, items).to_set();
        let n = listed.with_children(id, ids);
        assert forall|x: u64| #[trigger] n.entries.contains_key(x) implies n.paths.contains_key(
            n.entries[x].name,
        ) && n.paths[n.entries[x].name] == x by {
            assert(listed.entries.contains_key(x));
        }
    }
}

/// No more mounts are listed than there are.
pub proof fn lemma_mount_items_len(m: FsModel, seen: Seq<Option<FileAttr>>, n: nat)
    ensures
        m.mount_items(seen, n).len() <= n,
    decreases n,
{
    if n > 0 {
        lemma_mount_items_len(m, seen, (n - 1) as nat);
    }
}

/// Removing a name keeps the two maps mutual inverses: the entry and its
/// path go together.
pub proof fn lemma_forget_keeps_inverse(m: FsModel, path: Seq<u32>)
    requires
        m.maps_inverse(),
        m.paths.contains_key(path),
    ensures
        m.forget(m.paths[path], path).maps_inverse(),
{
    let id = m.paths[path];
    let n = m.forget(id, path);
    assert forall|x: u64| #[trigger] n.entries.contains_key(x) implies n.paths.contains_key(
        n.entries[x].name,
    ) && n.paths[n.entries[x].name] == x by {
        assert(m.entries.contains_key(x));
    }
    assert forall|p: Seq<u32>| #[trigger] n.paths.contains_key(p) implies n.entries.contains_key(
        n.paths[p],
    ) && n.entries[n.paths[p]].name == p by {
        assert(m.paths.contains_key(p));
    }
}

/// A rename to a path that is not bound, or onto itself, keeps the two maps
/// mutual inverses.
pub proof fn lemma_rebound_keeps_inverse(m: FsModel, from: Seq<u32>, to: Seq<u32>)
    requires
        m.maps_inverse(),
        m.paths.contains_key(from),
        !m.paths.contains_key(to) || to == from,
    ensures
        m.rebound(from, to).maps_inverse(),
{
    let id = m.paths[from];
    let n = m.rebound(from, to);
    assert(m.entries.contains_key(id) && m.entries[id].name == from);
    assert forall|x: u64| #[trigger] n.entries.contains_key(x) implies n.paths.contains_key(
        n.entries[x].name,
    ) && n.paths[n.entries[x].name] == x by {
        assert(m.entries.contains_key(x));
    }
    assert forall|p: Seq<u32>| #[trigger] n.paths.contains_key(p) implies n.entries.contains_key(
        n.paths[p],
    ) && n.entries[n.paths[p]].name == p by {
        if p != to {
            assert(m.paths.contains_key(p));
        }
    }
}

/// What changes only the children or the attributes of entries, or the
/// interned names, keeps the two maps mutual inverses.
pub proof fn lemma_updates_keep_inverse(
    m: FsModel,
    dir: u64,
    child: u64,
    children: Set<u64>,
    meta: FileAttr,
    bytes: Seq<u8>,
)
    requires
        m.maps_inverse(),
    ensures
        m.with_child(dir, child).maps_inverse(),
        m.without_child(dir, child).maps_inverse(),
        m.entries.contains_key(dir) ==> m.with_children(dir, children).maps_inverse(),
        m.entries.contains_key(dir) ==> m.with_fsmeta(dir, meta).maps_inverse(),
        m.after_intern(bytes).maps_inverse(),
{
    let a = m.with_child(dir, child);
    assert forall|x: u64| #[trigger] a.entries.contains_key(x) implies a.paths.contains_key(
        a.entries[x].name,
    ) && a.paths[a.entries[x].name] == x by {
        assert(m.entries.contains_key(x));
    }
    let b = m.without_child(dir, child);
    assert forall|x: u64| #[trigger] b.entries.contains_key(x) implies b.paths.contains_key(
        b.entries[x].name,
    ) && b.paths[b.entries[x].name] == x by {
        assert(m.entries.contains_key(x));
    }
    if m.entries.contains_key(dir) {
        let c = m.with_children(dir, children);
        assert forall|x: u64| #[trigger] c.entries.contains_key(x) implies c.paths.contains_key(
            c.entries[x].name,
        ) && c.paths[c.entries[x].name] == x by {
            assert(m.entries.contains_key(x));
        }
        let d = m.with_fsmeta(dir, meta);
        assert forall|x: u64| #[trigger] d.entries.contains_key(x) implies d.paths.contains_key(
            d.entries[x].name,
        ) && d.paths[d.entries[x].name] == x by {
            assert(m.entries.contains_key(x));
        }
    }
}

/// The root stays as it is listed: creating or refreshing an entry, deleting
/// one other than the root, and taking in a listing leave the root's name and
/// its children as they were.
pub proof fn lemma_root_children_kept(
    m: FsModel,
    path: Seq<u32>,
    meta: FileAttr,
    id: u64,
    seen: HostStat,
)
    requires
        m.inv(),
        id != 0,
    ensures
        m.after_create(path, meta).entries[0].children == m.entries[0].children,
        m.after_create(path, meta).entries[0].name == m.entries[0].name,
        m.after_delete(id).entries.contains_key(0),
        m.after_delete(id).entries[0] == m.entries[0],
        m.after_refresh(id, seen).entries.contains_key(0),
        m.after_refresh(id, seen).entries[0] == m.entries[0],
        m.after_refresh(0, seen) == m,
{
    assert(m.entry_ok(0));
    crate::upkeep::lemma_root_unreached(m, id);
    if m.paths.contains_key(path) {
    } else {
        assert(!m.entries.contains_key(m.next_fileid)) by {
            if m.entries.contains_key(m.next_fileid) {
                assert(m.entry_ok(m.next_fileid));
            }
        }
    }
    assert(!m.resolves(m.entries[0].name));
}

/// The committed operations leave the root as it is listed: none of them
/// adds to the root's children or takes from them, as the root has no host
/// backing.
pub proof fn lemma_commits_keep_root(
    m: FsModel,
    read_only: bool,
    dirid: u64,
    name: Seq<u8>,
    other: u64,
    other_name: Seq<u8>,
    seen: HostStat,
    other_seen: HostStat,
)
    requires
        m.inv(),
        m.can_intern(name),
        m.after_intern(name).can_intern(other_name),
        m.next_fileid < u64::MAX,
    ensures
        m.after_remove_commit(read_only, dirid, name, seen).entries.contains_key(0),
        m.after_remove_commit(read_only, dirid, name, seen).entries[0].children
            == m.entries[0].children,
        m.after_link_commit(read_only, other, dirid, name).entries.contains_key(0),
        m.after_link_commit(read_only, other, dirid, name).entries[0].children
            == m.entries[0].children,
{
    assert(m.entry_ok(0));
    assert(!m.resolves(m.entries[0].name));
    crate::upkeep::lemma_after_intern_inv(m, name);
    if m.child_target(read_only, dirid, name) is Ok {
        assert(dirid != 0);
        assert(m.entry_ok(dirid));
        let path = m.entries[dirid].name.push(m.symbol_of(name));
        let named = m.after_intern(name);
        let dropped = if named.paths.contains_key(path) {
            named.forget(named.paths[path], path).without_child(dirid, named.paths[path])
        } else {
            named
        };
        if named.paths.contains_key(path) {
            assert(path.len() > 0);
            assert(named.paths[path] != 0);
            crate::upkeep::lemma_forget_inv(named, named.paths[path], path);
            crate::upkeep::lemma_without_child_inv(
                named.forget(named.paths[path], path),
                dirid,
                named.paths[path],
            );
        }
        assert(dropped.inv());
        assert(dropped.entries[0] == m.entries[0]);
        lemma_root_children_kept(dropped, path, seen->Found_0, dirid, seen);
    }
    if m.link_check(read_only, other, dirid, name) is Ok {
        assert(dirid != 0);
    }
}

/// Reconciling an entry with the host keeps the invariant of the map.
pub proof fn lemma_refresh_keeps_inv(m: FsModel, id: u64, seen: HostStat)
    requires
        m.inv(),
    ensures
        m.after_refresh(id, seen).inv(),
        m.after_refresh(id, seen).names == m.names,
        m.after_refresh(id, seen).next_fileid == m.next_fileid,
{
    match m.refresh_result(id, seen) {
        Ok(RefreshResult::Delete) => {
            assert(m.entry_ok(0));
            assert(id != 0);
            crate::upkeep::lemma_after_delete_inv(m, id);
        },
        Ok(RefreshResult::Reload) => {
            crate::upkeep::lemma_with_fsmeta_inv(m, id, seen->Found_0.with_fileid_spec(id));
        },
        _ => {},
    }
}

/// A committed creation keeps the two maps mutual inverses.
pub proof fn lemma_create_commit_keeps_inverse(
    m: FsModel,
    read_only: bool,
    dirid: u64,
    name: Seq<u8>,
    dir_seen: HostStat,
    child: HostStat,
)
    requires
        m.inv(),
        m.maps_inverse(),
        m.can_intern(name),
        m.next_fileid < u64::MAX,
    ensures
        m.after_create_commit(read_only, dirid, name, dir_seen, child).maps_inverse(),
{
    if m.child_target(read_only, dirid, name) is Ok {
        let path = m.entries[dirid].name.push(m.symbol_of(name));
        let refreshed = m.after_refresh(dirid, dir_seen);
        lemma_refresh_keeps_inv(m, dirid, dir_seen);
        lemma_refresh_keeps_inverse(m, dirid, dir_seen);
        let named = refreshed.after_intern(name);
        crate::upkeep::lemma_after_intern_inv(refreshed, name);
        lemma_updates_keep_inverse(refreshed, 0, 0, Set::empty(), child->Found_0, name);
        if child is Found {
            let meta = child->Found_0;
            lemma_create_keeps_inverse(named, path, meta);
            lemma_updates_keep_inverse(
                named.after_create(path, meta),
                dirid,
                named.entry_id(path),
                Set::empty(),
                meta,
                name,
            );
        }
    }
}

/// A committed removal keeps the two maps mutual inverses.
pub proof fn lemma_remove_commit_keeps_inverse(
    m: FsModel,
    read_only: bool,
    dirid: u64,
    name: Seq<u8>,
    dir_seen: HostStat,
)
    requires
        m.inv(),
        m.maps_inverse(),
        m.can_intern(name),
    ensures
        m.after_remove_commit(read_only, dirid, name, dir_seen).maps_inverse(),
{
    if m.child_target(read_only, dirid, name) is Ok {
        let path = m.entries[dirid].name.push(m.symbol_of(name));
        let named = m.after_intern(name);
        lemma_updates_keep_inverse(m, 0, 0, Set::empty(), dir_seen->Found_0, name);
        let dropped = if named.paths.contains_key(path) {
            named.forget(named.paths[path], path).without_child(dirid, named.paths[path])
        } else {
            named
        };
        if named.paths.contains_key(path) {
            lemma_forget_keeps_inverse(named, path);
            lemma_updates_keep_inverse(
                named.forget(named.paths[path], path),
                dirid,
                named.paths[path],
                Set::empty(),
                dir_seen->Found_0,
                name,
            );
        }
        lemma_refresh_keeps_inverse(dropped, dirid, dir_seen);
    }
}

/// Clearing what a rename replaces keeps the two maps mutual inverses, and
/// leaves the new path free for the object that is renamed.
pub proof fn lemma_without_replaced_keeps_inverse(
    m: FsModel,
    from: Seq<u32>,
    to: Seq<u32>,
    to_dirid: u64,
)
    requires
        m.maps_inverse(),
    ensures
        m.without_replaced(from, to, to_dirid).maps_inverse(),
        m.without_replaced(from, to, to_dirid).paths.contains_key(from) ==> !m.without_replaced(
            from,
            to,
            to_dirid,
        ).paths.contains_key(to) || to == from,
{
    if m.paths.contains_key(from) && m.paths.contains_key(to) && m.paths[to] != m.paths[from] {
        let gone = m.paths[to];
        lemma_delete_keeps_inverse(m, gone);
        let cleared = m.after_delete(gone);
        lemma_updates_keep_inverse(
            cleared,
            to_dirid,
            gone,
            Set::empty(),
            m.entries[gone].fsmeta,
            Seq::empty(),
        );
        crate::upkeep::lemma_reaches_self(m, gone);
        assert(m.entries.contains_key(gone) && m.entries[gone].name == to);
        assert(m.doomed(gone).contains(gone));
        assert(m.names_of(m.doomed(gone)).contains(to));
    } else if m.paths.contains_key(from) && m.paths.contains_key(to) {
        let id = m.paths[from];
        assert(m.entries[id].name == from);
        assert(m.entries[id].name == to);
    }
}

/// Moving a binding to a path that is free, or onto itself, keeps the two
/// maps mutual inverses.
pub proof fn lemma_after_move_keeps_inverse(
    m: FsModel,
    from: Seq<u32>,
    to: Seq<u32>,
    from_dirid: u64,
    to_dirid: u64,
)
    requires
        m.maps_inverse(),
        m.paths.contains_key(from) ==> !m.paths.contains_key(to) || to == from,
    ensures
        m.after_move(from, to, from_dirid, to_dirid).maps_inverse(),
{
    if m.paths.contains_key(from) {
        let id = m.paths[from];
        lemma_rebound_keeps_inverse(m, from, to);
        let r = m.rebound(from, to);
        if to_dirid != from_dirid {
            lemma_updates_keep_inverse(
                r,
                from_dirid,
                id,
                Set::empty(),
                m.entries[id].fsmeta,
                Seq::empty(),
            );
            lemma_updates_keep_inverse(
                r.without_child(from_dirid, id),
                to_dirid,
                id,
                Set::empty(),
                m.entries[id].fsmeta,
                Seq::empty(),
            );
        }
    }
}

/// A committed rename keeps the two maps mutual inverses: what it replaces
/// goes from both maps before the binding moves.
pub proof fn lemma_rename_commit_keeps_inverse(
    m: FsModel,
    read_only: bool,
    from_dirid: u64,
    from_name: Seq<u8>,
    to_dirid: u64,
    to_name: Seq<u8>,
    from_seen: HostStat,
    to_seen: HostStat,
)
    requires
        m.inv(),
        m.maps_inverse(),
        m.can_intern(from_name),
        m.after_intern(from_name).can_intern(to_name),
    ensures
        m.after_rename_commit(
            read_only,
            from_dirid,
            from_name,
            to_dirid,
            to_name,
            from_seen,
            to_seen,
        ).maps_inverse(),
{
    if m.rename_check(read_only, from_dirid, from_name, to_dirid, to_name) is Ok {
        let from = m.entries[from_dirid].name.push(m.symbol_of(from_name));
        let once = m.after_intern(from_name);
        let to = m.entries[to_dirid].name.push(once.symbol_of(to_name));
        let named = once.after_intern(to_name);
        lemma_updates_keep_inverse(m, 0, 0, Set::empty(), m.entries[0].fsmeta, from_name);
        lemma_updates_keep_inverse(once, 0, 0, Set::empty(), m.entries[0].fsmeta, to_name);
        let cleared = named.without_replaced(from, to, to_dirid);
        lemma_without_replaced_keeps_inverse(named, from, to, to_dirid);
        let moved = cleared.after_move(from, to, from_dirid, to_dirid);
        lemma_after_move_keeps_inverse(cleared, from, to, from_dirid, to_dirid);
        lemma_refresh_keeps_inverse(moved, from_dirid, from_seen);
        if to_dirid != from_dirid {
            lemma_refresh_keeps_inverse(moved.after_refresh(from_dirid, from_seen), to_dirid, to_seen);
        }
    }
}

/// A hard link is the one operation after which the two maps are no longer
/// mutual inverses: the new path is bound to an entry that goes by another
/// name.
pub proof fn lemma_link_breaks_inverse(m: FsModel, fileid: u64, linkdirid: u64, name: Seq<u8>)
    requires
        m.inv(),
        m.maps_inverse(),
        m.can_intern(name),
        m.link_check(false, fileid, linkdirid, name) is Ok,
        m.child(linkdirid, name) != Some(fileid),
    ensures
        !m.after_link_commit(false, fileid, linkdirid, name).maps_inverse(),
{
    let after = m.after_link_commit(false, fileid, linkdirid, name);
    let link = m.entries[linkdirid].name.push(m.symbol_of(name));
    lemma_link_aliases(m, fileid, linkdirid, name);
    crate::upkeep::lemma_after_intern_inv(m, name);
    assert(after.paths.contains_key(link));
    assert(after.entries[fileid].name == m.entries[fileid].name);
    if m.entries[fileid].name == link {
        assert(m.paths.contains_key(link) && m.paths[link] == fileid);
        assert(m.entry_ok(fileid));
        assert(m.knows(link[link.len() - 1]));
        assert(m.names.contains(name)) by {
            assert(m.after_intern(name).names[m.symbol_of(name) as int] == name);
            if !m.names.contains(name) {
                assert(m.symbol_of(name) == m.names.len());
            }
        }
        assert(m.child(linkdirid, name) == Some(fileid));
    }
}

/// A committed creation leaves the root as it is listed.
pub proof fn lemma_create_commit_keeps_root(
    m: FsModel,
    read_only: bool,
    dirid: u64,
    name: Seq<u8>,
    dir_seen: HostStat,
    child: HostStat,
)
    requires
        m.inv(),
        m.can_intern(name),
        m.next_fileid < u64::MAX,
    ensures
        m.after_create_commit(read_only, dirid, name, dir_seen, child).entries.contains_key(0),
        m.after_create_commit(read_only, dirid, name, dir_seen, child).entries[0].children
            == m.entries[0].children,
{
    assert(m.entry_ok(0));
    assert(!m.resolves(m.entries[0].name));
    if m.child_target(read_only, dirid, name) is Ok {
        assert(dirid != 0);
        assert(m.entry_ok(dirid));
        let path = m.entries[dirid].name.push(m.symbol_of(name));
        let refreshed = m.after_refresh(dirid, dir_seen);
        lemma_root_children_kept(m, path, m.entries[0].fsmeta, dirid, dir_seen);
        lemma_refresh_keeps_inv(m, dirid, dir_seen);
        let named = refreshed.after_intern(name);
        crate::upkeep::lemma_after_intern_inv(refreshed, name);
        if child is Found {
            lemma_root_children_kept(named, path, child->Found_0, dirid, dir_seen);
        }
    }
}

/// A committed rename leaves the root as it is listed.
pub proof fn lemma_rename_commit_keeps_root(
    m: FsModel,
    read_only: bool,
    from_dirid: u64,
    from_name: Seq<u8>,
    to_dirid: u64,
    to_name: Seq<u8>,
    from_seen: HostStat,
    to_seen: HostStat,
)
    requires
        m.inv(),
        m.can_intern(from_name),
        m.after_intern(from_name).can_intern(to_name),
    ensures
        m.after_rename_commit(
            read_only,
            from_dirid,
            from_name,
            to_dirid,
            to_name,
            from_seen,
            to_seen,
        ).entries.contains_key(0),
        m.after_rename_commit(
            read_only,
            from_dirid,
            from_name,
            to_dirid,
            to_name,
            from_seen,
            to_seen,
        ).entries[0].children == m.entries[0].children,
{
    assert(m.entry_ok(0));
    assert(!m.resolves(m.entries[0].name));
    if m.rename_check(read_only, from_dirid, from_name, to_dirid, to_name) is Ok {
        assert(from_dirid != 0 && to_dirid != 0);
        assert(m.entry_ok(from_dirid));
        assert(m.entry_ok(to_dirid));
        let from = m.entries[from_dirid].name.push(m.symbol_of(from_name));
        let once = m.after_intern(from_name);
        let to = m.entries[to_dirid].name.push(once.symbol_of(to_name));
        let named = once.after_intern(to_name);
        crate::upkeep::lemma_after_intern_inv(m, from_name);
        crate::upkeep::lemma_after_intern_inv(once, to_name);
        assert(named.known_path(to)) by {
            assert forall|k: int| 0 <= k < to.len() implies named.knows(#[trigger] to[k]) by {
                if k < to.len() - 1 {
                    assert(to[k] == m.entries[to_dirid].name[k]);
                    assert(m.knows(m.entries[to_dirid].name[k]));
                }
            }
        }
        let cleared = named.without_replaced(from, to, to_dirid);
        crate::upkeep::lemma_without_replaced_inv(named, from, to, to_dirid);
        let moved = cleared.after_move(from, to, from_dirid, to_dirid);
        crate::upkeep::lemma_after_move_inv(cleared, from, to, from_dirid, to_dirid);
        assert(moved.entries.contains_key(0));
        assert(moved.entries[0].children == m.entries[0].children);
        lemma_root_children_kept(moved, from, m.entries[0].fsmeta, from_dirid, from_seen);
        let first = moved.after_refresh(from_dirid, from_seen);
        lemma_refresh_keeps_inv(moved, from_dirid, from_seen);
        if to_dirid != from_dirid {
            lemma_root_children_kept(first, from, m.entries[0].fsmeta, to_dirid, to_seen);
        }
    }
}

/// Taking in a listing never moves the counter back.
pub proof fn lemma_listing_keeps_counter(m: FsModel, base: Seq<u32>, items: Seq<ListedView>)
    requires
        m.next_fileid + items.len() <= u64::MAX,
    ensures
        m.next_fileid <= m.after_listing(base, items).next_fileid <= m.next_fileid + items.len(),
    decreases items.len(),
{
    if items.len() > 0 {
        lemma_listing_keeps_counter(m, base, items.drop_last());
    }
}

/// The committed operations never move the counter back, and only a
/// creation moves it on, by one at most.
pub proof fn lemma_commits_keep_counter(
    m: FsModel,
    read_only: bool,
    dirid: u64,
    name: Seq<u8>,
    other: u64,
    other_name: Seq<u8>,
    seen: HostStat,
    other_seen: HostStat,
)
    requires
        m.next_fileid < u64::MAX,
    ensures
        m.next_fileid <= m.after_create_commit(read_only, dirid, name, seen, other_seen).next_fileid
            <= m.next_fileid + 1,
        m.after_remove_commit(read_only, dirid, name, seen).next_fileid == m.next_fileid,
        m.after_rename_commit(
            read_only,
            dirid,
            name,
            other,
            other_name,
            seen,
            other_seen,
        ).next_fileid == m.next_fileid,
        m.after_link_commit(read_only, other, dirid, name).next_fileid == m.next_fileid,
{
}

/// Taking in a listing under a directory other than the root leaves the
/// root as it is listed.
pub proof fn lemma_listing_keeps_root(m: FsModel, base: Seq<u32>, items: Seq<ListedView>)
    requires
        m.inv(),
        m.known_path(base),
        base.len() > 0,
        m.names.len() + items.len() <= u32::MAX,
        m.next_fileid + items.len() <= u64::MAX,
    ensures
        m.after_listing(base, items).inv(),
        m.after_listing(base, items).known_path(base),
        m.after_listing(base, items).names.len() <= m.names.len() + items.len(),
        m.after_listing(base, items).next_fileid <= m.next_fileid + items.len(),
        m.after_listing(base, items).entries.contains_key(0),
        m.after_listing(base, items).entries[0].children == m.entries[0].children,
    decreases items.len(),
{
    if items.len() > 0 {
        let front = items.drop_last();
        let item = items.last();
        lemma_listing_keeps_root(m, base, front);
        let b = m.after_listing(base, front);
        crate::upkeep::lemma_after_listed_inv(b, base, item);
        crate::upkeep::lemma_after_intern_inv(b, item.name);
        let named = b.after_intern(item.name);
        let path = base.push(b.symbol_of(item.name));
        lemma_root_children_kept(named, path, item.attr, 1, HostStat::Absent);
    }
}

/// Listing the children of an entry other than the root leaves the root as
/// it is listed.
pub proof fn lemma_dir_list_keeps_root(m: FsModel, id: u64, scan: ScanView)
    requires
        m.inv(),
        id != 0,
        m.names.len() + scan.entries.len() + m.mounts.len() <= u32::MAX,
        m.next_fileid + scan.entries.len() + m.mounts.len() <= u64::MAX,
    ensures
        m.after_dir_list(id, scan).entries.contains_key(0),
        m.after_dir_list(id, scan).entries[0].children == m.entries[0].children,
{
    if m.takes_listing(id) {
        assert(m.entry_ok(id));
        let base = m.entries[id].name;
        lemma_listing_keeps_root(m, base, scan.entries);
    }
}

/// Taking in a listing binds every listed name: afterwards the name is
/// interned, and its path under the directory is bound to the id that the
/// listing gives for it. What was interned keeps its symbol, what was bound
/// keeps its id, and every entry keeps its name.
pub proof fn lemma_listing_binds(m: FsModel, base: Seq<u32>, items: Seq<ListedView>)
    requires
        m.inv(),
        m.known_path(base),
        m.names.len() + items.len() <= u32::MAX,
        m.next_fileid + items.len() <= u64::MAX,
    ensures
        ({
            let after = m.after_listing(base, items);
            let ids = m.listing_ids(base, items);
            &&& after.inv()
            &&& after.known_path(base)
            &&& after.mounts == m.mounts
            &&& after.names.len() <= m.names.len() + items.len()
            &&& after.next_fileid <= m.next_fileid + items.len()
            &&& ids.len() == items.len()
            &&& forall|b: Seq<u8>|
                #![trigger m.names.contains(b)]
                m.names.contains(b) ==> after.names.contains(b) && after.names.index_of(b)
                    == m.names.index_of(b)
            &&& forall|p: Seq<u32>|
                #![trigger m.paths.contains_key(p)]
                m.paths.contains_key(p) ==> after.paths.contains_key(p) && after.paths[p]
                    == m.paths[p]
            &&& forall|x: u64|
                #![trigger m.entries.contains_key(x)]
                m.entries.contains_key(x) ==> after.entries.contains_key(x)
                    && after.entries[x].name == m.entries[x].name && after.entries[x].children
                    == m.entries[x].children
            &&& forall|k: int|
                0 <= k < items.len() ==> after.names.contains((#[trigger] items[k]).name)
                    && after.paths.contains_key(
                    base.push(after.names.index_of(items[k].name) as u32),
                ) && after.paths[base.push(after.names.index_of(items[k].name) as u32)] == ids[k]
        }),
    decreases items.len(),
{
    if items.len() > 0 {
        let front = items.drop_last();
        let item = items.last();
        lemma_listing_binds(m, base, front);
        let b = m.after_listing(base, front);
        let front_ids = m.listing_ids(base, front);
        crate::upkeep::lemma_after_listed_inv(b, base, item);
        crate::upkeep::lemma_after_intern_inv(b, item.name);
        let named = b.after_intern(item.name);
        let sym = b.symbol_of(item.name);
        let path = base.push(sym);
        let after = m.after_listing(base, items);
        let ids = m.listing_ids(base, items);
        assert(after == named.after_create(path, item.attr));
        assert(ids == front_ids.push(named.entry_id(path)));
        assert(!named.paths.contains_key(path) ==> !named.entries.contains_key(named.next_fileid)) by {
            if named.entries.contains_key(named.next_fileid) {
                assert(named.entry_ok(named.next_fileid));
            }
        }
        assert forall|bytes: Seq<u8>|
            #![trigger m.names.contains(bytes)]
            m.names.contains(bytes) implies after.names.contains(bytes) && after.names.index_of(
            bytes,
        ) == m.names.index_of(bytes) by {
            assert(b.names.contains(bytes));
        }
        assert forall|p: Seq<u32>|
            #![trigger m.paths.contains_key(p)]
            m.paths.contains_key(p) implies after.paths.contains_key(p) && after.paths[p]
            == m.paths[p] by {
            assert(b.paths.contains_key(p));
        }
        assert forall|x: u64|
            #![trigger m.entries.contains_key(x)]
            m.entries.contains_key(x) implies after.entries.contains_key(x)
            && after.entries[x].name == m.entries[x].name && after.entries[x].children
            == m.entries[x].children by {
            assert(b.entries.contains_key(x));
        }
        assert forall|k: int| 0 <= k < items.len() implies after.names.contains(
            (#[trigger] items[k]).name,
        ) && after.paths.contains_key(base.push(after.names.index_of(items[k].name) as u32))
            && after.paths[base.push(after.names.index_of(items[k].name) as u32)] == ids[k] by {
            if k < front.len() {
                assert(front[k] == items[k]);
                let name = front[k].name;
                assert(b.names.contains(name));
                assert(after.names.index_of(name) == b.names.index_of(name));
                let p = base.push(b.names.index_of(name) as u32);
                assert(b.paths.contains_key(p));
                assert(named.paths.contains_key(p));
                assert(after.paths[p] == b.paths[p]);
                assert(ids[k] == front_ids[k]);
            } else {
                assert(items[k] == item);
                assert(after.names.index_of(item.name) == sym);
            }
        }
    }
}

/// `j` is the place in the listing of the first `n` mounts at which mount `k`
/// stands, its source having been seen.
pub open spec fn lists_mount(
    m: FsModel,
    seen: Seq<Option<FileAttr>>,
    n: nat,
    j: int,
    k: int,
) -> bool {
    &&& 0 <= j < m.mount_items(seen, n).len()
    &&& 0 <= k < n
    &&& source_seen(seen, k)
    &&& m.mount_items(seen, n)[j].name == m.mounts[k].name
}

/// The listing of the first `n` mounts has a mount at place `j`.
pub open spec fn place_has_mount(m: FsModel, seen: Seq<Option<FileAttr>>, n: nat, j: int) -> bool {
    exists|k: int| #[trigger] lists_mount(m, seen, n, j, k)
}

/// The listing of the first `n` mounts has a place for mount `k`.
pub open spec fn mount_has_place(m: FsModel, seen: Seq<Option<FileAttr>>, n: nat, k: int) -> bool {
    exists|j: int| #[trigger] lists_mount(m, seen, n, j, k)
}

/// The listing of the mounts holds the mounts whose source was seen, and
/// nothing else.
pub proof fn lemma_mount_items_cover(m: FsModel, seen: Seq<Option<FileAttr>>, n: nat)
    requires
        n <= m.mounts.len(),
    ensures
        m.mount_items(seen, n).len() <= n,
        forall|j: int|
            0 <= j < m.mount_items(seen, n).len() ==> #[trigger] place_has_mount(m, seen, n, j),
        forall|k: int|
            0 <= k < n && source_seen(seen, k) ==> #[trigger] mount_has_place(m, seen, n, k),
    decreases n,
{
    if n > 0 {
        let before = m.mount_items(seen, (n - 1) as nat);
        let now = m.mount_items(seen, n);
        lemma_mount_items_cover(m, seen, (n - 1) as nat);
        assert forall|j: int| 0 <= j < now.len() implies #[trigger] place_has_mount(
            m,
            seen,
            n,
            j,
        ) by {
            if j < before.len() {
                assert(place_has_mount(m, seen, (n - 1) as nat, j));
                let k = choose|k: int| #[trigger] lists_mount(m, seen, (n - 1) as nat, j, k);
                assert(now[j] == before[j]);
                assert(lists_mount(m, seen, n, j, k));
            } else {
                assert(lists_mount(m, seen, n, j, n - 1));
            }
        }
        assert forall|k: int| 0 <= k < n && source_seen(seen, k) implies #[trigger] mount_has_place(
            m,
            seen,
            n,
            k,
        ) by {
            if k < n - 1 {
                assert(mount_has_place(m, seen, (n - 1) as nat, k));
                let j = choose|j: int| #[trigger] lists_mount(m, seen, (n - 1) as nat, j, k);
                assert(now[j] == before[j]);
                assert(lists_mount(m, seen, n, j, k));
            } else {
                assert(lists_mount(m, seen, n, now.len() - 1, k));
            }
        }
    }
}

/// `x` is the id that the path of a mount is bound to whose source was seen.
pub open spec fn seen_mount_id(
    before: FsModel,
    after: FsModel,
    seen: Seq<Option<FileAttr>>,
    x: u64,
    k: int,
) -> bool {
    &&& 0 <= k < before.mounts.len()
    &&& source_seen(seen, k)
    &&& after.paths.contains_key(before.mount_path(k))
    &&& after.paths[before.mount_path(k)] == x
}

/// When the root is listed anew, its children become exactly the ids of the
/// mounts whose source the scan saw: one id for each, the one that the mount's
/// path is bound to, and no id of anything else. The root stays under id 0
/// with the empty name, and every path that was bound keeps its id, so a
/// mount that had a node keeps it.
pub proof fn lemma_root_relist(m: FsModel, scan: ScanView)
    requires
        m.inv(),
        m.needs_listing(0),
        m.names.len() + m.mounts.len() <= u32::MAX,
        m.next_fileid + m.mounts.len() <= u64::MAX,
    ensures
        ({
            let after = m.after_dir_list(0, scan);
            &&& m.dir_list_result(0, scan) == Ok::<(), NfsStatus>(())
            &&& after.inv()
            &&& after.entries.contains_key(0)
            &&& after.entries[0].name == m.entries[0].name
            &&& after.entries[0].children_meta == after.entries[0].fsmeta
            &&& forall|p: Seq<u32>|
                #![trigger m.paths.contains_key(p)]
                m.paths.contains_key(p) ==> after.paths.contains_key(p) && after.paths[p]
                    == m.paths[p]
            &&& after.entries[0].children is Some
            &&& forall|x: u64|
                after.entries[0].children->Some_0.contains(x) <==> exists|k: int| #[trigger]
                    seen_mount_id(m, after, scan.mounts, x, k)
        }),
{
    let n = m.mounts.len();
    let base = m.entries[0].name;
    let items = m.mount_items(scan.mounts, n);
    let listed = m.after_listing(base, items);
    let ids = m.listing_ids(base, items);
    let after = m.after_dir_list(0, scan);
    assert(m.entry_ok(0));
    assert(base =~= Seq::<u32>::empty());
    assert(m.takes_listing(0));
    lemma_mount_items_cover(m, scan.mounts, n);
    lemma_listing_binds(m, base, items);
    assert(after == listed.with_children(0, ids.to_set()));
    vstd::seq_lib::seq_to_set_is_finite(ids);
    assert(!ids.to_set().contains(0)) by {
        if ids.to_set().contains(0) {
            let j = choose|j: int| 0 <= j < ids.len() && ids[j] == 0;
            let name = items[j].name;
            let p = base.push(listed.names.index_of(name) as u32);
            assert(listed.paths.contains_key(p) && listed.paths[p] == 0);
            assert(p.len() > 0);
        }
    }
    crate::upkeep::lemma_with_children_inv(listed, 0, ids.to_set());
    // The name of a mount is interned from the start, so its symbol stays.
    assert forall|k: int| 0 <= k < n implies listed.names.contains(
        (#[trigger] m.mounts[k]).name,
    ) && m.mount_path(k) == base.push(listed.names.index_of(m.mounts[k].name) as u32) by {
        let name = m.mounts[k].name;
        assert(m.names.contains(name));
        assert(listed.names.index_of(name) == m.names.index_of(name));
        assert(m.mount_path(k) =~= base.push(listed.names.index_of(name) as u32));
    }
    assert forall|x: u64|
        after.entries[0].children->Some_0.contains(x) <==> exists|k: int| #[trigger]
            seen_mount_id(m, after, scan.mounts, x, k) by {
        if after.entries[0].children->Some_0.contains(x) {
            let j = choose|j: int| 0 <= j < ids.len() && ids[j] == x;
            assert(place_has_mount(m, scan.mounts, n, j));
            let k = choose|k: int| #[trigger] lists_mount(m, scan.mounts, n, j, k);
            assert(items[j].name == m.mounts[k].name);
            assert(seen_mount_id(m, after, scan.mounts, x, k));
        }
        if exists|k: int| #[trigger] seen_mount_id(m, after, scan.mounts, x, k) {
            let k = choose|k: int| #[trigger] seen_mount_id(m, after, scan.mounts, x, k);
            assert(mount_has_place(m, scan.mounts, n, k));
            let j = choose|j: int| #[trigger] lists_mount(m, scan.mounts, n, j, k);
            assert(items[j].name == m.mounts[k].name);
            assert(ids[j] == x);
            assert(ids.to_set().contains(x));
        }
    }
}

/// What a committed rename replaces is gone: where the old path is bound
/// and the new path is bound to another id, that id has no entry afterwards,
/// and the receiving directory, if it is still there and listed, does not
/// list it.
pub proof fn lemma_rename_commit_replaces(
    m: FsModel,
    from_dirid: u64,
    from_name: Seq<u8>,
    to_dirid: u64,
    to_name: Seq<u8>,
    from_seen: HostStat,
    to_seen: HostStat,
)
    requires
        m.inv(),
        m.rename_check(false, from_dirid, from_name, to_dirid, to_name) is Ok,
        m.child(from_dirid, from_name) is Some,
        m.can_intern(to_name),
        m.paths.contains_key(m.entries[to_dirid].name.push(m.symbol_of(to_name))),
        m.paths[m.entries[to_dirid].name.push(m.symbol_of(to_name))] != m.child(
            from_dirid,
            from_name,
        )->Some_0,
    ensures
        ({
            let after = m.after_rename_commit(
                false,
                from_dirid,
                from_name,
                to_dirid,
                to_name,
                from_seen,
                to_seen,
            );
            let gone = m.paths[m.entries[to_dirid].name.push(m.symbol_of(to_name))];
            &&& !after.entries.contains_key(gone)
            &&& after.entries.contains_key(to_dirid) ==> (after.entries[to_dirid].children matches Some(
                listed,
            ) ==> !listed.contains(gone))
        }),
{
    assert(m.entry_ok(from_dirid));
    assert(m.entry_ok(to_dirid));
    m.names.index_of_first_ensures(from_name);
    let from = m.entries[from_dirid].name.push(m.symbol_of(from_name));
    let to = m.entries[to_dirid].name.push(m.symbol_of(to_name));
    let named = m.after_intern(to_name);
    crate::upkeep::lemma_after_intern_inv(m, to_name);
    let id = m.paths[from];
    let gone = m.paths[to];
    assert(named.known_path(to)) by {
        assert forall|k: int| 0 <= k < to.len() implies named.knows(#[trigger] to[k]) by {
            if k < to.len() - 1 {
                assert(to[k] == m.entries[to_dirid].name[k]);
                assert(m.knows(m.entries[to_dirid].name[k]));
            }
        }
    }
    crate::upkeep::lemma_reaches_self(named, gone);
    let cleared = named.without_replaced(from, to, to_dirid);
    crate::upkeep::lemma_without_replaced_inv(named, from, to, to_dirid);
    assert(cleared == named.after_delete(gone).without_child(to_dirid, gone));
    assert(!cleared.entries.contains_key(gone));
    assert(cleared.entries.contains_key(to_dirid) ==> (cleared.entries[to_dirid].children matches Some(
        listed,
    ) ==> !listed.contains(gone)));
    let moved = cleared.after_move(from, to, from_dirid, to_dirid);
    crate::upkeep::lemma_after_move_inv(cleared, from, to, from_dirid, to_dirid);
    assert(cleared.paths.contains_key(from) ==> cleared.paths[from] == id);
    assert(!moved.entries.contains_key(gone));
    assert(moved.entries.contains_key(to_dirid) ==> (moved.entries[to_dirid].children matches Some(
        listed,
    ) ==> !listed.contains(gone)));
    let first = moved.after_refresh(from_dirid, from_seen);
    lemma_refresh_keeps_inv(moved, from_dirid, from_seen);
    assert(!first.entries.contains_key(gone));
    assert(first.entries.contains_key(to_dirid) ==> first.entries[to_dirid].children
        == moved.entries[to_dirid].children);
    if to_dirid != from_dirid {
        let second = first.after_refresh(to_dirid, to_seen);
        assert(!second.entries.contains_key(gone));
        assert(second.entries.contains_key(to_dirid) ==> second.entries[to_dirid].children
            == first.entries[to_dirid].children);
    }
}

} // verus!
