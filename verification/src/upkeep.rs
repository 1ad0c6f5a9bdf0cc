//! Why the operations on the identifier map keep its invariant.

use crate::attr::FileAttr;
use crate::interner::lemma_push_keeps_distinct;
use crate::model::FsModel;
use crate::model::ListedView;
use vstd::prelude::*;

verus! {

/// Creating an entry keeps the invariant of the map.
pub proof fn lemma_after_create_inv(m: FsModel, path: Seq<u32>, meta: FileAttr)
    requires
        m.inv(),
        m.known_path(path),
        m.paths.contains_key(path) || m.next_fileid < u64::MAX,
    ensures
        m.after_create(path, meta).inv(),
        path.len() > 0 ==> m.entry_id(path) != 0,
{
    let n = m.after_create(path, meta);
    if m.paths.contains_key(path) {
        let id = m.paths[path];
        if m.entries.contains_key(id) {
            assert(n.entries.dom() =~= m.entries.dom());
            assert forall|x: u64| #[trigger] n.entries.contains_key(x) implies n.entry_ok(x) by {
                assert(m.entries.contains_key(x));
                assert(m.entry_ok(x));
            }
        }
    } else {
        let id = m.next_fileid;
        assert(!m.entries.contains_key(id)) by {
            if m.entries.contains_key(id) {
                assert(m.entry_ok(id));
            }
        }
        assert(path.len() > 0) by {
            if path.len() == 0 {
                assert(path =~= Seq::<u32>::empty());
            }
        }
        assert(n.entries.dom() =~= m.entries.dom().insert(id));
        assert forall|x: u64| #[trigger] n.entries.contains_key(x) implies n.entry_ok(x) by {
            if x != id {
                assert(m.entries.contains_key(x));
                assert(m.entry_ok(x));
            }
        }
        assert forall|p: Seq<u32>| #[trigger] n.paths.contains_key(p) implies n.paths[p]
            < n.next_fileid && (p.len() > 0 ==> n.paths[p] != 0) by {
            if p != path {
                assert(m.paths.contains_key(p));
            }
        }
    }
}

/// Every id reaches itself.
pub proof fn lemma_reaches_self(m: FsModel, id: u64)
    ensures
        m.reaches(id, id),
{
    let w = seq![id];
    assert(m.is_walk(w) && w[0] == id && w.last() == id);
}

/// A child of what `id` reaches is reached by `id`.
pub proof fn lemma_reaches_step(m: FsModel, id: u64, x: u64, c: u64)
    requires
        m.reaches(id, x),
        m.edge(x, c),
    ensures
        m.reaches(id, c),
{
    let w = choose|w: Seq<u64>| #[trigger] m.is_walk(w) && w[0] == id && w.last() == x;
    let v = w.push(c);
    assert forall|i: int| 0 <= i < v.len() - 1 implies m.edge(#[trigger] v[i], v[i + 1]) by {
        if i < w.len() - 1 {
            assert(m.edge(w[i], w[i + 1]));
        }
    }
    assert(m.is_walk(v) && v[0] == id && v.last() == c);
}

/// Nothing but the root reaches the root, as no entry lists it as a child.
pub proof fn lemma_root_unreached(m: FsModel, id: u64)
    requires
        m.inv(),
        id != 0,
    ensures
        !m.reaches(id, 0),
{
    if m.reaches(id, 0) {
        let w = choose|w: Seq<u64>| #[trigger] m.is_walk(w) && w[0] == id && w.last() == 0;
        let a = w[w.len() - 2];
        assert(m.edge(w[w.len() - 2], w[w.len() - 2 + 1]));
        assert(m.entry_ok(a));
    }
}

/// Deleting an entry other than the root keeps the invariant of the map.
pub proof fn lemma_after_delete_inv(m: FsModel, id: u64)
    requires
        m.inv(),
        id != 0,
    ensures
        m.after_delete(id).inv(),
{
    let n = m.after_delete(id);
    lemma_root_unreached(m, id);
    assert(n.entries.dom() =~= m.entries.dom().difference(m.doomed(id)));
    assert(n.entries.contains_key(0));
    let empty = Seq::<u32>::empty();
    assert(!m.names_of(m.doomed(id)).contains(empty)) by {
        if m.names_of(m.doomed(id)).contains(empty) {
            let x = choose|x: u64|
                m.doomed(id).contains(x) && m.entries.contains_key(x) && #[trigger] m.entries[x].name
                    == empty;
            assert(m.entry_ok(x));
        }
    }
    assert forall|x: u64| #[trigger] n.entries.contains_key(x) implies n.entry_ok(x) by {
        assert(m.entries.contains_key(x));
        assert(m.entry_ok(x));
    }
    assert forall|p: Seq<u32>| #[trigger] n.paths.contains_key(p) implies n.paths[p]
        < n.next_fileid && (p.len() > 0 ==> n.paths[p] != 0) by {
        assert(m.paths.contains_key(p));
    }
}

/// One step of a deletion that finds an entry: the entry goes, and its
/// children are to be visited.
pub proof fn lemma_sweep_found(
    m: FsModel,
    id: u64,
    gone: Set<u64>,
    work: Seq<u64>,
    kids: Seq<u64>,
)
    requires
        m.sweep_inv(id, gone, work),
        work.len() > 0,
        m.entries.contains_key(work.last()),
        !gone.contains(work.last()),
        match m.entries[work.last()].children {
            Some(c) => kids.to_set() == c,
            None => kids.len() == 0,
        },
    ensures
        m.sweep_inv(id, gone.insert(work.last()), work.drop_last() + kids),
        m.names_of(gone.insert(work.last())) == m.names_of(gone).insert(
            m.entries[work.last()].name,
        ),
{
    let x = work.last();
    let gone2 = gone.insert(x);
    let work2 = work.drop_last() + kids;
    assert(m.reaches(id, work[work.len() - 1]));
    assert forall|k: int| 0 <= k < work2.len() implies m.reaches(id, #[trigger] work2[k]) by {
        if k < work.len() - 1 {
            assert(work2[k] == work[k]);
        } else {
            let c = kids[k - (work.len() - 1)];
            assert(work2[k] == c);
            assert(kids.to_set().contains(c));
            assert(m.edge(x, c));
            lemma_reaches_step(m, id, x, c);
        }
    }
    assert forall|y: u64| work.contains(y) implies y == x || work2.contains(y) by {
        let k = choose|k: int| 0 <= k < work.len() && work[k] == y;
        if k < work.len() - 1 {
            assert(work2[k] == y);
        }
    }
    assert forall|a: u64, b: u64|
        gone2.contains(a) && #[trigger] m.edge(a, b) && m.entries.contains_key(
            b,
        ) implies gone2.contains(b) || work2.contains(b) by {
        if a == x {
            assert(kids.to_set().contains(b));
            let k = choose|k: int| 0 <= k < kids.len() && kids[k] == b;
            assert(work2[work.len() - 1 + k] == b);
        }
    }
    assert(m.names_of(gone2) =~= m.names_of(gone).insert(m.entries[x].name)) by {
        assert forall|p: Seq<u32>| m.names_of(gone2).contains(p) implies m.names_of(
            gone,
        ).insert(m.entries[x].name).contains(p) by {
            let y = choose|y: u64|
                gone2.contains(y) && m.entries.contains_key(y) && #[trigger] m.entries[y].name
                    == p;
            if y != x {
                assert(gone.contains(y));
            }
        }
        assert forall|p: Seq<u32>|
            m.names_of(gone).insert(m.entries[x].name).contains(p) implies m.names_of(
            gone2,
        ).contains(p) by {
            if p == m.entries[x].name {
                assert(gone2.contains(x));
            } else {
                let y = choose|y: u64|
                    gone.contains(y) && m.entries.contains_key(y) && #[trigger] m.entries[y].name
                        == p;
                assert(gone2.contains(y));
            }
        }
    }
}

/// One step of a deletion that finds no entry: the id is dropped from what
/// is to be visited.
pub proof fn lemma_sweep_missed(m: FsModel, id: u64, gone: Set<u64>, work: Seq<u64>)
    requires
        m.sweep_inv(id, gone, work),
        work.len() > 0,
        !m.entries.contains_key(work.last()) || gone.contains(work.last()),
    ensures
        m.sweep_inv(id, gone, work.drop_last()),
{
    let x = work.last();
    let work2 = work.drop_last();
    assert forall|k: int| 0 <= k < work2.len() implies m.reaches(id, #[trigger] work2[k]) by {
        assert(work2[k] == work[k]);
    }
    assert forall|y: u64| work.contains(y) implies y == x || work2.contains(y) by {
        let k = choose|k: int| 0 <= k < work.len() && work[k] == y;
        if k < work.len() - 1 {
            assert(work2[k] == y);
        }
    }
}

proof fn lemma_walk_stays(m: FsModel, gone: Set<u64>, w: Seq<u64>, i: int)
    requires
        m.is_walk(w),
        forall|x: u64, y: u64|
            gone.contains(x) && #[trigger] m.edge(x, y) && m.entries.contains_key(y)
                ==> gone.contains(y),
        m.entries.contains_key(w[0]) ==> gone.contains(w[0]),
        0 <= i < w.len(),
        m.entries.contains_key(w[i]),
    ensures
        gone.contains(w[i]),
    decreases i,
{
    if i > 0 {
        assert(m.edge(w[i - 1], w[i - 1 + 1]));
        lemma_walk_stays(m, gone, w, i - 1);
    }
}

/// When nothing is left to visit, what is gone is `id` with its descendants.
pub proof fn lemma_sweep_done(m: FsModel, id: u64, gone: Set<u64>)
    requires
        m.sweep_inv(id, gone, Seq::empty()),
    ensures
        gone == m.doomed(id),
{
    let none = Seq::<u64>::empty();
    assert forall|x: u64| m.doomed(id).contains(x) implies gone.contains(x) by {
        let w = choose|w: Seq<u64>| #[trigger] m.is_walk(w) && w[0] == id && w.last() == x;
        assert forall|a: u64, b: u64|
            gone.contains(a) && #[trigger] m.edge(a, b) && m.entries.contains_key(
                b,
            ) implies gone.contains(b) by {
            assert(gone.contains(b) || none.contains(b));
        }
        assert(m.entries.contains_key(id) ==> gone.contains(id)) by {
            assert(!none.contains(id));
        }
        lemma_walk_stays(m, gone, w, w.len() - 1);
    }
    assert(gone =~= m.doomed(id));
}

/// Interning a name keeps the invariant of the map, and keeps every symbol.
pub proof fn lemma_after_intern_inv(m: FsModel, bytes: Seq<u8>)
    requires
        m.inv_core(),
        m.can_intern(bytes),
    ensures
        m.after_intern(bytes).inv_core(),
        m.inv() ==> m.after_intern(bytes).inv(),
        m.after_intern(bytes).names.contains(bytes),
        m.after_intern(bytes).names.index_of(bytes) == m.symbol_of(bytes),
        m.after_intern(bytes).knows(m.symbol_of(bytes)),
        forall|b: Seq<u8>|
            m.names.contains(b) ==> m.after_intern(bytes).names.index_of(b) == m.names.index_of(b),
        forall|b: Seq<u8>| m.names.contains(b) ==> m.after_intern(bytes).names.contains(b),
        forall|p: Seq<u32>| m.known_path(p) ==> m.after_intern(bytes).known_path(p),
{
    let n = m.after_intern(bytes);
    assert forall|b: Seq<u8>| m.names.contains(b) implies n.names.index_of(b)
        == m.names.index_of(b) by {
        m.names.index_of_first_ensures(b);
        let i = m.names.index_of(b);
        assert(n.names[i] == b);
        n.names.index_of_first_ensures(b);
        if !m.names.contains(bytes) {
            lemma_push_keeps_distinct(m.names, bytes);
        }
    }
    if m.names.contains(bytes) {
        m.names.index_of_first_ensures(bytes);
    } else {
        lemma_push_keeps_distinct(m.names, bytes);
        assert(n.names[m.names.len() as int] == bytes);
        n.names.index_of_first_ensures(bytes);
        assert forall|b: Seq<u8>| m.names.contains(b) implies n.names.contains(b) by {
            let i = choose|i: int| 0 <= i < m.names.len() && m.names[i] == b;
            assert(n.names[i] == b);
        }
        assert forall|x: u64| #[trigger] n.entries.contains_key(x) implies n.entry_ok(x) by {
            assert(m.entry_ok(x));
        }
    }
}

/// Listing one more child, other than the root, keeps the invariant of the
/// map.
pub proof fn lemma_with_child_inv(m: FsModel, dir: u64, child: u64)
    requires
        m.inv(),
        child != 0,
    ensures
        m.with_child(dir, child).inv(),
{
    let n = m.with_child(dir, child);
    if m.entries.contains_key(dir) && m.entries[dir].children is Some {
        assert(n.entries.dom() =~= m.entries.dom());
        assert forall|x: u64| #[trigger] n.entries.contains_key(x) implies n.entry_ok(x) by {
            assert(m.entries.contains_key(x));
            assert(m.entry_ok(x));
        }
    }
}

/// Listing one child less keeps the invariant of the map.
pub proof fn lemma_without_child_inv(m: FsModel, dir: u64, child: u64)
    requires
        m.inv(),
    ensures
        m.without_child(dir, child).inv(),
{
    let n = m.without_child(dir, child);
    if m.entries.contains_key(dir) && m.entries[dir].children is Some {
        assert(n.entries.dom() =~= m.entries.dom());
        assert forall|x: u64| #[trigger] n.entries.contains_key(x) implies n.entry_ok(x) by {
            assert(m.entries.contains_key(x));
            assert(m.entry_ok(x));
        }
    }
}

/// Dropping one entry other than the root, and one path other than the
/// root's, keeps the invariant of the map.
pub proof fn lemma_forget_inv(m: FsModel, id: u64, path: Seq<u32>)
    requires
        m.inv(),
        id != 0,
        path.len() > 0,
    ensures
        m.forget(id, path).inv(),
{
    let n = m.forget(id, path);
    assert(n.entries.dom() =~= m.entries.dom().remove(id));
    assert forall|x: u64| #[trigger] n.entries.contains_key(x) implies n.entry_ok(x) by {
        assert(m.entries.contains_key(x));
        assert(m.entry_ok(x));
    }
    assert forall|p: Seq<u32>| #[trigger] n.paths.contains_key(p) implies n.paths[p]
        < n.next_fileid && (p.len() > 0 ==> n.paths[p] != 0) by {
        assert(m.paths.contains_key(p));
    }
}

/// Binding a path other than the root's to an id in use, other than the
/// root's, keeps the invariant of the map.
pub proof fn lemma_aliased_inv(m: FsModel, path: Seq<u32>, id: u64)
    requires
        m.inv(),
        path.len() > 0,
        id != 0,
        id < m.next_fileid,
    ensures
        m.aliased(path, id).inv(),
{
    let n = m.aliased(path, id);
    assert forall|x: u64| #[trigger] n.entries.contains_key(x) implies n.entry_ok(x) by {
        assert(m.entry_ok(x));
    }
    assert forall|p: Seq<u32>| #[trigger] n.paths.contains_key(p) implies n.paths[p]
        < n.next_fileid && (p.len() > 0 ==> n.paths[p] != 0) by {
        if p != path {
            assert(m.paths.contains_key(p));
        }
    }
}

/// Moving a binding from one path to another, and the entry's name with it,
/// keeps the invariant of the map.
pub proof fn lemma_rebound_inv(m: FsModel, from: Seq<u32>, to: Seq<u32>)
    requires
        m.inv(),
        from.len() > 0,
        to.len() > 0,
        m.known_path(to),
        m.paths.contains_key(from),
    ensures
        m.rebound(from, to).inv(),
{
    let n = m.rebound(from, to);
    let id = m.paths[from];
    let empty = Seq::<u32>::empty();
    assert(n.paths.contains_key(empty) && n.paths[empty] == 0);
    if m.entries.contains_key(id) {
        assert(n.entries.dom() =~= m.entries.dom());
    }
    assert forall|x: u64| #[trigger] n.entries.contains_key(x) implies n.entry_ok(x) by {
        assert(m.entries.contains_key(x));
        assert(m.entry_ok(x));
    }
    assert forall|p: Seq<u32>| #[trigger] n.paths.contains_key(p) implies n.paths[p]
        < n.next_fileid && (p.len() > 0 ==> n.paths[p] != 0) by {
        if p != to {
            assert(m.paths.contains_key(p));
        }
    }
}

/// Replacing the attributes of an entry keeps the invariant of the map.
pub proof fn lemma_with_fsmeta_inv(m: FsModel, id: u64, meta: FileAttr)
    requires
        m.inv(),
        m.entries.contains_key(id),
    ensures
        m.with_fsmeta(id, meta).inv(),
{
    let n = m.with_fsmeta(id, meta);
    assert(n.entries.dom() =~= m.entries.dom());
    assert forall|x: u64| #[trigger] n.entries.contains_key(x) implies n.entry_ok(x) by {
        assert(m.entries.contains_key(x));
        assert(m.entry_ok(x));
    }
}

/// Replacing the children of an entry by ids other than the root's keeps the
/// invariant of the map.
pub proof fn lemma_with_children_inv(m: FsModel, id: u64, children: Set<u64>)
    requires
        m.inv(),
        m.entries.contains_key(id),
        children.finite(),
        !children.contains(0),
    ensures
        m.with_children(id, children).inv(),
{
    let n = m.with_children(id, children);
    assert(n.entries.dom() =~= m.entries.dom());
    assert forall|x: u64| #[trigger] n.entries.contains_key(x) implies n.entry_ok(x) by {
        assert(m.entries.contains_key(x));
        assert(m.entry_ok(x));
    }
}

/// Taking in one listed name keeps the invariant of the map; the name's id
/// is not the root's.
pub proof fn lemma_after_listed_inv(m: FsModel, base: Seq<u32>, item: ListedView)
    requires
        m.inv(),
        m.known_path(base),
        m.can_intern(item.name),
        m.next_fileid < u64::MAX,
    ensures
        m.after_listed(base, item).inv(),
        m.after_listed(base, item).known_path(base),
        m.listed_id(base, item) != 0,
        m.after_listed(base, item).names.len() <= m.names.len() + 1,
        m.after_listed(base, item).next_fileid <= m.next_fileid + 1,
        m.after_listed(base, item).mounts == m.mounts,
        forall|x: u64|
            m.entries.contains_key(x) ==> #[trigger] m.after_listed(base, item).entries.contains_key(
                x,
            ) && m.after_listed(base, item).entries[x].name == m.entries[x].name,
{
    let i = m.after_intern(item.name);
    lemma_after_intern_inv(m, item.name);
    let path = base.push(m.symbol_of(item.name));
    if m.names.contains(item.name) {
        m.names.index_of_first_ensures(item.name);
    }
    assert(i.known_path(path)) by {
        assert forall|k: int| 0 <= k < path.len() implies i.knows(#[trigger] path[k]) by {
            if k < base.len() {
                assert(i.knows(base[k]));
            }
        }
    }
    lemma_after_create_inv(i, path, item.attr);
}

/// Adding the node of a mount keeps the invariant of the map.
pub proof fn lemma_after_mount_inv(m: FsModel, name: Seq<u8>, meta: FileAttr)
    requires
        m.inv_core(),
        m.names.len() < u32::MAX,
        m.next_fileid < u64::MAX,
    ensures
        m.after_mount(name, meta).inv_core(),
        m.after_mount(name, meta).names.contains(name),
        m.after_mount(name, meta).names.len() <= m.names.len() + 1,
        forall|b: Seq<u8>| m.names.contains(b) ==> m.after_mount(name, meta).names.contains(b),
{
    let n = m.after_mount(name, meta);
    let id = m.next_fileid;
    lemma_after_intern_inv(m, name);
    if m.names.contains(name) {
        m.names.index_of_first_ensures(name);
    }
    let path = seq![m.symbol_of(name)];
    assert(!m.entries.contains_key(id)) by {
        if m.entries.contains_key(id) {
            assert(m.entry_ok(id));
        }
    }
    assert(m.entry_ok(0));
    assert(n.entries.dom() =~= m.entries.dom().insert(id));
    assert forall|x: u64| #[trigger] n.entries.contains_key(x) implies n.entry_ok(x) by {
        if x == id {
            assert(n.known_path(path));
        } else {
            assert(m.entries.contains_key(x));
            assert(m.entry_ok(x));
            assert(m.after_intern(name).known_path(m.entries[x].name));
        }
    }
    assert forall|p: Seq<u32>| #[trigger] n.paths.contains_key(p) implies n.paths[p]
        < n.next_fileid && (p.len() > 0 ==> n.paths[p] != 0) by {
        if p != path {
            assert(m.paths.contains_key(p));
        }
    }
}

/// Which entries go with an id, and under which names, depends on the
/// entries alone.
pub proof fn lemma_doomed_by_entries(a: FsModel, b: FsModel, id: u64)
    requires
        a.entries == b.entries,
    ensures
        a.doomed(id) == b.doomed(id),
        a.names_of(a.doomed(id)) == b.names_of(b.doomed(id)),
{
    assert forall|x: u64| a.reaches(id, x) == b.reaches(id, x) by {
        if a.reaches(id, x) {
            let w = choose|w: Seq<u64>| #[trigger] a.is_walk(w) && w[0] == id && w.last() == x;
            assert forall|i: int| 0 <= i < w.len() - 1 implies b.edge(#[trigger] w[i], w[i + 1]) by {
                assert(a.edge(w[i], w[i + 1]));
            }
            assert(b.is_walk(w));
        }
        if b.reaches(id, x) {
            let w = choose|w: Seq<u64>| #[trigger] b.is_walk(w) && w[0] == id && w.last() == x;
            assert forall|i: int| 0 <= i < w.len() - 1 implies a.edge(#[trigger] w[i], w[i + 1]) by {
                assert(b.edge(w[i], w[i + 1]));
            }
            assert(a.is_walk(w));
        }
    }
    assert(a.doomed(id) =~= b.doomed(id));
    assert(a.names_of(a.doomed(id)) =~= b.names_of(b.doomed(id)));
}

/// Clearing what a rename replaces keeps the invariant of the map. Only
/// entries go, never the root, and those that stay keep their names and
/// attributes; only bindings go, and those that stay keep their ids.
pub proof fn lemma_without_replaced_inv(m: FsModel, from: Seq<u32>, to: Seq<u32>, to_dirid: u64)
    requires
        m.inv(),
        to.len() > 0,
    ensures
        m.without_replaced(from, to, to_dirid).inv(),
        m.without_replaced(from, to, to_dirid).names == m.names,
        m.without_replaced(from, to, to_dirid).next_fileid == m.next_fileid,
        m.without_replaced(from, to, to_dirid).mounts == m.mounts,
        m.without_replaced(from, to, to_dirid).entries.contains_key(0),
        to_dirid != 0 ==> m.without_replaced(from, to, to_dirid).entries[0] == m.entries[0],
        forall|x: u64| #[trigger]
            m.without_replaced(from, to, to_dirid).entries.contains_key(x)
                ==> m.entries.contains_key(x) && m.without_replaced(
                from,
                to,
                to_dirid,
            ).entries[x].name == m.entries[x].name && m.without_replaced(
                from,
                to,
                to_dirid,
            ).entries[x].fsmeta == m.entries[x].fsmeta,
        forall|p: Seq<u32>| #[trigger]
            m.without_replaced(from, to, to_dirid).paths.contains_key(p) ==> m.paths.contains_key(
                p,
            ) && m.without_replaced(from, to, to_dirid).paths[p] == m.paths[p],
{
    if m.paths.contains_key(from) && m.paths.contains_key(to) && m.paths[to] != m.paths[from] {
        let gone = m.paths[to];
        assert(gone != 0);
        lemma_after_delete_inv(m, gone);
        lemma_root_unreached(m, gone);
        let cleared = m.after_delete(gone);
        assert(cleared.entries.contains_key(0));
        lemma_without_child_inv(cleared, to_dirid, gone);
    }
}

/// Moving a binding, and the id with it from one list of children to the
/// other, keeps the invariant of the map; no entry comes or goes, and the
/// root stays as it is listed unless it is one of the directories.
pub proof fn lemma_after_move_inv(
    m: FsModel,
    from: Seq<u32>,
    to: Seq<u32>,
    from_dirid: u64,
    to_dirid: u64,
)
    requires
        m.inv(),
        from.len() > 0,
        to.len() > 0,
        m.known_path(to),
    ensures
        m.after_move(from, to, from_dirid, to_dirid).inv(),
        m.after_move(from, to, from_dirid, to_dirid).names == m.names,
        m.after_move(from, to, from_dirid, to_dirid).next_fileid == m.next_fileid,
        m.after_move(from, to, from_dirid, to_dirid).mounts == m.mounts,
        m.after_move(from, to, from_dirid, to_dirid).entries.dom() == m.entries.dom(),
        from_dirid != 0 && to_dirid != 0 ==> m.after_move(
            from,
            to,
            from_dirid,
            to_dirid,
        ).entries[0].children == m.entries[0].children,
{
    if m.paths.contains_key(from) {
        let id = m.paths[from];
        assert(id != 0);
        lemma_rebound_inv(m, from, to);
        let r = m.rebound(from, to);
        assert(r.entries.dom() =~= m.entries.dom());
        if to_dirid != from_dirid {
            lemma_without_child_inv(r, from_dirid, id);
            let w = r.without_child(from_dirid, id);
            assert(w.entries.dom() =~= r.entries.dom());
            lemma_with_child_inv(w, to_dirid, id);
            assert(w.with_child(to_dirid, id).entries.dom() =~= w.entries.dom());
        }
    }
}

} // verus!
