//! The map from symbolic paths to file ids.
//!
//! A symbolic path is a sequence of symbols. The index keeps each bound path
//! once, beside the id it is bound to, in the bucket that the key of the path
//! names; paths with the same key share a bucket.

use std::collections::HashMap;
use vstd::prelude::*;

verus! {

/// Whether two symbolic paths are component-wise equal.
pub fn same_path(a: &[u32], b: &[u32]) -> (out: bool)
    ensures
        out == (a@ == b@),
{
    if a.len() != b.len() {
        return false;
    }
    let mut i: usize = 0;
    while i < a.len()
        invariant
            a.len() == b.len(),
            i <= a.len(),
            forall|k: int| 0 <= k < i ==> a@[k] == b@[k],
        decreases a.len() - i,
    {
        if a[i] != b[i] {
            return false;
        }
        i = i + 1;
    }
    assert(a@ =~= b@);
    true
}

/// Whether two byte strings are equal.
pub fn same_bytes(a: &[u8], b: &[u8]) -> (out: bool)
    ensures
        out == (a@ == b@),
{
    if a.len() != b.len() {
        return false;
    }
    let mut i: usize = 0;
    while i < a.len()
        invariant
            a.len() == b.len(),
            i <= a.len(),
            forall|k: int| 0 <= k < i ==> a@[k] == b@[k],
        decreases a.len() - i,
    {
        if a[i] != b[i] {
            return false;
        }
        i = i + 1;
    }
    assert(a@ =~= b@);
    true
}

/// The key of a symbolic path: a number below 2^32 that equal paths share.
pub open spec fn path_key(path: Seq<u32>) -> u64
    decreases path.len(),
{
    if path.len() == 0 {
        0
    } else {
        ((path_key(path.drop_last()) * 31 + path.last() + 1) % 4294967291) as u64
    }
}

/// The key of a symbolic path.
pub fn key_of(path: &[u32]) -> (key: u64)
    ensures
        key == path_key(path@),
{
    let mut key: u64 = 0;
    let mut i: usize = 0;
    assert(path@.take(0) =~= Seq::<u32>::empty());
    while i < path.len()
        invariant
            i <= path.len(),
            key == path_key(path@.take(i as int)),
            key < 4294967291,
        decreases path.len() - i,
    {
        proof {
            assert(path@.take(i + 1).drop_last() =~= path@.take(i as int));
            assert(path@.take(i + 1).last() == path@[i as int]);
        }
        key = (key * 31 + path[i] as u64 + 1) % 4294967291;
        i = i + 1;
    }
    assert(path@.take(path.len() as int) =~= path@);
    key
}

/// The bound paths that share a key, each beside its id.
pub struct PathBucket {
    keys: Vec<Vec<u32>>,
    ids: Vec<u64>,
}

impl PathBucket {
    spec fn holds_at(&self, i: int, path: Seq<u32>) -> bool {
        0 <= i < self.keys.len() && self.keys@[i]@ == path
    }

    /// Each bound path is kept once.
    pub closed spec fn wf(&self) -> bool {
        &&& self.keys.len() == self.ids.len()
        &&& forall|i: int, j: int|
            0 <= i < self.keys.len() && 0 <= j < self.keys.len() && i != j ==> self.keys@[i]@
                != self.keys@[j]@
    }

    /// The bindings as a mathematical map.
    pub closed spec fn view(&self) -> Map<Seq<u32>, u64> {
        Map::new(
            |path: Seq<u32>| exists|i: int| self.holds_at(i, path),
            |path: Seq<u32>| self.ids@[choose|i: int| self.holds_at(i, path)],
        )
    }

    proof fn lemma_slot(&self, i: int)
        requires
            self.wf(),
            0 <= i < self.keys.len(),
        ensures
            self@.contains_key(self.keys@[i]@),
            self@[self.keys@[i]@] == self.ids@[i],
    {
        let path = self.keys@[i]@;
        assert(self.holds_at(i, path));
        let j = choose|j: int| self.holds_at(j, path);
        assert(j == i);
    }

    /// A bucket without bindings.
    pub fn new() -> (out: PathBucket)
        ensures
            out.wf(),
            out@ =~= Map::<Seq<u32>, u64>::empty(),
    {
        let out = PathBucket { keys: Vec::new(), ids: Vec::new() };
        assert forall|path: Seq<u32>| !out@.contains_key(path) by {
            if out@.contains_key(path) {
                let i = choose|i: int| out.holds_at(i, path);
                assert(out.holds_at(i, path));
            }
        }
        out
    }

    fn position(&self, path: &[u32]) -> (out: Option<usize>)
        requires
            self.wf(),
        ensures
            out matches Some(i) ==> self.holds_at(i as int, path@),
            out is None ==> forall|i: int| !self.holds_at(i, path@),
    {
        let mut i: usize = 0;
        while i < self.keys.len()
            invariant
                i <= self.keys.len(),
                forall|k: int| 0 <= k < i ==> !self.holds_at(k, path@),
            decreases self.keys.len() - i,
        {
            if same_path(self.keys[i].as_slice(), path) {
                return Some(i);
            }
            i = i + 1;
        }
        None
    }

    /// The id that `path` is bound to.
    pub fn get(&self, path: &[u32]) -> (out: Option<u64>)
        requires
            self.wf(),
        ensures
            out == if self@.contains_key(path@) {
                Some(self@[path@])
            } else {
                None
            },
    {
        match self.position(path) {
            Some(i) => {
                proof {
                    self.lemma_slot(i as int);
                }
                Some(self.ids[i])
            },
            None => None,
        }
    }

    /// Binds `path` to `id`, replacing an earlier binding of `path`.
    pub fn bind(&mut self, path: Vec<u32>, id: u64)
        requires
            old(self).wf(),
        ensures
            final(self).wf(),
            final(self)@ == old(self)@.insert(path@, id),
    {
        let ghost before = *self;
        match self.position(path.as_slice()) {
            Some(i) => {
                self.ids.set(i, id);
                proof {
                    let after = *self;
                    assert forall|p: Seq<u32>| #[trigger]
                        after@.contains_key(p) == before@.insert(path@, id).contains_key(
                            p,
                        ) by {
                        if before@.contains_key(p) {
                            let k = choose|k: int| before.holds_at(k, p);
                            assert(after.holds_at(k, p));
                        }
                        if after@.contains_key(p) {
                            let k = choose|k: int| after.holds_at(k, p);
                            assert(before.holds_at(k, p));
                        }
                        if p == path@ {
                            assert(after.holds_at(i as int, p));
                        }
                    }
                    assert forall|p: Seq<u32>| after@.contains_key(p) implies #[trigger] after@[p]
                        == before@.insert(path@, id)[p] by {
                        let k = choose|k: int| after.holds_at(k, p);
                        after.lemma_slot(k);
                        if p != path@ {
                            before.lemma_slot(k);
                        }
                    }
                    assert(after@ =~= before@.insert(path@, id));
                }
            },
            None => {
                let ghost key = path@;
                self.keys.push(path);
                self.ids.push(id);
                proof {
                    let after = *self;
                    let n = before.keys.len() as int;
                    assert(after.keys@[n]@ == key);
                    assert forall|a: int, b: int|
                        0 <= a < after.keys.len() && 0 <= b < after.keys.len() && a
                            != b implies after.keys@[a]@ != after.keys@[b]@ by {
                        if a == n {
                            assert(!before.holds_at(b, key));
                        } else if b == n {
                            assert(!before.holds_at(a, key));
                        }
                    }
                    assert forall|p: Seq<u32>| #[trigger]
                        after@.contains_key(p) == before@.insert(key, id).contains_key(p) by {
                        if before@.contains_key(p) {
                            let k = choose|k: int| before.holds_at(k, p);
                            assert(after.holds_at(k, p));
                        }
                        if after@.contains_key(p) {
                            let k = choose|k: int| after.holds_at(k, p);
                            if k < n {
                                assert(before.holds_at(k, p));
                            }
                        }
                        if p == key {
                            assert(after.holds_at(n, p));
                        }
                    }
                    assert forall|p: Seq<u32>| after@.contains_key(p) implies #[trigger] after@[p]
                        == before@.insert(key, id)[p] by {
                        let k = choose|k: int| after.holds_at(k, p);
                        after.lemma_slot(k);
                        if k < n {
                            before.lemma_slot(k);
                        }
                    }
                    assert(after@ =~= before@.insert(key, id));
                }
            },
        }
    }

    /// Drops the binding of `path`, if there is one.
    pub fn unbind(&mut self, path: &[u32])
        requires
            old(self).wf(),
        ensures
            final(self).wf(),
            final(self)@ == old(self)@.remove(path@),
    {
        let ghost before = *self;
        match self.position(path) {
            Some(i) => {
                let ghost n = before.keys.len() as int;
                self.keys.swap_remove(i);
                self.ids.swap_remove(i);
                proof {
                    let after = *self;
                    // Slot `k` of the new index holds what slot `from(k)` held.
                    let from = |k: int| if k == i as int { n - 1 } else { k };
                    assert forall|k: int| 0 <= k < after.keys.len() implies after.keys@[k]
                        == before.keys@[from(k)] && after.ids@[k] == before.ids@[from(k)] by {}
                    assert forall|a: int, b: int|
                        0 <= a < after.keys.len() && 0 <= b < after.keys.len() && a
                            != b implies after.keys@[a]@ != after.keys@[b]@ by {
                        assert(from(a) != from(b));
                    }
                    assert forall|p: Seq<u32>| #[trigger]
                        after@.contains_key(p) == before@.remove(path@).contains_key(p) by {
                        if after@.contains_key(p) {
                            let k = choose|k: int| after.holds_at(k, p);
                            assert(before.holds_at(from(k), p));
                            assert(from(k) != i as int);
                        }
                        if before@.contains_key(p) && p != path@ {
                            let k = choose|k: int| before.holds_at(k, p);
                            if k == n - 1 {
                                assert(after.holds_at(i as int, p));
                            } else {
                                assert(after.holds_at(k, p));
                            }
                        }
                    }
                    assert forall|p: Seq<u32>| after@.contains_key(p) implies #[trigger] after@[p]
                        == before@.remove(path@)[p] by {
                        let k = choose|k: int| after.holds_at(k, p);
                        after.lemma_slot(k);
                        before.lemma_slot(from(k));
                    }
                    assert(after@ =~= before@.remove(path@));
                }
            },
            None => {
                proof {
                    assert(!before@.contains_key(path@));
                    assert(before@ =~= before@.remove(path@));
                }
            },
        }
    }
}

/// A finite map from symbolic paths to file ids.
pub struct PathIndex {
    buckets: HashMap<u64, PathBucket>,
}

impl PathIndex {
    /// Every bucket is well-formed and holds only paths with its key.
    pub closed spec fn wf(&self) -> bool {
        forall|k: u64| #[trigger]
            self.buckets@.contains_key(k) ==> self.buckets@[k].wf() && forall|p: Seq<u32>| #[trigger]
                self.buckets@[k]@.contains_key(p) ==> path_key(p) == k
    }

    /// The bindings as a mathematical map.
    pub closed spec fn view(&self) -> Map<Seq<u32>, u64> {
        Map::new(
            |p: Seq<u32>|
                self.buckets@.contains_key(path_key(p)) && self.buckets@[path_key(p)]@.contains_key(
                    p,
                ),
            |p: Seq<u32>| self.buckets@[path_key(p)]@[p],
        )
    }

    /// An index without bindings.
    pub fn new() -> (out: PathIndex)
        ensures
            out.wf(),
            out@ =~= Map::<Seq<u32>, u64>::empty(),
    {
        PathIndex { buckets: HashMap::new() }
    }

    /// The id that `path` is bound to.
    pub fn get(&self, path: &[u32]) -> (out: Option<u64>)
        requires
            self.wf(),
        ensures
            out == if self@.contains_key(path@) {
                Some(self@[path@])
            } else {
                None
            },
    {
        let key = key_of(path);
        match self.buckets.get(&key) {
            Some(bucket) => bucket.get(path),
            None => None,
        }
    }

    /// Binds `path` to `id`, replacing an earlier binding of `path`.
    pub fn bind(&mut self, path: Vec<u32>, id: u64)
        requires
            old(self).wf(),
        ensures
            final(self).wf(),
            final(self)@ == old(self)@.insert(path@, id),
    {
        let ghost before = *self;
        let ghost bound = path@;
        let key = key_of(path.as_slice());
        let mut bucket = match self.buckets.remove(&key) {
            Some(bucket) => bucket,
            None => PathBucket::new(),
        };
        bucket.bind(path, id);
        self.buckets.insert(key, bucket);
        proof {
            assert forall|k: u64| #[trigger] self.buckets@.contains_key(k) implies self.buckets@[k].wf()
                && forall|p: Seq<u32>| #[trigger]
                self.buckets@[k]@.contains_key(p) ==> path_key(p) == k by {
                if k != key {
                    assert(before.buckets@.contains_key(k));
                }
            }
            assert(self@ =~= before@.insert(bound, id));
        }
    }

    /// Drops the binding of `path`, if there is one.
    pub fn unbind(&mut self, path: &[u32])
        requires
            old(self).wf(),
        ensures
            final(self).wf(),
            final(self)@ == old(self)@.remove(path@),
    {
        let ghost before = *self;
        let key = key_of(path);
        match self.buckets.remove(&key) {
            Some(bucket) => {
                let mut bucket = bucket;
                bucket.unbind(path);
                self.buckets.insert(key, bucket);
            },
            None => {},
        }
        proof {
            assert forall|k: u64| #[trigger] self.buckets@.contains_key(k) implies self.buckets@[k].wf()
                && forall|p: Seq<u32>| #[trigger]
                self.buckets@[k]@.contains_key(p) ==> path_key(p) == k by {
                if k != key {
                    assert(before.buckets@.contains_key(k));
                }
            }
            assert(self@ =~= before@.remove(path@));
        }
    }
}

} // verus!
