use vstd::prelude::*;
use vstd::std_specs::cmp::OrdSpec;
use crate::collections::order::has_key;
use crate::collections::order::key_index;
use crate::collections::order::lemma_sorted_key_unique;
use crate::collections::order::rec_map;
use crate::collections::order::sorted_recs;
use crate::collections::order::total_order;
use crate::collections::record::Rec;

verus! {

/// A map over a sorted vector of records, searched by bisection.
pub struct BTreeMap<K, V>(Vec<Rec<K, V>>);

impl<K, V> BTreeMap<K, V> {
    /// The record storage, in key order.
    pub closed spec fn recs(self) -> Seq<Rec<K, V>> {
        self.0@
    }

    /// The mapping this container denotes.
    pub closed spec fn view(self) -> Map<K, V> {
        rec_map(self.0@)
    }

    /// An empty map.
    pub fn new() -> (r: BTreeMap<K, V>)
        ensures
            r.view() == Map::<K, V>::empty(),
            r.recs().len() == 0,
    {
        let r = BTreeMap(Vec::new());
        proof {
            assert(r.view() =~= Map::<K, V>::empty());
        }
        r
    }

    /// Drops every record.
    pub fn clear(&mut self)
        ensures
            final(self).view() == Map::<K, V>::empty(),
            final(self).recs().len() == 0,
    {
        self.0.clear();
        proof {
            assert(self.view() =~= Map::<K, V>::empty());
        }
    }

    /// Whether no record is stored.
    pub fn is_empty(&self) -> (r: bool)
        ensures
            r == (self.recs().len() == 0),
            r == self.view().dom().is_empty(),
    {
        proof {
            if self.recs().len() == 0 {
                assert(self.view().dom() =~= Set::<K>::empty());
            } else {
                assert(self.view().dom().contains(self.recs()[0].key));
            }
        }
        self.0.is_empty()
    }

    /// Number of records stored.
    pub fn len(&self) -> (r: usize)
        ensures
            r == self.recs().len(),
    {
        self.0.len()
    }
}

impl<K: Ord, V> BTreeMap<K, V> {
    /// Validity: the records are strictly ascending by key.
    pub closed spec fn wf(self) -> bool {
        sorted_recs(self.0@)
    }

    /// Bisects for `k`: the index holding it, or else the insertion point
    /// that keeps the vector sorted.
    fn get_index(&self, k: &K) -> (r: Result<usize, usize>)
        requires
            total_order::<K>(),
            self.wf(),
        ensures
            match r {
                Ok(i) => i < self.recs().len() && self.recs()[i as int].key == *k,
                Err(i) => i <= self.recs().len() && !has_key(self.recs(), *k) && (forall|j: int|
                    0 <= j < i ==> (#[trigger] self.recs()[j]).key.cmp_spec(k) is Less) && (forall|
                    j: int,
                |
                    i <= j < self.recs().len() ==> (#[trigger] self.recs()[j]).key.cmp_spec(
                        k,
                    ) is Greater),
            },
    {
        let mut lo: usize = 0;
        let mut hi: usize = self.0.len();
        while lo < hi
            invariant
                total_order::<K>(),
                self.wf(),
                lo <= hi <= self.recs().len(),
                forall|j: int| 0 <= j < lo ==> (#[trigger] self.recs()[j]).key.cmp_spec(k) is Less,
                forall|j: int|
                    hi <= j < self.recs().len() ==> (#[trigger] self.recs()[j]).key.cmp_spec(
                        k,
                    ) is Greater,
            decreases hi - lo,
        {
            let mid = lo + (hi - lo) / 2;
            let rec = &self.0[mid];
            match rec.key.cmp(k) {
                core::cmp::Ordering::Less => {
                    proof {
                        assert forall|j: int| 0 <= j < mid + 1 implies (
                        #[trigger] self.recs()[j]).key.cmp_spec(k) is Less by {
                            if j < mid {
                                assert(self.recs()[j].key.cmp_spec(&self.recs()[mid as int].key)
                                    is Less);
                            }
                        }
                    }
                    lo = mid + 1;
                },
                core::cmp::Ordering::Greater => {
                    proof {
                        assert forall|j: int|
                            mid <= j < self.recs().len() implies (
                        #[trigger] self.recs()[j]).key.cmp_spec(k) is Greater by {
                            if mid < j {
                                assert(self.recs()[mid as int].key.cmp_spec(&self.recs()[j].key)
                                    is Less);
                                assert(k.cmp_spec(&self.recs()[mid as int].key) is Less);
                                assert(k.cmp_spec(&self.recs()[j].key) is Less);
                            }
                        }
                    }
                    hi = mid;
                },
                core::cmp::Ordering::Equal => {
                    return Ok(mid);
                },
            }
        }
        proof {
            if has_key(self.recs(), *k) {
                let i = key_index(self.recs(), *k);
                lemma_sorted_key_unique(self.recs(), *k);
                assert(self.recs()[i].key.cmp_spec(k) is Equal);
            }
        }
        Err(lo)
    }

    /// Inserts a pair, returning the value previously under the key.
    pub fn insert(&mut self, k: K, v: V) -> (r: Option<V>)
        requires
            total_order::<K>(),
            old(self).wf(),
            old(self).recs().len() < usize::MAX,
        ensures
            final(self).wf(),
            final(self).view() == old(self).view().insert(k, v),
            match r {
                Some(w) => old(self).view().contains_key(k) && w == old(self).view()[k]
                    && final(self).recs().len() == old(self).recs().len(),
                None => !old(self).view().contains_key(k) && final(self).recs().len() == old(
                    self,
                ).recs().len() + 1,
            },
    {
        let ghost pre = self.0@;
        match self.get_index(&k) {
            Ok(i) => {
                let old_rec = self.0.remove(i);
                self.0.insert(i, Rec::new(k, v));
                proof {
                    lemma_sorted_key_unique(pre, k);
                    assert(self.0@ =~= pre.update(i as int, Rec { key: k, val: v }));
                    assert(sorted_recs(self.0@)) by {
                        assert forall|a: int, b: int|
                            0 <= a < b < self.0@.len() implies (
                        #[trigger] self.0@[a]).key.cmp_spec(&(#[trigger] self.0@[b]).key)
                            is Less by {
                            assert(pre[a].key.cmp_spec(&pre[b].key) is Less);
                        }
                    }
                    assert(self.view() =~= rec_map(pre).insert(k, v)) by {
                        assert forall|x: K| true implies #[trigger] self.view().contains_key(x)
                            == rec_map(pre).insert(k, v).contains_key(x) && (
                        self.view().contains_key(x) ==> self.view()[x] == rec_map(pre).insert(
                            k,
                            v,
                        )[x]) by {
                            if x == k {
                                assert(self.0@[i as int].key == k);
                                lemma_sorted_key_unique(self.0@, k);
                            } else {
                                if has_key(pre, x) {
                                    let w = key_index(pre, x);
                                    lemma_sorted_key_unique(pre, x);
                                    assert(self.0@[w] == pre[w]);
                                    lemma_sorted_key_unique(self.0@, x);
                                }
                                if has_key(self.0@, x) {
                                    let w = key_index(self.0@, x);
                                    lemma_sorted_key_unique(self.0@, x);
                                    assert(pre[w] == self.0@[w]);
                                    lemma_sorted_key_unique(pre, x);
                                }
                            }
                        }
                    }
                    assert(rec_map(pre).contains_key(k)) by {
                        assert(pre[i as int].key == k);
                    }
                    assert(old_rec.val == rec_map(pre)[k]) by {
                        lemma_sorted_key_unique(pre, k);
                    }
                }
                Some(old_rec.into_pair().1)
            },
            Err(i) => {
                self.0.insert(i, Rec::new(k, v));
                proof {
                    assert(self.0@ =~= pre.insert(i as int, Rec { key: k, val: v }));
                    assert(sorted_recs(self.0@)) by {
                        assert forall|a: int, b: int|
                            0 <= a < b < self.0@.len() implies (
                        #[trigger] self.0@[a]).key.cmp_spec(&(#[trigger] self.0@[b]).key)
                            is Less by {
                            let ra = if a < i {
                                pre[a]
                            } else if a == i {
                                Rec { key: k, val: v }
                            } else {
                                pre[a - 1]
                            };
                            let rb = if b < i {
                                pre[b]
                            } else if b == i {
                                Rec { key: k, val: v }
                            } else {
                                pre[b - 1]
                            };
                            assert(self.0@[a] == ra && self.0@[b] == rb);
                        }
                    }
                    assert(self.view() =~= rec_map(pre).insert(k, v)) by {
                        assert forall|x: K| true implies #[trigger] self.view().contains_key(x)
                            == rec_map(pre).insert(k, v).contains_key(x) && (
                        self.view().contains_key(x) ==> self.view()[x] == rec_map(pre).insert(
                            k,
                            v,
                        )[x]) by {
                            if x == k {
                                assert(self.0@[i as int].key == k);
                                lemma_sorted_key_unique(self.0@, k);
                            } else {
                                if has_key(pre, x) {
                                    let w = key_index(pre, x);
                                    lemma_sorted_key_unique(pre, x);
                                    let w2: int = if w < i {
                                        w
                                    } else {
                                        w + 1
                                    };
                                    assert(self.0@[w2] == pre[w]);
                                    assert(has_key(self.0@, x));
                                    lemma_sorted_key_unique(self.0@, x);
                                }
                                if has_key(self.0@, x) {
                                    let w = key_index(self.0@, x);
                                    lemma_sorted_key_unique(self.0@, x);
                                    let w2: int = if w < i {
                                        w
                                    } else {
                                        w - 1
                                    };
                                    assert(pre[w2] == self.0@[w]);
                                    assert(has_key(pre, x));
                                    lemma_sorted_key_unique(pre, x);
                                }
                            }
                        }
                    }
                    assert(!rec_map(pre).contains_key(k));
                }
                None
            },
        }
    }

    /// Looks a key up.
    pub fn get(&self, k: &K) -> (r: Option<&V>)
        requires
            total_order::<K>(),
            self.wf(),
        ensures
            match r {
                Some(v) => self.view().contains_key(*k) && *v == self.view()[*k],
                None => !self.view().contains_key(*k),
            },
    {
        match self.get_index(k) {
            Ok(i) => {
                let rec = &self.0[i];
                proof {
                    assert(has_key(self.0@, *k));
                    lemma_sorted_key_unique(self.0@, *k);
                }
                Some(rec.value())
            },
            Err(_) => None,
        }
    }

    /// Mutably borrows the value under a key, when present; only that
    /// value can change through the borrow.
    pub fn get_mut(&mut self, k: &K) -> (r: Option<&mut V>)
        requires
            total_order::<K>(),
            old(self).wf(),
        ensures
            old(self).view().contains_key(*k) == (r is Some),
            r is None ==> *final(self) == *old(self),
            r matches Some(v) ==> *v == old(self).view()[*k] && final(self).wf()
                && final(self).view() == old(self).view().insert(*k, *final(v))
                && final(self).recs().len() == old(self).recs().len(),
    {
        let ghost pre = self.0@;
        match self.get_index(k) {
            Ok(i) => {
                proof {
                    assert(has_key(pre, *k));
                    lemma_sorted_key_unique(pre, *k);
                }
                let rec = &mut self.0[i];
                let r = rec.value_mut();
                proof {
                    assert(after_borrow(self.0)@ =~= pre.update(
                        i as int,
                        Rec { key: pre[i as int].key, val: *final(r) },
                    ));
                    let cur = pre.update(i as int, Rec { key: pre[i as int].key, val: *final(r) });
                    assert(sorted_recs(cur)) by {
                        assert forall|a: int, b: int|
                            0 <= a < b < cur.len() implies (#[trigger] cur[a]).key.cmp_spec(
                            &(#[trigger] cur[b]).key,
                        ) is Less by {
                            assert(pre[a].key.cmp_spec(&pre[b].key) is Less);
                        }
                    }
                    assert(rec_map(cur) =~= rec_map(pre).insert(*k, *final(r))) by {
                        assert forall|x: K| true implies #[trigger] rec_map(cur).contains_key(x)
                            == rec_map(pre).insert(*k, *final(r)).contains_key(x) && (rec_map(
                            cur,
                        ).contains_key(x) ==> rec_map(cur)[x] == rec_map(pre).insert(
                            *k,
                            *final(r),
                        )[x]) by {
                            if x == *k {
                                assert(cur[i as int].key == *k);
                                lemma_sorted_key_unique(cur, *k);
                            } else {
                                if has_key(pre, x) {
                                    let w = key_index(pre, x);
                                    lemma_sorted_key_unique(pre, x);
                                    assert(cur[w] == pre[w]);
                                    lemma_sorted_key_unique(cur, x);
                                }
                                if has_key(cur, x) {
                                    let w = key_index(cur, x);
                                    lemma_sorted_key_unique(cur, x);
                                    assert(pre[w] == cur[w]);
                                    lemma_sorted_key_unique(pre, x);
                                }
                            }
                        }
                    }
                }
                Some(r)
            },
            Err(_) => None,
        }
    }

    /// Mutably borrows the value under `k`, creating it first from the
    /// given producer when the key is absent.
    pub fn get_or_create_mut<F: FnOnce() -> V>(&mut self, k: K, new: F) -> (r: &mut V)
        requires
            total_order::<K>(),
            old(self).wf(),
            old(self).recs().len() < usize::MAX,
            new.requires(()),
        ensures
            final(self).wf(),
            final(self).view() == old(self).view().insert(k, *final(r)),
            old(self).view().contains_key(k) ==> *r == old(self).view()[k],
            !old(self).view().contains_key(k) ==> call_ensures(new, (), *r),
    {
        let ghost pre0 = *self;
        let i = match self.get_index(&k) {
            Ok(i) => i,
            Err(i) => {
                let v = new();
                self.0.insert(i, Rec::new(k, v));
                i
            },
        };
        let ghost pre = self.0@;
        proof {
            assert(pre[i as int].key == k) by {
                if !pre0.view().contains_key(k) {
                    assert(self.0@ =~= pre0.recs().insert(i as int, pre[i as int]));
                }
            }
            assert(sorted_recs(pre)) by {
                if !pre0.view().contains_key(k) {
                    assert forall|a: int, b: int|
                        0 <= a < b < pre.len() implies (#[trigger] pre[a]).key.cmp_spec(
                        &(#[trigger] pre[b]).key,
                    ) is Less by {
                        let ra = if a < i {
                            pre0.recs()[a]
                        } else if a == i {
                            pre[i as int]
                        } else {
                            pre0.recs()[a - 1]
                        };
                        let rb = if b < i {
                            pre0.recs()[b]
                        } else if b == i {
                            pre[i as int]
                        } else {
                            pre0.recs()[b - 1]
                        };
                        assert(pre[a] == ra && pre[b] == rb);
                    }
                }
            }
            lemma_sorted_key_unique(pre, k);
        }
        let rec = &mut self.0[i];
        let r = rec.value_mut();
        proof {
            assert(after_borrow(self.0)@ =~= pre.update(
                i as int,
                Rec { key: pre[i as int].key, val: *final(r) },
            ));
            let cur = pre.update(i as int, Rec { key: pre[i as int].key, val: *final(r) });
            assert(sorted_recs(cur)) by {
                assert forall|a: int, b: int|
                    0 <= a < b < cur.len() implies (#[trigger] cur[a]).key.cmp_spec(
                    &(#[trigger] cur[b]).key,
                ) is Less by {
                    assert(pre[a].key.cmp_spec(&pre[b].key) is Less);
                }
            }
            assert(rec_map(cur) =~= rec_map(pre0.recs()).insert(k, *final(r))) by {
                assert forall|x: K| true implies #[trigger] rec_map(cur).contains_key(x)
                    == rec_map(pre0.recs()).insert(k, *final(r)).contains_key(x) && (rec_map(
                    cur,
                ).contains_key(x) ==> rec_map(cur)[x] == rec_map(pre0.recs()).insert(
                    k,
                    *final(r),
                )[x]) by {
                    if x == k {
                        assert(cur[i as int].key == k);
                        lemma_sorted_key_unique(cur, k);
                    } else {
                        if pre0.view().contains_key(k) {
                            if has_key(pre0.recs(), x) {
                                let w = key_index(pre0.recs(), x);
                                lemma_sorted_key_unique(pre0.recs(), x);
                                assert(cur[w] == pre0.recs()[w]);
                                lemma_sorted_key_unique(cur, x);
                            }
                            if has_key(cur, x) {
                                let w = key_index(cur, x);
                                lemma_sorted_key_unique(cur, x);
                                assert(pre0.recs()[w] == cur[w]);
                                lemma_sorted_key_unique(pre0.recs(), x);
                            }
                        } else {
                            assert(pre =~= pre0.recs().insert(i as int, pre[i as int]));
                            if has_key(pre0.recs(), x) {
                                let w = key_index(pre0.recs(), x);
                                lemma_sorted_key_unique(pre0.recs(), x);
                                let w2: int = if w < i {
                                    w
                                } else {
                                    w + 1
                                };
                                assert(cur[w2] == pre0.recs()[w]);
                                assert(has_key(cur, x));
                                lemma_sorted_key_unique(cur, x);
                            }
                            if has_key(cur, x) {
                                let w = key_index(cur, x);
                                lemma_sorted_key_unique(cur, x);
                                let w2: int = if w < i {
                                    w
                                } else {
                                    w - 1
                                };
                                assert(pre0.recs()[w2] == cur[w]);
                                assert(has_key(pre0.recs(), x));
                                lemma_sorted_key_unique(pre0.recs(), x);
                            }
                        }
                    }
                }
            }
            if pre0.view().contains_key(k) {
                lemma_sorted_key_unique(pre0.recs(), k);
            }
        }
        r
    }

    /// Whether the key is present.
    pub fn contains(&self, k: &K) -> (r: bool)
        requires
            total_order::<K>(),
            self.wf(),
        ensures
            r == self.view().contains_key(*k),
    {
        match self.get_index(k) {
            Ok(i) => {
                proof {
                    assert(has_key(self.0@, *k));
                }
                true
            },
            Err(_) => false,
        }
    }

    /// Removes a key, returning the value stored under it.
    pub fn remove(&mut self, k: &K) -> (r: Option<V>)
        requires
            total_order::<K>(),
            old(self).wf(),
        ensures
            final(self).wf(),
            final(self).view() == old(self).view().remove(*k),
            match r {
                Some(v) => old(self).view().contains_key(*k) && v == old(self).view()[*k]
                    && final(self).recs().len() + 1 == old(self).recs().len(),
                None => !old(self).view().contains_key(*k) && *final(self) == *old(self),
            },
    {
        let ghost pre = self.0@;
        match self.get_index(k) {
            Ok(i) => {
                let old_rec = self.0.remove(i);
                proof {
                    lemma_sorted_key_unique(pre, *k);
                    assert(self.0@ =~= pre.remove(i as int));
                    assert(sorted_recs(self.0@)) by {
                        assert forall|a: int, b: int|
                            0 <= a < b < self.0@.len() implies (
                        #[trigger] self.0@[a]).key.cmp_spec(&(#[trigger] self.0@[b]).key)
                            is Less by {
                            let ra: int = if a < i {
                                a
                            } else {
                                a + 1
                            };
                            let rb: int = if b < i {
                                b
                            } else {
                                b + 1
                            };
                            assert(self.0@[a] == pre[ra] && self.0@[b] == pre[rb]);
                        }
                    }
                    assert(self.view() =~= rec_map(pre).remove(*k)) by {
                        assert forall|x: K| true implies #[trigger] self.view().contains_key(x)
                            == rec_map(pre).remove(*k).contains_key(x) && (
                        self.view().contains_key(x) ==> self.view()[x] == rec_map(pre).remove(
                            *k,
                        )[x]) by {
                            if x == *k {
                                if has_key(self.0@, x) {
                                    let w = key_index(self.0@, x);
                                    lemma_sorted_key_unique(self.0@, x);
                                    let w2: int = if w < i {
                                        w
                                    } else {
                                        w + 1
                                    };
                                    assert(pre[w2] == self.0@[w]);
                                    lemma_sorted_key_unique(pre, x);
                                }
                            } else {
                                if has_key(pre, x) {
                                    let w = key_index(pre, x);
                                    lemma_sorted_key_unique(pre, x);
                                    let w2: int = if w < i {
                                        w
                                    } else {
                                        w - 1
                                    };
                                    assert(self.0@[w2] == pre[w]);
                                    assert(has_key(self.0@, x));
                                    lemma_sorted_key_unique(self.0@, x);
                                }
                                if has_key(self.0@, x) {
                                    let w = key_index(self.0@, x);
                                    lemma_sorted_key_unique(self.0@, x);
                                    let w2: int = if w < i {
                                        w
                                    } else {
                                        w + 1
                                    };
                                    assert(pre[w2] == self.0@[w]);
                                    assert(has_key(pre, x));
                                    lemma_sorted_key_unique(pre, x);
                                }
                            }
                        }
                    }
                    assert(rec_map(pre).contains_key(*k)) by {
                        assert(pre[i as int].key == *k);
                    }
                    assert(old_rec.val == rec_map(pre)[*k]);
                }
                Some(old_rec.into_pair().1)
            },
            Err(_) => {
                proof {
                    assert(self.view() =~= rec_map(pre).remove(*k));
                }
                None
            },
        }
    }
}

impl<K, V> BTreeMap<K, V> {
    /// A cursor over the records, in key order.
    pub fn iter<'i>(&'i self) -> (r: MapIter<'i, K, V>)
        ensures
            r.wf(),
            r.map() == *self,
            r.spec_pos() == 0,
    {
        MapIter { map: self, pos: 0 }
    }

    /// A cursor over the keys, in order.
    pub fn keys<'i>(&'i self) -> (r: Keys<'i, K, V>)
        ensures
            r.wf(),
            r.map() == *self,
            r.spec_pos() == 0,
    {
        Keys { map: self, pos: 0 }
    }

    /// A cursor over the values, in key order.
    pub fn values<'i>(&'i self) -> (r: Values<'i, K, V>)
        ensures
            r.wf(),
            r.map() == *self,
            r.spec_pos() == 0,
    {
        Values { map: self, pos: 0 }
    }

    /// Takes the map apart into an owning cursor over its pairs.
    pub fn into_iter(self) -> (r: MapIntoIter<K, V>)
        ensures
            r.remaining() == self.recs(),
    {
        MapIntoIter(self.0)
    }
}

/// A borrowing cursor over a sorted map's records.
pub struct MapIter<'i, K, V> {
    map: &'i BTreeMap<K, V>,
    pos: usize,
}

impl<'i, K, V> MapIter<'i, K, V> {
    /// The map walked over.
    pub closed spec fn map(self) -> BTreeMap<K, V> {
        *self.map
    }

    /// How many records have been yielded.
    pub closed spec fn spec_pos(self) -> int {
        self.pos as int
    }

    /// Validity: the cursor never runs past the records.
    pub closed spec fn wf(self) -> bool {
        self.pos <= self.map.recs().len()
    }

    /// The next record's key and value, in key order.
    pub fn next(&mut self) -> (r: Option<(&'i K, &'i V)>)
        requires
            old(self).wf(),
        ensures
            final(self).wf(),
            final(self).map() == old(self).map(),
            old(self).spec_pos() == old(self).map().recs().len() ==> r is None && *final(self)
                == *old(self),
            old(self).spec_pos() < old(self).map().recs().len() ==> r is Some && final(self).spec_pos() == old(self).spec_pos() + 1 && (r matches Some(p) ==> *p.0 == old(
                self,
            ).map().recs()[old(self).spec_pos()].key && *p.1 == old(self).map().recs()[old(
                self,
            ).spec_pos()].val),
    {
        if self.pos < self.map.0.len() {
            let rec = &self.map.0[self.pos];
            self.pos = self.pos + 1;
            Some((rec.key(), rec.value()))
        } else {
            None
        }
    }
}

/// A borrowing cursor over a sorted map's keys.
pub struct Keys<'i, K, V> {
    map: &'i BTreeMap<K, V>,
    pos: usize,
}

impl<'i, K, V> Keys<'i, K, V> {
    /// The map walked over.
    pub closed spec fn map(self) -> BTreeMap<K, V> {
        *self.map
    }

    /// How many keys have been yielded.
    pub closed spec fn spec_pos(self) -> int {
        self.pos as int
    }

    /// Validity: the cursor never runs past the records.
    pub closed spec fn wf(self) -> bool {
        self.pos <= self.map.recs().len()
    }

    /// The next key, in order.
    pub fn next(&mut self) -> (r: Option<&'i K>)
        requires
            old(self).wf(),
        ensures
            final(self).wf(),
            final(self).map() == old(self).map(),
            old(self).spec_pos() == old(self).map().recs().len() ==> r is None && *final(self)
                == *old(self),
            old(self).spec_pos() < old(self).map().recs().len() ==> r is Some && final(self).spec_pos() == old(self).spec_pos() + 1 && (r matches Some(k) ==> *k == old(
                self,
            ).map().recs()[old(self).spec_pos()].key),
    {
        if self.pos < self.map.0.len() {
            let rec = &self.map.0[self.pos];
            self.pos = self.pos + 1;
            Some(rec.key())
        } else {
            None
        }
    }
}

/// A borrowing cursor over a sorted map's values.
pub struct Values<'i, K, V> {
    map: &'i BTreeMap<K, V>,
    pos: usize,
}

impl<'i, K, V> Values<'i, K, V> {
    /// The map walked over.
    pub closed spec fn map(self) -> BTreeMap<K, V> {
        *self.map
    }

    /// How many values have been yielded.
    pub closed spec fn spec_pos(self) -> int {
        self.pos as int
    }

    /// Validity: the cursor never runs past the records.
    pub closed spec fn wf(self) -> bool {
        self.pos <= self.map.recs().len()
    }

    /// The next value, in key order.
    pub fn next(&mut self) -> (r: Option<&'i V>)
        requires
            old(self).wf(),
        ensures
            final(self).wf(),
            final(self).map() == old(self).map(),
            old(self).spec_pos() == old(self).map().recs().len() ==> r is None && *final(self)
                == *old(self),
            old(self).spec_pos() < old(self).map().recs().len() ==> r is Some && final(self).spec_pos() == old(self).spec_pos() + 1 && (r matches Some(v) ==> *v == old(
                self,
            ).map().recs()[old(self).spec_pos()].val),
    {
        if self.pos < self.map.0.len() {
            let rec = &self.map.0[self.pos];
            self.pos = self.pos + 1;
            Some(rec.value())
        } else {
            None
        }
    }
}

/// An owning cursor over a sorted map's pairs.
pub struct MapIntoIter<K, V>(Vec<Rec<K, V>>);

impl<K, V> MapIntoIter<K, V> {
    /// The records still to be yielded, in key order.
    pub closed spec fn remaining(self) -> Seq<Rec<K, V>> {
        self.0@
    }

    /// The next pair, in key order.
    pub fn next(&mut self) -> (r: Option<(K, V)>)
        ensures
            old(self).remaining().len() == 0 ==> r is None && *final(self) == *old(self),
            old(self).remaining().len() > 0 ==> r is Some && final(self).remaining() == old(self).remaining().skip(1) && (r matches Some(p) ==> p.0 == old(self).remaining()[0].key
                && p.1 == old(self).remaining()[0].val),
    {
        if self.0.len() > 0 {
            let rec = self.0.remove(0);
            proof {
                assert(self.0@ =~= old(self).remaining().skip(1));
            }
            Some(rec.into_pair())
        } else {
            None
        }
    }
}

/// A set of keys, a sorted map to nothing.
pub struct BTreeSet<K>(BTreeMap<K, ()>);

impl<K> BTreeSet<K> {
    /// The keys this container denotes.
    pub closed spec fn view(self) -> Set<K> {
        self.0.view().dom()
    }

    /// An empty set.
    pub fn new() -> (r: BTreeSet<K>)
        ensures
            r.view() == Set::<K>::empty(),
            r.len_spec() == 0,
    {
        let r = BTreeSet(BTreeMap::new());
        proof {
            assert(r.view() =~= Set::<K>::empty());
        }
        r
    }

    /// The number of stored keys, as the underlying record count.
    pub closed spec fn len_spec(self) -> nat {
        self.0.recs().len()
    }

    /// Drops every key.
    pub fn clear(&mut self)
        ensures
            final(self).view() == Set::<K>::empty(),
            final(self).len_spec() == 0,
    {
        self.0.clear();
        proof {
            assert(self.view() =~= Set::<K>::empty());
        }
    }

    /// Whether no key is stored.
    pub fn is_empty(&self) -> (r: bool)
        ensures
            r == (self.len_spec() == 0),
    {
        self.0.is_empty()
    }

    /// Number of keys stored.
    pub fn len(&self) -> (r: usize)
        ensures
            r == self.len_spec(),
    {
        self.0.len()
    }
}

impl<K: Ord> BTreeSet<K> {
    /// Validity of the underlying sorted vector.
    pub closed spec fn wf(self) -> bool {
        self.0.wf()
    }

    /// Adds a key; true exactly when it was absent.
    pub fn insert(&mut self, k: K) -> (r: bool)
        requires
            total_order::<K>(),
            old(self).wf(),
            old(self).len_spec() < usize::MAX,
        ensures
            final(self).wf(),
            final(self).view() == old(self).view().insert(k),
            r == !old(self).view().contains(k),
    {
        let r = self.0.insert(k, ()).is_none();
        proof {
            assert(self.view() =~= old(self).view().insert(k));
        }
        r
    }

    /// Whether the key is present.
    pub fn contains(&self, k: &K) -> (r: bool)
        requires
            total_order::<K>(),
            self.wf(),
        ensures
            r == self.view().contains(*k),
    {
        self.0.contains(k)
    }

    /// Drops a key; true exactly when it was present.
    pub fn remove(&mut self, k: &K) -> (r: bool)
        requires
            total_order::<K>(),
            old(self).wf(),
        ensures
            final(self).wf(),
            final(self).view() == old(self).view().remove(*k),
            r == old(self).view().contains(*k),
    {
        let r = self.0.remove(k).is_some();
        proof {
            assert(self.view() =~= old(self).view().remove(*k));
        }
        r
    }
}

impl<K> BTreeSet<K> {
    /// A cursor over the keys, in order.
    pub fn iter<'i>(&'i self) -> (r: SetIter<'i, K>)
        ensures
            r.wf(),
            r.set() == *self,
            r.spec_pos() == 0,
    {
        SetIter { keys: self.0.keys(), ghost_set: Ghost(*self) }
    }

    /// Takes the set apart into an owning cursor over its keys.
    pub fn into_iter(self) -> (r: SetIntoIter<K>)
        ensures
            r.remaining().len() == self.len_spec(),
            forall|i: int| 0 <= i < r.remaining().len() ==> #[trigger] r.remaining()[i]
                == self.spec_key_at(i),
    {
        SetIntoIter(self.0.into_iter())
    }

    /// The key stored at position `i` of the sorted storage.
    pub closed spec fn spec_key_at(self, i: int) -> K {
        self.0.recs()[i].key
    }
}

/// A borrowing cursor over a set's keys.
pub struct SetIter<'i, K> {
    keys: Keys<'i, K, ()>,
    ghost_set: Ghost<BTreeSet<K>>,
}

impl<'i, K> SetIter<'i, K> {
    /// The set walked over.
    pub closed spec fn set(self) -> BTreeSet<K> {
        self.ghost_set@
    }

    /// How many keys have been yielded.
    pub closed spec fn spec_pos(self) -> int {
        self.keys.spec_pos()
    }

    /// Validity: the cursor never runs past the keys.
    pub closed spec fn wf(self) -> bool {
        self.keys.wf() && self.keys.map() == self.ghost_set@.0
    }

    /// The next key, in order.
    pub fn next(&mut self) -> (r: Option<&'i K>)
        requires
            old(self).wf(),
        ensures
            final(self).wf(),
            final(self).set() == old(self).set(),
            old(self).spec_pos() == old(self).set().len_spec() ==> r is None,
            old(self).spec_pos() < old(self).set().len_spec() ==> r is Some && final(self).spec_pos() == old(self).spec_pos() + 1 && (r matches Some(k) ==> *k == old(
                self,
            ).set().spec_key_at(old(self).spec_pos())),
    {
        self.keys.next()
    }
}

/// An owning cursor over a set's keys.
pub struct SetIntoIter<K>(MapIntoIter<K, ()>);

impl<K> SetIntoIter<K> {
    /// The keys still to be yielded, in order.
    pub closed spec fn remaining(self) -> Seq<K> {
        self.0.remaining().map_values(|r: Rec<K, ()>| r.key)
    }

    /// The next key, in order.
    pub fn next(&mut self) -> (r: Option<K>)
        ensures
            old(self).remaining().len() == 0 ==> r is None,
            old(self).remaining().len() > 0 ==> r is Some && final(self).remaining() == old(self).remaining().skip(1) && (r matches Some(k) ==> k == old(self).remaining()[0]),
    {
        match self.0.next() {
            Some(p) => {
                proof {
                    assert(self.remaining() =~= old(self).remaining().skip(1));
                }
                Some(p.0)
            },
            None => None,
        }
    }
}

} // verus!
