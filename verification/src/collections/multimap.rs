use vstd::prelude::*;
use vstd::std_specs::cmp::OrdSpec;
use crate::collections::order::total_order;
use crate::collections::record::Rec;

verus! {

/// The records are ascending by key, equal keys adjacent.
pub open spec fn sorted_dups<K: Ord, V>(s: Seq<Rec<K, V>>) -> bool {
    forall|i: int, j: int|
        0 <= i < j < s.len() ==> !((#[trigger] s[i]).key.cmp_spec(
            &(#[trigger] s[j]).key,
        ) is Greater)
}

/// A map that keeps every inserted pair: a sorted vector of records in
/// which one key may occur many times, equal keys standing side by side.
pub struct MultiMap<K, V>(Vec<Rec<K, V>>);

impl<K, V> MultiMap<K, V> {
    /// The stored records, in key order.
    pub closed spec fn recs(self) -> Seq<Rec<K, V>> {
        self.0@
    }

    /// An empty multimap.
    pub fn new() -> (r: MultiMap<K, V>)
        ensures
            r.recs().len() == 0,
    {
        MultiMap(Vec::new())
    }

    /// Number of records stored, repetitions counted.
    pub fn len(&self) -> (r: usize)
        ensures
            r == self.recs().len(),
    {
        self.0.len()
    }
}

impl<K: Ord, V> MultiMap<K, V> {
    /// Validity: ascending keys, duplicates adjacent.
    pub closed spec fn wf(self) -> bool {
        sorted_dups(self.0@)
    }

    /// The first position whose key is not below `k`.
    fn lower_bound(&self, k: &K) -> (r: usize)
        requires
            total_order::<K>(),
            self.wf(),
        ensures
            r <= self.recs().len(),
            forall|j: int| 0 <= j < r ==> (#[trigger] self.recs()[j]).key.cmp_spec(k) is Less,
            forall|j: int|
                r <= j < self.recs().len() ==> !((#[trigger] self.recs()[j]).key.cmp_spec(
                    k,
                ) is Less),
    {
        let mut lo: usize = 0;
        let mut hi: usize = self.0.len();
        while lo < hi
            invariant
                total_order::<K>(),
                self.wf(),
                lo <= hi <= self.recs().len(),
                forall|j: int| 0 <= j < lo ==> (#[trigger] self.recs()[j]).key.cmp_spec(k) is Less,
                forall|j: int|
                    hi <= j < self.recs().len() ==> !((#[trigger] self.recs()[j]).key.cmp_spec(
                        k,
                    ) is Less),
            decreases hi - lo,
        {
            let mid = lo + (hi - lo) / 2;
            let rec = &self.0[mid];
            match rec.key.cmp(k) {
                core::cmp::Ordering::Less => {
                    proof {
                        assert forall|j: int| 0 <= j < mid + 1 implies (
                        #[trigger] self.recs()[j]).key.cmp_spec(k) is Less by {
                            if j < mid {
                                assert(!(self.recs()[j].key.cmp_spec(&self.recs()[mid as int].key)
                                    is Greater));
                                if self.recs()[j].key.cmp_spec(&self.recs()[mid as int].key)
                                    is Less {
                                } else {
                                    assert(self.recs()[j].key == self.recs()[mid as int].key);
                                }
                            }
                        }
                    }
                    lo = mid + 1;
                },
                _ => {
                    proof {
                        assert forall|j: int|
                            mid <= j < self.recs().len() implies !((
                        #[trigger] self.recs()[j]).key.cmp_spec(k) is Less) by {
                            if mid < j {
                                if self.recs()[j].key.cmp_spec(k) is Less {
                                    assert(!(self.recs()[mid as int].key.cmp_spec(
                                        &self.recs()[j].key,
                                    ) is Greater));
                                    if self.recs()[mid as int].key.cmp_spec(&self.recs()[j].key)
                                        is Less {
                                        assert(self.recs()[mid as int].key.cmp_spec(k) is Less);
                                    } else {
                                        assert(self.recs()[mid as int].key == self.recs()[j].key);
                                    }
                                }
                            }
                        }
                    }
                    hi = mid;
                },
            }
        }
        lo
    }

    /// One past the last position whose key is not above `k`.
    fn upper_bound(&self, k: &K) -> (r: usize)
        requires
            total_order::<K>(),
            self.wf(),
        ensures
            r <= self.recs().len(),
            forall|j: int|
                0 <= j < r ==> !((#[trigger] self.recs()[j]).key.cmp_spec(k) is Greater),
            forall|j: int|
                r <= j < self.recs().len() ==> (#[trigger] self.recs()[j]).key.cmp_spec(
                    k,
                ) is Greater,
    {
        let mut lo: usize = 0;
        let mut hi: usize = self.0.len();
        while lo < hi
            invariant
                total_order::<K>(),
                self.wf(),
                lo <= hi <= self.recs().len(),
                forall|j: int|
                    0 <= j < lo ==> !((#[trigger] self.recs()[j]).key.cmp_spec(k) is Greater),
                forall|j: int|
                    hi <= j < self.recs().len() ==> (#[trigger] self.recs()[j]).key.cmp_spec(
                        k,
                    ) is Greater,
            decreases hi - lo,
        {
            let mid = lo + (hi - lo) / 2;
            let rec = &self.0[mid];
            match rec.key.cmp(k) {
                core::cmp::Ordering::Greater => {
                    proof {
                        assert forall|j: int|
                            mid <= j < self.recs().len() implies (
                        #[trigger] self.recs()[j]).key.cmp_spec(k) is Greater by {
                            if mid < j {
                                assert(!(self.recs()[mid as int].key.cmp_spec(&self.recs()[j].key)
                                    is Greater));
                                assert(k.cmp_spec(&self.recs()[mid as int].key) is Less);
                                if self.recs()[mid as int].key.cmp_spec(&self.recs()[j].key)
                                    is Less {
                                    assert(k.cmp_spec(&self.recs()[j].key) is Less);
                                } else {
                                    assert(self.recs()[mid as int].key == self.recs()[j].key);
                                }
                            }
                        }
                    }
                    hi = mid;
                },
                _ => {
                    proof {
                        assert forall|j: int|
                            0 <= j < mid + 1 implies !((#[trigger] self.recs()[j]).key.cmp_spec(
                            k,
                        ) is Greater) by {
                            if j < mid {
                                if self.recs()[j].key.cmp_spec(k) is Greater {
                                    assert(!(self.recs()[j].key.cmp_spec(
                                        &self.recs()[mid as int].key,
                                    ) is Greater));
                                    assert(k.cmp_spec(&self.recs()[j].key) is Less);
                                    if self.recs()[j].key.cmp_spec(&self.recs()[mid as int].key)
                                        is Less {
                                        assert(k.cmp_spec(&self.recs()[mid as int].key) is Less);
                                        assert(self.recs()[mid as int].key.cmp_spec(k) is Greater);
                                    } else {
                                        assert(self.recs()[j].key == self.recs()[mid as int].key);
                                        assert(self.recs()[mid as int].key.cmp_spec(k) is Greater);
                                    }
                                }
                            }
                        }
                    }
                    lo = mid + 1;
                },
            }
        }
        lo
    }

    /// Inserts a pair after every record of the same key, returning the
    /// position it was stored at.
    pub fn insert(&mut self, k: K, v: V) -> (r: usize)
        requires
            total_order::<K>(),
            old(self).wf(),
            old(self).recs().len() < usize::MAX,
        ensures
            final(self).wf(),
            r <= old(self).recs().len(),
            final(self).recs() == old(self).recs().insert(r as int, Rec { key: k, val: v }),
            forall|j: int|
                0 <= j < r ==> !((#[trigger] old(self).recs()[j]).key.cmp_spec(&k) is Greater),
            forall|j: int|
                r <= j < old(self).recs().len() ==> (#[trigger] old(self).recs()[j]).key.cmp_spec(
                    &k,
                ) is Greater,
    {
        let ghost pre = self.0@;
        let i = self.upper_bound(&k);
        self.0.insert(i, Rec::new(k, v));
        proof {
            assert(self.0@ =~= pre.insert(i as int, Rec { key: k, val: v }));
            assert(sorted_dups(self.0@)) by {
                assert forall|a: int, b: int|
                    0 <= a < b < self.0@.len() implies !((#[trigger] self.0@[a]).key.cmp_spec(
                    &(#[trigger] self.0@[b]).key,
                ) is Greater) by {
                    let ra = if a < i {
                        pre[a]
                    } else if a == i {
                        Rec { key: k, val: v }
                    } else {
                        pre[a - 1]
                    };
                    let rb = if b < i {
                        pre[b]
                    } else if b == i {
                        Rec { key: k, val: v }
                    } else {
                        pre[b - 1]
                    };
                    assert(self.0@[a] == ra && self.0@[b] == rb);
                    if a == i || b == i {
                        if b == i && ra.key.cmp_spec(&k) is Greater {
                        }
                        if a == i && k.cmp_spec(&rb.key) is Greater {
                            assert(rb.key.cmp_spec(&k) is Less);
                        }
                    }
                }
            }
        }
        i
    }

    /// Removes the record at a position, returning its pair.
    pub fn remove(&mut self, index: usize) -> (r: (K, V))
        requires
            total_order::<K>(),
            old(self).wf(),
            index < old(self).recs().len(),
        ensures
            final(self).wf(),
            final(self).recs() == old(self).recs().remove(index as int),
            r.0 == old(self).recs()[index as int].key,
            r.1 == old(self).recs()[index as int].val,
    {
        let ghost pre = self.0@;
        let rec = self.0.remove(index);
        proof {
            assert(self.0@ =~= pre.remove(index as int));
            assert(sorted_dups(self.0@)) by {
                assert forall|a: int, b: int|
                    0 <= a < b < self.0@.len() implies !((#[trigger] self.0@[a]).key.cmp_spec(
                    &(#[trigger] self.0@[b]).key,
                ) is Greater) by {
                    let ra: int = if a < index {
                        a
                    } else {
                        a + 1
                    };
                    let rb: int = if b < index {
                        b
                    } else {
                        b + 1
                    };
                    assert(self.0@[a] == pre[ra] && self.0@[b] == pre[rb]);
                }
            }
        }
        rec.into_pair()
    }

    /// Removes every record under `k`, returning how many were dropped;
    /// every other record stays, in its old order.
    pub fn remove_all(&mut self, k: &K) -> (r: usize)
        requires
            total_order::<K>(),
            old(self).wf(),
        ensures
            final(self).wf(),
            forall|j: int|
                0 <= j < final(self).recs().len() ==> (#[trigger] final(self).recs()[j]).key != *k,
            final(self).recs().len() + r == old(self).recs().len(),
            exists|lo: int, hi: int|
                0 <= lo <= hi <= old(self).recs().len() && r == hi - lo && (forall|j: int|
                    lo <= j < hi ==> (#[trigger] old(self).recs()[j]).key == *k)
                    && final(self).recs() == old(self).recs().subrange(0, lo)
                    + old(self).recs().subrange(hi, old(self).recs().len() as int),
    {
        let ghost pre = self.0@;
        let lo = self.lower_bound(k);
        let hi = self.upper_bound(k);
        proof {
            assert(lo <= hi) by {
                if hi < lo {
                    assert(self.recs()[hi as int].key.cmp_spec(k) is Less);
                    assert(self.recs()[hi as int].key.cmp_spec(k) is Greater);
                }
            }
        }
        let mut removed: usize = 0;
        while removed < hi - lo
            invariant
                total_order::<K>(),
                self.wf(),
                removed <= hi - lo,
                lo <= hi <= pre.len(),
                self.0@ =~= pre.subrange(0, lo as int) + pre.subrange(
                    lo + removed,
                    pre.len() as int,
                ),
                forall|j: int| 0 <= j < lo ==> (#[trigger] pre[j]).key.cmp_spec(k) is Less,
                forall|j: int| hi <= j < pre.len() ==> (#[trigger] pre[j]).key.cmp_spec(
                    k,
                ) is Greater,
            decreases hi - lo - removed,
        {
            let ghost at = self.0@;
            let _ = self.0.remove(lo);
            removed = removed + 1;
            proof {
                assert(self.0@ =~= at.remove(lo as int));
                assert(self.0@ =~= pre.subrange(0, lo as int) + pre.subrange(
                    lo + removed,
                    pre.len() as int,
                ));
                assert(sorted_dups(self.0@)) by {
                    assert forall|a: int, b: int|
                        0 <= a < b < self.0@.len() implies !((#[trigger] self.0@[a]).key.cmp_spec(
                        &(#[trigger] self.0@[b]).key,
                    ) is Greater) by {
                        let ra: int = if a < lo {
                            a
                        } else {
                            a + removed
                        };
                        let rb: int = if b < lo {
                            b
                        } else {
                            b + removed
                        };
                        assert(self.0@[a] == pre[ra] && self.0@[b] == pre[rb]);
                    }
                }
            }
        }
        proof {
            assert forall|j: int|
                0 <= j < self.0@.len() implies (#[trigger] self.0@[j]).key != *k by {
                if j < lo {
                    assert(self.0@[j] == pre[j]);
                    assert(pre[j].key.cmp_spec(k) is Less);
                } else {
                    assert(self.0@[j] == pre[j + (hi - lo)]);
                    assert(pre[j + (hi - lo)].key.cmp_spec(k) is Greater);
                }
            }
            assert forall|j: int| lo <= j < hi implies (#[trigger] pre[j]).key == *k by {
                assert(!(pre[j].key.cmp_spec(k) is Less));
                assert(!(pre[j].key.cmp_spec(k) is Greater));
            }
            assert(self.0@ == pre.subrange(0, lo as int) + pre.subrange(
                hi as int,
                pre.len() as int,
            ));
        }
        removed
    }

    /// A cursor over the values stored under `k`, in storage order: its
    /// window is exactly the run of records carrying `k`.
    pub fn find<'m, 'k>(&'m self, k: &'k K) -> (r: Find<'m, 'k, K, V>)
        requires
            total_order::<K>(),
            self.wf(),
        ensures
            r.wf(),
            r.map() == *self,
            r.key() == *k,
            forall|j: int| r.start() <= j < r.end_spec() ==> (#[trigger] self.recs()[j]).key == *k,
            forall|j: int| 0 <= j < r.start() ==> (#[trigger] self.recs()[j]).key != *k,
            forall|j: int|
                r.end_spec() <= j < self.recs().len() ==> (#[trigger] self.recs()[j]).key != *k,
    {
        let lo = self.lower_bound(k);
        let hi = self.upper_bound(k);
        proof {
            assert(lo <= hi) by {
                if hi < lo {
                    assert(self.recs()[hi as int].key.cmp_spec(k) is Less);
                    assert(self.recs()[hi as int].key.cmp_spec(k) is Greater);
                }
            }
            assert forall|j: int| lo <= j < hi implies (#[trigger] self.recs()[j]).key == *k by {
                assert(!(self.recs()[j].key.cmp_spec(k) is Less));
                assert(!(self.recs()[j].key.cmp_spec(k) is Greater));
            }
            assert forall|j: int| 0 <= j < lo implies (#[trigger] self.recs()[j]).key != *k by {
                assert(self.recs()[j].key.cmp_spec(k) is Less);
            }
            assert forall|j: int|
                hi <= j < self.recs().len() implies (#[trigger] self.recs()[j]).key != *k by {
                assert(self.recs()[j].key.cmp_spec(k) is Greater);
            }
        }
        Find { map: self, key: k, idx: lo, end: hi }
    }

    /// The values stored under `k`, all at once.
    pub fn find_all<'m>(&'m self, k: &K) -> (r: FindAll<'m, K, V>)
        requires
            total_order::<K>(),
            self.wf(),
        ensures
            r.wf(),
            r.map() == *self,
            forall|j: int|
                r.start() <= j < r.end_spec() ==> (#[trigger] self.recs()[j]).key == *k,
            forall|j: int| 0 <= j < r.start() ==> (#[trigger] self.recs()[j]).key != *k,
            forall|j: int|
                r.end_spec() <= j < self.recs().len() ==> (#[trigger] self.recs()[j]).key != *k,
    {
        let lo = self.lower_bound(k);
        let hi = self.upper_bound(k);
        proof {
            assert(lo <= hi) by {
                if hi < lo {
                    assert(self.recs()[hi as int].key.cmp_spec(k) is Less);
                    assert(self.recs()[hi as int].key.cmp_spec(k) is Greater);
                }
            }
            assert forall|j: int| lo <= j < hi implies (#[trigger] self.recs()[j]).key == *k by {
                assert(!(self.recs()[j].key.cmp_spec(k) is Less));
                assert(!(self.recs()[j].key.cmp_spec(k) is Greater));
            }
            assert forall|j: int| 0 <= j < lo implies (#[trigger] self.recs()[j]).key != *k by {
                assert(self.recs()[j].key.cmp_spec(k) is Less);
            }
            assert forall|j: int|
                hi <= j < self.recs().len() implies (#[trigger] self.recs()[j]).key != *k by {
                assert(self.recs()[j].key.cmp_spec(k) is Greater);
            }
        }
        FindAll { map: self, index: lo, end: hi }
    }
}

/// A cursor yielding, one by one, the values stored under one key.
pub struct Find<'m, 'k, K, V> {
    map: &'m MultiMap<K, V>,
    key: &'k K,
    idx: usize,
    end: usize,
}

impl<'m, 'k, K: Ord, V> Find<'m, 'k, K, V> {
    /// The multimap walked over.
    pub closed spec fn map(self) -> MultiMap<K, V> {
        *self.map
    }

    /// The key looked for.
    pub closed spec fn key(self) -> K {
        *self.key
    }

    /// How many values are still to come.
    pub closed spec fn remaining(self) -> nat {
        (self.end - self.idx) as nat
    }

    /// First position of the window.
    pub closed spec fn start(self) -> int {
        self.idx as int
    }

    /// One past the last position of the window.
    pub closed spec fn end_spec(self) -> int {
        self.end as int
    }

    /// Validity: the window is inside the storage and every record in it
    /// carries the key.
    pub closed spec fn wf(self) -> bool {
        &&& self.idx <= self.end <= self.map.recs().len()
        &&& forall|j: int|
            self.idx <= j < self.end ==> (#[trigger] self.map.recs()[j]).key == *self.key
    }

    /// The next value under the key, until the window is exhausted.
    pub fn next(&mut self) -> (r: Option<&'m V>)
        requires
            old(self).wf(),
        ensures
            final(self).wf(),
            final(self).map() == old(self).map(),
            final(self).key() == old(self).key(),
            old(self).remaining() == 0 ==> r is None && final(self).remaining() == 0,
            old(self).remaining() > 0 ==> r is Some && final(self).remaining() == old(
                self,
            ).remaining() - 1 && final(self).start() == old(self).start() + 1 && (
            r matches Some(v) ==> *v == old(self).map().recs()[old(self).start()].val),
    {
        if self.idx < self.end {
            let rec = &self.map.0[self.idx];
            self.idx = self.idx + 1;
            Some(rec.value())
        } else {
            None
        }
    }
}

/// The values stored under one key, as a window onto the storage.
pub struct FindAll<'m, K, V> {
    map: &'m MultiMap<K, V>,
    index: usize,
    end: usize,
}

impl<'m, K: Ord, V> FindAll<'m, K, V> {
    /// The multimap walked over.
    pub closed spec fn map(self) -> MultiMap<K, V> {
        *self.map
    }

    /// First position of the window.
    pub closed spec fn start(self) -> int {
        self.index as int
    }

    /// One past the last position of the window.
    pub closed spec fn end_spec(self) -> int {
        self.end as int
    }

    /// Validity: the window is inside the storage.
    pub closed spec fn wf(self) -> bool {
        self.index <= self.end <= self.map.recs().len()
    }

    /// Whether no value is left in the window.
    pub fn is_empty(&self) -> (r: bool)
        requires
            self.wf(),
        ensures
            r == (self.start() == self.end_spec()),
    {
        self.index >= self.end
    }

    /// Number of values left in the window.
    pub fn len(&self) -> (r: usize)
        requires
            self.wf(),
        ensures
            r == self.end_spec() - self.start(),
    {
        self.end - self.index
    }

    /// The next value of the window.
    pub fn next(&mut self) -> (r: Option<&'m V>)
        requires
            old(self).wf(),
        ensures
            final(self).wf(),
            final(self).map() == old(self).map(),
            final(self).end_spec() == old(self).end_spec(),
            old(self).start() == old(self).end_spec() ==> r is None && final(self).start() == old(
                self,
            ).start(),
            old(self).start() < old(self).end_spec() ==> final(self).start() == old(self).start()
                + 1 && (r matches Some(v) ==> *v == old(self).map().recs()[old(self).start()].val),
    {
        if self.index < self.end {
            let rec = &self.map.0[self.index];
            self.index = self.index + 1;
            Some(rec.value())
        } else {
            None
        }
    }
}

} // verus!
