use vstd::prelude::*;
use vstd::slice::slice_subrange;
use vstd::slice::slice_to_vec;
use vstd::string::StringSliceAdditionalSpecFns;
use vstd::utf8::valid_utf8;

verus! {

/// A map whose keys are variable-length slices, all packed back to back
/// in one buffer; each entry records where its key starts, and a key runs
/// up to the start of the next one.
pub struct SliceMap<K, V> {
    buf: Vec<K>,
    map: Vec<(usize, V)>,
}

impl<K, V> SliceMap<K, V> {
    /// The packed key buffer.
    pub closed spec fn spec_buf(self) -> Seq<K> {
        self.buf@
    }

    /// The entry table: each key's offset beside its value.
    pub closed spec fn spec_entries(self) -> Seq<(usize, V)> {
        self.map@
    }

    /// Where entry `i`'s key ends: at the next entry's offset, or at the
    /// end of the buffer for the last entry.
    pub open spec fn key_end(self, i: int) -> int {
        if i + 1 < self.spec_entries().len() {
            self.spec_entries()[i + 1].0 as int
        } else {
            self.spec_buf().len() as int
        }
    }

    /// Entry `i`'s key, as the run of the buffer it occupies.
    pub open spec fn spec_key(self, i: int) -> Seq<K> {
        self.spec_buf().subrange(self.spec_entries()[i].0 as int, self.key_end(i))
    }

    /// Validity: offsets never run past the buffer and never go
    /// backwards.
    pub closed spec fn wf(self) -> bool {
        &&& forall|i: int|
            0 <= i < self.map@.len() ==> (#[trigger] self.map@[i]).0 <= self.buf@.len()
        &&& forall|i: int, j: int|
            0 <= i < j < self.map@.len() ==> (#[trigger] self.map@[i]).0 <= (
            #[trigger] self.map@[j]).0
    }

    /// An empty map.
    pub fn new() -> (r: SliceMap<K, V>)
        ensures
            r.wf(),
            r.spec_entries().len() == 0,
            r.spec_buf().len() == 0,
    {
        SliceMap { buf: Vec::new(), map: Vec::new() }
    }

    /// An empty map whose buffer has room for `cap` key elements.
    pub fn with_capacity(cap: usize) -> (r: SliceMap<K, V>)
        ensures
            r.wf(),
            r.spec_entries().len() == 0,
            r.spec_buf().len() == 0,
    {
        SliceMap { buf: Vec::with_capacity(cap), map: Vec::new() }
    }

    /// Number of keys stored.
    pub fn len(&self) -> (r: usize)
        ensures
            r == self.spec_entries().len(),
    {
        self.map.len()
    }

    /// Appends a key and its value; earlier entries keep their places.
    pub fn put(&mut self, k: Vec<K>, v: V)
        requires
            old(self).wf(),
            old(self).spec_buf().len() + k@.len() <= usize::MAX,
        ensures
            final(self).wf(),
            final(self).spec_entries().len() == old(self).spec_entries().len() + 1,
            final(self).spec_key(old(self).spec_entries().len() as int) == k@,
            final(self).spec_entries().last().1 == v,
            forall|i: int|
                0 <= i < old(self).spec_entries().len() ==> final(self).spec_key(i) == old(
                    self,
                ).spec_key(i) && (#[trigger] final(self).spec_entries()[i]).1 == old(
                    self,
                ).spec_entries()[i].1,
    {
        let ghost pre = *self;
        let ghost gk = k@;
        let off = self.buf.len();
        self.map.push((off, v));
        let mut k = k;
        self.buf.append(&mut k);
        proof {
            let n = pre.spec_entries().len() as int;
            assert(self.spec_key(n) =~= gk);
            assert forall|i: int| 0 <= i < n implies self.spec_key(i) == pre.spec_key(i) && (
            #[trigger] self.spec_entries()[i]).1 == pre.spec_entries()[i].1 by {
                assert(self.map@[i] == pre.spec_entries()[i]);
                assert(self.key_end(i) == pre.key_end(i)) by {
                    if i + 1 < self.map@.len() {
                        assert(self.map@[i + 1].0 <= pre.spec_buf().len());
                    }
                }
                assert(self.spec_key(i) =~= pre.spec_key(i));
            }
        }
    }

    /// The key and value of entry `index`, while it exists.
    pub fn get(&self, index: usize) -> (r: Option<(&[K], &V)>)
        requires
            self.wf(),
        ensures
            match r {
                Some(p) => index < self.spec_entries().len() && p.0@ == self.spec_key(index as int)
                    && *p.1 == self.spec_entries()[index as int].1,
                None => index >= self.spec_entries().len(),
            },
    {
        if index >= self.map.len() {
            return None;
        }
        let entry = &self.map[index];
        let end = if index + 1 < self.map.len() {
            self.map[index + 1].0
        } else {
            self.buf.len()
        };
        let key = slice_subrange(self.buf.as_slice(), entry.0, end);
        Some((key, &entry.1))
    }

    /// The key of entry `index`, while it exists.
    pub fn key(&self, index: usize) -> (r: Option<&[K]>)
        requires
            self.wf(),
        ensures
            match r {
                Some(s) => index < self.spec_entries().len() && s@ == self.spec_key(index as int),
                None => index >= self.spec_entries().len(),
            },
    {
        match self.get(index) {
            Some(p) => Some(p.0),
            None => None,
        }
    }

    /// The value of entry `index`, while it exists.
    pub fn value(&self, index: usize) -> (r: Option<&V>)
        requires
            self.wf(),
        ensures
            match r {
                Some(v) => index < self.spec_entries().len() && *v == self.spec_entries()[
                    index as int
                ].1,
                None => index >= self.spec_entries().len(),
            },
    {
        if index < self.map.len() {
            Some(&self.map[index].1)
        } else {
            None
        }
    }
}

impl<K: PartialEq + vstd::std_specs::cmp::PartialEqSpec, V> SliceMap<K, V> {
    /// The first entry whose key equals `seq`, scanned front to back: the
    /// keys are stored in insertion order, so a lookup must work whatever
    /// that order was.
    pub fn find_index(&self, seq: &[K]) -> (r: Option<usize>)
        requires
            self.wf(),
            K::obeys_eq_spec(),
            forall|a: K, b: K| #[trigger] a.eq_spec(&b) <==> a == b,
        ensures
            match r {
                Some(i) => i < self.spec_entries().len() && self.spec_key(i as int) == seq@,
                None => forall|i: int|
                    0 <= i < self.spec_entries().len() ==> #[trigger] self.spec_key(i) != seq@,
            },
    {
        let n = self.map.len();
        let mut i: usize = 0;
        while i < n
            invariant
                self.wf(),
                K::obeys_eq_spec(),
                forall|a: K, b: K| #[trigger] a.eq_spec(&b) <==> a == b,
                n == self.spec_entries().len(),
                i <= n,
                forall|j: int| 0 <= j < i ==> #[trigger] self.spec_key(j) != seq@,
            decreases n - i,
        {
            let entry_off = self.map[i].0;
            let end = if i + 1 < n {
                self.map[i + 1].0
            } else {
                self.buf.len()
            };
            proof {
                assert(entry_off <= end <= self.buf@.len()) by {
                    if i + 1 < n {
                        assert(self.map@[i as int].0 <= self.map@[i + 1].0);
                        assert(self.map@[i + 1].0 <= self.buf@.len());
                    }
                }
            }
            let key = slice_subrange(self.buf.as_slice(), entry_off, end);
            if eq_slices(key, seq) {
                return Some(i);
            }
            i = i + 1;
        }
        None
    }
}

/// Element-wise equality of two slices.
fn eq_slices<K: PartialEq + vstd::std_specs::cmp::PartialEqSpec>(a: &[K], b: &[K]) -> (r: bool)
    requires
        K::obeys_eq_spec(),
        forall|x: K, y: K| #[trigger] x.eq_spec(&y) <==> x == y,
    ensures
        r == (a@ == b@),
{
    if a.len() != b.len() {
        proof {
            assert(a@.len() != b@.len());
        }
        return false;
    }
    let n = a.len();
    let mut i: usize = 0;
    while i < n
        invariant
            K::obeys_eq_spec(),
            forall|x: K, y: K| #[trigger] x.eq_spec(&y) <==> x == y,
            n == a@.len() == b@.len(),
            i <= n,
            forall|j: int| 0 <= j < i ==> a@[j] == b@[j],
        decreases n - i,
    {
        if !(a[i] == b[i]) {
            proof {
                assert(a@[i as int] != b@[i as int]);
            }
            return false;
        }
        i = i + 1;
    }
    proof {
        assert(a@ =~= b@);
    }
    true
}

/// Relies on str::as_bytes: the bytes of a string slice are its UTF-8
/// encoding, which is valid UTF-8 by the type's own guarantee.
#[verifier::external_body]
fn str_bytes(s: &str) -> (r: &[u8])
    ensures
        r@ == s.spec_bytes(),
        valid_utf8(r@),
{
    s.as_bytes()
}

/// Relies on str::from_utf8: bytes already known to be valid UTF-8 read
/// back as the string slice carrying exactly those bytes.
#[verifier::external_body]
fn bytes_to_str(b: &[u8]) -> (r: &str)
    requires
        valid_utf8(b@),
    ensures
        r.spec_bytes() == b@,
{
    core::str::from_utf8(b).unwrap()
}

/// A map from strings to values over a packed byte buffer.
pub struct StringMap<V>(SliceMap<u8, V>);

impl<V> StringMap<V> {
    /// The underlying packed byte map.
    pub closed spec fn inner(self) -> SliceMap<u8, V> {
        self.0
    }

    /// Validity: packed offsets in order, and every stored key is valid
    /// UTF-8, since each arrived as a string slice.
    pub closed spec fn wf(self) -> bool {
        &&& self.0.wf()
        &&& forall|i: int|
            0 <= i < self.0.spec_entries().len() ==> valid_utf8(#[trigger] self.0.spec_key(i))
    }

    /// An empty map.
    pub fn new() -> (r: StringMap<V>)
        ensures
            r.wf(),
            r.inner().spec_entries().len() == 0,
    {
        StringMap(SliceMap::new())
    }

    /// An empty map with room for `cap` key bytes.
    pub fn with_capacity(cap: usize) -> (r: StringMap<V>)
        ensures
            r.wf(),
            r.inner().spec_entries().len() == 0,
    {
        StringMap(SliceMap::with_capacity(cap))
    }

    /// Number of keys stored.
    pub fn len(&self) -> (r: usize)
        ensures
            r == self.inner().spec_entries().len(),
    {
        self.0.len()
    }

    /// Appends a string key and its value.
    pub fn put(&mut self, s: &str, v: V)
        requires
            old(self).wf(),
            old(self).inner().spec_buf().len() + s.spec_bytes().len() <= usize::MAX,
        ensures
            final(self).wf(),
            final(self).inner().spec_entries().len() == old(self).inner().spec_entries().len() + 1,
            final(self).inner().spec_key(old(self).inner().spec_entries().len() as int)
                == s.spec_bytes(),
            final(self).inner().spec_entries().last().1 == v,
            forall|i: int|
                0 <= i < old(self).inner().spec_entries().len() ==> final(self).inner().spec_key(i)
                    == old(self).inner().spec_key(i) && (
                #[trigger] final(self).inner().spec_entries()[i]).1 == old(
                    self,
                ).inner().spec_entries()[i].1,
    {
        let bytes = str_bytes(s);
        let k = slice_to_vec(bytes);
        self.0.put(k, v);
    }

    /// The key and value of entry `index`, while it exists.
    pub fn get(&self, index: usize) -> (r: Option<(&str, &V)>)
        requires
            self.wf(),
        ensures
            match r {
                Some(p) => index < self.inner().spec_entries().len() && p.0.spec_bytes()
                    == self.inner().spec_key(index as int) && *p.1 == self.inner().spec_entries()[
                    index as int
                ].1,
                None => index >= self.inner().spec_entries().len(),
            },
    {
        match self.0.get(index) {
            Some(p) => Some((bytes_to_str(p.0), p.1)),
            None => None,
        }
    }

    /// The key of entry `index`, while it exists.
    pub fn key(&self, index: usize) -> (r: Option<&str>)
        requires
            self.wf(),
        ensures
            match r {
                Some(s) => index < self.inner().spec_entries().len() && s.spec_bytes()
                    == self.inner().spec_key(index as int),
                None => index >= self.inner().spec_entries().len(),
            },
    {
        match self.0.key(index) {
            Some(b) => Some(bytes_to_str(b)),
            None => None,
        }
    }

    /// The value of entry `index`, while it exists.
    pub fn value(&self, index: usize) -> (r: Option<&V>)
        requires
            self.wf(),
        ensures
            match r {
                Some(v) => index < self.inner().spec_entries().len() && *v
                    == self.inner().spec_entries()[index as int].1,
                None => index >= self.inner().spec_entries().len(),
            },
    {
        self.0.value(index)
    }

    /// The value stored under a string key, found whatever order the keys
    /// were put in.
    pub fn binary_search(&self, s: &str) -> (r: Option<&V>)
        requires
            self.wf(),
        ensures
            match r {
                Some(v) => exists|i: int|
                    0 <= i < self.inner().spec_entries().len() && #[trigger] self.inner().spec_key(
                        i,
                    ) == s.spec_bytes() && *v == self.inner().spec_entries()[i].1,
                None => forall|i: int|
                    0 <= i < self.inner().spec_entries().len()
                        ==> #[trigger] self.inner().spec_key(i) != s.spec_bytes(),
            },
    {
        let bytes = str_bytes(s);
        match self.0.find_index(bytes) {
            Some(i) => {
                let r = self.0.value(i);
                proof {
                    assert(match r {
                        Some(v) => self.inner().spec_key(i as int) == s.spec_bytes() && *v
                            == self.inner().spec_entries()[i as int].1,
                        None => false,
                    });
                }
                r
            },
            None => None,
        }
    }
}

} // verus!
