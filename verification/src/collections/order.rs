use vstd::prelude::*;
use vstd::std_specs::cmp::OrdSpec;
use crate::collections::record::Rec;

verus! {

/// What the sorted containers assume of a key type: its `cmp` follows its
/// specification, comparing equal means being equal, the order is
/// antisymmetric, and strict ordering is transitive.
pub open spec fn total_order<K: Ord>() -> bool {
    &&& K::obeys_cmp_spec()
    &&& forall|a: K, b: K| (#[trigger] a.cmp_spec(&b)) is Equal <==> a == b
    &&& forall|a: K, b: K| (#[trigger] a.cmp_spec(&b)) is Less <==> b.cmp_spec(&a) is Greater
    &&& forall|a: K, b: K, c: K|
        (#[trigger] a.cmp_spec(&b)) is Less && (#[trigger] b.cmp_spec(&c)) is Less
            ==> a.cmp_spec(&c) is Less
}

/// Whether some record of `s` carries the key `k`.
pub open spec fn has_key<K, V>(s: Seq<Rec<K, V>>, k: K) -> bool {
    exists|i: int| 0 <= i < s.len() && (#[trigger] s[i]).key == k
}

/// The index of the record carrying `k`; meaningful only when one exists.
pub open spec fn key_index<K, V>(s: Seq<Rec<K, V>>, k: K) -> int {
    choose|i: int| 0 <= i < s.len() && (#[trigger] s[i]).key == k
}

/// The records are strictly ascending by key.
pub open spec fn sorted_recs<K: Ord, V>(s: Seq<Rec<K, V>>) -> bool {
    forall|i: int, j: int|
        0 <= i < j < s.len() ==> (#[trigger] s[i]).key.cmp_spec(&(#[trigger] s[j]).key) is Less
}

/// The mapping a record sequence with unique keys denotes.
pub open spec fn rec_map<K, V>(s: Seq<Rec<K, V>>) -> Map<K, V> {
    Map::new(|k: K| has_key(s, k), |k: K| s[key_index(s, k)].val)
}

/// In a sorted sequence each key occurs at most once, so `key_index` is
/// the one index carrying the key.
pub proof fn lemma_sorted_key_unique<K: Ord, V>(s: Seq<Rec<K, V>>, k: K)
    requires
        total_order::<K>(),
        sorted_recs(s),
        has_key(s, k),
    ensures
        0 <= key_index(s, k) < s.len(),
        s[key_index(s, k)].key == k,
        forall|i: int| 0 <= i < s.len() && (#[trigger] s[i]).key == k ==> i == key_index(s, k),
{
    let w = key_index(s, k);
    assert(0 <= w < s.len() && s[w].key == k);
    assert forall|i: int| 0 <= i < s.len() && (#[trigger] s[i]).key == k implies i == w by {
        if i < w {
            assert(s[i].key.cmp_spec(&s[w].key) is Less);
        } else if w < i {
            assert(s[w].key.cmp_spec(&s[i].key) is Less);
        }
    }
}

} // verus!
