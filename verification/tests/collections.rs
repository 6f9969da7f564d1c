use patricia::collections::btree::{BTreeMap, BTreeSet};
use patricia::collections::map::VecMap;
use patricia::collections::multimap::MultiMap;
use patricia::collections::record::Rec;
use patricia::trees::map::SortedMap;

#[test]
fn btree_map_basic_operations() {
    let mut m: BTreeMap<u64, &str> = BTreeMap::new();
    assert!(m.is_empty());
    assert_eq!(m.insert(2, "two"), None);
    assert_eq!(m.insert(1, "one"), None);
    assert_eq!(m.insert(3, "three"), None);
    assert_eq!(m.insert(2, "deux"), Some("two"));
    assert_eq!(m.len(), 3);
    assert_eq!(m.get(&2), Some(&"deux"));
    assert!(m.contains(&1));
    assert!(!m.contains(&9));
    assert_eq!(m.remove(&1), Some("one"));
    assert_eq!(m.remove(&1), None);
    assert_eq!(m.len(), 2);
    m.clear();
    assert!(m.is_empty());
}

#[test]
fn btree_map_mutable_access() {
    let mut m: BTreeMap<u64, u64> = BTreeMap::new();
    m.insert(5, 50);
    if let Some(v) = m.get_mut(&5) {
        *v += 1;
    }
    assert_eq!(m.get(&5), Some(&51));
    assert!(m.get_mut(&6).is_none());
    let v = m.get_or_create_mut(6, || 60);
    *v += 6;
    assert_eq!(m.get(&6), Some(&66));
    let v = m.get_or_create_mut(6, || 0);
    assert_eq!(*v, 66);
}

#[test]
fn btree_set_basic_operations() {
    let mut s: BTreeSet<u32> = BTreeSet::new();
    assert!(s.is_empty());
    assert!(s.insert(4));
    assert!(s.insert(2));
    assert!(!s.insert(4));
    assert_eq!(s.len(), 2);
    assert!(s.contains(&2));
    assert!(s.remove(&2));
    assert!(!s.remove(&2));
    s.clear();
    assert_eq!(s.len(), 0);
}

#[test]
fn vec_map_basic_operations() {
    let mut m: VecMap<u32, String> = VecMap::new();
    assert!(m.is_empty());
    assert_eq!(m.insert(7, "seven".to_owned()), None);
    assert_eq!(m.insert(7, "sept".to_owned()), Some("seven".to_owned()));
    assert_eq!(m.get(&7), Some(&"sept".to_owned()));
    if let Some(v) = m.get_mut(&7) {
        v.push('!');
    }
    assert_eq!(m.get(&7), Some(&"sept!".to_owned()));
    assert_eq!(m.remove(&7), Some("sept!".to_owned()));
    assert!(m.is_empty());
}

#[test]
fn sorted_map_basic_operations() {
    let mut m: SortedMap<u8, u8> = SortedMap::new();
    assert_eq!(m.insert(3, 30), None);
    assert_eq!(m.insert(1, 10), None);
    assert_eq!(m.find(&3), Some(&30));
    assert_eq!(m.find(&2), None);
    if let Some(v) = m.find_mut(&1) {
        *v = 11;
    }
    assert_eq!(m.find(&1), Some(&11));
    let v = m.get_or_create_mut(2, || 20);
    assert_eq!(*v, 20);
    assert_eq!(m.len(), 3);
    assert_eq!(m.remove(&2), Some(20));
    assert_eq!(m.len(), 2);
}

#[test]
fn multimap_keeps_duplicates() {
    let mut m: MultiMap<u32, &str> = MultiMap::new();
    m.insert(1, "a");
    m.insert(2, "c");
    m.insert(1, "b");
    assert_eq!(m.len(), 3);

    let mut find = m.find(&1);
    assert_eq!(find.next(), Some(&"a"));
    assert_eq!(find.next(), Some(&"b"));
    assert_eq!(find.next(), None);

    let mut all = m.find_all(&1);
    assert!(!all.is_empty());
    assert_eq!(all.len(), 2);
    assert_eq!(all.next(), Some(&"a"));
    assert_eq!(all.len(), 1);

    let empty = m.find_all(&9);
    assert!(empty.is_empty());

    assert_eq!(m.remove_all(&1), 2);
    assert_eq!(m.len(), 1);
    assert_eq!(m.remove(0), (2, "c"));
    assert_eq!(m.len(), 0);
}

#[test]
fn btree_cursors_walk_in_key_order() {
    let mut m: BTreeMap<u32, &str> = BTreeMap::new();
    m.insert(2, "b");
    m.insert(1, "a");
    m.insert(3, "c");

    let mut iter = m.iter();
    assert_eq!(iter.next(), Some((&1, &"a")));
    assert_eq!(iter.next(), Some((&2, &"b")));
    assert_eq!(iter.next(), Some((&3, &"c")));
    assert_eq!(iter.next(), None);

    let mut keys = m.keys();
    assert_eq!(keys.next(), Some(&1));
    assert_eq!(keys.next(), Some(&2));
    assert_eq!(keys.next(), Some(&3));
    assert_eq!(keys.next(), None);

    let mut values = m.values();
    assert_eq!(values.next(), Some(&"a"));
    assert_eq!(values.next(), Some(&"b"));
    assert_eq!(values.next(), Some(&"c"));
    assert_eq!(values.next(), None);

    let mut owned = m.into_iter();
    assert_eq!(owned.next(), Some((1, "a")));
    assert_eq!(owned.next(), Some((2, "b")));
    assert_eq!(owned.next(), Some((3, "c")));
    assert_eq!(owned.next(), None);

    let mut s: BTreeSet<u32> = BTreeSet::new();
    s.insert(9);
    s.insert(4);
    let mut si = s.iter();
    assert_eq!(si.next(), Some(&4));
    assert_eq!(si.next(), Some(&9));
    assert_eq!(si.next(), None);
    let mut so = s.into_iter();
    assert_eq!(so.next(), Some(4));
    assert_eq!(so.next(), Some(9));
    assert_eq!(so.next(), None);
}

#[test]
fn record_accessors() {
    let mut rec = Rec::new("k", 1u8);
    assert_eq!(*rec.key(), "k");
    assert_eq!(*rec.value(), 1);
    *rec.value_mut() = 2;
    assert_eq!(*rec.value(), 2);
    let (k, v) = rec.into_pair();
    assert_eq!((k, v), ("k", 2));
}
