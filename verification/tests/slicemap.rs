use patricia::collections::slicemap::StringMap;

fn smap() -> StringMap<u32> {
    StringMap::new()
}

#[test]
fn map_put_and_find() {
    let mut map = smap();
    map.put("word3", 3);
    map.put("word2", 2);
    map.put("word5", 5);
    map.put("word4", 4);
    map.put("word1", 1);
    println!("{:?}", map.len());
    for i in 1..6 {
        let key = &format!("word{}", i);
        assert_eq!(map.binary_search(key), Some(&i));
    }
}

#[test]
fn keys_read_back_in_insertion_order() {
    let mut map = smap();
    map.put("alpha", 1);
    map.put("beta", 2);
    assert_eq!(map.len(), 2);
    assert_eq!(map.key(0), Some("alpha"));
    assert_eq!(map.key(1), Some("beta"));
    assert_eq!(map.get(1).map(|p| (p.0, *p.1)), Some(("beta", 2)));
    assert_eq!(map.value(0), Some(&1));
    assert_eq!(map.key(2), None);
    assert_eq!(map.binary_search("gamma"), None);
}

#[test]
fn empty_key_is_found() {
    let mut map = smap();
    map.put("", 7);
    assert_eq!(map.binary_search(""), Some(&7));
    assert_eq!(map.key(0), Some(""));
}
