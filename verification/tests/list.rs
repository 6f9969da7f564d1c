use patricia::collections::list::List;

#[test]
fn list_grows_at_the_front() {
    let l: List<u32> = List::empty();
    assert!(l.is_empty());
    assert!(l.head().is_none());
    assert!(l.tail().is_none());

    let l = l.put(3).put(2).put(1);
    assert!(!l.is_empty());
    assert_eq!(l.head(), Some(&1));
    assert_eq!(l.get(0), Some(&1));
    assert_eq!(l.get(1), Some(&2));
    assert_eq!(l.get(2), Some(&3));
    assert_eq!(l.get(3), None);

    let tail = l.tail().expect("non-empty");
    assert_eq!(tail.head(), Some(&2));
}

#[test]
fn list_tail_is_shared() {
    let base: List<u32> = List::empty().put(9);
    let a = base.share().put(1);
    let b = base.put(2);
    assert_eq!(a.get(0), Some(&1));
    assert_eq!(b.get(0), Some(&2));
    assert_eq!(a.get(1), Some(&9));
    assert_eq!(b.get(1), Some(&9));
}

#[test]
fn list_cursor_walks_front_first() {
    let l: List<u32> = List::empty().put(30).put(20).put(10);
    let mut it = l.iter();
    assert_eq!(it.next(), Some(&10));
    assert_eq!(it.next(), Some(&20));
    assert_eq!(it.next(), Some(&30));
    assert_eq!(it.next(), None);
}
