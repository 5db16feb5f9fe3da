use prefix_tree::PrefixSet;

#[test]
fn set_new_is_empty() {
    let set: PrefixSet<u8> = PrefixSet::new();
    assert!(set.is_empty());
    assert_eq!(set.len(), 0);
}

#[test]
fn set_clear() {
    let mut set: PrefixSet<u8> = PrefixSet::new();
    set.insert(b"foo");
    set.clear();
    assert!(set.is_empty());
    assert!(!set.contains(b"foo"));
}

#[test]
fn set_contains() {
    let mut set: PrefixSet<u8> = PrefixSet::new();
    set.insert(b"1");
    assert_eq!(set.contains(b"1"), true);
    assert_eq!(set.contains(b"2"), false);
}

#[test]
fn set_insert_reports_new_keys_once() {
    let mut set: PrefixSet<u8> = PrefixSet::new();
    assert_eq!(set.insert(b"1"), true);
    assert_eq!(set.insert(b"1"), false);
    assert_eq!(set.contains(b"1"), true);
    assert_eq!(set.insert(b"12"), true);
    assert_eq!(set.insert(b""), true);
    assert_eq!(set.insert(b"12"), false);
    assert_eq!(set.insert(b""), false);
    assert_eq!(set.len(), 3);
    assert!(!set.contains(b"2"));
}

#[test]
fn set_is_empty_and_len() {
    let mut set: PrefixSet<u8> = PrefixSet::new();
    assert_eq!(set.is_empty(), true);
    assert_eq!(set.len(), 0);
    set.insert(b"foo");
    assert_eq!(set.is_empty(), false);
    assert_eq!(set.len(), 1);
}

#[test]
fn set_iter_in_order() {
    let mut set: PrefixSet<u8> = PrefixSet::new();
    set.insert(b"1");
    set.insert(b"2");
    let mut iter = set.iter();
    assert_eq!(iter.len(), 2);
    assert_eq!(iter.next(), Some(vec![b'1']));
    assert_eq!(iter.next(), Some(vec![b'2']));
    assert_eq!(iter.len(), 0);
    assert_eq!(iter.next(), None);
}

#[test]
fn set_from_iter() {
    let set = PrefixSet::from_iter(vec![b"to".to_vec(), b"tea".to_vec(), b"to".to_vec()]);
    assert_eq!(set.len(), 2);
    assert!(set.contains(b"to"));
    assert!(set.contains(b"tea"));
    assert!(!set.contains(b"t"));
}
