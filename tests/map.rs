use prefix_tree::map::{Iter, PrefixMap};

fn entries<'a>(mut it: Iter<'a, u8, i32>) -> Vec<(Vec<u8>, i32)> {
    let mut out = Vec::new();
    while let Some((k, v)) = it.next() {
        out.push((k, *v));
    }
    out
}

#[test]
fn map_new_is_empty() {
    let map: PrefixMap<u8, i32> = PrefixMap::new();
    assert_eq!(map.len(), 0);
    assert!(map.is_empty());
}

#[test]
fn map_contains_key() {
    let mut map: PrefixMap<u8, i32> = PrefixMap::new();
    map.insert(b"foo", 1);
    assert_eq!(map.contains_key(b"foo"), true);
    assert_eq!(map.contains_key(b"bar"), false);
}

#[test]
fn map_clear() {
    let mut map: PrefixMap<u8, i32> = PrefixMap::new();
    map.insert(b"foo", 1);
    map.clear();
    assert!(map.is_empty());
    assert_eq!(map.get(b"foo"), None);
}

#[test]
fn map_get() {
    let mut map: PrefixMap<u8, i32> = PrefixMap::new();
    map.insert(b"foo", 1);
    assert_eq!(map.get(b"foo"), Some(&1));
    assert_eq!(map.get(b"bar"), None);
}

#[test]
fn map_get_mut() {
    let mut map: PrefixMap<u8, i32> = PrefixMap::new();
    map.insert(b"foo", 1);
    if let Some(x) = map.get_mut(b"foo") {
        *x = 2;
    }
    assert_eq!(map.get(b"foo"), Some(&2));
    assert!(map.get_mut(b"fo").is_none());
    assert_eq!(map.len(), 1);
}

#[test]
fn map_insert() {
    let mut map: PrefixMap<u8, i32> = PrefixMap::new();
    assert_eq!(map.insert(b"a", 42), None);
    assert_eq!(map.is_empty(), false);
    assert_eq!(map.insert(b"a", 5), Some(42));
    assert_eq!(map.get(b"a"), Some(&5));
}

#[test]
fn map_is_empty_and_len() {
    let mut map: PrefixMap<u8, i32> = PrefixMap::new();
    assert_eq!(map.is_empty(), true);
    assert_eq!(map.len(), 0);
    map.insert(b"foo", 1);
    assert_eq!(map.is_empty(), false);
    assert_eq!(map.len(), 1);
}

#[test]
fn map_keys_in_order() {
    let mut map: PrefixMap<i32, i32> = PrefixMap::new();
    map.insert(&[1], 2);
    map.insert(&[2], 3);
    let mut keys = map.keys();
    assert_eq!(keys.next(), Some(vec![1]));
    assert_eq!(keys.next(), Some(vec![2]));
    assert_eq!(keys.next(), None);
}

#[test]
fn map_values_in_order() {
    let mut map: PrefixMap<i32, i32> = PrefixMap::new();
    map.insert(&[1], 2);
    map.insert(&[2], 3);
    let mut values = map.values();
    assert_eq!(values.next().cloned(), Some(2));
    assert_eq!(values.next().cloned(), Some(3));
    assert_eq!(values.next(), None);
}

#[test]
fn map_iter_counts_down_and_stays_done() {
    let mut map: PrefixMap<u8, i32> = PrefixMap::new();
    map.insert(b"1", 9);
    map.insert(b"2", 8);
    map.insert(b"3", 7);
    let mut it = map.iter();
    assert_eq!(it.len(), 3);
    assert_eq!(it.next(), Some((b"1".to_vec(), &9)));
    assert_eq!(it.len(), 2);
    assert_eq!(it.next(), Some((b"2".to_vec(), &8)));
    assert_eq!(it.next(), Some((b"3".to_vec(), &7)));
    assert_eq!(it.len(), 0);
    assert_eq!(it.next(), None);
    assert_eq!(it.next(), None);
}

#[test]
fn map_round_trip_with_unique_keys() {
    let keys: [&[u8]; 6] = [b"romane", b"romanus", b"romulus", b"rubens", b"ruber", b"rubicon"];
    let mut map: PrefixMap<u8, i32> = PrefixMap::new();
    for (i, k) in keys.iter().enumerate() {
        assert_eq!(map.insert(k, i as i32), None);
    }
    assert_eq!(map.len(), keys.len());
    for (i, k) in keys.iter().enumerate() {
        assert_eq!(map.get(k), Some(&(i as i32)));
    }
    assert_eq!(map.get(b"rom"), None);
    assert_eq!(map.get(b"r"), None);
    assert_eq!(map.get(b"rubiconx"), None);
}

#[test]
fn map_overwrite_keeps_length() {
    let mut map: PrefixMap<u8, &str> = PrefixMap::new();
    assert_eq!(map.insert(b"key", "a"), None);
    assert_eq!(map.len(), 1);
    assert_eq!(map.insert(b"key", "b"), Some("a"));
    assert_eq!(map.len(), 1);
    assert_eq!(map.get(b"key"), Some(&"b"));
}

#[test]
fn map_split_shares_the_fragment() {
    let mut map: PrefixMap<u8, i32> = PrefixMap::new();
    map.insert(b"foo", 0);
    map.insert(b"fobar", 1);
    assert_eq!(map.get(b"foo"), Some(&0));
    assert_eq!(map.get(b"fobar"), Some(&1));
    assert_eq!(map.get(b"fo"), None);
    // both keys hang below the shared "fo", "o" before "bar"
    assert_eq!(
        entries(map.iter()),
        vec![(b"foo".to_vec(), 0), (b"fobar".to_vec(), 1)]
    );
}

#[test]
fn map_empty_key() {
    let empty: PrefixMap<u8, i32> = PrefixMap::new();
    assert_eq!(empty.get(b""), None);
    assert_eq!(empty.get(b"anything"), None);
    let mut map: PrefixMap<u8, i32> = PrefixMap::new();
    map.insert(b"abc", 1);
    map.insert(b"", 7);
    assert_eq!(map.get(b""), Some(&7));
    assert_eq!(map.len(), 2);
    // the empty key comes first
    assert_eq!(entries(map.iter()), vec![(Vec::new(), 7), (b"abc".to_vec(), 1)]);
}

#[test]
fn map_enumeration_matches_lookup() {
    let keys: [&[u8]; 7] = [b"team", b"tea", b"ten", b"inn", b"in", b"i", b"to"];
    let mut map: PrefixMap<u8, i32> = PrefixMap::new();
    for (i, k) in keys.iter().enumerate() {
        map.insert(k, i as i32);
    }
    let all = entries(map.iter());
    assert_eq!(all.len(), map.len());
    for (k, v) in &all {
        assert_eq!(map.get(k), Some(v));
    }
    for k in keys.iter() {
        assert_eq!(all.iter().filter(|(key, _)| key.as_slice() == *k).count(), 1);
    }
}

#[test]
fn map_nested_keys_scenario() {
    let mut map: PrefixMap<u8, i32> = PrefixMap::new();
    map.insert(b"foo", 0);
    map.insert(b"foobar", 1);
    map.insert(b"foobarbaz", 2);
    assert_eq!(map.get(b"foo"), Some(&0));
    assert_eq!(map.get(b"foobar"), Some(&1));
    assert_eq!(map.get(b"foobarbaz"), Some(&2));
    assert_eq!(map.get(b"fo"), None);
    assert_eq!(map.len(), 3);
}

#[test]
fn map_disjoint_keys_scenario() {
    let mut map: PrefixMap<u8, i32> = PrefixMap::new();
    map.insert(b"foo", 0);
    map.insert(b"bar", 1);
    map.insert(b"quux", 2);
    assert_eq!(map.get(b"foo"), Some(&0));
    assert_eq!(map.get(b"bar"), Some(&1));
    assert_eq!(map.get(b"quux"), Some(&2));
    assert_eq!(map.len(), 3);
    assert_eq!(
        entries(map.iter()),
        vec![(b"foo".to_vec(), 0), (b"bar".to_vec(), 1), (b"quux".to_vec(), 2)]
    );
}

#[test]
fn map_from_iter_inserts_in_order() {
    let map = PrefixMap::from_iter(vec![
        (b"ab".to_vec(), 1),
        (b"a".to_vec(), 2),
        (b"ab".to_vec(), 3),
        (b"b".to_vec(), 4),
    ]);
    assert_eq!(map.len(), 3);
    assert_eq!(map.get(b"ab"), Some(&3));
    assert_eq!(map.get(b"a"), Some(&2));
    assert_eq!(map.get(b"b"), Some(&4));
}
