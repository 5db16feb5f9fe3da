use prefix_tree::tree::{common_prefix, Tree};

fn sample_tree() -> Tree<i32, u8> {
    // [1, 2] -> 0 with children [3] -> 1 and [-3] -> 2, beside [9, 8, 7] -> 3.
    let mut t = Tree::new(vec![1, 2], 0);
    t.insert(&[1, 2, 3], 1);
    t.insert(&[1, 2, -3], 2);
    t.insert(&[9, 8, 7], 3);
    t
}

#[test]
fn test_common_prefix() {
    assert_eq!(common_prefix(&[1, 2, 3], &[]), 0);
    assert_eq!(common_prefix(&[1, 2, 3, 4, 5, 6], &[1, 2, 9, 4, 5, 6]), 2);
}

#[test]
fn test_find() {
    let t = sample_tree();
    assert_eq!(t.find(&[1, 2]).and_then(|x| x.value), Some(0));
    assert_eq!(t.find(&[1, 2, 3]).and_then(|x| x.value), Some(1));
    assert_eq!(t.find(&[9, 8, 7]).and_then(|x| x.value), Some(3));
    assert!(t.find(&[]).is_none());
    assert!(t.find(&[4, 5, 6]).is_none());
    assert!(t.find(&[0]).is_none());
    assert!(t.find(&[1, 2, 3, 3]).is_none());
}

#[test]
fn test_find_mut() {
    assert_eq!(
        sample_tree().find_mut(&[1, 2]).and_then(|x| x.value),
        Some(0)
    );
    assert_eq!(
        sample_tree().find_mut(&[1, 2, 3]).and_then(|x| x.value),
        Some(1)
    );
    assert_eq!(
        sample_tree().find_mut(&[9, 8, 7]).and_then(|x| x.value),
        Some(3)
    );
    assert!(sample_tree().find_mut(&[4, 5, 6]).is_none());
    assert!(sample_tree().find_mut(&[0]).is_none());
    assert!(sample_tree().find_mut(&[1, 2, 3, 3]).is_none());
}

#[test]
fn tree_test_insert_append() {
    let mut root = Tree::new(vec![1, 2, 3], 0);
    root.insert(&[], 999);
    root.insert(&[1], 2);
    root.insert(&[1, 2, 3, 4, 5, 6], 1);
    root.insert(&[1, 2, 3, 4, 5, 6, 7, 8, 9], 2);
    root.insert(&[3, 2, 1], -1);
    root.insert(&[1, 2, 5, 6], 9);

    assert_eq!(root.find(&[]).and_then(|x| x.value), Some(999));
    assert_eq!(root.find(&[1]).and_then(|x| x.value), Some(2));
    assert_eq!(
        root.find(&[1, 2, 3, 4, 5, 6]).and_then(|x| x.value),
        Some(1)
    );
    assert_eq!(
        root.find(&[1, 2, 3, 4, 5, 6, 7, 8, 9])
            .and_then(|x| x.value),
        Some(2)
    );
    assert_eq!(root.find(&[3, 2, 1]).and_then(|x| x.value), Some(-1));
    assert_eq!(root.find(&[1, 2, 5, 6]).and_then(|x| x.value), Some(9));
}

#[test]
fn tree_insert_returns_the_previous_value() {
    let mut t: Tree<u8, i32> = Tree::empty();
    assert_eq!(t.insert(b"foo", 1), None);
    assert_eq!(t.insert(b"foo", 2), Some(1));
    assert_eq!(t.find(b"foo").and_then(|x| x.value), Some(2));
}

#[test]
fn tree_split_keeps_the_shared_fragment() {
    let mut t: Tree<u8, i32> = Tree::empty();
    t.insert(b"foo", 0);
    t.insert(b"fobar", 1);
    let fo = &t.children()[0];
    assert_eq!(fo.key(), b"fo");
    assert!(fo.value().is_none());
    assert_eq!(fo.children().len(), 2);
    assert_eq!(fo.children()[0].key(), b"o");
    assert_eq!(fo.children()[1].key(), b"bar");
}

#[test]
fn tree_common_prefix_method() {
    let t: Tree<u8, ()> = Tree::new(b"foobar".to_vec(), ());
    assert_eq!(t.common_prefix(b"fo0bar"), 2);
    assert_eq!(t.common_prefix(b""), 0);
    assert_eq!(t.common_prefix(b"foobarbaz"), 6);
}

#[test]
fn tree_value_mut_changes_the_value() {
    let mut t: Tree<u8, i32> = Tree::empty();
    t.insert(b"ab", 1);
    if let Some(n) = t.find_mut(b"ab") {
        if let Some(v) = n.value_mut() {
            *v = 5;
        }
    }
    assert_eq!(t.find(b"ab").and_then(|x| x.value()), Some(&5));
}
