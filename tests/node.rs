use prefix_tree::{Node, Tree};

fn bytes(s: &str) -> Vec<u8> {
    s.as_bytes().to_vec()
}

fn sample_tree() -> Tree<i32> {
    // "fo" -> 0 with child "o" -> 1, whose sibling is "0" -> 2; "bar" -> 3
    // is the sibling of "fo".
    let mut t = Tree::new();
    t.insert(b"fo", 0);
    t.insert(b"foo", 1);
    t.insert(b"fo0", 2);
    t.insert(b"bar", 3);
    t
}

#[test]
fn test_common_prefix_empty() {
    assert!(Node::new(bytes("foo"), ()).common_prefix("".as_bytes()) == 0);
}

#[test]
fn test_common_prefix_short() {
    assert!(Node::new(bytes("foobar"), ()).common_prefix("fo0bar".as_bytes()) == 2);
}

#[test]
fn test_common_prefix_bytes() {
    let left = "foó"; // [b'f', b'o', b'\xc3', b'\xb3']
    let right = "foò"; // [b'f', b'o', b'\xc3', b'\xb2']
    assert!(Node::new(bytes(left), ()).common_prefix(right.as_bytes()) == 3);
}

#[test]
fn test_find_empty() {
    let t = Tree::<()>::new();
    assert!(t.find(b"").is_none());
    assert!(t.find(b"foo").is_none());
}

#[test]
fn test_find_mut_empty() {
    let mut t = Tree::<()>::new();
    assert!(t.find_mut(b"").is_none());
    assert!(t.find_mut(b"foo").is_none());
}

#[test]
fn sample_tree_has_the_expected_shape() {
    let t = sample_tree();
    let fo = t.root().unwrap();
    assert!(fo.key() == b"fo");
    let o = fo.child().unwrap();
    assert!(o.key() == b"o");
    assert!(o.sibling().unwrap().key() == b"0");
    assert!(fo.sibling().unwrap().key() == b"bar");
}

#[test]
fn test_find_simple() {
    assert!(sample_tree().find(b"fo").unwrap().value == Some(0));
}

#[test]
fn test_find_mut_simple() {
    assert!(sample_tree().find_mut(b"fo").unwrap().value == Some(0));
}

#[test]
fn test_find_child() {
    assert!(sample_tree().find(b"foo").unwrap().value == Some(1));
}

#[test]
fn test_find_mut_child() {
    assert!(sample_tree().find_mut(b"foo").unwrap().value == Some(1));
}

#[test]
fn test_find_sibling() {
    assert!(sample_tree().find(b"bar").unwrap().value == Some(3));
}

#[test]
fn test_find_mut_sibling() {
    assert!(sample_tree().find_mut(b"bar").unwrap().value == Some(3));
}

#[test]
fn test_find_missing() {
    assert!(sample_tree().find(b"quux").is_none());
}

#[test]
fn test_find_mut_missing() {
    assert!(sample_tree().find_mut(b"quux").is_none());
}

#[test]
fn test_find_shorter() {
    assert!(sample_tree().find(b"f").is_none());
}

#[test]
fn test_find_mut_shorter() {
    assert!(sample_tree().find_mut(b"f").is_none());
}

#[test]
fn test_find_longer() {
    assert!(sample_tree().find(b"fooo").is_none());
}

#[test]
fn test_find_mut_longer() {
    assert!(sample_tree().find_mut(b"fooo").is_none());
}

#[test]
fn test_insert_empty() {
    let mut t = Tree::new();
    t.insert(b"foo", ());
    let root = t.root().unwrap();
    assert!(root.key() == b"foo");
    assert!(root.value == Some(()));
    assert!(root.child().is_none());
    assert!(root.sibling().is_none());
}

#[test]
fn lib_test_insert_append() {
    let mut t = Tree::new();
    t.insert(b"foo", 0);
    t.insert(b"foobar", 1);
    t.insert(b"foobarbaz", 2);
    let foo = t.root().unwrap();
    assert!(foo.key() == b"foo");
    assert!(foo.value == Some(0));
    assert!(foo.sibling().is_none());
    let bar = foo.child().unwrap();
    assert!(bar.key() == b"bar");
    assert!(bar.value == Some(1));
    assert!(bar.sibling().is_none());
    let baz = bar.child().unwrap();
    assert!(baz.key() == b"baz");
    assert!(baz.value == Some(2));
    assert!(baz.child().is_none());
    assert!(baz.sibling().is_none());
}

#[test]
fn test_insert_sibling() {
    let mut t = Tree::new();
    t.insert(b"foo", 0);
    t.insert(b"bar", 1);
    t.insert(b"quux", 2);
    let foo = t.root().unwrap();
    assert!(foo.key() == b"foo");
    assert!(foo.value == Some(0));
    assert!(foo.child().is_none());
    let bar = foo.sibling().unwrap();
    assert!(bar.key() == b"bar");
    assert!(bar.value == Some(1));
    assert!(bar.child().is_none());
    let quux = bar.sibling().unwrap();
    assert!(quux.key() == b"quux");
    assert!(quux.value == Some(2));
    assert!(quux.child().is_none());
    assert!(quux.sibling().is_none());
}

#[test]
fn test_insert_split() {
    let mut t = Tree::new();
    t.insert(b"foo", 0);
    t.insert(b"fobar", 1);
    let root = t.root().unwrap();
    assert!(root.key() == b"fo");
    assert!(root.value.is_none());
    assert!(root.sibling().is_none());
    let foo = root.child().unwrap();
    assert!(foo.key() == b"o");
    assert!(foo.value == Some(0));
    assert!(foo.child().is_none());
    let bar = foo.sibling().unwrap();
    assert!(bar.key() == b"bar");
    assert!(bar.value == Some(1));
    assert!(bar.sibling().is_none());
    assert!(bar.child().is_none());
}

#[test]
fn node_insert_overwrites_and_keeps_structure() {
    let mut t = Tree::new();
    t.insert(b"foo", 0);
    t.insert(b"foo", 7);
    assert!(t.find(b"foo").unwrap().value == Some(7));
    let root = t.root().unwrap();
    assert!(root.child().is_none());
    assert!(root.sibling().is_none());
}

#[test]
fn node_insert_prefix_of_existing_key_splits() {
    let mut t = Tree::new();
    t.insert(b"foobar", 1);
    t.insert(b"foo", 0);
    assert!(t.find(b"foo").unwrap().value == Some(0));
    assert!(t.find(b"foobar").unwrap().value == Some(1));
    let root = t.root().unwrap();
    assert!(root.key() == b"foo");
    assert!(root.child().unwrap().key() == b"bar");
}

#[test]
fn node_empty_key_is_stored_and_overwritten() {
    let mut t = Tree::new();
    t.insert(b"foo", 0);
    t.insert(b"", 1);
    assert!(t.find(b"").unwrap().value == Some(1));
    t.insert(b"", 2);
    assert!(t.find(b"").unwrap().value == Some(2));
    assert!(t.find(b"foo").unwrap().value == Some(0));
}

#[test]
fn node_find_mut_changes_the_value() {
    let mut t = sample_tree();
    if let Some(n) = t.find_mut(b"foo") {
        n.value = Some(10);
    }
    assert!(t.find(b"foo").unwrap().value == Some(10));
    assert!(t.find(b"fo").unwrap().value == Some(0));
}

#[test]
fn node_find_skips_nodes_without_a_value() {
    let mut t = Tree::new();
    t.insert(b"foo", 0);
    t.insert(b"fobar", 1);
    assert!(t.find(b"fo").is_none());
    assert!(t.find_mut(b"fo").is_none());
    assert!(t.root().unwrap().value().is_none());
    assert!(t.find(b"fobar").unwrap().value() == Some(&1));
}
