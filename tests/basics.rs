use bstree::BinaryTree;

#[test]
fn lib_test_min() {
    let mut a = BinaryTree::new(1);
    a.vec_insert([1, 2, 3, 4, 5, 6].to_vec());
    assert_eq!(a.min(), Some(&1));
}

#[test]
fn lib_test_max() {
    let mut a = BinaryTree::new("hola");
    a.vec_insert(["a", "b", "c", "adfasdfafas", "zzz"].to_vec());
    assert_eq!(a.max(), Some(&"zzz"));
}

#[test]
fn lib_test_string() {
    let mut a = BinaryTree::new(String::from("Hola"));
    let b: Vec<String> = vec!["Hola".to_string(), "adios".to_string()];
    a.vec_insert(b);
    assert_eq!(a.min(), Some(&"Hola".to_string()));
}

#[test]
fn lib_test_insert() {
    let mut tree = BinaryTree::new(10);
    tree.insert(5).unwrap();
    tree.insert(15).unwrap();
    assert_eq!(tree.contains(5), true);
    assert_eq!(tree.contains(15), true);
    assert_eq!(tree.contains(10), true);
}

#[test]
fn lib_test_delete() {
    let mut tree = BinaryTree::new(10);
    tree.insert(5).unwrap();
    tree.insert(15).unwrap();
    tree.delete(5).unwrap();
    assert_eq!(tree.contains(5), false);
    assert_eq!(tree.contains(15), true);
}

#[test]
fn lib_test_contains() {
    let mut tree = BinaryTree::new(10);
    tree.insert(5).unwrap();
    tree.insert(15).unwrap();
    assert_eq!(tree.contains(5), true);
    assert_eq!(tree.contains(20), false);
}

#[test]
fn lib_test_clear() {
    let mut tree = BinaryTree::new(10);
    tree.insert(5).unwrap();
    tree.insert(15).unwrap();
    tree.clear();
    assert!(tree.is_empty());
}

#[test]
fn test_is_empty() {
    let mut tree: BinaryTree<i32> = BinaryTree {
        elem: None,
        left: None,
        right: None,
    };
    assert!(tree.is_empty());

    tree.insert(10).unwrap();
    assert!(!tree.is_empty());
}

#[test]
fn lib_test_height() {
    let mut tree = BinaryTree::new(10);
    tree.insert(5).unwrap();
    tree.insert(15).unwrap();
    tree.insert(20).unwrap();
    assert_eq!(tree.height(), 3);
}

#[test]
fn lib_test_count() {
    let mut tree = BinaryTree::new(10);
    tree.insert(5).unwrap();
    tree.insert(15).unwrap();
    tree.insert(20).unwrap();
    assert_eq!(tree.count(), 4);
}

#[test]
fn mod_test_min() {
    let mut a = BinaryTree::new(1);
    a.vec_insert([1, 2, 3, 4, 5, 6].to_vec());
    assert_eq!(a.min(), Some(&1));
}

#[test]
fn mod_test_max() {
    let mut a = BinaryTree::new("hola");
    a.vec_insert(["a", "b", "c", "adfasdfafas", "zzz"].to_vec());
    assert_eq!(a.max(), Some(&"zzz"));
}

#[test]
fn mod_test_string() {
    let mut a = BinaryTree::new(String::from("Hola"));
    let b: Vec<String> = vec!["Hola".to_string(), "adios".to_string()];
    a.vec_insert(b);
    assert_eq!(a.min(), Some(&"Hola".to_string()));
}

#[test]
fn mod_test_insert() {
    let mut tree = BinaryTree::new(10);
    let _ = tree.insert(5);
    let _ = tree.insert(15);
    assert_eq!(tree.contains(5), true);
    assert_eq!(tree.contains(15), true);
    assert_eq!(tree.contains(10), true);
}

#[test]
fn mod_test_delete() {
    let mut tree = BinaryTree::new(10);
    let _ = tree.insert(5);
    let _ = tree.insert(15);
    tree.delete(5).unwrap();
    assert_eq!(tree.contains(5), false);
    assert_eq!(tree.contains(15), true);
}

#[test]
fn mod_test_contains() {
    let mut tree = BinaryTree::new(10);
    let _ = tree.insert(5);
    let _ = tree.insert(15);
    assert_eq!(tree.contains(5), true);
    assert_eq!(tree.contains(20), false);
}

#[test]
fn mod_test_clear() {
    let mut tree = BinaryTree::new(10);
    let _ = tree.insert(5);
    let _ = tree.insert(15);
    tree.clear();
    assert!(tree.is_empty());
}

#[test]
fn mod_test_height() {
    let mut tree = BinaryTree::new(10);
    let _ = tree.insert(5);
    let _ = tree.insert(15);
    let _ = tree.insert(20);
    assert_eq!(tree.height(), 3);
}

#[test]
fn mod_test_count() {
    let mut tree = BinaryTree::new(10);
    let _ = tree.insert(5);
    let _ = tree.insert(15);
    let _ = tree.insert(20);
    assert_eq!(tree.count(), 4);
}
