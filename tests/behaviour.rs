use bstree::{BinaryTree, TreeError};

fn tree_of(first: i32, rest: &[i32]) -> BinaryTree<i32> {
    let mut t = BinaryTree::new(first);
    for v in rest {
        t.insert(*v).unwrap();
    }
    t
}

fn in_order(t: &BinaryTree<i32>) -> Vec<i32> {
    t.inorder().into_iter().copied().collect()
}

fn is_ascending(v: &[i32]) -> bool {
    v.windows(2).all(|w| w[0] < w[1])
}

#[test]
fn four_inserts_give_height_three() {
    let t = tree_of(10, &[5, 15, 20]);
    assert_eq!(t.height(), 3);
    assert_eq!(t.count(), 4);
    assert_eq!(in_order(&t), vec![5, 10, 15, 20]);
}

#[test]
fn delete_leaf_keeps_the_rest() {
    let mut t = tree_of(10, &[5, 15]);
    assert_eq!(t.delete(5), Ok(()));
    assert!(!t.contains(5));
    assert!(t.contains(15));
    assert_eq!(in_order(&t), vec![10, 15]);
}

#[test]
fn string_min_and_max() {
    let mut t = BinaryTree::new("a".to_string());
    t.insert("b".to_string()).unwrap();
    t.insert("c".to_string()).unwrap();
    assert_eq!(t.min(), Some(&"a".to_string()));
    assert_eq!(t.max(), Some(&"c".to_string()));
}

#[test]
fn duplicate_insert_is_reported_and_changes_nothing() {
    let mut t = tree_of(10, &[5, 15]);
    assert_eq!(t.insert(5), Err(TreeError::DuplicateElement));
    assert_eq!(t.insert(10), Err(TreeError::DuplicateElement));
    assert_eq!(in_order(&t), vec![5, 10, 15]);
    assert_eq!(t.count(), 3);
}

#[test]
fn delete_absent_is_reported_and_changes_nothing() {
    let mut t = tree_of(10, &[5, 15, 12]);
    let before = in_order(&t);
    assert_eq!(t.delete(7), Err(TreeError::ElementNotFound));
    assert_eq!(t.delete(100), Err(TreeError::ElementNotFound));
    assert_eq!(in_order(&t), before);
    assert_eq!(t.height(), 3);
}

#[test]
fn delete_from_empty_tree_fails() {
    let mut t = BinaryTree::new(1);
    t.clear();
    assert_eq!(t.delete(1), Err(TreeError::ElementNotFound));
    assert!(t.is_empty());
}

#[test]
fn delete_two_children_promotes_successor() {
    let mut t = tree_of(10, &[5, 15, 12, 20, 11]);
    t.delete(10).unwrap();
    assert_eq!(in_order(&t), vec![5, 11, 12, 15, 20]);
    assert_eq!(t.preorder().into_iter().copied().collect::<Vec<i32>>(), vec![11, 5, 15, 12, 20]);
    assert!(!t.contains(10));
    assert_eq!(t.count(), 5);
}

#[test]
fn delete_one_child_lifts_the_subtree() {
    let mut t = tree_of(10, &[5, 3, 4]);
    t.delete(5).unwrap();
    assert_eq!(in_order(&t), vec![3, 4, 10]);
    assert_eq!(t.height(), 3);
    t.delete(10).unwrap();
    assert_eq!(in_order(&t), vec![3, 4]);
    assert_eq!(t.min(), Some(&3));
    assert_eq!(t.height(), 2);
}

#[test]
fn delete_last_element_empties_the_tree() {
    let mut t = BinaryTree::new(7);
    t.delete(7).unwrap();
    assert!(t.is_empty());
    assert_eq!(t.count(), 0);
    assert_eq!(t.height(), 0);
    assert_eq!(t.min(), None);
    assert_eq!(t.max(), None);
    t.insert(8).unwrap();
    assert_eq!(in_order(&t), vec![8]);
}

#[test]
fn traversal_orders() {
    let t = tree_of(10, &[5, 15, 3, 7, 20]);
    assert_eq!(in_order(&t), vec![3, 5, 7, 10, 15, 20]);
    assert_eq!(t.preorder().into_iter().copied().collect::<Vec<i32>>(), vec![10, 5, 3, 7, 15, 20]);
    assert_eq!(t.postorder().into_iter().copied().collect::<Vec<i32>>(), vec![3, 7, 5, 20, 15, 10]);
}

#[test]
fn iterator_yields_ascending_then_none() {
    let t = tree_of(50, &[30, 70, 20, 40, 60, 80, 35]);
    let mut it = t.into_iter();
    let mut seen = Vec::new();
    while let Some(v) = it.next() {
        seen.push(*v);
    }
    assert_eq!(seen, vec![20, 30, 35, 40, 50, 60, 70, 80]);
    assert_eq!(it.next(), None);
    assert_eq!(seen.len(), t.count());
}

#[test]
fn iterator_over_empty_tree() {
    let mut t = BinaryTree::new(1);
    t.clear();
    let mut it = t.into_iter();
    assert_eq!(it.next(), None);
}

#[test]
fn ascending_after_mixed_operations() {
    let mut t = tree_of(40, &[20, 60, 10, 30, 50, 70]);
    t.delete(20).unwrap();
    t.insert(25).unwrap();
    t.delete(40).unwrap();
    t.insert(45).unwrap();
    t.delete(70).unwrap();
    let v = in_order(&t);
    assert!(is_ascending(&v));
    assert_eq!(v, vec![10, 25, 30, 45, 50, 60]);
}

#[test]
fn round_trip_membership() {
    let values = [8, 3, 12, 1, 6, 10, 14, -4];
    let mut t = BinaryTree::new(values[0]);
    t.vec_insert(values[1..].to_vec());
    for v in values {
        assert!(t.contains(v));
    }
    for v in [0, 2, 100, -5, 9] {
        assert!(!t.contains(v));
    }
}

#[test]
fn count_after_inserts_and_deletes() {
    let mut t = tree_of(8, &[3, 12, 1, 6, 10, 14]);
    assert_eq!(t.count(), 7);
    t.delete(3).unwrap();
    t.delete(14).unwrap();
    assert_eq!(t.count(), 5);
}

#[test]
fn min_max_track_contents() {
    let mut t = tree_of(8, &[3, 12, 1, 14]);
    assert_eq!(t.min(), Some(&1));
    assert_eq!(t.max(), Some(&14));
    t.delete(1).unwrap();
    t.delete(14).unwrap();
    assert_eq!(t.min(), Some(&3));
    assert_eq!(t.max(), Some(&12));
}

#[test]
fn clear_twice_stays_empty() {
    let mut t = tree_of(8, &[3, 12]);
    t.clear();
    assert!(t.is_empty());
    t.clear();
    assert!(t.is_empty());
    assert_eq!(t.count(), 0);
    assert_eq!(in_order(&t), Vec::<i32>::new());
}

#[test]
fn bulk_insert_skips_duplicates() {
    let mut t = BinaryTree::new(5);
    t.vec_insert(vec![3, 5, 7, 3, 9]);
    assert_eq!(in_order(&t), vec![3, 5, 7, 9]);
    assert_eq!(t.count(), 4);
}

#[test]
fn descending_inserts_make_a_path() {
    let t = tree_of(5, &[4, 3, 2, 1]);
    assert_eq!(t.height(), 5);
    assert_eq!(t.count(), 5);
}

#[test]
fn empty_root_takes_first_insert() {
    let mut t: BinaryTree<i32> = BinaryTree { elem: None, left: None, right: None };
    assert_eq!(t.height(), 0);
    t.insert(3).unwrap();
    assert_eq!(t.height(), 1);
    assert_eq!(t.min(), Some(&3));
}

#[test]
fn four_inserts_fix_the_shape() {
    let t = tree_of(10, &[5, 15, 20]);
    assert_eq!(t.preorder().into_iter().copied().collect::<Vec<i32>>(), vec![10, 5, 15, 20]);
    assert_eq!(t.postorder().into_iter().copied().collect::<Vec<i32>>(), vec![5, 20, 15, 10]);
}

#[test]
fn delete_root_promotes_its_successor() {
    let mut t = tree_of(10, &[5, 15, 12]);
    assert_eq!(t.delete(10), Ok(()));
    assert_eq!(t.preorder().into_iter().copied().collect::<Vec<i32>>(), vec![12, 5, 15]);
    assert_eq!(t.count(), 3);
}

#[test]
fn ascending_bulk_insert_makes_a_chain() {
    let mut t = BinaryTree::new(1);
    t.vec_insert(vec![2, 3, 4, 5]);
    assert_eq!(t.height(), 5);
    assert_eq!(t.preorder().into_iter().copied().collect::<Vec<i32>>(), vec![1, 2, 3, 4, 5]);
}

#[test]
fn insert_grows_height_by_at_most_one_and_delete_never() {
    let mut t = tree_of(10, &[5, 15]);
    let h = t.height();
    t.insert(3).unwrap();
    assert_eq!(t.height(), h + 1);
    let h = t.height();
    t.insert(7).unwrap();
    assert_eq!(t.height(), h);
    t.delete(10).unwrap();
    assert!(t.height() <= h);
    assert_eq!(t.preorder().into_iter().copied().collect::<Vec<i32>>(), vec![15, 5, 3, 7]);
    t.delete(3).unwrap();
    assert_eq!(t.height(), 3);
    t.delete(5).unwrap();
    assert_eq!(t.height(), 2);
}
