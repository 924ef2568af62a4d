use sparse_matrix::tree::BinaryTree;

fn sample() -> BinaryTree<i32> {
    let mut left = BinaryTree::new();
    left.insert_root(2);
    left.set_left(4);
    left.set_right(5);
    let mut right = BinaryTree::new();
    right.insert_root(3);
    BinaryTree::from_subtrees(left, 1, right)
}

fn drain_pre(t: &BinaryTree<i32>) -> Vec<i32> {
    let mut it = t.iter_preorder();
    let mut v = Vec::new();
    while let Some(x) = it.next() {
        v.push(*x);
    }
    v
}

#[test]
fn traversal_orders() {
    let t = sample();
    assert_eq!(drain_pre(&t), vec![1, 2, 4, 5, 3]);
    let mut v = Vec::new();
    let mut it = t.iter_inorder();
    while let Some(x) = it.next() {
        v.push(*x);
    }
    assert_eq!(v, vec![4, 2, 5, 1, 3]);
    let mut v = Vec::new();
    let mut it = t.iter_postorder();
    while let Some(x) = it.next() {
        v.push(*x);
    }
    assert_eq!(v, vec![4, 5, 2, 3, 1]);
    let mut v = Vec::new();
    let mut it = t.iter_levelorder();
    while let Some(x) = it.next() {
        v.push(*x);
    }
    assert_eq!(v, vec![1, 2, 3, 4, 5]);
}

#[test]
fn empty_tree() {
    let t: BinaryTree<i32> = BinaryTree::new();
    assert!(t.is_empty());
    assert_eq!(t.root_data(), None);
    assert_eq!(t.count_leaf_nodes(), 0);
    assert!(t.iter_preorder().next().is_none());
    assert!(t.left_subtree().is_empty());
}

#[test]
fn subtrees_and_root() {
    let t = sample();
    assert!(!t.is_empty());
    assert_eq!(t.root_data(), Some(&1));
    let l = t.left_subtree();
    assert_eq!(l.root_data(), Some(&2));
    assert_eq!(drain_pre(&l), vec![2, 4, 5]);
    let r = t.right_subtree();
    assert_eq!(drain_pre(&r), vec![3]);
}

#[test]
fn count_leaves() {
    let mut tree = BinaryTree::new();
    tree.insert_root(1);
    let mut node2 = BinaryTree::new();
    node2.insert_root(2);
    node2.set_left(4);
    node2.set_right(5);
    let mut node3 = BinaryTree::new();
    node3.insert_root(3);
    tree.set_left_tree(node2);
    tree.set_right_tree(node3);
    assert_eq!(tree.count_leaf_nodes(), 3);
}

#[test]
fn swap_mirrors_tree() {
    let mut tree = sample();
    tree.swap_tree();
    let mut v = Vec::new();
    let mut it = tree.iter_levelorder();
    while let Some(x) = it.next() {
        v.push(*x);
    }
    assert_eq!(v, vec![1, 3, 2, 5, 4]);
}

#[test]
fn setters_on_empty_tree_do_nothing() {
    let mut t: BinaryTree<i32> = BinaryTree::new();
    t.set_left(1);
    t.set_right(2);
    t.set_left_tree(sample());
    assert!(t.is_empty());
}
