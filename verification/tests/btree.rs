use btree::BTree;
use btree::BTreeNode;

#[test]
fn it_has_ordered_inserts() {
    let mut btree = BTree::new(3);
    btree.insert(2);
    btree.insert(1);
    btree.insert(3);
    assert_eq!(btree.root.unwrap().keys, vec![1, 2, 3]);
}

#[test]
fn it_splits_the_root() {
    let mut btree = BTree::new(3);
    btree.insert(1);
    btree.insert(2);
    btree.insert(3);
    btree.insert(4);
    btree.insert(5);
    btree.insert(6);
    let root = &btree.root.unwrap();
    assert_eq!(root.keys, vec![3]);
    assert_eq!(root.children[0].keys, vec![1, 2]);
    assert_eq!(root.children[1].keys, vec![4, 5, 6]);
}

#[test]
fn it_splits_the_child() {
    let mut btree = BTree::new(3);
    btree.insert(1);
    btree.insert(2);
    btree.insert(3);
    btree.insert(4);
    btree.insert(5);
    btree.insert(6);
    btree.insert(7);
    btree.insert(8);
    btree.insert(9);
    let root = &btree.root.unwrap();
    assert_eq!(root.keys, vec![3, 6]);
    assert_eq!(root.children[0].keys, vec![1, 2]);
    assert_eq!(root.children[1].keys, vec![4, 5]);
    assert_eq!(root.children[2].keys, vec![7, 8, 9]);
}

#[test]
fn first_inserts_stay_in_one_leaf() {
    let mut btree = BTree::new(3);
    btree.insert(2);
    btree.insert(1);
    btree.insert(3);
    let root = btree.root.unwrap();
    assert_eq!(root.keys, vec![1, 2, 3]);
    assert!(root.children.is_empty());
    assert!(root.is_leaf);
}

#[test]
fn search_on_empty_tree_is_absent() {
    let btree = BTree::new(3);
    assert!(btree.search(0).is_none());
    assert!(btree.search(42).is_none());
    assert!(btree.search(usize::MAX).is_none());
}

#[test]
fn search_finds_every_inserted_key() {
    let mut btree = BTree::new(2);
    let keys = [8, 3, 11, 1, 6, 14, 4, 7, 10, 2, 13, 5, 9, 12];
    for &k in keys.iter() {
        btree.insert(k);
    }
    for &k in keys.iter() {
        let node = btree.search(k).expect("inserted key must be found");
        assert!(node.keys.contains(&k));
    }
    assert!(btree.search(0).is_none());
    assert!(btree.search(15).is_none());
}

#[test]
fn root_growth_is_the_only_height_increase() {
    let mut btree = BTree::new(2);
    btree.insert(1);
    btree.insert(2);
    btree.insert(3);
    {
        let root = btree.root.as_ref().unwrap();
        assert_eq!(root.keys, vec![1, 2, 3]);
        assert!(root.is_leaf);
    }
    btree.insert(4);
    let root = btree.root.unwrap();
    assert_eq!(root.keys, vec![2]);
    assert!(!root.is_leaf);
    assert_eq!(root.children[0].keys, vec![1]);
    assert_eq!(root.children[1].keys, vec![3, 4]);
}

#[test]
fn duplicate_keys_are_kept() {
    let mut btree = BTree::new(3);
    btree.insert(5);
    btree.insert(5);
    btree.insert(5);
    let root = btree.root.unwrap();
    assert_eq!(root.keys, vec![5, 5, 5]);
}

#[test]
fn insert_key_returns_the_sorted_position() {
    let mut node = BTreeNode::new(3, true);
    assert_eq!(node.insert_key(4), 0);
    assert_eq!(node.insert_key(9), 1);
    assert_eq!(node.insert_key(6), 1);
    assert_eq!(node.insert_key(4), 0);
    assert_eq!(node.keys, vec![4, 4, 6, 9]);
}

#[test]
fn remove_key_shifts_the_rest_left() {
    let mut node = BTreeNode::new(3, true);
    node.insert_key(1);
    node.insert_key(2);
    node.insert_key(3);
    assert_eq!(node.remove_key(1), 2);
    assert_eq!(node.keys, vec![1, 3]);
}

#[test]
fn capacity_and_fullness_track_the_degree() {
    let mut node = BTreeNode::new(2, true);
    assert_eq!(node.capacity(), 3);
    assert!(!node.is_full());
    node.insert_key(1);
    node.insert_key(2);
    assert!(!node.is_full());
    node.insert_key(3);
    assert!(node.is_full());
}

#[test]
fn split_promotes_the_median() {
    let mut node = BTreeNode::new(3, true);
    for k in [10, 20, 30, 40, 50] {
        node.insert_key(k);
    }
    let (median, left, right) = node.split();
    assert_eq!(median, 30);
    assert_eq!(left.keys, vec![10, 20]);
    assert_eq!(right.keys, vec![40, 50]);
    assert!(left.is_leaf && right.is_leaf);
}

#[test]
fn searching_descends_to_the_right_leaf() {
    let mut btree = BTree::new(3);
    for k in 1..=9 {
        btree.insert(k);
    }
    let node = btree.search(8).expect("8 was inserted");
    assert_eq!(node.keys, vec![7, 8, 9]);
    let node = btree.search(3).expect("3 was inserted");
    assert_eq!(node.keys, vec![3, 6]);
}

#[test]
fn many_ascending_inserts_stay_sorted() {
    let mut btree = BTree::new(2);
    for k in 1..=64 {
        btree.insert(k);
    }
    let mut collected: Vec<usize> = Vec::new();
    in_order(btree.root.as_ref().unwrap(), &mut collected);
    let expected: Vec<usize> = (1..=64).collect();
    assert_eq!(collected, expected);
    for k in 1..=64 {
        assert!(btree.search(k).is_some());
    }
    assert!(btree.search(65).is_none());
}

fn in_order(node: &BTreeNode, out: &mut Vec<usize>) {
    if node.is_leaf {
        out.extend_from_slice(&node.keys);
    } else {
        for (i, child) in node.children.iter().enumerate() {
            in_order(child, out);
            if i < node.keys.len() {
                out.push(node.keys[i]);
            }
        }
    }
}
