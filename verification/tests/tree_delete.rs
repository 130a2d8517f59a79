use qlgl::{Error, Node, NodeType, Tree};

fn open_tree(degree: usize) -> Tree<u64, u64> {
    let mut tree = Tree::<u64, u64>::new("index".to_string(), degree).unwrap();
    tree.open(Vec::new()).unwrap();
    tree
}

/// Walks the subtree at `offset` and checks what a B+Tree is held to; hands
/// back the keys in order and the offsets of the leaves from left to right.
fn walk(
    tree: &Tree<u64, u64>,
    offset: u64,
    height: usize,
    parent: u64,
    low: Option<u64>,
    high: Option<u64>,
    keys: &mut Vec<u64>,
    leaves: &mut Vec<u64>,
) {
    let degree = tree.degree;
    let node = Node::<u64, u64>::read(&tree.file, offset, degree).unwrap();
    assert_eq!(node.offset, offset);
    assert_eq!(node.parent_offset, parent);
    assert_eq!(node.is_root, offset == 0);
    assert!(node.keys.len() <= degree - 1);
    for pair in node.keys.windows(2) {
        assert!(pair[0] < pair[1]);
    }
    for k in node.keys.iter() {
        if let Some(l) = low {
            assert!(l <= *k);
        }
        if let Some(h) = high {
            assert!(*k < h);
        }
    }
    if height == 0 {
        assert!(matches!(node.node_type, NodeType::Leaf(_)));
        assert_eq!(node.values.len(), node.keys.len());
        if offset != 0 {
            assert!(node.keys.len() >= degree / 2);
        }
        keys.extend(node.keys.iter());
        leaves.push(offset);
    } else {
        assert_eq!(node.node_type, NodeType::Internal);
        assert!(node.keys.len() >= 1);
        assert_eq!(node.children.len(), node.keys.len() + 1);
        for i in 0..node.children.len() {
            let l = if i == 0 { low } else { Some(node.keys[i - 1]) };
            let h = if i == node.keys.len() { high } else { Some(node.keys[i]) };
            walk(tree, node.children[i], height - 1, offset, l, h, keys, leaves);
        }
    }
}

/// Checks the whole tree and the chain of its leaves; hands back the keys.
fn check(tree: &Tree<u64, u64>) -> Vec<u64> {
    let mut keys = Vec::new();
    let mut leaves = Vec::new();
    walk(tree, 0, tree.height, 0, None, None, &mut keys, &mut leaves);
    for i in 0..leaves.len() {
        let leaf = Node::<u64, u64>::read(&tree.file, leaves[i], tree.degree).unwrap();
        let next = if i + 1 < leaves.len() { Some(leaves[i + 1]) } else { None };
        assert_eq!(leaf.node_type, NodeType::Leaf(next));
    }
    keys
}

#[test]
fn a_deleted_key_is_gone_and_the_others_stay() {
    let mut tree = open_tree(3);
    tree.insert(1, 97).unwrap();
    tree.insert(2, 98).unwrap();
    tree.insert(3, 99).unwrap();
    assert_eq!(tree.get(1), Ok(97));
    assert_eq!(tree.get(2), Ok(98));
    assert_eq!(tree.get(3), Ok(99));
    tree.delete(2).unwrap();
    assert_eq!(tree.get(2), Err(Error::NotFound));
    assert_eq!(tree.get(1), Ok(97));
    assert_eq!(tree.get(3), Ok(99));
    assert_eq!(check(&tree), vec![1, 3]);
}

#[test]
fn a_deleted_key_can_be_inserted_again() {
    let mut tree = open_tree(3);
    for k in 1..=9u64 {
        tree.insert(k, k + 100).unwrap();
    }
    tree.delete(5).unwrap();
    assert_eq!(tree.get(5), Err(Error::NotFound));
    check(&tree);
    tree.insert(5, 555).unwrap();
    assert_eq!(tree.get(5), Ok(555));
    assert_eq!(check(&tree), (1..=9u64).collect::<Vec<u64>>());
}

#[test]
fn deleting_an_absent_key_changes_nothing() {
    let mut tree = open_tree(3);
    tree.insert(1, 1).unwrap();
    tree.insert(2, 2).unwrap();
    tree.insert(3, 3).unwrap();
    let pages = tree.file.pages.clone();
    let journal = tree.file.journal.clone();
    assert_eq!(tree.delete(7), Err(Error::NotFound));
    assert_eq!(tree.file.pages, pages);
    assert_eq!(tree.file.journal, journal);
}

#[test]
fn a_leaf_that_lacks_keys_is_merged_and_the_tree_shrinks() {
    let mut tree = open_tree(3);
    tree.insert(1, 1).unwrap();
    tree.insert(2, 2).unwrap();
    tree.insert(3, 3).unwrap();
    assert_eq!(tree.height, 1);
    tree.delete(1).unwrap();
    assert_eq!(tree.height, 0);
    assert_eq!(tree.root.keys, vec![2, 3]);
    assert_eq!(tree.root.node_type, NodeType::Leaf(None));
    assert!(tree.root.is_root);
    assert_eq!(tree.root.offset, 0);
    assert_eq!(check(&tree), vec![2, 3]);
}

#[test]
fn a_leaf_that_lacks_keys_borrows_from_a_full_neighbour() {
    let mut tree = open_tree(5);
    for k in [10u64, 20, 30, 40, 50] {
        tree.insert(k, k).unwrap();
    }
    assert_eq!(tree.root.keys, vec![30]);
    tree.insert(5, 5).unwrap();
    tree.insert(15, 15).unwrap();
    tree.delete(40).unwrap();
    tree.delete(50).unwrap();
    let keys = check(&tree);
    assert_eq!(keys, vec![5, 10, 15, 20, 30]);
    assert_eq!(tree.height, 1);
    assert_eq!(tree.root.keys, vec![15]);
}

#[test]
fn inserts_and_deletes_in_any_order_keep_the_tree_in_shape() {
    for degree in [3usize, 5, 7] {
        let mut tree = open_tree(degree);
        let mut present: Vec<u64> = Vec::new();
        let mut x: u64 = 12345;
        for round in 0..1500 {
            x = x.wrapping_mul(6364136223846793005).wrapping_add(1442695040888963407);
            let key = (x >> 33) % 200;
            if present.contains(&key) {
                tree.delete(key).unwrap();
                present.retain(|k| *k != key);
                assert_eq!(tree.get(key), Err(Error::NotFound));
            } else {
                tree.insert(key, key * 3 + round).unwrap();
                present.push(key);
                assert_eq!(tree.get(key), Ok(key * 3 + round));
            }
            if round % 50 == 0 {
                let mut want = present.clone();
                want.sort();
                assert_eq!(check(&tree), want);
            }
        }
        let mut want = present.clone();
        want.sort();
        assert_eq!(check(&tree), want);
        for key in want {
            tree.delete(key).unwrap();
        }
        assert_eq!(tree.height, 0);
        assert_eq!(check(&tree), Vec::<u64>::new());
    }
}

#[test]
fn nodes_of_several_pages_work_like_small_ones() {
    let mut tree = open_tree(255);
    assert_eq!(tree.file.page_size, 8192);
    for k in 0..2000u64 {
        tree.insert((k * 7919) % 2003, k).unwrap();
    }
    assert_eq!(tree.height, 1);
    let keys = check(&tree);
    assert_eq!(keys.len(), 2000);
    for k in 0..1990u64 {
        tree.delete((k * 7919) % 2003).unwrap();
    }
    assert_eq!(tree.height, 0);
    assert_eq!(check(&tree).len(), 10);
    assert_eq!(tree.file.to_bytes().len() % 8192, 0);
}

#[test]
fn a_leaf_that_keeps_keys_enough_is_the_one_record_written() {
    let mut tree = open_tree(3);
    for k in [1u64, 2, 3, 4] {
        tree.insert(k, k * 10).unwrap();
    }
    assert_eq!(tree.root.children, vec![8192, 16384, 12288]);
    let before = tree.file.pages.clone();
    tree.file.take_journal();
    tree.delete(4).unwrap();
    assert_eq!(tree.file.journal, vec![12288]);
    assert_eq!(tree.height, 1);
    assert_eq!(tree.file.pages.len(), 5);
    for i in [0usize, 1, 2, 4] {
        assert_eq!(tree.file.pages[i], before[i]);
    }
    let leaf = Node::<u64, u64>::read(&tree.file, 12288, 3).unwrap();
    assert_eq!(leaf.keys, vec![3]);
    assert_eq!(leaf.values, vec![30]);
    assert_eq!(leaf.node_type, NodeType::Leaf(None));
}

#[test]
fn a_root_leaf_gives_up_its_last_key_in_place() {
    let mut tree = open_tree(3);
    tree.insert(7, 70).unwrap();
    tree.file.take_journal();
    tree.delete(7).unwrap();
    assert_eq!(tree.file.journal, vec![0]);
    assert_eq!(tree.file.pages.len(), 1);
    assert_eq!(tree.height, 0);
    assert!(tree.root.keys.is_empty());
    assert_eq!(tree.get(7), Err(Error::NotFound));
}

#[test]
fn two_leaves_become_one_where_the_left_one_stood() {
    let mut tree = open_tree(3);
    for k in [1u64, 2, 3, 4] {
        tree.insert(k, k * 10).unwrap();
    }
    assert_eq!(tree.root.keys, vec![2, 3]);
    assert_eq!(tree.root.children, vec![8192, 16384, 12288]);
    let stale = tree.file.pages[4].clone();
    tree.file.take_journal();
    tree.delete(1).unwrap();
    assert_eq!(tree.file.take_journal(), vec![8192, 0]);
    assert_eq!(tree.height, 1);
    assert_eq!(tree.file.pages.len(), 5);
    assert_eq!(tree.root.keys, vec![3]);
    assert_eq!(tree.root.children, vec![8192, 12288]);
    let one = Node::<u64, u64>::read(&tree.file, 8192, 3).unwrap();
    assert_eq!(one.keys, vec![2]);
    assert_eq!(one.values, vec![20]);
    assert_eq!(one.node_type, NodeType::Leaf(Some(12288)));
    assert_eq!(tree.file.pages[4], stale);
}

#[test]
fn a_root_without_a_key_gives_way_to_its_child() {
    let mut tree = open_tree(3);
    for k in [1u64, 2, 3, 4] {
        tree.insert(k, k * 10).unwrap();
    }
    tree.delete(1).unwrap();
    tree.file.take_journal();
    tree.delete(2).unwrap();
    assert_eq!(tree.file.take_journal(), vec![8192, 0]);
    assert_eq!(tree.height, 0);
    assert_eq!(tree.file.pages.len(), 5);
    assert!(tree.root.is_root);
    assert_eq!(tree.root.offset, 0);
    assert_eq!(tree.root.keys, vec![3, 4]);
    assert_eq!(tree.root.values, vec![30, 40]);
    assert_eq!(tree.root.node_type, NodeType::Leaf(None));
    let root = Node::<u64, u64>::read(&tree.file, 0, 3).unwrap();
    assert_eq!(root.keys, vec![3, 4]);
    assert_eq!(tree.scan(), Ok(vec![(3, 30), (4, 40)]));
}

#[test]
fn two_leaves_share_out_their_keys_at_the_middle() {
    let mut tree = open_tree(5);
    for k in [10u64, 20, 30, 40, 50, 60] {
        tree.insert(k, k + 1).unwrap();
    }
    assert_eq!(tree.root.keys, vec![30]);
    assert_eq!(tree.root.children, vec![8192, 4096]);
    tree.file.take_journal();
    tree.delete(10).unwrap();
    assert_eq!(tree.file.take_journal(), vec![4096, 8192, 0]);
    assert_eq!(tree.height, 1);
    assert_eq!(tree.root.keys, vec![40]);
    assert_eq!(tree.root.children, vec![8192, 4096]);
    let left = Node::<u64, u64>::read(&tree.file, 8192, 5).unwrap();
    assert_eq!(left.keys, vec![20, 30]);
    assert_eq!(left.values, vec![21, 31]);
    assert_eq!(left.node_type, NodeType::Leaf(Some(4096)));
    let right = Node::<u64, u64>::read(&tree.file, 4096, 5).unwrap();
    assert_eq!(right.keys, vec![40, 50, 60]);
    assert_eq!(right.values, vec![41, 51, 61]);
    assert_eq!(right.node_type, NodeType::Leaf(None));
}
