use qlgl::{Error, Tree};

fn open_tree(degree: usize) -> Tree<i64, u64> {
    let mut tree = Tree::<i64, u64>::new("index".to_string(), degree).unwrap();
    tree.open(Vec::new()).unwrap();
    tree
}

#[test]
fn a_scan_gives_every_pair_in_ascending_order() {
    let mut tree = open_tree(3);
    let keys: Vec<i64> = vec![5, -3, 12, 0, 7, -8, 1, 40, 33, -1, 2, 9];
    for k in keys.iter() {
        tree.insert(*k, (*k + 100) as u64).unwrap();
    }
    let mut want: Vec<(i64, u64)> = keys.iter().map(|k| (*k, (*k + 100) as u64)).collect();
    want.sort();
    assert_eq!(tree.scan(), Ok(want));
    assert_eq!(tree.get(-8), Ok(92));
}

#[test]
fn a_scan_of_an_empty_tree_gives_nothing() {
    let tree = open_tree(5);
    assert_eq!(tree.scan(), Ok(Vec::new()));
    let closed = Tree::<i64, u64>::new("index".to_string(), 5).unwrap();
    assert_eq!(closed.scan(), Err(Error::NotInitialized));
}

#[test]
fn the_tree_grows_by_a_level_when_every_node_on_the_way_is_full() {
    let mut tree = open_tree(3);
    tree.insert(10, 0).unwrap();
    tree.insert(20, 0).unwrap();
    assert_eq!(tree.height, 0);
    tree.insert(30, 0).unwrap();
    assert_eq!(tree.height, 1);
    assert_eq!(tree.root.keys, vec![20]);
    tree.insert(5, 0).unwrap();
    assert_eq!(tree.height, 1);
    tree.insert(40, 0).unwrap();
    assert_eq!(tree.root.keys, vec![20, 30]);
    assert_eq!(tree.height, 1);
    tree.insert(50, 0).unwrap();
    tree.insert(60, 0).unwrap();
    assert_eq!(tree.height, 2);
    assert_eq!(tree.root.keys, vec![30]);
    assert_eq!(tree.root.offset, 0);
    assert!(tree.root.is_root);
    let pairs = tree.scan().unwrap();
    let keys: Vec<i64> = pairs.iter().map(|p| p.0).collect();
    assert_eq!(keys, vec![5, 10, 20, 30, 40, 50, 60]);
}

#[test]
fn a_tree_comes_back_from_its_bytes() {
    let mut tree = open_tree(3);
    for k in 0..60i64 {
        tree.insert((k * 37) % 61, k as u64).unwrap();
    }
    tree.delete(5).unwrap();
    let before = tree.scan().unwrap();
    let height = tree.height;
    let image = tree.file.to_bytes();
    assert_eq!(image.len() % 4096, 0);
    tree.close().unwrap();
    assert!(!tree.is_open());
    assert_eq!(tree.get(1), Err(Error::NotInitialized));

    let mut again = Tree::<i64, u64>::new("index".to_string(), 3).unwrap();
    again.open(image.clone()).unwrap();
    assert_eq!(again.height, height);
    assert_eq!(again.scan().unwrap(), before);
    assert!(again.file.journal.is_empty());
    again.insert(5, 500).unwrap();
    assert_eq!(again.get(5), Ok(500));

    let mut same = Tree::<i64, u64>::new("index".to_string(), 3).unwrap();
    same.open(image).unwrap();
    same.reload().unwrap();
    assert_eq!(same.scan().unwrap(), before);
}

#[test]
fn damaged_bytes_are_not_opened() {
    let mut tree = Tree::<i64, u64>::new("index".to_string(), 3).unwrap();
    assert_eq!(tree.open(vec![0; 100]), Err(Error::Encoding));
    assert!(!tree.is_open());
    assert_eq!(tree.open(vec![0; 4096]), Err(Error::Encoding));
    assert!(!tree.is_open());
    assert_eq!(tree.open(Vec::new()), Ok(()));
    assert!(tree.is_open());
    assert_eq!(tree.file.journal, vec![0]);
    assert_eq!(tree.open(vec![1, 2, 3]), Ok(()));
    assert_eq!(tree.file.pages.len(), 1);
}

#[test]
fn a_file_that_cannot_grow_refuses_an_insertion() {
    let mut tree = open_tree(3);
    tree.insert(1, 1).unwrap();
    let pages = tree.file.pages.clone();
    tree.file.page_size = 1usize << 63;
    assert_eq!(tree.insert(2, 2), Err(Error::Io));
    assert_eq!(tree.file.pages, pages);
}

#[test]
fn every_changed_page_is_in_the_journal_with_the_root_last() {
    let mut tree = open_tree(3);
    tree.insert(1, 1).unwrap();
    tree.insert(2, 2).unwrap();
    tree.file.take_journal();
    tree.insert(3, 3).unwrap();
    assert_eq!(tree.file.journal, vec![4096, 8192, 0]);
    tree.file.take_journal();
    tree.insert(4, 4).unwrap();
    assert_eq!(tree.file.journal, vec![12288, 16384, 8192, 0]);
}

/// The offsets of the nodes of the subtree at `offset`.
fn nodes_below(tree: &Tree<i64, u64>, offset: u64, height: usize, found: &mut Vec<u64>) {
    found.push(offset);
    if height > 0 {
        let node = qlgl::Node::<i64, u64>::read(&tree.file, offset, tree.degree).unwrap();
        for child in node.children.iter() {
            nodes_below(tree, *child, height - 1, found);
        }
    }
}

/// Whether, in the journal of one operation, every node of the tree that is
/// written stands behind each of its children that is written too.
fn children_first(tree: &Tree<i64, u64>, journal: &Vec<u64>) -> bool {
    let mut live = Vec::new();
    nodes_below(tree, 0, tree.height, &mut live);
    for (at, offset) in journal.iter().enumerate() {
        if journal[at + 1..].contains(offset) || !live.contains(offset) {
            continue;
        }
        let node = qlgl::Node::<i64, u64>::read(&tree.file, *offset, tree.degree).unwrap();
        for child in node.children.iter() {
            if journal[at + 1..].contains(child) {
                return false;
            }
        }
    }
    true
}

#[test]
fn children_are_written_before_the_node_that_names_them() {
    let mut tree = open_tree(3);
    let mut present: Vec<i64> = Vec::new();
    let mut x: u64 = 99;
    for _ in 0..800 {
        x = x.wrapping_mul(6364136223846793005).wrapping_add(1442695040888963407);
        let key = ((x >> 33) % 120) as i64 - 60;
        tree.file.take_journal();
        let root_before = tree.root.clone();
        if present.contains(&key) {
            tree.delete(key).unwrap();
            present.retain(|k| *k != key);
        } else {
            tree.insert(key, 1).unwrap();
            present.push(key);
        }
        let journal = tree.file.journal.clone();
        assert!(children_first(&tree, &journal));
        let same_root = root_before.keys == tree.root.keys
            && root_before.values == tree.root.values
            && root_before.children == tree.root.children
            && root_before.node_type == tree.root.node_type;
        if !same_root {
            assert_eq!(journal.last(), Some(&0));
        }
    }
}

#[test]
fn every_record_holds_exactly_the_encoding_of_its_node() {
    let mut tree = Tree::<i64, u64>::new("index".to_string(), 3).unwrap();
    tree.open(Vec::new()).unwrap();
    for k in [5i64, 1, 9, 3, 7, 2, 8, 4, 6, 10, 0, -1] {
        tree.insert(k, 1).unwrap();
    }
    tree.update(7, 70).unwrap();
    for k in [1i64, 9, 4] {
        tree.delete(k).unwrap();
    }
    for (i, page) in tree.file.pages.iter().enumerate() {
        let offset = i as u64 * 4096;
        let node = qlgl::Node::<i64, u64>::read(&tree.file, offset, 3).unwrap();
        assert_eq!(page, &node.to_bytes());
        assert_eq!(node.is_root, offset == 0);
    }
}
