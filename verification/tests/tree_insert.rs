use qlgl::{Error, Node, NodeType, Tree};

fn open_tree(degree: usize) -> Tree<u64, u64> {
    let mut tree = Tree::<u64, u64>::new("index".to_string(), degree).unwrap();
    tree.open(Vec::new()).unwrap();
    tree
}

#[test]
fn three_inserts_with_degree_three_split_the_root_once() {
    let mut tree = open_tree(3);
    tree.insert(1, 10).unwrap();
    tree.insert(2, 20).unwrap();
    assert_eq!(tree.height, 0);
    assert_eq!(tree.file.pages.len(), 1);
    tree.insert(3, 30).unwrap();
    assert_eq!(tree.height, 1);
    assert_eq!(tree.file.pages.len(), 3);
    assert_eq!(tree.root.keys, vec![2]);
    assert_eq!(tree.root.children.len(), 2);
    assert!(tree.root.is_root);
    assert_eq!(tree.root.offset, 0);
    assert_eq!(tree.root.node_type, NodeType::Internal);
    let left = Node::<u64, u64>::read(&tree.file, tree.root.children[0], 3).unwrap();
    let right = Node::<u64, u64>::read(&tree.file, tree.root.children[1], 3).unwrap();
    assert_eq!(left.keys, vec![1]);
    assert_eq!(left.values, vec![10]);
    assert_eq!(right.keys, vec![2, 3]);
    assert_eq!(right.values, vec![20, 30]);
    assert_eq!(left.node_type, NodeType::Leaf(Some(right.offset)));
    assert_eq!(right.node_type, NodeType::Leaf(None));
    assert_eq!(left.parent_offset, 0);
    assert_eq!(right.parent_offset, 0);
}

#[test]
fn get_finds_what_was_inserted() {
    let mut tree = open_tree(3);
    tree.insert(1, 97).unwrap();
    tree.insert(2, 98).unwrap();
    tree.insert(3, 99).unwrap();
    assert_eq!(tree.get(1), Ok(97));
    assert_eq!(tree.get(2), Ok(98));
    assert_eq!(tree.get(3), Ok(99));
    assert_eq!(tree.get(4), Err(Error::NotFound));
}

#[test]
fn a_key_cannot_be_inserted_twice() {
    let mut tree = open_tree(5);
    tree.insert(7, 1).unwrap();
    assert_eq!(tree.insert(7, 2), Err(Error::DuplicateKey));
    assert_eq!(tree.get(7), Ok(1));
}

#[test]
fn many_keys_in_any_order_are_all_found() {
    let mut tree = open_tree(3);
    let mut key: u64 = 17;
    let mut keys: Vec<u64> = Vec::new();
    for _ in 0..200 {
        key = (key * 31 + 7) % 1009;
        if !keys.contains(&key) {
            keys.push(key);
            tree.insert(key, key * 2).unwrap();
        }
    }
    for k in keys.iter() {
        assert_eq!(tree.get(*k), Ok(*k * 2));
    }
    assert!(tree.height >= 3);
    assert_eq!(tree.root.offset, 0);
}

#[test]
fn a_closed_tree_refuses_to_work() {
    let mut tree = Tree::<u64, u64>::new("index".to_string(), 3).unwrap();
    assert_eq!(tree.insert(1, 1), Err(Error::NotInitialized));
    assert_eq!(tree.get(1), Err(Error::NotInitialized));
}

#[test]
fn an_even_degree_is_refused() {
    assert!(matches!(Tree::<u64, u64>::new("index".to_string(), 4), Err(Error::Configuration)));
    assert!(matches!(Tree::<u64, u64>::new("index".to_string(), 1), Err(Error::Configuration)));
    assert!(Tree::<u64, u64>::new("index".to_string(), 3).is_ok());
}

#[test]
fn a_search_gives_the_value_or_nothing() {
    let mut tree = open_tree(3);
    tree.insert(8, 80).unwrap();
    assert_eq!(tree.search(8), Some(80));
    assert_eq!(tree.search(9), None);
    tree.close().unwrap();
    assert_eq!(tree.search(8), None);
}

#[test]
fn the_file_grows_by_two_records_for_a_divided_leaf_and_two_for_the_root() {
    let mut tree = open_tree(3);
    tree.insert(10, 0).unwrap();
    tree.insert(20, 0).unwrap();
    assert_eq!(tree.file.pages.len(), 1);
    tree.insert(30, 0).unwrap();
    assert_eq!(tree.file.pages.len(), 3);
    assert_eq!(tree.root.children, vec![8192, 4096]);
    tree.insert(5, 0).unwrap();
    assert_eq!(tree.file.pages.len(), 3);
    tree.insert(40, 0).unwrap();
    assert_eq!(tree.file.pages.len(), 5);
    assert_eq!(tree.root.keys, vec![20, 30]);
    assert_eq!(tree.root.children, vec![8192, 16384, 12288]);
    tree.insert(50, 0).unwrap();
    assert_eq!(tree.file.pages.len(), 9);
    assert_eq!(tree.height, 2);
    assert_eq!(tree.root.keys, vec![30]);
    assert_eq!(tree.root.children, vec![8 * 4096, 7 * 4096]);
    tree.insert(60, 0).unwrap();
    assert_eq!(tree.file.pages.len(), 11);
    assert_eq!(tree.height, 2);
    let above = Node::<u64, u64>::read(&tree.file, 7 * 4096, 3).unwrap();
    assert_eq!(above.keys, vec![40, 50]);
    assert_eq!(above.children, vec![6 * 4096, 10 * 4096, 9 * 4096]);
}

#[test]
fn an_insertion_into_a_leaf_with_room_changes_that_leaf_only() {
    let mut tree = open_tree(5);
    for k in [10u64, 20, 30, 40, 50] {
        tree.insert(k, k).unwrap();
    }
    assert_eq!(tree.height, 1);
    let before = tree.file.pages.clone();
    tree.file.take_journal();
    tree.insert(5, 5).unwrap();
    assert_eq!(tree.file.journal.len(), 1);
    let leaf = tree.file.journal[0];
    assert_eq!(leaf, tree.root.children[0]);
    for (i, page) in tree.file.pages.iter().enumerate() {
        if i as u64 * 4096 != leaf {
            assert_eq!(page, &before[i]);
        }
    }
    let node = Node::<u64, u64>::read(&tree.file, leaf, 5).unwrap();
    assert_eq!(node.keys, vec![5, 10, 20]);
}

#[test]
fn a_search_goes_to_the_leaf_of_the_key() {
    let mut tree = open_tree(3);
    assert_eq!(tree.root.search_node(&tree.file, 0, 7), Ok(0));
    for k in [10u64, 20, 30, 40] {
        tree.insert(k, k).unwrap();
    }
    assert_eq!(tree.root.keys, vec![20, 30]);
    let children = tree.root.children.clone();
    assert_eq!(tree.root.search_node(&tree.file, 1, 5), Ok(children[0]));
    assert_eq!(tree.root.search_node(&tree.file, 1, 19), Ok(children[0]));
    assert_eq!(tree.root.search_node(&tree.file, 1, 20), Ok(children[1]));
    assert_eq!(tree.root.search_node(&tree.file, 1, 29), Ok(children[1]));
    assert_eq!(tree.root.search_node(&tree.file, 1, 30), Ok(children[2]));
    assert_eq!(tree.root.search_node(&tree.file, 1, 99), Ok(children[2]));
    let leaf = Node::<u64, u64>::read(&tree.file, children[1], 3).unwrap();
    assert_eq!(leaf.search_node(&tree.file, 0, 25), Ok(children[1]));
    assert_eq!(tree.root.search_node(&tree.file, 0, 5), Err(Error::Encoding));
    assert_eq!(tree.root.search_node(&tree.file, 2, 5), Err(Error::Encoding));
}

#[test]
fn a_divided_leaf_goes_to_two_new_records() {
    let mut tree = open_tree(3);
    for k in [1u64, 2, 3] {
        tree.insert(k, k * 10).unwrap();
    }
    assert_eq!(tree.root.children, vec![8192, 4096]);
    let old_record = tree.file.pages[1].clone();
    tree.file.take_journal();
    tree.insert(4, 40).unwrap();
    assert_eq!(tree.height, 1);
    assert_eq!(tree.file.pages.len(), 5);
    assert_eq!(tree.root.keys, vec![2, 3]);
    assert_eq!(tree.root.children, vec![8192, 16384, 12288]);
    let first = Node::<u64, u64>::read(&tree.file, 8192, 3).unwrap();
    assert_eq!(first.keys, vec![1]);
    assert_eq!(first.node_type, NodeType::Leaf(Some(16384)));
    let left = Node::<u64, u64>::read(&tree.file, 16384, 3).unwrap();
    assert_eq!(left.keys, vec![2]);
    assert_eq!(left.values, vec![20]);
    assert_eq!(left.node_type, NodeType::Leaf(Some(12288)));
    assert_eq!(left.parent_offset, 0);
    let right = Node::<u64, u64>::read(&tree.file, 12288, 3).unwrap();
    assert_eq!(right.keys, vec![3, 4]);
    assert_eq!(right.values, vec![30, 40]);
    assert_eq!(right.node_type, NodeType::Leaf(None));
    assert_eq!(right.parent_offset, 0);
    assert_eq!(tree.file.pages[1], old_record);
    assert_eq!(tree.file.journal, vec![12288, 16384, 8192, 0]);
    assert_eq!(tree.scan(), Ok(vec![(1, 10), (2, 20), (3, 30), (4, 40)]));
}

#[test]
fn the_first_leaf_of_a_subtree_is_linked_from_the_subtree_before_it() {
    let mut tree = open_tree(3);
    for k in [10u64, 20, 30, 40, 50] {
        tree.insert(k, k).unwrap();
    }
    assert_eq!(tree.height, 2);
    assert_eq!(tree.root.keys, vec![30]);
    assert_eq!(tree.root.children, vec![32768, 28672]);
    let right = Node::<u64, u64>::read(&tree.file, 28672, 3).unwrap();
    assert_eq!(right.keys, vec![40]);
    assert_eq!(right.children, vec![24576, 20480]);
    tree.insert(35, 35).unwrap();
    tree.file.take_journal();
    tree.insert(32, 32).unwrap();
    let right = Node::<u64, u64>::read(&tree.file, 28672, 3).unwrap();
    assert_eq!(right.keys, vec![32, 40]);
    assert_eq!(right.children, vec![40960, 36864, 20480]);
    let last_before = Node::<u64, u64>::read(&tree.file, 16384, 3).unwrap();
    assert_eq!(last_before.keys, vec![20]);
    assert_eq!(last_before.node_type, NodeType::Leaf(Some(40960)));
    assert_eq!(tree.file.journal, vec![36864, 40960, 28672, 16384]);
    assert_eq!(
        tree.scan(),
        Ok(vec![(10, 10), (20, 20), (30, 30), (32, 32), (35, 35), (40, 40), (50, 50)])
    );
}

#[test]
fn every_node_is_written_after_the_nodes_below_it() {
    let mut tree = open_tree(3);
    tree.file.take_journal();
    tree.insert(1, 10).unwrap();
    assert_eq!(tree.file.take_journal(), vec![0]);
    tree.insert(2, 20).unwrap();
    assert_eq!(tree.file.take_journal(), vec![0]);
    tree.insert(3, 30).unwrap();
    assert_eq!(tree.file.take_journal(), vec![4096, 8192, 0]);
    tree.insert(4, 40).unwrap();
    assert_eq!(tree.file.take_journal(), vec![12288, 16384, 8192, 0]);
    tree.insert(5, 50).unwrap();
    assert_eq!(
        tree.file.take_journal(),
        vec![20480, 24576, 16384, 24576, 20480, 28672, 8192, 16384, 32768, 0]
    );
    assert_eq!(tree.height, 2);
    assert_eq!(tree.root.keys, vec![3]);
    assert_eq!(tree.root.children, vec![32768, 28672]);
    let left = Node::<u64, u64>::read(&tree.file, 32768, 3).unwrap();
    assert_eq!(left.keys, vec![2]);
    assert_eq!(left.children, vec![8192, 16384]);
    let right = Node::<u64, u64>::read(&tree.file, 28672, 3).unwrap();
    assert_eq!(right.keys, vec![4]);
    assert_eq!(right.children, vec![24576, 20480]);
    for child in [24576u64, 20480] {
        let node = Node::<u64, u64>::read(&tree.file, child, 3).unwrap();
        assert_eq!(node.parent_offset, 28672);
    }
    for child in [8192u64, 16384] {
        let node = Node::<u64, u64>::read(&tree.file, child, 3).unwrap();
        assert_eq!(node.parent_offset, 32768);
    }
}

#[test]
fn a_search_routes_by_the_keys_of_the_node_itself() {
    let mut tree = open_tree(3);
    for k in [10u64, 20, 30, 40] {
        tree.insert(k, k).unwrap();
    }
    assert_eq!(tree.root.keys, vec![20, 30]);
    let children = tree.root.children.clone();
    let mut node = tree.root.clone();
    node.keys = vec![35];
    node.children = vec![children[0], children[2]];
    assert_eq!(tree.root.search_node(&tree.file, 1, 32), Ok(children[2]));
    assert_eq!(node.search_node(&tree.file, 1, 32), Ok(children[0]));
    assert_eq!(node.search_node(&tree.file, 1, 35), Ok(children[2]));
    node.children = vec![children[0]];
    assert_eq!(node.search_node(&tree.file, 1, 35), Err(Error::Encoding));
}

#[test]
fn a_leaf_that_is_not_on_file_is_its_own_result() {
    let tree = open_tree(3);
    let mut leaf = Node::<u64, u64>::make_leaf(3, None);
    leaf.offset = 999 * 4096;
    assert_eq!(leaf.search_node(&tree.file, 0, 1), Ok(999 * 4096));
    assert_eq!(leaf.search_node(&tree.file, 5, 1), Ok(999 * 4096));
}

#[test]
fn an_image_whose_root_does_not_decode_is_not_opened() {
    let mut tree = Tree::<u64, u64>::new("index".to_string(), 3).unwrap();
    assert_eq!(tree.open(vec![0xffu8; 4096]), Err(Error::Encoding));
    assert!(!tree.is_open());
}

#[test]
fn an_image_in_which_no_leaf_is_met_is_not_opened() {
    let mut tree = open_tree(3);
    for k in [1u64, 2, 3] {
        tree.insert(k, k).unwrap();
    }
    assert_eq!(tree.height, 1);
    let mut root = tree.root.clone();
    root.children[0] = 0;
    root.set_dirty();
    root.write(&mut tree.file).unwrap();
    let image = tree.file.to_bytes();
    let mut again = Tree::<u64, u64>::new("index".to_string(), 3).unwrap();
    assert_eq!(again.open(image), Err(Error::Encoding));
    assert!(!again.is_open());
}

#[test]
fn a_tree_that_is_read_anew_starts_a_new_journal() {
    let mut tree = open_tree(3);
    for k in [1u64, 2, 3] {
        tree.insert(k, k).unwrap();
    }
    assert!(!tree.file.journal.is_empty());
    tree.reload().unwrap();
    assert!(tree.file.journal.is_empty());
    assert_eq!(tree.get(2), Ok(2));
}
