use qlgl::{Error, Node, NodeFile, NodeType, RootFile};

#[test]
fn a_new_node_is_empty_and_clean() {
    let node = Node::<u64, u64>::new(5);
    assert_eq!(node.get_node_type(), NodeType::Internal);
    assert!(!node.is_root());
    assert!(!node.is_dirty());
    assert!(!node.is_leaf());
    assert_eq!(node.get_degree(), 5);
    assert_eq!(node.get_offset(), 0);
    assert_eq!(node.get_parent_offset(), 0);
    assert_eq!(node.get_used_count(), 0);
    assert!(node.get_keys().is_empty());
    assert!(node.get_values().is_empty());
    assert!(node.get_children().is_empty());
    let leaf = Node::<u64, u64>::make_leaf(3, Some(4096));
    assert_eq!(leaf.get_node_type(), NodeType::Leaf(Some(4096)));
    assert!(leaf.is_leaf());
}

#[test]
fn setters_change_one_field() {
    let mut node = Node::<u64, u64>::make_internal(3);
    node.set_leaf(None);
    assert_eq!(node.node_type, NodeType::Leaf(None));
    node.set_internal();
    assert_eq!(node.node_type, NodeType::Internal);
    node.set_root();
    assert!(node.is_root);
    node.set_offset(8192);
    assert_eq!(node.offset, 8192);
    node.set_parent_offset(4096);
    assert_eq!(node.parent_offset, 4096);
    node.set_dirty();
    assert!(node.is_dirty);
    node.set_clean();
    assert!(!node.is_dirty);
}

#[test]
fn a_leaf_keeps_its_keys_in_order() {
    let mut leaf = Node::<u64, u64>::make_leaf(5, None);
    leaf.insert_kv(30, 3).unwrap();
    leaf.insert_kv(10, 1).unwrap();
    leaf.insert_kv(20, 2).unwrap();
    assert_eq!(leaf.keys, vec![10, 20, 30]);
    assert_eq!(leaf.values, vec![1, 2, 3]);
    assert!(leaf.is_dirty);
    assert_eq!(leaf.get_used_count(), 3);
    assert!(!leaf.is_full());
    leaf.insert_kv(40, 4).unwrap();
    assert!(leaf.is_full());
    assert!(!leaf.is_overflow());
    assert_eq!(leaf.insert_kv(20, 9), Err(Error::DuplicateKey));
    assert_eq!(leaf.values, vec![1, 2, 3, 4]);
    leaf.insert_kv(25, 5).unwrap();
    assert!(leaf.is_overflow());
    assert_eq!(leaf.child_index(&5), 0);
    assert_eq!(leaf.child_index(&10), 1);
    assert_eq!(leaf.child_index(&26), 3);
    assert_eq!(leaf.child_index(&99), 5);
    assert_eq!(leaf.find_key(&25), Some(2));
    assert_eq!(leaf.find_key(&26), None);
    assert_eq!(leaf.lookup(&25), Some(5));
    assert_eq!(leaf.lookup(&26), None);
}

#[test]
fn a_leaf_updates_and_removes_what_it_holds() {
    let mut leaf = Node::<u64, u64>::make_leaf(5, None);
    leaf.insert_kv(1, 10).unwrap();
    leaf.insert_kv(2, 20).unwrap();
    leaf.set_clean();
    assert_eq!(leaf.update(3, 30), Err(Error::NotFound));
    assert!(!leaf.is_dirty);
    assert_eq!(leaf.update(2, 22), Ok(()));
    assert!(leaf.is_dirty);
    assert_eq!(leaf.values, vec![10, 22]);
    assert_eq!(leaf.remove_kv(3), Err(Error::NotFound));
    assert_eq!(leaf.remove_kv(1), Ok(10));
    assert_eq!(leaf.keys, vec![2]);
    assert_eq!(leaf.values, vec![22]);
}

#[test]
fn an_overfull_leaf_is_divided_at_the_middle() {
    let mut leaf = Node::<u64, u64>::make_leaf(5, Some(777));
    leaf.set_offset(4096);
    leaf.set_parent_offset(8192);
    for k in [1u64, 2, 3, 4, 5] {
        leaf.insert_kv(k, k * 10).unwrap();
    }
    let (separator, right) = leaf.divide(12288);
    assert_eq!(separator, 3);
    assert_eq!(leaf.keys, vec![1, 2]);
    assert_eq!(leaf.values, vec![10, 20]);
    assert_eq!(leaf.node_type, NodeType::Leaf(Some(12288)));
    assert_eq!(right.keys, vec![3, 4, 5]);
    assert_eq!(right.values, vec![30, 40, 50]);
    assert_eq!(right.node_type, NodeType::Leaf(Some(777)));
    assert_eq!(right.offset, 12288);
    assert_eq!(right.parent_offset, 8192);
    assert!(right.is_dirty && leaf.is_dirty);
}

#[test]
fn an_overfull_internal_node_hands_its_middle_key_up() {
    let mut node = Node::<u64, u64>::make_internal(3);
    node.children.push(100);
    node.insert_child(0, 10, 200);
    node.insert_child(1, 20, 300);
    node.insert_child(2, 30, 400);
    assert_eq!(node.keys, vec![10, 20, 30]);
    assert_eq!(node.children, vec![100, 200, 300, 400]);
    let (separator, right) = node.divide(4096);
    assert_eq!(separator, 20);
    assert_eq!(node.keys, vec![10]);
    assert_eq!(node.children, vec![100, 200]);
    assert_eq!(right.keys, vec![30]);
    assert_eq!(right.children, vec![300, 400]);
    assert_eq!(right.node_type, NodeType::Internal);
}

#[test]
fn neighbours_are_made_one_node() {
    let mut left = Node::<u64, u64>::make_leaf(5, Some(4096));
    left.insert_kv(1, 10).unwrap();
    let mut right = Node::<u64, u64>::make_leaf(5, Some(8192));
    right.insert_kv(5, 50).unwrap();
    right.insert_kv(6, 60).unwrap();
    left.absorb_right(5, right);
    assert_eq!(left.keys, vec![1, 5, 6]);
    assert_eq!(left.values, vec![10, 50, 60]);
    assert_eq!(left.node_type, NodeType::Leaf(Some(8192)));

    let mut left = Node::<u64, u64>::make_internal(5);
    left.children.push(100);
    let mut right = Node::<u64, u64>::make_internal(5);
    right.children.push(200);
    right.insert_child(0, 9, 300);
    left.absorb_right(7, right);
    assert_eq!(left.keys, vec![7, 9]);
    assert_eq!(left.children, vec![100, 200, 300]);
}

#[test]
fn a_node_is_written_once_and_read_back() {
    let mut file = NodeFile::new(4096);
    let mut node = Node::<u64, u64>::make_leaf(3, None);
    node.set_root();
    node.insert_kv(4, 40).unwrap();
    assert_eq!(node.write(&mut file), Ok(0));
    assert!(!node.is_dirty);
    assert_eq!(file.page_count(), 1);
    assert_eq!(file.journal, vec![0]);
    assert_eq!(node.write(&mut file), Ok(0));
    assert_eq!(file.journal, vec![0]);
    let back = Node::<u64, u64>::read(&file, 0, 3).unwrap();
    assert_eq!(back.keys, vec![4]);
    assert_eq!(back.values, vec![40]);
    assert!(back.is_root);
    assert!(matches!(Node::<u64, u64>::read(&file, 4096, 3), Err(Error::Encoding)));
    assert!(matches!(Node::<u64, u64>::read(&file, 17, 3), Err(Error::Encoding)));
    let mut far = Node::<u64, u64>::make_leaf(3, None);
    far.set_offset(8192);
    far.set_dirty();
    assert_eq!(far.write(&mut file), Err(Error::Encoding));
    assert!(far.is_dirty);
    assert_eq!(file.page_count(), 1);
}

#[test]
fn the_offset_of_a_node_is_where_it_was_read() {
    let mut file = NodeFile::new(4096);
    let mut first = Node::<u64, u64>::make_leaf(3, None);
    first.set_dirty();
    first.write(&mut file).unwrap();
    let mut bytes = first.to_bytes();
    bytes[35] = 9;
    file.write(4096, bytes).unwrap();
    let back = Node::<u64, u64>::read(&file, 4096, 3).unwrap();
    assert_eq!(back.offset, 4096);
}

#[test]
fn the_node_file_is_a_run_of_records() {
    let mut file = NodeFile::new(4);
    assert_eq!(file.end_offset(), 0);
    assert_eq!(file.write(0, vec![1, 2, 3, 4]), Ok(()));
    assert_eq!(file.write(4, vec![5, 6, 7, 8]), Ok(()));
    assert_eq!(file.end_offset(), 8);
    assert_eq!(file.write(0, vec![9, 9, 9, 9]), Ok(()));
    assert_eq!(file.write(12, vec![0; 4]), Err(Error::Encoding));
    assert_eq!(file.write(2, vec![0; 4]), Err(Error::Encoding));
    assert_eq!(file.write(8, vec![0; 3]), Err(Error::Encoding));
    assert_eq!(file.read(4), Ok(vec![5, 6, 7, 8]));
    assert_eq!(file.read(8), Err(Error::Encoding));
    assert_eq!(file.read(1), Err(Error::Encoding));
    assert_eq!(file.to_bytes(), vec![9, 9, 9, 9, 5, 6, 7, 8]);
    assert_eq!(file.take_journal(), vec![0, 4, 0]);
    assert!(file.journal.is_empty());
    let again = NodeFile::from_bytes(&vec![9, 9, 9, 9, 5, 6, 7, 8], 4).unwrap();
    assert_eq!(again.pages, file.pages);
    assert!(matches!(NodeFile::from_bytes(&vec![1, 2, 3, 4, 5], 4), Err(Error::Encoding)));
    assert!(file.can_grow_by(1000));
    assert!(!file.can_grow_by(u64::MAX));
    assert!(!file.can_grow_by(u64::MAX / 4));
    assert!(file.can_grow_by(u64::MAX / 4 - 2));
}

#[test]
fn the_record_of_a_tree_holds_what_is_set() {
    let mut record = RootFile::new();
    assert_eq!(record.root_id, 0);
    assert_eq!(record.name_len, 0);
    record.set_root_id(7);
    record.set_tree_name("index".to_string());
    record.set_key_size(5);
    record.set_index_size(8);
    record.set_value_size(16);
    assert_eq!(record.root_id, 7);
    assert_eq!(record.tree_name, "index");
    assert_eq!(record.name_len, 5);
    assert_eq!(record.key_size, 5);
    assert_eq!(record.index_size, 8);
    assert_eq!(record.value_size, 16);
    assert!(record.leaf_offsets.is_empty());
}

#[test]
fn the_record_of_a_tree_takes_what_is_given() {
    let mut record = RootFile::new();
    record.set_params(Some(3), None, Some(7), 8, 8);
    assert_eq!(record.root_id, 3);
    assert_eq!(record.tree_name, "");
    assert_eq!(record.name_len, 0);
    assert_eq!(record.key_size, 7);
    assert_eq!(record.index_size, 8);
    assert_eq!(record.value_size, 8);
    record.set_params(None, Some("keys".to_string()), None, 16, 4);
    assert_eq!(record.root_id, 3);
    assert_eq!(record.tree_name, "keys");
    assert_eq!(record.name_len, 4);
    assert_eq!(record.key_size, 7);
    assert_eq!(record.index_size, 16);
    assert_eq!(record.value_size, 4);
}
