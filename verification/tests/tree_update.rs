use qlgl::{Error, Node, Tree};

fn open_tree(degree: usize) -> Tree<u64, u64> {
    let mut tree = Tree::<u64, u64>::new("index".to_string(), degree).unwrap();
    tree.open(Vec::new()).unwrap();
    tree
}

#[test]
fn an_updated_key_has_the_new_value() {
    let mut tree = open_tree(3);
    for k in 1..=20u64 {
        tree.insert(k, k).unwrap();
    }
    tree.update(7, 700).unwrap();
    assert_eq!(tree.get(7), Ok(700));
    assert_eq!(tree.get(6), Ok(6));
    assert_eq!(tree.get(8), Ok(8));
}

#[test]
fn updating_an_absent_key_fails_and_leaves_the_file_as_it_is() {
    let mut tree = open_tree(3);
    for k in 1..=20u64 {
        tree.insert(k * 2, k).unwrap();
    }
    let pages = tree.file.pages.clone();
    let journal = tree.file.journal.clone();
    assert_eq!(tree.update(7, 700), Err(Error::NotFound));
    assert_eq!(tree.file.pages, pages);
    assert_eq!(tree.file.journal, journal);
    assert_eq!(tree.get(7), Err(Error::NotFound));
}

#[test]
fn an_update_writes_one_page() {
    let mut tree = open_tree(3);
    for k in 1..=20u64 {
        tree.insert(k, k).unwrap();
    }
    let pages = tree.file.pages.len();
    tree.file.take_journal();
    tree.update(13, 1).unwrap();
    assert_eq!(tree.file.journal.len(), 1);
    assert_eq!(tree.file.pages.len(), pages);
}

#[test]
fn an_update_changes_the_leaf_of_the_key_and_no_other_record() {
    let mut tree = open_tree(3);
    for k in [1u64, 2, 3, 4] {
        tree.insert(k, k * 10).unwrap();
    }
    assert_eq!(tree.root.children, vec![8192, 16384, 12288]);
    let before = tree.file.pages.clone();
    tree.file.take_journal();
    tree.update(3, 33).unwrap();
    assert_eq!(tree.file.journal, vec![12288]);
    assert_eq!(tree.file.pages.len(), 5);
    for i in [0usize, 1, 2, 4] {
        assert_eq!(tree.file.pages[i], before[i]);
    }
    let leaf = Node::<u64, u64>::read(&tree.file, 12288, 3).unwrap();
    assert_eq!(leaf.keys, vec![3, 4]);
    assert_eq!(leaf.values, vec![33, 40]);
}
