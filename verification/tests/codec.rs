use qlgl::array::{array_from_bytes, array_new_from_bytes, array_to_bytes};
use qlgl::bytes_ext::{u64_from_be_bytes, u64_to_be_bytes};
use qlgl::nodes::layout::{layout, HEADER_SIZE, PAGE_SIZE};
use qlgl::index::same_key;
use qlgl::{BytesExtension, Error, Index, Node, NodeType};

#[test]
fn integers_are_written_most_significant_byte_first() {
    assert_eq!(0x0102030405060708u64.to_bytes(), vec![1, 2, 3, 4, 5, 6, 7, 8]);
    assert_eq!(u64_to_be_bytes(258), vec![0, 0, 0, 0, 0, 0, 1, 2]);
    assert_eq!((-1i64).to_bytes(), vec![0xff; 8]);
    assert_eq!((-2i64).to_bytes(), vec![0xff, 0xff, 0xff, 0xff, 0xff, 0xff, 0xff, 0xfe]);
    assert_eq!(258usize.to_bytes(), vec![0, 0, 0, 0, 0, 0, 1, 2]);
    assert_eq!(u64_from_be_bytes(&vec![9, 0, 0, 0, 0, 0, 0, 1, 2], 1), 258);
}

#[test]
fn booleans_take_one_byte() {
    assert_eq!(true.to_bytes(), vec![1]);
    assert_eq!(false.to_bytes(), vec![0]);
    assert_eq!(bool::new_from_bytes(vec![7]), Ok(true));
    assert_eq!(bool::new_from_bytes(vec![0]), Ok(false));
    assert_eq!(bool::get_byte_size(), 1);
}

#[test]
fn scalars_decode_what_they_encode() {
    for x in [0u64, 1, 255, 256, u64::MAX, 0x8000000000000000] {
        assert_eq!(u64::new_from_bytes(x.to_bytes()), Ok(x));
    }
    for x in [0i64, 1, -1, i64::MIN, i64::MAX, -4096] {
        assert_eq!(i64::new_from_bytes(x.to_bytes()), Ok(x));
    }
    for x in [0usize, 1, 4096, usize::MAX] {
        assert_eq!(usize::new_from_bytes(x.to_bytes()), Ok(x));
    }
    assert_eq!(u64::get_byte_size(), 8);
    assert_eq!(i64::get_byte_size(), 8);
    assert_eq!(usize::get_byte_size(), 8);
}

#[test]
fn a_wrong_length_is_an_encoding_error() {
    assert_eq!(u64::new_from_bytes(vec![0; 7]), Err(Error::Encoding));
    assert_eq!(u64::new_from_bytes(vec![0; 9]), Err(Error::Encoding));
    assert_eq!(i64::new_from_bytes(vec![]), Err(Error::Encoding));
    assert_eq!(usize::new_from_bytes(vec![0; 4]), Err(Error::Encoding));
    assert_eq!(bool::new_from_bytes(vec![0, 0]), Err(Error::Encoding));
    let mut x: u64 = 5;
    assert_eq!(x.from_bytes(vec![1, 2, 3]), Err(Error::Encoding));
    assert_eq!(x, 5);
    assert_eq!(x.from_bytes(vec![0, 0, 0, 0, 0, 0, 0, 9]), Ok(()));
    assert_eq!(x, 9);
}

#[test]
fn keys_compare_as_numbers() {
    assert!(3u64.comes_before(&4));
    assert!(!4u64.comes_before(&4));
    assert!((-3i64).comes_before(&2));
    assert!(!2i64.comes_before(&-3));
    assert!(same_key(&7u64, &7));
    assert!(!same_key(&7u64, &8));
}

#[test]
fn an_array_fills_every_slot() {
    let mut out: Vec<u8> = vec![0xaa];
    array_to_bytes(&vec![7u64], 3, &mut out);
    let mut want = vec![0xaa, 0, 0, 0, 0, 0, 0, 0, 7];
    want.extend(vec![0u8; 16]);
    assert_eq!(out, want);
    let back: Vec<u64> = array_from_bytes(&out, 1, 3).unwrap();
    assert_eq!(back, vec![7, 0, 0]);
    let first: Vec<u64> = array_from_bytes(&out, 1, 1).unwrap();
    assert_eq!(first, vec![7]);
}

#[test]
fn the_kind_of_a_node_takes_sixteen_bytes() {
    assert_eq!(NodeType::get_byte_size(), 16);
    assert_eq!(
        NodeType::Internal.to_bytes(),
        vec![0, 0, 0, 0, 0, 0, 0, 1, 0, 0, 0, 0, 0, 0, 0, 0]
    );
    assert_eq!(
        NodeType::Leaf(Some(4096)).to_bytes(),
        vec![0, 0, 0, 0, 0, 0, 0, 2, 0, 0, 0, 0, 0, 0, 0x10, 0]
    );
    assert_eq!(NodeType::Leaf(None).to_bytes(), vec![0, 0, 0, 0, 0, 0, 0, 2, 0, 0, 0, 0, 0, 0, 0, 0]);
    assert_eq!(
        NodeType::new_from_bytes(NodeType::Leaf(Some(8192)).to_bytes()),
        Ok(NodeType::Leaf(Some(8192)))
    );
    assert_eq!(NodeType::new_from_bytes(NodeType::Leaf(None).to_bytes()), Ok(NodeType::Leaf(None)));
    assert_eq!(NodeType::new_from_bytes(NodeType::Leaf(Some(0)).to_bytes()), Ok(NodeType::Leaf(None)));
    assert_eq!(NodeType::new_from_bytes(NodeType::Internal.to_bytes()), Ok(NodeType::Internal));
}

#[test]
fn an_unknown_kind_is_an_encoding_error() {
    let mut bytes = NodeType::Internal.to_bytes();
    bytes[7] = 3;
    assert_eq!(NodeType::new_from_bytes(bytes), Err(Error::Encoding));
    assert_eq!(NodeType::new_from_bytes(vec![0; 16]), Err(Error::Encoding));
    assert_eq!(NodeType::new_from_bytes(vec![0; 15]), Err(Error::Encoding));
    let mut kind = NodeType::Internal;
    assert_eq!(kind.from_bytes(vec![0; 16]), Err(Error::Encoding));
    assert_eq!(kind, NodeType::Internal);
    assert_eq!(kind.from_bytes(NodeType::Leaf(Some(3)).to_bytes()), Ok(()));
    assert_eq!(kind, NodeType::Leaf(Some(3)));
}

#[test]
fn a_node_takes_whole_pages() {
    let small = layout::<u64, u64>(3).unwrap();
    assert_eq!(HEADER_SIZE, 44);
    assert_eq!(small.values_start, 44 + 2 * 8);
    assert_eq!(small.children_start, 44 + 2 * 8 + 2 * 8);
    assert_eq!(small.raw_size, 100);
    assert_eq!(small.node_size, PAGE_SIZE);
    let large = layout::<u64, u64>(255).unwrap();
    assert_eq!(large.raw_size, 44 + 254 * 8 + 254 * 8 + 255 * 8);
    assert_eq!(large.node_size, 2 * PAGE_SIZE);
    assert!(layout::<u64, u64>(0).is_none());
    assert!(layout::<u64, u64>(usize::MAX).is_none());
}

fn sample_leaf() -> Node<u64, u64> {
    let mut node = Node::<u64, u64>::make_leaf(5, Some(8192));
    node.set_offset(4096);
    node.set_parent_offset(12288);
    node.insert_kv(20, 200).unwrap();
    node.insert_kv(10, 100).unwrap();
    node.insert_kv(30, 300).unwrap();
    node
}

#[test]
fn the_page_of_a_leaf_is_laid_out_field_by_field() {
    let node = sample_leaf();
    let bytes = node.to_bytes();
    assert_eq!(bytes.len(), 4096);
    assert_eq!(node.get_byte_size(), 4096);
    assert_eq!(&bytes[0..8], &[0, 0, 0, 0, 0, 0, 0, 2]);
    assert_eq!(&bytes[8..16], &[0, 0, 0, 0, 0, 0, 0x20, 0]);
    assert_eq!(&bytes[16..20], &[0, 0, 0, 0]);
    assert_eq!(&bytes[20..28], &[0, 0, 0, 0, 0, 0, 0x30, 0]);
    assert_eq!(&bytes[28..36], &[0, 0, 0, 0, 0, 0, 0x10, 0]);
    assert_eq!(&bytes[36..44], &[0, 0, 0, 0, 0, 0, 0, 3]);
    assert_eq!(&bytes[44..52], &[0, 0, 0, 0, 0, 0, 0, 10]);
    assert_eq!(&bytes[52..60], &[0, 0, 0, 0, 0, 0, 0, 20]);
    assert_eq!(&bytes[60..68], &[0, 0, 0, 0, 0, 0, 0, 30]);
    assert_eq!(&bytes[68..76], &[0; 8]);
    assert_eq!(&bytes[76..84], &[0, 0, 0, 0, 0, 0, 0, 100]);
    assert_eq!(&bytes[84..92], &[0, 0, 0, 0, 0, 0, 0, 200]);
    assert_eq!(&bytes[92..100], &[0, 0, 0, 0, 0, 0, 1, 44]);
    assert!(bytes[100..].iter().all(|b| *b == 0));
}

#[test]
fn the_page_of_an_internal_node_holds_its_children() {
    let mut node = Node::<u64, u64>::make_internal(3);
    node.set_root();
    node.children.push(4096);
    node.insert_child(0, 7, 8192);
    let bytes = node.to_bytes();
    assert_eq!(bytes.len(), 4096);
    assert_eq!(&bytes[0..8], &[0, 0, 0, 0, 0, 0, 0, 1]);
    assert_eq!(bytes[16], 1);
    assert_eq!(&bytes[36..44], &[0, 0, 0, 0, 0, 0, 0, 1]);
    assert_eq!(&bytes[44..52], &[0, 0, 0, 0, 0, 0, 0, 7]);
    assert_eq!(&bytes[60..76], &[0; 16]);
    assert_eq!(&bytes[76..84], &[0, 0, 0, 0, 0, 0, 0x10, 0]);
    assert_eq!(&bytes[84..92], &[0, 0, 0, 0, 0, 0, 0x20, 0]);
    assert_eq!(&bytes[92..100], &[0; 8]);
}

#[test]
fn a_page_decodes_to_the_node_and_encodes_to_the_same_page() {
    let node = sample_leaf();
    let bytes = node.to_bytes();
    let back = Node::<u64, u64>::new_from_bytes(bytes.clone(), 5).unwrap();
    assert_eq!(back.node_type, NodeType::Leaf(Some(8192)));
    assert_eq!(back.keys, vec![10, 20, 30]);
    assert_eq!(back.values, vec![100, 200, 300]);
    assert!(back.children.is_empty());
    assert_eq!(back.offset, 4096);
    assert_eq!(back.parent_offset, 12288);
    assert!(!back.is_root);
    assert!(!back.is_dirty);
    assert_eq!(back.to_bytes(), bytes);

    let empty = Node::<u64, u64>::make_internal(3);
    let bytes = empty.to_bytes();
    let back = Node::<u64, u64>::new_from_bytes(bytes.clone(), 3).unwrap();
    assert_eq!(back.children, vec![0]);
    assert_eq!(back.to_bytes(), bytes);
}

#[test]
fn a_damaged_page_is_an_encoding_error() {
    let node = sample_leaf();
    let bytes = node.to_bytes();
    let mut short = bytes.clone();
    short.pop();
    assert!(matches!(Node::<u64, u64>::new_from_bytes(short, 5), Err(Error::Encoding)));
    let mut tag = bytes.clone();
    tag[7] = 9;
    assert!(matches!(Node::<u64, u64>::new_from_bytes(tag, 5), Err(Error::Encoding)));
    let mut used = bytes.clone();
    used[43] = 5;
    assert!(matches!(Node::<u64, u64>::new_from_bytes(used, 5), Err(Error::Encoding)));
    assert!(matches!(Node::<u64, u64>::new_from_bytes(bytes.clone(), 255), Err(Error::Encoding)));
    let mut node = Node::<u64, u64>::make_internal(5);
    assert_eq!(node.from_bytes(vec![0; 4096]), Err(Error::Encoding));
    assert_eq!(node.from_bytes(bytes), Ok(()));
    assert_eq!(node.keys, vec![10, 20, 30]);
}

#[test]
fn an_array_that_ends_too_early_is_an_encoding_error() {
    let mut out: Vec<u8> = Vec::new();
    array_to_bytes(&vec![7u64, 8], 2, &mut out);
    assert_eq!(out.len(), 16);
    assert_eq!(array_from_bytes::<u64>(&out, 0, 2), Ok(vec![7, 8]));
    assert_eq!(array_from_bytes::<u64>(&out, 0, 3), Err(Error::Encoding));
    assert_eq!(array_from_bytes::<u64>(&out, 1, 2), Err(Error::Encoding));
    assert_eq!(array_from_bytes::<u64>(&out, 17, 0), Err(Error::Encoding));
    assert_eq!(array_from_bytes::<u64>(&out, 16, 0), Ok(vec![]));
    assert_eq!(array_from_bytes::<u64>(&out, usize::MAX, 1), Err(Error::Encoding));
    assert_eq!(array_from_bytes::<u64>(&out, 0, usize::MAX), Err(Error::Encoding));
}

#[test]
fn an_array_of_another_length_is_an_encoding_error() {
    let mut out: Vec<u8> = Vec::new();
    array_to_bytes(&vec![7u64], 3, &mut out);
    assert_eq!(array_new_from_bytes::<u64>(out.clone(), 3), Ok(vec![7, 0, 0]));
    assert_eq!(array_new_from_bytes::<u64>(out.clone(), 2), Err(Error::Encoding));
    assert_eq!(array_new_from_bytes::<u64>(out.clone(), 4), Err(Error::Encoding));
    let mut short = out.clone();
    short.pop();
    assert_eq!(array_new_from_bytes::<u64>(short, 3), Err(Error::Encoding));
    let mut long = out.clone();
    long.push(0);
    assert_eq!(array_new_from_bytes::<u64>(long, 3), Err(Error::Encoding));
    assert_eq!(array_new_from_bytes::<u64>(Vec::new(), 0), Ok(vec![]));
    assert_eq!(array_new_from_bytes::<bool>(vec![1, 0, 2], 3), Ok(vec![true, false, true]));
}
