use btree_store::validate::fits;
use btree_store::metacommand::{handle_metacommand, Metacommand, MetacommandError};
use btree_store::node::{
    decode, encode, get_word, put_word, InnerNode, InnerNodeInterior, LeafNode, LeafNodeInterior,
    Node,
};
use btree_store::node_ops::{
    borrow_left, borrow_right, child_index, entry_index, merge, split,
};

fn entry(key: u64) -> LeafNodeInterior {
    LeafNodeInterior { key, value: key * 10 }
}

fn leaf(keys: &[u64], left: Option<u64>, right: Option<u64>) -> Node {
    Node::Leaf(LeafNode {
        entries: keys.iter().map(|k| entry(*k)).collect(),
        left_sibling: left,
        right_sibling: right,
    })
}

fn inner(keys: &[u64], children: &[u64]) -> Node {
    Node::Inner(InnerNode { keys: keys.to_vec(), children: children.to_vec() })
}

#[test]
fn metacommands_are_read_and_named() {
    assert_eq!(handle_metacommand(".tables"), Ok("Tables".to_string()));
    assert_eq!(handle_metacommand(".schema"), Ok("Schema".to_string()));
    assert_eq!(handle_metacommand(".indexes"), Ok("Indexes".to_string()));
    assert_eq!(handle_metacommand(".exit"), Err(MetacommandError::Unknown));
    assert_eq!(handle_metacommand("tables"), Err(MetacommandError::Unknown));
    assert_eq!(Metacommand::from_str(".schema"), Ok(Metacommand::Schema));
    assert_eq!(MetacommandError::Unknown.message(), "Failed to parse metacommand");
}

#[test]
fn words_are_little_endian() {
    let mut page = vec![0u8; 64];
    put_word(&mut page, 1, 0x0102030405060708);
    assert_eq!(&page[8..16], &[8, 7, 6, 5, 4, 3, 2, 1]);
    assert_eq!(get_word(&page, 1), 0x0102030405060708);
    assert_eq!(get_word(&page, 0), 0);
    assert_eq!(get_word(&page, 2), 0);
}

#[test]
fn nodes_round_trip_through_pages() {
    let l = leaf(&[3, 5, 8], Some(4), None);
    let page = encode(&l, 512).unwrap();
    assert_eq!(page.len(), 512);
    assert_eq!(get_word(&page, 0), 2);
    assert_eq!(get_word(&page, 1), 3);
    assert_eq!(get_word(&page, 2), 4);
    assert_eq!(get_word(&page, 3), 0);
    assert_eq!(get_word(&page, 4), 3);
    assert_eq!(get_word(&page, 5), 30);
    assert_eq!(decode(&page), Some(l));

    let n = inner(&[10, 20], &[7, 8, 9]);
    let page = encode(&n, 512).unwrap();
    assert_eq!(get_word(&page, 0), 1);
    assert_eq!(get_word(&page, 1), 2);
    assert_eq!(get_word(&page, 4), 10);
    assert_eq!(get_word(&page, 6), 7);
    assert_eq!(decode(&page), Some(n));

    assert_eq!(decode(&vec![0u8; 512]), None);
    assert_eq!(decode(&vec![0u8; 8]), None);
}

#[test]
fn nodes_that_do_not_fit_are_not_encoded() {
    let keys: Vec<u64> = (1..=31).collect();
    assert!(encode(&leaf(&keys, None, None), 512).is_none());
    assert!(encode(&leaf(&keys[..30], None, None), 512).is_some());
    assert!(encode(&leaf(&[1], Some(0), None), 512).is_none());
    assert!(encode(&inner(&[1, 2], &[1, 2]), 512).is_none());
}

#[test]
fn pages_with_bad_counts_do_not_decode() {
    let mut page = vec![0u8; 512];
    put_word(&mut page, 0, 2);
    put_word(&mut page, 1, 31);
    assert_eq!(decode(&page), None);
    put_word(&mut page, 1, 30);
    assert!(decode(&page).is_some());
    put_word(&mut page, 0, 3);
    assert_eq!(decode(&page), None);
}

#[test]
fn search_finds_positions() {
    let keys = vec![10u64, 20, 30];
    assert_eq!(child_index(&keys, 5), 0);
    assert_eq!(child_index(&keys, 10), 1);
    assert_eq!(child_index(&keys, 19), 1);
    assert_eq!(child_index(&keys, 30), 3);
    assert_eq!(child_index(&vec![], 30), 0);
    let entries = vec![entry(10), entry(20), entry(30)];
    assert_eq!(entry_index(&entries, 5), 0);
    assert_eq!(entry_index(&entries, 10), 0);
    assert_eq!(entry_index(&entries, 11), 1);
    assert_eq!(entry_index(&entries, 31), 3);
}

#[test]
fn split_puts_the_larger_half_left() {
    let (l, pair, r) = split(leaf(&[1, 2, 3, 4, 5], Some(7), Some(9)), 20, 21).unwrap();
    assert_eq!(l, leaf(&[1, 2, 3], Some(7), Some(21)));
    assert_eq!(pair, InnerNodeInterior::new(4, 21));
    assert_eq!(r, leaf(&[4, 5], Some(20), Some(9)));

    let (l, pair, r) = split(leaf(&[1, 2, 3, 4], None, None), 20, 21).unwrap();
    assert_eq!(l, leaf(&[1, 2], None, Some(21)));
    assert_eq!(pair, InnerNodeInterior { key: 3, child: 21 });
    assert_eq!(r, leaf(&[3, 4], Some(20), None));

    let (l, pair, r) = split(inner(&[10, 20, 30, 40], &[1, 2, 3, 4, 5]), 20, 21).unwrap();
    assert_eq!(l, inner(&[10, 20], &[1, 2, 3]));
    assert_eq!(pair, InnerNodeInterior { key: 30, child: 21 });
    assert_eq!(r, inner(&[40], &[4, 5]));

    assert!(split(leaf(&[1], None, None), 20, 21).is_none());
    assert!(split(inner(&[], &[1]), 20, 21).is_none());
}

#[test]
fn merge_joins_neighbours() {
    assert_eq!(
        merge(leaf(&[1, 2], Some(7), Some(21)), 3, leaf(&[3, 4], Some(20), Some(9))),
        Some(leaf(&[1, 2, 3, 4], Some(7), Some(9)))
    );
    assert_eq!(
        merge(inner(&[10], &[1, 2]), 20, inner(&[30], &[3, 4])),
        Some(inner(&[10, 20, 30], &[1, 2, 3, 4]))
    );
    assert_eq!(merge(leaf(&[1], None, None), 5, inner(&[30], &[3, 4])), None);
}

#[test]
fn borrow_moves_one_entry() {
    assert_eq!(
        borrow_left(leaf(&[1, 2, 3], None, Some(9)), 5, leaf(&[5], Some(8), None)),
        Some((leaf(&[1, 2], None, Some(9)), 3, leaf(&[3, 5], Some(8), None)))
    );
    assert_eq!(
        borrow_right(leaf(&[1], None, Some(9)), 5, leaf(&[5, 6, 7], Some(8), None)),
        Some((leaf(&[1, 5], None, Some(9)), 6, leaf(&[6, 7], Some(8), None)))
    );
    assert_eq!(
        borrow_left(inner(&[10, 20], &[1, 2, 3]), 30, inner(&[40], &[4, 5])),
        Some((inner(&[10], &[1, 2]), 20, inner(&[30, 40], &[3, 4, 5])))
    );
    assert_eq!(
        borrow_right(inner(&[10], &[1, 2]), 30, inner(&[40, 50], &[4, 5, 6])),
        Some((inner(&[10, 30], &[1, 2, 4]), 40, inner(&[50], &[5, 6])))
    );
    assert_eq!(borrow_right(leaf(&[1], None, None), 5, leaf(&[5], None, None)), None);
    assert_eq!(borrow_left(leaf(&[], None, None), 5, leaf(&[5], None, None)), None);
}

#[test]
fn new_inner_node_has_one_separator() {
    let mut n = InnerNode::new(4, 10, 5);
    assert_eq!(n.keys, vec![10]);
    assert_eq!(n.children, vec![4, 5]);
    assert_eq!(n.insert_interior_node(InnerNodeInterior::new(5, 6)), Ok(()));
    assert_eq!(n.insert_interior_node(InnerNodeInterior::new(20, 7)), Ok(()));
    assert_eq!(n.keys, vec![5, 10, 20]);
    assert_eq!(n.children, vec![4, 6, 5, 7]);
    // a separator that the node holds is refused, and the node stays as it was
    for k in [5u64, 10, 20] {
        assert_eq!(
            n.insert_interior_node(InnerNodeInterior::new(k, 9)),
            Err(btree_store::error::StorageError::DuplicateKey)
        );
    }
    assert_eq!(n.keys, vec![5, 10, 20]);
    assert_eq!(n.children, vec![4, 6, 5, 7]);
    let l = LeafNode::new();
    assert!(l.entries.is_empty());
}

#[test]
fn node_fits_its_place() {
    let leaf = Node::Leaf(LeafNode {
        entries: vec![
            LeafNodeInterior { key: 5, value: 50 },
            LeafNodeInterior { key: 6, value: 60 },
            LeafNodeInterior { key: 9, value: 90 },
        ],
        left_sibling: None,
        right_sibling: None,
    });
    assert!(fits(&leaf, 0, 5, Some(10), 4, 2));
    assert!(fits(&leaf, 0, 0, None, 4, 0));
    assert!(fits(&leaf, 0, 5, Some(10), 4, 3));
    // the wrong level, too many, too few, and keys beyond either bound
    assert!(!fits(&leaf, 1, 5, Some(10), 4, 2));
    assert!(!fits(&leaf, 0, 5, Some(10), 3, 1));
    assert!(!fits(&leaf, 0, 5, Some(10), 8, 4));
    assert!(!fits(&leaf, 0, 6, Some(10), 4, 2));
    assert!(!fits(&leaf, 0, 5, Some(9), 4, 2));
    let inner = Node::Inner(InnerNode { keys: vec![10, 20], children: vec![1, 2, 3] });
    assert!(fits(&inner, 1, 0, None, 3, 2));
    assert!(fits(&inner, 2, 9, Some(21), 4, 3));
    assert!(!fits(&inner, 0, 0, None, 3, 2));
    assert!(!fits(&inner, 1, 0, None, 2, 2));
    assert!(!fits(&inner, 1, 0, None, 8, 4));
    // a separator lies strictly above the lower bound
    assert!(!fits(&inner, 1, 10, None, 3, 2));
    assert!(!fits(&inner, 1, 0, Some(20), 3, 2));
    let unsorted = Node::Inner(InnerNode { keys: vec![20, 10], children: vec![1, 2, 3] });
    assert!(!fits(&unsorted, 1, 0, None, 3, 2));
    let lopsided = Node::Inner(InnerNode { keys: vec![10, 20], children: vec![1, 2] });
    assert!(!fits(&lopsided, 1, 0, None, 3, 2));
}
