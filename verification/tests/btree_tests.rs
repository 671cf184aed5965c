use btree_store::btree::{delete, find, insert, scan, Btree, DuplicatePolicy};
use btree_store::node_io::{load_node, store_node};
use btree_store::os_interface::MemoryStore;
use btree_store::pager::Pager;
use std::collections::BTreeMap;
use btree_store::error::StorageError;
use btree_store::node::{InnerNode, LeafNode, LeafNodeInterior, Node};

#[test]
fn new_btree_inits_correctly_with_single_key_value() {
    let interior_node_count: u64 = 2;
    let key: u8 = 1;
    let value: u8 = 2;
    let mut init_btree: Btree = Btree::new(interior_node_count, key as u64, value as u64);
    let expected_root = Node::Leaf(LeafNode {
        entries: vec![LeafNodeInterior { key: key as u64, value: value as u64 }],
        left_sibling: None,
        right_sibling: None,
    });

    assert_eq!(init_btree.interior_node_count(), interior_node_count);
    assert_eq!(init_btree.height(), 0);
    assert_eq!(init_btree.root_node(), Ok(expected_root));
}

#[test]
fn find_in_new_tree() {
    let mut tree = Btree::new(4, 10, 100);
    assert_eq!(find(&mut tree, 10), Ok(100));
    assert_eq!(find(&mut tree, 11), Err(StorageError::NotFound));
}

#[test]
fn inserts_split_the_root_and_stay_findable() {
    let mut tree = Btree::new(4, 10, 100);
    let keys: [u64; 7] = [20, 5, 6, 12, 30, 7, 17];
    let mut count = 1;
    for k in keys {
        assert_eq!(insert(&mut tree, k, k * 10), Ok(()));
        count += 1;
        if count >= 5 {
            assert_eq!(tree.height(), 1);
        }
    }
    for k in [10u64, 20, 5, 6, 12, 30, 7, 17] {
        assert_eq!(find(&mut tree, k), Ok(k * 10));
    }
    assert_eq!(find(&mut tree, 6), Ok(60));
    assert_eq!(find(&mut tree, 8), Err(StorageError::NotFound));
    assert_eq!(insert(&mut tree, 12, 1), Err(StorageError::DuplicateKey));
    assert_eq!(find(&mut tree, 12), Ok(120));
}

#[test]
fn many_inserts_grow_the_tree() {
    let mut tree = Btree::new(4, 0, 0);
    let mut k: u64 = 1;
    while k < 500 {
        let key = (k * 7919) % 1000;
        let r = insert(&mut tree, key, key + 1);
        if r.is_err() {
            assert_eq!(r, Err(StorageError::DuplicateKey));
        }
        k += 1;
    }
    assert!(tree.height() >= 3);
    let mut k: u64 = 1;
    while k < 500 {
        let key = (k * 7919) % 1000;
        assert_eq!(find(&mut tree, key), Ok(key + 1));
        k += 1;
    }
}

#[test]
fn delete_missing_key_is_not_found() {
    let mut tree = Btree::new(4, 10, 100);
    assert_eq!(delete(&mut tree, 11), Err(StorageError::NotFound));
    assert_eq!(find(&mut tree, 10), Ok(100));
    assert_eq!(delete(&mut tree, 10), Ok(()));
    assert_eq!(find(&mut tree, 10), Err(StorageError::NotFound));
    assert_eq!(delete(&mut tree, 10), Err(StorageError::NotFound));
    assert_eq!(tree.height(), 0);
}

#[test]
fn inserts_and_deletes_agree_with_a_map() {
    for fanout in [3u64, 4, 5, 6, 7, 16] {
        let mut tree = Btree::new(fanout, 500, 1);
        let mut model: BTreeMap<u64, u64> = BTreeMap::new();
        model.insert(500, 1);
        let mut x: u64 = 12345;
        let mut step = 0;
        while step < 4000 {
            x = x.wrapping_mul(6364136223846793005).wrapping_add(1442695040888963407);
            let key = (x >> 33) % 300;
            let op = (x >> 20) % 3;
            if op < 2 {
                let r = insert(&mut tree, key, step);
                if model.contains_key(&key) {
                    assert_eq!(r, Err(StorageError::DuplicateKey));
                } else {
                    assert_eq!(r, Ok(()));
                    model.insert(key, step);
                }
            } else {
                let r = delete(&mut tree, key);
                if model.contains_key(&key) {
                    assert_eq!(r, Ok(()));
                    model.remove(&key);
                } else {
                    assert_eq!(r, Err(StorageError::NotFound));
                }
            }
            step += 1;
        }
        let mut k = 0;
        while k < 600 {
            match model.get(&k) {
                Some(v) => assert_eq!(find(&mut tree, k), Ok(*v)),
                None => assert_eq!(find(&mut tree, k), Err(StorageError::NotFound)),
            }
            k += 1;
        }
        let keys: Vec<u64> = model.keys().copied().collect();
        for k in keys {
            assert_eq!(delete(&mut tree, k), Ok(()));
        }
        assert_eq!(tree.height(), 0);
        assert_eq!(find(&mut tree, 500), Err(StorageError::NotFound));
    }
}

#[test]
fn scenario_with_fanout_four() {
    let mut tree = Btree::new(4, 10, 1);
    let mut n = 1;
    for k in [20u64, 5, 6, 12, 30, 7, 17] {
        assert_eq!(insert(&mut tree, k, k + 100), Ok(()));
        n += 1;
        if n == 5 {
            // the root has split: the tree has two levels
            assert_eq!(tree.height() + 1, 2);
        }
        assert!(tree.validate());
    }
    assert_eq!(find(&mut tree, 6), Ok(106));
    let before = tree.root_node().unwrap();
    assert_eq!(delete(&mut tree, 20), Ok(()));
    assert!(tree.validate());
    assert_eq!(delete(&mut tree, 30), Ok(()));
    assert!(tree.validate());
    let after = tree.root_node().unwrap();
    // a merge took a child from the root, or a borrow changed a separator
    assert_ne!(after, before);
    assert_eq!(find(&mut tree, 20), Err(StorageError::NotFound));
    assert_eq!(find(&mut tree, 30), Err(StorageError::NotFound));
    let keys: Vec<u64> = scan(&mut tree).unwrap().iter().map(|e| e.key).collect();
    assert_eq!(keys, vec![5, 6, 7, 10, 12, 17]);
}

#[test]
fn scan_yields_every_key_once_in_order() {
    let mut tree = Btree::new(5, 1000, 0);
    let mut expect: Vec<u64> = vec![1000];
    let mut k: u64 = 1;
    while k < 200 {
        let key = (k * 37) % 211;
        assert_eq!(insert(&mut tree, key, key + 1), Ok(()));
        expect.push(key);
        k += 1;
    }
    expect.sort();
    let got = scan(&mut tree).unwrap();
    let keys: Vec<u64> = got.iter().map(|e| e.key).collect();
    assert_eq!(keys, expect);
    for e in got.iter() {
        if e.key != 1000 {
            assert_eq!(e.value, e.key + 1);
        }
    }
    let mut k: u64 = 1;
    while k < 200 {
        if k % 3 != 0 {
            assert_eq!(delete(&mut tree, (k * 37) % 211), Ok(()));
        }
        k += 1;
    }
    let got = scan(&mut tree).unwrap();
    let mut prev: Option<u64> = None;
    for e in got.iter() {
        if let Some(p) = prev {
            assert!(p < e.key);
        }
        prev = Some(e.key);
    }
    assert_eq!(got.len(), 67);
    assert!(tree.validate());
}

#[test]
fn insert_then_delete_restores_the_tree() {
    let mut tree = Btree::new(4, 10, 1);
    for k in [20u64, 5, 6, 12, 30, 7, 17] {
        assert_eq!(insert(&mut tree, k, k), Ok(()));
    }
    let before = scan(&mut tree).unwrap();
    assert_eq!(insert(&mut tree, 13, 13), Ok(()));
    assert_eq!(delete(&mut tree, 13), Ok(()));
    assert_eq!(scan(&mut tree).unwrap(), before);
    assert!(tree.validate());
    assert_eq!(find(&mut tree, 13), Err(StorageError::NotFound));
}

#[test]
fn failed_delete_leaves_the_tree_unchanged() {
    let mut tree = Btree::new(4, 10, 1);
    for k in [20u64, 5, 6, 12] {
        assert_eq!(insert(&mut tree, k, k), Ok(()));
    }
    let before = scan(&mut tree).unwrap();
    let root = tree.root();
    assert_eq!(delete(&mut tree, 11), Err(StorageError::NotFound));
    assert_eq!(delete(&mut tree, 11), Err(StorageError::NotFound));
    assert_eq!(scan(&mut tree).unwrap(), before);
    assert_eq!(tree.root(), root);
    assert!(tree.validate());
}

#[test]
fn tree_with_a_small_store_runs_out_of_room() {
    let store = MemoryStore::new(512, 6).unwrap();
    let pager = Pager::new(store, 4);
    let mut tree = Btree::create(pager, 4).unwrap();
    let mut k: u64 = 0;
    let mut failed = false;
    while k < 40 {
        match insert(&mut tree, k, k) {
            Ok(()) => {}
            Err(e) => {
                assert_eq!(e, StorageError::IoError);
                failed = true;
                break;
            }
        }
        k += 1;
    }
    assert!(failed);
    assert!(tree.validate());
    let mut j: u64 = 0;
    while j < k {
        assert_eq!(find(&mut tree, j), Ok(j));
        j += 1;
    }
    assert_eq!(find(&mut tree, k), Err(StorageError::NotFound));
}

#[test]
fn open_checks_the_tree() {
    let mut tree = Btree::new(4, 10, 1);
    for k in [20u64, 5, 6, 12, 30, 7, 17] {
        assert_eq!(insert(&mut tree, k, k), Ok(()));
    }
    let root = tree.root();
    let height = tree.height();
    let pager = tree.into_pager();
    let mut tree = Btree::open(pager, root, height, 4).unwrap();
    assert_eq!(find(&mut tree, 17), Ok(17));

    // a wrong height, root or fanout is refused
    let pager = tree.into_pager();
    assert_eq!(Btree::open(pager, root, height + 1, 4).err(), Some(StorageError::CorruptNode));
    let mut tree = Btree::new(4, 10, 1);
    for k in [20u64, 5, 6, 12, 30, 7, 17] {
        assert_eq!(insert(&mut tree, k, k), Ok(()));
    }
    let root = tree.root();
    let mut pager = tree.into_pager();
    // put keys out of order into the root's first child
    let top = load_node(&mut pager, root).unwrap();
    let child = match top {
        Node::Inner(n) => n.children[0],
        Node::Leaf(_) => panic!("root is a leaf"),
    };
    let bad = Node::Leaf(LeafNode {
        entries: vec![
            LeafNodeInterior { key: 6, value: 6 },
            LeafNodeInterior { key: 5, value: 5 },
        ],
        left_sibling: None,
        right_sibling: match load_node(&mut pager, child).unwrap() {
            Node::Leaf(l) => l.right_sibling,
            Node::Inner(_) => None,
        },
    });
    assert_eq!(store_node(&mut pager, child, &bad), Ok(()));
    assert_eq!(Btree::open(pager, root, 1, 4).err(), Some(StorageError::CorruptNode));
}

#[test]
fn empty_tree_holds_nothing() {
    let store = MemoryStore::new(4096, 100).unwrap();
    let mut tree = Btree::create(Pager::new(store, 8), 6).unwrap();
    assert!(tree.validate());
    assert_eq!(scan(&mut tree).unwrap(), vec![]);
    assert_eq!(find(&mut tree, 0), Err(StorageError::NotFound));
    assert_eq!(insert(&mut tree, 0, 5), Ok(()));
    assert_eq!(insert(&mut tree, u64::MAX, 6), Ok(()));
    assert_eq!(find(&mut tree, 0), Ok(5));
    assert_eq!(find(&mut tree, u64::MAX), Ok(6));
    assert!(tree.validate());
}

#[test]
fn tree_with_an_unusable_fanout_does_not_validate() {
    let mut tree = Btree::new(2, 1, 2);
    assert!(!tree.validate());
    let mut tree = Btree::new(300, 1, 2);
    assert!(!tree.validate());
    let mut tree = Btree::new(254, 1, 2);
    assert!(tree.validate());
}

#[test]
fn reopening_a_closed_store_gives_the_tree_back() {
    let mut tree = Btree::new(4, 10, 1);
    for k in [20u64, 5, 6, 12, 30, 7, 17, 99, 98, 97, 1, 2, 3] {
        assert_eq!(insert(&mut tree, k, k * 2), Ok(()));
    }
    for k in [12u64, 99, 1, 2] {
        assert_eq!(delete(&mut tree, k), Ok(()));
    }
    let before = scan(&mut tree).unwrap();
    let root = tree.root();
    let height = tree.height();
    let store = tree.close();
    let mut again = Btree::reopen(store, 3).unwrap();
    assert_eq!(again.root(), root);
    assert_eq!(again.height(), height);
    assert_eq!(again.interior_node_count(), 4);
    assert_eq!(scan(&mut again).unwrap(), before);
    // pages freed before the close are handed out again
    for k in [12u64, 99, 1, 2, 4, 8, 9] {
        assert_eq!(insert(&mut again, k, k), Ok(()));
    }
    assert!(again.validate());
    assert_eq!(find(&mut again, 30), Ok(60));
}

#[test]
fn a_store_without_metadata_does_not_reopen() {
    let store = MemoryStore::new(512, 10).unwrap();
    assert_eq!(Btree::reopen(store, 4).err(), Some(StorageError::CorruptNode));
    let tree = Btree::new(4, 10, 1);
    let mut store = tree.close();
    let mut page = store.read_page(0).unwrap();
    page[16] = 77;
    assert_eq!(store.write_page(0, &page), Ok(()));
    assert_eq!(Btree::reopen(store, 4).err(), Some(StorageError::CorruptNode));
}

#[test]
fn overwrite_policy_replaces_the_value() {
    let mut tree = Btree::new(4, 10, 1);
    assert_eq!(tree.duplicate_policy(), DuplicatePolicy::Reject);
    for k in [20u64, 5, 6, 12, 30, 7, 17] {
        assert_eq!(insert(&mut tree, k, k), Ok(()));
    }
    assert_eq!(insert(&mut tree, 12, 99), Err(StorageError::DuplicateKey));
    assert_eq!(find(&mut tree, 12), Ok(12));
    tree.set_duplicate_policy(DuplicatePolicy::Overwrite);
    assert_eq!(tree.duplicate_policy(), DuplicatePolicy::Overwrite);
    let height = tree.height();
    let root = tree.root();
    assert_eq!(insert(&mut tree, 12, 99), Ok(()));
    assert_eq!(insert(&mut tree, 5, 55), Ok(()));
    assert_eq!(find(&mut tree, 12), Ok(99));
    assert_eq!(find(&mut tree, 5), Ok(55));
    assert_eq!(find(&mut tree, 6), Ok(6));
    assert_eq!(tree.height(), height);
    assert_eq!(tree.root(), root);
    assert_eq!(scan(&mut tree).unwrap().len(), 8);
    assert!(tree.validate());
    assert_eq!(insert(&mut tree, 13, 13), Ok(()));
    assert_eq!(scan(&mut tree).unwrap().len(), 9);
}

#[test]
fn fanout_fits_the_page() {
    assert_eq!(Btree::max_fanout(4096), 254);
    assert_eq!(Btree::max_fanout(512), 30);
    assert_eq!(Btree::max_fanout(65536), 4094);
    assert_eq!(Btree::max_fanout(64), 0);
    let store = MemoryStore::new(512, 100).unwrap();
    let mut tree = Btree::create(Pager::new(store, 4), 30).unwrap();
    assert!(tree.validate());
    assert!(tree.has_room_for(0));
    let mut k: u64 = 0;
    while k < 200 {
        assert_eq!(insert(&mut tree, k * 3, k), Ok(()));
        k += 1;
    }
    assert!(tree.validate());
    assert_eq!(tree.height(), 1);
    let store = MemoryStore::new(512, 100).unwrap();
    let mut tree = Btree::create(Pager::new(store, 4), 31).unwrap();
    assert!(!tree.validate());
    let store = MemoryStore::new(512, 2).unwrap();
    let mut tree = Btree::create(Pager::new(store, 4), 4).unwrap();
    assert!(tree.has_room_for(7));
    let store = MemoryStore::new(512, 1).unwrap();
    assert_eq!(Btree::create(Pager::new(store, 4), 4).err(), Some(StorageError::IoError));
}

#[test]
fn flush_brings_the_store_up_to_date() {
    let store = MemoryStore::new(512, 100).unwrap();
    let mut tree = Btree::create(Pager::new(store, 8), 4).unwrap();
    for k in [20u64, 5, 6, 12, 30, 7, 17] {
        assert_eq!(insert(&mut tree, k, k), Ok(()));
    }
    assert_eq!(tree.flush(), Ok(()));
    let root = tree.root();
    let height = tree.height();
    let mut pager = tree.into_pager();
    let bytes = pager.store().read_page(root).unwrap();
    let h = pager.fetch(root).unwrap();
    assert_eq!(pager.data(h), Some(&bytes));
    pager.release(h);
    let mut tree = Btree::open(pager, root, height, 4).unwrap();
    assert_eq!(find(&mut tree, 17), Ok(17));
}

#[test]
fn insert_takes_only_the_pages_it_needs() {
    // the store has page 0 and the root's page, and not one page more
    let store = MemoryStore::new(512, 2).unwrap();
    let mut tree = Btree::create(Pager::new(store, 4), 4).unwrap();
    assert_eq!(insert(&mut tree, 1, 10), Ok(()));
    assert_eq!(insert(&mut tree, 2, 20), Ok(()));
    assert_eq!(insert(&mut tree, 3, 30), Ok(()));
    // the leaf is full now: the next key needs a new leaf and a new root
    assert!(!tree.has_room_for(4));
    assert_eq!(insert(&mut tree, 4, 40), Err(StorageError::IoError));
    assert_eq!(find(&mut tree, 4), Err(StorageError::NotFound));
    assert_eq!(find(&mut tree, 3), Ok(30));
    assert_eq!(tree.height(), 0);
    assert!(tree.validate());
    assert_eq!(delete(&mut tree, 2), Ok(()));
    assert!(tree.has_room_for(4));
    assert_eq!(insert(&mut tree, 4, 40), Ok(()));

    // with three spare pages a tree of two levels splits a leaf, and no more
    let store = MemoryStore::new(512, 5).unwrap();
    let mut tree = Btree::create(Pager::new(store, 4), 4).unwrap();
    for k in [10u64, 20, 5, 6] {
        assert_eq!(insert(&mut tree, k, k), Ok(()));
    }
    assert_eq!(tree.height(), 1);
    assert!(!tree.pager().can_allocate(2));
    assert!(tree.pager().can_allocate(1));
    assert_eq!(insert(&mut tree, 12, 12), Ok(()));
    assert_eq!(insert(&mut tree, 30, 30), Ok(()));
    assert!(!tree.pager().can_allocate(1));
    // leaves [5,6] and [10,12] have room, the leaf [20,30] has room for one
    assert_eq!(insert(&mut tree, 7, 7), Ok(()));
    assert_eq!(insert(&mut tree, 17, 17), Ok(()));
    assert_eq!(insert(&mut tree, 40, 40), Ok(()));
    assert_eq!(insert(&mut tree, 8, 8), Err(StorageError::IoError));
    assert!(tree.validate());
}

#[test]
fn root_split_follows_the_rule() {
    let store = MemoryStore::new(512, 50).unwrap();
    let mut tree = Btree::create(Pager::new(store, 4), 4).unwrap();
    for k in [10u64, 20, 5] {
        assert_eq!(insert(&mut tree, k, 10 * k), Ok(()));
    }
    let old_root = tree.root();
    assert_eq!(insert(&mut tree, 6, 60), Ok(()));
    assert_eq!(tree.height(), 1);
    let (keys, children) = match tree.root_node().unwrap() {
        Node::Inner(n) => (n.keys, n.children),
        Node::Leaf(_) => panic!("the root did not split"),
    };
    assert_eq!(keys, vec![10]);
    assert_eq!(children.len(), 2);
    assert_eq!(children[0], old_root);
    let mut pager = tree.into_pager();
    let left = load_node(&mut pager, children[0]).unwrap();
    let right = load_node(&mut pager, children[1]).unwrap();
    let e = |k: u64| LeafNodeInterior { key: k, value: 10 * k };
    assert_eq!(
        left,
        Node::Leaf(LeafNode {
            entries: vec![e(5), e(6)],
            left_sibling: None,
            right_sibling: Some(children[1]),
        })
    );
    assert_eq!(
        right,
        Node::Leaf(LeafNode {
            entries: vec![e(10), e(20)],
            left_sibling: Some(children[0]),
            right_sibling: None,
        })
    );
}

fn leaves_of(tree: &mut Btree) -> Vec<Vec<u64>> {
    let children = match tree.root_node().unwrap() {
        Node::Inner(n) => n.children,
        Node::Leaf(l) => return vec![l.entries.iter().map(|e| e.key).collect()],
    };
    let root = tree.root();
    let height = tree.height();
    let fanout = tree.interior_node_count();
    let mut out = Vec::new();
    let mut pager = std::mem::replace(tree, Btree::new(4, 0, 0)).into_pager();
    for c in children {
        match load_node(&mut pager, c).unwrap() {
            Node::Leaf(l) => out.push(l.entries.iter().map(|e| e.key).collect()),
            Node::Inner(_) => panic!("the tree has more than two levels"),
        }
    }
    *tree = Btree::open(pager, root, height, fanout).unwrap();
    out
}

#[test]
fn borrow_comes_before_merge_and_from_the_left_first() {
    let mut tree = Btree::new(4, 10, 10);
    for k in [20u64, 5, 6, 12, 30, 7, 17] {
        assert_eq!(insert(&mut tree, k, k), Ok(()));
    }
    assert_eq!(leaves_of(&mut tree), vec![vec![5, 6, 7], vec![10, 12, 17], vec![20, 30]]);
    let before = tree.pager().can_allocate(1048576 - 5);
    assert!(before);
    assert_eq!(delete(&mut tree, 20), Ok(()));
    // one entry came from the left sibling
    assert_eq!(leaves_of(&mut tree), vec![vec![5, 6, 7], vec![10, 12], vec![17, 30]]);
    assert_eq!(delete(&mut tree, 30), Ok(()));
    // no sibling had an entry to spare: the last two leaves are one now
    assert_eq!(leaves_of(&mut tree), vec![vec![5, 6, 7], vec![10, 12, 17]]);
    assert_eq!(tree.height(), 1);
    assert!(tree.validate());

    let mut tree = Btree::new(4, 10, 10);
    for k in [20u64, 5, 6, 12, 30, 7, 17, 40] {
        assert_eq!(insert(&mut tree, k, k), Ok(()));
    }
    assert_eq!(delete(&mut tree, 12), Ok(()));
    assert_eq!(leaves_of(&mut tree), vec![vec![5, 6, 7], vec![10, 17], vec![20, 30, 40]]);
    assert_eq!(delete(&mut tree, 17), Ok(()));
    // both siblings had an entry to spare, and the left one gave
    assert_eq!(leaves_of(&mut tree), vec![vec![5, 6], vec![7, 10], vec![20, 30, 40]]);
    match tree.root_node().unwrap() {
        Node::Inner(n) => assert_eq!(n.keys, vec![7, 20]),
        Node::Leaf(_) => panic!("the root is a leaf"),
    }
}

#[test]
fn collapse_gives_the_root_page_back() {
    let store = MemoryStore::new(512, 4).unwrap();
    let mut tree = Btree::create(Pager::new(store, 4), 4).unwrap();
    for k in [10u64, 20, 5, 6] {
        assert_eq!(insert(&mut tree, k, k), Ok(()));
    }
    assert_eq!(tree.height(), 1);
    assert!(!tree.pager().can_allocate(1));
    let old_root = tree.root();
    assert_eq!(delete(&mut tree, 20), Ok(()));
    assert_eq!(tree.height(), 0);
    assert_ne!(tree.root(), old_root);
    // the merged leaf's page and the old root's page are free again
    assert!(tree.pager().can_allocate(2));
    assert!(!tree.pager().is_allocated(old_root));
}

#[test]
fn find_passes_the_errors_of_the_pool_on() {
    let store = MemoryStore::new(512, 100).unwrap();
    let mut tree = Btree::create(Pager::new(store, 2), 4).unwrap();
    for k in [10u64, 20, 5, 6, 12, 30, 7, 17] {
        assert_eq!(insert(&mut tree, k, k), Ok(()));
    }
    let children = match tree.root_node().unwrap() {
        Node::Inner(n) => n.children,
        Node::Leaf(_) => panic!("the root is a leaf"),
    };
    let a = tree.pin(children[0]).unwrap();
    let b = tree.pin(children[1]).unwrap();
    let mut page_a = tree.pager().data(a).unwrap().clone();
    let page_b = tree.pager().data(b).unwrap().clone();
    // both frames are pinned: the root cannot be brought in
    assert_eq!(find(&mut tree, 30), Err(StorageError::PoolExhausted));
    assert_eq!(find(&mut tree, 5), Err(StorageError::PoolExhausted));
    assert_eq!(tree.pin(tree.root()).err(), Some(StorageError::PoolExhausted));
    assert_eq!(tree.pager().pin_count(children[0]), 1);
    assert_eq!(tree.pager().pin_count(children[1]), 1);
    assert_eq!(tree.pager().resident_count(), 2);
    assert_eq!(tree.pager().data(a), Some(&page_a));
    assert_eq!(tree.pager().data(b), Some(&page_b));
    tree.unpin(b);
    // with one frame to work in the descent goes through
    assert_eq!(find(&mut tree, 30), Ok(30));
    assert_eq!(find(&mut tree, 5), Ok(5));
    assert_eq!(find(&mut tree, 8), Err(StorageError::NotFound));
    assert_eq!(tree.pager().pin_count(children[0]), 1);
    assert_eq!(tree.pager().data(a), Some(&page_a));
    page_a.clear();
    tree.unpin(a);
    assert_eq!(tree.pager().pin_count(children[0]), 0);
    assert!(tree.validate());
}

#[test]
fn find_reports_what_it_meets_on_its_way() {
    let mut tree = Btree::new(4, 10, 10);
    for k in [20u64, 5, 6, 12, 30, 7, 17] {
        assert_eq!(insert(&mut tree, k, k), Ok(()));
    }
    let root = tree.root();
    let children = match tree.root_node().unwrap() {
        Node::Inner(n) => n.children,
        Node::Leaf(_) => panic!("the root is a leaf"),
    };
    let mut pager = tree.into_pager();
    // the first leaf gets keys out of order, the last leaf's page is freed
    let bad = Node::Leaf(LeafNode {
        entries: vec![
            LeafNodeInterior { key: 6, value: 6 },
            LeafNodeInterior { key: 5, value: 5 },
        ],
        left_sibling: None,
        right_sibling: Some(children[1]),
    });
    assert_eq!(store_node(&mut pager, children[0], &bad), Ok(()));
    assert_eq!(pager.free(children[2]), Ok(()));
    let mut tree = Btree::attach(pager, root, 1, 4);
    assert_eq!(find(&mut tree, 5), Err(StorageError::CorruptNode));
    assert_eq!(find(&mut tree, 12), Ok(12));
    assert_eq!(find(&mut tree, 11), Err(StorageError::NotFound));
    assert_eq!(find(&mut tree, 30), Err(StorageError::PageNotFound));
    // a tree taken up with the wrong height meets a leaf where none belongs
    let mut tree = Btree::attach(tree.into_pager(), root, 2, 4);
    assert_eq!(find(&mut tree, 12), Err(StorageError::CorruptNode));
    let mut tree = Btree::attach(tree.into_pager(), root, 0, 4);
    assert_eq!(find(&mut tree, 12), Err(StorageError::CorruptNode));
    // a key outside the bounds of its place is not in order either
    let mut pager = tree.into_pager();
    let stray = Node::Leaf(LeafNode {
        entries: vec![LeafNodeInterior { key: 3, value: 3 }, LeafNodeInterior { key: 12, value: 12 }],
        left_sibling: Some(children[0]),
        right_sibling: Some(children[2]),
    });
    assert_eq!(store_node(&mut pager, children[1], &stray), Ok(()));
    let mut tree = Btree::attach(pager, root, 1, 4);
    assert_eq!(find(&mut tree, 12), Err(StorageError::CorruptNode));
}

fn leaf_of(keys: &[u64], left: Option<u64>, right: Option<u64>) -> Node {
    Node::Leaf(LeafNode {
        entries: keys.iter().map(|k| LeafNodeInterior { key: *k, value: *k * 10 }).collect(),
        left_sibling: left,
        right_sibling: right,
    })
}

#[test]
fn find_rejects_a_node_with_more_entries_than_the_fanout_admits() {
    let store = MemoryStore::new(4096, 16).unwrap();
    let mut pager = Pager::new(store, 4);
    let (root, handle) = pager.allocate().unwrap();
    pager.release(handle);
    let full = leaf_of(&[1, 2, 3, 4], None, None);
    assert_eq!(store_node(&mut pager, root, &full), Ok(()));
    // four entries are one too many for a fanout of 3 or 4
    let mut tree = Btree::attach(pager, root, 0, 3);
    assert_eq!(find(&mut tree, 2), Err(StorageError::CorruptNode));
    assert_eq!(find(&mut tree, 7), Err(StorageError::CorruptNode));
    let mut tree = Btree::attach(tree.into_pager(), root, 0, 4);
    assert_eq!(find(&mut tree, 2), Err(StorageError::CorruptNode));
    // the page is left as it was, and no handle is kept
    assert_eq!(tree.pager().pin_count(root), 0);
    let mut pager = tree.into_pager();
    assert_eq!(load_node(&mut pager, root), Ok(full));
    // the same page is a sound root for a fanout of 5
    let mut tree = Btree::attach(pager, root, 0, 5);
    assert_eq!(find(&mut tree, 2), Ok(20));
    assert_eq!(find(&mut tree, 7), Err(StorageError::NotFound));
    assert!(tree.validate());
}

#[test]
fn find_rejects_a_tree_written_for_a_larger_fanout() {
    let mut tree = Btree::new(6, 10, 10);
    for k in [20u64, 30, 40, 50, 60, 70, 80] {
        assert_eq!(insert(&mut tree, k, k), Ok(()));
    }
    assert_eq!(tree.height(), 1);
    assert!(tree.validate());
    let root = tree.root();
    let leaves = leaves_of(&mut tree);
    assert!(leaves.iter().any(|l| l.len() > 2));
    assert_eq!(find(&mut tree, 80), Ok(80));
    // taken up with a fanout of 3, a leaf may hold two entries
    let mut tree = Btree::attach(tree.into_pager(), root, 1, 3);
    let mut met = 0;
    for l in leaves.iter() {
        for k in l.iter() {
            let r = find(&mut tree, *k);
            if l.len() > 2 {
                assert_eq!(r, Err(StorageError::CorruptNode));
                met += 1;
            } else {
                assert_eq!(r, Ok(*k));
            }
        }
    }
    assert!(met > 0);
    assert!(!tree.validate());
}

#[test]
fn find_rejects_a_node_below_its_minimum() {
    let store = MemoryStore::new(4096, 16).unwrap();
    let mut pager = Pager::new(store, 4);
    let mut ids = Vec::new();
    for _ in 0..3 {
        let (id, handle) = pager.allocate().unwrap();
        pager.release(handle);
        ids.push(id);
    }
    let (a, b, top) = (ids[0], ids[1], ids[2]);
    // with a fanout of 4 a leaf below the root holds two entries or more
    assert_eq!(store_node(&mut pager, a, &leaf_of(&[1], None, Some(b))), Ok(()));
    assert_eq!(store_node(&mut pager, b, &leaf_of(&[5, 6, 7], Some(a), None)), Ok(()));
    let mut inner = InnerNode::new(a, 5, b);
    assert_eq!(store_node(&mut pager, top, &Node::Inner(inner.clone())), Ok(()));
    let mut tree = Btree::attach(pager, top, 1, 4);
    assert_eq!(find(&mut tree, 1), Err(StorageError::CorruptNode));
    assert_eq!(find(&mut tree, 6), Ok(60));
    assert!(!tree.validate());
    // a root with a single child is no root
    let mut pager = tree.into_pager();
    inner.keys.clear();
    inner.children.truncate(1);
    assert_eq!(store_node(&mut pager, top, &Node::Inner(inner)), Ok(()));
    let mut tree = Btree::attach(pager, top, 1, 4);
    assert_eq!(find(&mut tree, 1), Err(StorageError::CorruptNode));
    assert_eq!(find(&mut tree, 6), Err(StorageError::CorruptNode));
}

#[test]
fn tree_tells_when_its_pool_is_idle() {
    let mut tree = Btree::new(4, 10, 10);
    assert!(tree.is_idle());
    let handle = tree.pin(tree.root()).unwrap();
    assert!(!tree.is_idle());
    assert_eq!(find(&mut tree, 10), Ok(10));
    assert!(!tree.is_idle());
    tree.unpin(handle);
    assert!(tree.is_idle());
    assert!(tree.validate());
}

#[test]
fn find_holds_the_first_leaf_to_the_fanout_too() {
    // a fanout of 2 admits a leaf with one entry
    let mut tree = Btree::new(2, 1, 2);
    assert_eq!(find(&mut tree, 1), Ok(2));
    assert_eq!(find(&mut tree, 3), Err(StorageError::NotFound));
    // a fanout of 1 admits no entry at all
    let mut tree = Btree::new(1, 1, 2);
    assert_eq!(find(&mut tree, 1), Err(StorageError::CorruptNode));
    assert_eq!(find(&mut tree, 3), Err(StorageError::CorruptNode));
    assert!(!tree.validate());
}
