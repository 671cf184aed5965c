//! Insertion below the root: a key goes into its leaf, and a node that
//! overflows is split, handing a separator and a new page to its parent.

use vstd::prelude::*;
use crate::error::StorageError;
use crate::node::{
    InnerNode, InnerNodeInterior, Key, LeafNode, LeafNodeInterior, Node, NodeView, Value,
};
use crate::node_io::{alloc_page, idle, lemma_stored_shape, load_node, page_nodes, store_node};
use crate::node_ops::{child_index, entry_index, spec_split, split};
use crate::os_interface::PageId;
use crate::pager::Pager;
use crate::tree_spec::{
    child_min, first_leaf, frame_ok, has_key, last_leaf, leaf_get, lemma_acyclic,
    lemma_install_split, lemma_install_whole, lemma_leaf_ends, lemma_leaf_get_at, lemma_rank,
    lemma_right_ok_down, lemma_route, lemma_route_is, lemma_sibling_kept, linked, links_ok, lookup,
    lower, min_fill, node_post, Nodes, owns, rank, relink_left, right_ok, route, sorted_entries,
    sorted_keys, sub_wf, upper, vnode_ok, vowns, vstate,
};

verus! {

/// What a descent finds once `key` has been given `value`.
pub open spec fn expected(m: Nodes, id: PageId, h: nat, key: Key, value: Value, k: Key) -> Option<
    Value,
> {
    if k == key {
        Some(value)
    } else {
        lookup(m, id, h, k)
    }
}

/// Whether the insertion of a new key makes the node at `id` split: a
/// leaf splits when it is full, and an internal node when it is full and
/// the child that covers the key splits.
pub open spec fn splits(m: Nodes, id: PageId, h: nat, f: int, key: Key) -> bool
    decreases h,
{
    m.dom().contains(id) && match m[id] {
        NodeView::Leaf { entries, left, right } => h == 0 && entries.len() + 1 >= f,
        NodeView::Inner { keys, children } => h > 0 && children.len() >= f && splits(
            m,
            children[route(keys, key)],
            (h - 1) as nat,
            f,
            key,
        ),
    }
}

/// The number of pages that the insertion of a new key takes below and at
/// the node at `id`: one for every node that splits.
pub open spec fn pages_needed(m: Nodes, id: PageId, h: nat, f: int, key: Key) -> nat
    decreases h,
{
    if splits(m, id, h, f, key) {
        match m[id] {
            NodeView::Leaf { entries, left, right } => 1,
            NodeView::Inner { keys, children } => 1 + pages_needed(
                m,
                children[route(keys, key)],
                (h - 1) as nat,
                f,
                key,
            ),
        }
    } else if h > 0 && m.dom().contains(id) && m[id] is Inner {
        pages_needed(m, m[id]->children[route(m[id]->keys, key)], (h - 1) as nat, f, key)
    } else {
        0
    }
}

/// No more nodes split than the subtree has levels.
pub proof fn lemma_pages_needed_bound(m: Nodes, id: PageId, h: nat, f: int, key: Key)
    ensures
        pages_needed(m, id, h, f, key) <= h + 1,
        splits(m, id, h, f, key) ==> pages_needed(m, id, h, f, key) >= 1,
    decreases h,
{
    if h > 0 && m.dom().contains(id) && m[id] is Inner {
        lemma_pages_needed_bound(m, m[id]->children[route(m[id]->keys, key)], (h - 1) as nat, f, key);
    }
}

/// The leaf with one more entry at its place.
pub open spec fn leaf_with(n: NodeView, key: Key, value: Value) -> NodeView {
    NodeView::Leaf {
        entries: n->entries.insert(rank(n->entries, key), LeafNodeInterior { key, value }),
        left: n->left,
        right: n->right,
    }
}

/// The page that a split took: the page of the new sibling.
pub open spec fn new_page_of(out: Option<InnerNodeInterior>) -> PageId {
    match out {
        Some(pair) => pair.child,
        None => 0,
    }
}

/// The nodes once the leaf in page `id` has taken in a new key, and what
/// goes up to the parent. A leaf that has room keeps all its entries.
/// A full leaf splits: the first half of the entries, rounded up, stays,
/// the rest goes to the page `new`, the two are linked to each other, the
/// old right neighbour gets the new leaf as its left sibling, and the
/// first key of the new leaf goes up with the page `new`.
pub open spec fn leaf_inserted(m: Nodes, id: PageId, f: int, key: Key, value: Value, new: PageId) -> (
    Nodes,
    Option<InnerNodeInterior>,
) {
    let whole = leaf_with(m[id], key, value);
    if whole->entries.len() < f {
        (m.insert(id, whole), None)
    } else {
        let t = spec_split(whole, id, new)->Some_0;
        let m1 = m.insert(id, t.0).insert(new, t.2);
        (
            if m[id]->right is Some {
                m1.insert(m[id]->right->Some_0, relink_left(m[m[id]->right->Some_0], Some(new)))
            } else {
                m1
            },
            Some(t.1),
        )
    }
}

/// The nodes once the internal node in page `id` has been given the keys
/// and children that it is to hold, and what goes up to the parent. With
/// no more children than the fanout the node holds them all. Else it
/// splits: the first half of the children, rounded up, stays, the rest
/// goes to the page `new`, and the key between the two goes up with the
/// page `new`.
pub open spec fn inner_installed(
    m: Nodes,
    id: PageId,
    f: int,
    keys: Seq<Key>,
    children: Seq<PageId>,
    new: PageId,
) -> (Nodes, Option<InnerNodeInterior>) {
    let whole = NodeView::Inner { keys, children };
    if children.len() <= f {
        (m.insert(id, whole), None)
    } else {
        let t = spec_split(whole, id, new)->Some_0;
        (m.insert(id, t.0).insert(new, t.2), Some(t.1))
    }
}

/// The nodes once a new key has been inserted into the subtree at `id`,
/// and what goes up to the parent of `id`. The pages for the nodes that
/// split are taken from `fresh`, the deepest node first.
pub open spec fn ins_nodes(
    m: Nodes,
    id: PageId,
    h: nat,
    f: int,
    key: Key,
    value: Value,
    fresh: Seq<PageId>,
) -> (Nodes, Option<InnerNodeInterior>)
    decreases h,
{
    match m[id] {
        NodeView::Leaf { entries, left, right } => leaf_inserted(m, id, f, key, value, fresh[0]),
        NodeView::Inner { keys, children } => if h == 0 {
            (m, None)
        } else {
            let i = route(keys, key);
            let n = pages_needed(m, children[i], (h - 1) as nat, f, key);
            let t = ins_nodes(m, children[i], (h - 1) as nat, f, key, value, fresh.subrange(0, n as int));
            match t.1 {
                None => t,
                Some(pair) => inner_installed(
                    t.0,
                    id,
                    f,
                    keys.insert(i, pair.key),
                    children.insert(i + 1, pair.child),
                    fresh[n as int],
                ),
            }
        },
    }
}

/// The pages are `n` pages that were not in use, none of them page 0, and
/// the first of them is the page `next`.
pub open spec fn fresh_pages(fresh: Seq<PageId>, a: Set<PageId>, n: nat, next: PageId) -> bool {
    &&& fresh.len() == n
    &&& forall|i: int| 0 <= i < n ==> !a.contains(#[trigger] fresh[i]) && fresh[i] != 0
    &&& (n > 0 ==> fresh[0] == next)
}

/// The nodes are what the insertion of a new key into the subtree at `id`
/// makes of them, with some pages that were not in use for the nodes that
/// split.
#[verifier::opaque]
pub open spec fn inserted_as(
    m: Nodes,
    m2: Nodes,
    a: Set<PageId>,
    next: PageId,
    id: PageId,
    h: nat,
    f: int,
    key: Key,
    value: Value,
    out: Option<InnerNodeInterior>,
) -> bool {
    exists|fresh: Seq<PageId>|
        #![trigger ins_nodes(m, id, h, f, key, value, fresh)]
        fresh_pages(fresh, a, pages_needed(m, id, h, f, key), next) && ins_nodes(
            m,
            id,
            h,
            f,
            key,
            value,
            fresh,
        ) == (m2, out)
}

/// What insertion into the subtree at `id` starts from.
pub open spec fn ins_pre(m: Nodes, id: PageId, h: nat, lo: int, hi: int, f: int, min: int, key: Key) -> bool {
    &&& f >= 3
    &&& sub_wf(m, id, h, lo, hi, f, min)
    &&& (h > 0 ==> min >= 2)
    &&& links_ok(m, id, h)
    &&& right_ok(m, id, h)
    &&& lo <= key < hi
    &&& lookup(m, id, h, key) is None
}

/// What insertion into the subtree at `id` leaves behind. `a` holds the
/// pages that were allocated before; `out` is the separator and the new
/// page that go to the parent when the node at `id` was split.
pub open spec fn ins_post(
    m: Nodes,
    m2: Nodes,
    a: Set<PageId>,
    id: PageId,
    h: nat,
    lo: int,
    hi: int,
    f: int,
    min: int,
    key: Key,
    value: Value,
    out: Option<InnerNodeInterior>,
) -> bool {
    let top = match out {
        Some(pair) => pair.child,
        None => id,
    };
    let r = m[last_leaf(m, id, h)]->right;
    &&& frame_ok(m, m2, id, h, last_leaf(m2, top, h))
    &&& forall|p: PageId|
        #![trigger m2.dom().contains(p)]
        m2.dom().contains(p) ==> m.dom().contains(p) || !a.contains(p)
    &&& forall|p: PageId|
        #![trigger owns(m2, id, h, p)]
        owns(m2, id, h, p) ==> owns(m, id, h, p) || !a.contains(p)
    &&& first_leaf(m2, id, h) == first_leaf(m, id, h)
    &&& m2[first_leaf(m2, id, h)]->left == m[first_leaf(m, id, h)]->left
    &&& m2[last_leaf(m2, top, h)]->right == r
    &&& (out is Some) == splits(m, id, h, f, key)
    &&& (h == 0 && out is Some ==> spec_split(leaf_with(m[id], key, value), id, out->Some_0.child)
        == Some((m2[id], out->Some_0, m2[out->Some_0.child])))
    &&& match out {
        None => {
            &&& sub_wf(m2, id, h, lo, hi, f, min)
            &&& links_ok(m2, id, h)
            &&& forall|k: Key|
                #![trigger lookup(m2, id, h, k)]
                lookup(m2, id, h, k) == expected(m, id, h, key, value, k)
        },
        Some(pair) => {
            &&& lo < pair.key < hi
            &&& pair.child != 0
            &&& !a.contains(pair.child)
            &&& sub_wf(m2, id, h, lo, pair.key as int, f, min_fill(f, h))
            &&& sub_wf(m2, pair.child, h, pair.key as int, hi, f, min_fill(f, h))
            &&& links_ok(m2, id, h)
            &&& links_ok(m2, pair.child, h)
            &&& linked(m2, last_leaf(m2, id, h), first_leaf(m2, pair.child, h))
            &&& forall|p: PageId|
                #![trigger owns(m2, pair.child, h, p)]
                owns(m2, pair.child, h, p) ==> owns(m, id, h, p) || !a.contains(p)
            &&& forall|k: Key|
                #![trigger lookup(m2, id, h, k)]
                k < pair.key ==> lookup(m2, id, h, k) == expected(m, id, h, key, value, k)
            &&& forall|k: Key|
                #![trigger lookup(m2, pair.child, h, k)]
                k >= pair.key ==> lookup(m2, pair.child, h, k) == expected(m, id, h, key, value, k)
        },
    }
}

/// Putting a new key at its rank keeps a leaf sorted and in range, and
/// changes what the leaf holds for that key only.
pub(crate) proof fn lemma_entries_insert(entries: Seq<LeafNodeInterior>, key: Key, value: Value, lo: int, hi: int)
    requires
        sorted_entries(entries),
        !has_key(entries, key),
        forall|i: int| 0 <= i < entries.len() ==> lo <= (#[trigger] entries[i]).key < hi,
        lo <= key < hi,
    ensures
        sorted_entries(entries.insert(rank(entries, key), LeafNodeInterior { key, value })),
        forall|i: int|
            0 <= i < entries.len() + 1 ==> lo <= (#[trigger] entries.insert(
                rank(entries, key),
                LeafNodeInterior { key, value },
            )[i]).key < hi,
        forall|k: Key|
            #![trigger leaf_get(entries.insert(rank(entries, key), LeafNodeInterior { key, value }), k)]
            leaf_get(entries.insert(rank(entries, key), LeafNodeInterior { key, value }), k) == if k
                == key {
                Some(value)
            } else {
                leaf_get(entries, k)
            },
{
    let pos = rank(entries, key);
    let e2 = entries.insert(pos, LeafNodeInterior { key, value });
    lemma_rank(entries, key);
    if pos < entries.len() {
        assert(entries[pos].key != key);
    }
    assert forall|i: int, j: int| 0 <= i < j < e2.len() implies e2[i].key < e2[j].key by {
        if i < pos && j > pos {
            assert(entries[i].key <= entries[pos - 1].key);
            if j - 1 > pos {
                assert(entries[pos].key < entries[j - 1].key);
            }
        } else if i == pos {
            if j - 1 > pos {
                assert(entries[pos].key < entries[j - 1].key);
            }
        } else if j == pos {
            if i < pos - 1 {
                assert(entries[i].key < entries[pos - 1].key);
            }
        } else if j < pos {
            assert(entries[i].key < entries[j].key);
        } else {
            assert(entries[i - 1].key < entries[j - 1].key);
        }
    }
    assert forall|i: int| 0 <= i < entries.len() + 1 implies lo <= (#[trigger] e2[i]).key < hi by {
        if i < pos {
            assert(e2[i] == entries[i]);
        } else if i > pos {
            assert(e2[i] == entries[i - 1]);
        }
    }
    assert forall|k: Key| #![trigger leaf_get(e2, k)] leaf_get(e2, k) == if k == key {
        Some(value)
    } else {
        leaf_get(entries, k)
    } by {
        if k == key {
            assert(e2[pos].key == key);
            lemma_leaf_get_at(e2, pos);
        } else if has_key(entries, k) {
            let j = choose|j: int| 0 <= j < entries.len() && (#[trigger] entries[j]).key == k;
            lemma_leaf_get_at(entries, j);
            let j2 = if j < pos {
                j
            } else {
                j + 1
            };
            assert(e2[j2] == entries[j]);
            lemma_leaf_get_at(e2, j2);
        } else if has_key(e2, k) {
            let j2 = choose|j: int| 0 <= j < e2.len() && (#[trigger] e2[j]).key == k;
            let j = if j2 < pos {
                j2
            } else {
                j2 - 1
            };
            assert(entries[j] == e2[j2]);
        }
    }
}

/// Cutting a sorted leaf at `c` leaves each key on its side of the key at
/// `c`, with its value.
pub(crate) proof fn lemma_entries_cut(entries: Seq<LeafNodeInterior>, c: int)
    requires
        sorted_entries(entries),
        0 < c < entries.len(),
    ensures
        sorted_entries(entries.subrange(0, c)),
        sorted_entries(entries.subrange(c, entries.len() as int)),
        forall|k: Key|
            #![trigger leaf_get(entries.subrange(0, c), k)]
            k < entries[c].key ==> leaf_get(entries.subrange(0, c), k) == leaf_get(entries, k),
        forall|k: Key|
            #![trigger leaf_get(entries.subrange(c, entries.len() as int), k)]
            k >= entries[c].key ==> leaf_get(entries.subrange(c, entries.len() as int), k)
                == leaf_get(entries, k),
{
    let a = entries.subrange(0, c);
    let b = entries.subrange(c, entries.len() as int);
    assert forall|k: Key| #![trigger leaf_get(a, k)] k < entries[c].key implies leaf_get(a, k)
        == leaf_get(entries, k) by {
        if has_key(entries, k) {
            let j = choose|j: int| 0 <= j < entries.len() && (#[trigger] entries[j]).key == k;
            if j >= c {
                assert(entries[c].key <= entries[j].key);
            }
            assert(a[j] == entries[j]);
            lemma_leaf_get_at(entries, j);
            lemma_leaf_get_at(a, j);
        } else if has_key(a, k) {
            let j = choose|j: int| 0 <= j < a.len() && (#[trigger] a[j]).key == k;
            assert(entries[j] == a[j]);
        }
    }
    assert forall|k: Key| #![trigger leaf_get(b, k)] k >= entries[c].key implies leaf_get(b, k)
        == leaf_get(entries, k) by {
        if has_key(entries, k) {
            let j = choose|j: int| 0 <= j < entries.len() && (#[trigger] entries[j]).key == k;
            if j < c {
                assert(entries[j].key < entries[c].key);
            }
            assert(b[j - c] == entries[j]);
            lemma_leaf_get_at(entries, j);
            lemma_leaf_get_at(b, j - c);
        } else if has_key(b, k) {
            let j = choose|j: int| 0 <= j < b.len() && (#[trigger] b[j]).key == k;
            assert(entries[j + c] == b[j]);
        }
    }
}

/// Makes `left` the left sibling of the leaf in page `id`.
pub(crate) fn set_left_sibling(pager: &mut Pager, id: PageId, left: Option<PageId>) -> (r: Result<
    (),
    StorageError,
>)
    requires
        idle(old(pager)),
        page_nodes(old(pager)).dom().contains(id),
        page_nodes(old(pager))[id] is Leaf,
        left != Some(0u64),
    ensures
        idle(final(pager)),
        r is Ok,
        final(pager).allocated() == old(pager).allocated(),
        final(pager).spare() == old(pager).spare(),
        final(pager).spec_capacity() == old(pager).spec_capacity(),
        final(pager).spec_page_size() == old(pager).spec_page_size(),
        page_nodes(final(pager)) == page_nodes(old(pager)).insert(
            id,
            relink_left(page_nodes(old(pager))[id], left),
        ),
{
    let node = match load_node(pager, id) {
        Ok(n) => n,
        Err(e) => {
            return Err(e);
        },
    };
    match node {
        Node::Leaf(mut leaf) => {
            leaf.left_sibling = left;
            store_node(pager, id, &Node::Leaf(leaf))
        },
        Node::Inner(_) => Err(StorageError::CorruptNode),
    }
}

/// Inserts into the leaf of page `id`, splitting it when it overflows.
pub(crate) fn insert_into_leaf(
    pager: &mut Pager,
    f: u64,
    id: PageId,
    leaf: LeafNode,
    key: Key,
    value: Value,
    Ghost(lo): Ghost<int>,
    Ghost(hi): Ghost<int>,
    Ghost(min): Ghost<int>,
) -> (r: Result<Option<InnerNodeInterior>, StorageError>)
    requires
        idle(old(pager)),
        crate::btree::valid_fanout(f as int, old(pager).spec_page_size() as int),
        ins_pre(page_nodes(old(pager)), id, 0, lo, hi, f as int, min, key),
        leaf@ == page_nodes(old(pager))[id],
        old(pager).spare() >= pages_needed(page_nodes(old(pager)), id, 0, f as int, key),
    ensures
        idle(final(pager)),
        r is Ok,
        final(pager).spec_capacity() == old(pager).spec_capacity(),
        final(pager).spec_page_size() == old(pager).spec_page_size(),
        old(pager).allocated().subset_of(final(pager).allocated()),
        final(pager).spare() == old(pager).spare() - pages_needed(
            page_nodes(old(pager)),
            id,
            0,
            f as int,
            key,
        ),
        (page_nodes(final(pager)), r->Ok_0) == leaf_inserted(
            page_nodes(old(pager)),
            id,
            f as int,
            key,
            value,
            new_page_of(r->Ok_0),
        ),
        r->Ok_0 is Some ==> r->Ok_0->Some_0.child == old(pager).next_id(),
        ins_post(
            page_nodes(old(pager)),
            page_nodes(final(pager)),
            old(pager).allocated(),
            id,
            0,
            lo,
            hi,
            f as int,
            min,
            key,
            value,
            r->Ok_0,
        ),
{
    let ghost m = page_nodes(pager);
    let ghost entries = leaf.entries@;
    let ghost e2 = entries.insert(rank(entries, key), LeafNodeInterior { key, value });
    let mut leaf = leaf;
    proof {
        lemma_stored_shape(pager, id);
        lemma_entries_insert(entries, key, value, lo, hi);
        let r = m[id]->right;
        if r is Some {
            let rid = r->Some_0;
            assert(m[rid]->left == Some(id));
            assert(relink_left(m[rid], Some(id)) == m[rid]);
        }
    }
    let pos = entry_index(&leaf.entries, key);
    leaf.entries.insert(pos, LeafNodeInterior { key, value });
    if (leaf.entries.len() as u64) < f {
        let node = Node::Leaf(leaf);
        match store_node(pager, id, &node) {
            Ok(()) => {},
            Err(e) => {
                return Err(e);
            },
        }
        proof {
            let m2 = page_nodes(pager);
            assert(m2 == m.insert(id, node@));
            assert forall|k: Key| #![trigger lookup(m2, id, 0, k)] lookup(m2, id, 0, k) == expected(
                m,
                id,
                0,
                key,
                value,
                k,
            ) by {
                assert(leaf_get(e2, k) == if k == key {
                    Some(value)
                } else {
                    leaf_get(entries, k)
                });
            }
        }
        Ok(None)
    } else {
        let old_right = leaf.right_sibling;
        let new_id = match alloc_page(pager) {
            Ok(p) => p,
            Err(e) => {
                return Err(e);
            },
        };
        let node = Node::Leaf(leaf);
        let ghost whole = node@;
        let (left, pair, right) = match split(node, id, new_id) {
            Some(parts) => parts,
            None => {
                return Err(StorageError::CorruptNode);
            },
        };
        let ghost c = (e2.len() as int + 1) / 2;
        proof {
            lemma_entries_cut(e2, c);
            assert(spec_split(whole, id, new_id) is Some);
        }
        match store_node(pager, id, &left) {
            Ok(()) => {},
            Err(e) => {
                return Err(e);
            },
        }
        match store_node(pager, new_id, &right) {
            Ok(()) => {},
            Err(e) => {
                return Err(e);
            },
        }
        let ghost m1 = page_nodes(pager);
        match old_right {
            Some(rid) => {
                match set_left_sibling(pager, rid, Some(new_id)) {
                    Ok(()) => {},
                    Err(e) => {
                        return Err(e);
                    },
                }
            },
            None => {},
        }
        proof {
            let m2 = page_nodes(pager);
            let fi = f as int;
            assert(m1 == m.insert(id, left@).insert(new_id, right@));
            assert(m2[id] == left@);
            assert(m2[new_id] == right@);
            assert(pair.key == e2[c].key);
            assert(lo <= e2[0].key < e2[c].key);
            assert(e2[c].key < hi);
            assert forall|i: int| 0 <= i < c implies lo <= (#[trigger] e2.subrange(0, c)[i]).key
                < pair.key by {
                assert(e2[i].key < e2[c].key);
                assert(lo <= e2[i].key);
            }
            assert forall|i: int| 0 <= i < e2.len() - c implies pair.key <= (#[trigger] e2.subrange(
                c,
                e2.len() as int,
            )[i]).key < hi by {
                if i > 0 {
                    assert(e2[c].key < e2[c + i].key);
                }
                assert(e2[c + i].key < hi);
            }
            assert(sub_wf(m2, id, 0, lo, pair.key as int, fi, min_fill(fi, 0)));
            assert(sub_wf(m2, new_id, 0, pair.key as int, hi, fi, min_fill(fi, 0)));
            assert forall|k: Key| #![trigger lookup(m2, id, 0, k)] k < pair.key implies lookup(
                m2,
                id,
                0,
                k,
            ) == expected(m, id, 0, key, value, k) by {
                assert(leaf_get(e2.subrange(0, c), k) == leaf_get(e2, k));
                assert(leaf_get(e2, k) == if k == key {
                    Some(value)
                } else {
                    leaf_get(entries, k)
                });
            }
            assert forall|k: Key|
                #![trigger lookup(m2, new_id, 0, k)]
                k >= pair.key implies lookup(m2, new_id, 0, k) == expected(
                m,
                id,
                0,
                key,
                value,
                k,
            ) by {
                assert(leaf_get(e2.subrange(c, e2.len() as int), k) == leaf_get(e2, k));
                assert(leaf_get(e2, k) == if k == key {
                    Some(value)
                } else {
                    leaf_get(entries, k)
                });
            }
        }
        Ok(Some(pair))
    }
}

/// The keys of the node at `id` once child `route(keys, key)` has handed
/// up `out`.
pub open spec fn keys_after(m: Nodes, id: PageId, key: Key, out: Option<InnerNodeInterior>) -> Seq<Key> {
    match out {
        Some(pair) => m[id]->keys.insert(route(m[id]->keys, key), pair.key),
        None => m[id]->keys,
    }
}

/// The children of the node at `id` once child `route(keys, key)` has
/// handed up `out`.
pub open spec fn children_after(m: Nodes, id: PageId, key: Key, out: Option<InnerNodeInterior>) -> Seq<
    PageId,
> {
    match out {
        Some(pair) => m[id]->children.insert(route(m[id]->keys, key) + 1, pair.child),
        None => m[id]->children,
    }
}

/// Insertion into the subtree at `id` has come back from the child that
/// covers the key.
pub open spec fn ins_mid(
    m: Nodes,
    m2: Nodes,
    a: Set<PageId>,
    id: PageId,
    h: nat,
    lo: int,
    hi: int,
    f: int,
    min: int,
    key: Key,
    value: Value,
    out: Option<InnerNodeInterior>,
) -> bool {
    let keys = m[id]->keys;
    let i = route(keys, key);
    &&& h > 0
    &&& ins_pre(m, id, h, lo, hi, f, min, key)
    &&& forall|p: PageId| #![trigger m.dom().contains(p)] m.dom().contains(p) ==> a.contains(p)
    &&& ins_post(
        m,
        m2,
        a,
        m[id]->children[i],
        (h - 1) as nat,
        lower(keys, i, lo),
        upper(keys, i, hi),
        f,
        min_fill(f, (h - 1) as nat),
        key,
        value,
        out,
    )
}

/// Insertion can go on into the child that covers the key.
pub(crate) proof fn lemma_ins_down(m: Nodes, id: PageId, h: nat, lo: int, hi: int, f: int, min: int, key: Key)
    requires
        h > 0,
        ins_pre(m, id, h, lo, hi, f, min, key),
    ensures
        0 <= route(m[id]->keys, key) < m[id]->children.len(),
        ins_pre(
            m,
            m[id]->children[route(m[id]->keys, key)],
            (h - 1) as nat,
            lower(m[id]->keys, route(m[id]->keys, key), lo),
            upper(m[id]->keys, route(m[id]->keys, key), hi),
            f,
            min_fill(f, (h - 1) as nat),
            key,
        ),
{
    let keys = m[id]->keys;
    let i = route(keys, key);
    lemma_route(keys, key);
    lemma_right_ok_down(m, id, h, lo, hi, f, min, i);
    assert(links_ok(m, m[id]->children[i], (h - 1) as nat));
}

/// The keys that the node is to have are sorted and within the node's
/// range.
pub(crate) proof fn lemma_ins_keys(
    m: Nodes,
    m2: Nodes,
    a: Set<PageId>,
    id: PageId,
    h: nat,
    lo: int,
    hi: int,
    f: int,
    min: int,
    key: Key,
    value: Value,
    out: Option<InnerNodeInterior>,
)
    requires
        ins_mid(m, m2, a, id, h, lo, hi, f, min, key, value, out),
    ensures
        sorted_keys(keys_after(m, id, key, out)),
        children_after(m, id, key, out).len() == keys_after(m, id, key, out).len() + 1,
        forall|x: int|
            0 <= x < keys_after(m, id, key, out).len() ==> lo < #[trigger] keys_after(
                m,
                id,
                key,
                out,
            )[x] < hi,
{
    let keys = m[id]->keys;
    let i = route(keys, key);
    let k2 = keys_after(m, id, key, out);
    lemma_route(keys, key);
    if out is Some {
        let pair = out->Some_0;
        assert forall|x: int, y: int| 0 <= x < y < k2.len() implies k2[x] < k2[y] by {
            if x == i {
                assert(k2[y] == keys[y - 1]);
                if y - 1 > i {
                    assert(keys[i] < keys[y - 1]);
                }
            } else if y == i {
                assert(k2[x] == keys[x]);
                if x < i - 1 {
                    assert(keys[x] < keys[i - 1]);
                }
            } else {
                let ox = if x < i {
                    x
                } else {
                    x - 1
                };
                let oy = if y < i {
                    y
                } else {
                    y - 1
                };
                assert(keys[ox] < keys[oy]);
            }
        }
        assert forall|x: int| 0 <= x < k2.len() implies lo < #[trigger] k2[x] < hi by {
            if x < i {
                assert(k2[x] == keys[x]);
            } else if x > i {
                assert(k2[x] == keys[x - 1]);
            } else {
                if i > 0 {
                    assert(lo < keys[i - 1]);
                }
                if i < keys.len() {
                    assert(keys[i] < hi);
                }
            }
        }
    }
}

/// The child at position `x` of what the node is to hold, as it relates
/// to the children that the node had: `Some(j)` when it is old child `j`,
/// other than the child that was entered.
pub open spec fn old_index(i: int, split: bool, x: int) -> Option<int> {
    if x < i {
        Some(x)
    } else if x == i || (split && x == i + 1) {
        None
    } else if split {
        Some(x - 1)
    } else {
        Some(x)
    }
}

/// Once the child is done, each child that the node is to have is well
/// formed within its bounds.
pub(crate) proof fn lemma_ins_kid(
    m: Nodes,
    m2: Nodes,
    a: Set<PageId>,
    id: PageId,
    h: nat,
    lo: int,
    hi: int,
    f: int,
    min: int,
    key: Key,
    value: Value,
    out: Option<InnerNodeInterior>,
    x: int,
)
    requires
        ins_mid(m, m2, a, id, h, lo, hi, f, min, key, value, out),
        0 <= x < children_after(m, id, key, out).len(),
    ensures
        sub_wf(
            m2,
            children_after(m, id, key, out)[x],
            (h - 1) as nat,
            lower(keys_after(m, id, key, out), x, lo),
            upper(keys_after(m, id, key, out), x, hi),
            f,
            min_fill(f, (h - 1) as nat),
        ),
        links_ok(m2, children_after(m, id, key, out)[x], (h - 1) as nat),
        m2.dom().contains(first_leaf(m2, children_after(m, id, key, out)[x], (h - 1) as nat)),
        m2.dom().contains(last_leaf(m2, children_after(m, id, key, out)[x], (h - 1) as nat)),
        m2[first_leaf(m2, children_after(m, id, key, out)[x], (h - 1) as nat)] is Leaf,
        m2[last_leaf(m2, children_after(m, id, key, out)[x], (h - 1) as nat)] is Leaf,
{
    let keys = m[id]->keys;
    let children = m[id]->children;
    let i = route(keys, key);
    let h1 = (h - 1) as nat;
    let k2 = keys_after(m, id, key, out);
    let c2 = children_after(m, id, key, out);
    let ci = children[i];
    let top = match out {
        Some(pair) => pair.child,
        None => ci,
    };
    let lt = last_leaf(m2, top, h1);
    lemma_route(keys, key);
    match old_index(i, out is Some, x) {
        Some(j) => {
            assert(c2[x] == children[j]);
            lemma_sibling_kept(m, m2, id, h, lo, hi, f, min, i, j, lt);
            assert(lower(k2, x, lo) == lower(keys, j, lo));
            assert(upper(k2, x, hi) == upper(keys, j, hi));
        },
        None => {
            if x == i {
                assert(c2[x] == ci);
                assert(lower(k2, x, lo) == lower(keys, i, lo));
            }
        },
    }
    lemma_leaf_ends(m2, c2[x], h1, lower(k2, x, lo), upper(k2, x, hi), f, min_fill(f, h1));
}

/// Once the child is done, the leaf chain runs from each child that the
/// node is to have into the next.
pub(crate) proof fn lemma_ins_link(
    m: Nodes,
    m2: Nodes,
    a: Set<PageId>,
    id: PageId,
    h: nat,
    lo: int,
    hi: int,
    f: int,
    min: int,
    key: Key,
    value: Value,
    out: Option<InnerNodeInterior>,
    x: int,
)
    requires
        ins_mid(m, m2, a, id, h, lo, hi, f, min, key, value, out),
        0 <= x,
        x + 1 < children_after(m, id, key, out).len(),
    ensures
        linked(
            m2,
            last_leaf(m2, children_after(m, id, key, out)[x], (h - 1) as nat),
            first_leaf(m2, children_after(m, id, key, out)[x + 1], (h - 1) as nat),
        ),
{
    let keys = m[id]->keys;
    let children = m[id]->children;
    let i = route(keys, key);
    let h1 = (h - 1) as nat;
    let c2 = children_after(m, id, key, out);
    let ci = children[i];
    let top = match out {
        Some(pair) => pair.child,
        None => ci,
    };
    let lt = last_leaf(m2, top, h1);
    let y = x + 1;
    lemma_route(keys, key);
    lemma_right_ok_down(m, id, h, lo, hi, f, min, i);
    lemma_ins_kid(m, m2, a, id, h, lo, hi, f, min, key, value, out, x);
    lemma_ins_kid(m, m2, a, id, h, lo, hi, f, min, key, value, out, y);
    match (old_index(i, out is Some, x), old_index(i, out is Some, y)) {
        (Some(ox), Some(oy)) => {
            assert(c2[x] == children[ox]);
            assert(c2[y] == children[oy]);
            assert(linked(m, last_leaf(m, children[ox], h1), first_leaf(m, children[oy], h1)));
            lemma_sibling_kept(m, m2, id, h, lo, hi, f, min, i, ox, lt);
            lemma_sibling_kept(m, m2, id, h, lo, hi, f, min, i, oy, lt);
        },
        (Some(ox), None) => {
            assert(y == i);
            assert(c2[x] == children[ox]);
            assert(c2[y] == ci);
            assert(linked(m, last_leaf(m, children[ox], h1), first_leaf(m, children[i], h1)));
            lemma_sibling_kept(m, m2, id, h, lo, hi, f, min, i, ox, lt);
        },
        (None, Some(oy)) => {
            assert(c2[x] == top);
            assert(c2[y] == children[oy]);
            assert(oy == i + 1);
            lemma_sibling_kept(m, m2, id, h, lo, hi, f, min, i, oy, lt);
        },
        (None, None) => {
            assert(x == i && out is Some);
            assert(c2[x] == ci);
            assert(c2[y] == out->Some_0.child);
        },
    }
}

/// Once the child is done, what the node is to hold would make a
/// well-formed node.
pub(crate) proof fn lemma_ins_kids(
    m: Nodes,
    m2: Nodes,
    a: Set<PageId>,
    id: PageId,
    h: nat,
    lo: int,
    hi: int,
    f: int,
    min: int,
    key: Key,
    value: Value,
    out: Option<InnerNodeInterior>,
)
    requires
        ins_mid(m, m2, a, id, h, lo, hi, f, min, key, value, out),
    ensures
        vnode_ok(
            m2,
            keys_after(m, id, key, out),
            children_after(m, id, key, out),
            (h - 1) as nat,
            lo,
            hi,
            f,
            -1,
        ),
{
    let h1 = (h - 1) as nat;
    let k2 = keys_after(m, id, key, out);
    let c2 = children_after(m, id, key, out);
    lemma_ins_keys(m, m2, a, id, h, lo, hi, f, min, key, value, out);
    assert forall|x: int| 0 <= x < c2.len() implies sub_wf(
        m2,
        #[trigger] c2[x],
        h1,
        lower(k2, x, lo),
        upper(k2, x, hi),
        f,
        child_min(f, h1, x, -1),
    ) by {
        lemma_ins_kid(m, m2, a, id, h, lo, hi, f, min, key, value, out, x);
    }
    assert forall|x: int| 0 <= x < c2.len() implies links_ok(m2, #[trigger] c2[x], h1) by {
        lemma_ins_kid(m, m2, a, id, h, lo, hi, f, min, key, value, out, x);
    }
    assert forall|x: int, y: int| 0 <= x && y == x + 1 && y < c2.len() implies linked(
        m2,
        last_leaf(m2, #[trigger] c2[x], h1),
        first_leaf(m2, #[trigger] c2[y], h1),
    ) by {
        lemma_ins_link(m, m2, a, id, h, lo, hi, f, min, key, value, out, x);
    }
}

/// Once the child is done, a descent through what the node is to hold
/// finds every key with its value, and the new key with the new value.
pub(crate) proof fn lemma_ins_route(
    m: Nodes,
    m2: Nodes,
    a: Set<PageId>,
    id: PageId,
    h: nat,
    lo: int,
    hi: int,
    f: int,
    min: int,
    key: Key,
    value: Value,
    out: Option<InnerNodeInterior>,
    k: Key,
)
    requires
        ins_mid(m, m2, a, id, h, lo, hi, f, min, key, value, out),
    ensures
        0 <= route(keys_after(m, id, key, out), k) < children_after(m, id, key, out).len(),
        lookup(
            m2,
            children_after(m, id, key, out)[route(keys_after(m, id, key, out), k)],
            (h - 1) as nat,
            k,
        ) == expected(m, id, h, key, value, k),
{
    let keys = m[id]->keys;
    let children = m[id]->children;
    let i = route(keys, key);
    let h1 = (h - 1) as nat;
    let k2 = keys_after(m, id, key, out);
    let c2 = children_after(m, id, key, out);
    let ci = children[i];
    let top = match out {
        Some(pair) => pair.child,
        None => ci,
    };
    let lt = last_leaf(m2, top, h1);
    lemma_route(keys, key);
    lemma_route(keys, k);
    lemma_ins_keys(m, m2, a, id, h, lo, hi, f, min, key, value, out);
    let j = route(keys, k);
    let x = if out is Some && (j > i || (j == i && k >= out->Some_0.key)) {
        j + 1
    } else {
        j
    };
    if out is Some {
        if x > 0 && x - 1 != i {
            assert(k2[x - 1] == keys[if x - 1 < i {
                x - 1
            } else {
                x - 2
            }]);
        }
        if x < k2.len() && x != i {
            assert(k2[x] == keys[if x < i {
                x
            } else {
                x - 1
            }]);
        }
    }
    lemma_route_is(k2, k, x);
    if j != i {
        assert(c2[x] == children[j]);
        lemma_sibling_kept(m, m2, id, h, lo, hi, f, min, i, j, lt);
        assert(k != key);
    } else {
        assert(lookup(m, id, h, k) == lookup(m, ci, h1, k));
    }
}

/// Once the child is done, the operation stands where the node itself is
/// to be written.
pub(crate) proof fn lemma_ins_vstate(
    m: Nodes,
    m2: Nodes,
    a: Set<PageId>,
    id: PageId,
    h: nat,
    lo: int,
    hi: int,
    f: int,
    min: int,
    key: Key,
    value: Value,
    out: Option<InnerNodeInterior>,
)
    requires
        ins_mid(m, m2, a, id, h, lo, hi, f, min, key, value, out),
    ensures
        vstate(
            m,
            m2,
            a,
            id,
            h,
            keys_after(m, id, key, out),
            children_after(m, id, key, out),
            lo,
            hi,
            f,
            -1,
        ),
        m2[id] == m[id],
{
    let keys = m[id]->keys;
    let children = m[id]->children;
    let i = route(keys, key);
    let h1 = (h - 1) as nat;
    let k2 = keys_after(m, id, key, out);
    let c2 = children_after(m, id, key, out);
    let ci = children[i];
    let top = match out {
        Some(pair) => pair.child,
        None => ci,
    };
    let lt = last_leaf(m2, top, h1);
    let z = children.len() - 1;
    let z2 = c2.len() - 1;
    let rc = m[last_leaf(m, ci, h1)]->right;
    lemma_route(keys, key);
    lemma_right_ok_down(m, id, h, lo, hi, f, min, i);
    lemma_ins_kids(m, m2, a, id, h, lo, hi, f, min, key, value, out);
    lemma_leaf_ends(m, id, h, lo, hi, f, min);
    assert(owns(m, id, h, id));
    // the node itself is as it was
    lemma_acyclic(m, id, h, lo, hi, f, min, i);
    assert(m2.dom().contains(id) && m2[id] == m[id]);
    // whatever is below the new children was below the node or is new
    assert forall|p: PageId| #![trigger vowns(m2, c2, h1, p)] vowns(m2, c2, h1, p) implies (owns(
        m,
        id,
        h,
        p,
    ) && p != id) || !a.contains(p) by {
        let x = choose|x: int| 0 <= x < c2.len() && owns(m2, #[trigger] c2[x], h1, p);
        match old_index(i, out is Some, x) {
            Some(j) => {
                assert(c2[x] == children[j]);
                lemma_sibling_kept(m, m2, id, h, lo, hi, f, min, i, j, lt);
                assert(owns(m, children[j], h1, p));
                lemma_acyclic(m, id, h, lo, hi, f, min, j);
            },
            None => {
                if a.contains(p) {
                    assert(owns(m, ci, h1, p));
                }
            },
        }
    }
    // the first leaf
    if i > 0 {
        assert(c2[0] == children[0]);
        lemma_sibling_kept(m, m2, id, h, lo, hi, f, min, i, 0, lt);
    } else {
        assert(c2[0] == ci);
    }
    // the last leaf
    if i < z {
        assert(c2[z2] == children[z]);
        lemma_sibling_kept(m, m2, id, h, lo, hi, f, min, i, z, lt);
    } else {
        assert(c2[z2] == top);
    }
    // the nodes outside
    assert forall|p: PageId|
        #![trigger m2.dom().contains(p)]
        #![trigger m2[p]]
        m.dom().contains(p) && !owns(m, id, h, p) implies m2.dom().contains(p) && m2[p] == if m[last_leaf(
        m,
        id,
        h,
    )]->right == Some(p) {
        relink_left(m[p], Some(last_leaf(m2, c2[z2], h1)))
    } else {
        m[p]
    } by {
        if owns(m, ci, h1, p) {
            assert(owns(m, id, h, p));
        }
        if i < z {
            let n = i + 1;
            lemma_leaf_ends(m, children[n], h1, lower(keys, n, lo), upper(keys, n, hi), f, min_fill(f, h1));
            assert(owns(m, id, h, first_leaf(m, children[n], h1)));
            if m[last_leaf(m, id, h)]->right == Some(p) {
                assert(m[p]->left == Some(last_leaf(m, id, h)));
                assert(relink_left(m[p], Some(last_leaf(m, id, h))) == m[p]);
            }
        }
    }
}

/// Writes what an internal node is to hold into its page, splitting it
/// when it has more children than the fanout allows.
pub(crate) fn install_inner(
    pager: &mut Pager,
    f: u64,
    id: PageId,
    inner: InnerNode,
    Ghost(m): Ghost<Nodes>,
    Ghost(a): Ghost<Set<PageId>>,
    Ghost(h): Ghost<nat>,
    Ghost(lo): Ghost<int>,
    Ghost(hi): Ghost<int>,
    Ghost(min): Ghost<int>,
) -> (r: Result<Option<InnerNodeInterior>, StorageError>)
    requires
        idle(old(pager)),
        crate::btree::valid_fanout(f as int, old(pager).spec_page_size() as int),
        vstate(m, page_nodes(old(pager)), a, id, h, inner.keys@, inner.children@, lo, hi, f as int, -1),
        id != 0,
        m.dom().contains(id),
        forall|p: PageId| #![trigger m.dom().contains(p)] m.dom().contains(p) ==> a.contains(p),
        a.subset_of(old(pager).allocated()),
        min <= inner.children@.len() <= f + 1,
        min <= min_fill(f as int, h),
        inner.children@.len() > f ==> old(pager).spare() >= 1,
    ensures
        idle(final(pager)),
        r is Ok,
        final(pager).spec_capacity() == old(pager).spec_capacity(),
        final(pager).spec_page_size() == old(pager).spec_page_size(),
        old(pager).allocated().subset_of(final(pager).allocated()),
        (r->Ok_0 is Some) == (inner.children@.len() > f),
        (page_nodes(final(pager)), r->Ok_0) == inner_installed(
            page_nodes(old(pager)),
            id,
            f as int,
            inner.keys@,
            inner.children@,
            new_page_of(r->Ok_0),
        ),
        r->Ok_0 is Some ==> r->Ok_0->Some_0.child == old(pager).next_id(),
        final(pager).spare() == old(pager).spare() - if inner.children@.len() > f {
            1int
        } else {
            0int
        },
        ({
            let m2 = page_nodes(old(pager));
            let m3 = page_nodes(final(pager));
            let keys = inner.keys@;
            let children = inner.children@;
            let h1 = (h - 1) as nat;
            let fi = f as int;
            match r->Ok_0 {
                None => {
                    &&& sub_wf(m3, id, h, lo, hi, fi, min)
                    &&& links_ok(m3, id, h)
                    &&& forall|k: Key|
                        #![trigger lookup(m3, id, h, k)]
                        lookup(m3, id, h, k) == lookup(m2, children[route(keys, k)], h1, k)
                    &&& node_post(m, m3, a, id, id, h)
                },
                Some(pair) => {
                    &&& lo < pair.key < hi
                    &&& pair.child != 0
                    &&& !a.contains(pair.child)
                    &&& sub_wf(m3, id, h, lo, pair.key as int, fi, min_fill(fi, h))
                    &&& sub_wf(m3, pair.child, h, pair.key as int, hi, fi, min_fill(fi, h))
                    &&& links_ok(m3, id, h)
                    &&& links_ok(m3, pair.child, h)
                    &&& linked(m3, last_leaf(m3, id, h), first_leaf(m3, pair.child, h))
                    &&& forall|p: PageId|
                        #![trigger owns(m3, pair.child, h, p)]
                        owns(m3, pair.child, h, p) ==> owns(m, id, h, p) || !a.contains(p)
                    &&& forall|k: Key|
                        #![trigger lookup(m3, id, h, k)]
                        k < pair.key ==> lookup(m3, id, h, k) == lookup(
                            m2,
                            children[route(keys, k)],
                            h1,
                            k,
                        )
                    &&& forall|k: Key|
                        #![trigger lookup(m3, pair.child, h, k)]
                        k >= pair.key ==> lookup(m3, pair.child, h, k) == lookup(
                            m2,
                            children[route(keys, k)],
                            h1,
                            k,
                        )
                    &&& node_post(m, m3, a, id, pair.child, h)
                },
            }
        }),
{
    let ghost m2 = page_nodes(pager);
    let ghost keys = inner.keys@;
    let ghost children = inner.children@;
    proof {
        lemma_stored_shape(pager, id);
    }
    if inner.children.len() as u64 <= f {
        let node = Node::Inner(inner);
        match store_node(pager, id, &node) {
            Ok(()) => {},
            Err(e) => {
                return Err(e);
            },
        }
        proof {
            lemma_install_whole(m, m2, page_nodes(pager), a, id, h, keys, children, lo, hi, f as int, min);
        }
        Ok(None)
    } else {
        let new_id = match alloc_page(pager) {
            Ok(p) => p,
            Err(e) => {
                return Err(e);
            },
        };
        let node = Node::Inner(inner);
        let ghost whole = node@;
        let (left, pair, right) = match split(node, id, new_id) {
            Some(parts) => parts,
            None => {
                return Err(StorageError::CorruptNode);
            },
        };
        proof {
            assert(spec_split(whole, id, new_id) is Some);
        }
        match store_node(pager, id, &left) {
            Ok(()) => {},
            Err(e) => {
                return Err(e);
            },
        }
        match store_node(pager, new_id, &right) {
            Ok(()) => {},
            Err(e) => {
                return Err(e);
            },
        }
        proof {
            let c = (children.len() as int + 1) / 2;
            lemma_install_split(
                m,
                m2,
                page_nodes(pager),
                a,
                id,
                new_id,
                h,
                keys,
                children,
                lo,
                hi,
                f as int,
                c,
            );
        }
        Ok(Some(pair))
    }
}

/// A leaf that has taken in a new key is what the insertion makes of it.
proof fn lemma_ins_nodes_leaf(
    m: Nodes,
    m2: Nodes,
    a: Set<PageId>,
    next: PageId,
    id: PageId,
    f: int,
    key: Key,
    value: Value,
    out: Option<InnerNodeInterior>,
)
    requires
        m.dom().contains(id),
        m[id] is Leaf,
        (m2, out) == leaf_inserted(m, id, f, key, value, new_page_of(out)),
        (out is Some) == splits(m, id, 0, f, key),
        out is Some ==> !a.contains(out->Some_0.child) && out->Some_0.child != 0 && out->Some_0.child
            == next,
    ensures
        inserted_as(m, m2, a, next, id, 0, f, key, value, out),
{
    reveal(inserted_as);
    let fresh: Seq<PageId> = match out {
        Some(pair) => seq![pair.child],
        None => Seq::empty(),
    };
    assert(ins_nodes(m, id, 0, f, key, value, fresh) == (m2, out));
    assert(fresh_pages(fresh, a, pages_needed(m, id, 0, f, key), next));
}

/// An internal node whose child has taken in a new key, and which has
/// taken in what the child handed up, is what the insertion makes of it.
proof fn lemma_ins_nodes_inner(
    m: Nodes,
    m2: Nodes,
    m3: Nodes,
    a: Set<PageId>,
    next: PageId,
    id: PageId,
    h: nat,
    f: int,
    key: Key,
    value: Value,
    below: Option<InnerNodeInterior>,
    out: Option<InnerNodeInterior>,
)
    requires
        h > 0,
        m.dom().contains(id),
        m[id] is Inner,
        inserted_as(
            m,
            m2,
            a,
            next,
            m[id]->children[route(m[id]->keys, key)],
            (h - 1) as nat,
            f,
            key,
            value,
            below,
        ),
        (below is Some) == splits(m, m[id]->children[route(m[id]->keys, key)], (h - 1) as nat, f, key),
        below is None ==> m3 == m2 && out is None,
        below is Some ==> (m3, out) == inner_installed(
            m2,
            id,
            f,
            m[id]->keys.insert(route(m[id]->keys, key), below->Some_0.key),
            m[id]->children.insert(route(m[id]->keys, key) + 1, below->Some_0.child),
            new_page_of(out),
        ) && (out is Some) == (m[id]->children.len() + 1 > f),
        out is Some ==> !a.contains(out->Some_0.child) && out->Some_0.child != 0,
    ensures
        inserted_as(m, m3, a, next, id, h, f, key, value, out),
{
    let keys = m[id]->keys;
    let children = m[id]->children;
    let i = route(keys, key);
    let c = children[i];
    let h1 = (h - 1) as nat;
    let n = pages_needed(m, c, h1, f, key);
    reveal(inserted_as);
    let fc = choose|fresh: Seq<PageId>|
        #![trigger ins_nodes(m, c, h1, f, key, value, fresh)]
        fresh_pages(fresh, a, n, next) && ins_nodes(m, c, h1, f, key, value, fresh) == (m2, below);
    lemma_pages_needed_bound(m, c, h1, f, key);
    let fresh = match out {
        Some(pair) => fc.push(pair.child),
        None => fc,
    };
    assert(fresh.subrange(0, n as int) =~= fc);
    assert(ins_nodes(m, id, h, f, key, value, fresh) == (m3, out));
    assert(fresh_pages(fresh, a, pages_needed(m, id, h, f, key), next));
}

/// Inserts a key that the subtree at `id` does not hold.
pub(crate) fn insert_rec(
    pager: &mut Pager,
    f: u64,
    id: PageId,
    h: usize,
    key: Key,
    value: Value,
    Ghost(lo): Ghost<int>,
    Ghost(hi): Ghost<int>,
    Ghost(min): Ghost<int>,
) -> (r: Result<Option<InnerNodeInterior>, StorageError>)
    requires
        idle(old(pager)),
        crate::btree::valid_fanout(f as int, old(pager).spec_page_size() as int),
        ins_pre(page_nodes(old(pager)), id, h as nat, lo, hi, f as int, min, key),
        min <= min_fill(f as int, h as nat),
        old(pager).spare() >= pages_needed(page_nodes(old(pager)), id, h as nat, f as int, key),
    ensures
        idle(final(pager)),
        r is Ok,
        final(pager).spec_capacity() == old(pager).spec_capacity(),
        final(pager).spec_page_size() == old(pager).spec_page_size(),
        old(pager).allocated().subset_of(final(pager).allocated()),
        final(pager).spare() == old(pager).spare() - pages_needed(
            page_nodes(old(pager)),
            id,
            h as nat,
            f as int,
            key,
        ),
        inserted_as(
            page_nodes(old(pager)),
            page_nodes(final(pager)),
            old(pager).allocated(),
            old(pager).next_id(),
            id,
            h as nat,
            f as int,
            key,
            value,
            r->Ok_0,
        ),
        ins_post(
            page_nodes(old(pager)),
            page_nodes(final(pager)),
            old(pager).allocated(),
            id,
            h as nat,
            lo,
            hi,
            f as int,
            min,
            key,
            value,
            r->Ok_0,
        ),
    decreases h,
{
    let ghost m = page_nodes(pager);
    let ghost a = pager.allocated();
    let node = match load_node(pager, id) {
        Ok(n) => n,
        Err(e) => {
            return Err(e);
        },
    };
    match node {
        Node::Leaf(leaf) => {
            let r = insert_into_leaf(pager, f, id, leaf, key, value, Ghost(lo), Ghost(hi), Ghost(min));
            proof {
                lemma_ins_nodes_leaf(
                    m,
                    page_nodes(pager),
                    a,
                    old(pager).next_id(),
                    id,
                    f as int,
                    key,
                    value,
                    r->Ok_0,
                );
            }
            r
        },
        Node::Inner(mut inner) => {
            let i = child_index(&inner.keys, key);
            proof {
                lemma_ins_down(m, id, h as nat, lo, hi, f as int, min, key);
            }
            let child = inner.children[i];
            let ghost clo = lower(inner.keys@, i as int, lo);
            let ghost chi = upper(inner.keys@, i as int, hi);
            let ghost cmin = min_fill(f as int, (h - 1) as nat);
            let out = match insert_rec(pager, f, child, h - 1, key, value, Ghost(clo), Ghost(chi), Ghost(cmin)) {
                Ok(o) => o,
                Err(e) => {
                    return Err(e);
                },
            };
            proof {
                assert(ins_mid(m, page_nodes(pager), a, id, h as nat, lo, hi, f as int, min, key, value, out));
                lemma_pages_needed_bound(m, child, (h - 1) as nat, f as int, key);
            }
            absorb(
                pager,
                f,
                id,
                inner,
                i,
                out,
                h,
                key,
                value,
                Ghost(m),
                Ghost(a),
                Ghost(old(pager).next_id()),
                Ghost(lo),
                Ghost(hi),
                Ghost(min),
            )
        },
    }
}

/// The last step of an insertion at an internal node: the node takes in
/// what the child that the key went to handed up, and splits if that is
/// one child too many.
#[verifier::spinoff_prover]
#[verifier::rlimit(80)]
fn absorb(
    pager: &mut Pager,
    f: u64,
    id: PageId,
    inner: InnerNode,
    i: usize,
    out: Option<InnerNodeInterior>,
    h: usize,
    key: Key,
    value: Value,
    Ghost(m): Ghost<Nodes>,
    Ghost(a): Ghost<Set<PageId>>,
    Ghost(next): Ghost<PageId>,
    Ghost(lo): Ghost<int>,
    Ghost(hi): Ghost<int>,
    Ghost(min): Ghost<int>,
) -> (r: Result<Option<InnerNodeInterior>, StorageError>)
    requires
        idle(old(pager)),
        crate::btree::valid_fanout(f as int, old(pager).spec_page_size() as int),
        h > 0,
        min <= min_fill(f as int, h as nat),
        ins_mid(m, page_nodes(old(pager)), a, id, h as nat, lo, hi, f as int, min, key, value, out),
        m.dom().contains(id),
        inner@ == m[id],
        i == route(inner.keys@, key),
        a.subset_of(old(pager).allocated()),
        splits(m, id, h as nat, f as int, key) ==> old(pager).spare() >= 1,
        inserted_as(
            m,
            page_nodes(old(pager)),
            a,
            next,
            inner.children@[i as int],
            (h - 1) as nat,
            f as int,
            key,
            value,
            out,
        ),
    ensures
        idle(final(pager)),
        r is Ok,
        final(pager).spec_capacity() == old(pager).spec_capacity(),
        final(pager).spec_page_size() == old(pager).spec_page_size(),
        old(pager).allocated().subset_of(final(pager).allocated()),
        final(pager).spare() == old(pager).spare() - if splits(m, id, h as nat, f as int, key) {
            1int
        } else {
            0int
        },
        inserted_as(m, page_nodes(final(pager)), a, next, id, h as nat, f as int, key, value, r->Ok_0),
        ins_post(m, page_nodes(final(pager)), a, id, h as nat, lo, hi, f as int, min, key, value, r->Ok_0),
{
    let mut inner = inner;
    let ghost m2 = page_nodes(pager);
    proof {
        assert(m[id] == NodeView::Inner { keys: inner.keys@, children: inner.children@ });
        assert(sub_wf(m, id, h as nat, lo, hi, f as int, min));
        assert(sorted_keys(inner.keys@));
        assert(min <= inner.children@.len() <= f);
        lemma_route(inner.keys@, key);
        lemma_ins_down(m, id, h as nat, lo, hi, f as int, min, key);
        assert(ins_mid(m, m2, a, id, h as nat, lo, hi, f as int, min, key, value, out));
        lemma_ins_vstate(m, m2, a, id, h as nat, lo, hi, f as int, min, key, value, out);
        assert forall|k: Key|
            #![trigger route(keys_after(m, id, key, out), k)]
            lookup(
                m2,
                children_after(m, id, key, out)[route(keys_after(m, id, key, out), k)],
                (h - 1) as nat,
                k,
            ) == expected(m, id, h as nat, key, value, k) by {
            lemma_ins_route(m, m2, a, id, h as nat, lo, hi, f as int, min, key, value, out, k);
        }
    }
    match out {
        None => {
            proof {
                let keys = inner.keys@;
                let children = inner.children@;
                assert(m2 =~= m2.insert(id, NodeView::Inner { keys, children }));
                lemma_install_whole(m, m2, m2, a, id, h as nat, keys, children, lo, hi, f as int, min);
                lemma_ins_nodes_inner(
                    m,
                    m2,
                    m2,
                    a,
                    next,
                    id,
                    h as nat,
                    f as int,
                    key,
                    value,
                    None,
                    None,
                );
            }
            Ok(None)
        },
        Some(pair) => {
            proof {
                lemma_route_is(inner.keys@, pair.key, i as int);
                let keys = inner.keys@;
                if keys.contains(pair.key) {
                    let j = choose|j: int| 0 <= j < keys.len() && keys[j] == pair.key;
                    if j < i {
                        assert(keys[j] <= keys[i - 1]);
                    } else {
                        assert(keys[i as int] <= keys[j]);
                    }
                }
            }
            match inner.insert_interior_node(pair) {
                Ok(()) => {},
                Err(e) => {
                    return Err(e);
                },
            }
            let r = install_inner(
                pager,
                f,
                id,
                inner,
                Ghost(m),
                Ghost(a),
                Ghost(h as nat),
                Ghost(lo),
                Ghost(hi),
                Ghost(min),
            );
            proof {
                lemma_ins_nodes_inner(
                    m,
                    m2,
                    page_nodes(pager),
                    a,
                    next,
                    id,
                    h as nat,
                    f as int,
                    key,
                    value,
                    out,
                    r->Ok_0,
                );
            }
            r
        },
    }
}

/// Counts the pages that the insertion of a new key takes below and at
/// the node at `id`, and tells whether that node splits.
pub(crate) fn count_splits(
    pager: &mut Pager,
    f: u64,
    id: PageId,
    h: usize,
    key: Key,
    Ghost(lo): Ghost<int>,
    Ghost(hi): Ghost<int>,
    Ghost(min): Ghost<int>,
) -> (r: Result<(usize, bool), StorageError>)
    requires
        idle(old(pager)),
        h < usize::MAX,
        sub_wf(page_nodes(old(pager)), id, h as nat, lo, hi, f as int, min),
    ensures
        idle(final(pager)),
        final(pager).same_pages(old(pager)),
        page_nodes(final(pager)) == page_nodes(old(pager)),
        forall|p: PageId|
            #![trigger final(pager).is_dirty(p)]
            final(pager).is_dirty(p) ==> old(pager).is_dirty(p),
        r is Ok,
        r->Ok_0.0 == pages_needed(page_nodes(old(pager)), id, h as nat, f as int, key),
        r->Ok_0.1 == splits(page_nodes(old(pager)), id, h as nat, f as int, key),
    decreases h,
{
    let ghost m = page_nodes(pager);
    let ghost pool0 = *pager;
    proof {
        lemma_pages_needed_bound(m, id, h as nat, f as int, key);
    }
    let node = match load_node(pager, id) {
        Ok(n) => n,
        Err(e) => {
            return Err(e);
        },
    };
    let ghost pool1 = *pager;
    match node {
        Node::Leaf(leaf) => {
            if leaf.entries.len() as u64 + 1 >= f {
                Ok((1, true))
            } else {
                Ok((0, false))
            }
        },
        Node::Inner(inner) => {
            let i = child_index(&inner.keys, key);
            let ghost clo = lower(inner.keys@, i as int, lo);
            let ghost chi = upper(inner.keys@, i as int, hi);
            let ghost cmin = min_fill(f as int, (h - 1) as nat);
            proof {
                lemma_route(inner.keys@, key);
                lemma_pages_needed_bound(m, inner.children@[i as int], (h - 1) as nat, f as int, key);
            }
            let (n, below) = match count_splits(
                pager,
                f,
                inner.children[i],
                h - 1,
                key,
                Ghost(clo),
                Ghost(chi),
                Ghost(cmin),
            ) {
                Ok(pair) => pair,
                Err(e) => {
                    return Err(e);
                },
            };
            proof {
                assert forall|p: PageId| #![trigger pager.is_dirty(p)] pager.is_dirty(
                    p,
                ) implies pool0.is_dirty(p) by {
                    assert(pool1.is_dirty(p));
                }
            }
            if below && inner.children.len() as u64 >= f {
                Ok((n + 1, true))
            } else {
                Ok((n, false))
            }
        },
    }
}

} // verus!
