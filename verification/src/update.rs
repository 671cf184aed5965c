//! Replacing the value of a key that the tree holds.

use vstd::prelude::*;
use crate::delete::{del_pre, lemma_del_down};
use crate::descent::{kid_mid, lemma_kid, lemma_kid_vstate};
use crate::error::StorageError;
use crate::insert::expected;
use crate::node::{Key, LeafNodeInterior, Node, NodeView, Value};
use crate::node_io::{idle, lemma_stored_shape, load_node, page_nodes, store_node};
use crate::node_ops::{child_index, entry_index};
use crate::os_interface::PageId;
use crate::pager::Pager;
use crate::tree_spec::{
    has_key, leaf_get, lemma_install_whole, lemma_leaf_get_at, lemma_leaf_get_rank, lemma_rank,
    lemma_route, links_ok, lookup, lower, min_fill, node_post, Nodes, rank, relink_left, route,
    sorted_entries, sub_wf, upper,
};

verus! {

/// What replacing the value of `key` in the subtree at `id` leaves
/// behind: the subtree has the shape that it had, the key has the new
/// value, and every other key is found as before.
pub open spec fn upd_post(
    m: Nodes,
    m2: Nodes,
    a: Set<PageId>,
    id: PageId,
    h: nat,
    lo: int,
    hi: int,
    f: int,
    min: int,
    key: Key,
    value: Value,
) -> bool {
    &&& sub_wf(m2, id, h, lo, hi, f, min)
    &&& links_ok(m2, id, h)
    &&& forall|k: Key|
        #![trigger lookup(m2, id, h, k)]
        lookup(m2, id, h, k) == expected(m, id, h, key, value, k)
    &&& node_post(m, m2, a, id, id, h)
}

/// Giving the entry of a key another value keeps a leaf sorted and
/// changes what the leaf holds for that key only.
pub(crate) proof fn lemma_entries_update(entries: Seq<LeafNodeInterior>, key: Key, value: Value)
    requires
        sorted_entries(entries),
        has_key(entries, key),
    ensures
        0 <= rank(entries, key) < entries.len(),
        entries[rank(entries, key)].key == key,
        sorted_entries(entries.update(rank(entries, key), LeafNodeInterior { key, value })),
        forall|k: Key|
            #![trigger leaf_get(entries.update(rank(entries, key), LeafNodeInterior { key, value }), k)]
            leaf_get(entries.update(rank(entries, key), LeafNodeInterior { key, value }), k) == if k
                == key {
                Some(value)
            } else {
                leaf_get(entries, k)
            },
{
    let pos = rank(entries, key);
    lemma_rank(entries, key);
    lemma_leaf_get_rank(entries, key);
    let e2 = entries.update(pos, LeafNodeInterior { key, value });
    assert forall|i: int, j: int| 0 <= i < j < e2.len() implies e2[i].key < e2[j].key by {
        assert(entries[i].key < entries[j].key);
    }
    assert forall|k: Key| #![trigger leaf_get(e2, k)] leaf_get(e2, k) == if k == key {
        Some(value)
    } else {
        leaf_get(entries, k)
    } by {
        if k == key {
            lemma_leaf_get_at(e2, pos);
        } else if has_key(entries, k) {
            let j = choose|j: int| 0 <= j < entries.len() && (#[trigger] entries[j]).key == k;
            assert(e2[j] == entries[j]);
            lemma_leaf_get_at(entries, j);
            lemma_leaf_get_at(e2, j);
        } else if has_key(e2, k) {
            let j = choose|j: int| 0 <= j < e2.len() && (#[trigger] e2[j]).key == k;
            assert(entries[j].key == e2[j].key);
        }
    }
}

/// Gives `key`, which the subtree at `id` holds, the value `value`.
pub(crate) fn update_rec(
    pager: &mut Pager,
    f: u64,
    id: PageId,
    h: usize,
    key: Key,
    value: Value,
    Ghost(lo): Ghost<int>,
    Ghost(hi): Ghost<int>,
    Ghost(min): Ghost<int>,
) -> (r: Result<(), StorageError>)
    requires
        idle(old(pager)),
        crate::btree::valid_fanout(f as int, old(pager).spec_page_size() as int),
        del_pre(page_nodes(old(pager)), id, h as nat, lo, hi, f as int, min, key),
    ensures
        idle(final(pager)),
        r is Ok,
        final(pager).spec_capacity() == old(pager).spec_capacity(),
        final(pager).spec_page_size() == old(pager).spec_page_size(),
        final(pager).allocated() == old(pager).allocated(),
        final(pager).spare() == old(pager).spare(),
        upd_post(
            page_nodes(old(pager)),
            page_nodes(final(pager)),
            old(pager).allocated(),
            id,
            h as nat,
            lo,
            hi,
            f as int,
            min,
            key,
            value,
        ),
    decreases h,
{
    let ghost m = page_nodes(pager);
    let ghost a = pager.allocated();
    let ghost fi = f as int;
    let ghost hn = h as nat;
    let node = match load_node(pager, id) {
        Ok(n) => n,
        Err(e) => {
            return Err(e);
        },
    };
    match node {
        Node::Leaf(mut leaf) => {
            let ghost entries = leaf.entries@;
            proof {
                lemma_stored_shape(pager, id);
                lemma_entries_update(entries, key, value);
                let r = m[id]->right;
                if r is Some {
                    assert(relink_left(m[r->Some_0], Some(id)) == m[r->Some_0]);
                }
            }
            let pos = entry_index(&leaf.entries, key);
            leaf.entries.set(pos, LeafNodeInterior { key, value });
            let node = Node::Leaf(leaf);
            match store_node(pager, id, &node) {
                Ok(()) => {},
                Err(e) => {
                    return Err(e);
                },
            }
            proof {
                let m2 = page_nodes(pager);
                let e2 = entries.update(rank(entries, key), LeafNodeInterior { key, value });
                assert(m2 == m.insert(id, node@));
                assert forall|i: int| 0 <= i < e2.len() implies lo <= (#[trigger] e2[i]).key < hi by {
                    assert(e2[i].key == entries[i].key);
                }
                assert forall|k: Key| #![trigger lookup(m2, id, 0, k)] lookup(m2, id, 0, k)
                    == expected(m, id, 0, key, value, k) by {
                    assert(leaf_get(e2, k) == if k == key {
                        Some(value)
                    } else {
                        leaf_get(entries, k)
                    });
                }
            }
            Ok(())
        },
        Node::Inner(inner) => {
            let i = child_index(&inner.keys, key);
            proof {
                lemma_del_down(m, id, hn, lo, hi, fi, min, key);
            }
            let child = inner.children[i];
            let ghost keys = inner.keys@;
            let ghost children = inner.children@;
            let ghost h1 = (h - 1) as nat;
            let ghost clo = lower(keys, i as int, lo);
            let ghost chi = upper(keys, i as int, hi);
            let ghost cmin = min_fill(fi, h1);
            match update_rec(pager, f, child, h - 1, key, value, Ghost(clo), Ghost(chi), Ghost(cmin)) {
                Ok(()) => {},
                Err(e) => {
                    return Err(e);
                },
            }
            proof {
                let m2 = page_nodes(pager);
                assert forall|p: PageId| #![trigger m.dom().contains(p)] m.dom().contains(
                    p,
                ) implies a.contains(p) by {}
                assert(kid_mid(m, m2, a, id, hn, lo, hi, fi, min, i as int, cmin));
                lemma_kid_vstate(m, m2, a, id, hn, lo, hi, fi, min, i as int, cmin, -1);
                assert(m2 =~= m2.insert(id, NodeView::Inner { keys, children }));
                lemma_install_whole(m, m2, m2, a, id, hn, keys, children, lo, hi, fi, min);
                assert forall|k: Key| #![trigger lookup(m2, id, hn, k)] lookup(m2, id, hn, k)
                    == expected(m, id, hn, key, value, k) by {
                    lemma_route(keys, key);
                    lemma_route(keys, k);
                    lemma_kid(m, m2, a, id, hn, lo, hi, fi, min, i as int, cmin, route(keys, k));
                }
            }
            Ok(())
        },
    }
}

} // verus!
