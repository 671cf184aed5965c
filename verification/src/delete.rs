//! Deletion below the root: a key leaves its leaf, and a node that falls
//! below its minimum borrows from a sibling or is merged with one.

use vstd::prelude::*;
use crate::descent::{kid_mid, lemma_kid, lemma_kid_vstate, lemma_vright, lemma_vstate_step};
use crate::error::StorageError;
use crate::insert::set_left_sibling;
use crate::node::{InnerNode, Key, LeafNode, LeafNodeInterior, Node, NodeView, Value};
use crate::node_io::{free_page, idle, lemma_stored_shape, load_node, page_nodes, store_node};
use crate::node_ops::{borrow_left, borrow_right, child_index, entry_index, merge};
use crate::os_interface::PageId;
use crate::pager::Pager;
use crate::rebalance::{
    lemma_borrowed_route, lemma_borrowed_vnode, lemma_borrowed_vpost, lemma_inners_merged,
    lemma_leaves_merged, lemma_merged_route, lemma_merged_vnode, lemma_merged_vpost,
    gave_back, lemma_mend_left, lemma_mend_merge, lemma_mend_right, lemma_pair_right, lemma_shifted,
    mend, mend_merges, mended, merged_nodes,
    pair_borrowed, pair_ctx, pair_merged,
    shifted_nodes, shifted_sep, spec_fill, vpost, vright_ok,
};
use crate::tree_spec::{
    child_min, first_leaf, has_key, last_leaf, leaf_get, lemma_install_whole, lemma_leaf_ends,
    lemma_leaf_get_at, lemma_leaf_get_rank, lemma_rank, lemma_right_ok_down, lemma_route, linked,
    links_ok, lookup, lower, min_fill, node_post, Nodes, rank, relink_left, right_ok, route,
    sorted_entries, sub_wf, upper, vnode_ok, vowns, vstate,
};

verus! {

/// What a descent finds once `key` is gone.
pub open spec fn without(m: Nodes, id: PageId, h: nat, key: Key, k: Key) -> Option<Value> {
    if k == key {
        None
    } else {
        lookup(m, id, h, k)
    }
}

/// The nodes once `key` has been deleted from the subtree at `id`, which
/// holds it. The key's entry leaves its leaf. On the way back every node
/// whose child has fallen below the minimum mends the child: by a borrow
/// from the left sibling, else by a borrow from the right sibling, else
/// by a merge.
pub open spec fn del_nodes(m: Nodes, id: PageId, h: nat, f: int, key: Key) -> Nodes
    decreases h,
{
    match m[id] {
        NodeView::Leaf { entries, left, right } => m.insert(
            id,
            NodeView::Leaf { entries: entries.remove(rank(entries, key)), left, right },
        ),
        NodeView::Inner { keys, children } => if h == 0 {
            m
        } else {
            let i = route(keys, key);
            let m2 = del_nodes(m, children[i], (h - 1) as nat, f, key);
            if spec_fill(m2[children[i]]) >= min_fill(f, (h - 1) as nat) {
                m2
            } else {
                let t = mend(m2, keys, children, i, f, (h - 1) as nat);
                t.0.insert(id, NodeView::Inner { keys: t.1, children: t.2 })
            }
        },
    }
}

/// What deletion from the subtree at `id` starts from.
pub open spec fn del_pre(m: Nodes, id: PageId, h: nat, lo: int, hi: int, f: int, min: int, key: Key) -> bool {
    &&& f >= 3
    &&& sub_wf(m, id, h, lo, hi, f, min)
    &&& (h > 0 ==> min >= 2)
    &&& links_ok(m, id, h)
    &&& right_ok(m, id, h)
    &&& lookup(m, id, h, key) is Some
}

/// What deletion from the subtree at `id` leaves behind: the subtree is
/// well formed, but that its top node may be one entry short; the key is
/// gone and every other key is found as before; no page is new.
pub open spec fn del_post(
    m: Nodes,
    m2: Nodes,
    a: Set<PageId>,
    id: PageId,
    h: nat,
    lo: int,
    hi: int,
    f: int,
    min: int,
    key: Key,
) -> bool {
    &&& sub_wf(m2, id, h, lo, hi, f, min - 1)
    &&& links_ok(m2, id, h)
    &&& forall|k: Key|
        #![trigger lookup(m2, id, h, k)]
        lookup(m2, id, h, k) == without(m, id, h, key, k)
    &&& node_post(m, m2, a, id, id, h)
    &&& (h > 0 ==> forall|p: PageId|
        #![trigger vowns(m2, m2[id]->children, (h - 1) as nat, p)]
        vowns(m2, m2[id]->children, (h - 1) as nat, p) ==> p != id)
}

/// Taking a key out of a sorted leaf keeps the leaf sorted and changes
/// what the leaf holds for that key only.
pub(crate) proof fn lemma_entries_remove(entries: Seq<LeafNodeInterior>, key: Key)
    requires
        sorted_entries(entries),
        has_key(entries, key),
    ensures
        0 <= rank(entries, key) < entries.len(),
        entries[rank(entries, key)].key == key,
        sorted_entries(entries.remove(rank(entries, key))),
        forall|k: Key|
            #![trigger leaf_get(entries.remove(rank(entries, key)), k)]
            leaf_get(entries.remove(rank(entries, key)), k) == if k == key {
                None
            } else {
                leaf_get(entries, k)
            },
{
    let pos = rank(entries, key);
    lemma_rank(entries, key);
    lemma_leaf_get_rank(entries, key);
    let e2 = entries.remove(pos);
    assert forall|i: int, j: int| 0 <= i < j < e2.len() implies e2[i].key < e2[j].key by {
        let oi = if i < pos {
            i
        } else {
            i + 1
        };
        let oj = if j < pos {
            j
        } else {
            j + 1
        };
        assert(entries[oi].key < entries[oj].key);
    }
    assert forall|k: Key| #![trigger leaf_get(e2, k)] leaf_get(e2, k) == if k == key {
        None
    } else {
        leaf_get(entries, k)
    } by {
        if has_key(e2, k) {
            let j2 = choose|j: int| 0 <= j < e2.len() && (#[trigger] e2[j]).key == k;
            let j = if j2 < pos {
                j2
            } else {
                j2 + 1
            };
            assert(entries[j] == e2[j2]);
            if j < pos {
                assert(entries[j].key < entries[pos].key);
            } else {
                assert(entries[pos].key < entries[j].key);
            }
            lemma_leaf_get_at(entries, j);
            lemma_leaf_get_at(e2, j2);
        } else if k != key && has_key(entries, k) {
            let j = choose|j: int| 0 <= j < entries.len() && (#[trigger] entries[j]).key == k;
            let j2 = if j < pos {
                j
            } else {
                j - 1
            };
            assert(e2[j2] == entries[j]);
        }
    }
}

/// Deletes a key from the leaf of page `id`, which holds it.
pub(crate) fn delete_from_leaf(
    pager: &mut Pager,
    f: u64,
    id: PageId,
    leaf: LeafNode,
    key: Key,
    Ghost(lo): Ghost<int>,
    Ghost(hi): Ghost<int>,
    Ghost(min): Ghost<int>,
) -> (r: Result<(), StorageError>)
    requires
        idle(old(pager)),
        crate::btree::valid_fanout(f as int, old(pager).spec_page_size() as int),
        del_pre(page_nodes(old(pager)), id, 0, lo, hi, f as int, min, key),
        leaf@ == page_nodes(old(pager))[id],
    ensures
        idle(final(pager)),
        r is Ok,
        final(pager).spec_capacity() == old(pager).spec_capacity(),
        final(pager).spec_page_size() == old(pager).spec_page_size(),
        final(pager).allocated() == old(pager).allocated(),
        final(pager).spare() == old(pager).spare(),
        page_nodes(final(pager)) == del_nodes(page_nodes(old(pager)), id, 0, f as int, key),
        page_nodes(final(pager)).dom() == page_nodes(old(pager)).dom(),
        del_post(
            page_nodes(old(pager)),
            page_nodes(final(pager)),
            old(pager).allocated(),
            id,
            0,
            lo,
            hi,
            f as int,
            min,
            key,
        ),
{
    let ghost m = page_nodes(pager);
    let ghost entries = leaf.entries@;
    let mut leaf = leaf;
    proof {
        lemma_stored_shape(pager, id);
        lemma_entries_remove(entries, key);
        let r = m[id]->right;
        if r is Some {
            let rid = r->Some_0;
            assert(relink_left(m[rid], Some(id)) == m[rid]);
        }
    }
    let pos = entry_index(&leaf.entries, key);
    let _ = leaf.entries.remove(pos);
    let node = Node::Leaf(leaf);
    match store_node(pager, id, &node) {
        Ok(()) => {},
        Err(e) => {
            return Err(e);
        },
    }
    proof {
        let m2 = page_nodes(pager);
        let e2 = entries.remove(rank(entries, key));
        assert(m2 == m.insert(id, node@));
        assert forall|i: int| 0 <= i < e2.len() implies lo <= (#[trigger] e2[i]).key < hi by {
            let oi = if i < rank(entries, key) {
                i
            } else {
                i + 1
            };
            assert(e2[i] == entries[oi]);
        }
        assert forall|k: Key| #![trigger lookup(m2, id, 0, k)] lookup(m2, id, 0, k) == without(
            m,
            id,
            0,
            key,
            k,
        ) by {
            assert(leaf_get(e2, k) == if k == key {
                None
            } else {
                leaf_get(entries, k)
            });
        }
    }
    Ok(())
}

/// The number of entries of a leaf, or of children of an internal node.
pub(crate) fn fill(node: &Node) -> (r: usize)
    ensures
        r == spec_fill(node@),
{
    match node {
        Node::Leaf(leaf) => leaf.entries.len(),
        Node::Inner(inner) => inner.children.len(),
    }
}

/// The fewest entries or children of a node, `h` levels above the leaves,
/// that is not the root.
pub(crate) fn min_fill_of(f: u64, h: usize) -> (r: u64)
    requires
        f < u64::MAX,
    ensures
        r == min_fill(f as int, h as nat),
{
    if h == 0 {
        f / 2
    } else {
        (f + 1) / 2
    }
}

/// Moves one entry between the neighbouring nodes of the pages `x` and
/// `y`: from the left one to the right one when `from_left`, else the
/// other way. Returns the new separator.
pub(crate) fn shift_pair(
    pager: &mut Pager,
    x: PageId,
    y: PageId,
    xnode: Node,
    ynode: Node,
    sep: Key,
    from_left: bool,
    Ghost(h1): Ghost<nat>,
    Ghost(lx): Ghost<int>,
    Ghost(uy): Ghost<int>,
    Ghost(f): Ghost<int>,
    Ghost(minx): Ghost<int>,
    Ghost(miny): Ghost<int>,
) -> (r: Result<Key, StorageError>)
    requires
        idle(old(pager)),
        crate::btree::valid_fanout(f, old(pager).spec_page_size() as int),
        page_nodes(old(pager)).dom().contains(x),
        page_nodes(old(pager)).dom().contains(y),
        xnode@ == page_nodes(old(pager))[x],
        ynode@ == page_nodes(old(pager))[y],
        sub_wf(page_nodes(old(pager)), x, h1, lx, sep as int, f, minx),
        sub_wf(page_nodes(old(pager)), y, h1, sep as int, uy, f, miny),
        links_ok(page_nodes(old(pager)), x, h1),
        links_ok(page_nodes(old(pager)), y, h1),
        linked(
            page_nodes(old(pager)),
            last_leaf(page_nodes(old(pager)), x, h1),
            first_leaf(page_nodes(old(pager)), y, h1),
        ),
        x != y,
        lx < sep < uy,
        from_left ==> spec_fill(xnode@) > min_fill(f, h1) && spec_fill(ynode@) == min_fill(f, h1) - 1,
        !from_left ==> spec_fill(ynode@) > min_fill(f, h1) && spec_fill(xnode@) == min_fill(f, h1)
            - 1,
    ensures
        idle(final(pager)),
        r is Ok,
        final(pager).spec_capacity() == old(pager).spec_capacity(),
        final(pager).spec_page_size() == old(pager).spec_page_size(),
        final(pager).allocated() == old(pager).allocated(),
        final(pager).spare() == old(pager).spare(),
        pair_borrowed(page_nodes(old(pager)), page_nodes(final(pager)), x, y, h1, lx, sep, uy, r->Ok_0, f),
        page_nodes(final(pager)) == shifted_nodes(page_nodes(old(pager)), x, y, sep, from_left),
        r->Ok_0 == shifted_sep(page_nodes(old(pager)), x, y, sep, from_left),
{
    let ghost m = page_nodes(pager);
    let ghost xv = xnode@;
    let ghost yv = ynode@;
    proof {
        lemma_stored_shape(pager, x);
        lemma_stored_shape(pager, y);
        lemma_leaf_ends(m, x, h1, lx, sep as int, f, minx);
        lemma_leaf_ends(m, y, h1, sep as int, uy, f, miny);
    }
    let moved = if from_left {
        borrow_left(xnode, sep, ynode)
    } else {
        borrow_right(xnode, sep, ynode)
    };
    let (x2, s2, y2) = match moved {
        Some(parts) => parts,
        None => {
            return Err(StorageError::CorruptNode);
        },
    };
    match store_node(pager, x, &x2) {
        Ok(()) => {},
        Err(e) => {
            return Err(e);
        },
    }
    match store_node(pager, y, &y2) {
        Ok(()) => {},
        Err(e) => {
            return Err(e);
        },
    }
    proof {
        let m3 = page_nodes(pager);
        assert(m3 == m.insert(x, x2@).insert(y, y2@));
        lemma_shifted(m, m3, x, y, h1, lx, sep, uy, f, minx, miny, from_left, x2@, s2, y2@);
    }
    Ok(s2)
}

/// Merges the node of page `y` into its left neighbour, the node of page
/// `x`, and frees page `y`.
pub(crate) fn merge_pair(
    pager: &mut Pager,
    x: PageId,
    y: PageId,
    xnode: Node,
    ynode: Node,
    sep: Key,
    Ghost(h1): Ghost<nat>,
    Ghost(lx): Ghost<int>,
    Ghost(uy): Ghost<int>,
    Ghost(f): Ghost<int>,
    Ghost(minx): Ghost<int>,
    Ghost(miny): Ghost<int>,
) -> (r: Result<(), StorageError>)
    requires
        idle(old(pager)),
        crate::btree::valid_fanout(f, old(pager).spec_page_size() as int),
        page_nodes(old(pager)).dom().contains(x),
        page_nodes(old(pager)).dom().contains(y),
        xnode@ == page_nodes(old(pager))[x],
        ynode@ == page_nodes(old(pager))[y],
        sub_wf(page_nodes(old(pager)), x, h1, lx, sep as int, f, minx),
        sub_wf(page_nodes(old(pager)), y, h1, sep as int, uy, f, miny),
        links_ok(page_nodes(old(pager)), x, h1),
        links_ok(page_nodes(old(pager)), y, h1),
        linked(
            page_nodes(old(pager)),
            last_leaf(page_nodes(old(pager)), x, h1),
            first_leaf(page_nodes(old(pager)), y, h1),
        ),
        x != y,
        lx < sep < uy,
        spec_fill(xnode@) + spec_fill(ynode@) == 2 * min_fill(f, h1) - 1,
        page_nodes(old(pager))[last_leaf(page_nodes(old(pager)), y, h1)]->right matches Some(rn) ==> {
            &&& rn != 0
            &&& rn != x
            &&& rn != y
            &&& page_nodes(old(pager)).dom().contains(rn)
            &&& page_nodes(old(pager))[rn] is Leaf
            &&& page_nodes(old(pager))[rn]->left == Some(last_leaf(page_nodes(old(pager)), y, h1))
        },
    ensures
        idle(final(pager)),
        r is Ok,
        final(pager).spec_capacity() == old(pager).spec_capacity(),
        final(pager).spec_page_size() == old(pager).spec_page_size(),
        final(pager).allocated() == old(pager).allocated().remove(y),
        final(pager).spare() == old(pager).spare() + 1,
        pair_merged(page_nodes(old(pager)), page_nodes(final(pager)), x, y, h1, lx, sep, uy, f),
        page_nodes(final(pager)) == merged_nodes(page_nodes(old(pager)), x, y, sep),
{
    let ghost m = page_nodes(pager);
    let ghost xv = xnode@;
    let ghost yv = ynode@;
    proof {
        lemma_stored_shape(pager, x);
        lemma_stored_shape(pager, y);
        lemma_leaf_ends(m, x, h1, lx, sep as int, f, minx);
        lemma_leaf_ends(m, y, h1, sep as int, uy, f, miny);
    }
    let right = match &ynode {
        Node::Leaf(leaf) => leaf.right_sibling,
        Node::Inner(_) => None,
    };
    let merged = match merge(xnode, sep, ynode) {
        Some(n) => n,
        None => {
            return Err(StorageError::CorruptNode);
        },
    };
    match store_node(pager, x, &merged) {
        Ok(()) => {},
        Err(e) => {
            return Err(e);
        },
    }
    match free_page(pager, y) {
        Ok(()) => {},
        Err(e) => {
            return Err(e);
        },
    }
    let ghost mid = page_nodes(pager);
    match right {
        Some(rn) => {
            match set_left_sibling(pager, rn, Some(x)) {
                Ok(()) => {},
                Err(e) => {
                    return Err(e);
                },
            }
        },
        None => {},
    }
    proof {
        let m3 = page_nodes(pager);
        assert(mid == m.insert(x, merged@).remove(y));
        if h1 == 0 {
            lemma_leaves_merged(m, m3, x, y, lx, sep, uy, f, minx, miny);
        } else {
            lemma_inners_merged(m, m3, x, y, h1, lx, sep, uy, f, minx, miny);
        }
    }
    Ok(())
}

/// Moves one entry between the children `j` and `j + 1` of what an
/// internal node is to hold, and puts the new separator in its place.
fn do_shift(
    pager: &mut Pager,
    f: u64,
    inner: &mut InnerNode,
    j: usize,
    xnode: Node,
    ynode: Node,
    from_left: bool,
    Ghost(h1): Ghost<nat>,
    Ghost(lo): Ghost<int>,
    Ghost(hi): Ghost<int>,
    Ghost(weak): Ghost<int>,
) -> (r: Result<(), StorageError>)
    requires
        idle(old(pager)),
        crate::btree::valid_fanout(f as int, old(pager).spec_page_size() as int),
        pair_ctx(
            page_nodes(old(pager)),
            old(inner).keys@,
            old(inner).children@,
            h1,
            lo,
            hi,
            f as int,
            weak,
            j as int,
        ),
        xnode@ == page_nodes(old(pager))[old(inner).children@[j as int]],
        ynode@ == page_nodes(old(pager))[old(inner).children@[j + 1]],
        from_left ==> weak == j + 1 && spec_fill(xnode@) > min_fill(f as int, h1) && spec_fill(
            ynode@,
        ) == min_fill(f as int, h1) - 1,
        !from_left ==> weak == j && spec_fill(ynode@) > min_fill(f as int, h1) && spec_fill(
            xnode@,
        ) == min_fill(f as int, h1) - 1,
    ensures
        idle(final(pager)),
        r is Ok,
        final(pager).spec_capacity() == old(pager).spec_capacity(),
        final(pager).spec_page_size() == old(pager).spec_page_size(),
        final(pager).allocated() == old(pager).allocated(),
        final(pager).spare() == old(pager).spare(),
        page_nodes(final(pager)).dom() == page_nodes(old(pager)).dom(),
        gave_back(
            old(pager).allocated(),
            final(pager).allocated(),
            page_nodes(old(pager)),
            page_nodes(final(pager)),
        ),
        page_nodes(final(pager)) == shifted_nodes(
            page_nodes(old(pager)),
            old(inner).children@[j as int],
            old(inner).children@[j + 1],
            old(inner).keys@[j as int],
            from_left,
        ),
        final(inner).keys@ == old(inner).keys@.update(
            j as int,
            shifted_sep(
                page_nodes(old(pager)),
                old(inner).children@[j as int],
                old(inner).children@[j + 1],
                old(inner).keys@[j as int],
                from_left,
            ),
        ),
        final(inner).children@ == old(inner).children@,
        vnode_ok(
            page_nodes(final(pager)),
            final(inner).keys@,
            final(inner).children@,
            h1,
            lo,
            hi,
            f as int,
            -1,
        ),
        vpost(
            page_nodes(old(pager)),
            page_nodes(final(pager)),
            old(inner).children@,
            final(inner).children@,
            h1,
        ),
        forall|k: Key|
            #![trigger route(final(inner).keys@, k)]
            0 <= route(final(inner).keys@, k) < final(inner).children@.len() && lookup(
                page_nodes(final(pager)),
                final(inner).children@[route(final(inner).keys@, k)],
                h1,
                k,
            ) == lookup(
                page_nodes(old(pager)),
                old(inner).children@[route(old(inner).keys@, k)],
                h1,
                k,
            ),
{
    let ghost m = page_nodes(pager);
    let ghost keys = inner.keys@;
    let ghost children = inner.children@;
    let ghost fi = f as int;
    let ghost jj = j as int;
    proof {
        lemma_pair_right(m, keys, children, h1, lo, hi, fi, weak, jj);
    }
    let n = inner.children.len();
    assert(j + 1 < n);
    let x = inner.children[j];
    let y = inner.children[j + 1];
    let sep = inner.keys[j];
    let s2 = match shift_pair(
        pager,
        x,
        y,
        xnode,
        ynode,
        sep,
        from_left,
        Ghost(h1),
        Ghost(lower(keys, jj, lo)),
        Ghost(upper(keys, jj + 1, hi)),
        Ghost(fi),
        Ghost(child_min(fi, h1, jj, weak)),
        Ghost(child_min(fi, h1, jj + 1, weak)),
    ) {
        Ok(k) => k,
        Err(e) => {
            return Err(e);
        },
    };
    inner.keys.set(j, s2);
    proof {
        let m3 = page_nodes(pager);
        assert(m3.dom() =~= m.dom());
        lemma_borrowed_vnode(m, m3, keys, children, h1, lo, hi, fi, weak, jj, s2);
        lemma_borrowed_vpost(m, m3, keys, children, h1, lo, hi, fi, weak, jj, s2);
        assert forall|k: Key|
            #![trigger route(keys.update(jj, s2), k)]
            0 <= route(keys.update(jj, s2), k) < children.len() && lookup(
                m3,
                children[route(keys.update(jj, s2), k)],
                h1,
                k,
            ) == lookup(m, children[route(keys, k)], h1, k) by {
            lemma_borrowed_route(m, m3, keys, children, h1, lo, hi, fi, weak, jj, s2, k);
        }
    }
    Ok(())
}

/// Merges child `j + 1` of what an internal node is to hold into child
/// `j`, and takes the separator and the child out.
fn do_merge(
    pager: &mut Pager,
    f: u64,
    inner: &mut InnerNode,
    j: usize,
    xnode: Node,
    ynode: Node,
    Ghost(h1): Ghost<nat>,
    Ghost(lo): Ghost<int>,
    Ghost(hi): Ghost<int>,
    Ghost(weak): Ghost<int>,
) -> (r: Result<(), StorageError>)
    requires
        idle(old(pager)),
        crate::btree::valid_fanout(f as int, old(pager).spec_page_size() as int),
        pair_ctx(
            page_nodes(old(pager)),
            old(inner).keys@,
            old(inner).children@,
            h1,
            lo,
            hi,
            f as int,
            weak,
            j as int,
        ),
        xnode@ == page_nodes(old(pager))[old(inner).children@[j as int]],
        ynode@ == page_nodes(old(pager))[old(inner).children@[j + 1]],
        spec_fill(xnode@) + spec_fill(ynode@) == 2 * min_fill(f as int, h1) - 1,
    ensures
        idle(final(pager)),
        r is Ok,
        final(pager).spec_capacity() == old(pager).spec_capacity(),
        final(pager).spec_page_size() == old(pager).spec_page_size(),
        final(pager).allocated() == old(pager).allocated().remove(old(inner).children@[j + 1]),
        final(pager).spare() == old(pager).spare() + 1,
        page_nodes(final(pager)).dom() == page_nodes(old(pager)).dom().remove(
            old(inner).children@[j + 1],
        ),
        page_nodes(old(pager)).dom().contains(old(inner).children@[j + 1]),
        gave_back(
            old(pager).allocated(),
            final(pager).allocated(),
            page_nodes(old(pager)),
            page_nodes(final(pager)),
        ),
        page_nodes(final(pager)) == merged_nodes(
            page_nodes(old(pager)),
            old(inner).children@[j as int],
            old(inner).children@[j + 1],
            old(inner).keys@[j as int],
        ),
        final(inner).keys@ == old(inner).keys@.remove(j as int),
        final(inner).children@ == old(inner).children@.remove(j + 1),
        vnode_ok(
            page_nodes(final(pager)),
            final(inner).keys@,
            final(inner).children@,
            h1,
            lo,
            hi,
            f as int,
            -1,
        ),
        vpost(
            page_nodes(old(pager)),
            page_nodes(final(pager)),
            old(inner).children@,
            final(inner).children@,
            h1,
        ),
        forall|k: Key|
            #![trigger route(final(inner).keys@, k)]
            0 <= route(final(inner).keys@, k) < final(inner).children@.len() && lookup(
                page_nodes(final(pager)),
                final(inner).children@[route(final(inner).keys@, k)],
                h1,
                k,
            ) == lookup(
                page_nodes(old(pager)),
                old(inner).children@[route(old(inner).keys@, k)],
                h1,
                k,
            ),
{
    let ghost m = page_nodes(pager);
    let ghost keys = inner.keys@;
    let ghost children = inner.children@;
    let ghost fi = f as int;
    let ghost jj = j as int;
    proof {
        lemma_pair_right(m, keys, children, h1, lo, hi, fi, weak, jj);
        lemma_leaf_ends(
            m,
            children[jj + 1],
            h1,
            keys[jj] as int,
            upper(keys, jj + 1, hi),
            fi,
            child_min(fi, h1, jj + 1, weak),
        );
    }
    let n = inner.children.len();
    assert(j + 1 < n);
    let x = inner.children[j];
    let y = inner.children[j + 1];
    let sep = inner.keys[j];
    match merge_pair(
        pager,
        x,
        y,
        xnode,
        ynode,
        sep,
        Ghost(h1),
        Ghost(lower(keys, jj, lo)),
        Ghost(upper(keys, jj + 1, hi)),
        Ghost(fi),
        Ghost(child_min(fi, h1, jj, weak)),
        Ghost(child_min(fi, h1, jj + 1, weak)),
    ) {
        Ok(()) => {},
        Err(e) => {
            return Err(e);
        },
    }
    let _ = inner.keys.remove(j);
    let _ = inner.children.remove(j + 1);
    proof {
        let m3 = page_nodes(pager);
        crate::node_io::lemma_stored_shape_all(old(pager));
        assert(m3.dom() =~= m.dom().remove(y));
        lemma_merged_vnode(m, m3, keys, children, h1, lo, hi, fi, weak, jj);
        lemma_merged_vpost(m, m3, keys, children, h1, lo, hi, fi, weak, jj);
        assert forall|k: Key|
            #![trigger route(keys.remove(jj), k)]
            0 <= route(keys.remove(jj), k) < children.len() - 1 && lookup(
                m3,
                children.remove(jj + 1)[route(keys.remove(jj), k)],
                h1,
                k,
            ) == lookup(m, children[route(keys, k)], h1, k) by {
            lemma_merged_route(m, m3, keys, children, h1, lo, hi, fi, weak, jj, k);
        }
    }
    Ok(())
}

/// Brings child `i` of an internal node, which is one entry short, back
/// to its minimum: by borrowing from the left sibling if that has an
/// entry to spare, else from the right sibling if that has one, else by
/// merging the child with its left sibling, or with its right sibling
/// when it is the first child. `inner` is what the node is to hold; it is
/// changed to fit.
pub(crate) fn fix_child(
    pager: &mut Pager,
    f: u64,
    inner: &mut InnerNode,
    i: usize,
    cnode: Node,
    Ghost(h1): Ghost<nat>,
    Ghost(lo): Ghost<int>,
    Ghost(hi): Ghost<int>,
) -> (r: Result<(), StorageError>)
    requires
        idle(old(pager)),
        crate::btree::valid_fanout(f as int, old(pager).spec_page_size() as int),
        vnode_ok(
            page_nodes(old(pager)),
            old(inner).keys@,
            old(inner).children@,
            h1,
            lo,
            hi,
            f as int,
            i as int,
        ),
        vright_ok(page_nodes(old(pager)), old(inner).children@, h1),
        old(inner).children@.len() >= 2,
        i < old(inner).children@.len(),
        cnode@ == page_nodes(old(pager))[old(inner).children@[i as int]],
        spec_fill(cnode@) == min_fill(f as int, h1) - 1,
    ensures
        idle(final(pager)),
        r is Ok,
        final(pager).spec_capacity() == old(pager).spec_capacity(),
        final(pager).spec_page_size() == old(pager).spec_page_size(),
        final(pager).allocated().subset_of(old(pager).allocated()),
        final(pager).spare() >= old(pager).spare(),
        mended(
            page_nodes(old(pager)),
            page_nodes(final(pager)),
            old(inner).keys@,
            old(inner).children@,
            final(inner).keys@,
            final(inner).children@,
            i as int,
            f as int,
            h1,
        ),
        gave_back(
            old(pager).allocated(),
            final(pager).allocated(),
            page_nodes(old(pager)),
            page_nodes(final(pager)),
        ),
        final(pager).spare() == old(pager).spare() + if mend_merges(
            page_nodes(old(pager)),
            old(inner).children@,
            i as int,
            f as int,
            h1,
        ) {
            1int
        } else {
            0int
        },
        old(inner).children@.len() - 1 <= final(inner).children@.len() <= old(inner).children@.len(),
        vnode_ok(
            page_nodes(final(pager)),
            final(inner).keys@,
            final(inner).children@,
            h1,
            lo,
            hi,
            f as int,
            -1,
        ),
        vpost(
            page_nodes(old(pager)),
            page_nodes(final(pager)),
            old(inner).children@,
            final(inner).children@,
            h1,
        ),
        forall|k: Key|
            #![trigger route(final(inner).keys@, k)]
            0 <= route(final(inner).keys@, k) < final(inner).children@.len() && lookup(
                page_nodes(final(pager)),
                final(inner).children@[route(final(inner).keys@, k)],
                h1,
                k,
            ) == lookup(
                page_nodes(old(pager)),
                old(inner).children@[route(old(inner).keys@, k)],
                h1,
                k,
            ),
{
    let ghost m = page_nodes(pager);
    let ghost keys = inner.keys@;
    let ghost children = inner.children@;
    let ghost fi = f as int;
    let ghost w = i as int;
    let n = inner.children.len();
    let short = fill(&cnode);
    let mut left_opt: Option<Node> = None;
    if i > 0 {
        let lid = inner.children[i - 1];
        proof {
            lemma_pair_right(m, keys, children, h1, lo, hi, fi, w, w - 1);
        }
        let lnode = match load_node(pager, lid) {
            Ok(nd) => nd,
            Err(e) => {
                return Err(e);
            },
        };
        let lf = fill(&lnode);
        if lf >= 2 && lf - 2 >= short {
            let r = do_shift(
                pager,
                f,
                inner,
                i - 1,
                lnode,
                cnode,
                true,
                Ghost(h1),
                Ghost(lo),
                Ghost(hi),
                Ghost(w),
            );
            proof {
                lemma_mend_left(m, keys, children, w, fi, h1);
            }
            return r;
        }
        left_opt = Some(lnode);
    }
    if i + 1 < n {
        let rid = inner.children[i + 1];
        proof {
            lemma_pair_right(m, keys, children, h1, lo, hi, fi, w, w);
        }
        let rnode = match load_node(pager, rid) {
            Ok(nd) => nd,
            Err(e) => {
                return Err(e);
            },
        };
        let rf = fill(&rnode);
        if rf >= 2 && rf - 2 >= short {
            let r = do_shift(
                pager,
                f,
                inner,
                i,
                cnode,
                rnode,
                false,
                Ghost(h1),
                Ghost(lo),
                Ghost(hi),
                Ghost(w),
            );
            proof {
                lemma_mend_right(m, keys, children, w, fi, h1);
            }
            return r;
        }
        if i == 0 {
            let r = do_merge(pager, f, inner, i, cnode, rnode, Ghost(h1), Ghost(lo), Ghost(hi), Ghost(w));
            proof {
                lemma_mend_merge(m, keys, children, w, fi, h1);
            }
            return r;
        }
    }
    match left_opt {
        Some(lnode) => {
            let r = do_merge(
                pager,
                f,
                inner,
                i - 1,
                lnode,
                cnode,
                Ghost(h1),
                Ghost(lo),
                Ghost(hi),
                Ghost(w),
            );
            proof {
                lemma_mend_merge(m, keys, children, w, fi, h1);
            }
            r
        },
        None => Err(StorageError::CorruptNode),
    }
}

/// Deletion can go on into the child that covers the key.
pub(crate) proof fn lemma_del_down(m: Nodes, id: PageId, h: nat, lo: int, hi: int, f: int, min: int, key: Key)
    requires
        h > 0,
        del_pre(m, id, h, lo, hi, f, min, key),
    ensures
        0 <= route(m[id]->keys, key) < m[id]->children.len(),
        del_pre(
            m,
            m[id]->children[route(m[id]->keys, key)],
            (h - 1) as nat,
            lower(m[id]->keys, route(m[id]->keys, key), lo),
            upper(m[id]->keys, route(m[id]->keys, key), hi),
            f,
            min_fill(f, (h - 1) as nat),
            key,
        ),
{
    let keys = m[id]->keys;
    let i = route(keys, key);
    lemma_route(keys, key);
    lemma_right_ok_down(m, id, h, lo, hi, f, min, i);
    assert(links_ok(m, m[id]->children[i], (h - 1) as nat));
}

/// Once the child is done, a descent through the node's keys and children
/// finds every key but the deleted one as before.
pub(crate) proof fn lemma_del_route(
    m: Nodes,
    m2: Nodes,
    a: Set<PageId>,
    id: PageId,
    h: nat,
    lo: int,
    hi: int,
    f: int,
    min: int,
    key: Key,
    k: Key,
)
    requires
        del_pre(m, id, h, lo, hi, f, min, key),
        kid_mid(m, m2, a, id, h, lo, hi, f, min, route(m[id]->keys, key), min_fill(f, (h - 1) as nat) - 1),
        forall|q: Key|
            #![trigger lookup(m2, m[id]->children[route(m[id]->keys, key)], (h - 1) as nat, q)]
            lookup(m2, m[id]->children[route(m[id]->keys, key)], (h - 1) as nat, q) == without(
                m,
                m[id]->children[route(m[id]->keys, key)],
                (h - 1) as nat,
                key,
                q,
            ),
    ensures
        0 <= route(m[id]->keys, k) < m[id]->children.len(),
        lookup(m2, m[id]->children[route(m[id]->keys, k)], (h - 1) as nat, k) == without(
            m,
            id,
            h,
            key,
            k,
        ),
{
    let keys = m[id]->keys;
    let i = route(keys, key);
    let x = route(keys, k);
    lemma_route(keys, key);
    lemma_route(keys, k);
    lemma_kid(m, m2, a, id, h, lo, hi, f, min, i, min_fill(f, (h - 1) as nat) - 1, x);
}

/// Deletes a key that the subtree at `id` holds.
pub(crate) fn delete_rec(
    pager: &mut Pager,
    f: u64,
    id: PageId,
    h: usize,
    key: Key,
    Ghost(lo): Ghost<int>,
    Ghost(hi): Ghost<int>,
    Ghost(min): Ghost<int>,
) -> (r: Result<(), StorageError>)
    requires
        idle(old(pager)),
        crate::btree::valid_fanout(f as int, old(pager).spec_page_size() as int),
        del_pre(page_nodes(old(pager)), id, h as nat, lo, hi, f as int, min, key),
        min <= min_fill(f as int, h as nat),
    ensures
        idle(final(pager)),
        r is Ok,
        final(pager).spec_capacity() == old(pager).spec_capacity(),
        final(pager).spec_page_size() == old(pager).spec_page_size(),
        final(pager).allocated().subset_of(old(pager).allocated()),
        final(pager).spare() >= old(pager).spare(),
        page_nodes(final(pager)) == del_nodes(page_nodes(old(pager)), id, h as nat, f as int, key),
        gave_back(
            old(pager).allocated(),
            final(pager).allocated(),
            page_nodes(old(pager)),
            page_nodes(final(pager)),
        ),
        del_post(
            page_nodes(old(pager)),
            page_nodes(final(pager)),
            old(pager).allocated(),
            id,
            h as nat,
            lo,
            hi,
            f as int,
            min,
            key,
        ),
    decreases h,
{
    let ghost m = page_nodes(pager);
    let ghost a = pager.allocated();
    let ghost fi = f as int;
    let ghost hn = h as nat;
    proof {
        pager.lemma_wf();
    }
    let node = match load_node(pager, id) {
        Ok(n) => n,
        Err(e) => {
            return Err(e);
        },
    };
    match node {
        Node::Leaf(leaf) => delete_from_leaf(pager, f, id, leaf, key, Ghost(lo), Ghost(hi), Ghost(min)),
        Node::Inner(mut inner) => {
            let i = child_index(&inner.keys, key);
            proof {
                lemma_del_down(m, id, hn, lo, hi, fi, min, key);
            }
            let child = inner.children[i];
            let ghost keys = inner.keys@;
            let ghost children = inner.children@;
            let ghost h1 = (h - 1) as nat;
            let ghost clo = lower(keys, i as int, lo);
            let ghost chi = upper(keys, i as int, hi);
            let ghost cmin = min_fill(fi, h1);
            match delete_rec(pager, f, child, h - 1, key, Ghost(clo), Ghost(chi), Ghost(cmin)) {
                Ok(()) => {},
                Err(e) => {
                    return Err(e);
                },
            }
            let ghost m2 = page_nodes(pager);
            proof {
                assert forall|p: PageId| #![trigger m.dom().contains(p)] m.dom().contains(
                    p,
                ) implies a.contains(p) by {}
                assert(kid_mid(m, m2, a, id, hn, lo, hi, fi, min, i as int, cmin - 1));
                lemma_kid_vstate(m, m2, a, id, hn, lo, hi, fi, min, i as int, cmin - 1, i as int);
                lemma_vright(m, m2, a, id, hn, keys, children, lo, hi, fi, min, i as int);
                assert forall|k: Key|
                    #![trigger route(keys, k)]
                    0 <= route(keys, k) < children.len() && lookup(
                        m2,
                        children[route(keys, k)],
                        h1,
                        k,
                    ) == without(m, id, hn, key, k) by {
                    lemma_del_route(m, m2, a, id, hn, lo, hi, fi, min, key, k);
                }
            }
            mend_and_store(
                pager,
                f,
                id,
                inner,
                i,
                h,
                Ghost(m),
                Ghost(a),
                Ghost(lo),
                Ghost(hi),
                Ghost(min),
                Ghost(key),
            )
        },
    }
}

/// The last step of a deletion at an internal node: the child that the
/// key was deleted from is brought back to its minimum if it is short,
/// and the node is written back if it has changed.
fn mend_and_store(
    pager: &mut Pager,
    f: u64,
    id: PageId,
    inner: InnerNode,
    i: usize,
    h: usize,
    Ghost(m): Ghost<Nodes>,
    Ghost(a): Ghost<Set<PageId>>,
    Ghost(lo): Ghost<int>,
    Ghost(hi): Ghost<int>,
    Ghost(min): Ghost<int>,
    Ghost(key): Ghost<Key>,
) -> (r: Result<(), StorageError>)
    requires
        idle(old(pager)),
        crate::btree::valid_fanout(f as int, old(pager).spec_page_size() as int),
        h > 0,
        2 <= min <= min_fill(f as int, h as nat),
        sub_wf(m, id, h as nat, lo, hi, f as int, min),
        right_ok(m, id, h as nat),
        forall|p: PageId| #![trigger m.dom().contains(p)] m.dom().contains(p) ==> a.contains(p),
        i < inner.children@.len(),
        inner.children@.len() >= 2,
        vstate(
            m,
            page_nodes(old(pager)),
            a,
            id,
            h as nat,
            inner.keys@,
            inner.children@,
            lo,
            hi,
            f as int,
            i as int,
        ),
        page_nodes(old(pager))[id] == (NodeView::Inner {
            keys: inner.keys@,
            children: inner.children@,
        }),
        m[id] == (NodeView::Inner { keys: inner.keys@, children: inner.children@ }),
        forall|k: Key|
            #![trigger route(inner.keys@, k)]
            0 <= route(inner.keys@, k) < inner.children@.len() && lookup(
                page_nodes(old(pager)),
                inner.children@[route(inner.keys@, k)],
                (h - 1) as nat,
                k,
            ) == without(m, id, h as nat, key, k),
    ensures
        idle(final(pager)),
        r is Ok,
        final(pager).spec_capacity() == old(pager).spec_capacity(),
        final(pager).spec_page_size() == old(pager).spec_page_size(),
        final(pager).allocated().subset_of(old(pager).allocated()),
        final(pager).spare() >= old(pager).spare(),
        del_post(m, page_nodes(final(pager)), a, id, h as nat, lo, hi, f as int, min, key),
        gave_back(
            old(pager).allocated(),
            final(pager).allocated(),
            page_nodes(old(pager)),
            page_nodes(final(pager)),
        ),
        page_nodes(final(pager)) == if spec_fill(
            page_nodes(old(pager))[inner.children@[i as int]],
        ) >= min_fill(f as int, (h - 1) as nat) {
            page_nodes(old(pager))
        } else {
            mend(
                page_nodes(old(pager)),
                inner.keys@,
                inner.children@,
                i as int,
                f as int,
                (h - 1) as nat,
            ).0.insert(
                id,
                NodeView::Inner {
                    keys: mend(
                        page_nodes(old(pager)),
                        inner.keys@,
                        inner.children@,
                        i as int,
                        f as int,
                        (h - 1) as nat,
                    ).1,
                    children: mend(
                        page_nodes(old(pager)),
                        inner.keys@,
                        inner.children@,
                        i as int,
                        f as int,
                        (h - 1) as nat,
                    ).2,
                },
            )
        },
{
    let mut inner = inner;
    let ghost m2 = page_nodes(pager);
    let ghost fi = f as int;
    let ghost hn = h as nat;
    let ghost keys = inner.keys@;
    let ghost children = inner.children@;
    let ghost h1 = (hn - 1) as nat;
    let ghost clo = lower(keys, i as int, lo);
    let ghost chi = upper(keys, i as int, hi);
    let ghost cmin = min_fill(fi, h1);
    let child = inner.children[i];
    proof {
        pager.lemma_wf();
        lemma_vright(m, m2, a, id, hn, keys, children, lo, hi, fi, min, i as int);
        assert(sub_wf(m2, children[i as int], h1, clo, chi, fi, cmin - 1));
        crate::tree_spec::lemma_owned_in_dom(m, id, hn, lo, hi, fi, min, id);
    }
            let cnode = match load_node(pager, child) {
                Ok(n) => n,
                Err(e) => {
                    return Err(e);
                },
            };
            if fill(&cnode) as u64 >= min_fill_of(f, h - 1) {
                proof {
                    crate::tree_spec::lemma_min_change(m2, child, h1, clo, chi, fi, cmin - 1, cmin);
                    assert(vnode_ok(m2, keys, children, h1, lo, hi, fi, -1));
                    assert(m2 =~= m2.insert(id, NodeView::Inner { keys, children }));
                    lemma_install_whole(m, m2, m2, a, id, hn, keys, children, lo, hi, fi, min - 1);
                }
                return Ok(());
            }
            match fix_child(pager, f, &mut inner, i, cnode, Ghost(h1), Ghost(lo), Ghost(hi)) {
                Ok(()) => {},
                Err(e) => {
                    return Err(e);
                },
            }
            let ghost m3 = page_nodes(pager);
            let ghost keys3 = inner.keys@;
            let ghost children3 = inner.children@;
            proof {
                lemma_vstate_step(
                    m,
                    m2,
                    m3,
                    a,
                    id,
                    hn,
                    keys,
                    children,
                    keys3,
                    children3,
                    lo,
                    hi,
                    fi,
                    min,
                    i as int,
                );
                crate::node_io::lemma_stored_shape(pager, id);
            }
            let node = Node::Inner(inner);
            match store_node(pager, id, &node) {
                Ok(()) => {},
                Err(e) => {
                    return Err(e);
                },
            }
            proof {
                let m4 = page_nodes(pager);
                lemma_install_whole(m, m3, m4, a, id, hn, keys3, children3, lo, hi, fi, min - 1);
            }
            Ok(())
}

} // verus!
