//! The full-tree validator: a walk over every node that checks all that a
//! well-formed tree promises.

use vstd::prelude::*;
use crate::node::{InnerNode, Key, LeafNode, Node};
use crate::node_io::{idle, load_node, page_nodes};
use crate::os_interface::PageId;
use crate::pager::Pager;
use crate::tree_spec::{
    first_leaf, key_limit, last_leaf, linked, links_ok, lower, min_fill, node_fits,
    sorted_entries, sorted_keys, sub_wf, upper,
};

verus! {

/// The upper bound that an optional key stands for: the key, or one more
/// than the largest key when there is none.
pub open spec fn bound(hi: Option<Key>) -> int {
    match hi {
        Some(k) => k as int,
        None => key_limit(),
    }
}

/// Whether `k` is below the bound.
fn below(k: Key, hi: Option<Key>) -> (r: bool)
    ensures
        r == (k < bound(hi)),
{
    match hi {
        Some(b) => k < b,
        None => true,
    }
}

/// Whether the entries of a leaf are strictly increasing and lie in
/// `[lo, hi)`.
fn check_entries(leaf: &LeafNode, lo: Key, hi: Option<Key>) -> (r: bool)
    ensures
        r == (sorted_entries(leaf.entries@) && forall|i: int|
            0 <= i < leaf.entries@.len() ==> lo <= (#[trigger] leaf.entries@[i]).key < bound(hi)),
{
    let n = leaf.entries.len();
    let mut i: usize = 0;
    while i < n
        invariant
            i <= n,
            n == leaf.entries@.len(),
            forall|a: int, b: int| 0 <= a < b < i ==> leaf.entries@[a].key < leaf.entries@[b].key,
            forall|a: int| 0 <= a < i ==> lo <= (#[trigger] leaf.entries@[a]).key < bound(hi),
        decreases n - i,
    {
        let k = leaf.entries[i].key;
        if k < lo || !below(k, hi) {
            return false;
        }
        if i > 0 && leaf.entries[i - 1].key >= k {
            return false;
        }
        assert forall|a: int, b: int| 0 <= a < b < i + 1 implies leaf.entries@[a].key
            < leaf.entries@[b].key by {
            if b == i && a < i - 1 {
                assert(leaf.entries@[a].key < leaf.entries@[i - 1].key);
            }
        }
        i = i + 1;
    }
    true
}

/// Whether the separator keys of an internal node are strictly
/// increasing and lie strictly between `lo` and `hi`.
fn check_keys(inner: &InnerNode, lo: Key, hi: Option<Key>) -> (r: bool)
    ensures
        r == (sorted_keys(inner.keys@) && forall|i: int|
            0 <= i < inner.keys@.len() ==> lo < #[trigger] inner.keys@[i] < bound(hi)),
{
    let n = inner.keys.len();
    let mut i: usize = 0;
    while i < n
        invariant
            i <= n,
            n == inner.keys@.len(),
            forall|a: int, b: int| 0 <= a < b < i ==> inner.keys@[a] < inner.keys@[b],
            forall|a: int| 0 <= a < i ==> lo < #[trigger] inner.keys@[a] < bound(hi),
        decreases n - i,
    {
        let k = inner.keys[i];
        if k <= lo || !below(k, hi) {
            return false;
        }
        if i > 0 && inner.keys[i - 1] >= k {
            return false;
        }
        assert forall|a: int, b: int| 0 <= a < b < i + 1 implies inner.keys@[a] < inner.keys@[b] by {
            if b == i && a < i - 1 {
                assert(inner.keys@[a] < inner.keys@[i - 1]);
            }
        }
        i = i + 1;
    }
    true
}

/// Whether a node fits its place `h` levels above the leaves, over the
/// keys from `lo` up to the bound `hi`, in a tree of fanout `f`, with at
/// least `min` entries or children.
pub fn fits(node: &Node, h: usize, lo: Key, hi: Option<Key>, f: u64, min: u64) -> (r: bool)
    ensures
        r == node_fits(node@, h as nat, lo as int, bound(hi), f as int, min as int),
{
    match node {
        Node::Leaf(leaf) => {
            let n = leaf.entries.len() as u64;
            h == 0 && min <= n && n < f && check_entries(leaf, lo, hi)
        },
        Node::Inner(inner) => {
            let n = inner.children.len();
            h > 0 && n >= 1 && inner.keys.len() == n - 1 && min <= n as u64 && n as u64 <= f
                && check_keys(inner, lo, hi)
        },
    }
}

/// Whether leaf `a` and leaf `b` point at each other as right and left
/// sibling.
pub(crate) fn check_link(pager: &mut Pager, a: PageId, b: PageId) -> (r: bool)
    requires
        idle(old(pager)),
    ensures
        idle(final(pager)),
        final(pager).same_pages(old(pager)),
        page_nodes(final(pager)) == page_nodes(old(pager)),
        r == linked(page_nodes(old(pager)), a, b),
{
    let na = match load_node(pager, a) {
        Ok(n) => n,
        Err(_) => {
            return false;
        },
    };
    let nb = match load_node(pager, b) {
        Ok(n) => n,
        Err(_) => {
            return false;
        },
    };
    match (na, nb) {
        (Node::Leaf(la), Node::Leaf(lb)) => la.right_sibling == Some(b) && lb.left_sibling == Some(a),
        _ => false,
    }
}

/// Checks the subtree at `id`: whether it is well formed for fanout `f`
/// over the keys from `lo` up to the bound `hi`, with at least `min`
/// entries in its top node, and whether its leaves are chained in order.
/// Returns the first and the last leaf of the subtree if so.
pub(crate) fn check_subtree(
    pager: &mut Pager,
    id: PageId,
    h: usize,
    lo: Key,
    hi: Option<Key>,
    min: u64,
    f: u64,
) -> (r: Option<(PageId, PageId)>)
    requires
        idle(old(pager)),
        3 <= f < u64::MAX,
    ensures
        idle(final(pager)),
        final(pager).same_pages(old(pager)),
        page_nodes(final(pager)) == page_nodes(old(pager)),
        r is Some <==> sub_wf(page_nodes(old(pager)), id, h as nat, lo as int, bound(hi), f as int, min as int)
            && links_ok(page_nodes(old(pager)), id, h as nat),
        r is Some ==> r->Some_0.0 == first_leaf(page_nodes(old(pager)), id, h as nat) && r->Some_0.1
            == last_leaf(page_nodes(old(pager)), id, h as nat),
    decreases h,
{
    let ghost m = page_nodes(pager);
    if id == 0 {
        return None;
    }
    let node = match load_node(pager, id) {
        Ok(n) => n,
        Err(_) => {
            return None;
        },
    };
    if !fits(&node, h, lo, hi, f, min) {
        return None;
    }
    match node {
        Node::Leaf(leaf) => Some((id, id)),
        Node::Inner(inner) => {
            let n = inner.children.len();
            let ghost keys = inner.keys@;
            let ghost children = inner.children@;
            let ghost h1 = (h - 1) as nat;
            let cmin: u64 = if h - 1 == 0 {
                f / 2
            } else {
                (f + 1) / 2
            };
            let mut first: PageId = 0;
            let mut last: PageId = 0;
            let mut i: usize = 0;
            while i < n
                invariant
                    idle(pager),
                    pager.same_pages(old(pager)),
                    page_nodes(pager) == m,
                    m == page_nodes(old(pager)),
                    m.dom().contains(id),
                    m[id] == inner@,
                    keys == inner.keys@,
                    children == inner.children@,
                    n == children.len(),
                    keys.len() + 1 == n,
                    h > 0,
                    h1 == (h - 1) as nat,
                    cmin == min_fill(f as int, h1),
                    3 <= f < u64::MAX,
                    i <= n,
                    forall|x: int|
                        0 <= x < i ==> sub_wf(
                            m,
                            #[trigger] children[x],
                            h1,
                            lower(keys, x, lo as int),
                            upper(keys, x, bound(hi)),
                            f as int,
                            min_fill(f as int, h1),
                        ) && links_ok(m, children[x], h1),
                    forall|x: int, y: int|
                        0 <= x && y == x + 1 && y < i ==> linked(
                            m,
                            last_leaf(m, #[trigger] children[x], h1),
                            first_leaf(m, #[trigger] children[y], h1),
                        ),
                    i > 0 ==> first == first_leaf(m, children[0], h1) && last == last_leaf(
                        m,
                        children[i - 1],
                        h1,
                    ),
                decreases n - i,
            {
                let cl = if i == 0 {
                    lo
                } else {
                    inner.keys[i - 1]
                };
                let ch = if i == n - 1 {
                    hi
                } else {
                    Some(inner.keys[i])
                };
                let ends = check_subtree(pager, inner.children[i], h - 1, cl, ch, cmin, f);
                match ends {
                    None => {
                        proof {
                            let c = children[i as int];
                            if sub_wf(m, id, h as nat, lo as int, bound(hi), f as int, min as int)
                                && links_ok(m, id, h as nat) {
                                assert(sub_wf(
                                    m,
                                    c,
                                    h1,
                                    lower(keys, i as int, lo as int),
                                    upper(keys, i as int, bound(hi)),
                                    f as int,
                                    min_fill(f as int, h1),
                                ));
                                assert(links_ok(m, c, h1));
                            }
                        }
                        return None;
                    },
                    Some((fl, ll)) => {
                        if i == 0 {
                            first = fl;
                        } else {
                            if !check_link(pager, last, fl) {
                                proof {
                                    let x = i as int - 1;
                                    let y = i as int;
                                    if links_ok(m, id, h as nat) {
                                        assert(linked(
                                            m,
                                            last_leaf(m, children[x], h1),
                                            first_leaf(m, children[y], h1),
                                        ));
                                    }
                                }
                                return None;
                            }
                        }
                        last = ll;
                    },
                }
                i = i + 1;
            }
            proof {
                assert(sub_wf(m, id, h as nat, lo as int, bound(hi), f as int, min as int));
                assert(links_ok(m, id, h as nat));
            }
            Some((first, last))
        },
    }
}

/// Checks a whole tree: whether the nodes below `root` form a well-formed
/// tree of the given height for fanout `f`.
pub fn check_tree(pager: &mut Pager, root: PageId, height: usize, f: u64) -> (r: bool)
    requires
        idle(old(pager)),
    ensures
        idle(final(pager)),
        final(pager).same_pages(old(pager)),
        page_nodes(final(pager)) == page_nodes(old(pager)),
        r == (crate::btree::valid_fanout(f as int, old(pager).spec_page_size() as int)
            && crate::tree_spec::tree_wf(page_nodes(old(pager)), root, height as nat, f as int)),
{
    let ghost m = page_nodes(pager);
    proof {
        pager.lemma_wf();
    }
    let words = pager.page_size() / 8;
    if f < 3 || f > (words as u64 - 3) / 2 {
        return false;
    }
    let min: u64 = if height == 0 {
        0
    } else {
        2
    };
    let ends = check_subtree(pager, root, height, 0, None, min, f);
    match ends {
        None => false,
        Some((fl, ll)) => {
            proof {
                crate::tree_spec::lemma_leaf_ends(
                    m,
                    root,
                    height as nat,
                    0,
                    key_limit(),
                    f as int,
                    min as int,
                );
            }
            let first = match load_node(pager, fl) {
                Ok(n) => n,
                Err(_) => {
                    return false;
                },
            };
            let last = match load_node(pager, ll) {
                Ok(n) => n,
                Err(_) => {
                    return false;
                },
            };
            match (first, last) {
                (Node::Leaf(a), Node::Leaf(b)) => a.left_sibling.is_none() && b.right_sibling.is_none(),
                _ => false,
            }
        },
    }
}

} // verus!
