//! The leaves of a tree in key order, the chain that links them, and what
//! a walk along the chain yields.

use vstd::prelude::*;
use crate::node::{Key, LeafNodeInterior};
use crate::os_interface::PageId;
use crate::rebalance::lemma_entries_join;
use crate::tree_spec::{
    first_leaf, has_key, last_leaf, leaf_get, lemma_route, linked, links_ok, lookup, lower,
    min_fill, Nodes, route, sorted_entries, sub_wf, upper,
};

verus! {

/// The leaves of the subtree at `id`, from left to right.
pub open spec fn leaves(m: Nodes, id: PageId, h: nat) -> Seq<PageId>
    decreases h, 0nat,
{
    if h > 0 && m.dom().contains(id) && m[id] is Inner {
        leaves_upto(m, m[id]->children, (h - 1) as nat, m[id]->children.len())
    } else {
        seq![id]
    }
}

/// The leaves below the first `n` of the children, from left to right.
pub open spec fn leaves_upto(m: Nodes, children: Seq<PageId>, h1: nat, n: nat) -> Seq<PageId>
    decreases h1, n + 1,
{
    if n == 0 || n > children.len() {
        Seq::empty()
    } else {
        leaves_upto(m, children, h1, (n - 1) as nat) + leaves(m, children[n - 1], h1)
    }
}

/// The entries of the given leaves, one leaf after the other.
pub open spec fn chain_entries(m: Nodes, ls: Seq<PageId>) -> Seq<LeafNodeInterior>
    decreases ls.len(),
{
    if ls.len() == 0 {
        Seq::empty()
    } else {
        chain_entries(m, ls.drop_last()) + m[ls.last()]->entries
    }
}

/// The entries of the subtree at `id` in key order: what an in-order
/// traversal yields.
pub open spec fn entries_in_order(m: Nodes, id: PageId, h: nat) -> Seq<LeafNodeInterior> {
    chain_entries(m, leaves(m, id, h))
}

/// The entries of leaves taken in two runs are the entries of the first
/// run followed by those of the second.
pub(crate) proof fn lemma_chain_entries_concat(m: Nodes, a: Seq<PageId>, b: Seq<PageId>)
    ensures
        chain_entries(m, a + b) == chain_entries(m, a) + chain_entries(m, b),
    decreases b.len(),
{
    if b.len() == 0 {
        assert(a + b =~= a);
        assert(chain_entries(m, a) + chain_entries(m, b) =~= chain_entries(m, a));
    } else {
        assert((a + b).drop_last() =~= a + b.drop_last());
        lemma_chain_entries_concat(m, a, b.drop_last());
        assert((a + b).last() == b.last());
        assert(chain_entries(m, a + b) =~= chain_entries(m, a) + chain_entries(m, b));
    }
}

/// The leaves of a subtree whose chain is in order follow each other
/// along the right-sibling pointers, from the first leaf to the last.
pub open spec fn chained(m: Nodes, ls: Seq<PageId>) -> bool {
    &&& ls.len() >= 1
    &&& forall|i: int| 0 <= i < ls.len() ==> m.dom().contains(#[trigger] ls[i]) && m[ls[i]] is Leaf
    &&& forall|i: int, j: int|
        #![trigger ls[i], ls[j]]
        0 <= i && j == i + 1 && j < ls.len() ==> m[ls[i]]->right == Some(ls[j]) && m[ls[j]]->left
            == Some(ls[i])
}

/// In a well-formed subtree the leaves are chained from the first leaf to
/// the last.
pub(crate) proof fn lemma_leaves_chained(m: Nodes, id: PageId, h: nat, lo: int, hi: int, f: int, min: int)
    requires
        sub_wf(m, id, h, lo, hi, f, min),
        links_ok(m, id, h),
    ensures
        chained(m, leaves(m, id, h)),
        leaves(m, id, h)[0] == first_leaf(m, id, h),
        leaves(m, id, h).last() == last_leaf(m, id, h),
    decreases h, 0nat,
{
    if h > 0 {
        let children = m[id]->children;
        lemma_leaves_upto_chained(m, id, h, lo, hi, f, min, children.len());
    }
}

/// The leaves below the first `n` children of a well-formed node are
/// chained from the first leaf of the first child to the last leaf of
/// child `n - 1`.
pub(crate) proof fn lemma_leaves_upto_chained(
    m: Nodes,
    id: PageId,
    h: nat,
    lo: int,
    hi: int,
    f: int,
    min: int,
    n: nat,
)
    requires
        h > 0,
        sub_wf(m, id, h, lo, hi, f, min),
        links_ok(m, id, h),
        1 <= n <= m[id]->children.len(),
    ensures
        chained(m, leaves_upto(m, m[id]->children, (h - 1) as nat, n)),
        leaves_upto(m, m[id]->children, (h - 1) as nat, n)[0] == first_leaf(
            m,
            m[id]->children[0],
            (h - 1) as nat,
        ),
        leaves_upto(m, m[id]->children, (h - 1) as nat, n).last() == last_leaf(
            m,
            m[id]->children[n - 1],
            (h - 1) as nat,
        ),
    decreases (h - 1) as nat, n + 1,
{
    let keys = m[id]->keys;
    let children = m[id]->children;
    let h1 = (h - 1) as nat;
    let c = children[n - 1];
    let lc = leaves(m, c, h1);
    assert(sub_wf(m, c, h1, lower(keys, n - 1, lo), upper(keys, n - 1, hi), f, min_fill(f, h1)));
    assert(links_ok(m, c, h1));
    lemma_leaves_chained(m, c, h1, lower(keys, n - 1, lo), upper(keys, n - 1, hi), f, min_fill(f, h1));
    if n == 1 {
        assert(leaves_upto(m, children, h1, 0) =~= Seq::<PageId>::empty());
        assert(leaves_upto(m, children, h1, n) =~= lc);
    } else {
        let p = (n - 1) as nat;
        let lp = leaves_upto(m, children, h1, p);
        lemma_leaves_upto_chained(m, id, h, lo, hi, f, min, p);
        let all = lp + lc;
        assert(leaves_upto(m, children, h1, n) == all);
        assert(linked(m, last_leaf(m, children[n - 2], h1), first_leaf(m, children[n - 1], h1)));
        assert forall|i: int, j: int|
            #![trigger all[i], all[j]]
            0 <= i && j == i + 1 && j < all.len() implies m[all[i]]->right == Some(all[j])
            && m[all[j]]->left == Some(all[i]) by {
            let k = lp.len() as int;
            if j < k {
                assert(all[i] == lp[i] && all[j] == lp[j]);
            } else if i >= k {
                assert(all[i] == lc[i - k] && all[j] == lc[j - k]);
            } else {
                assert(all[i] == lp.last());
                assert(all[j] == lc[0]);
            }
        }
        assert forall|i: int| 0 <= i < all.len() implies m.dom().contains(#[trigger] all[i])
            && m[all[i]] is Leaf by {
            let k = lp.len() as int;
            if i < k {
                assert(all[i] == lp[i]);
            } else {
                assert(all[i] == lc[i - k]);
            }
        }
        assert(all[0] == lp[0]);
        assert(all.last() == lc.last());
    }
}

/// No entry of a leaf whose keys lie in a range has a key outside it.
pub(crate) proof fn lemma_outside_not_held(entries: Seq<LeafNodeInterior>, lo: int, hi: int, k: Key)
    requires
        forall|i: int| 0 <= i < entries.len() ==> lo <= (#[trigger] entries[i]).key < hi,
        k < lo || k >= hi,
    ensures
        !has_key(entries, k),
        leaf_get(entries, k) is None,
{
}

/// The entries of a well-formed subtree in key order are strictly
/// increasing, lie in the subtree's range, and hold for every key what a
/// descent finds.
pub(crate) proof fn lemma_in_order(m: Nodes, id: PageId, h: nat, lo: int, hi: int, f: int, min: int)
    requires
        sub_wf(m, id, h, lo, hi, f, min),
    ensures
        sorted_entries(entries_in_order(m, id, h)),
        forall|i: int|
            0 <= i < entries_in_order(m, id, h).len() ==> lo <= (#[trigger] entries_in_order(
                m,
                id,
                h,
            )[i]).key < hi,
        forall|k: Key|
            #![trigger leaf_get(entries_in_order(m, id, h), k)]
            leaf_get(entries_in_order(m, id, h), k) == lookup(m, id, h, k),
    decreases h, 0nat,
{
    if h == 0 {
        let ls = seq![id];
        assert(ls.drop_last() =~= Seq::<PageId>::empty());
        assert(chain_entries(m, ls.drop_last()) =~= Seq::<LeafNodeInterior>::empty());
        assert(ls.last() == id);
        assert(chain_entries(m, ls) =~= m[id]->entries);
    } else {
        let children = m[id]->children;
        let keys = m[id]->keys;
        lemma_in_order_upto(m, id, h, lo, hi, f, min, children.len());
        assert forall|k: Key|
            #![trigger leaf_get(entries_in_order(m, id, h), k)]
            leaf_get(entries_in_order(m, id, h), k) == lookup(m, id, h, k) by {
            lemma_route(keys, k);
        }
        let e = entries_in_order(m, id, h);
        assert forall|i: int| 0 <= i < e.len() implies lo <= (#[trigger] e[i]).key < hi by {
            if keys.len() > 0 {
                assert(keys[keys.len() - 1] < hi);
            }
        }
    }
}

/// The upper end of the range of the first `n` children.
pub open spec fn reach(keys: Seq<Key>, n: nat, lo: int, hi: int) -> int {
    if n == 0 {
        lo
    } else {
        upper(keys, n - 1, hi)
    }
}

/// The entries below the first `n` children of a well-formed node, in key
/// order, are strictly increasing, lie below the range of child `n`, and
/// hold for every key that the first `n` children cover what a descent
/// finds, and nothing for the other keys.
pub(crate) proof fn lemma_in_order_upto(
    m: Nodes,
    id: PageId,
    h: nat,
    lo: int,
    hi: int,
    f: int,
    min: int,
    n: nat,
)
    requires
        h > 0,
        sub_wf(m, id, h, lo, hi, f, min),
        n <= m[id]->children.len(),
    ensures
        ({
            let e = chain_entries(m, leaves_upto(m, m[id]->children, (h - 1) as nat, n));
            &&& sorted_entries(e)
            &&& forall|i: int|
                0 <= i < e.len() ==> lo <= (#[trigger] e[i]).key < reach(m[id]->keys, n, lo, hi)
            &&& forall|k: Key|
                #![trigger leaf_get(e, k)]
                leaf_get(e, k) == if route(m[id]->keys, k) < n {
                    lookup(m, m[id]->children[route(m[id]->keys, k)], (h - 1) as nat, k)
                } else {
                    None
                }
        }),
    decreases (h - 1) as nat, n + 1,
{
    let keys = m[id]->keys;
    let children = m[id]->children;
    let h1 = (h - 1) as nat;
    let e = chain_entries(m, leaves_upto(m, children, h1, n));
    if n == 0 {
        assert(e =~= Seq::<LeafNodeInterior>::empty());
        assert forall|k: Key| #![trigger leaf_get(e, k)] leaf_get(e, k) == if route(keys, k) < n {
            lookup(m, children[route(keys, k)], h1, k)
        } else {
            None
        } by {
            lemma_route(keys, k);
        }
    } else {
        let p = (n - 1) as nat;
        let c = children[n - 1];
        let l = lower(keys, n - 1, lo);
        let u = upper(keys, n - 1, hi);
        let ep = chain_entries(m, leaves_upto(m, children, h1, p));
        let ec = entries_in_order(m, c, h1);
        assert(sub_wf(m, c, h1, l, u, f, min_fill(f, h1)));
        lemma_in_order_upto(m, id, h, lo, hi, f, min, p);
        lemma_in_order(m, c, h1, l, u, f, min_fill(f, h1));
        lemma_chain_entries_concat(m, leaves_upto(m, children, h1, p), leaves(m, c, h1));
        assert(e == ep + ec);
        assert(lo <= l) by {
            if n - 1 > 0 {
                assert(lo < keys[n - 2]);
            }
        }
        if p == 0 {
            assert(ep =~= Seq::<LeafNodeInterior>::empty());
            assert(e =~= ec);
            assert forall|k: Key| #![trigger leaf_get(e, k)] leaf_get(e, k) == if route(keys, k)
                < n {
                lookup(m, children[route(keys, k)], h1, k)
            } else {
                None
            } by {
                lemma_route(keys, k);
                if route(keys, k) >= n {
                    lemma_outside_not_held(ec, l, u, k);
                }
            }
        } else {
            let sep = keys[n - 2];
            assert(reach(keys, p, lo, hi) == sep);
            assert(l == sep);
            lemma_entries_join(ep, ec, sep);
            assert forall|i: int| 0 <= i < e.len() implies lo <= (#[trigger] e[i]).key < u by {
                if i < ep.len() {
                    assert(e[i] == ep[i]);
                    if n - 1 < keys.len() {
                        assert(keys[n - 2] < keys[n - 1]);
                    } else {
                        assert(keys[n - 2] < hi);
                    }
                } else {
                    assert(e[i] == ec[i - ep.len()]);
                }
            }
            assert forall|k: Key| #![trigger leaf_get(e, k)] leaf_get(e, k) == if route(keys, k)
                < n {
                lookup(m, children[route(keys, k)], h1, k)
            } else {
                None
            } by {
                lemma_route(keys, k);
                let r = route(keys, k);
                if k < sep {
                    if r > n - 2 {
                        assert(keys[n - 2] <= keys[r - 1]);
                    }
                    assert(leaf_get(e, k) == leaf_get(ep, k));
                } else {
                    if r < n - 1 {
                        assert(keys[r] <= keys[n - 2]);
                    }
                    assert(leaf_get(e, k) == leaf_get(ec, k));
                    if r >= n {
                        lemma_outside_not_held(ec, l, u, k);
                    }
                }
            }
        }
    }
}

} // verus!
