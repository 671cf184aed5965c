//! Rebalancing two neighbouring children of a node after a deletion: one
//! entry moves from the fuller child to the other, or the two are merged
//! into the left one and the right one's page is freed.

use vstd::prelude::*;
use crate::node::{Key, LeafNodeInterior, NodeView, Value};
use crate::node_ops::{spec_borrow_left, spec_borrow_right, spec_merge};
use crate::os_interface::PageId;
use crate::tree_spec::{
    child_min, first_leaf, has_key, last_leaf, leaf_get, lemma_disjoint_one, lemma_leaf_ends,
    lemma_leaf_get_at, lemma_owned_in_dom, lemma_owned_keys, lemma_route, lemma_route_is,
    lemma_subtree_kept, lemma_vnode_install, lemma_vnode_left, lemma_vnode_right, linked, links_ok,
    lookup, lower, min_fill, Nodes, owns, relink_left, route, sorted_entries, sorted_keys, sub_wf,
    upper, vnode_ok, vowns,
};

verus! {

/// The right neighbour of the last leaf below `children`, if there is
/// one, is a leaf that is not below them and points back at that leaf.
pub open spec fn vright_ok(m: Nodes, children: Seq<PageId>, h1: nat) -> bool {
    let l = last_leaf(m, children.last(), h1);
    m[l]->right matches Some(r) ==> {
        &&& r != 0
        &&& m.dom().contains(r)
        &&& m[r] is Leaf
        &&& !vowns(m, children, h1, r)
        &&& m[r]->left == Some(l)
    }
}

/// Children `j` and `j + 1` of what a node is to hold are to be
/// rebalanced: the whole would make a well-formed node, but that one of
/// the two may be one entry short.
pub open spec fn pair_ctx(
    m: Nodes,
    keys: Seq<Key>,
    children: Seq<PageId>,
    h1: nat,
    lo: int,
    hi: int,
    f: int,
    weak: int,
    j: int,
) -> bool {
    &&& f >= 3
    &&& vnode_ok(m, keys, children, h1, lo, hi, f, weak)
    &&& 0 <= j
    &&& j + 1 < children.len()
    &&& (weak == j || weak == j + 1)
    &&& vright_ok(m, children, h1)
}

/// What a descent found below the two children before they were
/// rebalanced.
pub open spec fn pair_lookup(m: Nodes, x: PageId, y: PageId, h1: nat, sep: Key, k: Key) -> Option<
    Value,
> {
    if k < sep {
        lookup(m, x, h1, k)
    } else {
        lookup(m, y, h1, k)
    }
}

/// An entry has moved between the children `x` and `y`, which now meet at
/// the separator `s2`: both are well formed with their minimum, the leaf
/// chain runs through them as before, every key is found as before, and
/// nothing else has changed.
pub open spec fn pair_borrowed(
    m: Nodes,
    m3: Nodes,
    x: PageId,
    y: PageId,
    h1: nat,
    lx: int,
    sep: Key,
    uy: int,
    s2: Key,
    f: int,
) -> bool {
    let ff = first_leaf(m, x, h1);
    let ll = last_leaf(m, y, h1);
    &&& lx < s2 < uy
    &&& sub_wf(m3, x, h1, lx, s2 as int, f, min_fill(f, h1))
    &&& sub_wf(m3, y, h1, s2 as int, uy, f, min_fill(f, h1))
    &&& links_ok(m3, x, h1)
    &&& links_ok(m3, y, h1)
    &&& linked(m3, last_leaf(m3, x, h1), first_leaf(m3, y, h1))
    &&& first_leaf(m3, x, h1) == ff
    &&& m3[ff]->left == m[ff]->left
    &&& last_leaf(m3, y, h1) == ll
    &&& m3[ll]->right == m[ll]->right
    &&& forall|p: PageId|
        #![trigger m3.dom().contains(p)]
        #![trigger m3[p]]
        m.dom().contains(p) && !owns(m, x, h1, p) && !owns(m, y, h1, p) ==> m3.dom().contains(p)
            && m3[p] == m[p]
    &&& forall|p: PageId| #![trigger m3.dom().contains(p)] m3.dom().contains(p) ==> m.dom().contains(p)
    &&& forall|p: PageId|
        #![trigger owns(m3, x, h1, p)]
        owns(m3, x, h1, p) ==> owns(m, x, h1, p) || owns(m, y, h1, p)
    &&& forall|p: PageId|
        #![trigger owns(m3, y, h1, p)]
        owns(m3, y, h1, p) ==> owns(m, x, h1, p) || owns(m, y, h1, p)
    &&& forall|k: Key|
        #![trigger lookup(m3, x, h1, k)]
        k < s2 ==> lookup(m3, x, h1, k) == pair_lookup(m, x, y, h1, sep, k)
    &&& forall|k: Key|
        #![trigger lookup(m3, y, h1, k)]
        k >= s2 ==> lookup(m3, y, h1, k) == pair_lookup(m, x, y, h1, sep, k)
}

/// The children `x` and `y` have been merged into `x`: it is well formed
/// with its minimum over the range of both, the leaf chain runs through
/// it and on to the right neighbour of what was `y`, every key is found
/// as before, and nothing else has changed.
pub open spec fn pair_merged(
    m: Nodes,
    m3: Nodes,
    x: PageId,
    y: PageId,
    h1: nat,
    lx: int,
    sep: Key,
    uy: int,
    f: int,
) -> bool {
    let ff = first_leaf(m, x, h1);
    let r = m[last_leaf(m, y, h1)]->right;
    let lt = last_leaf(m3, x, h1);
    &&& sub_wf(m3, x, h1, lx, uy, f, min_fill(f, h1))
    &&& links_ok(m3, x, h1)
    &&& first_leaf(m3, x, h1) == ff
    &&& m3[ff]->left == m[ff]->left
    &&& m3[lt]->right == r
    &&& forall|p: PageId|
        #![trigger m3.dom().contains(p)]
        #![trigger m3[p]]
        m.dom().contains(p) && !owns(m, x, h1, p) && !owns(m, y, h1, p) ==> m3.dom().contains(p)
            && m3[p] == if r == Some(p) {
            relink_left(m[p], Some(lt))
        } else {
            m[p]
        }
    &&& forall|p: PageId| #![trigger m3.dom().contains(p)] m3.dom().contains(p) ==> m.dom().contains(p)
    &&& forall|p: PageId|
        #![trigger owns(m3, x, h1, p)]
        owns(m3, x, h1, p) ==> owns(m, x, h1, p) || owns(m, y, h1, p)
    &&& forall|k: Key|
        #![trigger lookup(m3, x, h1, k)]
        lookup(m3, x, h1, k) == pair_lookup(m, x, y, h1, sep, k)
}

/// What rebalancing two children leaves behind, seen from their parent:
/// no page is new, the ends of the leaf chain below the children still
/// fit, and the nodes that are not below the children are as they were,
/// but for the right neighbour of the last leaf.
pub open spec fn vpost(m: Nodes, m3: Nodes, children: Seq<PageId>, children3: Seq<PageId>, h1: nat) -> bool {
    let ff = first_leaf(m, children[0], h1);
    let r = m[last_leaf(m, children.last(), h1)]->right;
    let lt = last_leaf(m3, children3.last(), h1);
    &&& forall|p: PageId|
        #![trigger vowns(m3, children3, h1, p)]
        vowns(m3, children3, h1, p) ==> vowns(m, children, h1, p)
    &&& forall|p: PageId| #![trigger m3.dom().contains(p)] m3.dom().contains(p) ==> m.dom().contains(p)
    &&& first_leaf(m3, children3[0], h1) == ff
    &&& m3[ff]->left == m[ff]->left
    &&& m3[lt]->right == r
    &&& forall|p: PageId|
        #![trigger m3.dom().contains(p)]
        #![trigger m3[p]]
        m.dom().contains(p) && !vowns(m, children, h1, p) ==> m3.dom().contains(p) && m3[p]
            == if r == Some(p) {
            relink_left(m[p], Some(lt))
        } else {
            m[p]
        }
}

/// The ranges of two different children do not overlap.
pub(crate) proof fn lemma_ranges_apart(keys: Seq<Key>, lo: int, hi: int, x: int, y: int)
    requires
        sorted_keys(keys),
        forall|i: int| 0 <= i < keys.len() ==> lo < #[trigger] keys[i] < hi,
        0 <= x < y <= keys.len(),
    ensures
        upper(keys, x, hi) <= lower(keys, y, lo),
        lo <= lower(keys, x, lo),
        upper(keys, y, hi) <= hi,
        lower(keys, x, lo) < upper(keys, x, hi),
        lower(keys, y, lo) < upper(keys, y, hi),
{
    if x < y - 1 {
        assert(keys[x] < keys[y - 1]);
    }
    if x > 0 {
        assert(keys[x - 1] < keys[x]);
    }
    if y < keys.len() {
        assert(keys[y - 1] < keys[y]);
    }
}

/// The child after the two that are rebalanced, if there is one, is well
/// formed, and its first leaf is a leaf of its own that follows the last
/// leaf of child `j + 1`.
proof fn lemma_next_kid(
    m: Nodes,
    keys: Seq<Key>,
    children: Seq<PageId>,
    h1: nat,
    lo: int,
    hi: int,
    f: int,
    weak: int,
    j: int,
)
    requires
        pair_ctx(m, keys, children, h1, lo, hi, f, weak, j),
        j + 2 < children.len(),
    ensures
        ({
            let n = j + 2;
            let c = children[n];
            let first = first_leaf(m, c, h1);
            &&& linked(m, last_leaf(m, children[j + 1], h1), first)
            &&& sub_wf(m, c, h1, lower(keys, n, lo), upper(keys, n, hi), f, min_fill(f, h1))
            &&& sub_wf(m, c, h1, lower(keys, n, lo), upper(keys, n, hi), f, child_min(f, h1, n, weak))
            &&& owns(m, c, h1, first)
            &&& owns(m, c, h1, last_leaf(m, c, h1))
            &&& m.dom().contains(first)
            &&& m[first] is Leaf
            &&& first != 0
            &&& (h1 == 0 ==> first == c)
        }),
{
    let jy = j + 1;
    let n = jy + 1;
    assert(linked(m, last_leaf(m, children[jy], h1), first_leaf(m, children[n], h1)));
    assert(sub_wf(
        m,
        children[n],
        h1,
        lower(keys, n, lo),
        upper(keys, n, hi),
        f,
        child_min(f, h1, n, weak),
    ));
    lemma_leaf_ends(m, children[n], h1, lower(keys, n, lo), upper(keys, n, hi), f, min_fill(f, h1));
}

/// A child other than the two that were rebalanced is as it was, but for
/// the left sibling of its first leaf when that leaf is `rc`.
pub(crate) proof fn lemma_other_kid(
    m: Nodes,
    m3: Nodes,
    keys: Seq<Key>,
    children: Seq<PageId>,
    h1: nat,
    lo: int,
    hi: int,
    f: int,
    weak: int,
    j: int,
    x: int,
    rc: Option<PageId>,
    lt: PageId,
)
    requires
        pair_ctx(m, keys, children, h1, lo, hi, f, weak, j),
        0 <= x < children.len(),
        x != j,
        x != j + 1,
        rc == None::<PageId> || rc == m[last_leaf(m, children[j + 1], h1)]->right,
        forall|p: PageId|
            #![trigger m3.dom().contains(p)]
            #![trigger m3[p]]
            m.dom().contains(p) && !owns(m, children[j], h1, p) && !owns(m, children[j + 1], h1, p)
                ==> m3.dom().contains(p) && m3[p] == if rc == Some(p) {
                relink_left(m[p], Some(lt))
            } else {
                m[p]
            },
    ensures
        ({
            let c = children[x];
            let ff = first_leaf(m, c, h1);
            let ll = last_leaf(m, c, h1);
            &&& sub_wf(m3, c, h1, lower(keys, x, lo), upper(keys, x, hi), f, min_fill(f, h1))
            &&& links_ok(m3, c, h1)
            &&& forall|p: PageId| #![trigger owns(m3, c, h1, p)] owns(m3, c, h1, p) == owns(m, c, h1, p)
            &&& forall|k: Key|
                #![trigger lookup(m3, c, h1, k)]
                lookup(m3, c, h1, k) == lookup(m, c, h1, k)
            &&& first_leaf(m3, c, h1) == ff
            &&& last_leaf(m3, c, h1) == ll
            &&& m3.dom().contains(ff)
            &&& m3.dom().contains(ll)
            &&& m3[ff] is Leaf
            &&& m3[ll] is Leaf
            &&& m[ff] is Leaf
            &&& m[ll] is Leaf
            &&& m3[ff]->right == m[ff]->right
            &&& m3[ll]->right == m[ll]->right
            &&& m3[ff]->left == if rc is Some && x == j + 2 {
                Some(lt)
            } else {
                m[ff]->left
            }
            &&& !owns(m, c, h1, children[j])
            &&& !owns(m, c, h1, children[j + 1])
        }),
{
    let c = children[x];
    let cx = children[j];
    let cy = children[j + 1];
    let l = lower(keys, x, lo);
    let u = upper(keys, x, hi);
    let jy = j + 1;
    assert(sub_wf(m, c, h1, l, u, f, child_min(f, h1, x, weak)));
    assert(sub_wf(m, cx, h1, lower(keys, j, lo), upper(keys, j, hi), f, child_min(f, h1, j, weak)));
    assert(sub_wf(m, cy, h1, lower(keys, jy, lo), upper(keys, jy, hi), f, child_min(f, h1, jy, weak)));
    assert(links_ok(m, c, h1));
    if x < j {
        lemma_ranges_apart(keys, lo, hi, x, j);
        lemma_ranges_apart(keys, lo, hi, x, jy);
    } else {
        lemma_ranges_apart(keys, lo, hi, j, x);
        lemma_ranges_apart(keys, lo, hi, jy, x);
    }
    lemma_leaf_ends(m, c, h1, l, u, f, min_fill(f, h1));
    lemma_leaf_ends(m, cy, h1, lower(keys, jy, lo), upper(keys, jy, hi), f, child_min(f, h1, jy, weak));
    assert forall|p: PageId| #![trigger owns(m, c, h1, p)] owns(m, c, h1, p) implies {
        &&& m.dom().contains(p)
        &&& !owns(m, cx, h1, p)
        &&& !owns(m, cy, h1, p)
        &&& (rc == Some(p) ==> p == first_leaf(m, c, h1) && x == j + 2)
    } by {
        crate::tree_spec::lemma_owned_in_dom(m, c, h1, l, u, f, min_fill(f, h1), p);
        lemma_disjoint_one(
            m,
            c,
            h1,
            l,
            u,
            min_fill(f, h1),
            cx,
            h1,
            lower(keys, j, lo),
            upper(keys, j, hi),
            child_min(f, h1, j, weak),
            f,
            p,
        );
        lemma_disjoint_one(
            m,
            c,
            h1,
            l,
            u,
            min_fill(f, h1),
            cy,
            h1,
            lower(keys, jy, lo),
            upper(keys, jy, hi),
            child_min(f, h1, jy, weak),
            f,
            p,
        );
        if rc == Some(p) {
            if jy + 1 < children.len() {
                let n = jy + 1;
                lemma_next_kid(m, keys, children, h1, lo, hi, f, weak, j);
                if x != n {
                    if x < n {
                        lemma_ranges_apart(keys, lo, hi, x, n);
                    } else {
                        lemma_ranges_apart(keys, lo, hi, n, x);
                    }
                    lemma_disjoint_one(
                        m,
                        children[n],
                        h1,
                        lower(keys, n, lo),
                        upper(keys, n, hi),
                        min_fill(f, h1),
                        c,
                        h1,
                        l,
                        u,
                        min_fill(f, h1),
                        f,
                        p,
                    );
                }
            } else {
                assert(children.last() == children[jy]);
                assert(vowns(m, children, h1, p));
            }
        }
    }
    lemma_subtree_kept(m, m3, c, h1, l, u, f, min_fill(f, h1), rc, lt);
    assert(owns(m, cx, h1, cx));
    assert(owns(m, cy, h1, cy));
    if rc is Some && x == j + 2 {
        assert(linked(m, last_leaf(m, children[jy], h1), first_leaf(m, children[x], h1)));
    }
    if rc == Some(first_leaf(m, c, h1)) {
        assert(owns(m, c, h1, first_leaf(m, c, h1)));
    }
}

/// After a borrow, each child is well formed within its new bounds.
pub(crate) proof fn lemma_borrowed_kid(
    m: Nodes,
    m3: Nodes,
    keys: Seq<Key>,
    children: Seq<PageId>,
    h1: nat,
    lo: int,
    hi: int,
    f: int,
    weak: int,
    j: int,
    s2: Key,
    x: int,
)
    requires
        pair_ctx(m, keys, children, h1, lo, hi, f, weak, j),
        pair_borrowed(
            m,
            m3,
            children[j],
            children[j + 1],
            h1,
            lower(keys, j, lo),
            keys[j],
            upper(keys, j + 1, hi),
            s2,
            f,
        ),
        0 <= x < children.len(),
    ensures
        sub_wf(
            m3,
            children[x],
            h1,
            lower(keys.update(j, s2), x, lo),
            upper(keys.update(j, s2), x, hi),
            f,
            min_fill(f, h1),
        ),
        links_ok(m3, children[x], h1),
        m3.dom().contains(first_leaf(m3, children[x], h1)),
        m3.dom().contains(last_leaf(m3, children[x], h1)),
        m3[first_leaf(m3, children[x], h1)] is Leaf,
        m3[last_leaf(m3, children[x], h1)] is Leaf,
        forall|p: PageId|
            #![trigger owns(m3, children[x], h1, p)]
            owns(m3, children[x], h1, p) ==> vowns(m, children, h1, p),
{
    let k3 = keys.update(j, s2);
    let c = children[x];
    let jy = j + 1;
    if x != j && x != jy {
        lemma_other_kid(m, m3, keys, children, h1, lo, hi, f, weak, j, x, None, 0);
        assert(lower(k3, x, lo) == lower(keys, x, lo));
        assert(upper(k3, x, hi) == upper(keys, x, hi));
    }
    lemma_leaf_ends(m3, c, h1, lower(k3, x, lo), upper(k3, x, hi), f, min_fill(f, h1));
    assert forall|p: PageId| #![trigger owns(m3, c, h1, p)] owns(m3, c, h1, p) implies vowns(
        m,
        children,
        h1,
        p,
    ) by {
        if x != j && x != jy {
            assert(owns(m, children[x], h1, p));
        } else {
            if owns(m, children[j], h1, p) {
            } else {
                assert(owns(m, children[jy], h1, p));
            }
        }
    }
}

/// After a borrow, the leaf chain runs from each child into the next.
pub(crate) proof fn lemma_borrowed_link(
    m: Nodes,
    m3: Nodes,
    keys: Seq<Key>,
    children: Seq<PageId>,
    h1: nat,
    lo: int,
    hi: int,
    f: int,
    weak: int,
    j: int,
    s2: Key,
    x: int,
)
    requires
        pair_ctx(m, keys, children, h1, lo, hi, f, weak, j),
        pair_borrowed(
            m,
            m3,
            children[j],
            children[j + 1],
            h1,
            lower(keys, j, lo),
            keys[j],
            upper(keys, j + 1, hi),
            s2,
            f,
        ),
        0 <= x,
        x + 1 < children.len(),
    ensures
        linked(m3, last_leaf(m3, children[x], h1), first_leaf(m3, children[x + 1], h1)),
{
    let y = x + 1;
    let jy = j + 1;
    lemma_borrowed_kid(m, m3, keys, children, h1, lo, hi, f, weak, j, s2, x);
    lemma_borrowed_kid(m, m3, keys, children, h1, lo, hi, f, weak, j, s2, y);
    assert(linked(m, last_leaf(m, children[x], h1), first_leaf(m, children[y], h1)));
    if x != j && x != jy {
        lemma_other_kid(m, m3, keys, children, h1, lo, hi, f, weak, j, x, None, 0);
    }
    if y != j && y != jy {
        lemma_other_kid(m, m3, keys, children, h1, lo, hi, f, weak, j, y, None, 0);
    }
}

/// After a borrow, what the parent is to hold, with the new separator,
/// would make a well-formed node.
pub(crate) proof fn lemma_borrowed_vnode(
    m: Nodes,
    m3: Nodes,
    keys: Seq<Key>,
    children: Seq<PageId>,
    h1: nat,
    lo: int,
    hi: int,
    f: int,
    weak: int,
    j: int,
    s2: Key,
)
    requires
        pair_ctx(m, keys, children, h1, lo, hi, f, weak, j),
        pair_borrowed(
            m,
            m3,
            children[j],
            children[j + 1],
            h1,
            lower(keys, j, lo),
            keys[j],
            upper(keys, j + 1, hi),
            s2,
            f,
        ),
    ensures
        vnode_ok(m3, keys.update(j, s2), children, h1, lo, hi, f, -1),
{
    let k3 = keys.update(j, s2);
    let jy = j + 1;
    lemma_ranges_apart(keys, lo, hi, j, jy);
    assert(sorted_keys(k3)) by {
        assert forall|a: int, b: int| 0 <= a < b < k3.len() implies k3[a] < k3[b] by {
            if a == j {
                assert(keys[jy] <= keys[b]);
            } else if b == j {
                assert(keys[a] <= keys[j - 1]);
            } else {
                assert(keys[a] < keys[b]);
            }
        }
    }
    assert forall|i: int| 0 <= i < k3.len() implies lo < #[trigger] k3[i] < hi by {
        if i != j {
            assert(k3[i] == keys[i]);
        }
    }
    assert forall|x: int| 0 <= x < children.len() implies sub_wf(
        m3,
        #[trigger] children[x],
        h1,
        lower(k3, x, lo),
        upper(k3, x, hi),
        f,
        child_min(f, h1, x, -1),
    ) by {
        lemma_borrowed_kid(m, m3, keys, children, h1, lo, hi, f, weak, j, s2, x);
    }
    assert forall|x: int| 0 <= x < children.len() implies links_ok(m3, #[trigger] children[x], h1) by {
        lemma_borrowed_kid(m, m3, keys, children, h1, lo, hi, f, weak, j, s2, x);
    }
    assert forall|x: int, y: int| 0 <= x && y == x + 1 && y < children.len() implies linked(
        m3,
        last_leaf(m3, #[trigger] children[x], h1),
        first_leaf(m3, #[trigger] children[y], h1),
    ) by {
        lemma_borrowed_link(m, m3, keys, children, h1, lo, hi, f, weak, j, s2, x);
    }
}

/// After a borrow, nothing outside the children has changed.
pub(crate) proof fn lemma_borrowed_vpost(
    m: Nodes,
    m3: Nodes,
    keys: Seq<Key>,
    children: Seq<PageId>,
    h1: nat,
    lo: int,
    hi: int,
    f: int,
    weak: int,
    j: int,
    s2: Key,
)
    requires
        pair_ctx(m, keys, children, h1, lo, hi, f, weak, j),
        pair_borrowed(
            m,
            m3,
            children[j],
            children[j + 1],
            h1,
            lower(keys, j, lo),
            keys[j],
            upper(keys, j + 1, hi),
            s2,
            f,
        ),
    ensures
        vpost(m, m3, children, children, h1),
{
    let jy = j + 1;
    let z = children.len() - 1;
    assert forall|p: PageId|
        #![trigger vowns(m3, children, h1, p)]
        vowns(m3, children, h1, p) implies vowns(m, children, h1, p) by {
        let x = choose|x: int| 0 <= x < children.len() && owns(m3, #[trigger] children[x], h1, p);
        lemma_borrowed_kid(m, m3, keys, children, h1, lo, hi, f, weak, j, s2, x);
    }
    if j > 0 {
        lemma_other_kid(m, m3, keys, children, h1, lo, hi, f, weak, j, 0, None, 0);
    }
    if jy < z {
        lemma_other_kid(m, m3, keys, children, h1, lo, hi, f, weak, j, z, None, 0);
    }
    let r = m[last_leaf(m, children[z], h1)]->right;
    let lt = last_leaf(m3, children[z], h1);
    assert forall|p: PageId|
        #![trigger m3.dom().contains(p)]
        #![trigger m3[p]]
        m.dom().contains(p) && !vowns(m, children, h1, p) implies m3.dom().contains(p) && m3[p]
        == if r == Some(p) {
        relink_left(m[p], Some(lt))
    } else {
        m[p]
    } by {
        if owns(m, children[j], h1, p) || owns(m, children[jy], h1, p) {
            assert(vowns(m, children, h1, p));
        }
        if r == Some(p) {
            assert(relink_left(m[p], Some(lt)) == m[p]);
        }
    }
}

/// After a borrow, a descent through what the parent is to hold finds
/// every key as before.
pub(crate) proof fn lemma_borrowed_route(
    m: Nodes,
    m3: Nodes,
    keys: Seq<Key>,
    children: Seq<PageId>,
    h1: nat,
    lo: int,
    hi: int,
    f: int,
    weak: int,
    j: int,
    s2: Key,
    k: Key,
)
    requires
        pair_ctx(m, keys, children, h1, lo, hi, f, weak, j),
        pair_borrowed(
            m,
            m3,
            children[j],
            children[j + 1],
            h1,
            lower(keys, j, lo),
            keys[j],
            upper(keys, j + 1, hi),
            s2,
            f,
        ),
    ensures
        0 <= route(keys.update(j, s2), k) < children.len(),
        lookup(m3, children[route(keys.update(j, s2), k)], h1, k) == lookup(
            m,
            children[route(keys, k)],
            h1,
            k,
        ),
{
    let k3 = keys.update(j, s2);
    let jy = j + 1;
    lemma_borrowed_vnode(m, m3, keys, children, h1, lo, hi, f, weak, j, s2);
    lemma_route(k3, k);
    lemma_route(keys, k);
    let r0 = route(keys, k);
    if r0 != j && r0 != jy {
        lemma_route_is(k3, k, r0);
        lemma_other_kid(m, m3, keys, children, h1, lo, hi, f, weak, j, r0, None, 0);
    } else if k < s2 {
        lemma_route_is(k3, k, j);
        assert(lookup(m3, children[j], h1, k) == pair_lookup(
            m,
            children[j],
            children[jy],
            h1,
            keys[j],
            k,
        ));
    } else {
        lemma_route_is(k3, k, jy);
        assert(lookup(m3, children[jy], h1, k) == pair_lookup(
            m,
            children[j],
            children[jy],
            h1,
            keys[j],
            k,
        ));
    }
}

/// The child of the old node that stands at position `x` once child
/// `j + 1` is gone.
pub open spec fn before_merge(j: int, x: int) -> int {
    if x <= j {
        x
    } else {
        x + 1
    }
}

/// After a merge, each child that is left is well formed within its new
/// bounds.
pub(crate) proof fn lemma_merged_kid(
    m: Nodes,
    m3: Nodes,
    keys: Seq<Key>,
    children: Seq<PageId>,
    h1: nat,
    lo: int,
    hi: int,
    f: int,
    weak: int,
    j: int,
    x: int,
)
    requires
        pair_ctx(m, keys, children, h1, lo, hi, f, weak, j),
        pair_merged(
            m,
            m3,
            children[j],
            children[j + 1],
            h1,
            lower(keys, j, lo),
            keys[j],
            upper(keys, j + 1, hi),
            f,
        ),
        0 <= x < children.len() - 1,
    ensures
        children.remove(j + 1)[x] == children[before_merge(j, x)],
        sub_wf(
            m3,
            children.remove(j + 1)[x],
            h1,
            lower(keys.remove(j), x, lo),
            upper(keys.remove(j), x, hi),
            f,
            min_fill(f, h1),
        ),
        links_ok(m3, children.remove(j + 1)[x], h1),
        m3.dom().contains(first_leaf(m3, children.remove(j + 1)[x], h1)),
        m3.dom().contains(last_leaf(m3, children.remove(j + 1)[x], h1)),
        m3[first_leaf(m3, children.remove(j + 1)[x], h1)] is Leaf,
        m3[last_leaf(m3, children.remove(j + 1)[x], h1)] is Leaf,
        forall|p: PageId|
            #![trigger owns(m3, children.remove(j + 1)[x], h1, p)]
            owns(m3, children.remove(j + 1)[x], h1, p) ==> vowns(m, children, h1, p),
{
    let k3 = keys.remove(j);
    let c3 = children.remove(j + 1);
    let jy = j + 1;
    let ox = before_merge(j, x);
    let c = c3[x];
    let rc = m[last_leaf(m, children[jy], h1)]->right;
    let lt = last_leaf(m3, children[j], h1);
    assert(c == children[ox]);
    if x != j {
        lemma_other_kid(m, m3, keys, children, h1, lo, hi, f, weak, j, ox, rc, lt);
        assert(lower(k3, x, lo) == lower(keys, ox, lo));
        assert(upper(k3, x, hi) == upper(keys, ox, hi));
    } else {
        assert(lower(k3, x, lo) == lower(keys, j, lo));
        assert(upper(k3, x, hi) == upper(keys, jy, hi));
    }
    lemma_leaf_ends(m3, c, h1, lower(k3, x, lo), upper(k3, x, hi), f, min_fill(f, h1));
    assert forall|p: PageId| #![trigger owns(m3, c, h1, p)] owns(m3, c, h1, p) implies vowns(
        m,
        children,
        h1,
        p,
    ) by {
        if x != j {
            assert(owns(m, children[ox], h1, p));
        } else {
            if owns(m, children[j], h1, p) {
            } else {
                assert(owns(m, children[jy], h1, p));
            }
        }
    }
}

/// After a merge, the leaf chain runs from each child that is left into
/// the next.
pub(crate) proof fn lemma_merged_link(
    m: Nodes,
    m3: Nodes,
    keys: Seq<Key>,
    children: Seq<PageId>,
    h1: nat,
    lo: int,
    hi: int,
    f: int,
    weak: int,
    j: int,
    x: int,
)
    requires
        pair_ctx(m, keys, children, h1, lo, hi, f, weak, j),
        pair_merged(
            m,
            m3,
            children[j],
            children[j + 1],
            h1,
            lower(keys, j, lo),
            keys[j],
            upper(keys, j + 1, hi),
            f,
        ),
        0 <= x,
        x + 1 < children.len() - 1,
    ensures
        linked(
            m3,
            last_leaf(m3, children.remove(j + 1)[x], h1),
            first_leaf(m3, children.remove(j + 1)[x + 1], h1),
        ),
{
    let y = x + 1;
    let jy = j + 1;
    let ox = before_merge(j, x);
    let oy = before_merge(j, y);
    let rc = m[last_leaf(m, children[jy], h1)]->right;
    let lt = last_leaf(m3, children[j], h1);
    lemma_merged_kid(m, m3, keys, children, h1, lo, hi, f, weak, j, x);
    lemma_merged_kid(m, m3, keys, children, h1, lo, hi, f, weak, j, y);
    if x != j {
        lemma_other_kid(m, m3, keys, children, h1, lo, hi, f, weak, j, ox, rc, lt);
    }
    if y != j {
        lemma_other_kid(m, m3, keys, children, h1, lo, hi, f, weak, j, oy, rc, lt);
    }
    if x == j {
        assert(oy == jy + 1);
        assert(linked(m, last_leaf(m, children[jy], h1), first_leaf(m, children[oy], h1)));
    } else {
        assert(oy == ox + 1);
        assert(linked(m, last_leaf(m, children[ox], h1), first_leaf(m, children[oy], h1)));
    }
}

/// After a merge, what the parent is to hold, without the separator and
/// the child that are gone, would make a well-formed node.
pub(crate) proof fn lemma_merged_vnode(
    m: Nodes,
    m3: Nodes,
    keys: Seq<Key>,
    children: Seq<PageId>,
    h1: nat,
    lo: int,
    hi: int,
    f: int,
    weak: int,
    j: int,
)
    requires
        pair_ctx(m, keys, children, h1, lo, hi, f, weak, j),
        pair_merged(
            m,
            m3,
            children[j],
            children[j + 1],
            h1,
            lower(keys, j, lo),
            keys[j],
            upper(keys, j + 1, hi),
            f,
        ),
    ensures
        vnode_ok(m3, keys.remove(j), children.remove(j + 1), h1, lo, hi, f, -1),
{
    let k3 = keys.remove(j);
    let c3 = children.remove(j + 1);
    assert(sorted_keys(k3)) by {
        assert forall|a: int, b: int| 0 <= a < b < k3.len() implies k3[a] < k3[b] by {
            let oa = if a < j {
                a
            } else {
                a + 1
            };
            let ob = if b < j {
                b
            } else {
                b + 1
            };
            assert(keys[oa] < keys[ob]);
        }
    }
    assert forall|i: int| 0 <= i < k3.len() implies lo < #[trigger] k3[i] < hi by {
        let oi = if i < j {
            i
        } else {
            i + 1
        };
        assert(k3[i] == keys[oi]);
    }
    assert forall|x: int| 0 <= x < c3.len() implies sub_wf(
        m3,
        #[trigger] c3[x],
        h1,
        lower(k3, x, lo),
        upper(k3, x, hi),
        f,
        child_min(f, h1, x, -1),
    ) by {
        lemma_merged_kid(m, m3, keys, children, h1, lo, hi, f, weak, j, x);
    }
    assert forall|x: int| 0 <= x < c3.len() implies links_ok(m3, #[trigger] c3[x], h1) by {
        lemma_merged_kid(m, m3, keys, children, h1, lo, hi, f, weak, j, x);
    }
    assert forall|x: int, y: int| 0 <= x && y == x + 1 && y < c3.len() implies linked(
        m3,
        last_leaf(m3, #[trigger] c3[x], h1),
        first_leaf(m3, #[trigger] c3[y], h1),
    ) by {
        lemma_merged_link(m, m3, keys, children, h1, lo, hi, f, weak, j, x);
    }
}

/// After a merge, nothing outside the children has changed, but for the
/// right neighbour of the last leaf.
pub(crate) proof fn lemma_merged_vpost(
    m: Nodes,
    m3: Nodes,
    keys: Seq<Key>,
    children: Seq<PageId>,
    h1: nat,
    lo: int,
    hi: int,
    f: int,
    weak: int,
    j: int,
)
    requires
        pair_ctx(m, keys, children, h1, lo, hi, f, weak, j),
        pair_merged(
            m,
            m3,
            children[j],
            children[j + 1],
            h1,
            lower(keys, j, lo),
            keys[j],
            upper(keys, j + 1, hi),
            f,
        ),
    ensures
        vpost(m, m3, children, children.remove(j + 1), h1),
{
    let c3 = children.remove(j + 1);
    let jy = j + 1;
    let z = children.len() - 1;
    let z3 = c3.len() - 1;
    let rc = m[last_leaf(m, children[jy], h1)]->right;
    let lt = last_leaf(m3, children[j], h1);
    assert forall|p: PageId| #![trigger vowns(m3, c3, h1, p)] vowns(m3, c3, h1, p) implies vowns(
        m,
        children,
        h1,
        p,
    ) by {
        let x = choose|x: int| 0 <= x < c3.len() && owns(m3, #[trigger] c3[x], h1, p);
        lemma_merged_kid(m, m3, keys, children, h1, lo, hi, f, weak, j, x);
    }
    assert(c3[0] == children[0]);
    if j > 0 {
        lemma_other_kid(m, m3, keys, children, h1, lo, hi, f, weak, j, 0, rc, lt);
    }
    if jy < z {
        assert(c3[z3] == children[z]);
        lemma_other_kid(m, m3, keys, children, h1, lo, hi, f, weak, j, z, rc, lt);
        lemma_leaf_ends(m, children[z], h1, lower(keys, z, lo), upper(keys, z, hi), f, min_fill(f, h1));
    } else {
        assert(c3[z3] == children[j]);
    }
    let r = m[last_leaf(m, children[z], h1)]->right;
    let lt3 = last_leaf(m3, c3[z3], h1);
    assert forall|p: PageId|
        #![trigger m3.dom().contains(p)]
        #![trigger m3[p]]
        m.dom().contains(p) && !vowns(m, children, h1, p) implies m3.dom().contains(p) && m3[p]
        == if r == Some(p) {
        relink_left(m[p], Some(lt3))
    } else {
        m[p]
    } by {
        if owns(m, children[j], h1, p) || owns(m, children[jy], h1, p) {
            assert(vowns(m, children, h1, p));
        }
        if jy < z {
            let n = jy + 1;
            lemma_next_kid(m, keys, children, h1, lo, hi, f, weak, j);
            assert(owns(m, children[n], h1, first_leaf(m, children[n], h1)));
            assert(vowns(m, children, h1, first_leaf(m, children[n], h1)));
            if r == Some(p) {
                assert(relink_left(m[p], Some(lt3)) == m[p]);
            }
        }
    }
}

/// After a merge, a descent through what the parent is to hold finds
/// every key as before.
pub(crate) proof fn lemma_merged_route(
    m: Nodes,
    m3: Nodes,
    keys: Seq<Key>,
    children: Seq<PageId>,
    h1: nat,
    lo: int,
    hi: int,
    f: int,
    weak: int,
    j: int,
    k: Key,
)
    requires
        pair_ctx(m, keys, children, h1, lo, hi, f, weak, j),
        pair_merged(
            m,
            m3,
            children[j],
            children[j + 1],
            h1,
            lower(keys, j, lo),
            keys[j],
            upper(keys, j + 1, hi),
            f,
        ),
    ensures
        0 <= route(keys.remove(j), k) < children.len() - 1,
        lookup(m3, children.remove(j + 1)[route(keys.remove(j), k)], h1, k) == lookup(
            m,
            children[route(keys, k)],
            h1,
            k,
        ),
{
    let k3 = keys.remove(j);
    let c3 = children.remove(j + 1);
    let jy = j + 1;
    let rc = m[last_leaf(m, children[jy], h1)]->right;
    let lt = last_leaf(m3, children[j], h1);
    lemma_merged_vnode(m, m3, keys, children, h1, lo, hi, f, weak, j);
    lemma_route(k3, k);
    lemma_route(keys, k);
    let r0 = route(keys, k);
    if r0 < j {
        lemma_route_is(k3, k, r0);
        assert(c3[r0] == children[r0]);
        lemma_other_kid(m, m3, keys, children, h1, lo, hi, f, weak, j, r0, rc, lt);
    } else if r0 > jy {
        lemma_route_is(k3, k, r0 - 1);
        assert(c3[r0 - 1] == children[r0]);
        lemma_other_kid(m, m3, keys, children, h1, lo, hi, f, weak, j, r0, rc, lt);
    } else {
        if j > 0 {
            assert(keys[j - 1] < keys[j]);
        }
        if jy < keys.len() {
            assert(keys[j] < keys[jy]);
        }
        lemma_route_is(k3, k, j);
        assert(c3[j] == children[j]);
        assert(lookup(m3, children[j], h1, k) == pair_lookup(
            m,
            children[j],
            children[jy],
            h1,
            keys[j],
            k,
        ));
    }
}

/// The entries of two neighbouring leaves, one after the other, are
/// sorted, and hold for each key what the leaf on its side of the
/// separator holds.
pub(crate) proof fn lemma_entries_join(xe: Seq<LeafNodeInterior>, ye: Seq<LeafNodeInterior>, sep: Key)
    requires
        sorted_entries(xe),
        sorted_entries(ye),
        forall|i: int| 0 <= i < xe.len() ==> (#[trigger] xe[i]).key < sep,
        forall|i: int| 0 <= i < ye.len() ==> sep <= (#[trigger] ye[i]).key,
    ensures
        sorted_entries(xe + ye),
        forall|k: Key|
            #![trigger leaf_get(xe + ye, k)]
            leaf_get(xe + ye, k) == if k < sep {
                leaf_get(xe, k)
            } else {
                leaf_get(ye, k)
            },
{
    let je = xe + ye;
    let n = xe.len() as int;
    assert forall|i: int, j: int| 0 <= i < j < je.len() implies je[i].key < je[j].key by {
        if j < n {
            assert(xe[i].key < xe[j].key);
        } else if i >= n {
            assert(ye[i - n].key < ye[j - n].key);
        } else {
            assert(xe[i].key < sep);
            assert(sep <= ye[j - n].key);
        }
    }
    assert forall|k: Key| #![trigger leaf_get(je, k)] leaf_get(je, k) == if k < sep {
        leaf_get(xe, k)
    } else {
        leaf_get(ye, k)
    } by {
        if has_key(je, k) {
            let j = choose|j: int| 0 <= j < je.len() && (#[trigger] je[j]).key == k;
            lemma_leaf_get_at(je, j);
            if j < n {
                assert(xe[j] == je[j]);
                lemma_leaf_get_at(xe, j);
            } else {
                assert(ye[j - n] == je[j]);
                lemma_leaf_get_at(ye, j - n);
            }
        } else {
            if k < sep && has_key(xe, k) {
                let j = choose|j: int| 0 <= j < xe.len() && (#[trigger] xe[j]).key == k;
                assert(je[j] == xe[j]);
            }
            if k >= sep && has_key(ye, k) {
                let j = choose|j: int| 0 <= j < ye.len() && (#[trigger] ye[j]).key == k;
                assert(je[j + n] == ye[j]);
            }
        }
    }
}

/// Two neighbouring leaves whose entries were dealt out anew, the first
/// `c` to the left leaf and the rest to the right one, are as a borrow
/// leaves them.
pub(crate) proof fn lemma_leaves_dealt(
    m: Nodes,
    m3: Nodes,
    x: PageId,
    y: PageId,
    lx: int,
    sep: Key,
    uy: int,
    f: int,
    minx: int,
    miny: int,
    c: int,
)
    requires
        f >= 3,
        sub_wf(m, x, 0, lx, sep as int, f, minx),
        sub_wf(m, y, 0, sep as int, uy, f, miny),
        linked(m, x, y),
        x != y,
        lx < sep < uy,
        ({
            let je = m[x]->entries + m[y]->entries;
            &&& min_fill(f, 0) <= c <= f - 1
            &&& min_fill(f, 0) <= je.len() - c <= f - 1
            &&& 1 <= c
            &&& m3 == m.insert(
                x,
                NodeView::Leaf { entries: je.subrange(0, c), left: m[x]->left, right: m[x]->right },
            ).insert(
                y,
                NodeView::Leaf {
                    entries: je.subrange(c, je.len() as int),
                    left: m[y]->left,
                    right: m[y]->right,
                },
            )
        }),
    ensures
        pair_borrowed(m, m3, x, y, 0, lx, sep, uy, (m[x]->entries + m[y]->entries)[c].key, f),
{
    let xe = m[x]->entries;
    let ye = m[y]->entries;
    let je = xe + ye;
    let n = xe.len() as int;
    let s2 = je[c].key;
    lemma_entries_join(xe, ye, sep);
    crate::insert::lemma_entries_cut(je, c);
    assert forall|i: int| 0 <= i < je.len() implies lx <= (#[trigger] je[i]).key < uy by {
        if i < n {
            assert(je[i] == xe[i]);
        } else {
            assert(je[i] == ye[i - n]);
        }
    }
    assert(lx <= je[0].key < je[c].key);
    assert forall|i: int| 0 <= i < c implies lx <= (#[trigger] je.subrange(0, c)[i]).key < s2 by {
        assert(je[i].key < je[c].key);
    }
    assert forall|i: int| 0 <= i < je.len() - c implies s2 <= (#[trigger] je.subrange(
        c,
        je.len() as int,
    )[i]).key < uy by {
        if i > 0 {
            assert(je[c].key < je[c + i].key);
        }
        assert(je[c + i].key < uy);
    }
    assert(m3[x]->entries == je.subrange(0, c));
    assert(m3[y]->entries == je.subrange(c, je.len() as int));
    assert forall|k: Key| #![trigger lookup(m3, x, 0, k)] k < s2 implies lookup(m3, x, 0, k)
        == pair_lookup(m, x, y, 0, sep, k) by {
        assert(leaf_get(je.subrange(0, c), k) == leaf_get(je, k));
    }
    assert forall|k: Key| #![trigger lookup(m3, y, 0, k)] k >= s2 implies lookup(m3, y, 0, k)
        == pair_lookup(m, x, y, 0, sep, k) by {
        assert(leaf_get(je.subrange(c, je.len() as int), k) == leaf_get(je, k));
    }
}

/// Two neighbouring leaves of which the left one now holds the entries of
/// both, while the right one is gone and its right neighbour points at
/// the left one, are as a merge leaves them.
pub(crate) proof fn lemma_leaves_merged(
    m: Nodes,
    m3: Nodes,
    x: PageId,
    y: PageId,
    lx: int,
    sep: Key,
    uy: int,
    f: int,
    minx: int,
    miny: int,
)
    requires
        f >= 3,
        sub_wf(m, x, 0, lx, sep as int, f, minx),
        sub_wf(m, y, 0, sep as int, uy, f, miny),
        linked(m, x, y),
        x != y,
        lx < sep < uy,
        min_fill(f, 0) <= m[x]->entries.len() + m[y]->entries.len() <= f - 1,
        m[y]->right matches Some(r) ==> r != x && r != y && m.dom().contains(r) && m[r] is Leaf,
        ({
            let mid = m.insert(
                x,
                NodeView::Leaf {
                    entries: m[x]->entries + m[y]->entries,
                    left: m[x]->left,
                    right: m[y]->right,
                },
            ).remove(y);
            m3 == match m[y]->right {
                Some(r) => mid.insert(r, relink_left(m[r], Some(x))),
                None => mid,
            }
        }),
    ensures
        pair_merged(m, m3, x, y, 0, lx, sep, uy, f),
{
    let xe = m[x]->entries;
    let ye = m[y]->entries;
    let je = xe + ye;
    let n = xe.len() as int;
    lemma_entries_join(xe, ye, sep);
    assert forall|i: int| 0 <= i < je.len() implies lx <= (#[trigger] je[i]).key < uy by {
        if i < n {
            assert(je[i] == xe[i]);
        } else {
            assert(je[i] == ye[i - n]);
        }
    }
    assert(m3[x]->entries == je);
    assert forall|k: Key| #![trigger lookup(m3, x, 0, k)] lookup(m3, x, 0, k) == pair_lookup(
        m,
        x,
        y,
        0,
        sep,
        k,
    ) by {
        assert(leaf_get(je, k) == if k < sep {
            leaf_get(xe, k)
        } else {
            leaf_get(ye, k)
        });
    }
}

/// The keys of two neighbouring internal nodes with the separator
/// between them, and the children of both, would make a well-formed node
/// over the range of both, which routes every key as the node on its side
/// of the separator does.
pub(crate) proof fn lemma_vnode_join(
    m: Nodes,
    xk: Seq<Key>,
    xc: Seq<PageId>,
    yk: Seq<Key>,
    yc: Seq<PageId>,
    sep: Key,
    h0: nat,
    lx: int,
    uy: int,
    f: int,
)
    requires
        vnode_ok(m, xk, xc, h0, lx, sep as int, f, -1),
        vnode_ok(m, yk, yc, h0, sep as int, uy, f, -1),
        lx < sep < uy,
        linked(m, last_leaf(m, xc.last(), h0), first_leaf(m, yc[0], h0)),
    ensures
        vnode_ok(m, xk.push(sep) + yk, xc + yc, h0, lx, uy, f, -1),
        forall|k: Key|
            #![trigger route(xk.push(sep) + yk, k)]
            0 <= route(xk.push(sep) + yk, k) < (xc + yc).len() && (xc + yc)[route(
                xk.push(sep) + yk,
                k,
            )] == if k < sep {
                xc[route(xk, k)]
            } else {
                yc[route(yk, k)]
            },
        forall|p: PageId|
            #![trigger vowns(m, xc + yc, h0, p)]
            vowns(m, xc + yc, h0, p) == (vowns(m, xc, h0, p) || vowns(m, yc, h0, p)),
{
    let jk = xk.push(sep) + yk;
    let jc = xc + yc;
    let nx = xk.len() as int;
    assert forall|a: int, b: int| 0 <= a < b < jk.len() implies jk[a] < jk[b] by {
        if b < nx {
            assert(xk[a] < xk[b]);
        } else if a > nx {
            assert(yk[a - nx - 1] < yk[b - nx - 1]);
        } else {
            if a < nx {
                assert(xk[a] < sep);
            }
            if b > nx {
                assert(sep < yk[b - nx - 1]);
            }
        }
    }
    assert forall|i: int| 0 <= i < jk.len() implies lx < #[trigger] jk[i] < uy by {
        if i < nx {
            assert(jk[i] == xk[i]);
        } else if i > nx {
            assert(jk[i] == yk[i - nx - 1]);
        }
    }
    assert forall|i: int| 0 <= i < jc.len() implies sub_wf(
        m,
        #[trigger] jc[i],
        h0,
        lower(jk, i, lx),
        upper(jk, i, uy),
        f,
        child_min(f, h0, i, -1),
    ) && links_ok(m, jc[i], h0) by {
        if i <= nx {
            assert(jc[i] == xc[i]);
            assert(links_ok(m, xc[i], h0));
            assert(lower(jk, i, lx) == lower(xk, i, lx));
            assert(upper(jk, i, uy) == upper(xk, i, sep as int));
        } else {
            let t = i - nx - 1;
            assert(jc[i] == yc[t]);
            assert(links_ok(m, yc[t], h0));
            assert(lower(jk, i, lx) == lower(yk, t, sep as int));
            assert(upper(jk, i, uy) == upper(yk, t, uy));
        }
    }
    assert forall|a: int, b: int| 0 <= a && b == a + 1 && b < jc.len() implies linked(
        m,
        last_leaf(m, #[trigger] jc[a], h0),
        first_leaf(m, #[trigger] jc[b], h0),
    ) by {
        if b <= nx {
            assert(linked(m, last_leaf(m, xc[a], h0), first_leaf(m, xc[b], h0)));
        } else if a > nx {
            assert(linked(m, last_leaf(m, yc[a - nx - 1], h0), first_leaf(m, yc[b - nx - 1], h0)));
        } else {
            assert(jc[a] == xc.last());
            assert(jc[b] == yc[0]);
        }
    }
    assert forall|k: Key|
        #![trigger route(jk, k)]
        0 <= route(jk, k) < jc.len() && jc[route(jk, k)] == if k < sep {
            xc[route(xk, k)]
        } else {
            yc[route(yk, k)]
        } by {
        lemma_route(xk, k);
        lemma_route(yk, k);
        if k < sep {
            let r = route(xk, k);
            if r < nx {
                assert(jk[r] == xk[r]);
            }
            if r > 0 {
                assert(jk[r - 1] == xk[r - 1]);
            }
            lemma_route_is(jk, k, r);
        } else {
            let r = route(yk, k);
            let r2 = r + nx + 1;
            if r > 0 {
                assert(jk[r2 - 1] == yk[r - 1]);
            }
            if r < yk.len() {
                assert(jk[r2] == yk[r]);
            }
            lemma_route_is(jk, k, r2);
        }
    }
    assert forall|p: PageId| #![trigger vowns(m, jc, h0, p)] vowns(m, jc, h0, p) == (vowns(
        m,
        xc,
        h0,
        p,
    ) || vowns(m, yc, h0, p)) by {
        if vowns(m, jc, h0, p) {
            let i = choose|i: int| 0 <= i < jc.len() && owns(m, #[trigger] jc[i], h0, p);
            if i <= nx {
                assert(owns(m, xc[i], h0, p));
            } else {
                assert(owns(m, yc[i - nx - 1], h0, p));
            }
        }
        if vowns(m, xc, h0, p) {
            let i = choose|i: int| 0 <= i < xc.len() && owns(m, #[trigger] xc[i], h0, p);
            assert(owns(m, jc[i], h0, p));
        }
        if vowns(m, yc, h0, p) {
            let i = choose|i: int| 0 <= i < yc.len() && owns(m, #[trigger] yc[i], h0, p);
            assert(owns(m, jc[i + nx + 1], h0, p));
        }
    }
}

/// Neither of two neighbouring internal nodes is below a child of one of
/// them.
pub(crate) proof fn lemma_tops_apart(
    m: Nodes,
    x: PageId,
    y: PageId,
    h1: nat,
    lx: int,
    sep: Key,
    uy: int,
    f: int,
    minx: int,
    miny: int,
    p: PageId,
)
    requires
        f >= 3,
        h1 > 0,
        sub_wf(m, x, h1, lx, sep as int, f, minx),
        sub_wf(m, y, h1, sep as int, uy, f, miny),
        lx < sep < uy,
        vowns(m, m[x]->children, (h1 - 1) as nat, p) || vowns(m, m[y]->children, (h1 - 1) as nat, p),
    ensures
        p != x,
        p != y,
        m.dom().contains(p),
{
    let h0 = (h1 - 1) as nat;
    let xk = m[x]->keys;
    let xc = m[x]->children;
    let yk = m[y]->keys;
    let yc = m[y]->children;
    if vowns(m, xc, h0, p) {
        let t = choose|t: int| 0 <= t < xc.len() && owns(m, #[trigger] xc[t], h0, p);
        let l = lower(xk, t, lx);
        let u = upper(xk, t, sep as int);
        assert(sub_wf(m, xc[t], h0, l, u, f, min_fill(f, h0)));
        lemma_owned_keys(m, xc[t], h0, l, u, f, min_fill(f, h0), p);
        lemma_owned_in_dom(m, xc[t], h0, l, u, f, min_fill(f, h0), p);
        if p == x {
            if t > 0 {
                assert(l < xk[t - 1]);
            } else {
                assert(xk[0] < u);
            }
        }
        if p == y {
            assert(yk[0] < u);
            if t < xk.len() {
                assert(xk[t] < sep);
            }
        }
    } else {
        let t = choose|t: int| 0 <= t < yc.len() && owns(m, #[trigger] yc[t], h0, p);
        let l = lower(yk, t, sep as int);
        let u = upper(yk, t, uy);
        assert(sub_wf(m, yc[t], h0, l, u, f, min_fill(f, h0)));
        lemma_owned_keys(m, yc[t], h0, l, u, f, min_fill(f, h0), p);
        lemma_owned_in_dom(m, yc[t], h0, l, u, f, min_fill(f, h0), p);
        if p == y {
            if t > 0 {
                assert(l < yk[t - 1]);
            } else {
                assert(yk[0] < u);
            }
        }
        if p == x {
            assert(l < xk[0]);
            if t > 0 {
                assert(sep < yk[t - 1]);
            }
        }
    }
}

/// What two neighbouring internal nodes hold together would make a
/// well-formed node.
pub(crate) proof fn lemma_inners_joined(
    m: Nodes,
    x: PageId,
    y: PageId,
    h1: nat,
    lx: int,
    sep: Key,
    uy: int,
    f: int,
    minx: int,
    miny: int,
)
    requires
        f >= 3,
        h1 > 0,
        sub_wf(m, x, h1, lx, sep as int, f, minx),
        sub_wf(m, y, h1, sep as int, uy, f, miny),
        links_ok(m, x, h1),
        links_ok(m, y, h1),
        linked(m, last_leaf(m, x, h1), first_leaf(m, y, h1)),
        lx < sep < uy,
    ensures
        vnode_ok(
            m,
            m[x]->keys.push(sep) + m[y]->keys,
            m[x]->children + m[y]->children,
            (h1 - 1) as nat,
            lx,
            uy,
            f,
            -1,
        ),
        forall|k: Key|
            #![trigger route(m[x]->keys.push(sep) + m[y]->keys, k)]
            0 <= route(m[x]->keys.push(sep) + m[y]->keys, k) < (m[x]->children
                + m[y]->children).len() && lookup(
                m,
                (m[x]->children + m[y]->children)[route(m[x]->keys.push(sep) + m[y]->keys, k)],
                (h1 - 1) as nat,
                k,
            ) == pair_lookup(m, x, y, h1, sep, k),
        forall|p: PageId|
            #![trigger vowns(m, m[x]->children + m[y]->children, (h1 - 1) as nat, p)]
            vowns(m, m[x]->children + m[y]->children, (h1 - 1) as nat, p) ==> p != x && p != y
                && m.dom().contains(p) && (owns(m, x, h1, p) || owns(m, y, h1, p)),
{
    let h0 = (h1 - 1) as nat;
    let xk = m[x]->keys;
    let xc = m[x]->children;
    let yk = m[y]->keys;
    let yc = m[y]->children;
    let jk = xk.push(sep) + yk;
    let jc = xc + yc;
    assert(vnode_ok(m, xk, xc, h0, lx, sep as int, f, -1));
    assert(vnode_ok(m, yk, yc, h0, sep as int, uy, f, -1));
    lemma_vnode_join(m, xk, xc, yk, yc, sep, h0, lx, uy, f);
    assert forall|k: Key|
        #![trigger route(jk, k)]
        0 <= route(jk, k) < jc.len() && lookup(m, jc[route(jk, k)], h0, k) == pair_lookup(
            m,
            x,
            y,
            h1,
            sep,
            k,
        ) by {
        lemma_route(xk, k);
        lemma_route(yk, k);
    }
    assert forall|p: PageId| #![trigger vowns(m, jc, h0, p)] vowns(m, jc, h0, p) implies p != x
        && p != y && m.dom().contains(p) && (owns(m, x, h1, p) || owns(m, y, h1, p)) by {
        lemma_tops_apart(m, x, y, h1, lx, sep, uy, f, minx, miny, p);
    }
}

/// Two neighbouring internal nodes whose children were dealt out anew,
/// the first `c` to the left node and the rest to the right one, are as a
/// borrow leaves them; the key between the two parts is the new
/// separator.
#[verifier::spinoff_prover]
#[verifier::rlimit(40)]
pub(crate) proof fn lemma_inners_dealt(
    m: Nodes,
    m3: Nodes,
    x: PageId,
    y: PageId,
    h1: nat,
    lx: int,
    sep: Key,
    uy: int,
    f: int,
    minx: int,
    miny: int,
    c: int,
)
    requires
        f >= 3,
        h1 > 0,
        sub_wf(m, x, h1, lx, sep as int, f, minx),
        sub_wf(m, y, h1, sep as int, uy, f, miny),
        links_ok(m, x, h1),
        links_ok(m, y, h1),
        linked(m, last_leaf(m, x, h1), first_leaf(m, y, h1)),
        x != y,
        lx < sep < uy,
        ({
            let jk = m[x]->keys.push(sep) + m[y]->keys;
            let jc = m[x]->children + m[y]->children;
            &&& min_fill(f, h1) <= c <= f
            &&& min_fill(f, h1) <= jc.len() - c <= f
            &&& 1 <= c <= jk.len()
            &&& m3 == m.insert(
                x,
                NodeView::Inner { keys: jk.subrange(0, c - 1), children: jc.subrange(0, c) },
            ).insert(
                y,
                NodeView::Inner {
                    keys: jk.subrange(c, jk.len() as int),
                    children: jc.subrange(c, jc.len() as int),
                },
            )
        }),
    ensures
        pair_borrowed(
            m,
            m3,
            x,
            y,
            h1,
            lx,
            sep,
            uy,
            (m[x]->keys.push(sep) + m[y]->keys)[c - 1],
            f,
        ),
{
    let h0 = (h1 - 1) as nat;
    let jk = m[x]->keys.push(sep) + m[y]->keys;
    let jc = m[x]->children + m[y]->children;
    let s2 = jk[c - 1];
    let lk = jk.subrange(0, c - 1);
    let lc = jc.subrange(0, c);
    let rk = jk.subrange(c, jk.len() as int);
    let rc = jc.subrange(c, jc.len() as int);
    let z = jc.len() - 1;
    lemma_inners_joined(m, x, y, h1, lx, sep, uy, f, minx, miny);
    lemma_vnode_left(m, jk, jc, h0, lx, uy, f, c);
    lemma_vnode_right(m, jk, jc, h0, lx, uy, f, c);
    assert forall|p: PageId|
        #![trigger vowns(m, lc, h0, p)]
        vowns(m, lc, h0, p) implies p != x && m3.dom().contains(p) && m3[p] == m[p] by {
        assert(vowns(m, jc, h0, p));
    }
    assert forall|p: PageId|
        #![trigger vowns(m, rc, h0, p)]
        vowns(m, rc, h0, p) implies p != y && m3.dom().contains(p) && m3[p] == m[p] by {
        assert(vowns(m, jc, h0, p));
    }
    lemma_vnode_install(m, m3, x, lk, lc, h1, lx, s2 as int, f, min_fill(f, h1));
    lemma_vnode_install(m, m3, y, rk, rc, h1, s2 as int, uy, f, min_fill(f, h1));
    assert(lc[0] == jc[0]);
    assert(jc[0] == m[x]->children[0]);
    assert(lc.last() == jc[c - 1]);
    assert(rc[0] == jc[c]);
    assert(rc.last() == jc[z]);
    assert(jc[z] == m[y]->children.last());
    lemma_leaf_ends(m, jc[0], h0, lower(jk, 0, lx), upper(jk, 0, uy), f, min_fill(f, h0));
    lemma_leaf_ends(m, jc[z], h0, lower(jk, z, lx), upper(jk, z, uy), f, min_fill(f, h0));
    lemma_leaf_ends(m, jc[c - 1], h0, lower(jk, c - 1, lx), upper(jk, c - 1, uy), f, min_fill(f, h0));
    lemma_leaf_ends(m, jc[c], h0, lower(jk, c, lx), upper(jk, c, uy), f, min_fill(f, h0));
    assert(vowns(m, jc, h0, first_leaf(m, jc[0], h0)));
    assert(vowns(m, jc, h0, last_leaf(m, jc[z], h0)));
    assert(vowns(m, jc, h0, last_leaf(m, jc[c - 1], h0)));
    assert(vowns(m, jc, h0, first_leaf(m, jc[c], h0)));
    assert(owns(m, x, h1, x));
    assert(owns(m, y, h1, y));
    assert forall|p: PageId| #![trigger owns(m3, x, h1, p)] owns(m3, x, h1, p) implies owns(
        m,
        x,
        h1,
        p,
    ) || owns(m, y, h1, p) by {
        if p != x {
            assert(vowns(m, lc, h0, p));
            assert(vowns(m, jc, h0, p));
        }
    }
    assert forall|p: PageId| #![trigger owns(m3, y, h1, p)] owns(m3, y, h1, p) implies owns(
        m,
        x,
        h1,
        p,
    ) || owns(m, y, h1, p) by {
        if p != y {
            assert(vowns(m, rc, h0, p));
            assert(vowns(m, jc, h0, p));
        }
    }
    assert forall|k: Key| #![trigger lookup(m3, x, h1, k)] k < s2 implies lookup(m3, x, h1, k)
        == pair_lookup(m, x, y, h1, sep, k) by {
        assert(lc[route(lk, k)] == jc[route(jk, k)]);
    }
    assert forall|k: Key| #![trigger lookup(m3, y, h1, k)] k >= s2 implies lookup(m3, y, h1, k)
        == pair_lookup(m, x, y, h1, sep, k) by {
        assert(rc[route(rk, k)] == jc[route(jk, k)]);
    }
}

/// Two neighbouring internal nodes of which the left one now holds the
/// keys and children of both, with the separator between them, while the
/// right one is gone, are as a merge leaves them.
pub(crate) proof fn lemma_inners_merged(
    m: Nodes,
    m3: Nodes,
    x: PageId,
    y: PageId,
    h1: nat,
    lx: int,
    sep: Key,
    uy: int,
    f: int,
    minx: int,
    miny: int,
)
    requires
        f >= 3,
        h1 > 0,
        sub_wf(m, x, h1, lx, sep as int, f, minx),
        sub_wf(m, y, h1, sep as int, uy, f, miny),
        links_ok(m, x, h1),
        links_ok(m, y, h1),
        linked(m, last_leaf(m, x, h1), first_leaf(m, y, h1)),
        x != y,
        lx < sep < uy,
        min_fill(f, h1) <= m[x]->children.len() + m[y]->children.len() <= f,
        m[last_leaf(m, y, h1)]->right matches Some(r) ==> m[r] is Leaf && m[r]->left == Some(
            last_leaf(m, y, h1),
        ),
        m3 == m.insert(
            x,
            NodeView::Inner {
                keys: m[x]->keys.push(sep) + m[y]->keys,
                children: m[x]->children + m[y]->children,
            },
        ).remove(y),
    ensures
        pair_merged(m, m3, x, y, h1, lx, sep, uy, f),
{
    let h0 = (h1 - 1) as nat;
    let jk = m[x]->keys.push(sep) + m[y]->keys;
    let jc = m[x]->children + m[y]->children;
    let z = jc.len() - 1;
    lemma_inners_joined(m, x, y, h1, lx, sep, uy, f, minx, miny);
    assert forall|p: PageId|
        #![trigger vowns(m, jc, h0, p)]
        vowns(m, jc, h0, p) implies p != x && m3.dom().contains(p) && m3[p] == m[p] by {}
    lemma_vnode_install(m, m3, x, jk, jc, h1, lx, uy, f, min_fill(f, h1));
    assert(jc[0] == m[x]->children[0]);
    assert(jc[z] == m[y]->children.last());
    lemma_leaf_ends(m, jc[0], h0, lower(jk, 0, lx), upper(jk, 0, uy), f, min_fill(f, h0));
    lemma_leaf_ends(m, jc[z], h0, lower(jk, z, lx), upper(jk, z, uy), f, min_fill(f, h0));
    assert(vowns(m, jc, h0, first_leaf(m, jc[0], h0)));
    assert(vowns(m, jc, h0, last_leaf(m, jc[z], h0)));
    assert(owns(m, x, h1, x));
    assert(owns(m, y, h1, y));
    lemma_leaf_ends(m, y, h1, sep as int, uy, f, miny);
    let r = m[last_leaf(m, y, h1)]->right;
    let lt = last_leaf(m3, x, h1);
    assert(lt == last_leaf(m, y, h1));
    assert forall|p: PageId|
        #![trigger m3.dom().contains(p)]
        #![trigger m3[p]]
        m.dom().contains(p) && !owns(m, x, h1, p) && !owns(m, y, h1, p) implies m3.dom().contains(
        p,
    ) && m3[p] == if r == Some(p) {
        relink_left(m[p], Some(lt))
    } else {
        m[p]
    } by {
        if r == Some(p) {
            assert(relink_left(m[p], Some(lt)) == m[p]);
        }
    }
}

/// The right neighbour of the last leaf below child `j + 1`, if there is
/// one, is a leaf that is below neither child `j` nor child `j + 1` and
/// points back at that leaf.
pub(crate) proof fn lemma_pair_right(
    m: Nodes,
    keys: Seq<Key>,
    children: Seq<PageId>,
    h1: nat,
    lo: int,
    hi: int,
    f: int,
    weak: int,
    j: int,
)
    requires
        pair_ctx(m, keys, children, h1, lo, hi, f, weak, j),
    ensures
        m[last_leaf(m, children[j + 1], h1)]->right matches Some(r) ==> {
            &&& r != 0
            &&& m.dom().contains(r)
            &&& m[r] is Leaf
            &&& m[r]->left == Some(last_leaf(m, children[j + 1], h1))
            &&& !owns(m, children[j], h1, r)
            &&& !owns(m, children[j + 1], h1, r)
        },
        children[j] != children[j + 1],
        lower(keys, j, lo) < keys[j] < upper(keys, j + 1, hi),
        sub_wf(m, children[j], h1, lower(keys, j, lo), keys[j] as int, f, child_min(f, h1, j, weak)),
        sub_wf(
            m,
            children[j + 1],
            h1,
            keys[j] as int,
            upper(keys, j + 1, hi),
            f,
            child_min(f, h1, j + 1, weak),
        ),
        links_ok(m, children[j], h1),
        links_ok(m, children[j + 1], h1),
        linked(m, last_leaf(m, children[j], h1), first_leaf(m, children[j + 1], h1)),
{
    let jy = j + 1;
    let x = children[j];
    let y = children[jy];
    let ly = last_leaf(m, y, h1);
    lemma_ranges_apart(keys, lo, hi, j, jy);
    assert(sub_wf(m, x, h1, lower(keys, j, lo), upper(keys, j, hi), f, child_min(f, h1, j, weak)));
    assert(sub_wf(m, y, h1, lower(keys, jy, lo), upper(keys, jy, hi), f, child_min(f, h1, jy, weak)));
    assert(links_ok(m, x, h1));
    assert(links_ok(m, y, h1));
    assert(linked(m, last_leaf(m, x, h1), first_leaf(m, y, h1)));
    lemma_leaf_ends(m, x, h1, lower(keys, j, lo), upper(keys, j, hi), f, child_min(f, h1, j, weak));
    lemma_leaf_ends(m, y, h1, lower(keys, jy, lo), upper(keys, jy, hi), f, child_min(f, h1, jy, weak));
    if x == y {
        // one of the two holds a key, and its keys would lie on both sides of the separator
        crate::tree_spec::lemma_owned_within(m, x, h1, lower(keys, j, lo), upper(keys, j, hi), f, child_min(f, h1, j, weak), x);
        crate::tree_spec::lemma_owned_within(m, y, h1, lower(keys, jy, lo), upper(keys, jy, hi), f, child_min(f, h1, jy, weak), y);
        match m[x] {
            NodeView::Leaf { entries, left, right } => {
                assert(entries.len() >= 1);
                assert(entries[0].key < keys[j]);
            },
            NodeView::Inner { keys: ks, children: cs } => {
                assert(ks.len() >= 1);
                assert(ks[0] < keys[j]);
            },
        }
    }
    if m[ly]->right is Some {
        let r = m[ly]->right->Some_0;
        if jy + 1 < children.len() {
            let n = jy + 1;
            lemma_next_kid(m, keys, children, h1, lo, hi, f, weak, j);
            lemma_ranges_apart(keys, lo, hi, j, n);
            lemma_ranges_apart(keys, lo, hi, jy, n);
            lemma_disjoint_one(
                m,
                children[n],
                h1,
                lower(keys, n, lo),
                upper(keys, n, hi),
                min_fill(f, h1),
                x,
                h1,
                lower(keys, j, lo),
                upper(keys, j, hi),
                child_min(f, h1, j, weak),
                f,
                r,
            );
            lemma_disjoint_one(
                m,
                children[n],
                h1,
                lower(keys, n, lo),
                upper(keys, n, hi),
                min_fill(f, h1),
                y,
                h1,
                lower(keys, jy, lo),
                upper(keys, jy, hi),
                child_min(f, h1, jy, weak),
                f,
                r,
            );
        } else {
            assert(children.last() == children[jy]);
            if owns(m, x, h1, r) || owns(m, y, h1, r) {
                assert(vowns(m, children, h1, r));
            }
        }
    }
}

/// The number of entries of a leaf, or of children of an internal node.
pub open spec fn spec_fill(n: NodeView) -> nat {
    match n {
        NodeView::Leaf { entries, left, right } => entries.len(),
        NodeView::Inner { keys, children } => children.len(),
    }
}

/// Two neighbouring nodes between which one entry was moved, from the
/// one with more than the minimum to the one that was one short, are as
/// a borrow leaves them.
pub(crate) proof fn lemma_shifted(
    m: Nodes,
    m3: Nodes,
    x: PageId,
    y: PageId,
    h1: nat,
    lx: int,
    sep: Key,
    uy: int,
    f: int,
    minx: int,
    miny: int,
    from_left: bool,
    x2: NodeView,
    s2: Key,
    y2: NodeView,
)
    requires
        f >= 3,
        sub_wf(m, x, h1, lx, sep as int, f, minx),
        sub_wf(m, y, h1, sep as int, uy, f, miny),
        links_ok(m, x, h1),
        links_ok(m, y, h1),
        linked(m, last_leaf(m, x, h1), first_leaf(m, y, h1)),
        x != y,
        lx < sep < uy,
        from_left ==> spec_fill(m[x]) > min_fill(f, h1) && spec_fill(m[y]) == min_fill(f, h1) - 1,
        !from_left ==> spec_fill(m[y]) > min_fill(f, h1) && spec_fill(m[x]) == min_fill(f, h1) - 1,
        from_left ==> spec_borrow_left(m[x], sep, m[y]) == Some((x2, s2, y2)),
        !from_left ==> spec_borrow_right(m[x], sep, m[y]) == Some((x2, s2, y2)),
        m3 == m.insert(x, x2).insert(y, y2),
    ensures
        pair_borrowed(m, m3, x, y, h1, lx, sep, uy, s2, f),
{
    let xv = m[x];
    let yv = m[y];
    lemma_leaf_ends(m, x, h1, lx, sep as int, f, minx);
    lemma_leaf_ends(m, y, h1, sep as int, uy, f, miny);
    if h1 == 0 {
        let xe = xv->entries;
        let ye = yv->entries;
        let je = xe + ye;
        let c: int = if from_left {
            xe.len() as int - 1
        } else {
            xe.len() as int + 1
        };
        assert(x2->entries =~= je.subrange(0, c));
        assert(y2->entries =~= je.subrange(c, je.len() as int));
        assert(s2 == je[c].key);
        lemma_leaves_dealt(m, m3, x, y, lx, sep, uy, f, minx, miny, c);
    } else {
        let jk = xv->keys.push(sep) + yv->keys;
        let jc = xv->children + yv->children;
        let c: int = if from_left {
            xv->children.len() as int - 1
        } else {
            xv->children.len() as int + 1
        };
        assert(x2->keys =~= jk.subrange(0, c - 1));
        assert(x2->children =~= jc.subrange(0, c));
        assert(y2->keys =~= jk.subrange(c, jk.len() as int));
        assert(y2->children =~= jc.subrange(c, jc.len() as int));
        assert(s2 == jk[c - 1]);
        lemma_inners_dealt(m, m3, x, y, h1, lx, sep, uy, f, minx, miny, c);
    }
}

/// The nodes once one entry has moved between the neighbouring nodes in
/// the pages `x` and `y`: from the left one to the right one when
/// `from_left`, else the other way.
pub open spec fn shifted_nodes(m: Nodes, x: PageId, y: PageId, sep: Key, from_left: bool) -> Nodes {
    let b = if from_left {
        spec_borrow_left(m[x], sep, m[y])->Some_0
    } else {
        spec_borrow_right(m[x], sep, m[y])->Some_0
    };
    m.insert(x, b.0).insert(y, b.2)
}

/// The separator between the two nodes once that entry has moved.
pub open spec fn shifted_sep(m: Nodes, x: PageId, y: PageId, sep: Key, from_left: bool) -> Key {
    if from_left {
        spec_borrow_left(m[x], sep, m[y])->Some_0.1
    } else {
        spec_borrow_right(m[x], sep, m[y])->Some_0.1
    }
}

/// The nodes once the node in page `y` has been merged into its left
/// neighbour in page `x`: page `y` holds no node any more, and the right
/// neighbour of a merged leaf has the leaf in `x` as its left sibling.
pub open spec fn merged_nodes(m: Nodes, x: PageId, y: PageId, sep: Key) -> Nodes {
    let mid = m.insert(x, spec_merge(m[x], sep, m[y])->Some_0).remove(y);
    if m[y] is Leaf && m[y]->right is Some {
        mid.insert(m[y]->right->Some_0, relink_left(m[m[y]->right->Some_0], Some(x)))
    } else {
        mid
    }
}

/// What mending child `i`, which is one entry short, makes of the nodes
/// and of the keys and children that the parent holds. The left sibling
/// gives an entry if it has more than the minimum; else the right sibling
/// does if it has more than the minimum; else the child is merged with
/// its left sibling, or with its right sibling when it is the first
/// child. After a borrow the parent has the new separator in place of
/// the old one; after a merge it has lost the separator and the right
/// one of the two children.
#[verifier::opaque]
pub open spec fn mend(m: Nodes, keys: Seq<Key>, children: Seq<PageId>, i: int, f: int, h1: nat) -> (
    Nodes,
    Seq<Key>,
    Seq<PageId>,
) {
    let min = min_fill(f, h1);
    if i > 0 && spec_fill(m[children[i - 1]]) > min {
        (
            shifted_nodes(m, children[i - 1], children[i], keys[i - 1], true),
            keys.update(i - 1, shifted_sep(m, children[i - 1], children[i], keys[i - 1], true)),
            children,
        )
    } else if i + 1 < children.len() && spec_fill(m[children[i + 1]]) > min {
        (
            shifted_nodes(m, children[i], children[i + 1], keys[i], false),
            keys.update(i, shifted_sep(m, children[i], children[i + 1], keys[i], false)),
            children,
        )
    } else if i > 0 {
        (merged_nodes(m, children[i - 1], children[i], keys[i - 1]), keys.remove(i - 1), children.remove(i))
    } else {
        (merged_nodes(m, children[0], children[1], keys[0]), keys.remove(0), children.remove(1))
    }
}

/// The nodes and what the parent holds are what mending child `i` makes
/// of them.
pub open spec fn mended(
    m: Nodes,
    m3: Nodes,
    keys: Seq<Key>,
    children: Seq<PageId>,
    keys3: Seq<Key>,
    children3: Seq<PageId>,
    i: int,
    f: int,
    h1: nat,
) -> bool {
    (m3, keys3, children3) == mend(m, keys, children, i, f, h1)
}

/// The pages in use after an operation that took no page are those that
/// were in use before, but for the pages whose nodes are gone.
pub open spec fn gave_back(a: Set<PageId>, a2: Set<PageId>, m: Nodes, m2: Nodes) -> bool {
    &&& forall|p: PageId|
        #![trigger a2.contains(p)]
        a2.contains(p) == (a.contains(p) && (m.dom().contains(p) ==> m2.dom().contains(p)))
    &&& forall|p: PageId| #![trigger m2.dom().contains(p)] m2.dom().contains(p) ==> m.dom().contains(p)
}

/// Whether mending child `i` merges it with a sibling, and so gives a
/// page back.
pub open spec fn mend_merges(m: Nodes, children: Seq<PageId>, i: int, f: int, h1: nat) -> bool {
    let min = min_fill(f, h1);
    &&& !(i > 0 && spec_fill(m[children[i - 1]]) > min)
    &&& !(i + 1 < children.len() && spec_fill(m[children[i + 1]]) > min)
}

/// What mending comes to when the left sibling has an entry to spare.
pub(crate) proof fn lemma_mend_left(m: Nodes, keys: Seq<Key>, children: Seq<PageId>, i: int, f: int, h1: nat)
    requires
        i > 0,
        spec_fill(m[children[i - 1]]) > min_fill(f, h1),
    ensures
        mend(m, keys, children, i, f, h1) == (
            shifted_nodes(m, children[i - 1], children[i], keys[i - 1], true),
            keys.update(i - 1, shifted_sep(m, children[i - 1], children[i], keys[i - 1], true)),
            children,
        ),
        !mend_merges(m, children, i, f, h1),
{
    reveal(mend);
}

/// What mending comes to when only the right sibling has an entry to
/// spare.
pub(crate) proof fn lemma_mend_right(m: Nodes, keys: Seq<Key>, children: Seq<PageId>, i: int, f: int, h1: nat)
    requires
        !(i > 0 && spec_fill(m[children[i - 1]]) > min_fill(f, h1)),
        i + 1 < children.len(),
        spec_fill(m[children[i + 1]]) > min_fill(f, h1),
    ensures
        mend(m, keys, children, i, f, h1) == (
            shifted_nodes(m, children[i], children[i + 1], keys[i], false),
            keys.update(i, shifted_sep(m, children[i], children[i + 1], keys[i], false)),
            children,
        ),
        !mend_merges(m, children, i, f, h1),
{
    reveal(mend);
}

/// What mending comes to when no sibling has an entry to spare.
pub(crate) proof fn lemma_mend_merge(m: Nodes, keys: Seq<Key>, children: Seq<PageId>, i: int, f: int, h1: nat)
    requires
        !(i > 0 && spec_fill(m[children[i - 1]]) > min_fill(f, h1)),
        !(i + 1 < children.len() && spec_fill(m[children[i + 1]]) > min_fill(f, h1)),
    ensures
        i > 0 ==> mend(m, keys, children, i, f, h1) == (
            merged_nodes(m, children[i - 1], children[i], keys[i - 1]),
            keys.remove(i - 1),
            children.remove(i),
        ),
        i <= 0 ==> mend(m, keys, children, i, f, h1) == (
            merged_nodes(m, children[0], children[1], keys[0]),
            keys.remove(0),
            children.remove(1),
        ),
        mend_merges(m, children, i, f, h1),
{
    reveal(mend);
}

} // verus!
