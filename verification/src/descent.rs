//! What a node knows once an operation on one of its children is done and
//! the node's own keys and children are as they were.

use vstd::prelude::*;
use crate::node::Key;
use crate::os_interface::PageId;
use crate::rebalance::{vpost, vright_ok};
use crate::tree_spec::{
    child_min, first_leaf, last_leaf, lemma_acyclic, lemma_leaf_ends, lemma_right_ok_down,
    lemma_sibling_kept, linked, links_ok, lookup, lower, min_fill, node_post, Nodes, owns,
    relink_left, right_ok, sub_wf, upper, vnode_ok, vowns, vstate,
};

verus! {

/// An operation on child `i` of the node at `id` is done: the child's
/// subtree is well formed with at least `cmin` entries in its top node,
/// and the node itself has not been touched.
pub open spec fn kid_mid(
    m: Nodes,
    m2: Nodes,
    a: Set<PageId>,
    id: PageId,
    h: nat,
    lo: int,
    hi: int,
    f: int,
    min: int,
    i: int,
    cmin: int,
) -> bool {
    let keys = m[id]->keys;
    let c = m[id]->children[i];
    let h1 = (h - 1) as nat;
    &&& h > 0
    &&& f >= 3
    &&& min >= 2
    &&& sub_wf(m, id, h, lo, hi, f, min)
    &&& links_ok(m, id, h)
    &&& right_ok(m, id, h)
    &&& forall|p: PageId| #![trigger m.dom().contains(p)] m.dom().contains(p) ==> a.contains(p)
    &&& 0 <= i < m[id]->children.len()
    &&& sub_wf(m2, c, h1, lower(keys, i, lo), upper(keys, i, hi), f, cmin)
    &&& links_ok(m2, c, h1)
    &&& node_post(m, m2, a, c, c, h1)
}

/// Each child is well formed within its bounds; child `i` with at least
/// `cmin` entries in its top node.
pub(crate) proof fn lemma_kid(
    m: Nodes,
    m2: Nodes,
    a: Set<PageId>,
    id: PageId,
    h: nat,
    lo: int,
    hi: int,
    f: int,
    min: int,
    i: int,
    cmin: int,
    x: int,
)
    requires
        kid_mid(m, m2, a, id, h, lo, hi, f, min, i, cmin),
        0 <= x < m[id]->children.len(),
    ensures
        sub_wf(
            m2,
            m[id]->children[x],
            (h - 1) as nat,
            lower(m[id]->keys, x, lo),
            upper(m[id]->keys, x, hi),
            f,
            if x == i {
                cmin
            } else {
                min_fill(f, (h - 1) as nat)
            },
        ),
        links_ok(m2, m[id]->children[x], (h - 1) as nat),
        m2.dom().contains(first_leaf(m2, m[id]->children[x], (h - 1) as nat)),
        m2.dom().contains(last_leaf(m2, m[id]->children[x], (h - 1) as nat)),
        m2[first_leaf(m2, m[id]->children[x], (h - 1) as nat)] is Leaf,
        m2[last_leaf(m2, m[id]->children[x], (h - 1) as nat)] is Leaf,
        forall|p: PageId|
            #![trigger owns(m2, m[id]->children[x], (h - 1) as nat, p)]
            owns(m2, m[id]->children[x], (h - 1) as nat, p) ==> (owns(m, id, h, p) && p != id)
                || !a.contains(p),
        x != i ==> forall|k: Key|
            #![trigger lookup(m2, m[id]->children[x], (h - 1) as nat, k)]
            lookup(m2, m[id]->children[x], (h - 1) as nat, k) == lookup(
                m,
                m[id]->children[x],
                (h - 1) as nat,
                k,
            ),
{
    let keys = m[id]->keys;
    let children = m[id]->children;
    let h1 = (h - 1) as nat;
    let c = children[x];
    let lt = last_leaf(m2, children[i], h1);
    lemma_acyclic(m, id, h, lo, hi, f, min, x);
    if x != i {
        lemma_sibling_kept(m, m2, id, h, lo, hi, f, min, i, x, lt);
        lemma_leaf_ends(m2, c, h1, lower(keys, x, lo), upper(keys, x, hi), f, min_fill(f, h1));
        assert forall|p: PageId| #![trigger owns(m2, c, h1, p)] owns(m2, c, h1, p) implies (owns(
            m,
            id,
            h,
            p,
        ) && p != id) || !a.contains(p) by {
            assert(owns(m, c, h1, p));
        }
    } else {
        lemma_leaf_ends(m2, c, h1, lower(keys, x, lo), upper(keys, x, hi), f, cmin);
        assert forall|p: PageId| #![trigger owns(m2, c, h1, p)] owns(m2, c, h1, p) implies (owns(
            m,
            id,
            h,
            p,
        ) && p != id) || !a.contains(p) by {
            if a.contains(p) {
                assert(owns(m, c, h1, p));
            }
        }
    }
}

/// The leaf chain runs from each child into the next.
pub(crate) proof fn lemma_kid_link(
    m: Nodes,
    m2: Nodes,
    a: Set<PageId>,
    id: PageId,
    h: nat,
    lo: int,
    hi: int,
    f: int,
    min: int,
    i: int,
    cmin: int,
    x: int,
)
    requires
        kid_mid(m, m2, a, id, h, lo, hi, f, min, i, cmin),
        0 <= x,
        x + 1 < m[id]->children.len(),
    ensures
        linked(
            m2,
            last_leaf(m2, m[id]->children[x], (h - 1) as nat),
            first_leaf(m2, m[id]->children[x + 1], (h - 1) as nat),
        ),
{
    let keys = m[id]->keys;
    let children = m[id]->children;
    let h1 = (h - 1) as nat;
    let y = x + 1;
    let lt = last_leaf(m2, children[i], h1);
    lemma_right_ok_down(m, id, h, lo, hi, f, min, i);
    lemma_kid(m, m2, a, id, h, lo, hi, f, min, i, cmin, x);
    lemma_kid(m, m2, a, id, h, lo, hi, f, min, i, cmin, y);
    assert(linked(m, last_leaf(m, children[x], h1), first_leaf(m, children[y], h1)));
    lemma_leaf_ends(m, children[i], h1, lower(keys, i, lo), upper(keys, i, hi), f, min_fill(f, h1));
    if x != i {
        lemma_sibling_kept(m, m2, id, h, lo, hi, f, min, i, x, lt);
    }
    if y != i {
        lemma_sibling_kept(m, m2, id, h, lo, hi, f, min, i, y, lt);
    }
}

/// Once child `i` is done, the operation stands where the node itself is
/// to be looked at: its keys and children would make a well-formed node,
/// but that child `i` has only `cmin` entries for certain.
pub(crate) proof fn lemma_kid_vstate(
    m: Nodes,
    m2: Nodes,
    a: Set<PageId>,
    id: PageId,
    h: nat,
    lo: int,
    hi: int,
    f: int,
    min: int,
    i: int,
    cmin: int,
    weak: int,
)
    requires
        kid_mid(m, m2, a, id, h, lo, hi, f, min, i, cmin),
        cmin == child_min(f, (h - 1) as nat, i, weak),
        weak == i || weak == -1,
    ensures
        vstate(m, m2, a, id, h, m[id]->keys, m[id]->children, lo, hi, f, weak),
        m2[id] == m[id],
{
    let keys = m[id]->keys;
    let children = m[id]->children;
    let h1 = (h - 1) as nat;
    let ci = children[i];
    let lt = last_leaf(m2, ci, h1);
    let z = children.len() - 1;
    lemma_right_ok_down(m, id, h, lo, hi, f, min, i);
    lemma_leaf_ends(m, id, h, lo, hi, f, min);
    lemma_leaf_ends(m, ci, h1, lower(keys, i, lo), upper(keys, i, hi), f, min_fill(f, h1));
    assert(owns(m, id, h, id));
    lemma_acyclic(m, id, h, lo, hi, f, min, i);
    assert(m2.dom().contains(id) && m2[id] == m[id]);
    assert forall|x: int| 0 <= x < children.len() implies sub_wf(
        m2,
        #[trigger] children[x],
        h1,
        lower(keys, x, lo),
        upper(keys, x, hi),
        f,
        child_min(f, h1, x, weak),
    ) by {
        lemma_kid(m, m2, a, id, h, lo, hi, f, min, i, cmin, x);
    }
    assert forall|x: int| 0 <= x < children.len() implies links_ok(m2, #[trigger] children[x], h1) by {
        lemma_kid(m, m2, a, id, h, lo, hi, f, min, i, cmin, x);
    }
    assert forall|x: int, y: int| 0 <= x && y == x + 1 && y < children.len() implies linked(
        m2,
        last_leaf(m2, #[trigger] children[x], h1),
        first_leaf(m2, #[trigger] children[y], h1),
    ) by {
        lemma_kid_link(m, m2, a, id, h, lo, hi, f, min, i, cmin, x);
    }
    assert forall|p: PageId| #![trigger vowns(m2, children, h1, p)] vowns(
        m2,
        children,
        h1,
        p,
    ) implies (owns(m, id, h, p) && p != id) || !a.contains(p) by {
        let x = choose|x: int| 0 <= x < children.len() && owns(m2, #[trigger] children[x], h1, p);
        lemma_kid(m, m2, a, id, h, lo, hi, f, min, i, cmin, x);
    }
    if i > 0 {
        lemma_sibling_kept(m, m2, id, h, lo, hi, f, min, i, 0, lt);
    }
    if i < z {
        lemma_sibling_kept(m, m2, id, h, lo, hi, f, min, i, z, lt);
    }
    assert forall|p: PageId|
        #![trigger m2.dom().contains(p)]
        #![trigger m2[p]]
        m.dom().contains(p) && !owns(m, id, h, p) implies m2.dom().contains(p) && m2[p] == if m[last_leaf(
        m,
        id,
        h,
    )]->right == Some(p) {
        relink_left(m[p], Some(last_leaf(m2, children[z], h1)))
    } else {
        m[p]
    } by {
        if owns(m, ci, h1, p) {
            assert(owns(m, id, h, p));
        }
        if i < z {
            let n = i + 1;
            lemma_leaf_ends(m, children[n], h1, lower(keys, n, lo), upper(keys, n, hi), f, min_fill(f, h1));
            assert(owns(m, id, h, first_leaf(m, children[n], h1)));
            if m[last_leaf(m, id, h)]->right == Some(p) {
                assert(m[p]->left == Some(last_leaf(m, id, h)));
                assert(relink_left(m[p], Some(last_leaf(m, id, h))) == m[p]);
            }
        }
    }
}

/// While the node itself is still to be written, the right neighbour of
/// the last leaf below its children is where the leaf chain needs it.
pub(crate) proof fn lemma_vright(
    m: Nodes,
    m2: Nodes,
    a: Set<PageId>,
    id: PageId,
    h: nat,
    keys: Seq<Key>,
    children: Seq<PageId>,
    lo: int,
    hi: int,
    f: int,
    min: int,
    weak: int,
)
    requires
        vstate(m, m2, a, id, h, keys, children, lo, hi, f, weak),
        sub_wf(m, id, h, lo, hi, f, min),
        right_ok(m, id, h),
        forall|p: PageId| #![trigger m.dom().contains(p)] m.dom().contains(p) ==> a.contains(p),
    ensures
        vright_ok(m2, children, (h - 1) as nat),
{
    let h1 = (h - 1) as nat;
    let l2 = last_leaf(m2, children.last(), h1);
    lemma_leaf_ends(m, id, h, lo, hi, f, min);
    if m2[l2]->right is Some {
        let r = m2[l2]->right->Some_0;
        assert(m[last_leaf(m, id, h)]->right == Some(r));
        assert(m2.dom().contains(r));
        assert(m2[r] == relink_left(m[r], Some(l2)));
        if vowns(m2, children, h1, r) {
            assert(a.contains(r));
        }
    }
}

/// Rebalancing two children keeps the operation where the node itself is
/// to be written, now with every child at its minimum.
pub(crate) proof fn lemma_vstate_step(
    m: Nodes,
    m2: Nodes,
    m3: Nodes,
    a: Set<PageId>,
    id: PageId,
    h: nat,
    keys: Seq<Key>,
    children: Seq<PageId>,
    keys3: Seq<Key>,
    children3: Seq<PageId>,
    lo: int,
    hi: int,
    f: int,
    min: int,
    weak: int,
)
    requires
        vstate(m, m2, a, id, h, keys, children, lo, hi, f, weak),
        sub_wf(m, id, h, lo, hi, f, min),
        right_ok(m, id, h),
        forall|p: PageId| #![trigger m.dom().contains(p)] m.dom().contains(p) ==> a.contains(p),
        vnode_ok(m3, keys3, children3, (h - 1) as nat, lo, hi, f, -1),
        vpost(m2, m3, children, children3, (h - 1) as nat),
    ensures
        vstate(m, m3, a, id, h, keys3, children3, lo, hi, f, -1),
        m3[id] == m2[id],
{
    let h1 = (h - 1) as nat;
    let l2 = last_leaf(m2, children.last(), h1);
    let l3 = last_leaf(m3, children3.last(), h1);
    let rp = m[last_leaf(m, id, h)]->right;
    lemma_vright(m, m2, a, id, h, keys, children, lo, hi, f, min, weak);
    lemma_leaf_ends(m, id, h, lo, hi, f, min);
    assert(owns(m, id, h, id));
    assert(a.contains(id));
    assert(!vowns(m2, children, h1, id));
    assert(m3.dom().contains(id) && m3[id] == m2[id]) by {
        if rp == Some(id) {
            assert(m2[id] is Leaf);
        }
    }
    assert forall|p: PageId|
        #![trigger m3.dom().contains(p)]
        #![trigger m3[p]]
        m.dom().contains(p) && !owns(m, id, h, p) implies m3.dom().contains(p) && m3[p] == if rp
        == Some(p) {
        relink_left(m[p], Some(l3))
    } else {
        m[p]
    } by {
        assert(m2.dom().contains(p));
        if vowns(m2, children, h1, p) {
            assert(a.contains(p));
        }
        if rp == Some(p) {
            assert(m2[p] == relink_left(m[p], Some(l2)));
            assert(m3[p] == relink_left(m2[p], Some(l3)));
        }
    }
    assert forall|p: PageId| #![trigger vowns(m3, children3, h1, p)] vowns(
        m3,
        children3,
        h1,
        p,
    ) implies (owns(m, id, h, p) && p != id) || !a.contains(p) by {
        assert(vowns(m2, children, h1, p));
    }
}

} // verus!
