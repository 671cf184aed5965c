//! What a well-formed tree is, stated over the nodes that the pages hold,
//! and the facts about such trees that the operations rest on.

use vstd::prelude::*;
use crate::node::{Key, LeafNodeInterior, NodeView, Value};
use crate::os_interface::PageId;

verus! {

/// The nodes of a store, by page.
pub type Nodes = Map<PageId, NodeView>;

/// One more than the largest key.
pub open spec fn key_limit() -> int {
    0x1_0000_0000_0000_0000
}

/// Separator keys are strictly increasing.
pub open spec fn sorted_keys(keys: Seq<Key>) -> bool {
    forall|i: int, j: int| 0 <= i < j < keys.len() ==> keys[i] < keys[j]
}

/// Leaf entries are strictly increasing by key.
pub open spec fn sorted_entries(entries: Seq<LeafNodeInterior>) -> bool {
    forall|i: int, j: int| 0 <= i < j < entries.len() ==> entries[i].key < entries[j].key
}

/// The fewest entries of a leaf that is not the root.
pub open spec fn min_leaf(f: int) -> int {
    f / 2
}

/// The fewest children of an internal node that is not the root.
pub open spec fn min_inner(f: int) -> int {
    (f + 1) / 2
}

/// The fewest entries (of a leaf) or children (of an internal node) of a
/// node `h` levels above the leaves that is not the root.
pub open spec fn min_fill(f: int, h: nat) -> int {
    if h == 0 {
        min_leaf(f)
    } else {
        min_inner(f)
    }
}

/// The fewest entries or children of the root.
pub open spec fn root_fill(h: nat) -> int {
    if h == 0 {
        0
    } else {
        2
    }
}

/// The lower bound of the keys under child `i`.
pub open spec fn lower(keys: Seq<Key>, i: int, lo: int) -> int {
    if i == 0 {
        lo
    } else {
        keys[i - 1] as int
    }
}

/// The upper bound of the keys under child `i`.
pub open spec fn upper(keys: Seq<Key>, i: int, hi: int) -> int {
    if i == keys.len() {
        hi
    } else {
        keys[i] as int
    }
}

/// The subtree at `id`, `h` levels above the leaves, is well formed for
/// fanout `f`: every leaf is at depth `h`; keys are strictly increasing in
/// every node; every key lies in `[lo, hi)`, and the keys under child `i`
/// of an internal node lie between separator `i - 1` and separator `i`; a
/// leaf holds at most `f - 1` entries and an internal node at most `f`
/// children, one more than it has keys; the top node holds at least `min`
/// entries or children and every node below it at least the minimum for a
/// node that is not the root.
pub open spec fn sub_wf(m: Nodes, id: PageId, h: nat, lo: int, hi: int, f: int, min: int) -> bool
    decreases h,
{
    &&& id != 0
    &&& m.dom().contains(id)
    &&& match m[id] {
        NodeView::Leaf { entries, left, right } => {
            &&& h == 0
            &&& min <= entries.len() <= f - 1
            &&& sorted_entries(entries)
            &&& forall|i: int| 0 <= i < entries.len() ==> lo <= (#[trigger] entries[i]).key < hi
        },
        NodeView::Inner { keys, children } => {
            &&& h > 0
            &&& children.len() == keys.len() + 1
            &&& min <= children.len() <= f
            &&& sorted_keys(keys)
            &&& forall|i: int| 0 <= i < keys.len() ==> lo < #[trigger] keys[i] < hi
            &&& forall|i: int|
                0 <= i < children.len() ==> sub_wf(
                    m,
                    #[trigger] children[i],
                    (h - 1) as nat,
                    lower(keys, i, lo),
                    upper(keys, i, hi),
                    f,
                    min_fill(f, (h - 1) as nat),
                )
        },
    }
}

/// Whether a node fits its place: it is of the kind that belongs `h`
/// levels above the leaves, it holds at least `min` and at most as many
/// entries (a leaf) or children (an internal node) as the fanout `f`
/// admits, and its keys are strictly increasing within `[lo, hi)`.
pub open spec fn node_fits(node: NodeView, h: nat, lo: int, hi: int, f: int, min: int) -> bool {
    match node {
        NodeView::Leaf { entries, left, right } => {
            &&& h == 0
            &&& min <= entries.len() <= f - 1
            &&& sorted_entries(entries)
            &&& forall|i: int| 0 <= i < entries.len() ==> lo <= (#[trigger] entries[i]).key < hi
        },
        NodeView::Inner { keys, children } => {
            &&& h > 0
            &&& children.len() == keys.len() + 1
            &&& min <= children.len() <= f
            &&& sorted_keys(keys)
            &&& forall|i: int| 0 <= i < keys.len() ==> lo < #[trigger] keys[i] < hi
        },
    }
}

/// Page `p` holds a node of the subtree at `id`.
pub open spec fn owns(m: Nodes, id: PageId, h: nat, p: PageId) -> bool
    decreases h,
{
    p == id || (h > 0 && m.dom().contains(id) && m[id] is Inner && exists|i: int|
        0 <= i < m[id]->children.len() && owns(m, #[trigger] m[id]->children[i], (h - 1) as nat, p))
}

/// The child to descend into for key `k`: the number of separators that
/// are not above `k`.
pub open spec fn route(keys: Seq<Key>, k: Key) -> int
    decreases keys.len(),
{
    if keys.len() == 0 {
        0
    } else if keys.last() <= k {
        keys.len() as int
    } else {
        route(keys.drop_last(), k)
    }
}

/// Whether a leaf holds the key.
pub open spec fn has_key(entries: Seq<LeafNodeInterior>, k: Key) -> bool {
    exists|i: int| 0 <= i < entries.len() && (#[trigger] entries[i]).key == k
}

/// The value that a leaf holds for a key.
pub open spec fn leaf_get(entries: Seq<LeafNodeInterior>, k: Key) -> Option<Value> {
    if has_key(entries, k) {
        Some(entries[choose|i: int| 0 <= i < entries.len() && (#[trigger] entries[i]).key == k].value)
    } else {
        None
    }
}

/// What a descent from `id` finds for key `k`.
pub open spec fn lookup(m: Nodes, id: PageId, h: nat, k: Key) -> Option<Value>
    decreases h,
{
    if !m.dom().contains(id) {
        None
    } else {
        match m[id] {
            NodeView::Leaf { entries, left, right } => if h == 0 {
                leaf_get(entries, k)
            } else {
                None
            },
            NodeView::Inner { keys, children } => if h > 0 && 0 <= route(keys, k) < children.len() {
                lookup(m, children[route(keys, k)], (h - 1) as nat, k)
            } else {
                None
            },
        }
    }
}

/// The leftmost leaf of the subtree.
pub open spec fn first_leaf(m: Nodes, id: PageId, h: nat) -> PageId
    decreases h,
{
    if h > 0 && m.dom().contains(id) && m[id] is Inner && m[id]->children.len() > 0 {
        first_leaf(m, m[id]->children[0], (h - 1) as nat)
    } else {
        id
    }
}

/// The rightmost leaf of the subtree.
pub open spec fn last_leaf(m: Nodes, id: PageId, h: nat) -> PageId
    decreases h,
{
    if h > 0 && m.dom().contains(id) && m[id] is Inner && m[id]->children.len() > 0 {
        last_leaf(m, m[id]->children.last(), (h - 1) as nat)
    } else {
        id
    }
}

/// Leaf `a` and leaf `b` point at each other as right and left sibling.
pub open spec fn linked(m: Nodes, a: PageId, b: PageId) -> bool {
    &&& m.dom().contains(a)
    &&& m.dom().contains(b)
    &&& m[a] is Leaf
    &&& m[b] is Leaf
    &&& m[a]->right == Some(b)
    &&& m[b]->left == Some(a)
}

/// Within the subtree, every leaf is linked to the next one in key order.
pub open spec fn links_ok(m: Nodes, id: PageId, h: nat) -> bool
    decreases h,
{
    h > 0 && m.dom().contains(id) && m[id] is Inner ==> {
        let children = m[id]->children;
        &&& forall|i: int|
            0 <= i < children.len() ==> links_ok(m, #[trigger] children[i], (h - 1) as nat)
        &&& forall|i: int, j: int|
            0 <= i && j == i + 1 && j < children.len() ==> linked(
                m,
                last_leaf(m, #[trigger] children[i], (h - 1) as nat),
                first_leaf(m, #[trigger] children[j], (h - 1) as nat),
            )
    }
}

/// The whole tree is well formed: the subtree at the root is, over all
/// keys; the root has at least two children unless it is a leaf; the
/// leaves form one chain in key order, which ends on both sides.
pub open spec fn tree_wf(m: Nodes, root: PageId, height: nat, f: int) -> bool {
    &&& sub_wf(m, root, height, 0, key_limit(), f, root_fill(height))
    &&& links_ok(m, root, height)
    &&& m[first_leaf(m, root, height)]->left is None
    &&& m[last_leaf(m, root, height)]->right is None
}

/// The keys and values of the tree, as a descent finds them.
pub open spec fn tree_map(m: Nodes, root: PageId, height: nat) -> Map<Key, Value> {
    Map::new(
        |k: Key| lookup(m, root, height, k) is Some,
        |k: Key| lookup(m, root, height, k)->Some_0,
    )
}

/// Two nodes hold the same keys, values and children; only sibling
/// pointers may differ.
pub open spec fn same_payload(a: NodeView, b: NodeView) -> bool {
    match a {
        NodeView::Leaf { entries, left, right } => b is Leaf && b->entries == entries,
        NodeView::Inner { keys, children } => b == a,
    }
}

/// `route` gives the one position whose neighbours bracket the key.
pub(crate) proof fn lemma_route(keys: Seq<Key>, k: Key)
    requires
        sorted_keys(keys),
    ensures
        0 <= route(keys, k) <= keys.len(),
        route(keys, k) > 0 ==> keys[route(keys, k) - 1] <= k,
        route(keys, k) < keys.len() ==> k < keys[route(keys, k)],
    decreases keys.len(),
{
    if keys.len() > 0 && keys.last() > k {
        lemma_route(keys.drop_last(), k);
    }
}

/// A position whose neighbours bracket the key is what `route` gives.
pub(crate) proof fn lemma_route_is(keys: Seq<Key>, k: Key, i: int)
    requires
        sorted_keys(keys),
        0 <= i <= keys.len(),
        i > 0 ==> keys[i - 1] <= k,
        i < keys.len() ==> k < keys[i],
    ensures
        route(keys, k) == i,
{
    lemma_route(keys, k);
    let r = route(keys, k);
    if r < i {
        assert(keys[r] <= keys[i - 1]);
    }
    if i < r {
        assert(keys[i] <= keys[r - 1]);
    }
}

/// In a sorted leaf, the entry at `i` is what `leaf_get` finds for its key.
pub(crate) proof fn lemma_leaf_get_at(entries: Seq<LeafNodeInterior>, i: int)
    requires
        sorted_entries(entries),
        0 <= i < entries.len(),
    ensures
        has_key(entries, entries[i].key),
        leaf_get(entries, entries[i].key) == Some(entries[i].value),
{
    let k = entries[i].key;
    let j = choose|j: int| 0 <= j < entries.len() && (#[trigger] entries[j]).key == k;
    if j < i {
        assert(entries[j].key < entries[i].key);
    }
    if i < j {
        assert(entries[i].key < entries[j].key);
    }
}

/// Every node of a well-formed subtree is in the store and is not page 0.
pub(crate) proof fn lemma_owned_in_dom(m: Nodes, id: PageId, h: nat, lo: int, hi: int, f: int, min: int, p: PageId)
    requires
        sub_wf(m, id, h, lo, hi, f, min),
        owns(m, id, h, p),
    ensures
        m.dom().contains(p),
        p != 0,
    decreases h,
{
    if p != id {
        let i = choose|i: int|
            0 <= i < m[id]->children.len() && owns(m, #[trigger] m[id]->children[i], (h - 1) as nat, p);
        lemma_owned_in_dom(
            m,
            m[id]->children[i],
            (h - 1) as nat,
            lower(m[id]->keys, i, lo),
            upper(m[id]->keys, i, hi),
            f,
            min_fill(f, (h - 1) as nat),
            p,
        );
    }
}

/// A subtree is untouched by changes to pages that hold none of its
/// nodes, and by changes to the sibling pointers of its leaves: it stays
/// well formed, holds the same pages, finds the same values and has the
/// same first and last leaf.
pub(crate) proof fn lemma_frame(m: Nodes, m2: Nodes, id: PageId, h: nat, lo: int, hi: int, f: int, min: int)
    requires
        sub_wf(m, id, h, lo, hi, f, min),
        forall|p: PageId|
            #![trigger owns(m, id, h, p)]
            owns(m, id, h, p) ==> m2.dom().contains(p) && same_payload(m[p], m2[p]),
    ensures
        sub_wf(m2, id, h, lo, hi, f, min),
        forall|p: PageId| #![trigger owns(m2, id, h, p)] owns(m2, id, h, p) == owns(m, id, h, p),
        forall|k: Key| #![trigger lookup(m2, id, h, k)] lookup(m2, id, h, k) == lookup(m, id, h, k),
        first_leaf(m2, id, h) == first_leaf(m, id, h),
        last_leaf(m2, id, h) == last_leaf(m, id, h),
    decreases h,
{
    assert(owns(m, id, h, id));
    match m[id] {
        NodeView::Leaf { entries, left, right } => {},
        NodeView::Inner { keys, children } => {
            assert(m2[id] == m[id]);
            let h1 = (h - 1) as nat;
            assert forall|i: int| 0 <= i < children.len() implies {
                &&& sub_wf(
                    m2,
                    #[trigger] children[i],
                    h1,
                    lower(keys, i, lo),
                    upper(keys, i, hi),
                    f,
                    min_fill(f, h1),
                )
                &&& forall|p: PageId|
                    #![trigger owns(m2, children[i], h1, p)]
                    owns(m2, children[i], h1, p) == owns(m, children[i], h1, p)
                &&& forall|k: Key|
                    #![trigger lookup(m2, children[i], h1, k)]
                    lookup(m2, children[i], h1, k) == lookup(m, children[i], h1, k)
                &&& first_leaf(m2, children[i], h1) == first_leaf(m, children[i], h1)
                &&& last_leaf(m2, children[i], h1) == last_leaf(m, children[i], h1)
            } by {
                assert forall|p: PageId|
                    #![trigger owns(m, children[i], h1, p)]
                    owns(m, children[i], h1, p) implies m2.dom().contains(p) && same_payload(
                    m[p],
                    m2[p],
                ) by {
                    assert(owns(m, id, h, p));
                }
                lemma_frame(
                    m,
                    m2,
                    children[i],
                    h1,
                    lower(keys, i, lo),
                    upper(keys, i, hi),
                    f,
                    min_fill(f, h1),
                );
            }
            assert forall|p: PageId| owns(m2, id, h, p) == owns(m, id, h, p) by {
                if owns(m, id, h, p) && p != id {
                    let i = choose|i: int|
                        0 <= i < children.len() && owns(m, #[trigger] children[i], h1, p);
                    assert(owns(m2, children[i], h1, p));
                }
                if owns(m2, id, h, p) && p != id {
                    let i = choose|i: int|
                        0 <= i < children.len() && owns(m2, #[trigger] children[i], h1, p);
                    assert(owns(m, children[i], h1, p));
                }
            }
            assert forall|k: Key| lookup(m2, id, h, k) == lookup(m, id, h, k) by {
                lemma_route(keys, k);
                let i = route(keys, k);
                assert(lookup(m2, children[i], h1, k) == lookup(m, children[i], h1, k));
            }
            assert(first_leaf(m2, children[0], h1) == first_leaf(m, children[0], h1));
            let z = children.len() - 1;
            assert(last_leaf(m2, children[z], h1) == last_leaf(m, children[z], h1));
        },
    }
}

/// The position at which a key stands, or would stand, in a sorted leaf:
/// the number of entries with a smaller key.
pub open spec fn rank(entries: Seq<LeafNodeInterior>, k: Key) -> int
    decreases entries.len(),
{
    if entries.len() == 0 {
        0
    } else if entries.last().key < k {
        entries.len() as int
    } else {
        rank(entries.drop_last(), k)
    }
}

/// `rank` gives the one position whose neighbours bracket the key.
pub(crate) proof fn lemma_rank(entries: Seq<LeafNodeInterior>, k: Key)
    requires
        sorted_entries(entries),
    ensures
        0 <= rank(entries, k) <= entries.len(),
        rank(entries, k) > 0 ==> entries[rank(entries, k) - 1].key < k,
        rank(entries, k) < entries.len() ==> k <= entries[rank(entries, k)].key,
    decreases entries.len(),
{
    if entries.len() > 0 && entries.last().key >= k {
        lemma_rank(entries.drop_last(), k);
    }
}

/// A position whose neighbours bracket the key is what `rank` gives.
pub(crate) proof fn lemma_rank_is(entries: Seq<LeafNodeInterior>, k: Key, i: int)
    requires
        sorted_entries(entries),
        0 <= i <= entries.len(),
        i > 0 ==> entries[i - 1].key < k,
        i < entries.len() ==> k <= entries[i].key,
    ensures
        rank(entries, k) == i,
{
    lemma_rank(entries, k);
    let r = rank(entries, k);
    if r < i {
        assert(entries[r].key <= entries[i - 1].key);
    }
    if i < r {
        assert(entries[i].key <= entries[r - 1].key);
    }
}

/// In a sorted leaf a key is found at its rank or not at all.
pub(crate) proof fn lemma_leaf_get_rank(entries: Seq<LeafNodeInterior>, k: Key)
    requires
        sorted_entries(entries),
    ensures
        leaf_get(entries, k) == if rank(entries, k) < entries.len() && entries[rank(
            entries,
            k,
        )].key == k {
            Some(entries[rank(entries, k)].value)
        } else {
            None
        },
        has_key(entries, k) == (rank(entries, k) < entries.len() && entries[rank(entries, k)].key
            == k),
{
    lemma_rank(entries, k);
    let r = rank(entries, k);
    if r < entries.len() && entries[r].key == k {
        lemma_leaf_get_at(entries, r);
    } else {
        if has_key(entries, k) {
            let j = choose|j: int| 0 <= j < entries.len() && (#[trigger] entries[j]).key == k;
            if j < r {
                assert(entries[j].key <= entries[r - 1].key);
            }
            if j > r {
                assert(entries[r].key < entries[j].key);
            }
        }
    }
}

/// Every key of the node lies in the range.
pub open spec fn node_keys_within(n: NodeView, lo: int, hi: int) -> bool {
    match n {
        NodeView::Leaf { entries, left, right } => forall|i: int|
            0 <= i < entries.len() ==> lo <= (#[trigger] entries[i]).key < hi,
        NodeView::Inner { keys, children } => forall|i: int|
            0 <= i < keys.len() ==> lo < #[trigger] keys[i] < hi,
    }
}

/// The node holds at least one key.
pub open spec fn node_nonempty(n: NodeView) -> bool {
    match n {
        NodeView::Leaf { entries, left, right } => entries.len() >= 1,
        NodeView::Inner { keys, children } => keys.len() >= 1,
    }
}

/// The first and the last leaf of a well-formed subtree are leaves of it.
pub(crate) proof fn lemma_leaf_ends(m: Nodes, id: PageId, h: nat, lo: int, hi: int, f: int, min: int)
    requires
        sub_wf(m, id, h, lo, hi, f, min),
    ensures
        owns(m, id, h, first_leaf(m, id, h)),
        owns(m, id, h, last_leaf(m, id, h)),
        m.dom().contains(first_leaf(m, id, h)),
        m.dom().contains(last_leaf(m, id, h)),
        m[first_leaf(m, id, h)] is Leaf,
        m[last_leaf(m, id, h)] is Leaf,
        first_leaf(m, id, h) != 0,
        last_leaf(m, id, h) != 0,
        h == 0 ==> first_leaf(m, id, h) == id && last_leaf(m, id, h) == id,
    decreases h,
{
    match m[id] {
        NodeView::Leaf { entries, left, right } => {},
        NodeView::Inner { keys, children } => {
            let h1 = (h - 1) as nat;
            let z = children.len() - 1;
            lemma_leaf_ends(m, children[0], h1, lower(keys, 0, lo), upper(keys, 0, hi), f, min_fill(f, h1));
            lemma_leaf_ends(m, children[z], h1, lower(keys, z, lo), upper(keys, z, hi), f, min_fill(f, h1));
            assert(owns(m, children[0], h1, first_leaf(m, id, h)));
            assert(owns(m, children[z], h1, last_leaf(m, id, h)));
        },
    }
}

/// Every node of a well-formed subtree whose nodes all hold a key has its
/// keys within the subtree's range, and holds a key.
pub(crate) proof fn lemma_owned_keys(
    m: Nodes,
    id: PageId,
    h: nat,
    lo: int,
    hi: int,
    f: int,
    min: int,
    p: PageId,
)
    requires
        sub_wf(m, id, h, lo, hi, f, min),
        f >= 3,
        node_nonempty(m[id]),
        owns(m, id, h, p),
    ensures
        node_keys_within(m[p], lo, hi),
        node_nonempty(m[p]),
    decreases h,
{
    if p != id {
        let keys = m[id]->keys;
        let children = m[id]->children;
        let h1 = (h - 1) as nat;
        let i = choose|i: int| 0 <= i < children.len() && owns(m, #[trigger] children[i], h1, p);
        assert(sub_wf(m, children[i], h1, lower(keys, i, lo), upper(keys, i, hi), f, min_fill(f, h1)));
        lemma_owned_keys(m, children[i], h1, lower(keys, i, lo), upper(keys, i, hi), f, min_fill(f, h1), p);
        if i > 0 {
            assert(lo < keys[i - 1]);
        }
        if i < keys.len() {
            assert(keys[i] < hi);
        }
    }
}

/// Two well-formed subtrees over ranges that do not overlap share no page.
pub(crate) proof fn lemma_disjoint(
    m: Nodes,
    a: PageId,
    ha: nat,
    la: int,
    ua: int,
    mina: int,
    b: PageId,
    hb: nat,
    lb: int,
    ub: int,
    minb: int,
    f: int,
    p: PageId,
)
    requires
        sub_wf(m, a, ha, la, ua, f, mina),
        sub_wf(m, b, hb, lb, ub, f, minb),
        f >= 3,
        node_nonempty(m[a]),
        node_nonempty(m[b]),
        ua <= lb || ub <= la,
        owns(m, a, ha, p),
    ensures
        !owns(m, b, hb, p),
{
    if owns(m, b, hb, p) {
        lemma_owned_keys(m, a, ha, la, ua, f, mina, p);
        lemma_owned_keys(m, b, hb, lb, ub, f, minb, p);
        match m[p] {
            NodeView::Leaf { entries, left, right } => {
                assert(la <= entries[0].key < ua);
                assert(lb <= entries[0].key < ub);
            },
            NodeView::Inner { keys, children } => {
                assert(la < keys[0] < ua);
                assert(lb < keys[0] < ub);
            },
        }
    }
}

/// No node is below itself.
pub(crate) proof fn lemma_acyclic(m: Nodes, id: PageId, h: nat, lo: int, hi: int, f: int, min: int, i: int)
    requires
        sub_wf(m, id, h, lo, hi, f, min),
        f >= 3,
        h > 0,
        node_nonempty(m[id]),
        0 <= i < m[id]->children.len(),
    ensures
        !owns(m, m[id]->children[i], (h - 1) as nat, id),
{
    let keys = m[id]->keys;
    let children = m[id]->children;
    let h1 = (h - 1) as nat;
    if owns(m, children[i], h1, id) {
        assert(sub_wf(m, children[i], h1, lower(keys, i, lo), upper(keys, i, hi), f, min_fill(f, h1)));
        lemma_owned_keys(m, children[i], h1, lower(keys, i, lo), upper(keys, i, hi), f, min_fill(f, h1), id);
        if i > 0 {
            assert(lower(keys, i, lo) < keys[i - 1]);
        } else {
            assert(keys[0] < upper(keys, i, hi));
        }
    }
}

/// The children of a well-formed node share no page.
pub(crate) proof fn lemma_children_disjoint(
    m: Nodes,
    id: PageId,
    h: nat,
    lo: int,
    hi: int,
    f: int,
    min: int,
    i: int,
    j: int,
    p: PageId,
)
    requires
        sub_wf(m, id, h, lo, hi, f, min),
        f >= 3,
        h > 0,
        0 <= i < m[id]->children.len(),
        0 <= j < m[id]->children.len(),
        i != j,
        owns(m, m[id]->children[i], (h - 1) as nat, p),
    ensures
        !owns(m, m[id]->children[j], (h - 1) as nat, p),
{
    let keys = m[id]->keys;
    let children = m[id]->children;
    let h1 = (h - 1) as nat;
    assert(sub_wf(m, children[i], h1, lower(keys, i, lo), upper(keys, i, hi), f, min_fill(f, h1)));
    assert(sub_wf(m, children[j], h1, lower(keys, j, lo), upper(keys, j, hi), f, min_fill(f, h1)));
    if i < j {
        assert(upper(keys, i, hi) <= lower(keys, j, lo)) by {
            if i < j - 1 {
                assert(keys[i] < keys[j - 1]);
            }
        }
    } else {
        assert(upper(keys, j, hi) <= lower(keys, i, lo)) by {
            if j < i - 1 {
                assert(keys[j] < keys[i - 1]);
            }
        }
    }
    lemma_disjoint(
        m,
        children[i],
        h1,
        lower(keys, i, lo),
        upper(keys, i, hi),
        min_fill(f, h1),
        children[j],
        h1,
        lower(keys, j, lo),
        upper(keys, j, hi),
        min_fill(f, h1),
        f,
        p,
    );
}

/// The leaf chain within a subtree is untouched by changes to pages that
/// hold none of its nodes.
pub(crate) proof fn lemma_frame_links(m: Nodes, m2: Nodes, id: PageId, h: nat, lo: int, hi: int, f: int, min: int)
    requires
        sub_wf(m, id, h, lo, hi, f, min),
        links_ok(m, id, h),
        forall|p: PageId|
            #![trigger owns(m, id, h, p)]
            owns(m, id, h, p) ==> m2.dom().contains(p) && m2[p] == m[p],
    ensures
        links_ok(m2, id, h),
    decreases h,
{
    assert(owns(m, id, h, id));
    match m[id] {
        NodeView::Leaf { entries, left, right } => {},
        NodeView::Inner { keys, children } => {
            let h1 = (h - 1) as nat;
            assert forall|i: int| 0 <= i < children.len() implies {
                &&& links_ok(m2, #[trigger] children[i], h1)
                &&& first_leaf(m2, children[i], h1) == first_leaf(m, children[i], h1)
                &&& last_leaf(m2, children[i], h1) == last_leaf(m, children[i], h1)
                &&& m2[first_leaf(m, children[i], h1)] == m[first_leaf(m, children[i], h1)]
                &&& m2[last_leaf(m, children[i], h1)] == m[last_leaf(m, children[i], h1)]
                &&& m2.dom().contains(first_leaf(m, children[i], h1))
                &&& m2.dom().contains(last_leaf(m, children[i], h1))
            } by {
                assert forall|p: PageId|
                    #![trigger owns(m, children[i], h1, p)]
                    owns(m, children[i], h1, p) implies m2.dom().contains(p) && m2[p] == m[p]
                    && same_payload(m[p], m2[p]) by {
                    assert(owns(m, id, h, p));
                }
                let l = lower(keys, i, lo);
                let u = upper(keys, i, hi);
                lemma_frame(m, m2, children[i], h1, l, u, f, min_fill(f, h1));
                lemma_frame_links(m, m2, children[i], h1, l, u, f, min_fill(f, h1));
                lemma_leaf_ends(m, children[i], h1, l, u, f, min_fill(f, h1));
            }
            assert forall|i: int, j: int| 0 <= i && j == i + 1 && j < children.len() implies linked(
                m2,
                last_leaf(m2, #[trigger] children[i], h1),
                first_leaf(m2, #[trigger] children[j], h1),
            ) by {
                assert(linked(m, last_leaf(m, children[i], h1), first_leaf(m, children[j], h1)));
                assert(links_ok(m2, children[j], h1));
            }
        },
    }
}

/// The leaf chain within a subtree is still in order when the leftmost
/// leaf gets another left sibling and nothing else changes.
pub(crate) proof fn lemma_relink(m: Nodes, m2: Nodes, id: PageId, h: nat, lo: int, hi: int, f: int, min: int)
    requires
        sub_wf(m, id, h, lo, hi, f, min),
        f >= 3,
        links_ok(m, id, h),
        forall|p: PageId|
            #![trigger owns(m, id, h, p)]
            owns(m, id, h, p) && p != first_leaf(m, id, h) ==> m2.dom().contains(p) && m2[p] == m[p],
        m2.dom().contains(first_leaf(m, id, h)),
        m2[first_leaf(m, id, h)] is Leaf,
        m2[first_leaf(m, id, h)]->entries == m[first_leaf(m, id, h)]->entries,
        m2[first_leaf(m, id, h)]->right == m[first_leaf(m, id, h)]->right,
    ensures
        links_ok(m2, id, h),
    decreases h,
{
    lemma_leaf_ends(m, id, h, lo, hi, f, min);
    match m[id] {
        NodeView::Leaf { entries, left, right } => {},
        NodeView::Inner { keys, children } => {
            let h1 = (h - 1) as nat;
            let fl = first_leaf(m, id, h);
            assert(owns(m, id, h, id));
            assert(m2[id] == m[id]);
            assert forall|i: int| 0 <= i < children.len() implies {
                &&& links_ok(m2, #[trigger] children[i], h1)
                &&& first_leaf(m2, children[i], h1) == first_leaf(m, children[i], h1)
                &&& last_leaf(m2, children[i], h1) == last_leaf(m, children[i], h1)
                &&& (i > 0 ==> m2[first_leaf(m, children[i], h1)] == m[first_leaf(m, children[i], h1)])
                &&& m2[last_leaf(m, children[i], h1)] is Leaf
                &&& m2[last_leaf(m, children[i], h1)]->right == m[last_leaf(m, children[i], h1)]->right
                &&& m2.dom().contains(first_leaf(m, children[i], h1))
                &&& m2.dom().contains(last_leaf(m, children[i], h1))
            } by {
                let l = lower(keys, i, lo);
                let u = upper(keys, i, hi);
                assert(sub_wf(m, children[i], h1, l, u, f, min_fill(f, h1)));
                lemma_leaf_ends(m, children[i], h1, l, u, f, min_fill(f, h1));
                assert forall|p: PageId|
                    #![trigger owns(m, children[i], h1, p)]
                    owns(m, children[i], h1, p) implies m2.dom().contains(p) && same_payload(
                    m[p],
                    m2[p],
                ) && (i > 0 ==> m2[p] == m[p]) by {
                    assert(owns(m, id, h, p));
                    if i > 0 && p == fl {
                        lemma_leaf_ends(
                            m,
                            children[0],
                            h1,
                            lower(keys, 0, lo),
                            upper(keys, 0, hi),
                            f,
                            min_fill(f, h1),
                        );
                        lemma_children_disjoint(m, id, h, lo, hi, f, min, 0, i, p);
                    }
                }
                lemma_frame(m, m2, children[i], h1, l, u, f, min_fill(f, h1));
                if i > 0 {
                    lemma_frame_links(m, m2, children[i], h1, l, u, f, min_fill(f, h1));
                } else {
                    assert forall|p: PageId|
                        #![trigger owns(m, children[i], h1, p)]
                        owns(m, children[i], h1, p) && p != first_leaf(
                            m,
                            children[i],
                            h1,
                        ) implies m2.dom().contains(p) && m2[p] == m[p] by {
                        assert(owns(m, id, h, p));
                    }
                    lemma_relink(m, m2, children[i], h1, l, u, f, min_fill(f, h1));
                }
            }
            assert forall|i: int, j: int| 0 <= i && j == i + 1 && j < children.len() implies linked(
                m2,
                last_leaf(m2, #[trigger] children[i], h1),
                first_leaf(m2, #[trigger] children[j], h1),
            ) by {
                assert(linked(m, last_leaf(m, children[i], h1), first_leaf(m, children[j], h1)));
                assert(links_ok(m2, children[j], h1));
            }
        },
    }
}

/// The fewest entries of child `i` when child `weak` may be one short.
pub open spec fn child_min(f: int, h1: nat, i: int, weak: int) -> int {
    if i == weak {
        min_fill(f, h1) - 1
    } else {
        min_fill(f, h1)
    }
}

/// Keys and children that would make a well-formed internal node over the
/// range `[lo, hi)`, with children `h1` levels above the leaves, whatever
/// their number; child `weak`, if there is one, may be one entry short.
pub open spec fn vnode_ok(
    m: Nodes,
    keys: Seq<Key>,
    children: Seq<PageId>,
    h1: nat,
    lo: int,
    hi: int,
    f: int,
    weak: int,
) -> bool {
    &&& children.len() == keys.len() + 1
    &&& sorted_keys(keys)
    &&& forall|i: int| 0 <= i < keys.len() ==> lo < #[trigger] keys[i] < hi
    &&& forall|i: int|
        0 <= i < children.len() ==> sub_wf(
            m,
            #[trigger] children[i],
            h1,
            lower(keys, i, lo),
            upper(keys, i, hi),
            f,
            child_min(f, h1, i, weak),
        )
    &&& forall|i: int| 0 <= i < children.len() ==> links_ok(m, #[trigger] children[i], h1)
    &&& forall|i: int, j: int|
        0 <= i && j == i + 1 && j < children.len() ==> linked(
            m,
            last_leaf(m, #[trigger] children[i], h1),
            first_leaf(m, #[trigger] children[j], h1),
        )
}

/// Page `p` holds a node of one of the subtrees at `children`.
pub open spec fn vowns(m: Nodes, children: Seq<PageId>, h1: nat, p: PageId) -> bool {
    exists|i: int| 0 <= i < children.len() && owns(m, #[trigger] children[i], h1, p)
}

/// Writing keys and children that would make a well-formed node into a
/// page that holds none of the nodes below makes a well-formed subtree.
pub(crate) proof fn lemma_vnode_install(
    m: Nodes,
    m3: Nodes,
    id: PageId,
    keys: Seq<Key>,
    children: Seq<PageId>,
    h: nat,
    lo: int,
    hi: int,
    f: int,
    min: int,
)
    requires
        h > 0,
        vnode_ok(m, keys, children, (h - 1) as nat, lo, hi, f, -1),
        min <= children.len() <= f,
        id != 0,
        m3.dom().contains(id),
        m3[id] == (NodeView::Inner { keys, children }),
        forall|p: PageId|
            #![trigger vowns(m, children, (h - 1) as nat, p)]
            vowns(m, children, (h - 1) as nat, p) ==> p != id && m3.dom().contains(p) && m3[p]
                == m[p],
    ensures
        sub_wf(m3, id, h, lo, hi, f, min),
        links_ok(m3, id, h),
        forall|k: Key|
            #![trigger lookup(m3, id, h, k)]
            lookup(m3, id, h, k) == lookup(m, children[route(keys, k)], (h - 1) as nat, k),
        forall|p: PageId|
            #![trigger owns(m3, id, h, p)]
            owns(m3, id, h, p) == (p == id || vowns(m, children, (h - 1) as nat, p)),
        first_leaf(m3, id, h) == first_leaf(m, children[0], (h - 1) as nat),
        last_leaf(m3, id, h) == last_leaf(m, children.last(), (h - 1) as nat),
        forall|p: PageId|
            #![trigger vowns(m3, children, (h - 1) as nat, p)]
            vowns(m3, children, (h - 1) as nat, p) == vowns(m, children, (h - 1) as nat, p),
{
    let h1 = (h - 1) as nat;
    assert forall|i: int| 0 <= i < children.len() implies {
        &&& sub_wf(
            m3,
            #[trigger] children[i],
            h1,
            lower(keys, i, lo),
            upper(keys, i, hi),
            f,
            min_fill(f, h1),
        )
        &&& links_ok(m3, children[i], h1)
        &&& forall|p: PageId|
            #![trigger owns(m3, children[i], h1, p)]
            owns(m3, children[i], h1, p) == owns(m, children[i], h1, p)
        &&& forall|k: Key|
            #![trigger lookup(m3, children[i], h1, k)]
            lookup(m3, children[i], h1, k) == lookup(m, children[i], h1, k)
        &&& first_leaf(m3, children[i], h1) == first_leaf(m, children[i], h1)
        &&& last_leaf(m3, children[i], h1) == last_leaf(m, children[i], h1)
        &&& m3[first_leaf(m, children[i], h1)] == m[first_leaf(m, children[i], h1)]
        &&& m3[last_leaf(m, children[i], h1)] == m[last_leaf(m, children[i], h1)]
        &&& m3.dom().contains(first_leaf(m, children[i], h1))
        &&& m3.dom().contains(last_leaf(m, children[i], h1))
    } by {
        let l = lower(keys, i, lo);
        let u = upper(keys, i, hi);
        assert forall|p: PageId|
            #![trigger owns(m, children[i], h1, p)]
            owns(m, children[i], h1, p) implies m3.dom().contains(p) && m3[p] == m[p]
            && same_payload(m[p], m3[p]) by {
            assert(vowns(m, children, h1, p));
        }
        lemma_frame(m, m3, children[i], h1, l, u, f, min_fill(f, h1));
        lemma_frame_links(m, m3, children[i], h1, l, u, f, min_fill(f, h1));
        lemma_leaf_ends(m, children[i], h1, l, u, f, min_fill(f, h1));
        assert(vowns(m, children, h1, first_leaf(m, children[i], h1)));
        assert(vowns(m, children, h1, last_leaf(m, children[i], h1)));
    }
    assert forall|i: int, j: int| 0 <= i && j == i + 1 && j < children.len() implies linked(
        m3,
        last_leaf(m3, #[trigger] children[i], h1),
        first_leaf(m3, #[trigger] children[j], h1),
    ) by {
        assert(linked(m, last_leaf(m, children[i], h1), first_leaf(m, children[j], h1)));
        assert(links_ok(m3, children[j], h1));
    }
    assert forall|k: Key|
        #![trigger lookup(m3, id, h, k)]
        lookup(m3, id, h, k) == lookup(m, children[route(keys, k)], h1, k) by {
        lemma_route(keys, k);
        let i = route(keys, k);
        assert(lookup(m3, children[i], h1, k) == lookup(m, children[i], h1, k));
    }
    assert forall|p: PageId|
        #![trigger owns(m3, id, h, p)]
        owns(m3, id, h, p) == (p == id || vowns(m, children, h1, p)) by {
        if owns(m3, id, h, p) && p != id {
            let i = choose|i: int| 0 <= i < children.len() && owns(m3, #[trigger] children[i], h1, p);
            assert(owns(m, children[i], h1, p));
        }
        if vowns(m, children, h1, p) {
            let i = choose|i: int| 0 <= i < children.len() && owns(m, #[trigger] children[i], h1, p);
            assert(owns(m3, children[i], h1, p));
        }
    }
    assert(links_ok(m3, children[0], h1));
    let z = children.len() - 1;
    assert(links_ok(m3, children[z], h1));
    assert forall|p: PageId|
        #![trigger vowns(m3, children, h1, p)]
        vowns(m3, children, h1, p) == vowns(m, children, h1, p) by {
        if vowns(m3, children, h1, p) {
            let i = choose|i: int| 0 <= i < children.len() && owns(m3, #[trigger] children[i], h1, p);
            assert(owns(m, children[i], h1, p));
        }
        if vowns(m, children, h1, p) {
            let i = choose|i: int| 0 <= i < children.len() && owns(m, #[trigger] children[i], h1, p);
            assert(owns(m3, children[i], h1, p));
        }
    }
}

/// The part to the left of key `c - 1` of keys and children that would
/// make a well-formed node would make one too, over the keys below that
/// key, and routes every such key as the whole does.
pub(crate) proof fn lemma_vnode_left(
    m: Nodes,
    keys: Seq<Key>,
    children: Seq<PageId>,
    h1: nat,
    lo: int,
    hi: int,
    f: int,
    c: int,
)
    requires
        vnode_ok(m, keys, children, h1, lo, hi, f, -1),
        1 <= c <= keys.len(),
    ensures
        vnode_ok(m, keys.subrange(0, c - 1), children.subrange(0, c), h1, lo, keys[c - 1] as int, f, -1),
        linked(m, last_leaf(m, children[c - 1], h1), first_leaf(m, children[c], h1)),
        forall|k: Key|
            #![trigger route(keys.subrange(0, c - 1), k)]
            k < keys[c - 1] ==> children.subrange(0, c)[route(keys.subrange(0, c - 1), k)]
                == children[route(keys, k)],
        forall|p: PageId|
            #![trigger vowns(m, children.subrange(0, c), h1, p)]
            vowns(m, children.subrange(0, c), h1, p) ==> vowns(m, children, h1, p),
{
    let lk = keys.subrange(0, c - 1);
    let lc = children.subrange(0, c);
    let sep = keys[c - 1] as int;
    assert forall|i: int| 0 <= i < lk.len() implies lo < #[trigger] lk[i] < sep by {
        assert(keys[i] < keys[c - 1]);
    }
    assert(sorted_keys(lk));
    assert forall|i: int| 0 <= i < lc.len() implies sub_wf(
        m,
        #[trigger] lc[i],
        h1,
        lower(lk, i, lo),
        upper(lk, i, sep),
        f,
        child_min(f, h1, i, -1),
    ) by {
        assert(lc[i] == children[i]);
        assert(lower(lk, i, lo) == lower(keys, i, lo));
        assert(upper(lk, i, sep) == upper(keys, i, hi));
    }
    assert forall|i: int| 0 <= i < lc.len() implies links_ok(m, #[trigger] lc[i], h1) by {
        assert(links_ok(m, children[i], h1));
    }
    assert forall|i: int, j: int| 0 <= i && j == i + 1 && j < lc.len() implies linked(
        m,
        last_leaf(m, #[trigger] lc[i], h1),
        first_leaf(m, #[trigger] lc[j], h1),
    ) by {
        assert(linked(m, last_leaf(m, children[i], h1), first_leaf(m, children[j], h1)));
    }
    assert(linked(m, last_leaf(m, children[c - 1], h1), first_leaf(m, children[c], h1)));
    assert forall|k: Key|
        #![trigger route(lk, k)]
        k < keys[c - 1] implies lc[route(lk, k)] == children[route(keys, k)] by {
        lemma_route(keys, k);
        let i = route(keys, k);
        if i > c - 1 {
            assert(keys[c - 1] <= keys[i - 1]);
        }
        lemma_route_is(lk, k, i);
    }
    assert forall|p: PageId|
        #![trigger vowns(m, lc, h1, p)]
        vowns(m, lc, h1, p) implies vowns(m, children, h1, p) by {
        let i = choose|i: int| 0 <= i < lc.len() && owns(m, #[trigger] lc[i], h1, p);
        assert(owns(m, children[i], h1, p));
    }
}

/// The part to the right of key `c - 1` of keys and children that would
/// make a well-formed node would make one too, over the keys from that
/// key on, and routes every such key as the whole does.
pub(crate) proof fn lemma_vnode_right(
    m: Nodes,
    keys: Seq<Key>,
    children: Seq<PageId>,
    h1: nat,
    lo: int,
    hi: int,
    f: int,
    c: int,
)
    requires
        vnode_ok(m, keys, children, h1, lo, hi, f, -1),
        1 <= c <= keys.len(),
    ensures
        vnode_ok(
            m,
            keys.subrange(c, keys.len() as int),
            children.subrange(c, children.len() as int),
            h1,
            keys[c - 1] as int,
            hi,
            f,
            -1,
        ),
        forall|k: Key|
            #![trigger route(keys.subrange(c, keys.len() as int), k)]
            k >= keys[c - 1] ==> children.subrange(c, children.len() as int)[route(
                keys.subrange(c, keys.len() as int),
                k,
            )] == children[route(keys, k)],
        forall|p: PageId|
            #![trigger vowns(m, children.subrange(c, children.len() as int), h1, p)]
            vowns(m, children.subrange(c, children.len() as int), h1, p) ==> vowns(
                m,
                children,
                h1,
                p,
            ),
{
    let rk = keys.subrange(c, keys.len() as int);
    let rc = children.subrange(c, children.len() as int);
    let sep = keys[c - 1] as int;
    assert forall|i: int| 0 <= i < rk.len() implies sep < #[trigger] rk[i] < hi by {
        assert(keys[c - 1] < keys[c + i]);
    }
    assert(sorted_keys(rk));
    assert forall|i: int| 0 <= i < rc.len() implies sub_wf(
        m,
        #[trigger] rc[i],
        h1,
        lower(rk, i, sep),
        upper(rk, i, hi),
        f,
        child_min(f, h1, i, -1),
    ) by {
        assert(rc[i] == children[c + i]);
        assert(lower(rk, i, sep) == lower(keys, c + i, lo));
        assert(upper(rk, i, hi) == upper(keys, c + i, hi));
    }
    assert forall|i: int| 0 <= i < rc.len() implies links_ok(m, #[trigger] rc[i], h1) by {
        assert(links_ok(m, children[c + i], h1));
    }
    assert forall|i: int, j: int| 0 <= i && j == i + 1 && j < rc.len() implies linked(
        m,
        last_leaf(m, #[trigger] rc[i], h1),
        first_leaf(m, #[trigger] rc[j], h1),
    ) by {
        assert(linked(m, last_leaf(m, children[c + i], h1), first_leaf(m, children[c + j], h1)));
    }
    assert forall|k: Key|
        #![trigger route(rk, k)]
        k >= keys[c - 1] implies rc[route(rk, k)] == children[route(keys, k)] by {
        lemma_route(keys, k);
        let i = route(keys, k);
        if i < c {
            assert(keys[i] <= keys[c - 1]);
        }
        lemma_route_is(rk, k, i - c);
    }
    assert forall|p: PageId|
        #![trigger vowns(m, rc, h1, p)]
        vowns(m, rc, h1, p) implies vowns(m, children, h1, p) by {
        let i = choose|i: int| 0 <= i < rc.len() && owns(m, #[trigger] rc[i], h1, p);
        assert(owns(m, children[c + i], h1, p));
    }
}

/// The leaf with another left sibling.
pub open spec fn relink_left(n: NodeView, l: Option<PageId>) -> NodeView {
    NodeView::Leaf { entries: n->entries, left: l, right: n->right }
}

/// The right neighbour of the subtree's last leaf, if there is one, is a
/// leaf outside the subtree that points back at that leaf.
pub open spec fn right_ok(m: Nodes, id: PageId, h: nat) -> bool {
    let l = last_leaf(m, id, h);
    m[l]->right matches Some(rid) ==> {
        &&& rid != 0
        &&& m.dom().contains(rid)
        &&& m[rid] is Leaf
        &&& !owns(m, id, h, rid)
        &&& m[rid]->left == Some(l)
    }
}

/// An operation on the subtree at `id` left every node outside the
/// subtree as it was, but for the right neighbour of the subtree's last
/// leaf, whose left sibling is now `lt`.
pub open spec fn frame_ok(m: Nodes, m2: Nodes, id: PageId, h: nat, lt: PageId) -> bool {
    forall|p: PageId|
        #![trigger m2.dom().contains(p)]
        #![trigger m2[p]]
        m.dom().contains(p) && !owns(m, id, h, p) ==> m2.dom().contains(p) && m2[p] == if m[last_leaf(
            m,
            id,
            h,
        )]->right == Some(p) {
            relink_left(m[p], Some(lt))
        } else {
            m[p]
        }
}

/// The last leaf of child `i` has the first leaf of child `i + 1` as its
/// right neighbour, or the right neighbour of the whole subtree when `i`
/// is the last child; either way that neighbour is outside child `i`.
pub(crate) proof fn lemma_right_ok_down(m: Nodes, id: PageId, h: nat, lo: int, hi: int, f: int, min: int, i: int)
    requires
        h > 0,
        f >= 3,
        sub_wf(m, id, h, lo, hi, f, min),
        links_ok(m, id, h),
        right_ok(m, id, h),
        0 <= i < m[id]->children.len(),
    ensures
        right_ok(m, m[id]->children[i], (h - 1) as nat),
        i + 1 < m[id]->children.len() ==> m[last_leaf(m, m[id]->children[i], (h - 1) as nat)]->right
            == Some(first_leaf(m, m[id]->children[i + 1], (h - 1) as nat)),
        i + 1 == m[id]->children.len() ==> last_leaf(m, m[id]->children[i], (h - 1) as nat)
            == last_leaf(m, id, h),
{
    let keys = m[id]->keys;
    let children = m[id]->children;
    let h1 = (h - 1) as nat;
    let l = last_leaf(m, children[i], h1);
    if i + 1 < children.len() {
        let j = i + 1;
        assert(linked(m, last_leaf(m, children[i], h1), first_leaf(m, children[j], h1)));
        let fl = first_leaf(m, children[j], h1);
        lemma_leaf_ends(m, children[j], h1, lower(keys, j, lo), upper(keys, j, hi), f, min_fill(f, h1));
        lemma_children_disjoint(m, id, h, lo, hi, f, min, j, i, fl);
    } else {
        if m[l]->right is Some {
            let rid = m[l]->right->Some_0;
            if owns(m, children[i], h1, rid) {
                assert(owns(m, id, h, rid));
            }
        }
    }
}

/// What holds of a child that an operation on child `i` did not enter:
/// its subtree is as it was, but for the left sibling of its first leaf
/// when it is child `i + 1`.
pub(crate) proof fn lemma_sibling_kept(
    m: Nodes,
    m2: Nodes,
    id: PageId,
    h: nat,
    lo: int,
    hi: int,
    f: int,
    min: int,
    i: int,
    j: int,
    lt: PageId,
)
    requires
        h > 0,
        f >= 3,
        sub_wf(m, id, h, lo, hi, f, min),
        links_ok(m, id, h),
        right_ok(m, id, h),
        0 <= i < m[id]->children.len(),
        0 <= j < m[id]->children.len(),
        i != j,
        frame_ok(m, m2, m[id]->children[i], (h - 1) as nat, lt),
    ensures
        ({
            let keys = m[id]->keys;
            let c = m[id]->children[j];
            let h1 = (h - 1) as nat;
            let ff = first_leaf(m, c, h1);
            let ll = last_leaf(m, c, h1);
            &&& sub_wf(m2, c, h1, lower(keys, j, lo), upper(keys, j, hi), f, min_fill(f, h1))
            &&& links_ok(m2, c, h1)
            &&& forall|p: PageId| #![trigger owns(m2, c, h1, p)] owns(m2, c, h1, p) == owns(m, c, h1, p)
            &&& forall|k: Key|
                #![trigger lookup(m2, c, h1, k)]
                lookup(m2, c, h1, k) == lookup(m, c, h1, k)
            &&& first_leaf(m2, c, h1) == ff
            &&& last_leaf(m2, c, h1) == ll
            &&& m2.dom().contains(ff)
            &&& m2.dom().contains(ll)
            &&& m2[ff] is Leaf
            &&& m2[ll] is Leaf
            &&& m[ff] is Leaf
            &&& m[ll] is Leaf
            &&& m2[ff]->right == m[ff]->right
            &&& m2[ll]->right == m[ll]->right
            &&& m2[ff]->left == if j == i + 1 {
                Some(lt)
            } else {
                m[ff]->left
            }
        }),
{
    let keys = m[id]->keys;
    let children = m[id]->children;
    let h1 = (h - 1) as nat;
    let ci = children[i];
    let c = children[j];
    let l = lower(keys, j, lo);
    let u = upper(keys, j, hi);
    let ff = first_leaf(m, c, h1);
    let ll = last_leaf(m, c, h1);
    let rc = m[last_leaf(m, ci, h1)]->right;
    lemma_right_ok_down(m, id, h, lo, hi, f, min, i);
    lemma_leaf_ends(m, c, h1, l, u, f, min_fill(f, h1));
    assert(sub_wf(m, c, h1, l, u, f, min_fill(f, h1)));
    assert forall|p: PageId| #![trigger owns(m, c, h1, p)] owns(m, c, h1, p) implies {
        &&& m.dom().contains(p)
        &&& !owns(m, ci, h1, p)
        &&& m2.dom().contains(p)
        &&& same_payload(m[p], m2[p])
        &&& (rc != Some(p) ==> m2[p] == m[p])
        &&& (rc == Some(p) ==> j == i + 1 && p == ff && m2[p] == relink_left(m[p], Some(lt)))
    } by {
        lemma_owned_in_dom(m, c, h1, l, u, f, min_fill(f, h1), p);
        lemma_children_disjoint(m, id, h, lo, hi, f, min, j, i, p);
        assert(m2.dom().contains(p));
        if rc == Some(p) {
            if i + 1 < children.len() {
                let n = i + 1;
                lemma_leaf_ends(
                    m,
                    children[n],
                    h1,
                    lower(keys, n, lo),
                    upper(keys, n, hi),
                    f,
                    min_fill(f, h1),
                );
                if j != n {
                    lemma_children_disjoint(m, id, h, lo, hi, f, min, j, n, p);
                }
            } else {
                assert(owns(m, id, h, p));
            }
        }
    }
    lemma_frame(m, m2, c, h1, l, u, f, min_fill(f, h1));
    if rc == Some(ff) {
        assert(owns(m, c, h1, ff));
        lemma_relink(m, m2, c, h1, l, u, f, min_fill(f, h1));
    } else {
        lemma_frame_links(m, m2, c, h1, l, u, f, min_fill(f, h1));
    }
    assert(owns(m, c, h1, ff));
    assert(owns(m, c, h1, ll));
    if j == i + 1 {
        assert(rc == Some(ff));
    }
}

/// Where an operation on the subtree at `id` stands once its children are
/// done and before the node itself is written: `keys` and `children` are
/// what the node is to hold. `a` holds the pages that were allocated when
/// the operation began.
pub open spec fn vstate(
    m: Nodes,
    m2: Nodes,
    a: Set<PageId>,
    id: PageId,
    h: nat,
    keys: Seq<Key>,
    children: Seq<PageId>,
    lo: int,
    hi: int,
    f: int,
    weak: int,
) -> bool {
    let h1 = (h - 1) as nat;
    &&& h > 0
    &&& vnode_ok(m2, keys, children, h1, lo, hi, f, weak)
    &&& forall|p: PageId|
        #![trigger vowns(m2, children, h1, p)]
        vowns(m2, children, h1, p) ==> (owns(m, id, h, p) && p != id) || !a.contains(p)
    &&& m2.dom().contains(id)
    &&& m2[id] is Inner
    &&& frame_ok(m, m2, id, h, last_leaf(m2, children.last(), h1))
    &&& forall|p: PageId|
        #![trigger m2.dom().contains(p)]
        m2.dom().contains(p) ==> m.dom().contains(p) || !a.contains(p)
    &&& first_leaf(m2, children[0], h1) == first_leaf(m, id, h)
    &&& m2[first_leaf(m, id, h)]->left == m[first_leaf(m, id, h)]->left
    &&& m2[last_leaf(m2, children.last(), h1)]->right == m[last_leaf(m, id, h)]->right
}

/// What an operation on the subtree at `id` leaves behind, apart from
/// what the subtree then holds: the nodes outside are as they were, new
/// nodes are in new pages, and the ends of the leaf chain still fit.
/// `top` is the rightmost node that now stands for the subtree.
pub open spec fn node_post(
    m: Nodes,
    m2: Nodes,
    a: Set<PageId>,
    id: PageId,
    top: PageId,
    h: nat,
) -> bool {
    &&& frame_ok(m, m2, id, h, last_leaf(m2, top, h))
    &&& forall|p: PageId|
        #![trigger m2.dom().contains(p)]
        m2.dom().contains(p) ==> m.dom().contains(p) || !a.contains(p)
    &&& forall|p: PageId|
        #![trigger owns(m2, id, h, p)]
        owns(m2, id, h, p) ==> owns(m, id, h, p) || !a.contains(p)
    &&& first_leaf(m2, id, h) == first_leaf(m, id, h)
    &&& m2[first_leaf(m2, id, h)]->left == m[first_leaf(m, id, h)]->left
    &&& m2[last_leaf(m2, top, h)]->right == m[last_leaf(m, id, h)]->right
}

/// Writing what the node is to hold into its page completes the
/// operation on the subtree.
pub(crate) proof fn lemma_install_whole(
    m: Nodes,
    m2: Nodes,
    m3: Nodes,
    a: Set<PageId>,
    id: PageId,
    h: nat,
    keys: Seq<Key>,
    children: Seq<PageId>,
    lo: int,
    hi: int,
    f: int,
    min: int,
)
    requires
        vstate(m, m2, a, id, h, keys, children, lo, hi, f, -1),
        id != 0,
        m.dom().contains(id),
        a.contains(id),
        min <= children.len() <= f,
        m3 == m2.insert(id, NodeView::Inner { keys, children }),
    ensures
        sub_wf(m3, id, h, lo, hi, f, min),
        links_ok(m3, id, h),
        forall|k: Key|
            #![trigger lookup(m3, id, h, k)]
            lookup(m3, id, h, k) == lookup(m2, children[route(keys, k)], (h - 1) as nat, k),
        node_post(m, m3, a, id, id, h),
        forall|p: PageId|
            #![trigger vowns(m3, children, (h - 1) as nat, p)]
            vowns(m3, children, (h - 1) as nat, p) ==> p != id,
        forall|p: PageId| #![trigger m3.dom().contains(p)] m3.dom().contains(p) ==> m2.dom().contains(p),
{
    let h1 = (h - 1) as nat;
    assert forall|p: PageId|
        #![trigger vowns(m2, children, h1, p)]
        vowns(m2, children, h1, p) implies p != id && m3.dom().contains(p) && m3[p] == m2[p] by {
        let i = choose|i: int| 0 <= i < children.len() && owns(m2, #[trigger] children[i], h1, p);
        lemma_owned_in_dom(
            m2,
            children[i],
            h1,
            lower(keys, i, lo),
            upper(keys, i, hi),
            f,
            child_min(f, h1, i, -1),
            p,
        );
    }
    lemma_vnode_install(m2, m3, id, keys, children, h, lo, hi, f, min);
    assert(owns(m, id, h, id));
    let ff = first_leaf(m2, children[0], h1);
    let z = children.len() - 1;
    let ll = last_leaf(m2, children[z], h1);
    lemma_leaf_ends(m2, children[0], h1, lower(keys, 0, lo), upper(keys, 0, hi), f, min_fill(f, h1));
    lemma_leaf_ends(m2, children[z], h1, lower(keys, z, lo), upper(keys, z, hi), f, min_fill(f, h1));
    assert(vowns(m2, children, h1, ff));
    assert(vowns(m2, children, h1, ll));
}

/// Writing the two halves of what the node is to hold, the left half
/// into the node's page and the right half into a new page, completes the
/// operation on the subtree; the key between the halves goes to the
/// parent.
pub(crate) proof fn lemma_install_split(
    m: Nodes,
    m2: Nodes,
    m4: Nodes,
    a: Set<PageId>,
    id: PageId,
    np: PageId,
    h: nat,
    keys: Seq<Key>,
    children: Seq<PageId>,
    lo: int,
    hi: int,
    f: int,
    c: int,
)
    requires
        vstate(m, m2, a, id, h, keys, children, lo, hi, f, -1),
        f >= 3,
        id != 0,
        m.dom().contains(id),
        a.contains(id),
        forall|p: PageId| #![trigger m.dom().contains(p)] m.dom().contains(p) ==> a.contains(p),
        np != 0,
        np != id,
        !a.contains(np),
        !m2.dom().contains(np),
        children.len() == f + 1,
        c == (children.len() as int + 1) / 2,
        m4 == m2.insert(
            id,
            NodeView::Inner { keys: keys.subrange(0, c - 1), children: children.subrange(0, c) },
        ).insert(
            np,
            NodeView::Inner {
                keys: keys.subrange(c, keys.len() as int),
                children: children.subrange(c, children.len() as int),
            },
        ),
    ensures
        lo < keys[c - 1] < hi,
        sub_wf(m4, id, h, lo, keys[c - 1] as int, f, min_fill(f, h)),
        sub_wf(m4, np, h, keys[c - 1] as int, hi, f, min_fill(f, h)),
        links_ok(m4, id, h),
        links_ok(m4, np, h),
        linked(m4, last_leaf(m4, id, h), first_leaf(m4, np, h)),
        forall|p: PageId|
            #![trigger owns(m4, np, h, p)]
            owns(m4, np, h, p) ==> owns(m, id, h, p) || !a.contains(p),
        forall|k: Key|
            #![trigger lookup(m4, id, h, k)]
            k < keys[c - 1] ==> lookup(m4, id, h, k) == lookup(
                m2,
                children[route(keys, k)],
                (h - 1) as nat,
                k,
            ),
        forall|k: Key|
            #![trigger lookup(m4, np, h, k)]
            k >= keys[c - 1] ==> lookup(m4, np, h, k) == lookup(
                m2,
                children[route(keys, k)],
                (h - 1) as nat,
                k,
            ),
        node_post(m, m4, a, id, np, h),
{
    let h1 = (h - 1) as nat;
    let lk = keys.subrange(0, c - 1);
    let lc = children.subrange(0, c);
    let rk = keys.subrange(c, keys.len() as int);
    let rc = children.subrange(c, children.len() as int);
    let sep = keys[c - 1] as int;
    lemma_vnode_left(m2, keys, children, h1, lo, hi, f, c);
    lemma_vnode_right(m2, keys, children, h1, lo, hi, f, c);
    assert forall|p: PageId|
        #![trigger vowns(m2, children, h1, p)]
        vowns(m2, children, h1, p) implies p != id && p != np && m4.dom().contains(p) && m4[p]
        == m2[p] by {
        let i = choose|i: int| 0 <= i < children.len() && owns(m2, #[trigger] children[i], h1, p);
        lemma_owned_in_dom(
            m2,
            children[i],
            h1,
            lower(keys, i, lo),
            upper(keys, i, hi),
            f,
            child_min(f, h1, i, -1),
            p,
        );
    }
    assert forall|p: PageId|
        #![trigger vowns(m2, lc, h1, p)]
        vowns(m2, lc, h1, p) implies p != id && m4.dom().contains(p) && m4[p] == m2[p] by {
        assert(vowns(m2, children, h1, p));
    }
    assert forall|p: PageId|
        #![trigger vowns(m2, rc, h1, p)]
        vowns(m2, rc, h1, p) implies p != np && m4.dom().contains(p) && m4[p] == m2[p] by {
        assert(vowns(m2, children, h1, p));
    }
    lemma_vnode_install(m2, m4, id, lk, lc, h, lo, sep, f, min_fill(f, h));
    lemma_vnode_install(m2, m4, np, rk, rc, h, sep, hi, f, min_fill(f, h));
    let z = children.len() - 1;
    assert(lc[0] == children[0]);
    assert(lc.last() == children[c - 1]);
    assert(rc[0] == children[c]);
    assert(rc.last() == children[z]);
    lemma_leaf_ends(m2, children[0], h1, lower(keys, 0, lo), upper(keys, 0, hi), f, min_fill(f, h1));
    lemma_leaf_ends(m2, children[z], h1, lower(keys, z, lo), upper(keys, z, hi), f, min_fill(f, h1));
    lemma_leaf_ends(
        m2,
        children[c - 1],
        h1,
        lower(keys, c - 1, lo),
        upper(keys, c - 1, hi),
        f,
        min_fill(f, h1),
    );
    lemma_leaf_ends(m2, children[c], h1, lower(keys, c, lo), upper(keys, c, hi), f, min_fill(f, h1));
    assert(vowns(m2, children, h1, first_leaf(m2, children[0], h1)));
    assert(vowns(m2, children, h1, last_leaf(m2, children[z], h1)));
    assert(vowns(m2, children, h1, last_leaf(m2, children[c - 1], h1)));
    assert(vowns(m2, children, h1, first_leaf(m2, children[c], h1)));
    assert(owns(m, id, h, id));
    assert forall|k: Key| #![trigger lookup(m4, id, h, k)] k < keys[c - 1] implies lookup(
        m4,
        id,
        h,
        k,
    ) == lookup(m2, children[route(keys, k)], h1, k) by {
        assert(lc[route(lk, k)] == children[route(keys, k)]);
    }
    assert forall|k: Key| #![trigger lookup(m4, np, h, k)] k >= keys[c - 1] implies lookup(
        m4,
        np,
        h,
        k,
    ) == lookup(m2, children[route(keys, k)], h1, k) by {
        assert(rc[route(rk, k)] == children[route(keys, k)]);
    }
}

/// Every node of a well-formed subtree has its keys within the subtree's
/// range.
pub(crate) proof fn lemma_owned_within(
    m: Nodes,
    id: PageId,
    h: nat,
    lo: int,
    hi: int,
    f: int,
    min: int,
    p: PageId,
)
    requires
        sub_wf(m, id, h, lo, hi, f, min),
        owns(m, id, h, p),
    ensures
        node_keys_within(m[p], lo, hi),
    decreases h,
{
    if p != id {
        let keys = m[id]->keys;
        let children = m[id]->children;
        let h1 = (h - 1) as nat;
        let i = choose|i: int| 0 <= i < children.len() && owns(m, #[trigger] children[i], h1, p);
        assert(sub_wf(m, children[i], h1, lower(keys, i, lo), upper(keys, i, hi), f, min_fill(f, h1)));
        lemma_owned_within(m, children[i], h1, lower(keys, i, lo), upper(keys, i, hi), f, min_fill(f, h1), p);
        if i > 0 {
            assert(lo < keys[i - 1]);
        }
        if i < keys.len() {
            assert(keys[i] < hi);
        }
    }
}

/// Two well-formed subtrees over ranges that do not overlap share no
/// page, if the top node of one of them holds a key.
pub(crate) proof fn lemma_disjoint_one(
    m: Nodes,
    a: PageId,
    ha: nat,
    la: int,
    ua: int,
    mina: int,
    b: PageId,
    hb: nat,
    lb: int,
    ub: int,
    minb: int,
    f: int,
    p: PageId,
)
    requires
        sub_wf(m, a, ha, la, ua, f, mina),
        sub_wf(m, b, hb, lb, ub, f, minb),
        f >= 3,
        node_nonempty(m[a]),
        ua <= lb || ub <= la,
        owns(m, a, ha, p),
    ensures
        !owns(m, b, hb, p),
{
    if owns(m, b, hb, p) {
        lemma_owned_keys(m, a, ha, la, ua, f, mina, p);
        lemma_owned_within(m, b, hb, lb, ub, f, minb, p);
        match m[p] {
            NodeView::Leaf { entries, left, right } => {
                assert(la <= entries[0].key < ua);
                assert(lb <= entries[0].key < ub);
            },
            NodeView::Inner { keys, children } => {
                assert(la < keys[0] < ua);
                assert(lb < keys[0] < ub);
            },
        }
    }
}

/// A subtree whose pages are as they were, but for the left sibling of
/// its first leaf when that leaf is `rc`, is as it was.
pub(crate) proof fn lemma_subtree_kept(
    m: Nodes,
    m2: Nodes,
    c: PageId,
    h1: nat,
    l: int,
    u: int,
    f: int,
    min: int,
    rc: Option<PageId>,
    lt: PageId,
)
    requires
        sub_wf(m, c, h1, l, u, f, min),
        f >= 3,
        links_ok(m, c, h1),
        forall|p: PageId|
            #![trigger owns(m, c, h1, p)]
            owns(m, c, h1, p) ==> m2.dom().contains(p) && m2[p] == if rc == Some(p) {
                relink_left(m[p], Some(lt))
            } else {
                m[p]
            },
        rc is Some && owns(m, c, h1, rc->Some_0) ==> rc->Some_0 == first_leaf(m, c, h1),
    ensures
        ({
            let ff = first_leaf(m, c, h1);
            let ll = last_leaf(m, c, h1);
            &&& sub_wf(m2, c, h1, l, u, f, min)
            &&& links_ok(m2, c, h1)
            &&& forall|p: PageId| #![trigger owns(m2, c, h1, p)] owns(m2, c, h1, p) == owns(m, c, h1, p)
            &&& forall|k: Key|
                #![trigger lookup(m2, c, h1, k)]
                lookup(m2, c, h1, k) == lookup(m, c, h1, k)
            &&& first_leaf(m2, c, h1) == ff
            &&& last_leaf(m2, c, h1) == ll
            &&& m2.dom().contains(ff)
            &&& m2.dom().contains(ll)
            &&& m2[ff] is Leaf
            &&& m2[ll] is Leaf
            &&& m[ff] is Leaf
            &&& m[ll] is Leaf
            &&& m2[ff]->right == m[ff]->right
            &&& m2[ll]->right == m[ll]->right
            &&& m2[ff]->left == if rc == Some(ff) {
                Some(lt)
            } else {
                m[ff]->left
            }
        }),
{
    let ff = first_leaf(m, c, h1);
    let ll = last_leaf(m, c, h1);
    lemma_leaf_ends(m, c, h1, l, u, f, min);
    assert forall|p: PageId| #![trigger owns(m, c, h1, p)] owns(m, c, h1, p) implies {
        &&& m2.dom().contains(p)
        &&& same_payload(m[p], m2[p])
        &&& (p != ff ==> m2[p] == m[p])
    } by {
        if rc == Some(p) {
            assert(p == ff);
        }
    }
    lemma_frame(m, m2, c, h1, l, u, f, min);
    assert(owns(m, c, h1, ff));
    assert(owns(m, c, h1, ll));
    if rc == Some(ff) {
        lemma_relink(m, m2, c, h1, l, u, f, min);
    } else {
        lemma_frame_links(m, m2, c, h1, l, u, f, min);
    }
}

/// A well-formed subtree is well formed for every smaller minimum of its
/// top node, and for every minimum that the top node meets.
pub(crate) proof fn lemma_min_change(m: Nodes, id: PageId, h: nat, lo: int, hi: int, f: int, min: int, min2: int)
    requires
        sub_wf(m, id, h, lo, hi, f, min),
        min2 <= min || (m[id] is Leaf && min2 <= m[id]->entries.len()) || (m[id] is Inner && min2
            <= m[id]->children.len()),
    ensures
        sub_wf(m, id, h, lo, hi, f, min2),
{
}

} // verus!
