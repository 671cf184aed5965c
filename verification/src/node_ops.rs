//! Operations on single nodes: searching a node, and the split and merge
//! by which the tree keeps its nodes within their bounds.

use vstd::prelude::*;
use crate::error::StorageError;
use crate::node::{InnerNode, InnerNodeInterior, Key, LeafNode, LeafNodeInterior, Node, NodeView};
use crate::os_interface::PageId;
use crate::tree_spec::{lemma_rank_is, lemma_route_is, rank, route, sorted_entries, sorted_keys};

verus! {

/// Binary search among the separator keys for the child that covers `k`.
pub fn child_index(keys: &Vec<Key>, k: Key) -> (r: usize)
    requires
        sorted_keys(keys@),
    ensures
        r == route(keys@, k),
        r <= keys@.len(),
{
    let mut lo: usize = 0;
    let mut hi: usize = keys.len();
    while lo < hi
        invariant
            lo <= hi <= keys@.len(),
            sorted_keys(keys@),
            forall|j: int| 0 <= j < lo ==> keys@[j] <= k,
            forall|j: int| hi <= j < keys@.len() ==> k < keys@[j],
        decreases hi - lo,
    {
        let mid = lo + (hi - lo) / 2;
        if keys[mid] <= k {
            assert forall|j: int| 0 <= j < mid + 1 implies keys@[j] <= k by {
                if j < mid {
                    assert(keys@[j] < keys@[mid as int]);
                }
            }
            lo = mid + 1;
        } else {
            assert forall|j: int| mid <= j < keys@.len() implies k < keys@[j] by {
                if j > mid {
                    assert(keys@[mid as int] < keys@[j]);
                }
            }
            hi = mid;
        }
    }
    proof {
        lemma_route_is(keys@, k, lo as int);
    }
    lo
}

/// Binary search in a leaf for the position at which `k` stands or would
/// stand.
pub fn entry_index(entries: &Vec<LeafNodeInterior>, k: Key) -> (r: usize)
    requires
        sorted_entries(entries@),
    ensures
        r == rank(entries@, k),
        r <= entries@.len(),
{
    let mut lo: usize = 0;
    let mut hi: usize = entries.len();
    while lo < hi
        invariant
            lo <= hi <= entries@.len(),
            sorted_entries(entries@),
            forall|j: int| 0 <= j < lo ==> entries@[j].key < k,
            forall|j: int| hi <= j < entries@.len() ==> k <= entries@[j].key,
        decreases hi - lo,
    {
        let mid = lo + (hi - lo) / 2;
        if entries[mid].key < k {
            assert forall|j: int| 0 <= j < mid + 1 implies entries@[j].key < k by {
                if j < mid {
                    assert(entries@[j].key < entries@[mid as int].key);
                }
            }
            lo = mid + 1;
        } else {
            assert forall|j: int| mid <= j < entries@.len() implies k <= entries@[j].key by {
                if j > mid {
                    assert(entries@[mid as int].key < entries@[j].key);
                }
            }
            hi = mid;
        }
    }
    proof {
        lemma_rank_is(entries@, k, lo as int);
    }
    lo
}

impl InnerNode {
    /// An internal node with one separator and the two children that it
    /// parts: what a new root is when the old root splits.
    pub fn new(left: PageId, key: Key, right: PageId) -> (r: InnerNode)
        ensures
            r.keys@ == seq![key],
            r.children@ == seq![left, right],
    {
        let mut keys: Vec<Key> = Vec::new();
        keys.push(key);
        let mut children: Vec<PageId> = Vec::new();
        children.push(left);
        children.push(right);
        InnerNode { keys, children }
    }

    /// Inserts a separator and the child to its right in key order. A
    /// separator that the node already holds is rejected with
    /// `DuplicateKey`, and the node stays as it was.
    pub fn insert_interior_node(&mut self, n: InnerNodeInterior) -> (r: Result<(), StorageError>)
        requires
            sorted_keys(old(self).keys@),
            old(self).children@.len() == old(self).keys@.len() + 1,
        ensures
            r is Ok <==> !old(self).keys@.contains(n.key),
            r is Err ==> r->Err_0 == StorageError::DuplicateKey && final(self).keys@ == old(
                self,
            ).keys@ && final(self).children@ == old(self).children@,
            r is Ok ==> final(self).keys@ == old(self).keys@.insert(
                route(old(self).keys@, n.key),
                n.key,
            ) && final(self).children@ == old(self).children@.insert(
                route(old(self).keys@, n.key) + 1,
                n.child,
            ) && sorted_keys(final(self).keys@),
    {
        let i = child_index(&self.keys, n.key);
        let count = self.children.len();
        assert(i + 1 <= count);
        proof {
            crate::tree_spec::lemma_route(self.keys@, n.key);
            let keys = self.keys@;
            if keys.contains(n.key) {
                let j = choose|j: int| 0 <= j < keys.len() && keys[j] == n.key;
                if j < i - 1 {
                    assert(keys[j] < keys[i - 1]);
                }
                if j >= i {
                    if j > i {
                        assert(keys[i as int] < keys[j]);
                    }
                }
            }
        }
        if i > 0 && self.keys[i - 1] == n.key {
            return Err(StorageError::DuplicateKey);
        }
        let ghost keys = self.keys@;
        self.keys.insert(i, n.key);
        self.children.insert(i + 1, n.child);
        proof {
            let k2 = self.keys@;
            assert forall|a: int, b: int| 0 <= a < b < k2.len() implies k2[a] < k2[b] by {
                let oa = if a < i { a } else { a - 1 };
                let ob = if b < i { b } else { b - 1 };
                if a == i {
                    assert(keys[i as int] <= keys[ob]);
                } else if b == i {
                    assert(keys[oa] <= keys[i - 1]);
                } else {
                    assert(keys[oa] < keys[ob]);
                }
            }
        }
        Ok(())
    }
}

impl LeafNode {
    /// A leaf with no entries and no siblings: what the root of an empty
    /// tree is.
    pub fn new() -> (r: LeafNode)
        ensures
            r.entries@ == Seq::<LeafNodeInterior>::empty(),
            r.left_sibling is None,
            r.right_sibling is None,
    {
        LeafNode { entries: Vec::new(), left_sibling: None, right_sibling: None }
    }
}

/// What a split makes of a node with `n` entries (children, for an
/// internal node): the first `(n + 1) / 2` stay in the left node and the
/// rest go to the right node, in the page `new_id`. The separator between
/// the two is the first key of the right node for a leaf, and the key
/// displaced from the middle for an internal node. The two halves of a
/// leaf are linked to each other; the right half takes over the old right
/// sibling. A node with fewer than two entries cannot be split.
pub open spec fn spec_split(node: NodeView, id: PageId, new_id: PageId) -> Option<
    (NodeView, InnerNodeInterior, NodeView),
> {
    match node {
        NodeView::Leaf { entries, left, right } => {
            let c = (entries.len() as int + 1) / 2;
            if entries.len() >= 2 {
                Some(
                    (
                        NodeView::Leaf { entries: entries.subrange(0, c), left, right: Some(new_id) },
                        InnerNodeInterior { key: entries[c].key, child: new_id },
                        NodeView::Leaf {
                            entries: entries.subrange(c, entries.len() as int),
                            left: Some(id),
                            right,
                        },
                    ),
                )
            } else {
                None
            }
        },
        NodeView::Inner { keys, children } => {
            let c = (children.len() as int + 1) / 2;
            if children.len() == keys.len() + 1 && children.len() >= 2 {
                Some(
                    (
                        NodeView::Inner {
                            keys: keys.subrange(0, c - 1),
                            children: children.subrange(0, c),
                        },
                        InnerNodeInterior { key: keys[c - 1], child: new_id },
                        NodeView::Inner {
                            keys: keys.subrange(c, keys.len() as int),
                            children: children.subrange(c, children.len() as int),
                        },
                    ),
                )
            } else {
                None
            }
        },
    }
}

/// Splits the node of page `id` in two; the right half is meant for page
/// `new_id`. Returns the left node, the separator paired with `new_id`,
/// and the right node.
pub fn split(node: Node, id: PageId, new_id: PageId) -> (r: Option<(Node, InnerNodeInterior, Node)>)
    ensures
        match spec_split(node@, id, new_id) {
            Some(s) => r is Some && r->Some_0.0@ == s.0 && r->Some_0.1 == s.1 && r->Some_0.2@ == s.2,
            None => r is None,
        },
{
    match node {
        Node::Leaf(mut leaf) => {
            let n = leaf.entries.len();
            if n < 2 {
                return None;
            }
            let c = n / 2 + n % 2;
            let ghost all = leaf.entries@;
            let right_entries = leaf.entries.split_off(c);
            let key = right_entries[0].key;
            assert(key == all[c as int].key);
            let right = LeafNode {
                entries: right_entries,
                left_sibling: Some(id),
                right_sibling: leaf.right_sibling,
            };
            leaf.right_sibling = Some(new_id);
            Some((Node::Leaf(leaf), InnerNodeInterior { key, child: new_id }, Node::Leaf(right)))
        },
        Node::Inner(mut inner) => {
            let n = inner.children.len();
            if n < 2 || inner.keys.len() != n - 1 {
                return None;
            }
            let c = n / 2 + n % 2;
            let ghost all = inner.keys@;
            let right_keys = inner.keys.split_off(c);
            let right_children = inner.children.split_off(c);
            let key = inner.keys.pop().unwrap();
            assert(key == all[c - 1]);
            assert(inner.keys@ =~= all.subrange(0, c - 1));
            let right = InnerNode { keys: right_keys, children: right_children };
            Some((Node::Inner(inner), InnerNodeInterior { key, child: new_id }, Node::Inner(right)))
        },
    }
}

/// What a merge makes of two neighbouring nodes of one kind: a leaf with
/// the entries of both, between the left sibling of the one and the right
/// sibling of the other; or an internal node with the children of both and
/// the separator `sep` between the keys of the two. Nodes of different
/// kinds do not merge.
pub open spec fn spec_merge(left: NodeView, sep: Key, right: NodeView) -> Option<NodeView> {
    match (left, right) {
        (
            NodeView::Leaf { entries: le, left: ll, right: lr },
            NodeView::Leaf { entries: re, left: rl, right: rr },
        ) => Some(NodeView::Leaf { entries: le + re, left: ll, right: rr }),
        (
            NodeView::Inner { keys: lk, children: lc },
            NodeView::Inner { keys: rk, children: rc },
        ) => Some(NodeView::Inner { keys: lk.push(sep) + rk, children: lc + rc }),
        _ => None,
    }
}

/// Merges two neighbouring nodes into the left one.
pub fn merge(left: Node, sep: Key, right: Node) -> (r: Option<Node>)
    ensures
        match spec_merge(left@, sep, right@) {
            Some(n) => r is Some && r->Some_0@ == n,
            None => r is None,
        },
{
    match (left, right) {
        (Node::Leaf(mut l), Node::Leaf(mut r)) => {
            l.entries.append(&mut r.entries);
            l.right_sibling = r.right_sibling;
            Some(Node::Leaf(l))
        },
        (Node::Inner(mut l), Node::Inner(mut r)) => {
            l.keys.push(sep);
            l.keys.append(&mut r.keys);
            l.children.append(&mut r.children);
            Some(Node::Inner(l))
        },
        _ => None,
    }
}

/// What borrowing from the left sibling makes of the sibling, the
/// separator between the two, and the node: the sibling's last entry (or
/// child) moves to the front of the node. For leaves the new separator is
/// the moved key; for internal nodes the old separator comes down into the
/// node and the sibling's last key goes up.
pub open spec fn spec_borrow_left(left: NodeView, sep: Key, node: NodeView) -> Option<
    (NodeView, Key, NodeView),
> {
    match (left, node) {
        (
            NodeView::Leaf { entries: le, left: ll, right: lr },
            NodeView::Leaf { entries: ne, left: nl, right: nr },
        ) => if le.len() >= 1 {
            Some(
                (
                    NodeView::Leaf { entries: le.drop_last(), left: ll, right: lr },
                    le.last().key,
                    NodeView::Leaf { entries: ne.insert(0, le.last()), left: nl, right: nr },
                ),
            )
        } else {
            None
        },
        (
            NodeView::Inner { keys: lk, children: lc },
            NodeView::Inner { keys: nk, children: nc },
        ) => if lk.len() >= 1 && lc.len() >= 1 {
            Some(
                (
                    NodeView::Inner { keys: lk.drop_last(), children: lc.drop_last() },
                    lk.last(),
                    NodeView::Inner { keys: nk.insert(0, sep), children: nc.insert(0, lc.last()) },
                ),
            )
        } else {
            None
        },
        _ => None,
    }
}

/// Moves one entry from the left sibling into the node. Returns the
/// sibling, the new separator and the node.
pub fn borrow_left(left: Node, sep: Key, node: Node) -> (r: Option<(Node, Key, Node)>)
    ensures
        match spec_borrow_left(left@, sep, node@) {
            Some(s) => r is Some && r->Some_0.0@ == s.0 && r->Some_0.1 == s.1 && r->Some_0.2@ == s.2,
            None => r is None,
        },
{
    match (left, node) {
        (Node::Leaf(mut l), Node::Leaf(mut n)) => {
            match l.entries.pop() {
                Some(e) => {
                    n.entries.insert(0, e);
                    Some((Node::Leaf(l), e.key, Node::Leaf(n)))
                },
                None => None,
            }
        },
        (Node::Inner(mut l), Node::Inner(mut n)) => {
            if l.keys.len() < 1 || l.children.len() < 1 {
                return None;
            }
            let up = l.keys.pop().unwrap();
            let child = l.children.pop().unwrap();
            n.keys.insert(0, sep);
            n.children.insert(0, child);
            Some((Node::Inner(l), up, Node::Inner(n)))
        },
        _ => None,
    }
}

/// What borrowing from the right sibling makes of the node, the separator
/// between the two, and the sibling: the sibling's first entry (or child)
/// moves to the end of the node. For leaves the new separator is the key
/// that is then first in the sibling; for internal nodes the old separator
/// comes down into the node and the sibling's first key goes up.
pub open spec fn spec_borrow_right(node: NodeView, sep: Key, right: NodeView) -> Option<
    (NodeView, Key, NodeView),
> {
    match (node, right) {
        (
            NodeView::Leaf { entries: ne, left: nl, right: nr },
            NodeView::Leaf { entries: re, left: rl, right: rr },
        ) => if re.len() >= 2 {
            Some(
                (
                    NodeView::Leaf { entries: ne.push(re[0]), left: nl, right: nr },
                    re[1].key,
                    NodeView::Leaf { entries: re.remove(0), left: rl, right: rr },
                ),
            )
        } else {
            None
        },
        (
            NodeView::Inner { keys: nk, children: nc },
            NodeView::Inner { keys: rk, children: rc },
        ) => if rk.len() >= 1 && rc.len() >= 1 {
            Some(
                (
                    NodeView::Inner { keys: nk.push(sep), children: nc.push(rc[0]) },
                    rk[0],
                    NodeView::Inner { keys: rk.remove(0), children: rc.remove(0) },
                ),
            )
        } else {
            None
        },
        _ => None,
    }
}

/// Moves one entry from the right sibling into the node. Returns the
/// node, the new separator and the sibling.
pub fn borrow_right(node: Node, sep: Key, right: Node) -> (r: Option<(Node, Key, Node)>)
    ensures
        match spec_borrow_right(node@, sep, right@) {
            Some(s) => r is Some && r->Some_0.0@ == s.0 && r->Some_0.1 == s.1 && r->Some_0.2@ == s.2,
            None => r is None,
        },
{
    match (node, right) {
        (Node::Leaf(mut n), Node::Leaf(mut r)) => {
            if r.entries.len() < 2 {
                return None;
            }
            let e = r.entries.remove(0);
            n.entries.push(e);
            let up = r.entries[0].key;
            Some((Node::Leaf(n), up, Node::Leaf(r)))
        },
        (Node::Inner(mut n), Node::Inner(mut r)) => {
            if r.keys.len() < 1 || r.children.len() < 1 {
                return None;
            }
            let up = r.keys.remove(0);
            let child = r.children.remove(0);
            n.keys.push(sep);
            n.children.push(child);
            Some((Node::Inner(n), up, Node::Inner(r)))
        },
        _ => None,
    }
}

} // verus!
