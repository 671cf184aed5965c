//! The nodes of the tree and their layout in a page.
//!
//! A page is read as little-endian 64-bit words. Word 0 holds the node
//! kind, word 1 the number of keys, words 2 and 3 the left and right
//! sibling (0 for none). A leaf then holds its entries as key and value
//! pairs; an internal node holds its separator keys followed by its
//! children.

use vstd::prelude::*;
use vstd::bytes::{
    lemma_auto_spec_u64_to_from_le_bytes, spec_u64_from_le_bytes, spec_u64_to_le_bytes,
    u64_from_le_bytes, u64_to_le_bytes,
};
use vstd::slice::slice_subrange;
use crate::os_interface::{new_page, PageId};

verus! {

/// The keys by which the tree is ordered.
pub type Key = u64;

/// What the tree stores under a key: a reference to a row.
pub type Value = u64;

/// The kind word of an internal node.
pub const KIND_INNER: u64 = 1;

/// The kind word of a leaf.
pub const KIND_LEAF: u64 = 2;

/// One entry of a leaf: a key and its value.
#[derive(Debug, Clone, Copy, PartialEq, Eq, Structural)]
pub struct LeafNodeInterior {
    pub key: Key,
    pub value: Value,
}

/// One entry of an internal node: a separator key and the child that
/// holds the keys from the separator on.
#[derive(Debug, Clone, Copy, PartialEq, Eq, Structural)]
pub struct InnerNodeInterior {
    pub key: Key,
    pub child: PageId,
}

/// A leaf: entries in key order, and its neighbours in the leaf chain.
#[derive(Debug, Clone, PartialEq, Eq)]
pub struct LeafNode {
    pub entries: Vec<LeafNodeInterior>,
    pub left_sibling: Option<PageId>,
    pub right_sibling: Option<PageId>,
}

/// An internal node: `k` children and the `k - 1` separator keys between
/// them. It has no parent pointer.
#[derive(Debug, Clone, PartialEq, Eq)]
pub struct InnerNode {
    pub keys: Vec<Key>,
    pub children: Vec<PageId>,
}

/// A node of either kind. Which node is the root is not part of the node.
#[derive(Debug, Clone, PartialEq, Eq)]
pub enum Node {
    Inner(InnerNode),
    Leaf(LeafNode),
}

/// What a node holds, as mathematical sequences.
pub enum NodeView {
    Inner { keys: Seq<Key>, children: Seq<PageId> },
    Leaf { entries: Seq<LeafNodeInterior>, left: Option<PageId>, right: Option<PageId> },
}

impl View for LeafNode {
    type V = NodeView;

    open spec fn view(&self) -> NodeView {
        NodeView::Leaf {
            entries: self.entries@,
            left: self.left_sibling,
            right: self.right_sibling,
        }
    }
}

impl View for InnerNode {
    type V = NodeView;

    open spec fn view(&self) -> NodeView {
        NodeView::Inner { keys: self.keys@, children: self.children@ }
    }
}

impl View for Node {
    type V = NodeView;

    open spec fn view(&self) -> NodeView {
        match self {
            Node::Inner(n) => n@,
            Node::Leaf(n) => n@,
        }
    }
}

impl InnerNodeInterior {
    /// Pairs a separator key with the child to its right.
    pub fn new(key: Key, child: PageId) -> (r: InnerNodeInterior)
        ensures
            r == (InnerNodeInterior { key, child }),
    {
        InnerNodeInterior { key, child }
    }
}

/// The `i`-th word of a page.
pub open spec fn word(bytes: Seq<u8>, i: int) -> u64 {
    spec_u64_from_le_bytes(bytes.subrange(8 * i, 8 * i + 8))
}

/// The page that a sibling word names.
pub open spec fn opt_page(w: u64) -> Option<PageId> {
    if w == 0 {
        None
    } else {
        Some(w)
    }
}

/// The node that a page holds, if it holds one: the kind word is known and
/// the key count fits the page.
pub open spec fn spec_decode(bytes: Seq<u8>) -> Option<NodeView> {
    let words = bytes.len() as int / 8;
    let n = word(bytes, 1) as int;
    if words < 5 {
        None
    } else if word(bytes, 0) == KIND_LEAF && 4 + 2 * n <= words {
        Some(
            NodeView::Leaf {
                entries: Seq::new(
                    n as nat,
                    |i: int|
                        LeafNodeInterior {
                            key: word(bytes, 4 + 2 * i),
                            value: word(bytes, 5 + 2 * i),
                        },
                ),
                left: opt_page(word(bytes, 2)),
                right: opt_page(word(bytes, 3)),
            },
        )
    } else if word(bytes, 0) == KIND_INNER && 5 + 2 * n <= words {
        Some(
            NodeView::Inner {
                keys: Seq::new(n as nat, |i: int| word(bytes, 4 + i)),
                children: Seq::new((n + 1) as nat, |i: int| word(bytes, 4 + n + i)),
            },
        )
    } else {
        None
    }
}

/// Whether a node can be written into a page of `page_size` bytes: it
/// fits, an internal node has one child more than keys, and no sibling is
/// page 0.
pub open spec fn encodable(node: NodeView, page_size: int) -> bool {
    match node {
        NodeView::Leaf { entries, left, right } => {
            &&& 5 <= page_size / 8
            &&& 4 + 2 * entries.len() <= page_size / 8
            &&& left != Some(0u64)
            &&& right != Some(0u64)
        },
        NodeView::Inner { keys, children } => {
            &&& children.len() == keys.len() + 1
            &&& 5 + 2 * keys.len() <= page_size / 8
        },
    }
}

/// A zeroed page holds no node.
pub proof fn lemma_zero_page_decodes_to_none(n: nat)
    ensures
        spec_decode(crate::os_interface::zero_page(n)) is None,
{
    let z = crate::os_interface::zero_page(n);
    if n >= 40 {
        lemma_auto_spec_u64_to_from_le_bytes();
        assert(z.subrange(0, 8) =~= spec_u64_to_le_bytes(0)) by {
            lemma_zero_bytes();
            assert(z.subrange(0, 8) =~= seq![0u8, 0u8, 0u8, 0u8, 0u8, 0u8, 0u8, 0u8]);
        }
        assert(word(z, 0) == 0);
    }
}

proof fn lemma_zero_bytes()
    ensures
        spec_u64_to_le_bytes(0) == seq![0u8, 0u8, 0u8, 0u8, 0u8, 0u8, 0u8, 0u8],
{
    vstd::bytes::spec_u64_to_le_bytes_to_open(0);
    assert(vstd::bytes::spec_u64_to_le_bytes_open(0) =~= seq![
        0u8,
        0u8,
        0u8,
        0u8,
        0u8,
        0u8,
        0u8,
        0u8,
    ]) by {
        assert(0u64 & 0xff == 0) by (bit_vector);
        assert((0u64 >> 8) & 0xff == 0) by (bit_vector);
        assert((0u64 >> 16) & 0xff == 0) by (bit_vector);
        assert((0u64 >> 24) & 0xff == 0) by (bit_vector);
        assert((0u64 >> 32) & 0xff == 0) by (bit_vector);
        assert((0u64 >> 40) & 0xff == 0) by (bit_vector);
        assert((0u64 >> 48) & 0xff == 0) by (bit_vector);
        assert((0u64 >> 56) & 0xff == 0) by (bit_vector);
    }
}

/// Reads the `i`-th word of a page.
pub fn get_word(bytes: &Vec<u8>, i: usize) -> (r: u64)
    requires
        8 * i + 8 <= bytes@.len(),
    ensures
        r == word(bytes@, i as int),
{
    let len = bytes.len();
    assert(8 * i + 8 <= len);
    let s = slice_subrange(bytes.as_slice(), 8 * i, 8 * i + 8);
    u64_from_le_bytes(s)
}

/// Writes the `i`-th word of a page; every other word stays as it is.
pub fn put_word(buf: &mut Vec<u8>, i: usize, x: u64)
    requires
        8 * i + 8 <= old(buf)@.len(),
    ensures
        final(buf)@.len() == old(buf)@.len(),
        word(final(buf)@, i as int) == x,
        forall|j: int|
            #![trigger word(final(buf)@, j)]
            0 <= j && j != i && 8 * j + 8 <= old(buf)@.len() ==> word(final(buf)@, j) == word(
                old(buf)@,
                j,
            ),
{
    let b = u64_to_le_bytes(x);
    let len = buf.len();
    let mut k: usize = 0;
    while k < 8
        invariant
            k <= 8,
            len == buf@.len(),
            b@.len() == 8,
            8 * i + 8 <= buf@.len(),
            buf@.len() == old(buf)@.len(),
            forall|t: int| 0 <= t < k ==> buf@[8 * i + t] == b@[t],
            forall|t: int|
                0 <= t < buf@.len() && !(8 * i <= t < 8 * i + k) ==> buf@[t] == old(buf)@[t],
        decreases 8 - k,
    {
        buf.set(8 * i + k, b[k]);
        k = k + 1;
    }
    proof {
        lemma_auto_spec_u64_to_from_le_bytes();
        assert(buf@.subrange(8 * i, 8 * i + 8) =~= b@);
        assert forall|j: int|
            #![trigger word(buf@, j)]
            0 <= j && j != i && 8 * j + 8 <= old(buf)@.len() implies word(buf@, j) == word(
            old(buf)@,
            j,
        ) by {
            assert(buf@.subrange(8 * j, 8 * j + 8) =~= old(buf)@.subrange(8 * j, 8 * j + 8));
        }
    }
}

/// Reads the node that a page holds; `None` when the page holds none.
pub fn decode(bytes: &Vec<u8>) -> (r: Option<Node>)
    ensures
        r is Some <==> spec_decode(bytes@) is Some,
        r is Some ==> r->Some_0@ == spec_decode(bytes@)->Some_0,
{
    let words = bytes.len() / 8;
    if words < 5 {
        return None;
    }
    let kind = get_word(bytes, 0);
    let count = get_word(bytes, 1);
    if kind == KIND_LEAF && count <= ((words - 4) / 2) as u64 {
        let n = count as usize;
        let left = get_word(bytes, 2);
        let right = get_word(bytes, 3);
        let mut entries: Vec<LeafNodeInterior> = Vec::new();
        let mut i: usize = 0;
        while i < n
            invariant
                i <= n,
                4 + 2 * n <= words,
                words == bytes@.len() / 8,
                entries@ == Seq::new(
                    i as nat,
                    |j: int|
                        LeafNodeInterior {
                            key: word(bytes@, 4 + 2 * j),
                            value: word(bytes@, 5 + 2 * j),
                        },
                ),
            decreases n - i,
        {
            let key = get_word(bytes, 4 + 2 * i);
            let value = get_word(bytes, 5 + 2 * i);
            entries.push(LeafNodeInterior { key, value });
            i = i + 1;
            assert(entries@ =~= Seq::new(
                i as nat,
                |j: int|
                    LeafNodeInterior { key: word(bytes@, 4 + 2 * j), value: word(bytes@, 5 + 2 * j) },
            ));
        }
        let left_sibling = if left == 0 {
            None
        } else {
            Some(left)
        };
        let right_sibling = if right == 0 {
            None
        } else {
            Some(right)
        };
        Some(Node::Leaf(LeafNode { entries, left_sibling, right_sibling }))
    } else if kind == KIND_INNER && count <= ((words - 5) / 2) as u64 {
        let n = count as usize;
        let mut keys: Vec<Key> = Vec::new();
        let mut i: usize = 0;
        while i < n
            invariant
                i <= n,
                5 + 2 * n <= words,
                words == bytes@.len() / 8,
                keys@ == Seq::new(i as nat, |j: int| word(bytes@, 4 + j)),
            decreases n - i,
        {
            keys.push(get_word(bytes, 4 + i));
            i = i + 1;
            assert(keys@ =~= Seq::new(i as nat, |j: int| word(bytes@, 4 + j)));
        }
        let mut children: Vec<PageId> = Vec::new();
        let mut i: usize = 0;
        while i < n + 1
            invariant
                i <= n + 1,
                5 + 2 * n <= words,
                words == bytes@.len() / 8,
                children@ == Seq::new(i as nat, |j: int| word(bytes@, 4 + n + j)),
            decreases n + 1 - i,
        {
            children.push(get_word(bytes, 4 + n + i));
            i = i + 1;
            assert(children@ =~= Seq::new(i as nat, |j: int| word(bytes@, 4 + n + j)));
        }
        Some(Node::Inner(InnerNode { keys, children }))
    } else {
        None
    }
}

/// Writes a node into a fresh page of `page_size` bytes; `None` when the
/// node cannot be encoded in such a page. Decoding the page gives the node
/// back.
pub fn encode(node: &Node, page_size: usize) -> (r: Option<Vec<u8>>)
    ensures
        r is Some <==> encodable(node@, page_size as int),
        r is Some ==> r->Some_0@.len() == page_size && spec_decode(r->Some_0@) == Some(node@),
{
    let words = page_size / 8;
    match node {
        Node::Leaf(leaf) => {
            let n = leaf.entries.len();
            if words < 5 || n > (words - 4) / 2 {
                return None;
            }
            let left: u64 = match leaf.left_sibling {
                Some(id) => id,
                None => 0,
            };
            let right: u64 = match leaf.right_sibling {
                Some(id) => id,
                None => 0,
            };
            if leaf.left_sibling == Some(0u64) || leaf.right_sibling == Some(0u64) {
                return None;
            }
            let mut buf = new_page(page_size);
            put_word(&mut buf, 0, KIND_LEAF);
            put_word(&mut buf, 1, n as u64);
            put_word(&mut buf, 2, left);
            put_word(&mut buf, 3, right);
            let mut i: usize = 0;
            while i < n
                invariant
                    i <= n,
                    n == leaf.entries@.len(),
                    4 + 2 * n <= words,
                    words == page_size / 8,
                    buf@.len() == page_size,
                    word(buf@, 0) == KIND_LEAF,
                    word(buf@, 1) == n,
                    word(buf@, 2) == left,
                    word(buf@, 3) == right,
                    forall|j: int|
                        0 <= j < i ==> word(buf@, 4 + 2 * j) == leaf.entries@[j].key && word(
                            buf@,
                            5 + 2 * j,
                        ) == leaf.entries@[j].value,
                decreases n - i,
            {
                let e = leaf.entries[i];
                put_word(&mut buf, 4 + 2 * i, e.key);
                put_word(&mut buf, 5 + 2 * i, e.value);
                i = i + 1;
            }
            proof {
                let d = spec_decode(buf@);
                assert(d is Some);
                assert(d->Some_0->entries =~= leaf.entries@);
            }
            Some(buf)
        },
        Node::Inner(inner) => {
            let n = inner.keys.len();
            if words < 5 || n > (words - 5) / 2 || inner.children.len() != n + 1 {
                return None;
            }
            let mut buf = new_page(page_size);
            put_word(&mut buf, 0, KIND_INNER);
            put_word(&mut buf, 1, n as u64);
            let mut i: usize = 0;
            while i < n
                invariant
                    i <= n,
                    n == inner.keys@.len(),
                    5 + 2 * n <= words,
                    words == page_size / 8,
                    buf@.len() == page_size,
                    word(buf@, 0) == KIND_INNER,
                    word(buf@, 1) == n,
                    forall|j: int| 0 <= j < i ==> word(buf@, 4 + j) == inner.keys@[j],
                decreases n - i,
            {
                put_word(&mut buf, 4 + i, inner.keys[i]);
                i = i + 1;
            }
            let mut i: usize = 0;
            while i < n + 1
                invariant
                    i <= n + 1,
                    n == inner.keys@.len(),
                    inner.children@.len() == n + 1,
                    5 + 2 * n <= words,
                    words == page_size / 8,
                    buf@.len() == page_size,
                    word(buf@, 0) == KIND_INNER,
                    word(buf@, 1) == n,
                    forall|j: int| 0 <= j < n ==> word(buf@, 4 + j) == inner.keys@[j],
                    forall|j: int| 0 <= j < i ==> word(buf@, 4 + n + j) == inner.children@[j],
                decreases n + 1 - i,
            {
                put_word(&mut buf, 4 + n + i, inner.children[i]);
                i = i + 1;
            }
            proof {
                let d = spec_decode(buf@);
                assert(d is Some);
                assert(d->Some_0->keys =~= inner.keys@);
                assert(d->Some_0->children =~= inner.children@);
            }
            Some(buf)
        },
    }
}

} // verus!
