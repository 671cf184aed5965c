//! The B+tree: find, insert and delete over nodes that live in the pages
//! of a buffer pool.

use vstd::prelude::*;
use crate::chain::{
    chain_entries, chained, entries_in_order, leaves, lemma_in_order, lemma_leaves_chained,
};
use crate::delete::{del_nodes, delete_rec, without};
use crate::rebalance::gave_back;
use crate::error::StorageError;
use crate::insert::{
    count_splits, expected, ins_post, insert_rec, inserted_as, leaf_with, lemma_pages_needed_bound, pages_needed, splits,
};
use crate::node_ops::spec_split;
use crate::node::{InnerNode, Key, LeafNode, LeafNodeInterior, Node, NodeView, spec_decode, Value};
use crate::node_io::{alloc_page, free_page, idle, load_node, page_nodes, store_node};
use crate::node_ops::{child_index, entry_index};
use crate::os_interface::{DEFAULT_PAGE_SIZE, MemoryStore, PageId};
use crate::pager::{free_chain, Header, Pager, spec_free_count, spec_free_head, spec_header};
use crate::tree_spec::{
    child_min, first_leaf, has_key, key_limit, last_leaf, leaf_get, lemma_frame, lemma_frame_links,
    lemma_leaf_ends, lemma_leaf_get_rank, lemma_min_change, lemma_owned_in_dom, lemma_route,
    lemma_route_is, lemma_vnode_install, links_ok, lookup, lower, min_fill, node_fits, Nodes, owns, right_ok,
    root_fill, route, sorted_entries, sorted_keys, sub_wf, tree_map, tree_wf, upper, vnode_ok, vowns,
};
use crate::update::update_rec;
use crate::validate::{bound, check_tree, fits};

verus! {

/// The number of frames in the pool of a tree made by `Btree::new`.
pub const DEFAULT_POOL_PAGES: usize = 64;

/// The number of pages to which the store of a tree made by `Btree::new`
/// can grow.
pub const DEFAULT_MAX_PAGES: usize = 1048576;

/// A fanout is usable with a page size when it is at least 3 and a node
/// with that many children fits a page.
pub open spec fn valid_fanout(f: int, page_size: int) -> bool {
    3 <= f && 2 * f + 3 <= page_size / 8
}

/// The free pages that the metadata page of a store lists, the one to be
/// handed out next first.
pub open spec fn store_free(pages: Seq<Seq<u8>>) -> Option<Seq<PageId>> {
    free_chain(pages, spec_free_head(pages[0]), spec_free_count(pages[0]) as nat)
}

/// The nodes that the pages in use of a closed store hold.
pub open spec fn store_nodes(pages: Seq<Seq<u8>>) -> Nodes {
    Map::new(
        |id: PageId|
            1 <= id < pages.len() && !store_free(pages)->Some_0.contains(id) && spec_decode(
                pages[id as int],
            ) is Some,
        |id: PageId| spec_decode(pages[id as int])->Some_0,
    )
}

/// The pages are those of a closed store with a well-formed tree in it:
/// page 0 is a metadata page, the free chain is sound, and the pages in
/// use hold a well-formed tree with the root, height and fanout that
/// page 0 records.
pub open spec fn holds_tree(pages: Seq<Seq<u8>>) -> bool {
    &&& spec_header(pages[0]) is Some
    &&& store_free(pages) is Some
    &&& store_free(pages)->Some_0.no_duplicates()
    &&& spec_header(pages[0])->Some_0.height <= usize::MAX
    &&& valid_fanout(spec_header(pages[0])->Some_0.fanout as int, pages[0].len() as int)
    &&& tree_wf(
        store_nodes(pages),
        spec_header(pages[0])->Some_0.root,
        spec_header(pages[0])->Some_0.height as nat,
        spec_header(pages[0])->Some_0.fanout as int,
    )
}

/// The nodes, the root and the height of a tree once `key`, which it
/// holds, has been deleted: the nodes are what the deletion below the
/// root makes of them; a root that is left with a single child is taken
/// out, its child becomes the root, and the tree is one level lower.
pub open spec fn after_delete(m: Nodes, root: PageId, h: nat, f: int, key: Key) -> (
    Nodes,
    PageId,
    nat,
) {
    let m2 = del_nodes(m, root, h, f, key);
    if h > 0 && m2[root]->children.len() == 1 {
        (m2.remove(root), m2[root]->children[0], (h - 1) as nat)
    } else {
        (m2, root, h)
    }
}

/// A list of pages read backwards names the same pages, each as often,
/// and read backwards twice it is the list again.
proof fn lemma_reverse_members(s: Seq<PageId>)
    ensures
        forall|id: PageId| #![trigger s.reverse().contains(id)] s.reverse().contains(id) == s.contains(id),
        s.no_duplicates() ==> s.reverse().no_duplicates(),
        s.reverse().reverse() == s,
{
    let r = s.reverse();
    assert forall|id: PageId| #![trigger r.contains(id)] r.contains(id) == s.contains(id) by {
        if s.contains(id) {
            let i = choose|i: int| 0 <= i < s.len() && s[i] == id;
            assert(r[s.len() - 1 - i] == id);
        }
        if r.contains(id) {
            let i = choose|i: int| 0 <= i < s.len() && r[i] == id;
            assert(s[s.len() - 1 - i] == id);
        }
    }
    if s.no_duplicates() {
        assert forall|i: int, j: int| 0 <= i < s.len() && 0 <= j < s.len() && i != j implies r[i]
            != r[j] by {
            assert(s[s.len() - 1 - i] != s[s.len() - 1 - j]);
        }
    }
    assert(r.reverse() =~= s);
}

/// What `insert` does with a key that the tree already holds.
#[derive(Debug, Clone, Copy, PartialEq, Eq, Structural)]
pub enum DuplicatePolicy {
    /// The insert fails with `DuplicateKey`.
    Reject,
    /// The new value takes the place of the old one.
    Overwrite,
}

/// A B+tree with its buffer pool.
pub struct Btree {
    /// The most entries that a node may hold: the fanout.
    interior_node_count: u64,
    policy: DuplicatePolicy,
    pager: Pager,
    root: PageId,
    /// The number of levels above the leaves.
    height: usize,
}

impl View for Btree {
    type V = Map<Key, Value>;

    /// The keys of the tree with their values.
    closed spec fn view(&self) -> Map<Key, Value> {
        tree_map(self.nodes(), self.root, self.height as nat)
    }
}

impl Btree {
    /// The buffer pool of the tree.
    pub closed spec fn pool(&self) -> &Pager {
        &self.pager
    }

    /// The nodes that the pages hold.
    pub open spec fn nodes(&self) -> Nodes {
        page_nodes(self.pool())
    }

    /// The page of the root.
    pub closed spec fn spec_root(&self) -> PageId {
        self.root
    }

    /// The number of levels above the leaves.
    pub closed spec fn spec_height(&self) -> nat {
        self.height as nat
    }

    /// The fanout.
    pub closed spec fn spec_fanout(&self) -> int {
        self.interior_node_count as int
    }

    /// What `insert` does with a key that the tree already holds.
    pub closed spec fn spec_policy(&self) -> DuplicatePolicy {
        self.policy
    }

    /// The view is what a descent from the root finds, and the height and
    /// the fanout are machine numbers.
    pub proof fn lemma_view(&self)
        ensures
            self@ == tree_map(self.nodes(), self.spec_root(), self.spec_height()),
            self.spec_height() <= usize::MAX,
            0 <= self.spec_fanout() <= u64::MAX,
    {
    }

    /// The pool is idle and the root's page holds a node.
    pub open spec fn inv(&self) -> bool {
        &&& idle(self.pool())
        &&& self.nodes().dom().contains(self.spec_root())
    }

    /// The tree's invariant: the pool is idle, the fanout is usable, and
    /// the nodes form a well-formed tree of the recorded height.
    pub open spec fn wf(&self) -> bool {
        &&& idle(self.pool())
        &&& valid_fanout(self.spec_fanout(), self.pool().spec_page_size() as int)
        &&& tree_wf(self.nodes(), self.spec_root(), self.spec_height(), self.spec_fanout())
    }

    /// Whether the insertion of a new key makes the root split, and the
    /// tree grow by a level.
    pub open spec fn grows_with(&self, key: Key) -> bool {
        splits(self.nodes(), self.spec_root(), self.spec_height(), self.spec_fanout(), key)
    }

    /// The number of pages that the insertion of a new key takes: one for
    /// every node on the way to the key's leaf that splits, and one for a
    /// new root when the root is among them.
    pub open spec fn pages_for(&self, key: Key) -> nat {
        pages_needed(self.nodes(), self.spec_root(), self.spec_height(), self.spec_fanout(), key)
            + if self.grows_with(key) {
            1nat
        } else {
            0nat
        }
    }

    /// The store has the pages that the insertion of a new key takes, and
    /// the height of the tree can still be counted.
    pub open spec fn room_for(&self, key: Key) -> bool {
        &&& self.spec_height() + 2 <= usize::MAX
        &&& self.pool().spare() >= self.pages_for(key)
    }

    /// Two states of a tree with the same nodes, root, height and fanout.
    pub open spec fn same_tree(&self, other: &Btree) -> bool {
        &&& self.nodes() == other.nodes()
        &&& self.spec_root() == other.spec_root()
        &&& self.spec_height() == other.spec_height()
        &&& self.spec_fanout() == other.spec_fanout()
        &&& self.spec_policy() == other.spec_policy()
        &&& self.pool().allocated() == other.pool().allocated()
        &&& self.pool().spare() == other.pool().spare()
        &&& self.pool().next_id() == other.pool().next_id()
        &&& self.pool().spec_page_size() == other.pool().spec_page_size()
        &&& self.pool().spec_capacity() == other.pool().spec_capacity()
    }

    /// What a descent from the root returns for a key, in any state of
    /// the pool and of the pages.
    pub open spec fn descent(&self, key: Key) -> Result<Value, StorageError> {
        descend(
            self.pool(),
            self.spec_root(),
            self.spec_height(),
            0,
            key_limit(),
            self.spec_fanout(),
            root_fill(self.spec_height()),
            key,
        )
    }

    /// What `find` leaves behind and returns.
    ///
    /// The result is what the descent gives: the value under the key or
    /// `NotFound`, or the error of the first page on the way that cannot
    /// be read: `PageNotFound` for a page that is not allocated,
    /// `PoolExhausted` for one that cannot be fetched, `CorruptNode` for
    /// one that holds no node that fits its place: a node of the wrong
    /// kind for its level, with more entries or children than the fanout
    /// admits or fewer than its minimum, or with keys out of order or
    /// outside the bounds of its place. Whatever the result,
    /// the tree and the contents of its pages are as they were, no pin
    /// count has changed, no page has become dirty, no pinned page has
    /// been moved or written over, and what could be fetched before can
    /// be fetched afterwards. When the root itself cannot be fetched, the
    /// pool is exactly as it was. On a well-formed tree the result is the
    /// value under the key, or `NotFound`.
    pub open spec fn found(&self, after: &Btree, key: Key, r: Result<Value, StorageError>) -> bool {
        &&& after.pool().wf()
        &&& after.same_tree(self)
        &&& after@ == self@
        &&& r == self.descent(key)
        &&& forall|p: PageId|
            #![trigger after.pool().pins(p)]
            after.pool().pins(p) == self.pool().pins(p)
        &&& forall|p: PageId|
            #![trigger after.pool().is_dirty(p)]
            after.pool().is_dirty(p) ==> self.pool().is_dirty(p)
        &&& forall|p: PageId|
            #![trigger after.pool().is_resident(p)]
            self.pool().pins(p) > 0 ==> after.pool().is_resident(p) && after.pool().is_dirty(p)
                == self.pool().is_dirty(p)
        &&& forall|p: PageId|
            #![trigger after.pool().fetchable(p)]
            after.pool().fetchable(p) == self.pool().fetchable(p)
        &&& forall|p: PageId|
            #![trigger after.pool().content(p)]
            self.pool().allocated().contains(p) ==> after.pool().content(p) == self.pool().content(
                p,
            )
        &&& (!self.pool().fetchable(self.spec_root()) ==> *after.pool() == *self.pool())
        &&& (self.wf() ==> after.wf() && r == if self@.dom().contains(key) {
            Ok::<Value, StorageError>(self@[key])
        } else {
            Err::<Value, StorageError>(StorageError::NotFound)
        })
    }

    /// How the tree has changed with the insertion of a new key: it took
    /// exactly the pages of the nodes that split, and the nodes below a
    /// new root are exactly what the rules of insertion make of them: the
    /// key is in its leaf, and every node that was full has split, the
    /// first half of its entries, rounded up, staying in place. The tree is one level
    /// higher exactly when the root split; the new root then has the old
    /// root and its new sibling as its two children. A root that was a
    /// leaf and split kept the first half of its entries, rounded up,
    /// and the separator in the new root is the first key of the new
    /// leaf.
    pub open spec fn grew(&self, after: &Btree, key: Key, value: Value) -> bool {
        &&& after.pool().spare() == self.pool().spare() - self.pages_for(key)
        &&& after.spec_height() == self.spec_height() + if self.grows_with(key) {
            1nat
        } else {
            0nat
        }
        &&& (!self.grows_with(key) ==> after.spec_root() == self.spec_root())
        &&& inserted_as(
            self.nodes(),
            if self.grows_with(key) {
                after.nodes().remove(after.spec_root())
            } else {
                after.nodes()
            },
            self.pool().allocated(),
            self.pool().next_id(),
            self.spec_root(),
            self.spec_height(),
            self.spec_fanout(),
            key,
            value,
            if self.grows_with(key) {
                Some(
                    crate::node::InnerNodeInterior {
                        key: after.nodes()[after.spec_root()]->keys[0],
                        child: after.nodes()[after.spec_root()]->children[1],
                    },
                )
            } else {
                None
            },
        )
        &&& (self.grows_with(key) ==> {
            let top = after.nodes()[after.spec_root()];
            &&& after.nodes().dom().contains(after.spec_root())
            &&& top is Inner
            &&& top->keys.len() == 1
            &&& top->children.len() == 2
            &&& top->children[0] == self.spec_root()
            &&& (self.spec_height() == 0 ==> spec_split(
                leaf_with(self.nodes()[self.spec_root()], key, value),
                self.spec_root(),
                top->children[1],
            ) == Some(
                (
                    after.nodes()[self.spec_root()],
                    crate::node::InnerNodeInterior { key: top->keys[0], child: top->children[1] },
                    after.nodes()[top->children[1]],
                ),
            ))
        })
    }

    /// What `insert` leaves behind and returns. For a new key it succeeds
    /// exactly when the store has room; the tree then holds the key
    /// with the value and every other key as before, and is at most one
    /// level higher. A key that the tree holds gets the new value under
    /// the policy `Overwrite`, and is rejected with `DuplicateKey` under
    /// the policy `Reject`; want of room for a new key is reported as
    /// `IoError`. After a failure the tree is as it was. Either way the
    /// tree is well formed.
    pub open spec fn inserted(
        &self,
        after: &Btree,
        key: Key,
        value: Value,
        r: Result<(), StorageError>,
    ) -> bool {
        &&& after.wf()
        &&& after.spec_fanout() == self.spec_fanout()
        &&& after.spec_policy() == self.spec_policy()
        &&& after.pool().spec_page_size() == self.pool().spec_page_size()
        &&& after.pool().spec_capacity() == self.pool().spec_capacity()
        &&& (r is Ok <==> if self@.dom().contains(key) {
            self.spec_policy() == DuplicatePolicy::Overwrite
        } else {
            self.room_for(key)
        })
        &&& (r is Ok ==> {
            &&& after@ == self@.insert(key, value)
            &&& (self@.dom().contains(key) ==> after.spec_height() == self.spec_height()
                && after.spec_root() == self.spec_root() && after.pool().spare()
                == self.pool().spare())
            &&& (!self@.dom().contains(key) ==> self.grew(after, key, value))
        })
        &&& (r is Err ==> {
            &&& after.same_tree(self)
            &&& after@ == self@
            &&& r->Err_0 == if self@.dom().contains(key) {
                StorageError::DuplicateKey
            } else {
                StorageError::IoError
            }
        })
    }

    /// What `delete` leaves behind and returns. It succeeds exactly when
    /// the tree holds the key; the key is then gone and every other key
    /// is as before, the tree is at most one level lower, and no page was
    /// taken from the store. The nodes are exactly what the rules of
    /// deletion make of them: a node that falls below its minimum borrows
    /// from its left sibling if that has an entry to spare, else from its
    /// right sibling, and is merged with a sibling only when neither has.
    /// The page of every node that is gone is given back to the store: of
    /// every node that was merged into its left neighbour, and of a root
    /// that was left with a single child. A key that the tree does not hold is
    /// reported as `NotFound`, and the tree is as it was. Either way the
    /// tree is well formed.
    pub open spec fn deleted(&self, after: &Btree, key: Key, r: Result<(), StorageError>) -> bool {
        &&& after.wf()
        &&& after.spec_fanout() == self.spec_fanout()
        &&& after.spec_policy() == self.spec_policy()
        &&& after.pool().spec_page_size() == self.pool().spec_page_size()
        &&& after.pool().spec_capacity() == self.pool().spec_capacity()
        &&& (r is Ok <==> self@.dom().contains(key))
        &&& (r is Ok ==> {
            &&& after@ == self@.remove(key)
            &&& self.spec_height() - 1 <= after.spec_height() <= self.spec_height()
            &&& after.pool().spare() >= self.pool().spare()
            &&& after.pool().allocated().subset_of(self.pool().allocated())
            &&& (after.nodes(), after.spec_root(), after.spec_height()) == after_delete(
                self.nodes(),
                self.spec_root(),
                self.spec_height(),
                self.spec_fanout(),
                key,
            )
            &&& gave_back(
                self.pool().allocated(),
                after.pool().allocated(),
                self.nodes(),
                after.nodes(),
            )
            &&& (after.spec_height() == self.spec_height() ==> after.spec_root()
                == self.spec_root())
            &&& (after.spec_height() < self.spec_height() ==> {
                &&& !after.pool().allocated().contains(self.spec_root())
                &&& after.pool().spare() >= self.pool().spare() + 1
            })
        })
        &&& (r is Err ==> {
            &&& r->Err_0 == StorageError::NotFound
            &&& after.same_tree(self)
            &&& after@ == self@
        })
    }

    /// What `scan` leaves behind and returns: the tree is as it was, no
    /// page has become dirty, and the result holds the entries of the leaves in chain order, which
    /// is the order of an in-order traversal: every key of the tree once,
    /// with its value, in strictly increasing order.
    pub open spec fn scanned(
        &self,
        after: &Btree,
        r: Result<Vec<LeafNodeInterior>, StorageError>,
    ) -> bool {
        &&& after.wf()
        &&& after.same_tree(self)
        &&& after@ == self@
        &&& forall|p: PageId|
            #![trigger after.pool().is_dirty(p)]
            after.pool().is_dirty(p) ==> self.pool().is_dirty(p)
        &&& r is Ok
        &&& r->Ok_0@ == entries_in_order(self.nodes(), self.spec_root(), self.spec_height())
        &&& sorted_entries(r->Ok_0@)
        &&& forall|k: Key| #![trigger self@.dom().contains(k)] self@.dom().contains(k) == has_key(r->Ok_0@, k)
        &&& forall|i: int|
            0 <= i < r->Ok_0@.len() ==> self@.dom().contains((#[trigger] r->Ok_0@[i]).key) && self@[r->Ok_0@[i].key]
                == r->Ok_0@[i].value
    }

    /// A tree with one entry, over a store and pool of its own with the
    /// default page size. The tree is well formed when the fanout is
    /// usable with that page size.
    pub fn new(interior_node_count: u64, key: Key, value: Value) -> (r: Btree)
        ensures
            r.inv(),
            r.spec_fanout() == interior_node_count,
            r.spec_policy() == DuplicatePolicy::Reject,
            r.spec_height() == 0,
            r@ == map![key => value],
            r.nodes() == map![r.spec_root() => NodeView::Leaf {
                entries: seq![LeafNodeInterior { key, value }],
                left: None,
                right: None,
            }],
            r.pool().spec_page_size() == DEFAULT_PAGE_SIZE,
            r.pool().spec_capacity() == DEFAULT_POOL_PAGES,
            r.pool().spare() == DEFAULT_MAX_PAGES - 2,
            valid_fanout(interior_node_count as int, DEFAULT_PAGE_SIZE as int) ==> r.wf(),
    {
        let store = MemoryStore::new(DEFAULT_PAGE_SIZE, DEFAULT_MAX_PAGES).unwrap();
        let mut pager = Pager::new(store, DEFAULT_POOL_PAGES);
        proof {
            assert(page_nodes(&pager) =~= Map::<PageId, NodeView>::empty());
        }
        let root = alloc_page(&mut pager).unwrap();
        let mut entries: Vec<LeafNodeInterior> = Vec::new();
        entries.push(LeafNodeInterior { key, value });
        let leaf = Node::Leaf(LeafNode { entries, left_sibling: None, right_sibling: None });
        store_node(&mut pager, root, &leaf).unwrap();
        let r = Btree { interior_node_count, policy: DuplicatePolicy::Reject, pager, root, height: 0 };
        proof {
            let m = r.nodes();
            let e = seq![LeafNodeInterior { key, value }];
            assert(m =~= map![root => leaf@]);
            assert(leaf@ == NodeView::Leaf { entries: e, left: None, right: None });
            assert forall|k: Key| lookup(m, root, 0, k) == if k == key {
                Some(value)
            } else {
                None
            } by {
                lemma_leaf_get_rank(e, k);
                if k == key {
                    assert(e[0].key == k);
                    crate::tree_spec::lemma_leaf_get_at(e, 0);
                } else {
                    if crate::tree_spec::has_key(e, k) {
                        let j = choose|j: int| 0 <= j < e.len() && (#[trigger] e[j]).key == k;
                    }
                }
            }
            assert(r@ =~= map![key => value]);
        }
        r
    }

    /// An empty tree in a pool of its own choosing: the root is a leaf
    /// without entries, in a page taken from the pool. Fails with
    /// `IoError` when the store has no page left. The tree is well formed
    /// when the fanout is usable with the pool's page size.
    pub fn create(pager: Pager, interior_node_count: u64) -> (r: Result<Btree, StorageError>)
        requires
            idle(&pager),
        ensures
            r is Ok <==> pager.spare() > 0,
            r is Err ==> r->Err_0 == StorageError::IoError,
            r is Ok ==> {
                let t = r->Ok_0;
                &&& t.inv()
                &&& t.spec_fanout() == interior_node_count
                &&& t.spec_policy() == DuplicatePolicy::Reject
                &&& t.spec_height() == 0
                &&& t@ == Map::<Key, Value>::empty()
                &&& t.spec_root() == pager.next_id()
                &&& t.nodes() == page_nodes(&pager).insert(
                    t.spec_root(),
                    NodeView::Leaf {
                        entries: Seq::<LeafNodeInterior>::empty(),
                        left: None,
                        right: None,
                    },
                )
                &&& t.pool().spec_page_size() == pager.spec_page_size()
                &&& t.pool().spec_capacity() == pager.spec_capacity()
                &&& t.pool().spare() == pager.spare() - 1
                &&& (valid_fanout(interior_node_count as int, pager.spec_page_size() as int)
                    ==> t.wf())
            },
    {
        let mut pager = pager;
        let ghost m0 = page_nodes(&pager);
        let root = match alloc_page(&mut pager) {
            Ok(p) => p,
            Err(e) => {
                return Err(e);
            },
        };
        let leaf = Node::Leaf(LeafNode { entries: Vec::new(), left_sibling: None, right_sibling: None });
        proof {
            pager.lemma_wf();
        }
        match store_node(&mut pager, root, &leaf) {
            Ok(()) => {},
            Err(e) => {
                return Err(e);
            },
        }
        let t = Btree { interior_node_count, policy: DuplicatePolicy::Reject, pager, root, height: 0 };
        proof {
            let m = t.nodes();
            assert(m == m0.insert(root, leaf@));
            assert forall|k: Key| lookup(m, root, 0, k) is None by {}
            assert(t@ =~= Map::<Key, Value>::empty());
        }
        Ok(t)
    }

    /// Takes up a tree that is already in the pages of a pool, after
    /// checking every node of it. Fails with `CorruptNode` when the pages
    /// below `root` do not hold a well-formed tree of the given height
    /// for the given fanout.
    pub fn open(pager: Pager, root: PageId, height: usize, interior_node_count: u64) -> (r: Result<
        Btree,
        StorageError,
    >)
        requires
            idle(&pager),
        ensures
            r is Ok <==> valid_fanout(interior_node_count as int, pager.spec_page_size() as int)
                && tree_wf(page_nodes(&pager), root, height as nat, interior_node_count as int),
            r is Err ==> r->Err_0 == StorageError::CorruptNode,
            r is Ok ==> {
                let t = r->Ok_0;
                &&& t.wf()
                &&& t.nodes() == page_nodes(&pager)
                &&& t.spec_root() == root
                &&& t.spec_height() == height
                &&& t.spec_fanout() == interior_node_count
                &&& t.spec_policy() == DuplicatePolicy::Reject
                &&& t.pool().same_pages(&pager)
            },
    {
        let mut pager = pager;
        if !check_tree(&mut pager, root, height, interior_node_count) {
            return Err(StorageError::CorruptNode);
        }
        Ok(Btree { interior_node_count, policy: DuplicatePolicy::Reject, pager, root, height })
    }

    /// What `close` hands out: a store whose pages hold the tree, with the
    /// root, the height and the fanout recorded in page 0.
    pub open spec fn closed_as(&self, store: &MemoryStore) -> bool {
        &&& store.wf()
        &&& store.spec_page_size() == self.pool().spec_page_size()
        &&& holds_tree(store@)
        &&& store_nodes(store@) == self.nodes()
        &&& spec_header(store@[0]) == Some(
            Header {
                root: self.spec_root(),
                height: self.spec_height() as u64,
                fanout: self.spec_fanout() as u64,
            },
        )
    }

    /// What `reopen` makes of a store: a tree exactly when the store holds
    /// a well-formed one, and then the tree that page 0 records, over the
    /// nodes that the pages in use hold.
    pub open spec fn reopened(store: &MemoryStore, capacity: usize, r: Result<Btree, StorageError>) -> bool {
        &&& r is Ok <==> holds_tree(store@)
        &&& r is Err ==> r->Err_0 == StorageError::CorruptNode
        &&& r is Ok ==> {
            let t = r->Ok_0;
            let h = spec_header(store@[0])->Some_0;
            &&& t.wf()
            &&& t.nodes() == store_nodes(store@)
            &&& t.spec_root() == h.root
            &&& t.spec_height() == h.height
            &&& t.spec_fanout() == h.fanout
            &&& t.pool().spec_capacity() == capacity
            &&& t.pool().spec_page_size() == store.spec_page_size()
        }
    }

    /// Writes the tree to its store and hands the store out, with the
    /// root, the height and the fanout recorded in page 0.
    pub fn close(self) -> (r: MemoryStore)
        requires
            self.wf(),
        ensures
            self.closed_as(&r),
    {
        let header = Header {
            root: self.root,
            height: self.height as u64,
            fanout: self.interior_node_count,
        };
        let ghost pool = self.pager;
        proof {
            pool.lemma_wf();
            pool.lemma_free_pages();
        }
        let store = self.pager.close(header);
        proof {
            let free = pool.free_pages();
            assert(store_free(store@) == Some(free.reverse()));
            lemma_reverse_members(free);
            assert(store_nodes(store@) =~= page_nodes(&pool));
            store.lemma_wf();
        }
        store
    }

    /// Takes up the tree of a store that was closed before, after checking
    /// every node of it. Fails with `CorruptNode` when the store does not
    /// hold a well-formed tree.
    pub fn reopen(store: MemoryStore, capacity: usize) -> (r: Result<Btree, StorageError>)
        requires
            store.wf(),
            capacity >= 1,
        ensures
            Btree::reopened(&store, capacity, r),
    {
        proof {
            store.lemma_wf();
        }
        let (pager, header) = match Pager::reopen(store, capacity) {
            Ok(pair) => pair,
            Err(e) => {
                return Err(e);
            },
        };
        if header.height > usize::MAX as u64 {
            return Err(StorageError::CorruptNode);
        }
        proof {
            pager.lemma_wf();
            pager.lemma_free_pages();
            let free = pager.free_pages();
            lemma_reverse_members(free);
            assert(store_nodes(store@) =~= page_nodes(&pager));
        }
        Btree::open(pager, header.root, header.height as usize, header.fanout)
    }

    /// What `insert` does with a key that the tree already holds.
    pub fn duplicate_policy(&self) -> (r: DuplicatePolicy)
        ensures
            r == self.spec_policy(),
    {
        self.policy
    }

    /// Chooses what `insert` does with a key that the tree already holds.
    /// A tree starts out with the policy `Reject`.
    pub fn set_duplicate_policy(&mut self, policy: DuplicatePolicy)
        ensures
            final(self).spec_policy() == policy,
            final(self).nodes() == old(self).nodes(),
            final(self).pool() == old(self).pool(),
            final(self).spec_root() == old(self).spec_root(),
            final(self).spec_height() == old(self).spec_height(),
            final(self).spec_fanout() == old(self).spec_fanout(),
            final(self)@ == old(self)@,
            final(self).wf() == old(self).wf(),
    {
        self.policy = policy;
    }

    /// Takes up a tree in the pages of a pool as it stands, without
    /// looking at any page: `find` then reports what it meets on its way.
    pub fn attach(pager: Pager, root: PageId, height: usize, interior_node_count: u64) -> (r: Btree)
        ensures
            *r.pool() == pager,
            r.spec_root() == root,
            r.spec_height() == height,
            r.spec_fanout() == interior_node_count,
            r.spec_policy() == DuplicatePolicy::Reject,
    {
        Btree { interior_node_count, policy: DuplicatePolicy::Reject, pager, root, height }
    }

    /// Fetches a page of the tree's pool and keeps it pinned, as
    /// `Pager::fetch` does. The tree is as it was.
    pub fn pin(&mut self, id: PageId) -> (r: Result<crate::pager::PageHandle, StorageError>)
        requires
            old(self).pool().wf(),
        ensures
            final(self).pool().wf(),
            final(self).same_tree(old(self)),
            final(self)@ == old(self)@,
            r is Ok <==> old(self).pool().fetchable(id),
            r is Err ==> *final(self).pool() == *old(self).pool(),
            r is Err ==> r->Err_0 == if old(self).pool().allocated().contains(id) {
                StorageError::PoolExhausted
            } else {
                StorageError::PageNotFound
            },
            r is Ok ==> {
                &&& r->Ok_0.page_id == id
                &&& final(self).pool().pins(id) == old(self).pool().pins(id) + 1
                &&& final(self).pool().is_dirty(id) == old(self).pool().is_dirty(id)
                &&& final(self).pool().resident() == if old(self).pool().is_resident(id) {
                    old(self).pool().resident().remove(old(self).pool().resident().index_of(id)).push(
                        id,
                    )
                } else {
                    old(self).pool().resident_after_room().push(id)
                }
                &&& forall|p: PageId|
                    #![trigger final(self).pool().pins(p)]
                    p != id ==> final(self).pool().pins(p) == old(self).pool().pins(p)
                &&& forall|p: PageId|
                    #![trigger final(self).pool().is_dirty(p)]
                    p != id && final(self).pool().is_resident(p) ==> final(self).pool().is_dirty(p)
                        == old(self).pool().is_dirty(p)
            },
    {
        let r = self.pager.fetch(id);
        proof {
            assert(page_nodes(&self.pager) =~= page_nodes(&old(self).pager));
        }
        r
    }

    /// Gives a handle of the tree's pool back, as `Pager::release` does.
    /// The tree is as it was.
    pub fn unpin(&mut self, handle: crate::pager::PageHandle)
        requires
            old(self).pool().wf(),
        ensures
            final(self).pool().wf(),
            final(self).same_tree(old(self)),
            final(self)@ == old(self)@,
            final(self).pool().resident() == old(self).pool().resident(),
            final(self).pool().pins(handle.page_id) == if old(self).pool().pins(handle.page_id) > 0 {
                old(self).pool().pins(handle.page_id) - 1
            } else {
                0
            },
            forall|p: PageId|
                #![trigger final(self).pool().pins(p)]
                p != handle.page_id ==> final(self).pool().pins(p) == old(self).pool().pins(p),
            forall|p: PageId|
                #![trigger final(self).pool().is_dirty(p)]
                final(self).pool().is_dirty(p) == old(self).pool().is_dirty(p),
    {
        self.pager.release(handle);
        proof {
            assert(page_nodes(&self.pager) =~= page_nodes(&old(self).pager));
        }
    }

    /// Whether the tree's pool is idle: well formed, with a frame to work
    /// in and no page pinned. This is what the operations that change or
    /// walk the tree ask for.
    pub fn is_idle(&self) -> (r: bool)
        ensures
            r == idle(self.pool()),
    {
        self.pager.is_idle()
    }

    /// Checks every node of the tree against the tree's invariant.
    pub fn validate(&mut self) -> (r: bool)
        requires
            idle(old(self).pool()),
        ensures
            final(self).same_tree(old(self)),
            idle(final(self).pool()),
            r == old(self).wf(),
            r == final(self).wf(),
    {
        check_tree(&mut self.pager, self.root, self.height, self.interior_node_count)
    }

    /// Writes every dirty page of the pool back to the store, and syncs
    /// the store. The tree is as it was.
    pub fn flush(&mut self) -> (r: Result<(), StorageError>)
        requires
            old(self).wf(),
        ensures
            r is Ok,
            final(self).wf(),
            final(self).same_tree(old(self)),
            final(self)@ == old(self)@,
            forall|p: PageId|
                #![trigger final(self).pool().stored(p)]
                final(self).pool().allocated().contains(p) ==> final(self).pool().stored(p)
                    == final(self).pool().content(p) && !final(self).pool().is_dirty(p),
    {
        let r = self.pager.flush_all();
        proof {
            assert(page_nodes(&self.pager) =~= page_nodes(&old(self).pager));
        }
        r
    }

    /// Gives up the tree and hands out its pool, with the tree's nodes in
    /// the pages.
    pub fn into_pager(self) -> (r: Pager)
        ensures
            r == *self.pool(),
    {
        self.pager
    }

    /// The largest fanout that is usable with a page size: the number of
    /// children that fit a page with their separator keys.
    pub fn max_fanout(page_size: usize) -> (r: u64)
        ensures
            forall|f: int| #![trigger valid_fanout(f, page_size as int)] valid_fanout(f, page_size as int) <==> 3 <= f <= r,
    {
        let words = (page_size / 8) as u64;
        if words < 9 {
            0
        } else {
            (words - 3) / 2
        }
    }

    /// Whether the store has the pages that the insertion of a new key
    /// takes.
    pub fn has_room_for(&mut self, key: Key) -> (r: bool)
        requires
            old(self).wf(),
        ensures
            final(self).wf(),
            final(self).same_tree(old(self)),
            final(self)@ == old(self)@,
            forall|p: PageId|
                #![trigger final(self).pool().is_dirty(p)]
                final(self).pool().is_dirty(p) ==> old(self).pool().is_dirty(p),
            r == old(self).room_for(key),
    {
        if self.height > usize::MAX - 2 {
            return false;
        }
        let ghost h = self.height as nat;
        proof {
            lemma_pages_needed_bound(self.nodes(), self.root, h, self.spec_fanout(), key);
        }
        let counted = count_splits(
            &mut self.pager,
            self.interior_node_count,
            self.root,
            self.height,
            key,
            Ghost(0),
            Ghost(key_limit()),
            Ghost(root_fill(h)),
        );
        match counted {
            Ok((n, top)) => {
                let need = if top {
                    n + 1
                } else {
                    n
                };
                self.pager.can_allocate(need)
            },
            Err(_) => false,
        }
    }

    /// The buffer pool of the tree, to look at.
    pub fn pager(&self) -> (r: &Pager)
        ensures
            r == self.pool(),
    {
        &self.pager
    }

    /// The fanout that the tree was made with.
    pub fn interior_node_count(&self) -> (r: u64)
        ensures
            r == self.spec_fanout(),
    {
        self.interior_node_count
    }

    /// The number of levels above the leaves: 0 while the root is a leaf.
    pub fn height(&self) -> (r: usize)
        ensures
            r == self.spec_height(),
    {
        self.height
    }

    /// The page of the root.
    pub fn root(&self) -> (r: PageId)
        ensures
            r == self.spec_root(),
    {
        self.root
    }

    /// Reads the root node.
    pub fn root_node(&mut self) -> (r: Result<Node, StorageError>)
        requires
            old(self).inv(),
        ensures
            final(self).inv(),
            final(self).same_tree(old(self)),
            r is Ok,
            r->Ok_0@ == old(self).nodes()[old(self).spec_root()],
    {
        load_node(&mut self.pager, self.root)
    }
}

/// What a descent from the page `id`, `h` levels above the leaves, gives
/// for a key whose place is among the keys from `lo` up to `hi`, in a
/// tree of fanout `f` whose node at `id` is to hold at least `min` entries
/// or children.
///
/// Each page on the way must be allocated (else `PageNotFound`), must be
/// fetchable (else `PoolExhausted`), and must hold a node that fits its
/// place: of the kind that the level asks for, with no more entries or
/// children than the fanout admits and no fewer than its minimum, and
/// with strictly increasing keys within the bounds (else `CorruptNode`).
/// An internal node sends the descent on to the child that covers the
/// key; a leaf gives the value under the key, or `NotFound`.
pub open spec fn descend(
    pool: &Pager,
    id: PageId,
    h: nat,
    lo: int,
    hi: int,
    f: int,
    min: int,
    key: Key,
) -> Result<Value, StorageError>
    decreases h,
{
    if !pool.allocated().contains(id) {
        Err(StorageError::PageNotFound)
    } else if !pool.fetchable(id) {
        Err(StorageError::PoolExhausted)
    } else {
        match spec_decode(pool.content(id)) {
            None => Err(StorageError::CorruptNode),
            Some(node) => if !node_fits(node, h, lo, hi, f, min) {
                Err(StorageError::CorruptNode)
            } else {
                match node {
                    NodeView::Leaf { entries, left, right } => match leaf_get(entries, key) {
                        Some(v) => Ok(v),
                        None => Err(StorageError::NotFound),
                    },
                    NodeView::Inner { keys, children } => descend(
                        pool,
                        children[route(keys, key)],
                        (h - 1) as nat,
                        lower(keys, route(keys, key), lo),
                        upper(keys, route(keys, key), hi),
                        f,
                        min_fill(f, (h - 1) as nat),
                        key,
                    ),
                }
            },
        }
    }
}

/// Two pools that hold the same pages with the same contents, and can
/// fetch the same pages, give the same descent.
pub proof fn lemma_descend_same(
    a: &Pager,
    b: &Pager,
    id: PageId,
    h: nat,
    lo: int,
    hi: int,
    f: int,
    min: int,
    key: Key,
)
    requires
        a.allocated() == b.allocated(),
        forall|p: PageId|
            #![trigger a.content(p)]
            a.allocated().contains(p) ==> a.content(p) == b.content(p),
        forall|p: PageId| #![trigger a.fetchable(p)] a.fetchable(p) == b.fetchable(p),
    ensures
        descend(a, id, h, lo, hi, f, min, key) == descend(b, id, h, lo, hi, f, min, key),
    decreases h,
{
    if a.allocated().contains(id) && a.fetchable(id) {
        assert(a.content(id) == b.content(id));
        match spec_decode(a.content(id)) {
            Some(NodeView::Inner { keys, children }) => {
                if h > 0 {
                    lemma_descend_same(
                        a,
                        b,
                        children[route(keys, key)],
                        (h - 1) as nat,
                        lower(keys, route(keys, key), lo),
                        upper(keys, route(keys, key), hi),
                        f,
                        min_fill(f, (h - 1) as nat),
                        key,
                    );
                }
            },
            _ => {},
        }
    }
}

/// In a well-formed subtree over an idle pool the descent finds what the
/// tree holds.
pub proof fn lemma_descend_wf(
    pool: &Pager,
    id: PageId,
    h: nat,
    lo: int,
    hi: int,
    f: int,
    min: int,
    key: Key,
)
    requires
        idle(pool),
        sub_wf(page_nodes(pool), id, h, lo, hi, f, min),
    ensures
        descend(pool, id, h, lo, hi, f, min, key) == match lookup(page_nodes(pool), id, h, key) {
            Some(v) => Ok::<Value, StorageError>(v),
            None => Err::<Value, StorageError>(StorageError::NotFound),
        },
    decreases h,
{
    let m = page_nodes(pool);
    crate::node_io::lemma_idle_has_room(pool);
    assert(pool.pins(id) == 0);
    match m[id] {
        NodeView::Inner { keys, children } => {
            lemma_route(keys, key);
            let i = route(keys, key);
            lemma_descend_wf(
                pool,
                children[i],
                (h - 1) as nat,
                lower(keys, i, lo),
                upper(keys, i, hi),
                f,
                min_fill(f, (h - 1) as nat),
                key,
            );
        },
        _ => {},
    }
}

/// Looks a key up.
///
/// Returns the value stored under the key, or `NotFound` when the tree
/// does not hold the key. The errors of the pool are passed on
/// unchanged. Every node on the way is checked before it is searched: a
/// page that holds no node, or a node of the wrong kind for its level,
/// with a count of entries or children that the fanout does not admit, or
/// with keys out of order or out of bounds, is reported as `CorruptNode`.
/// Neither the tree nor the contents of any page change.
pub fn find(tree: &mut Btree, key: Key) -> (r: Result<Value, StorageError>)
    requires
        old(tree).pool().wf(),
    ensures
        old(tree).found(final(tree), key, r),
{
    let ghost pool0 = old(tree).pager;
    let ghost root = tree.spec_root();
    let ghost height = tree.spec_height();
    let mut id = tree.root;
    let mut h = tree.height;
    let mut lo: Key = 0;
    let mut hi: Option<Key> = None;
    let f = tree.interior_node_count;
    let mut min: u64 = if h == 0 {
        0
    } else {
        2
    };
    let ghost mut first = true;
    proof {
        pool0.lemma_wf();
        old(tree).lemma_view();
        if old(tree).wf() {
            lemma_descend_wf(
                &pool0,
                root,
                height,
                0,
                key_limit(),
                old(tree).spec_fanout(),
                root_fill(height),
                key,
            );
        }
    }
    loop
        invariant
            old(tree).wf() ==> old(tree).descent(key) == if old(tree)@.dom().contains(key) {
                Ok::<Value, StorageError>(old(tree)@[key])
            } else {
                Err::<Value, StorageError>(StorageError::NotFound)
            },
            pool0 == old(tree).pager,
            root == old(tree).spec_root(),
            height == old(tree).spec_height(),
            pool0.wf(),
            tree.pager.wf(),
            tree.same_tree(old(tree)),
            tree@ == old(tree)@,
            first ==> tree.pager == pool0 && id == root,
            !first ==> pool0.fetchable(root),
            forall|p: PageId| #![trigger tree.pager.pins(p)] tree.pager.pins(p) == pool0.pins(p),
            forall|p: PageId|
                #![trigger tree.pager.is_dirty(p)]
                tree.pager.is_dirty(p) ==> pool0.is_dirty(p),
            forall|p: PageId|
                #![trigger tree.pager.is_resident(p)]
                pool0.pins(p) > 0 ==> tree.pager.is_resident(p) && tree.pager.is_dirty(p)
                    == pool0.is_dirty(p),
            forall|p: PageId|
                #![trigger tree.pager.fetchable(p)]
                tree.pager.fetchable(p) == pool0.fetchable(p),
            forall|p: PageId|
                #![trigger tree.pager.content(p)]
                pool0.allocated().contains(p) ==> tree.pager.content(p) == pool0.content(p),
            f == old(tree).spec_fanout(),
            descend(&pool0, id, h as nat, lo as int, bound(hi), f as int, min as int, key) == old(
                tree,
            ).descent(key),
            old(tree).wf() ==> tree.wf(),
        decreases h,
    {
        let ghost before = tree.pager;
        let loaded = load_node(&mut tree.pager, id);
        proof {
            assert(before.content(id) == pool0.content(id) || !pool0.allocated().contains(id));
            assert(before.fetchable(id) == pool0.fetchable(id));
            assert(tree.nodes() == old(tree).nodes());
            old(tree).lemma_view();
            tree.lemma_view();
            assert forall|p: PageId|
                #![trigger tree.pager.is_resident(p)]
                pool0.pins(p) > 0 implies tree.pager.is_resident(p) && tree.pager.is_dirty(p)
                == pool0.is_dirty(p) by {
                assert(before.pins(p) == pool0.pins(p));
                assert(before.is_resident(p));
            }
            assert forall|p: PageId|
                #![trigger tree.pager.is_dirty(p)]
                tree.pager.is_dirty(p) implies pool0.is_dirty(p) by {
                assert(before.is_dirty(p));
            }
            assert forall|p: PageId|
                #![trigger tree.pager.fetchable(p)]
                tree.pager.fetchable(p) == pool0.fetchable(p) by {
                assert(before.fetchable(p) == pool0.fetchable(p));
            }
            assert forall|p: PageId|
                #![trigger tree.pager.content(p)]
                pool0.allocated().contains(p) implies tree.pager.content(p) == pool0.content(p) by {
                assert(before.content(p) == pool0.content(p));
            }
            assert forall|p: PageId| #![trigger tree.pager.pins(p)] tree.pager.pins(p) == pool0.pins(
                p,
            ) by {
                assert(before.pins(p) == pool0.pins(p));
            }
            if old(tree).wf() {
                assert(idle(&before));
            }
        }
        let node = match loaded {
            Ok(n) => n,
            Err(e) => {
                return Err(e);
            },
        };
        if !fits(&node, h, lo, hi, f, min) {
            return Err(StorageError::CorruptNode);
        }
        match node {
            Node::Leaf(leaf) => {
                let pos = entry_index(&leaf.entries, key);
                proof {
                    lemma_leaf_get_rank(leaf.entries@, key);
                }
                if pos < leaf.entries.len() && leaf.entries[pos].key == key {
                    return Ok(leaf.entries[pos].value);
                } else {
                    return Err(StorageError::NotFound);
                }
            },
            Node::Inner(inner) => {
                let i = child_index(&inner.keys, key);
                proof {
                    lemma_route(inner.keys@, key);
                    first = false;
                }
                if i > 0 {
                    lo = inner.keys[i - 1];
                }
                if i < inner.keys.len() {
                    hi = Some(inner.keys[i]);
                }
                id = inner.children[i];
                h = h - 1;
                min = if h == 0 {
                    f / 2
                } else {
                    f / 2 + f % 2
                };
            },
        }
    }
}

/// Inserts a key with its value.
///
/// A key that the tree already holds is rejected with `DuplicateKey`.
/// Otherwise the call fails with `IoError` when the store has no room for
/// the pages that the insertion may take. A failed call leaves the tree
/// as it was. On success the tree holds the key with the value, and every
/// other key as before; the tree grows by one level when the root splits.
pub fn insert(tree: &mut Btree, key: Key, value: Value) -> (r: Result<(), StorageError>)
    requires
        old(tree).wf(),
    ensures
        old(tree).inserted(final(tree), key, value, r),
{
    match find(tree, key) {
        Ok(_) => {
            match tree.policy {
                DuplicatePolicy::Reject => {
                    return Err(StorageError::DuplicateKey);
                },
                DuplicatePolicy::Overwrite => {
                    return overwrite(tree, key, value);
                },
            }
        },
        Err(StorageError::NotFound) => {},
        Err(e) => {
            return Err(e);
        },
    }
    if !tree.has_room_for(key) {
        return Err(StorageError::IoError);
    }
    proof {
        old(tree).lemma_view();
        tree.lemma_view();
    }
    insert_new(tree, key, value)
}

/// Inserts a key that the tree does not hold, where the store has the
/// pages for it.
fn insert_new(tree: &mut Btree, key: Key, value: Value) -> (r: Result<(), StorageError>)
    requires
        old(tree).wf(),
        !old(tree)@.dom().contains(key),
        old(tree).room_for(key),
    ensures
        r is Ok,
        final(tree).wf(),
        final(tree).spec_fanout() == old(tree).spec_fanout(),
        final(tree).spec_policy() == old(tree).spec_policy(),
        final(tree).pool().spec_page_size() == old(tree).pool().spec_page_size(),
        final(tree).pool().spec_capacity() == old(tree).pool().spec_capacity(),
        final(tree)@ == old(tree)@.insert(key, value),
        old(tree).grew(final(tree), key, value),
{
    let ghost m = tree.nodes();
    let ghost a = tree.pager.allocated();
    let ghost f = tree.spec_fanout();
    let ghost h = tree.height as nat;
    let root = tree.root;
    proof {
        lemma_pages_needed_bound(m, root, h, f, key);
        assert(right_ok(m, root, h));
        assert(lookup(m, root, h, key) is None);
    }
    let out = match insert_rec(
        &mut tree.pager,
        tree.interior_node_count,
        root,
        tree.height,
        key,
        value,
        Ghost(0),
        Ghost(key_limit()),
        Ghost(root_fill(h)),
    ) {
        Ok(o) => o,
        Err(e) => {
            return Err(e);
        },
    };
    let ghost m2 = tree.nodes();
    proof {
        assert(ins_post(m, m2, a, root, h, 0, key_limit(), f, root_fill(h), key, value, out));
        lemma_leaf_ends(m, root, h, 0, key_limit(), f, root_fill(h));
    }
    match out {
        None => {
            proof {
                assert forall|k: Key| lookup(m2, root, h, k) == expected(m, root, h, key, value, k) by {}
                assert(tree@ =~= old(tree)@.insert(key, value));
            }
            Ok(())
        },
        Some(pair) => {
            let new_root = match grow_root(&mut tree.pager, root, pair, Ghost(h), Ghost(f)) {
                Ok(p) => p,
                Err(e) => {
                    return Err(e);
                },
            };
            tree.root = new_root;
            tree.height = tree.height + 1;
            proof {
                let m3 = tree.nodes();
                let h2 = (h + 1) as nat;
                assert forall|k: Key| lookup(m3, new_root, h2, k) == expected(
                    m,
                    root,
                    h,
                    key,
                    value,
                    k,
                ) by {}
                assert(tree@ =~= old(tree)@.insert(key, value));
                let top = m3[new_root];
                assert(top->keys.len() == 1 && top->children.len() == 2);
                assert(top->children[0] == root && top->children[1] == pair.child);
                assert(top->keys[0] == pair.key);
                assert(m3[root] == m2[root]);
                assert(m3[pair.child] == m2[pair.child]);
                assert(m3.remove(new_root) =~= m2);
            }
            Ok(())
        },
    }
}

/// Puts a new root above a root that has split: an internal node with
/// the old root and its new sibling as children.
fn grow_root(
    pager: &mut Pager,
    root: PageId,
    pair: crate::node::InnerNodeInterior,
    Ghost(h): Ghost<nat>,
    Ghost(f): Ghost<int>,
) -> (r: Result<PageId, StorageError>)
    requires
        idle(old(pager)),
        valid_fanout(f, old(pager).spec_page_size() as int),
        old(pager).spare() >= 1,
        0 < pair.key < key_limit(),
        sub_wf(page_nodes(old(pager)), root, h, 0, pair.key as int, f, min_fill(f, h)),
        sub_wf(page_nodes(old(pager)), pair.child, h, pair.key as int, key_limit(), f, min_fill(f, h)),
        links_ok(page_nodes(old(pager)), root, h),
        links_ok(page_nodes(old(pager)), pair.child, h),
        crate::tree_spec::linked(
            page_nodes(old(pager)),
            last_leaf(page_nodes(old(pager)), root, h),
            first_leaf(page_nodes(old(pager)), pair.child, h),
        ),
    ensures
        idle(final(pager)),
        r is Ok,
        final(pager).spec_capacity() == old(pager).spec_capacity(),
        final(pager).spec_page_size() == old(pager).spec_page_size(),
        final(pager).spare() == old(pager).spare() - 1,
        ({
            let m2 = page_nodes(old(pager));
            let m3 = page_nodes(final(pager));
            let top = r->Ok_0;
            let h2 = (h + 1) as nat;
            let ff = first_leaf(m2, root, h);
            let ll = last_leaf(m2, pair.child, h);
            &&& sub_wf(m3, top, h2, 0, key_limit(), f, 2)
            &&& links_ok(m3, top, h2)
            &&& forall|k: Key|
                #![trigger lookup(m3, top, h2, k)]
                lookup(m3, top, h2, k) == if k < pair.key {
                    lookup(m2, root, h, k)
                } else {
                    lookup(m2, pair.child, h, k)
                }
            &&& first_leaf(m3, top, h2) == ff
            &&& last_leaf(m3, top, h2) == ll
            &&& m3[ff] == m2[ff]
            &&& m3[ll] == m2[ll]
            &&& m3 == m2.insert(
                top,
                NodeView::Inner { keys: seq![pair.key], children: seq![root, pair.child] },
            )
            &&& !m2.dom().contains(top)
        }),
{
    let ghost m2 = page_nodes(pager);
    proof {
        crate::node_io::lemma_stored_shape_all(pager);
    }
    let new_root = match alloc_page(pager) {
        Ok(p) => p,
        Err(e) => {
            return Err(e);
        },
    };
    let node = Node::Inner(InnerNode::new(root, pair.key, pair.child));
    match store_node(pager, new_root, &node) {
        Ok(()) => {},
        Err(e) => {
            return Err(e);
        },
    }
    proof {
        let m3 = page_nodes(pager);
        let keys = seq![pair.key];
        let children = seq![root, pair.child];
        let h2 = (h + 1) as nat;
        assert(m3 == m2.insert(new_root, NodeView::Inner { keys, children }));
        assert(vnode_ok(m2, keys, children, h, 0, key_limit(), f, -1)) by {
            assert forall|i: int| 0 <= i < children.len() implies sub_wf(
                m2,
                #[trigger] children[i],
                h,
                lower(keys, i, 0),
                upper(keys, i, key_limit()),
                f,
                child_min(f, h, i, -1),
            ) by {
                if i == 0 {
                    assert(children[i] == root);
                } else {
                    assert(children[i] == pair.child);
                }
            }
            assert forall|i: int| 0 <= i < children.len() implies links_ok(
                m2,
                #[trigger] children[i],
                h,
            ) by {
                if i == 0 {
                    assert(children[i] == root);
                } else {
                    assert(children[i] == pair.child);
                }
            }
        }
        assert forall|p: PageId|
            #![trigger vowns(m2, children, h, p)]
            vowns(m2, children, h, p) implies p != new_root && m3.dom().contains(p) && m3[p]
            == m2[p] by {
            let i = choose|i: int| 0 <= i < children.len() && owns(m2, #[trigger] children[i], h, p);
            lemma_owned_in_dom(
                m2,
                children[i],
                h,
                lower(keys, i, 0),
                upper(keys, i, key_limit()),
                f,
                child_min(f, h, i, -1),
                p,
            );
        }
        lemma_vnode_install(m2, m3, new_root, keys, children, h2, 0, key_limit(), f, 2);
        lemma_leaf_ends(m2, root, h, 0, pair.key as int, f, min_fill(f, h));
        lemma_leaf_ends(m2, pair.child, h, pair.key as int, key_limit(), f, min_fill(f, h));
        assert(vowns(m2, children, h, first_leaf(m2, children[0], h)));
        assert(vowns(m2, children, h, last_leaf(m2, children[1], h)));
        assert forall|k: Key| #![trigger lookup(m3, new_root, h2, k)] lookup(m3, new_root, h2, k)
            == if k < pair.key {
            lookup(m2, root, h, k)
        } else {
            lookup(m2, pair.child, h, k)
        } by {
            if k < pair.key {
                lemma_route_is(keys, k, 0);
            } else {
                lemma_route_is(keys, k, 1);
            }
        }
    }
    Ok(new_root)
}

/// Deletes a key.
///
/// Fails with `NotFound` when the tree does not hold the key; the tree is
/// then as it was. Otherwise the key is gone and every other key is found
/// as before. A node that falls below its minimum borrows an entry from a
/// sibling, the left one first, or is merged with one; the tree loses a
/// level when its root is left with a single child.
pub fn delete(tree: &mut Btree, key: Key) -> (r: Result<(), StorageError>)
    requires
        old(tree).wf(),
    ensures
        old(tree).deleted(final(tree), key, r),
{
    match find(tree, key) {
        Ok(_) => {},
        Err(e) => {
            return Err(e);
        },
    }
    let ghost m = tree.nodes();
    let ghost a = tree.pager.allocated();
    let ghost f = tree.spec_fanout();
    let ghost h = tree.height as nat;
    let root = tree.root;
    proof {
        assert(right_ok(m, root, h));
        assert(lookup(m, root, h, key) is Some);
    }
    match delete_rec(
        &mut tree.pager,
        tree.interior_node_count,
        root,
        tree.height,
        key,
        Ghost(0),
        Ghost(key_limit()),
        Ghost(root_fill(h)),
    ) {
        Ok(()) => {},
        Err(e) => {
            return Err(e);
        },
    }
    let ghost m2 = tree.nodes();
    proof {
        lemma_leaf_ends(m, root, h, 0, key_limit(), f, root_fill(h));
        assert forall|k: Key| lookup(m2, root, h, k) == without(m, root, h, key, k) by {}
    }
    if tree.height > 0 {
        match shrink_root(&mut tree.pager, root, Ghost(h), Ghost(f)) {
            Ok(Some(child)) => {
                tree.root = child;
                tree.height = tree.height - 1;
            },
            Ok(None) => {},
            Err(e) => {
                return Err(e);
            },
        }
    } else {
        proof {
            lemma_min_change(m2, root, h, 0, key_limit(), f, root_fill(h) - 1, root_fill(h));
        }
    }
    proof {
        assert(tree@ =~= old(tree)@.remove(key));
    }
    Ok(())
}

/// Takes out a root that is left with a single child: the child becomes
/// the root and the old root's page is freed. Returns the new root, or
/// `None` when the root has more than one child and stays.
fn shrink_root(pager: &mut Pager, root: PageId, Ghost(h): Ghost<nat>, Ghost(f): Ghost<int>) -> (r: Result<
    Option<PageId>,
    StorageError,
>)
    requires
        idle(old(pager)),
        h > 0,
        f >= 3,
        sub_wf(page_nodes(old(pager)), root, h, 0, key_limit(), f, 1),
        links_ok(page_nodes(old(pager)), root, h),
        forall|p: PageId|
            #![trigger vowns(
                page_nodes(old(pager)),
                page_nodes(old(pager))[root]->children,
                (h - 1) as nat,
                p,
            )]
            vowns(page_nodes(old(pager)), page_nodes(old(pager))[root]->children, (h - 1) as nat, p)
                ==> p != root,
    ensures
        idle(final(pager)),
        r is Ok,
        final(pager).spec_capacity() == old(pager).spec_capacity(),
        final(pager).spec_page_size() == old(pager).spec_page_size(),
        final(pager).spare() >= old(pager).spare(),
        r->Ok_0 is None ==> final(pager).allocated() == old(pager).allocated() && final(pager).spare() == old(pager).spare(),
        r->Ok_0 is Some ==> final(pager).allocated() == old(pager).allocated().remove(root)
            && final(pager).spare() == old(pager).spare() + 1,
        ({
            let m2 = page_nodes(old(pager));
            let m3 = page_nodes(final(pager));
            let ff = first_leaf(m2, root, h);
            let ll = last_leaf(m2, root, h);
            match r->Ok_0 {
                None => {
                    &&& m3 == m2
                    &&& m2[root]->children.len() != 1
                    &&& sub_wf(m2, root, h, 0, key_limit(), f, 2)
                },
                Some(child) => {
                    let h1 = (h - 1) as nat;
                    &&& m3 == m2.remove(root)
                    &&& m2[root]->children.len() == 1
                    &&& child == m2[root]->children[0]
                    &&& sub_wf(m3, child, h1, 0, key_limit(), f, root_fill(h1))
                    &&& links_ok(m3, child, h1)
                    &&& forall|k: Key|
                        #![trigger lookup(m3, child, h1, k)]
                        lookup(m3, child, h1, k) == lookup(m2, root, h, k)
                    &&& first_leaf(m3, child, h1) == ff
                    &&& last_leaf(m3, child, h1) == ll
                    &&& m3[ff] == m2[ff]
                    &&& m3[ll] == m2[ll]
                },
            }
        }),
{
    let ghost m2 = page_nodes(pager);
    let node = match load_node(pager, root) {
        Ok(n) => n,
        Err(e) => {
            return Err(e);
        },
    };
    match node {
        Node::Inner(inner) => {
            if inner.children.len() != 1 {
                return Ok(None);
            }
            let child = inner.children[0];
            match free_page(pager, root) {
                Ok(()) => {},
                Err(e) => {
                    return Err(e);
                },
            }
            proof {
                let m3 = page_nodes(pager);
                let h1 = (h - 1) as nat;
                let keys = inner.keys@;
                let children = inner.children@;
                assert(m3 == m2.remove(root));
                assert(sub_wf(
                    m2,
                    children[0],
                    h1,
                    lower(keys, 0, 0),
                    upper(keys, 0, key_limit()),
                    f,
                    min_fill(f, h1),
                ));
                lemma_min_change(m2, child, h1, 0, key_limit(), f, min_fill(f, h1), root_fill(h1));
                assert forall|p: PageId|
                    #![trigger owns(m2, child, h1, p)]
                    owns(m2, child, h1, p) implies m3.dom().contains(p) && m3[p] == m2[p]
                    && crate::tree_spec::same_payload(m2[p], m3[p]) by {
                    assert(vowns(m2, children, h1, p));
                    lemma_owned_in_dom(m2, child, h1, 0, key_limit(), f, root_fill(h1), p);
                }
                lemma_frame(m2, m3, child, h1, 0, key_limit(), f, root_fill(h1));
                assert(links_ok(m2, children[0], h1));
                lemma_frame_links(m2, m3, child, h1, 0, key_limit(), f, root_fill(h1));
                lemma_leaf_ends(m2, child, h1, 0, key_limit(), f, root_fill(h1));
                assert forall|k: Key|
                    #![trigger lookup(m3, child, h1, k)]
                    lookup(m3, child, h1, k) == lookup(m2, root, h, k) by {
                    lemma_route(keys, k);
                }
            }
            Ok(Some(child))
        },
        Node::Leaf(_) => Err(StorageError::CorruptNode),
    }
}

/// Walks the leaf chain from the leftmost leaf to the right and returns
/// every entry on the way.
pub fn scan(tree: &mut Btree) -> (r: Result<Vec<LeafNodeInterior>, StorageError>)
    requires
        old(tree).wf(),
    ensures
        old(tree).scanned(final(tree), r),
{
    let ghost m = tree.nodes();
    let ghost f = tree.spec_fanout();
    let ghost root = tree.spec_root();
    let ghost height = tree.spec_height();
    let ghost ls = leaves(m, root, height);
    proof {
        lemma_leaves_chained(m, root, height, 0, key_limit(), f, root_fill(height));
        lemma_in_order(m, root, height, 0, key_limit(), f, root_fill(height));
    }
    let mut id = tree.root;
    let mut h = tree.height;
    let ghost mut hi: int = key_limit();
    let ghost mut min: int = root_fill(height);
    while h > 0
        invariant
            old(tree).wf(),
            idle(&tree.pager),
            forall|p: PageId|
                #![trigger tree.pager.is_dirty(p)]
                tree.pager.is_dirty(p) ==> old(tree).pool().is_dirty(p),
            page_nodes(&tree.pager) == m,
            tree.same_tree(old(tree)),
            m == old(tree).nodes(),
            f == old(tree).spec_fanout(),
            root == old(tree).spec_root(),
            height == old(tree).spec_height(),
            sub_wf(m, id, h as nat, 0, hi, f, min),
            first_leaf(m, id, h as nat) == first_leaf(m, root, height),
        decreases h,
    {
        let ghost before = tree.pager;
        let loaded = load_node(&mut tree.pager, id);
        proof {
            assert forall|p: PageId|
                #![trigger tree.pager.is_dirty(p)]
                tree.pager.is_dirty(p) implies old(tree).pool().is_dirty(p) by {
                assert(before.is_dirty(p));
            }
        }
        let node = match loaded {
            Ok(n) => n,
            Err(e) => {
                return Err(e);
            },
        };
        match node {
            Node::Inner(inner) => {
                proof {
                    hi = upper(inner.keys@, 0, hi);
                    min = min_fill(f, (h - 1) as nat);
                }
                id = inner.children[0];
                h = h - 1;
            },
            Node::Leaf(_) => {
                return Err(StorageError::CorruptNode);
            },
        }
    }
    let mut out: Vec<LeafNodeInterior> = Vec::new();
    let ghost mut i: int = 0;
    proof {
        lemma_leaf_ends(m, id, 0, 0, hi, f, min);
        assert(ls.subrange(0, 0) =~= Seq::<PageId>::empty());
    }
    loop
        invariant
            old(tree).wf(),
            idle(&tree.pager),
            forall|p: PageId|
                #![trigger tree.pager.is_dirty(p)]
                tree.pager.is_dirty(p) ==> old(tree).pool().is_dirty(p),
            page_nodes(&tree.pager) == m,
            tree.same_tree(old(tree)),
            m == old(tree).nodes(),
            root == old(tree).spec_root(),
            height == old(tree).spec_height(),
            ls == leaves(m, root, height),
            chained(m, ls),
            ls.last() == last_leaf(m, root, height),
            0 <= i < ls.len(),
            id == ls[i],
            out@ == chain_entries(m, ls.subrange(0, i)),
        decreases ls.len() - i,
    {
        let ghost before = tree.pager;
        let loaded = load_node(&mut tree.pager, id);
        proof {
            assert forall|p: PageId|
                #![trigger tree.pager.is_dirty(p)]
                tree.pager.is_dirty(p) implies old(tree).pool().is_dirty(p) by {
                assert(before.is_dirty(p));
            }
        }
        let node = match loaded {
            Ok(n) => n,
            Err(e) => {
                return Err(e);
            },
        };
        match node {
            Node::Leaf(mut leaf) => {
                let right = leaf.right_sibling;
                out.append(&mut leaf.entries);
                proof {
                    let upto = ls.subrange(0, i + 1);
                    assert(upto.drop_last() =~= ls.subrange(0, i));
                    assert(upto.last() == ls[i]);
                    assert(out@ == chain_entries(m, upto));
                }
                match right {
                    Some(next) => {
                        proof {
                            if i == ls.len() - 1 {
                                assert(ls[i] == ls.last());
                            }
                            i = i + 1;
                        }
                        id = next;
                    },
                    None => {
                        proof {
                            if i < ls.len() - 1 {
                                assert(m[ls[i]]->right == Some(ls[i + 1]));
                            }
                            assert(ls.subrange(0, i + 1) =~= ls);
                            let e = entries_in_order(m, root, height);
                            lemma_in_order(
                                m,
                                root,
                                height,
                                0,
                                key_limit(),
                                old(tree).spec_fanout(),
                                root_fill(height),
                            );
                            assert forall|k: Key|
                                #![trigger old(tree)@.dom().contains(k)]
                                old(tree)@.dom().contains(k) == has_key(e, k) by {
                                assert(leaf_get(e, k) == lookup(m, root, height, k));
                            }
                            assert forall|x: int| 0 <= x < e.len() implies old(tree)@.dom().contains(
                                (#[trigger] e[x]).key,
                            ) && old(tree)@[e[x].key] == e[x].value by {
                                crate::tree_spec::lemma_leaf_get_at(e, x);
                                assert(leaf_get(e, e[x].key) == lookup(m, root, height, e[x].key));
                            }
                        }
                        return Ok(out);
                    },
                }
            },
            Node::Inner(_) => {
                return Err(StorageError::CorruptNode);
            },
        }
    }
}

/// Gives a key that the tree holds another value.
fn overwrite(tree: &mut Btree, key: Key, value: Value) -> (r: Result<(), StorageError>)
    requires
        old(tree).wf(),
        old(tree)@.dom().contains(key),
        old(tree).spec_policy() == DuplicatePolicy::Overwrite,
    ensures
        r is Ok,
        old(tree).inserted(final(tree), key, value, r),
{
    let ghost m = tree.nodes();
    let ghost f = tree.spec_fanout();
    let ghost h = tree.height as nat;
    let root = tree.root;
    proof {
        assert(right_ok(m, root, h));
        assert(lookup(m, root, h, key) is Some);
    }
    match update_rec(
        &mut tree.pager,
        tree.interior_node_count,
        root,
        tree.height,
        key,
        value,
        Ghost(0),
        Ghost(key_limit()),
        Ghost(root_fill(h)),
    ) {
        Ok(()) => {},
        Err(e) => {
            return Err(e);
        },
    }
    proof {
        let m2 = tree.nodes();
        lemma_leaf_ends(m, root, h, 0, key_limit(), f, root_fill(h));
        assert forall|k: Key| lookup(m2, root, h, k) == expected(m, root, h, key, value, k) by {}
        assert(tree@ =~= old(tree)@.insert(key, value));
    }
    Ok(())
}

} // verus!
