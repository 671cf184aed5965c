//! What holds of find, insert and delete taken together, proved from
//! their contracts.

use vstd::prelude::*;
use crate::btree::{lemma_descend_same, Btree};
use crate::error::StorageError;
use crate::node::{Key, LeafNodeInterior, Value};
use crate::os_interface::{lemma_image_index, MemoryStore, spec_image};
use crate::tree_spec::{min_inner, min_leaf};

verus! {

/// One operation that changes a tree.
pub enum Operation {
    Insert { key: Key, value: Value },
    Delete { key: Key },
}

/// `after` is what the operation makes of `before`, whatever it returns.
pub open spec fn step(before: &Btree, after: &Btree, op: Operation) -> bool {
    match op {
        Operation::Insert { key, value } => exists|r: Result<(), StorageError>|
            before.inserted(after, key, value, r),
        Operation::Delete { key } => exists|r: Result<(), StorageError>| before.deleted(after, key, r),
    }
}

/// `trees` are the states that a tree goes through when the entries,
/// whose keys all differ, are inserted one after the other, each with
/// success.
pub open spec fn inserted_in_turn(trees: Seq<Btree>, entries: Seq<LeafNodeInterior>) -> bool {
    &&& trees.len() == entries.len() + 1
    &&& trees[0].wf()
    &&& forall|i: int, j: int|
        0 <= i < j < entries.len() ==> (#[trigger] entries[i]).key != (#[trigger] entries[j]).key
    &&& forall|j: int, n: int|
        #![trigger trees[j], trees[n]]
        0 <= j < entries.len() && n == j + 1 ==> trees[j].inserted(
            &trees[n],
            entries[j].key,
            entries[j].value,
            Ok(()),
        )
}

/// Entries that were inserted in turn are all in the tree from then on.
pub proof fn lemma_inserted_stays(trees: Seq<Btree>, entries: Seq<LeafNodeInterior>, i: int, n: int)
    requires
        inserted_in_turn(trees, entries),
        0 <= i < n <= entries.len(),
    ensures
        trees[n]@.dom().contains(entries[i].key),
        trees[n]@[entries[i].key] == entries[i].value,
        trees[n].wf(),
    decreases n - i,
{
    let p = n - 1;
    assert(trees[p].inserted(&trees[n], entries[p].key, entries[p].value, Ok(())));
    if p > i {
        lemma_inserted_stays(trees, entries, i, p);
    }
}

/// After any sequence of successful inserts, a find for any of the
/// inserted keys returns the value that was inserted with it.
pub proof fn law_inserted_keys_are_found(
    trees: Seq<Btree>,
    entries: Seq<LeafNodeInterior>,
    i: int,
    probed: Btree,
    r: Result<Value, StorageError>,
)
    requires
        inserted_in_turn(trees, entries),
        0 <= i < entries.len(),
        trees.last().found(&probed, entries[i].key, r),
    ensures
        r == Ok::<Value, StorageError>(entries[i].value),
{
    lemma_inserted_stays(trees, entries, i, entries.len() as int);
}

/// A key that was neither in the tree at first nor among the inserted
/// keys is not in the tree after the inserts.
pub proof fn lemma_others_stay_out(trees: Seq<Btree>, entries: Seq<LeafNodeInterior>, key: Key, n: int)
    requires
        inserted_in_turn(trees, entries),
        !trees[0]@.dom().contains(key),
        forall|j: int| 0 <= j < entries.len() ==> (#[trigger] entries[j]).key != key,
        0 <= n <= entries.len(),
    ensures
        !trees[n]@.dom().contains(key),
        trees[n].wf(),
    decreases n,
{
    if n > 0 {
        let p = n - 1;
        lemma_others_stay_out(trees, entries, key, p);
        assert(trees[p].inserted(&trees[n], entries[p].key, entries[p].value, Ok(())));
        assert(entries[p].key != key);
    }
}

/// After any sequence of successful inserts, a find for a key that was
/// never inserted returns `NotFound`.
pub proof fn law_other_keys_are_not_found(
    trees: Seq<Btree>,
    entries: Seq<LeafNodeInterior>,
    key: Key,
    probed: Btree,
    r: Result<Value, StorageError>,
)
    requires
        inserted_in_turn(trees, entries),
        !trees[0]@.dom().contains(key),
        forall|j: int| 0 <= j < entries.len() ==> (#[trigger] entries[j]).key != key,
        trees.last().found(&probed, key, r),
    ensures
        r == Err::<Value, StorageError>(StorageError::NotFound),
{
    lemma_others_stay_out(trees, entries, key, entries.len() as int);
}

/// An insert with a key that the tree does not hold succeeds while the
/// store has room, whatever the policy for duplicates.
pub proof fn law_unique_keys_are_accepted(
    before: Btree,
    after: Btree,
    key: Key,
    value: Value,
    r: Result<(), StorageError>,
)
    requires
        before.wf(),
        before.inserted(&after, key, value, r),
        !before@.dom().contains(key),
        before.room_for(key),
    ensures
        r is Ok,
        after@.dom().contains(key),
        after@[key] == value,
{
}

/// After any sequence of inserts and deletes, whatever each of them
/// returned, the tree is well formed: every node within its bounds, all
/// leaves at one depth, keys in order within and across the nodes, and
/// the leaves chained in key order.
pub proof fn law_operations_keep_the_tree_well_formed(trees: Seq<Btree>, ops: Seq<Operation>, n: int)
    requires
        trees.len() == ops.len() + 1,
        trees[0].wf(),
        forall|j: int, k: int|
            #![trigger trees[j], trees[k]]
            0 <= j < ops.len() && k == j + 1 ==> step(&trees[j], &trees[k], ops[j]),
        0 <= n <= ops.len(),
    ensures
        trees[n].wf(),
        trees[n].spec_fanout() == trees[0].spec_fanout(),
    decreases n,
{
    if n > 0 {
        let p = n - 1;
        law_operations_keep_the_tree_well_formed(trees, ops, p);
        assert(step(&trees[p], &trees[n], ops[p]));
    }
}

/// Inserting a key that the tree does not hold and then deleting it gives
/// back a tree that holds what it held before the insert, finds for
/// every key what it found before, and is well formed.
pub proof fn law_insert_then_delete_restores(
    before: Btree,
    mid: Btree,
    after: Btree,
    key: Key,
    value: Value,
    r: Result<(), StorageError>,
)
    requires
        before.wf(),
        !before@.dom().contains(key),
        before.inserted(&mid, key, value, Ok(())),
        mid.deleted(&after, key, r),
    ensures
        r is Ok,
        after.wf(),
        after@ == before@,
        forall|k: Key, p1: Btree, p2: Btree, r1: Result<Value, StorageError>, r2: Result<Value, StorageError>|
            #![trigger before.found(&p1, k, r1), after.found(&p2, k, r2)]
            before.found(&p1, k, r1) && after.found(&p2, k, r2) ==> r1 == r2,
{
    assert(after@ =~= before@);
}

/// Deleting a key that the tree does not hold returns `NotFound` and
/// leaves the tree as it was; doing so again changes nothing either.
pub proof fn law_failed_delete_changes_nothing(
    before: Btree,
    after: Btree,
    again: Btree,
    key: Key,
    r: Result<(), StorageError>,
    r2: Result<(), StorageError>,
)
    requires
        before.wf(),
        !before@.dom().contains(key),
        before.deleted(&after, key, r),
        after.deleted(&again, key, r2),
    ensures
        r == Err::<(), StorageError>(StorageError::NotFound),
        after.same_tree(&before),
        after@ == before@,
        r2 == r,
        again.same_tree(&before),
{
}

/// Reopening the store of a closed tree gives back the identical tree:
/// the same nodes in the same pages under the same root, and so the same
/// keys with the same values.
pub proof fn law_reopen_gives_the_tree_back(
    before: Btree,
    store: MemoryStore,
    capacity: usize,
    r: Result<Btree, StorageError>,
)
    requires
        before.wf(),
        before.closed_as(&store),
        Btree::reopened(&store, capacity, r),
    ensures
        r is Ok,
        r->Ok_0.wf(),
        r->Ok_0.nodes() == before.nodes(),
        r->Ok_0.spec_root() == before.spec_root(),
        r->Ok_0.spec_height() == before.spec_height(),
        r->Ok_0.spec_fanout() == before.spec_fanout(),
        r->Ok_0@ == before@,
{
    before.lemma_view();
    r->Ok_0.lemma_view();
}

/// A store that is made from the image of another store has the pages of
/// that store.
pub proof fn law_image_gives_the_store_back(store: MemoryStore, again: MemoryStore)
    requires
        store.wf(),
        again.wf(),
        again.spec_page_size() == store.spec_page_size(),
        again@.len() == store@.len(),
        spec_image(again@, again.spec_page_size() as int) == spec_image(
            store@,
            store.spec_page_size() as int,
        ),
    ensures
        again@ == store@,
{
    let ps = store.spec_page_size() as int;
    store.lemma_wf();
    again.lemma_wf();
    assert forall|i: int| 0 <= i < store@.len() implies again@[i] == store@[i] by {
        assert forall|j: int| 0 <= j < ps implies again@[i][j] == store@[i][j] by {
            lemma_image_index(i, j, ps);
            let k = i * ps + j;
            assert(k < store@.len() * ps) by (nonlinear_arith)
                requires
                    k < (i + 1) * ps,
                    i + 1 <= store@.len(),
                    ps > 0,
            ;
            assert(spec_image(again@, ps)[k] == again@[i][j]);
            assert(spec_image(store@, ps)[k] == store@[i][j]);
        }
        assert(again@[i] =~= store@[i]);
    }
    assert(again@ =~= store@);
}

/// A find that is repeated returns what it returned before, whatever the
/// state of the pool and of the pages: the first find leaves the pages
/// with their contents, and what could be fetched can still be fetched.
pub proof fn law_find_can_be_repeated(
    before: Btree,
    mid: Btree,
    after: Btree,
    key: Key,
    r1: Result<Value, StorageError>,
    r2: Result<Value, StorageError>,
)
    requires
        before.found(&mid, key, r1),
        mid.found(&after, key, r2),
    ensures
        r1 == r2,
        after.same_tree(&before),
        forall|p: crate::os_interface::PageId|
            #![trigger after.pool().pins(p)]
            after.pool().pins(p) == before.pool().pins(p),
        forall|p: crate::os_interface::PageId|
            #![trigger after.pool().is_dirty(p)]
            after.pool().is_dirty(p) ==> before.pool().is_dirty(p),
{
    assert forall|p: crate::os_interface::PageId|
        #![trigger mid.pool().content(p)]
        mid.pool().allocated().contains(p) implies mid.pool().content(p) == before.pool().content(
        p,
    ) by {}
    lemma_descend_same(
        mid.pool(),
        before.pool(),
        before.spec_root(),
        before.spec_height(),
        0,
        crate::tree_spec::key_limit(),
        before.spec_fanout(),
        crate::tree_spec::root_fill(before.spec_height()),
        key,
    );
    assert forall|p: crate::os_interface::PageId|
        #![trigger after.pool().is_dirty(p)]
        after.pool().is_dirty(p) implies before.pool().is_dirty(p) by {
        assert(mid.pool().is_dirty(p));
    }
}

/// With an even fanout the minimum of a leaf and of an internal node are
/// both half the fanout; with an odd fanout a leaf may hold one entry
/// less than an internal node has children, which is what the halves of a
/// split leaf come to.
pub proof fn law_minimum_fill(f: int)
    requires
        f >= 0,
    ensures
        f % 2 == 0 ==> min_leaf(f) == min_inner(f) && 2 * min_leaf(f) == f,
        f % 2 == 1 ==> min_leaf(f) + 1 == min_inner(f) && 2 * min_leaf(f) + 1 == f,
        min_leaf(f) == f - (f + 1) / 2,
{
}

} // verus!
