//! How the tree reaches its nodes: every node is read from and written to
//! its page through the buffer pool, one page at a time.

use vstd::prelude::*;
use crate::error::StorageError;
use crate::node::{decode, encodable, encode, lemma_zero_page_decodes_to_none, Node, spec_decode};
use crate::os_interface::PageId;
use crate::pager::Pager;
use crate::tree_spec::Nodes;

verus! {

/// The nodes that the allocated pages of a pool hold.
pub open spec fn page_nodes(pager: &Pager) -> Nodes {
    Map::new(
        |id: PageId| pager.allocated().contains(id) && spec_decode(pager.content(id)) is Some,
        |id: PageId| spec_decode(pager.content(id))->Some_0,
    )
}

/// Every node of the pool can be encoded in a page, and its page is
/// allocated and is not page 0.
pub proof fn lemma_stored_shape(pager: &Pager, id: PageId)
    requires
        pager.wf(),
        page_nodes(pager).dom().contains(id),
    ensures
        encodable(page_nodes(pager)[id], pager.spec_page_size() as int),
        pager.allocated().contains(id),
        id != 0,
{
    pager.lemma_wf();
}

/// Every node of the pool is in an allocated page.
pub proof fn lemma_stored_shape_all(pager: &Pager)
    requires
        pager.wf(),
    ensures
        forall|id: PageId|
            #![trigger page_nodes(pager).dom().contains(id)]
            page_nodes(pager).dom().contains(id) ==> pager.allocated().contains(id),
{
}

/// A pool between two operations of the tree: well formed, with a frame
/// to work in and no page pinned.
pub open spec fn idle(pager: &Pager) -> bool {
    &&& pager.wf()
    &&& pager.unpinned()
    &&& pager.spec_capacity() >= 1
}

/// An idle pool can always bring in one more page.
pub proof fn lemma_idle_has_room(pager: &Pager)
    requires
        idle(pager),
    ensures
        pager.has_room(),
{
    pager.lemma_wf();
    let r = pager.resident();
    if r.len() >= pager.spec_capacity() {
        assert(pager.pins(r[0]) == 0);
    }
}

/// Reads the node of a page, in any state of the pool.
///
/// Fails with `PageNotFound` when the page is not allocated and with
/// `PoolExhausted` when it cannot be fetched; the pool is then exactly as
/// it was. A page that holds no node is reported as `CorruptNode`. Either
/// way no page's contents or pin count change, no page becomes dirty, no
/// pinned page is moved, and what could be fetched before can be fetched
/// afterwards. In an idle pool the call fails for no other reason than
/// that the page holds no node.
pub fn load_node(pager: &mut Pager, id: PageId) -> (r: Result<Node, StorageError>)
    requires
        old(pager).wf(),
    ensures
        final(pager).wf(),
        final(pager).same_pages(old(pager)),
        page_nodes(final(pager)) == page_nodes(old(pager)),
        forall|p: PageId| #![trigger final(pager).pins(p)] final(pager).pins(p) == old(pager).pins(p),
        forall|p: PageId|
            #![trigger final(pager).is_dirty(p)]
            final(pager).is_dirty(p) ==> old(pager).is_dirty(p),
        forall|p: PageId|
            #![trigger final(pager).is_resident(p)]
            old(pager).pins(p) > 0 ==> final(pager).is_resident(p) && final(pager).is_dirty(p)
                == old(pager).is_dirty(p),
        forall|p: PageId|
            #![trigger final(pager).fetchable(p)]
            final(pager).fetchable(p) == old(pager).fetchable(p),
        r is Ok <==> old(pager).fetchable(id) && spec_decode(old(pager).content(id)) is Some,
        r is Ok ==> r->Ok_0@ == spec_decode(old(pager).content(id))->Some_0,
        r is Ok ==> r->Ok_0@ == page_nodes(old(pager))[id],
        r is Ok ==> encodable(r->Ok_0@, old(pager).spec_page_size() as int),
        r is Err ==> r->Err_0 == if !old(pager).allocated().contains(id) {
            StorageError::PageNotFound
        } else if !old(pager).fetchable(id) {
            StorageError::PoolExhausted
        } else {
            StorageError::CorruptNode
        },
        r is Err && r->Err_0 != StorageError::CorruptNode ==> *final(pager) == *old(pager),
        idle(old(pager)) ==> idle(final(pager)),
        idle(old(pager)) ==> (r is Ok <==> page_nodes(old(pager)).dom().contains(id)),
{
    proof {
        pager.lemma_wf();
        if idle(pager) {
            lemma_idle_has_room(pager);
        }
    }
    match pager.touch(id) {
        Ok(()) => {},
        Err(e) => {
            return Err(e);
        },
    }
    let decoded = match pager.resident_data(id) {
        Some(bytes) => decode(bytes),
        None => None,
    };
    proof {
        assert(page_nodes(final(pager)) =~= page_nodes(old(pager)));
    }
    match decoded {
        Some(node) => Ok(node),
        None => Err(StorageError::CorruptNode),
    }
}

/// Writes a node into its page.
///
/// Succeeds exactly when the page is allocated and the node can be
/// encoded in a page; a node that cannot is reported as `CorruptNode`,
/// and nothing is written.
pub fn store_node(pager: &mut Pager, id: PageId, node: &Node) -> (r: Result<(), StorageError>)
    requires
        idle(old(pager)),
    ensures
        idle(final(pager)),
        final(pager).allocated() == old(pager).allocated(),
        final(pager).spare() == old(pager).spare(),
        final(pager).spec_capacity() == old(pager).spec_capacity(),
        final(pager).spec_page_size() == old(pager).spec_page_size(),
        r is Ok <==> old(pager).allocated().contains(id) && encodable(
            node@,
            old(pager).spec_page_size() as int,
        ),
        r is Ok ==> page_nodes(final(pager)) == page_nodes(old(pager)).insert(id, node@),
        r is Err ==> page_nodes(final(pager)) == page_nodes(old(pager)) && r->Err_0 == if old(
            pager,
        ).allocated().contains(id) {
            StorageError::CorruptNode
        } else {
            StorageError::PageNotFound
        },
{
    proof {
        lemma_idle_has_room(pager);
    }
    let bytes = match encode(node, pager.page_size()) {
        Some(b) => b,
        None => {
            if pager.is_allocated(id) {
                return Err(StorageError::CorruptNode);
            } else {
                return Err(StorageError::PageNotFound);
            }
        },
    };
    let handle = match pager.fetch(id) {
        Ok(h) => h,
        Err(e) => {
            return Err(e);
        },
    };
    let ghost mid = *pager;
    let w = pager.write(handle, &bytes);
    pager.mark_dirty(handle);
    pager.release(handle);
    proof {
        assert(page_nodes(final(pager)) =~= page_nodes(old(pager)).insert(id, node@));
    }
    w
}

/// Allocates a page for a new node. The page holds no node yet.
pub fn alloc_page(pager: &mut Pager) -> (r: Result<PageId, StorageError>)
    requires
        idle(old(pager)),
    ensures
        idle(final(pager)),
        final(pager).spec_capacity() == old(pager).spec_capacity(),
        final(pager).spec_page_size() == old(pager).spec_page_size(),
        page_nodes(final(pager)) == page_nodes(old(pager)),
        r is Ok <==> old(pager).spare() > 0,
        r is Err ==> r->Err_0 == StorageError::IoError && final(pager).same_pages(old(pager)),
        r is Ok ==> {
            &&& r->Ok_0 != 0
            &&& r->Ok_0 == old(pager).next_id()
            &&& !old(pager).allocated().contains(r->Ok_0)
            &&& final(pager).allocated() == old(pager).allocated().insert(r->Ok_0)
            &&& final(pager).spare() == old(pager).spare() - 1
        },
{
    proof {
        lemma_idle_has_room(pager);
        lemma_zero_page_decodes_to_none(pager.spec_page_size());
    }
    let (id, handle) = match pager.allocate() {
        Ok(pair) => pair,
        Err(e) => {
            return Err(e);
        },
    };
    pager.release(handle);
    proof {
        assert(page_nodes(final(pager)) =~= page_nodes(old(pager)));
    }
    Ok(id)
}

/// Gives a node's page back to the pool.
pub fn free_page(pager: &mut Pager, id: PageId) -> (r: Result<(), StorageError>)
    requires
        idle(old(pager)),
    ensures
        idle(final(pager)),
        final(pager).spec_capacity() == old(pager).spec_capacity(),
        final(pager).spec_page_size() == old(pager).spec_page_size(),
        r is Ok <==> old(pager).allocated().contains(id),
        r is Err ==> r->Err_0 == StorageError::PageNotFound && *final(pager) == *old(pager),
        r is Ok ==> {
            &&& final(pager).allocated() == old(pager).allocated().remove(id)
            &&& final(pager).spare() == old(pager).spare() + 1
            &&& page_nodes(final(pager)) == page_nodes(old(pager)).remove(id)
        },
{
    let r = pager.free(id);
    proof {
        if r is Ok {
            assert(page_nodes(final(pager)) =~= page_nodes(old(pager)).remove(id));
            assert forall|p: PageId| final(pager).pins(p) == 0 by {
                if p == id {
                    final(pager).lemma_wf();
                    assert(!final(pager).allocated().contains(p));
                }
            }
        }
    }
    r
}

} // verus!
