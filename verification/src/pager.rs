//! The buffer pool: a bounded set of page frames over the store. Pages are
//! fetched into frames and pinned while in use; when the pool is full the
//! least recently used unpinned page makes room, and is written back first
//! if it is dirty.

use vstd::prelude::*;
use crate::error::StorageError;
use crate::node::{get_word, put_word, word};
use crate::os_interface::{copy_page, MemoryStore, new_page, PageId, zero_page};

verus! {

/// Names a pinned page of the pool. A handle is valid for as long as its
/// page stays pinned.
#[derive(Debug, Clone, Copy, PartialEq, Eq, Structural)]
pub struct PageHandle {
    pub page_id: PageId,
}

/// The word that marks page 0 of a store as metadata of this engine.
pub const MAGIC: u64 = 0x4254_5245_4531;

/// What page 0 of a store records about the tree in it.
#[derive(Debug, Clone, Copy, PartialEq, Eq, Structural)]
pub struct Header {
    /// The page of the root.
    pub root: PageId,
    /// The number of levels above the leaves.
    pub height: u64,
    /// The fanout.
    pub fanout: u64,
}

/// The tree metadata that a metadata page holds, if it is one: word 0 is
/// the magic number, word 1 the page size, words 2 to 4 the root, the
/// height and the fanout.
pub open spec fn spec_header(page: Seq<u8>) -> Option<Header> {
    if page.len() >= 56 && word(page, 0) == MAGIC && word(page, 1) == page.len() {
        Some(Header { root: word(page, 2), height: word(page, 3), fanout: word(page, 4) })
    } else {
        None
    }
}

/// The head of the free list that a metadata page records: word 5.
pub open spec fn spec_free_head(page: Seq<u8>) -> PageId {
    word(page, 5)
}

/// The length of the free list that a metadata page records: word 6.
pub open spec fn spec_free_count(page: Seq<u8>) -> u64 {
    word(page, 6)
}

/// The free pages that are chained from `head` on, each page naming the
/// next in its first word and 0 ending the chain; `None` when the chain
/// leaves the store or is longer than `fuel`.
pub open spec fn free_chain(pages: Seq<Seq<u8>>, head: PageId, fuel: nat) -> Option<Seq<PageId>>
    decreases fuel,
{
    if head == 0 {
        Some(Seq::empty())
    } else if fuel == 0 || head >= pages.len() {
        None
    } else {
        match free_chain(pages, word(pages[head as int], 0), (fuel - 1) as nat) {
            Some(rest) => Some(seq![head] + rest),
            None => None,
        }
    }
}

/// Every page of a free chain is a page of the store other than page 0,
/// and the chain is no longer than the fuel.
pub proof fn lemma_free_chain_in_store(pages: Seq<Seq<u8>>, head: PageId, fuel: nat)
    requires
        free_chain(pages, head, fuel) is Some,
    ensures
        free_chain(pages, head, fuel)->Some_0.len() <= fuel,
        forall|i: int|
            0 <= i < free_chain(pages, head, fuel)->Some_0.len() ==> 1 <= #[trigger] free_chain(
                pages,
                head,
                fuel,
            )->Some_0[i] < pages.len(),
    decreases fuel,
{
    if head != 0 {
        lemma_free_chain_in_store(pages, word(pages[head as int], 0), (fuel - 1) as nat);
    }
}

/// A free chain is what it is whatever the pages outside it hold.
pub proof fn lemma_free_chain_frame(pages: Seq<Seq<u8>>, pages2: Seq<Seq<u8>>, head: PageId, fuel: nat)
    requires
        free_chain(pages, head, fuel) is Some,
        pages2.len() == pages.len(),
        forall|i: int|
            0 <= i < free_chain(pages, head, fuel)->Some_0.len() ==> word(
                pages2[(#[trigger] free_chain(pages, head, fuel)->Some_0[i]) as int],
                0,
            ) == word(pages[free_chain(pages, head, fuel)->Some_0[i] as int], 0),
    ensures
        free_chain(pages2, head, fuel) == free_chain(pages, head, fuel),
    decreases fuel,
{
    if head != 0 {
        let c = free_chain(pages, head, fuel)->Some_0;
        let next = word(pages[head as int], 0);
        let rest = free_chain(pages, next, (fuel - 1) as nat)->Some_0;
        assert(c[0] == head);
        assert forall|i: int| 0 <= i < rest.len() implies word(
            pages2[(#[trigger] rest[i]) as int],
            0,
        ) == word(pages[rest[i] as int], 0) by {
            assert(c[i + 1] == rest[i]);
        }
        lemma_free_chain_frame(pages, pages2, next, (fuel - 1) as nat);
    }
}

/// One resident page.
pub struct Frame {
    page_id: PageId,
    data: Vec<u8>,
    pins: usize,
    dirty: bool,
}

/// The buffer pool together with the store that it caches.
pub struct Pager {
    store: MemoryStore,
    capacity: usize,
    /// Resident pages, least recently used first.
    frames: Vec<Frame>,
    /// Freed pages, reused last in, first out.
    free_list: Vec<PageId>,
}

impl Pager {
    /// The resident pages, least recently used first.
    pub closed spec fn resident(&self) -> Seq<PageId> {
        Seq::new(self.frames@.len(), |i: int| self.frames@[i].page_id)
    }

    /// Whether the page is in a frame.
    pub closed spec fn is_resident(&self, id: PageId) -> bool {
        self.resident().contains(id)
    }

    spec fn slot(&self, id: PageId) -> int {
        choose|i: int| 0 <= i < self.frames@.len() && self.frames@[i].page_id == id
    }

    /// How many handles to the page are outstanding.
    pub closed spec fn pins(&self, id: PageId) -> nat {
        if self.is_resident(id) {
            self.frames@[self.slot(id)].pins as nat
        } else {
            0
        }
    }

    /// Whether the page's frame differs from what the store holds.
    pub closed spec fn is_dirty(&self, id: PageId) -> bool {
        self.is_resident(id) && self.frames@[self.slot(id)].dirty
    }

    /// What the store holds for the page.
    pub closed spec fn stored(&self, id: PageId) -> Seq<u8> {
        self.store@[id as int]
    }

    /// What the page holds as its users see it: the frame if the page is
    /// resident, else the store's copy.
    pub closed spec fn content(&self, id: PageId) -> Seq<u8> {
        if self.is_resident(id) {
            self.frames@[self.slot(id)].data@
        } else {
            self.store@[id as int]
        }
    }

    /// The pages that are in use: handed out by `allocate` and not freed
    /// since.
    pub closed spec fn allocated(&self) -> Set<PageId> {
        Set::new(
            |id: PageId| 1 <= id < self.store@.len() && !self.free_list@.contains(id),
        )
    }

    /// How many more pages can be allocated.
    pub closed spec fn spare(&self) -> nat {
        (self.free_list@.len() + self.store.spec_max_pages() - self.store@.len()) as nat
    }

    /// The identifier that the next allocation hands out.
    pub closed spec fn next_id(&self) -> PageId {
        if self.free_list@.len() > 0 {
            self.free_list@.last()
        } else {
            self.store@.len() as u64
        }
    }

    /// The number of frames.
    pub closed spec fn spec_capacity(&self) -> nat {
        self.capacity as nat
    }

    /// The size of every page, in bytes.
    pub closed spec fn spec_page_size(&self) -> nat {
        self.store.spec_page_size()
    }

    /// The unpinned page that was used least recently, if any page is
    /// unpinned: the one that the next eviction removes.
    pub open spec fn lru_unpinned(&self) -> Option<PageId> {
        let r = self.resident();
        if exists|i: int| 0 <= i < r.len() && self.pins(r[i]) == 0 {
            Some(r[self.lru_unpinned_index()])
        } else {
            None
        }
    }

    /// The position in `resident` of the page that `lru_unpinned` names.
    pub open spec fn lru_unpinned_index(&self) -> int {
        let r = self.resident();
        choose|i: int|
            0 <= i < r.len() && self.pins(r[i]) == 0 && forall|j: int|
                0 <= j < i ==> self.pins(#[trigger] r[j]) > 0
    }

    /// Whether a page that is not resident can be brought in: a frame is
    /// empty, or some resident page is unpinned.
    pub open spec fn has_room(&self) -> bool {
        self.resident().len() < self.spec_capacity() || self.lru_unpinned() is Some
    }

    /// The resident pages once room has been made for one more: unchanged
    /// while a frame is empty, else without the least recently used
    /// unpinned page.
    pub open spec fn resident_after_room(&self) -> Seq<PageId> {
        if self.resident().len() < self.spec_capacity() {
            self.resident()
        } else {
            self.resident().remove(self.lru_unpinned_index())
        }
    }

    /// Whether a fetch of the page succeeds: the page is allocated, and
    /// either it is resident and its pin count can grow, or a frame can
    /// be had for it.
    pub open spec fn fetchable(&self, id: PageId) -> bool {
        &&& self.allocated().contains(id)
        &&& if self.is_resident(id) {
            self.pins(id) < usize::MAX
        } else {
            self.has_room()
        }
    }

    /// No page is pinned.
    pub open spec fn unpinned(&self) -> bool {
        forall|p: PageId| self.pins(p) == 0
    }

    /// Two states hold the same pages with the same contents, and have the
    /// same configuration and the same room left to allocate.
    pub open spec fn same_pages(&self, other: &Pager) -> bool {
        &&& self.allocated() == other.allocated()
        &&& self.spare() == other.spare()
        &&& self.next_id() == other.next_id()
        &&& self.spec_capacity() == other.spec_capacity()
        &&& self.spec_page_size() == other.spec_page_size()
        &&& forall|p: PageId|
            #![trigger self.content(p)]
            self.allocated().contains(p) ==> self.content(p) == other.content(p)
    }

    spec fn distinct(&self) -> bool {
        forall|i: int, j: int|
            0 <= i < self.frames@.len() && 0 <= j < self.frames@.len() && i != j
                ==> self.frames@[i].page_id != self.frames@[j].page_id
    }

    /// The pool's invariant.
    pub closed spec fn wf(&self) -> bool {
        &&& self.store.wf()
        &&& self.frames@.len() <= self.capacity
        &&& self.distinct()
        &&& forall|i: int|
            0 <= i < self.frames@.len() ==> {
                let f = #[trigger] self.frames@[i];
                &&& 1 <= f.page_id < self.store@.len()
                &&& !self.free_list@.contains(f.page_id)
                &&& f.data@.len() == self.store.spec_page_size()
                &&& (!f.dirty ==> f.data@ == self.store@[f.page_id as int])
            }
        &&& self.free_list@.no_duplicates()
        &&& forall|k: int|
            0 <= k < self.free_list@.len() ==> 1 <= #[trigger] self.free_list@[k]
                < self.store@.len()
    }

    proof fn lemma_slot(&self, i: int)
        requires
            self.distinct(),
            0 <= i < self.frames@.len(),
        ensures
            self.is_resident(self.frames@[i].page_id),
            self.slot(self.frames@[i].page_id) == i,
            self.pins(self.frames@[i].page_id) == self.frames@[i].pins,
            self.content(self.frames@[i].page_id) == self.frames@[i].data@,
            self.is_dirty(self.frames@[i].page_id) == self.frames@[i].dirty,
    {
        assert(self.resident()[i] == self.frames@[i].page_id);
    }

    proof fn lemma_absent(&self, id: PageId)
        requires
            forall|i: int| 0 <= i < self.frames@.len() ==> self.frames@[i].page_id != id,
        ensures
            !self.is_resident(id),
            self.pins(id) == 0,
            self.content(id) == self.store@[id as int],
            !self.is_dirty(id),
    {
    }

    proof fn lemma_resident(&self, id: PageId)
        requires
            self.is_resident(id),
        ensures
            0 <= self.slot(id) < self.frames@.len(),
            self.frames@[self.slot(id)].page_id == id,
    {
        let i = choose|i: int| 0 <= i < self.resident().len() && self.resident()[i] == id;
        assert(self.frames@[i].page_id == id);
    }

    /// What the invariant says in terms of the pool's public state.
    pub proof fn lemma_wf(&self)
        requires
            self.wf(),
        ensures
            self.resident().len() <= self.spec_capacity(),
            self.resident().no_duplicates(),
            !self.allocated().contains(0),
            !self.allocated().contains(self.next_id()),
            self.spare() > 0 ==> self.next_id() != 0,
            crate::os_interface::spec_valid_page_size(self.spec_page_size() as int),
            forall|p: PageId| #[trigger] self.is_resident(p) == self.resident().contains(p),
            forall|p: PageId| #[trigger] self.is_resident(p) ==> self.allocated().contains(p),
            forall|p: PageId|
                self.allocated().contains(p) ==> (#[trigger] self.content(p)).len()
                    == self.spec_page_size(),
            forall|p: PageId|
                self.allocated().contains(p) && !self.is_dirty(p) ==> #[trigger] self.content(p)
                    == self.stored(p),
            forall|p: PageId| !self.is_resident(p) ==> #[trigger] self.pins(p) == 0,
            forall|p: PageId| #[trigger] self.is_dirty(p) ==> self.is_resident(p),
    {
        self.store.lemma_wf();
        assert forall|i: int, j: int|
            0 <= i < self.resident().len() && 0 <= j < self.resident().len() && i != j implies self.resident()[i]
            != self.resident()[j] by {
            assert(self.frames@[i].page_id != self.frames@[j].page_id);
        }
        assert forall|p: PageId| #[trigger] self.is_resident(p) implies self.allocated().contains(
            p,
        ) by {
            self.lemma_resident(p);
        }
        assert forall|p: PageId| self.allocated().contains(p) implies (#[trigger] self.content(
            p,
        )).len() == self.spec_page_size() by {
            if self.is_resident(p) {
                self.lemma_resident(p);
            }
        }
        assert forall|p: PageId|
            self.allocated().contains(p) && !self.is_dirty(p) implies #[trigger] self.content(p)
            == self.stored(p) by {
            if self.is_resident(p) {
                self.lemma_resident(p);
            }
        }
        if self.free_list@.len() > 0 {
            assert(self.free_list@.contains(self.free_list@.last()));
        }
    }

    /// A pool of `capacity` empty frames over a store.
    pub fn new(store: MemoryStore, capacity: usize) -> (r: Pager)
        requires
            store.wf(),
        ensures
            r.wf(),
            r.spec_capacity() == capacity,
            r.spec_page_size() == store.spec_page_size(),
            r.resident() == Seq::<PageId>::empty(),
            r.unpinned(),
            r.allocated() == Set::new(|id: PageId| 1 <= id < store@.len()),
            r.spare() == store.spec_max_pages() - store@.len(),
            forall|p: PageId| 1 <= p < store@.len() ==> #[trigger] r.content(p) == store@[p as int],
    {
        let r = Pager { store, capacity, frames: Vec::new(), free_list: Vec::new() };
        proof {
            store.lemma_wf();
            assert(r.resident() =~= Seq::<PageId>::empty());
            assert(r.allocated() =~= Set::new(|id: PageId| 1 <= id < store@.len()));
        }
        r
    }

    /// The number of frames.
    pub fn capacity(&self) -> (r: usize)
        ensures
            r == self.spec_capacity(),
    {
        self.capacity
    }

    /// The size of every page, in bytes.
    pub fn page_size(&self) -> (r: usize)
        ensures
            r == self.spec_page_size(),
    {
        self.store.page_size()
    }

    /// Whether `n` more pages can be allocated.
    pub fn can_allocate(&self, n: usize) -> (r: bool)
        requires
            self.wf(),
        ensures
            r == (self.spare() >= n),
    {
        proof {
            self.store.lemma_wf();
        }
        let fresh: u128 = (self.store.max_pages() as u64 - self.store.page_count()) as u128;
        let reuse: u128 = self.free_list.len() as u128;
        fresh + reuse >= n as u128
    }

    fn find_frame(&self, id: PageId) -> (r: Option<usize>)
        requires
            self.wf(),
        ensures
            match r {
                Some(i) => i < self.frames@.len() && self.frames@[i as int].page_id == id
                    && self.is_resident(id) && self.slot(id) == i,
                None => !self.is_resident(id) && forall|i: int|
                    0 <= i < self.frames@.len() ==> self.frames@[i].page_id != id,
            },
    {
        let mut i: usize = 0;
        while i < self.frames.len()
            invariant
                self.wf(),
                i <= self.frames@.len(),
                forall|j: int| 0 <= j < i ==> self.frames@[j].page_id != id,
            decreases self.frames@.len() - i,
        {
            if self.frames[i].page_id == id {
                proof {
                    self.lemma_slot(i as int);
                }
                return Some(i);
            }
            i = i + 1;
        }
        proof {
            self.lemma_absent(id);
        }
        None
    }

    /// Whether the free list names only pages of the store, each once.
    fn free_list_is_sound(&self) -> (r: bool)
        requires
            self.store.wf(),
        ensures
            r == (self.free_list@.no_duplicates() && forall|k: int|
                0 <= k < self.free_list@.len() ==> 1 <= #[trigger] self.free_list@[k]
                    < self.store@.len()),
    {
        let count = self.store.page_count();
        let n = self.free_list.len();
        let mut k: usize = 0;
        while k < n
            invariant
                k <= n,
                n == self.free_list@.len(),
                count == self.store@.len(),
                forall|a: int| 0 <= a < k ==> 1 <= #[trigger] self.free_list@[a] < count,
                forall|a: int, b: int| 0 <= a < b < k ==> self.free_list@[a] != self.free_list@[b],
            decreases n - k,
        {
            let id = self.free_list[k];
            if id < 1 || id >= count {
                return false;
            }
            let mut j: usize = 0;
            while j < k
                invariant
                    j <= k,
                    k < n,
                    n == self.free_list@.len(),
                    id == self.free_list@[k as int],
                    forall|a: int| 0 <= a < j ==> self.free_list@[a] != id,
                decreases k - j,
            {
                if self.free_list[j] == id {
                    return false;
                }
                j = j + 1;
            }
            k = k + 1;
        }
        true
    }

    /// Whether no two frames hold the same page.
    fn frames_are_distinct(&self) -> (r: bool)
        ensures
            r == self.distinct(),
    {
        let n = self.frames.len();
        let mut i: usize = 0;
        while i < n
            invariant
                i <= n,
                n == self.frames@.len(),
                forall|a: int, b: int|
                    0 <= a < b < i ==> self.frames@[a].page_id != self.frames@[b].page_id,
            decreases n - i,
        {
            let id = self.frames[i].page_id;
            let mut j: usize = 0;
            while j < i
                invariant
                    j <= i,
                    i < n,
                    n == self.frames@.len(),
                    id == self.frames@[i as int].page_id,
                    forall|a: int| 0 <= a < j ==> self.frames@[a].page_id != id,
                decreases i - j,
            {
                if self.frames[j].page_id == id {
                    return false;
                }
                j = j + 1;
            }
            i = i + 1;
        }
        assert forall|a: int, b: int|
            0 <= a < self.frames@.len() && 0 <= b < self.frames@.len() && a != b implies self.frames@[a].page_id
            != self.frames@[b].page_id by {
            if a < b {
                assert(self.frames@[a].page_id != self.frames@[b].page_id);
            } else {
                assert(self.frames@[b].page_id != self.frames@[a].page_id);
            }
        }
        true
    }

    /// Whether the page is on the free list.
    fn is_free(&self, id: PageId) -> (r: bool)
        ensures
            r == self.free_list@.contains(id),
    {
        let mut k: usize = 0;
        while k < self.free_list.len()
            invariant
                k <= self.free_list@.len(),
                forall|j: int| 0 <= j < k ==> self.free_list@[j] != id,
            decreases self.free_list@.len() - k,
        {
            if self.free_list[k] == id {
                return true;
            }
            k = k + 1;
        }
        false
    }

    /// Whether every frame holds a page in use, of the right size, and a
    /// clean frame what the store holds.
    fn frames_are_sound(&self) -> (r: bool)
        requires
            self.store.wf(),
        ensures
            r == forall|i: int|
                0 <= i < self.frames@.len() ==> self.frame_ok(#[trigger] self.frames@[i]),
    {
        let count = self.store.page_count();
        let size = self.store.page_size();
        let n = self.frames.len();
        let mut i: usize = 0;
        while i < n
            invariant
                i <= n,
                n == self.frames@.len(),
                count == self.store@.len(),
                size == self.store.spec_page_size(),
                forall|a: int| 0 <= a < i ==> self.frame_ok(#[trigger] self.frames@[a]),
            decreases n - i,
        {
            let f = &self.frames[i];
            if f.page_id < 1 || f.page_id >= count || f.data.len() != size || self.is_free(f.page_id) {
                assert(!self.frame_ok(self.frames@[i as int]));
                return false;
            }
            if !f.dirty && !self.store.page_is(f.page_id, &f.data) {
                assert(!self.frame_ok(self.frames@[i as int]));
                return false;
            }
            i = i + 1;
        }
        true
    }

    /// Tests the pool's invariant.
    pub fn is_well_formed(&self) -> (r: bool)
        ensures
            r == self.wf(),
    {
        if !self.store.is_well_formed() || self.frames.len() > self.capacity {
            return false;
        }
        if !self.frames_are_distinct() || !self.free_list_is_sound() {
            return false;
        }
        let sound = self.frames_are_sound();
        proof {
            if sound {
                assert forall|i: int| 0 <= i < self.frames@.len() implies {
                    let f = #[trigger] self.frames@[i];
                    &&& 1 <= f.page_id < self.store@.len()
                    &&& !self.free_list@.contains(f.page_id)
                    &&& f.data@.len() == self.store.spec_page_size()
                    &&& (!f.dirty ==> f.data@ == self.store@[f.page_id as int])
                } by {
                    assert(self.frame_ok(self.frames@[i]));
                }
            } else {
                let i = choose|i: int|
                    0 <= i < self.frames@.len() && !self.frame_ok(#[trigger] self.frames@[i]);
                assert(!self.frame_ok(self.frames@[i]));
            }
        }
        sound
    }

    /// Whether the pool is well formed, has a frame to work in, and holds
    /// no pinned page: the state between two operations of a tree.
    pub fn is_idle(&self) -> (r: bool)
        ensures
            r == (self.wf() && self.unpinned() && self.spec_capacity() >= 1),
    {
        if !self.is_well_formed() || self.capacity < 1 {
            return false;
        }
        let n = self.frames.len();
        let mut i: usize = 0;
        while i < n
            invariant
                self.wf(),
                i <= n,
                n == self.frames@.len(),
                forall|a: int| 0 <= a < i ==> (#[trigger] self.frames@[a]).pins == 0,
            decreases n - i,
        {
            if self.frames[i].pins != 0 {
                proof {
                    self.lemma_slot(i as int);
                    assert(self.pins(self.frames@[i as int].page_id) != 0);
                }
                return false;
            }
            i = i + 1;
        }
        proof {
            assert forall|p: PageId| self.pins(p) == 0 by {
                if self.is_resident(p) {
                    self.lemma_resident(p);
                }
            }
        }
        true
    }

    /// Whether the page is in use.
    pub fn is_allocated(&self, id: PageId) -> (r: bool)
        requires
            self.wf(),
        ensures
            r == self.allocated().contains(id),
    {
        if id < 1 || id >= self.store.page_count() {
            return false;
        }
        let mut k: usize = 0;
        while k < self.free_list.len()
            invariant
                k <= self.free_list@.len(),
                forall|j: int| 0 <= j < k ==> self.free_list@[j] != id,
            decreases self.free_list@.len() - k,
        {
            if self.free_list[k] == id {
                return false;
            }
            k = k + 1;
        }
        true
    }

    /// How many handles to the page are outstanding.
    pub fn pin_count(&self, id: PageId) -> (r: usize)
        requires
            self.wf(),
        ensures
            r == self.pins(id),
    {
        match self.find_frame(id) {
            Some(i) => self.frames[i].pins,
            None => 0,
        }
    }

    /// The number of resident pages.
    pub fn resident_count(&self) -> (r: usize)
        ensures
            r == self.resident().len(),
    {
        self.frames.len()
    }

    /// The position of the least recently used unpinned frame.
    fn find_victim(&self) -> (r: Option<usize>)
        requires
            self.wf(),
        ensures
            match r {
                Some(i) => i < self.frames@.len() && self.frames@[i as int].pins == 0
                    && self.lru_unpinned() == Some(self.frames@[i as int].page_id)
                    && self.lru_unpinned_index() == i,
                None => self.lru_unpinned() is None,
            },
    {
        let mut i: usize = 0;
        while i < self.frames.len()
            invariant
                self.wf(),
                i <= self.frames@.len(),
                forall|j: int| 0 <= j < i ==> self.frames@[j].pins > 0,
            decreases self.frames@.len() - i,
        {
            if self.frames[i].pins == 0 {
                proof {
                    let r = self.resident();
                    assert forall|j: int| 0 <= j < r.len() implies self.pins(#[trigger] r[j])
                        == self.frames@[j].pins by {
                        self.lemma_slot(j);
                    }
                    let w = i as int;
                    assert(0 <= w < r.len() && self.pins(r[w]) == 0 && forall|j: int|
                        0 <= j < w ==> self.pins(#[trigger] r[j]) > 0);
                    let c = self.lru_unpinned_index();
                    assert(0 <= c < r.len() && self.pins(r[c]) == 0 && forall|j: int|
                        0 <= j < c ==> self.pins(#[trigger] r[j]) > 0);
                    if c < w {
                        assert(self.pins(r[c]) > 0);
                    }
                    if w < c {
                        assert(self.pins(r[w]) > 0);
                    }
                }
                return Some(i);
            }
            i = i + 1;
        }
        proof {
            let r = self.resident();
            assert forall|j: int| 0 <= j < r.len() implies self.pins(#[trigger] r[j]) > 0 by {
                self.lemma_slot(j);
            }
        }
        None
    }

    /// Whether a frame can be put into the pool as it stands: what the
    /// invariant asks of every frame.
    spec fn frame_ok(&self, f: Frame) -> bool {
        &&& 1 <= f.page_id < self.store@.len()
        &&& !self.free_list@.contains(f.page_id)
        &&& f.data@.len() == self.store.spec_page_size()
        &&& (!f.dirty ==> f.data@ == self.store@[f.page_id as int])
    }

    /// Takes the frame at position `i` out of the pool.
    fn take_frame(&mut self, i: usize) -> (f: Frame)
        requires
            old(self).wf(),
            i < old(self).frames@.len(),
        ensures
            final(self).wf(),
            f == old(self).frames@[i as int],
            final(self).frame_ok(f),
            f.page_id == old(self).resident()[i as int],
            f.pins == old(self).pins(f.page_id),
            f.dirty == old(self).is_dirty(f.page_id),
            f.data@ == old(self).content(f.page_id),
            final(self).frames@ == old(self).frames@.remove(i as int),
            final(self).store == old(self).store,
            final(self).free_list == old(self).free_list,
            final(self).capacity == old(self).capacity,
            final(self).resident() == old(self).resident().remove(i as int),
            !final(self).is_resident(f.page_id),
            final(self).frames@.len() < final(self).capacity,
            forall|p: PageId|
                #![trigger final(self).pins(p)]
                #![trigger final(self).is_resident(p)]
                #![trigger final(self).is_dirty(p)]
                #![trigger final(self).content(p)]
                p != f.page_id ==> {
                    &&& final(self).is_resident(p) == old(self).is_resident(p)
                    &&& final(self).pins(p) == old(self).pins(p)
                    &&& final(self).is_dirty(p) == old(self).is_dirty(p)
                    &&& final(self).content(p) == old(self).content(p)
                },
    {
        proof {
            old(self).lemma_slot(i as int);
        }
        let f = self.frames.remove(i);
        proof {
            assert(final(self).resident() =~= old(self).resident().remove(i as int));
            assert forall|j: int| 0 <= j < self.frames@.len() implies self.frames@[j].page_id
                != f.page_id by {
                if j < i {
                    assert(self.frames@[j] == old(self).frames@[j]);
                } else {
                    assert(self.frames@[j] == old(self).frames@[j + 1]);
                }
            }
            self.lemma_absent(f.page_id);
            assert forall|p: PageId| p != f.page_id implies {
                &&& self.is_resident(p) == old(self).is_resident(p)
                &&& self.pins(p) == old(self).pins(p)
                &&& self.is_dirty(p) == old(self).is_dirty(p)
                &&& self.content(p) == old(self).content(p)
            } by {
                if old(self).is_resident(p) {
                    old(self).lemma_resident(p);
                    let j = old(self).slot(p);
                    let k = if j < i { j } else { j - 1 };
                    assert(self.frames@[k] == old(self).frames@[j]);
                    self.lemma_slot(k);
                } else {
                    if self.is_resident(p) {
                        self.lemma_resident(p);
                        let k = self.slot(p);
                        let j = if k < i { k } else { k + 1 };
                        assert(self.frames@[k] == old(self).frames@[j]);
                        old(self).lemma_slot(j);
                    }
                }
            }
        }
        f
    }

    /// Puts a frame into the pool at position `i`.
    fn put_frame(&mut self, i: usize, f: Frame)
        requires
            old(self).wf(),
            old(self).frame_ok(f),
            !old(self).is_resident(f.page_id),
            i <= old(self).frames@.len(),
            old(self).frames@.len() < old(self).capacity,
        ensures
            final(self).wf(),
            final(self).frames@ == old(self).frames@.insert(i as int, f),
            final(self).store == old(self).store,
            final(self).free_list == old(self).free_list,
            final(self).capacity == old(self).capacity,
            final(self).resident() == old(self).resident().insert(i as int, f.page_id),
            final(self).is_resident(f.page_id),
            final(self).pins(f.page_id) == f.pins,
            final(self).is_dirty(f.page_id) == f.dirty,
            final(self).content(f.page_id) == f.data@,
            forall|p: PageId|
                #![trigger final(self).pins(p)]
                #![trigger final(self).is_resident(p)]
                #![trigger final(self).is_dirty(p)]
                #![trigger final(self).content(p)]
                p != f.page_id ==> {
                    &&& final(self).is_resident(p) == old(self).is_resident(p)
                    &&& final(self).pins(p) == old(self).pins(p)
                    &&& final(self).is_dirty(p) == old(self).is_dirty(p)
                    &&& final(self).content(p) == old(self).content(p)
                },
    {
        let ghost fid = f.page_id;
        let ghost ff = f;
        proof {
            assert forall|j: int| 0 <= j < self.frames@.len() implies self.frames@[j].page_id
                != fid by {
                if self.frames@[j].page_id == fid {
                    self.lemma_slot(j);
                }
            }
        }
        self.frames.insert(i, f);
        proof {
            assert(final(self).resident() =~= old(self).resident().insert(i as int, fid));
            assert(self.distinct()) by {
                assert forall|a: int, b: int|
                    0 <= a < self.frames@.len() && 0 <= b < self.frames@.len() && a != b implies self.frames@[a].page_id
                    != self.frames@[b].page_id by {
                    let oa = if a < i { a } else { a - 1 };
                    let ob = if b < i { b } else { b - 1 };
                    if a != i {
                        assert(self.frames@[a] == old(self).frames@[oa]);
                    }
                    if b != i {
                        assert(self.frames@[b] == old(self).frames@[ob]);
                    }
                }
            }
            assert forall|j: int| 0 <= j < self.frames@.len() implies self.frame_ok(
                #[trigger] self.frames@[j],
            ) by {
                if j != i {
                    let oj = if j < i { j } else { j - 1 };
                    assert(self.frames@[j] == old(self).frames@[oj]);
                }
            }
            assert(self.frames@[i as int] == ff);
            self.lemma_slot(i as int);
            assert forall|p: PageId| p != fid implies {
                &&& self.is_resident(p) == old(self).is_resident(p)
                &&& self.pins(p) == old(self).pins(p)
                &&& self.is_dirty(p) == old(self).is_dirty(p)
                &&& self.content(p) == old(self).content(p)
            } by {
                if old(self).is_resident(p) {
                    old(self).lemma_resident(p);
                    let j = old(self).slot(p);
                    let k = if j < i { j } else { j + 1 };
                    assert(self.frames@[k] == old(self).frames@[j]);
                    self.lemma_slot(k);
                } else {
                    if self.is_resident(p) {
                        self.lemma_resident(p);
                        let k = self.slot(p);
                        let j = if k < i { k } else { k - 1 };
                        assert(self.frames@[k] == old(self).frames@[j]);
                        old(self).lemma_slot(j);
                    }
                }
            }
        }
    }

    /// Writes the frame at position `i` to the store if it is dirty, and
    /// marks it clean.
    fn write_back(&mut self, i: usize) -> (r: Result<(), StorageError>)
        requires
            old(self).wf(),
            i < old(self).frames@.len(),
        ensures
            final(self).wf(),
            r is Ok,
            final(self).resident() == old(self).resident(),
            final(self).free_list == old(self).free_list,
            final(self).capacity == old(self).capacity,
            final(self).frames@.len() == old(self).frames@.len(),
            final(self).store@.len() == old(self).store@.len(),
            final(self).store.spec_max_pages() == old(self).store.spec_max_pages(),
            final(self).store.spec_page_size() == old(self).store.spec_page_size(),
            final(self).frames@[i as int].pins == old(self).frames@[i as int].pins,
            !final(self).is_dirty(old(self).resident()[i as int]),
            final(self).stored(old(self).resident()[i as int]) == old(self).content(
                old(self).resident()[i as int],
            ),
            forall|p: PageId|
                #![trigger final(self).pins(p)]
                #![trigger final(self).is_resident(p)]
                #![trigger final(self).is_dirty(p)]
                #![trigger final(self).content(p)]
                #![trigger final(self).stored(p)]
                {
                    &&& final(self).is_resident(p) == old(self).is_resident(p)
                    &&& final(self).pins(p) == old(self).pins(p)
                    &&& (p < old(self).store@.len() ==> final(self).content(p) == old(self).content(p))
                    &&& (p != old(self).resident()[i as int] ==> final(self).is_dirty(p) == old(
                        self,
                    ).is_dirty(p))
                    &&& (p != old(self).resident()[i as int] && p < old(self).store@.len()
                        ==> final(self).stored(p) == old(self).stored(p))
                },
    {
        proof {
            old(self).lemma_slot(i as int);
            old(self).store.lemma_wf();
        }
        let ghost id = self.frames@[i as int].page_id;
        if !self.frames[i].dirty {
            return Ok(());
        }
        let mut f = self.take_frame(i);
        let ghost mid = *self;
        match self.store.write_page(f.page_id, &f.data) {
            Ok(()) => {},
            Err(e) => {
                return Err(e);
            },
        }
        f.dirty = false;
        proof {
            self.store.lemma_wf();
            assert(self.frames@ == mid.frames@);
            assert(self.wf()) by {
                assert forall|j: int| 0 <= j < self.frames@.len() implies self.frame_ok(
                    #[trigger] self.frames@[j],
                ) by {
                    assert(mid.frame_ok(mid.frames@[j]));
                    if mid.frames@[j].page_id == id {
                        mid.lemma_slot(j);
                    }
                }
            }
            assert(self.resident() =~= mid.resident());
            assert forall|p: PageId|
                {
                    &&& self.is_resident(p) == mid.is_resident(p)
                    &&& self.pins(p) == mid.pins(p)
                    &&& self.is_dirty(p) == mid.is_dirty(p)
                    &&& (p != id && p < mid.store@.len() ==> self.content(p) == mid.content(p))
                    &&& (p != id && p < mid.store@.len() ==> self.stored(p) == mid.stored(p))
                } by {
                if mid.is_resident(p) {
                    mid.lemma_resident(p);
                    mid.lemma_slot(mid.slot(p));
                    self.lemma_slot(mid.slot(p));
                } else {
                    mid.lemma_absent_page(p);
                    self.lemma_absent_page(p);
                }
            }
        }
        self.put_frame(i, f);
        proof {
            assert(self.resident() =~= old(self).resident());
        }
        Ok(())
    }

    /// Makes sure that a frame is empty, by evicting the least recently
    /// used unpinned page if the pool is full.
    fn make_room(&mut self) -> (r: Result<(), StorageError>)
        requires
            old(self).wf(),
        ensures
            final(self).wf(),
            r is Ok <==> old(self).has_room(),
            r is Err ==> *final(self) == *old(self) && r->Err_0 == StorageError::PoolExhausted,
            final(self).free_list == old(self).free_list,
            final(self).capacity == old(self).capacity,
            final(self).store@.len() == old(self).store@.len(),
            final(self).store.spec_max_pages() == old(self).store.spec_max_pages(),
            final(self).store.spec_page_size() == old(self).store.spec_page_size(),
            r is Ok ==> {
                &&& final(self).frames@.len() < final(self).capacity
                &&& final(self).resident() == old(self).resident_after_room()
                &&& forall|p: PageId|
                    #![trigger final(self).pins(p)]
                    #![trigger final(self).is_resident(p)]
                    #![trigger final(self).is_dirty(p)]
                    #![trigger final(self).content(p)]
                    {
                        &&& final(self).pins(p) == old(self).pins(p)
                        &&& (p < old(self).store@.len() ==> final(self).content(p) == old(
                            self,
                        ).content(p))
                        &&& (final(self).is_resident(p) ==> old(self).is_resident(p)
                            && final(self).is_dirty(p) == old(self).is_dirty(p))
                        &&& (old(self).is_resident(p) && old(self).lru_unpinned() != Some(p)
                            ==> final(self).is_resident(p))
                    }
            },
    {
        let victim = self.find_victim();
        if self.frames.len() < self.capacity {
            return Ok(());
        }
        match victim {
            None => Err(StorageError::PoolExhausted),
            Some(v) => {
                proof {
                    self.lemma_slot(v as int);
                }
                let ghost vid = self.frames@[v as int].page_id;
                match self.write_back(v) {
                    Ok(()) => {},
                    Err(e) => {
                        return Err(e);
                    },
                }
                let ghost mid = *self;
                proof {
                    mid.lemma_slot(v as int);
                }
                let _ = self.take_frame(v);
                proof {
                    self.lemma_absent_page(vid);
                    assert(mid.content(vid) == mid.stored(vid)) by {
                        mid.lemma_wf_allocated(vid);
                    }
                }
                Ok(())
            },
        }
    }

    /// Brings a page into the pool and pins it.
    ///
    /// Fails with `PageNotFound` when the page is not allocated, and with
    /// `PoolExhausted` when the page is not resident and every frame is
    /// pinned (or the page's pin count cannot grow). A failed call changes
    /// nothing. On success the page becomes the most recently used; when it
    /// was not resident and the pool was full, the least recently used
    /// unpinned page was evicted, after being written back if dirty. No
    /// page's contents change.
    #[verifier::spinoff_prover]
    #[verifier::rlimit(40)]
    pub fn fetch(&mut self, id: PageId) -> (r: Result<PageHandle, StorageError>)
        requires
            old(self).wf(),
        ensures
            final(self).wf(),
            final(self).same_pages(old(self)),
            r is Ok <==> old(self).allocated().contains(id) && if old(self).is_resident(id) {
                old(self).pins(id) < usize::MAX
            } else {
                old(self).has_room()
            },
            r is Err ==> *final(self) == *old(self),
            r is Err ==> r->Err_0 == if old(self).allocated().contains(id) {
                StorageError::PoolExhausted
            } else {
                StorageError::PageNotFound
            },
            r is Ok ==> {
                &&& r->Ok_0.page_id == id
                &&& final(self).pins(id) == old(self).pins(id) + 1
                &&& final(self).is_dirty(id) == old(self).is_dirty(id)
                &&& final(self).resident() == if old(self).is_resident(id) {
                    old(self).resident().remove(old(self).resident().index_of(id)).push(id)
                } else {
                    old(self).resident_after_room().push(id)
                }
                &&& forall|p: PageId|
                    #![trigger final(self).pins(p)]
                    p != id ==> final(self).pins(p) == old(self).pins(p)
                &&& forall|p: PageId|
                    #![trigger final(self).is_dirty(p)]
                    p != id && final(self).is_resident(p) ==> final(self).is_dirty(p) == old(
                        self,
                    ).is_dirty(p)
            },
    {
        if !self.is_allocated(id) {
            return Err(StorageError::PageNotFound);
        }
        proof {
            self.store.lemma_wf();
        }
        match self.find_frame(id) {
            Some(i) => {
                proof {
                    self.lemma_slot(i as int);
                }
                if self.frames[i].pins == usize::MAX {
                    return Err(StorageError::PoolExhausted);
                }
                proof {
                    let r = self.resident();
                    let k = r.index_of(id);
                    assert(r[i as int] == id);
                    assert(0 <= k < r.len() && r[k] == id);
                    assert(self.frames@[k].page_id == id);
                }
                let mut f = self.take_frame(i);
                f.pins = f.pins + 1;
                let n = self.frames.len();
                self.put_frame(n, f);
                proof {
                    assert(final(self).resident() =~= old(self).resident().remove(i as int).push(id));
                    assert(final(self).allocated() =~= old(self).allocated());
                }
                Ok(PageHandle { page_id: id })
            },
            None => {
                match self.make_room() {
                    Ok(()) => {},
                    Err(e) => {
                        return Err(e);
                    },
                }
                let ghost mid = *self;
                let data = match self.store.read_page(id) {
                    Ok(d) => d,
                    Err(e) => {
                        return Err(e);
                    },
                };
                let n = self.frames.len();
                proof {
                    mid.lemma_absent_page(id);
                    old(self).lemma_absent_page(id);
                }
                self.put_frame(n, Frame { page_id: id, data, pins: 1, dirty: false });
                proof {
                    assert(final(self).resident() =~= old(self).resident_after_room().push(id));
                    assert(final(self).allocated() =~= old(self).allocated());
                }
                Ok(PageHandle { page_id: id })
            },
        }
    }

    proof fn lemma_wf_allocated(&self, p: PageId)
        requires
            self.wf(),
        ensures
            self.is_resident(p) ==> self.allocated().contains(p),
            self.allocated().contains(p) ==> self.content(p).len() == self.spec_page_size(),
            self.allocated().contains(p) && !self.is_dirty(p) ==> self.content(p) == self.stored(p),
            !self.is_resident(p) ==> self.pins(p) == 0 && self.content(p) == self.stored(p),
    {
        self.store.lemma_wf();
        if self.is_resident(p) {
            self.lemma_resident(p);
        }
    }

    proof fn lemma_absent_page(&self, id: PageId)
        requires
            !self.is_resident(id),
        ensures
            self.pins(id) == 0,
            self.content(id) == self.store@[id as int],
            self.content(id) == self.stored(id),
            !self.is_dirty(id),
    {
    }

    /// Gives a handle back: the page's pin count drops by one. A handle
    /// whose page is not pinned changes nothing.
    pub fn release(&mut self, handle: PageHandle)
        requires
            old(self).wf(),
        ensures
            final(self).wf(),
            final(self).same_pages(old(self)),
            final(self).resident() == old(self).resident(),
            final(self).pins(handle.page_id) == if old(self).pins(handle.page_id) > 0 {
                old(self).pins(handle.page_id) - 1
            } else {
                0
            },
            forall|p: PageId|
                #![trigger final(self).pins(p)]
                p != handle.page_id ==> final(self).pins(p) == old(self).pins(p),
            forall|p: PageId|
                #![trigger final(self).is_dirty(p)]
                final(self).is_dirty(p) == old(self).is_dirty(p),
    {
        let id = handle.page_id;
        match self.find_frame(id) {
            Some(i) => {
                proof {
                    self.lemma_slot(i as int);
                }
                if self.frames[i].pins > 0 {
                    let mut f = self.take_frame(i);
                    f.pins = f.pins - 1;
                    self.put_frame(i, f);
                    proof {
                        assert(final(self).resident() =~= old(self).resident());
                        assert(final(self).allocated() =~= old(self).allocated());
                    }
                }
            },
            None => {
                proof {
                    self.lemma_absent_page(id);
                }
            },
        }
    }

    /// Records that a pinned page differs from the store's copy, so that
    /// it is written back before its frame is reused. A handle whose page
    /// is not pinned changes nothing.
    pub fn mark_dirty(&mut self, handle: PageHandle)
        requires
            old(self).wf(),
        ensures
            final(self).wf(),
            final(self).same_pages(old(self)),
            final(self).resident() == old(self).resident(),
            forall|p: PageId| #![trigger final(self).pins(p)] final(self).pins(p) == old(self).pins(p),
            final(self).is_dirty(handle.page_id) == (old(self).is_dirty(handle.page_id) || old(
                self,
            ).pins(handle.page_id) > 0),
            forall|p: PageId|
                #![trigger final(self).is_dirty(p)]
                p != handle.page_id ==> final(self).is_dirty(p) == old(self).is_dirty(p),
    {
        let id = handle.page_id;
        match self.find_frame(id) {
            Some(i) => {
                proof {
                    self.lemma_slot(i as int);
                }
                if self.frames[i].pins > 0 {
                    let mut f = self.take_frame(i);
                    f.dirty = true;
                    self.put_frame(i, f);
                    proof {
                        assert(final(self).resident() =~= old(self).resident());
                        assert(final(self).allocated() =~= old(self).allocated());
                    }
                }
            },
            None => {
                proof {
                    self.lemma_absent_page(id);
                }
            },
        }
    }

    /// The contents of a pinned page; `None` when the handle's page is not
    /// pinned.
    pub fn data(&self, handle: PageHandle) -> (r: Option<&Vec<u8>>)
        requires
            self.wf(),
        ensures
            r is Some <==> self.pins(handle.page_id) > 0,
            r is Some ==> r->Some_0@ == self.content(handle.page_id),
    {
        match self.find_frame(handle.page_id) {
            Some(i) => {
                proof {
                    self.lemma_slot(i as int);
                }
                if self.frames[i].pins > 0 {
                    Some(&self.frames[i].data)
                } else {
                    None
                }
            },
            None => {
                proof {
                    self.lemma_absent_page(handle.page_id);
                }
                None
            },
        }
    }

    /// Replaces the contents of a pinned page and marks it dirty.
    ///
    /// Fails with `PageNotFound` when the handle's page is not pinned, and
    /// with `IoError` when the buffer is not one page long; nothing changes
    /// then.
    pub fn write(&mut self, handle: PageHandle, bytes: &Vec<u8>) -> (r: Result<(), StorageError>)
        requires
            old(self).wf(),
        ensures
            final(self).wf(),
            r is Ok <==> old(self).pins(handle.page_id) > 0 && bytes@.len() == old(
                self,
            ).spec_page_size(),
            r is Err ==> *final(self) == *old(self) && r->Err_0 == if old(self).pins(handle.page_id)
                > 0 {
                StorageError::IoError
            } else {
                StorageError::PageNotFound
            },
            final(self).allocated() == old(self).allocated(),
            final(self).spare() == old(self).spare(),
            final(self).next_id() == old(self).next_id(),
            final(self).spec_capacity() == old(self).spec_capacity(),
            final(self).spec_page_size() == old(self).spec_page_size(),
            final(self).resident() == old(self).resident(),
            forall|p: PageId| #![trigger final(self).pins(p)] final(self).pins(p) == old(self).pins(p),
            r is Ok ==> final(self).content(handle.page_id) == bytes@ && final(self).is_dirty(
                handle.page_id,
            ),
            forall|p: PageId|
                #![trigger final(self).content(p)]
                #![trigger final(self).is_dirty(p)]
                p != handle.page_id ==> final(self).content(p) == old(self).content(p)
                    && final(self).is_dirty(p) == old(self).is_dirty(p),
    {
        let id = handle.page_id;
        match self.find_frame(id) {
            Some(i) => {
                proof {
                    self.lemma_slot(i as int);
                }
                if self.frames[i].pins == 0 {
                    return Err(StorageError::PageNotFound);
                }
                if bytes.len() != self.store.page_size() {
                    return Err(StorageError::IoError);
                }
                let mut f = self.take_frame(i);
                f.data = copy_page(bytes);
                f.dirty = true;
                self.put_frame(i, f);
                proof {
                    assert(final(self).resident() =~= old(self).resident());
                    assert(final(self).allocated() =~= old(self).allocated());
                }
                Ok(())
            },
            None => {
                proof {
                    self.lemma_absent_page(id);
                }
                Err(StorageError::PageNotFound)
            },
        }
    }

    /// Writes a page back to the store if it is resident and dirty, and
    /// clears its dirty flag. Fails with `PageNotFound` when the page is
    /// not allocated.
    pub fn flush(&mut self, id: PageId) -> (r: Result<(), StorageError>)
        requires
            old(self).wf(),
        ensures
            final(self).wf(),
            final(self).same_pages(old(self)),
            final(self).resident() == old(self).resident(),
            forall|p: PageId| #![trigger final(self).pins(p)] final(self).pins(p) == old(self).pins(p),
            r is Ok <==> old(self).allocated().contains(id),
            r is Err ==> *final(self) == *old(self) && r->Err_0 == StorageError::PageNotFound,
            r is Ok ==> !final(self).is_dirty(id) && final(self).stored(id) == old(self).content(id),
            forall|p: PageId|
                #![trigger final(self).is_dirty(p)]
                p != id ==> final(self).is_dirty(p) == old(self).is_dirty(p),
            forall|p: PageId|
                #![trigger final(self).stored(p)]
                p != id && old(self).allocated().contains(p) ==> final(self).stored(p) == old(
                    self,
                ).stored(p),
    {
        if !self.is_allocated(id) {
            return Err(StorageError::PageNotFound);
        }
        match self.find_frame(id) {
            Some(i) => {
                proof {
                    self.lemma_slot(i as int);
                }
                match self.write_back(i) {
                    Ok(()) => {},
                    Err(e) => {
                        return Err(e);
                    },
                }
                proof {
                    assert(final(self).allocated() =~= old(self).allocated());
                }
                Ok(())
            },
            None => {
                proof {
                    self.lemma_absent_page(id);
                }
                Ok(())
            },
        }
    }

    /// Writes every dirty page back to the store, clears the dirty flags,
    /// and syncs the store.
    pub fn flush_all(&mut self) -> (r: Result<(), StorageError>)
        requires
            old(self).wf(),
        ensures
            final(self).wf(),
            final(self).same_pages(old(self)),
            final(self).resident() == old(self).resident(),
            forall|p: PageId| #![trigger final(self).pins(p)] final(self).pins(p) == old(self).pins(p),
            r is Ok,
            final(self).free_pages() == old(self).free_pages(),
            final(self).spec_page_count() == old(self).spec_page_count(),
            forall|p: PageId| #![trigger final(self).is_dirty(p)] !final(self).is_dirty(p),
            forall|p: PageId|
                #![trigger final(self).stored(p)]
                old(self).allocated().contains(p) ==> final(self).stored(p) == old(self).content(p),
    {
        let mut i: usize = 0;
        while i < self.frames.len()
            invariant
                self.wf(),
                i <= self.frames@.len(),
                self.resident() == old(self).resident(),
                self.free_list == old(self).free_list,
                self.capacity == old(self).capacity,
                self.store@.len() == old(self).store@.len(),
                self.store.spec_max_pages() == old(self).store.spec_max_pages(),
                self.store.spec_page_size() == old(self).store.spec_page_size(),
                forall|p: PageId| #![trigger self.pins(p)] self.pins(p) == old(self).pins(p),
                forall|p: PageId|
                    #![trigger self.content(p)]
                    p < old(self).store@.len() ==> self.content(p) == old(self).content(p),
                forall|j: int| 0 <= j < i ==> !self.is_dirty(#[trigger] self.resident()[j]),
            decreases self.frames@.len() - i,
        {
            let ghost before = *self;
            match self.write_back(i) {
                Ok(()) => {},
                Err(e) => {
                    return Err(e);
                },
            }
            proof {
                assert forall|j: int| 0 <= j < i + 1 implies !self.is_dirty(
                    #[trigger] self.resident()[j],
                ) by {
                    if j < i {
                        assert(!before.is_dirty(before.resident()[j]));
                        before.lemma_slot(j);
                        before.lemma_slot(i as int);
                    }
                }
            }
            i = i + 1;
        }
        proof {
            assert(self.allocated() =~= old(self).allocated());
            assert forall|p: PageId| #![trigger self.is_dirty(p)] !self.is_dirty(p) by {
                if self.is_resident(p) {
                    self.lemma_resident(p);
                    assert(self.resident()[self.slot(p)] == p);
                }
            }
            assert forall|p: PageId|
                #![trigger self.stored(p)]
                old(self).allocated().contains(p) implies self.stored(p) == old(self).content(
                p,
            ) by {
                self.lemma_wf_allocated(p);
            }
        }
        self.store.sync()
    }

    /// Returns a page to the allocator for reuse; its frame, if it has
    /// one, is dropped without being written back.
    ///
    /// Fails with `PageNotFound` when the page is not allocated and with
    /// `PageInUse` when it is pinned; nothing changes then.
    pub fn free(&mut self, id: PageId) -> (r: Result<(), StorageError>)
        requires
            old(self).wf(),
        ensures
            final(self).wf(),
            r is Ok <==> old(self).allocated().contains(id) && old(self).pins(id) == 0,
            r is Err ==> *final(self) == *old(self) && r->Err_0 == if old(self).allocated().contains(
                id,
            ) {
                StorageError::PageInUse
            } else {
                StorageError::PageNotFound
            },
            final(self).spec_capacity() == old(self).spec_capacity(),
            final(self).spec_page_size() == old(self).spec_page_size(),
            r is Ok ==> {
                &&& final(self).allocated() == old(self).allocated().remove(id)
                &&& final(self).spare() == old(self).spare() + 1
                &&& final(self).next_id() == id
                &&& final(self).resident() == old(self).resident().remove_value(id)
                &&& forall|p: PageId|
                    #![trigger final(self).pins(p)]
                    #![trigger final(self).content(p)]
                    #![trigger final(self).is_dirty(p)]
                    p != id ==> final(self).pins(p) == old(self).pins(p) && final(self).content(p)
                        == old(self).content(p) && final(self).is_dirty(p) == old(self).is_dirty(p)
            },
    {
        if !self.is_allocated(id) {
            return Err(StorageError::PageNotFound);
        }
        match self.find_frame(id) {
            Some(i) => {
                proof {
                    self.lemma_slot(i as int);
                }
                if self.frames[i].pins > 0 {
                    return Err(StorageError::PageInUse);
                }
                proof {
                    let r = self.resident();
                    let k = r.index_of_first(id);
                    r.index_of_first_ensures(id);
                    assert(r[i as int] == id);
                    assert(self.frames@[k->Some_0].page_id == id);
                    assert(r.remove_value(id) =~= r.remove(i as int));
                }
                let _ = self.take_frame(i);
            },
            None => {
                proof {
                    self.lemma_absent_page(id);
                    let r = self.resident();
                    r.index_of_first_ensures(id);
                    assert(r.remove_value(id) =~= r);
                }
            },
        }
        let ghost mid = *self;
        self.free_list.push(id);
        proof {
            self.store.lemma_wf();
            assert(self.frames == mid.frames);
            assert(self.resident() =~= mid.resident());
            assert(self.free_list@.no_duplicates()) by {
                assert forall|a: int, b: int|
                    0 <= a < self.free_list@.len() && 0 <= b < self.free_list@.len() && a
                        != b implies self.free_list@[a] != self.free_list@[b] by {
                    if a < mid.free_list@.len() {
                        assert(mid.free_list@.contains(mid.free_list@[a]));
                    }
                    if b < mid.free_list@.len() {
                        assert(mid.free_list@.contains(mid.free_list@[b]));
                    }
                }
            }
            assert forall|j: int| 0 <= j < self.frames@.len() implies self.frame_ok(
                #[trigger] self.frames@[j],
            ) by {
                assert(mid.frame_ok(mid.frames@[j]));
                let q = self.frames@[j].page_id;
                if self.free_list@.contains(q) {
                    let k = choose|k: int| 0 <= k < self.free_list@.len() && self.free_list@[k] == q;
                    if k < mid.free_list@.len() {
                        assert(mid.free_list@.contains(q));
                    } else {
                        mid.lemma_slot(j);
                    }
                }
            }
            assert(self.free_list@.last() == id);
            assert(self.allocated() =~= old(self).allocated().remove(id)) by {
                assert forall|q: PageId| self.allocated().contains(q) == (old(
                    self,
                ).allocated().contains(q) && q != id) by {
                    if self.free_list@.contains(q) {
                        let k = choose|k: int|
                            0 <= k < self.free_list@.len() && self.free_list@[k] == q;
                        if k < mid.free_list@.len() {
                            assert(mid.free_list@.contains(q));
                        }
                    }
                    if mid.free_list@.contains(q) {
                        let k = choose|k: int|
                            0 <= k < mid.free_list@.len() && mid.free_list@[k] == q;
                        assert(self.free_list@[k] == q);
                    }
                    if q == id {
                        assert(self.free_list@[self.free_list@.len() - 1] == q);
                    }
                }
            }
            assert forall|p: PageId|
                p != id implies self.pins(p) == old(self).pins(p) && self.content(p) == old(
                self,
            ).content(p) && self.is_dirty(p) == old(self).is_dirty(p) by {
                assert(self.is_resident(p) == mid.is_resident(p));
                if mid.is_resident(p) {
                    mid.lemma_resident(p);
                    mid.lemma_slot(mid.slot(p));
                    self.lemma_slot(mid.slot(p));
                } else {
                    mid.lemma_absent_page(p);
                    self.lemma_absent_page(p);
                }
            }
        }
        Ok(())
    }

    /// Hands out a page that is not in use, zeroed, pinned once and dirty.
    ///
    /// Fails with `PoolExhausted` when no frame can be had for the page,
    /// else with `IoError` when neither a freed page nor room in the store
    /// is left; nothing changes then. The page comes from the pages freed
    /// before, the last freed first, or from the end of the store.
    pub fn allocate(&mut self) -> (r: Result<(PageId, PageHandle), StorageError>)
        requires
            old(self).wf(),
        ensures
            final(self).wf(),
            r is Ok <==> old(self).has_room() && old(self).spare() > 0,
            r is Err ==> *final(self) == *old(self) && r->Err_0 == if old(self).has_room() {
                StorageError::IoError
            } else {
                StorageError::PoolExhausted
            },
            final(self).spec_capacity() == old(self).spec_capacity(),
            final(self).spec_page_size() == old(self).spec_page_size(),
            r is Ok ==> {
                let id = r->Ok_0.0;
                &&& id == old(self).next_id()
                &&& id != 0
                &&& r->Ok_0.1.page_id == id
                &&& !old(self).allocated().contains(id)
                &&& final(self).allocated() == old(self).allocated().insert(id)
                &&& final(self).spare() == old(self).spare() - 1
                &&& final(self).content(id) == zero_page(old(self).spec_page_size())
                &&& final(self).pins(id) == 1
                &&& final(self).is_dirty(id)
                &&& final(self).resident() == old(self).resident_after_room().push(id)
                &&& forall|p: PageId|
                    #![trigger final(self).pins(p)]
                    p != id ==> final(self).pins(p) == old(self).pins(p)
                &&& forall|p: PageId|
                    #![trigger final(self).content(p)]
                    old(self).allocated().contains(p) ==> final(self).content(p) == old(
                        self,
                    ).content(p)
                &&& forall|p: PageId|
                    #![trigger final(self).is_dirty(p)]
                    p != id && final(self).is_resident(p) ==> final(self).is_dirty(p) == old(
                        self,
                    ).is_dirty(p)
            },
    {
        proof {
            self.store.lemma_wf();
        }
        let victim = self.find_victim();
        if self.frames.len() >= self.capacity && victim.is_none() {
            return Err(StorageError::PoolExhausted);
        }
        if self.free_list.len() == 0 && self.store.page_count() >= self.store.max_pages() as u64 {
            return Err(StorageError::IoError);
        }
        self.install_new()
    }

    /// The successful part of `allocate`: room is made, a page identifier
    /// is claimed, and a zeroed frame is put in.
    fn install_new(&mut self) -> (r: Result<(PageId, PageHandle), StorageError>)
        requires
            old(self).wf(),
            old(self).has_room(),
            old(self).spare() > 0,
        ensures
            final(self).wf(),
            r is Ok,
            final(self).spec_capacity() == old(self).spec_capacity(),
            final(self).spec_page_size() == old(self).spec_page_size(),
            r->Ok_0.0 == old(self).next_id(),
            r->Ok_0.0 != 0,
            r->Ok_0.1.page_id == r->Ok_0.0,
            !old(self).allocated().contains(r->Ok_0.0),
            final(self).allocated() == old(self).allocated().insert(r->Ok_0.0),
            final(self).spare() == old(self).spare() - 1,
            final(self).content(r->Ok_0.0) == zero_page(old(self).spec_page_size()),
            final(self).pins(r->Ok_0.0) == 1,
            final(self).is_dirty(r->Ok_0.0),
            final(self).resident() == old(self).resident_after_room().push(r->Ok_0.0),
            forall|p: PageId|
                #![trigger final(self).pins(p)]
                p != r->Ok_0.0 ==> final(self).pins(p) == old(self).pins(p),
            forall|p: PageId|
                #![trigger final(self).content(p)]
                old(self).allocated().contains(p) ==> final(self).content(p) == old(self).content(p),
            forall|p: PageId|
                #![trigger final(self).is_dirty(p)]
                p != r->Ok_0.0 && final(self).is_resident(p) ==> final(self).is_dirty(p) == old(
                    self,
                ).is_dirty(p),
    {
        match self.make_room() {
            Ok(()) => {},
            Err(e) => {
                return Err(e);
            },
        }
        let ghost mid1 = *self;
        proof {
            assert(mid1.allocated() =~= old(self).allocated());
            assert(mid1.spare() == old(self).spare());
            assert(mid1.next_id() == old(self).next_id());
        }
        let id = match self.claim_page() {
            Ok(id) => id,
            Err(e) => {
                return Err(e);
            },
        };
        let ghost mid2 = *self;
        let n = self.frames.len();
        let data = new_page(self.store.page_size());
        self.put_frame(n, Frame { page_id: id, data, pins: 1, dirty: true });
        proof {
            assert(final(self).resident() =~= old(self).resident_after_room().push(id));
            assert(final(self).allocated() == mid2.allocated());
            assert forall|p: PageId| p != id implies final(self).pins(p) == old(self).pins(p) by {
                assert(final(self).pins(p) == mid2.pins(p));
                assert(mid2.pins(p) == mid1.pins(p));
                assert(mid1.pins(p) == old(self).pins(p));
            }
            assert forall|p: PageId| old(self).allocated().contains(p) implies final(self).content(
                p,
            ) == old(self).content(p) by {
                assert(p < old(self).store@.len());
                assert(final(self).content(p) == mid2.content(p));
                assert(mid2.content(p) == mid1.content(p));
                assert(mid1.content(p) == old(self).content(p));
            }
            assert forall|p: PageId| p != id && final(self).is_resident(p) implies final(self).is_dirty(p) == old(self).is_dirty(p) by {
                assert(final(self).is_dirty(p) == mid2.is_dirty(p));
                assert(final(self).is_resident(p) == mid2.is_resident(p));
                assert(mid2.is_dirty(p) == mid1.is_dirty(p));
                assert(mid2.is_resident(p) == mid1.is_resident(p));
            }
        }
        Ok((id, PageHandle { page_id: id }))
    }

    /// Takes the next page identifier from the free list, or from the end
    /// of the store.
    fn claim_page(&mut self) -> (r: Result<PageId, StorageError>)
        requires
            old(self).wf(),
            old(self).spare() > 0,
        ensures
            final(self).wf(),
            r is Ok,
            r->Ok_0 == old(self).next_id(),
            r->Ok_0 != 0,
            !old(self).allocated().contains(r->Ok_0),
            final(self).allocated() == old(self).allocated().insert(r->Ok_0),
            final(self).spare() == old(self).spare() - 1,
            final(self).frames == old(self).frames,
            final(self).capacity == old(self).capacity,
            final(self).resident() == old(self).resident(),
            final(self).store.spec_page_size() == old(self).store.spec_page_size(),
            !final(self).is_resident(r->Ok_0),
            1 <= r->Ok_0 < final(self).store@.len(),
            !final(self).free_list@.contains(r->Ok_0),
            forall|p: PageId|
                #![trigger final(self).pins(p)]
                #![trigger final(self).is_resident(p)]
                #![trigger final(self).is_dirty(p)]
                #![trigger final(self).content(p)]
                {
                    &&& final(self).is_resident(p) == old(self).is_resident(p)
                    &&& final(self).pins(p) == old(self).pins(p)
                    &&& final(self).is_dirty(p) == old(self).is_dirty(p)
                    &&& (p < old(self).store@.len() ==> final(self).content(p) == old(self).content(
                        p,
                    ))
                },
    {
        proof {
            self.store.lemma_wf();
        }
        let ghost mid = *self;
        let id = match self.free_list.pop() {
            Some(id) => {
                proof {
                    assert(mid.free_list@.contains(id)) by {
                        assert(mid.free_list@[mid.free_list@.len() - 1] == id);
                    }
                    assert(self.free_list@.no_duplicates());
                    assert(!self.free_list@.contains(id)) by {
                        if self.free_list@.contains(id) {
                            let k = choose|k: int|
                                0 <= k < self.free_list@.len() && self.free_list@[k] == id;
                            assert(mid.free_list@[k] == id);
                        }
                    }
                }
                id
            },
            None => {
                match self.store.allocate_page() {
                    Ok(id) => id,
                    Err(e) => {
                        return Err(e);
                    },
                }
            },
        };
        proof {
            self.store.lemma_wf();
            assert(self.frames == mid.frames);
            assert(self.resident() =~= mid.resident());
            assert forall|j: int| 0 <= j < self.frames@.len() implies self.frames@[j].page_id
                != id && self.frame_ok(#[trigger] self.frames@[j]) by {
                assert(mid.frame_ok(mid.frames@[j]));
                let q = self.frames@[j].page_id;
                if self.free_list@.contains(q) {
                    let k = choose|k: int| 0 <= k < self.free_list@.len() && self.free_list@[k] == q;
                    assert(mid.free_list@[k] == q);
                }
            }
            assert(self.wf());
            self.lemma_absent(id);
            assert forall|p: PageId|
                {
                    &&& self.is_resident(p) == mid.is_resident(p)
                    &&& self.pins(p) == mid.pins(p)
                    &&& self.is_dirty(p) == mid.is_dirty(p)
                    &&& (p < mid.store@.len() ==> self.content(p) == mid.content(p))
                } by {
                if mid.is_resident(p) {
                    mid.lemma_resident(p);
                    mid.lemma_slot(mid.slot(p));
                    self.lemma_slot(mid.slot(p));
                } else {
                    mid.lemma_absent_page(p);
                    self.lemma_absent_page(p);
                }
            }
            assert(self.allocated() =~= mid.allocated().insert(id)) by {
                assert forall|q: PageId| self.allocated().contains(q) == (mid.allocated().contains(
                    q,
                ) || q == id) by {
                    if mid.free_list@.contains(q) && q != id {
                        let k = choose|k: int|
                            0 <= k < mid.free_list@.len() && mid.free_list@[k] == q;
                        if k < self.free_list@.len() {
                            assert(self.free_list@[k] == q);
                        }
                    }
                    if self.free_list@.contains(q) {
                        let k = choose|k: int|
                            0 <= k < self.free_list@.len() && self.free_list@[k] == q;
                        assert(mid.free_list@[k] == q);
                    }
                }
            }
        }
        Ok(id)
    }

    /// The number of pages in the store, the metadata page included.
    pub closed spec fn spec_page_count(&self) -> nat {
        self.store@.len()
    }

    /// The store underneath, as it stands: pages that are dirty in the
    /// pool have not reached it.
    pub fn store(&self) -> (r: &MemoryStore)
        requires
            self.wf(),
        ensures
            r.wf(),
            r@.len() == self.spec_page_count(),
            r.spec_page_size() == self.spec_page_size(),
            forall|p: PageId|
                #![trigger self.stored(p)]
                p < self.spec_page_count() ==> r@[p as int] == self.stored(p),
    {
        &self.store
    }

    /// The freed pages that await reuse; the last is handed out first.
    pub closed spec fn free_pages(&self) -> Seq<PageId> {
        self.free_list@
    }

    /// How the freed pages relate to the pages in use.
    pub proof fn lemma_free_pages(&self)
        requires
            self.wf(),
        ensures
            self.free_pages().no_duplicates(),
            self.allocated() == Set::new(
                |id: PageId| 1 <= id < self.spec_page_count() && !self.free_pages().contains(id),
            ),
            self.next_id() == if self.free_pages().len() > 0 {
                self.free_pages().last()
            } else {
                self.spec_page_count() as u64
            },
    {
    }

    /// Writes everything to the store and hands the store out: the dirty
    /// pages, the chain of free pages, and the metadata page with the
    /// given record of the tree. Reopening the store gives back a pool
    /// with the same pages in use, holding what they held.
    pub fn close(self, header: Header) -> (r: MemoryStore)
        requires
            self.wf(),
        ensures
            r.wf(),
            r@.len() == self.spec_page_count(),
            r.spec_page_size() == self.spec_page_size(),
            spec_header(r@[0]) == Some(header),
            spec_free_count(r@[0]) == self.free_pages().len(),
            free_chain(r@, spec_free_head(r@[0]), self.free_pages().len()) == Some(
                self.free_pages().reverse(),
            ),
            forall|p: PageId|
                #![trigger self.content(p)]
                self.allocated().contains(p) ==> r@[p as int] == self.content(p),
    {
        let mut pager = self;
        let _ = pager.flush_all();
        let ghost flushed = pager;
        let Pager { store, capacity, frames, free_list } = pager;
        let mut store = store;
        proof {
            store.lemma_wf();
            flushed.lemma_wf();
        }
        let page_size = store.page_size();
        let n = free_list.len();
        let mut k: usize = 0;
        let mut head: PageId = 0;
        let ghost base = store@;
        proof {
            assert(Seq::<PageId>::empty().reverse() =~= Seq::<PageId>::empty());
            assert(free_list@.subrange(0, 0) =~= Seq::<PageId>::empty());
        }
        while k < n
            invariant
                store.wf(),
                store.spec_page_size() == page_size,
                page_size >= 512,
                store@.len() == base.len(),
                n == free_list@.len(),
                k <= n,
                free_list@.no_duplicates(),
                forall|j: int| 0 <= j < n ==> 1 <= #[trigger] free_list@[j] < base.len(),
                head == if k == 0 {
                    0
                } else {
                    free_list@[k - 1]
                },
                free_chain(store@, head, k as nat) == Some(free_list@.subrange(0, k as int).reverse()),
                forall|p: PageId|
                    p < base.len() && !free_list@.contains(p) ==> #[trigger] store@[p as int]
                        == base[p as int],
            decreases n - k,
        {
            let id = free_list[k];
            let mut page = new_page(page_size);
            put_word(&mut page, 0, head);
            let ghost before = store@;
            let ghost chain = free_list@.subrange(0, k as int).reverse();
            match store.write_page(id, &page) {
                Ok(()) => {},
                Err(_) => {},
            }
            proof {
                assert(store@ == before.update(id as int, page@));
                assert forall|i: int| 0 <= i < chain.len() implies word(
                    store@[(#[trigger] chain[i]) as int],
                    0,
                ) == word(before[chain[i] as int], 0) by {
                    assert(chain[i] == free_list@[k - 1 - i]);
                    assert(free_list@[k - 1 - i] != free_list@[k as int]);
                }
                lemma_free_chain_frame(before, store@, head, k as nat);
                let upto = free_list@.subrange(0, k + 1).reverse();
                assert(upto =~= seq![id] + chain);
                assert forall|p: PageId|
                    p < base.len() && !free_list@.contains(p) implies #[trigger] store@[p as int]
                    == base[p as int] by {
                    assert(free_list@.contains(id));
                }
                assert(free_chain(store@, id, (k + 1) as nat) == Some(upto)) by {
                    assert(word(store@[id as int], 0) == head);
                }
            }
            head = id;
            k = k + 1;
        }
        let mut meta = new_page(page_size);
        put_word(&mut meta, 0, MAGIC);
        put_word(&mut meta, 1, page_size as u64);
        put_word(&mut meta, 2, header.root);
        put_word(&mut meta, 3, header.height);
        put_word(&mut meta, 4, header.fanout);
        put_word(&mut meta, 5, head);
        put_word(&mut meta, 6, n as u64);
        let ghost before = store@;
        match store.write_page(0, &meta) {
            Ok(()) => {},
            Err(_) => {},
        }
        proof {
            assert(free_list@ == self.free_pages());
            assert(base.len() == self.spec_page_count());
            assert(free_list@.subrange(0, n as int) =~= free_list@);
            let chain = free_list@.reverse();
            assert forall|i: int| 0 <= i < chain.len() implies word(
                store@[(#[trigger] chain[i]) as int],
                0,
            ) == word(before[chain[i] as int], 0) by {
                assert(chain[i] == free_list@[n - 1 - i]);
            }
            lemma_free_chain_frame(before, store@, head, n as nat);
            assert forall|p: PageId|
                #![trigger self.content(p)]
                self.allocated().contains(p) implies store@[p as int] == self.content(p) by {
                assert(flushed.content(p) == self.content(p));
                assert(flushed.stored(p) == flushed.content(p));
                assert(base[p as int] == flushed.stored(p));
            }
        }
        store
    }

    /// Takes up a store that was closed before: reads the metadata page
    /// and the chain of free pages, and makes a pool of `capacity` empty
    /// frames over the store. Fails with `CorruptNode` when page 0 is no
    /// metadata page of this store, or the free chain leaves the store,
    /// is longer than page 0 says, or names a page twice.
    pub fn reopen(store: MemoryStore, capacity: usize) -> (r: Result<(Pager, Header), StorageError>)
        requires
            store.wf(),
        ensures
            r is Ok <==> {
                &&& spec_header(store@[0]) is Some
                &&& free_chain(store@, spec_free_head(store@[0]), spec_free_count(store@[0]) as nat) is Some
                &&& free_chain(
                    store@,
                    spec_free_head(store@[0]),
                    spec_free_count(store@[0]) as nat,
                )->Some_0.no_duplicates()
            },
            r is Err ==> r->Err_0 == StorageError::CorruptNode,
            r is Ok ==> {
                let pager = r->Ok_0.0;
                &&& pager.wf()
                &&& pager.unpinned()
                &&& pager.spec_capacity() == capacity
                &&& pager.spec_page_size() == store.spec_page_size()
                &&& pager.spec_page_count() == store@.len()
                &&& pager.resident() == Seq::<PageId>::empty()
                &&& Some(r->Ok_0.1) == spec_header(store@[0])
                &&& pager.free_pages().reverse() == free_chain(
                    store@,
                    spec_free_head(store@[0]),
                    spec_free_count(store@[0]) as nat,
                )->Some_0
                &&& forall|p: PageId|
                    #![trigger pager.content(p)]
                    pager.allocated().contains(p) ==> pager.content(p) == store@[p as int]
            },
    {
        proof {
            store.lemma_wf();
        }
        let meta = match store.read_page(0) {
            Ok(page) => page,
            Err(_) => {
                return Err(StorageError::CorruptNode);
            },
        };
        let page_size = store.page_size();
        proof {
            store.lemma_page_len(0);
        }
        if get_word(&meta, 0) != MAGIC || get_word(&meta, 1) != page_size as u64 {
            return Err(StorageError::CorruptNode);
        }
        let header = Header {
            root: get_word(&meta, 2),
            height: get_word(&meta, 3),
            fanout: get_word(&meta, 4),
        };
        let first = get_word(&meta, 5);
        let count = get_word(&meta, 6);
        let pages = store.page_count();
        let mut walk: Vec<PageId> = Vec::new();
        let mut cur = first;
        let mut steps: u64 = 0;
        while cur != 0
            invariant
                store.wf(),
                pages == store@.len(),
                first == spec_free_head(store@[0]),
                count == spec_free_count(store@[0]),
                steps <= count,
                steps == walk@.len(),
                free_chain(store@, first, count as nat) == match free_chain(
                    store@,
                    cur,
                    (count - steps) as nat,
                ) {
                    Some(rest) => Some(walk@ + rest),
                    None => None,
                },
            decreases count - steps,
        {
            if steps >= count || cur >= pages {
                proof {
                    assert(free_chain(store@, cur, (count - steps) as nat) is None);
                }
                return Err(StorageError::CorruptNode);
            }
            let page = match store.read_page(cur) {
                Ok(b) => b,
                Err(_) => {
                    return Err(StorageError::CorruptNode);
                },
            };
            proof {
                store.lemma_page_len(cur as int);
            }
            let next = get_word(&page, 0);
            proof {
                let rest = free_chain(store@, next, (count - steps - 1) as nat);
                if rest is Some {
                    assert(walk@.push(cur) + rest->Some_0 =~= walk@ + (seq![cur] + rest->Some_0));
                }
            }
            walk.push(cur);
            cur = next;
            steps = steps + 1;
        }
        proof {
            assert(walk@ + Seq::<PageId>::empty() =~= walk@);
            lemma_free_chain_in_store(store@, first, count as nat);
        }
        // the chain, its head first, must name no page twice
        let n = walk.len();
        let mut a: usize = 0;
        let ghost chain = free_chain(store@, first, count as nat);
        while a < n
            invariant
                a <= n,
                n == walk@.len(),
                chain == Some(walk@),
                chain == free_chain(store@, spec_free_head(store@[0]), spec_free_count(store@[0]) as nat),
                forall|x: int, y: int| 0 <= x < a && x < y < n ==> walk@[x] != walk@[y],
            decreases n - a,
        {
            let mut b: usize = a + 1;
            while b < n
                invariant
                    a < b <= n,
                    n == walk@.len(),
                    chain == Some(walk@),
                    chain == free_chain(
                        store@,
                        spec_free_head(store@[0]),
                        spec_free_count(store@[0]) as nat,
                    ),
                    forall|y: int| a < y < b ==> walk@[a as int] != walk@[y],
                decreases n - b,
            {
                if walk[a] == walk[b] {
                    return Err(StorageError::CorruptNode);
                }
                b = b + 1;
            }
            a = a + 1;
        }
        let mut free_list: Vec<PageId> = Vec::new();
        let mut k: usize = n;
        while k > 0
            invariant
                k <= n,
                n == walk@.len(),
                free_list@.len() == n - k,
                forall|j: int| 0 <= j < n - k ==> free_list@[j] == walk@[n - 1 - j],
            decreases k,
        {
            k = k - 1;
            free_list.push(walk[k]);
        }
        let pager = Pager { store, capacity, frames: Vec::new(), free_list };
        proof {
            assert(pager.free_list@ =~= walk@.reverse());
            assert(pager.free_list@.reverse() =~= walk@);
            assert(pager.resident() =~= Seq::<PageId>::empty());
            assert(walk@.no_duplicates());
            assert forall|p: PageId| pager.pins(p) == 0 by {}
        }
        Ok((pager, header))
    }

    /// Brings a page into the pool as a fetch does and gives the handle
    /// back at once: the page becomes the most recently used, and no pin
    /// count changes.
    ///
    /// Fails as a fetch does, with `PageNotFound` or `PoolExhausted`, and
    /// then changes nothing. Otherwise no page's contents change, no page
    /// becomes dirty, every pinned page stays where it is, and every page
    /// that could be fetched before can be fetched afterwards.
    pub fn touch(&mut self, id: PageId) -> (r: Result<(), StorageError>)
        requires
            old(self).wf(),
        ensures
            final(self).wf(),
            final(self).same_pages(old(self)),
            r is Ok <==> old(self).fetchable(id),
            r is Err ==> *final(self) == *old(self),
            r is Err ==> r->Err_0 == if old(self).allocated().contains(id) {
                StorageError::PoolExhausted
            } else {
                StorageError::PageNotFound
            },
            r is Ok ==> final(self).is_resident(id),
            final(self).resident() == if r is Err {
                old(self).resident()
            } else if old(self).is_resident(id) {
                old(self).resident().remove(old(self).resident().index_of(id)).push(id)
            } else {
                old(self).resident_after_room().push(id)
            },
            forall|p: PageId| #![trigger final(self).pins(p)] final(self).pins(p) == old(self).pins(p),
            forall|p: PageId|
                #![trigger final(self).is_dirty(p)]
                final(self).is_dirty(p) ==> old(self).is_dirty(p),
            forall|p: PageId|
                #![trigger final(self).is_resident(p)]
                old(self).pins(p) > 0 ==> final(self).is_resident(p) && final(self).is_dirty(p)
                    == old(self).is_dirty(p),
            forall|p: PageId|
                #![trigger final(self).fetchable(p)]
                final(self).fetchable(p) == old(self).fetchable(p),
    {
        let handle = match self.fetch(id) {
            Ok(h) => h,
            Err(e) => {
                return Err(e);
            },
        };
        self.release(handle);
        proof {
            assert(self.allocated() =~= old(self).allocated());
            if old(self).is_resident(id) {
                lemma_touched_hit(old(self), self, id);
            } else {
                lemma_touched_miss(old(self), self, id);
            }
        }
        Ok(())
    }

    /// The contents of a resident page, pinned or not; `None` when the
    /// page is not resident.
    pub fn resident_data(&self, id: PageId) -> (r: Option<&Vec<u8>>)
        requires
            self.wf(),
        ensures
            r is Some <==> self.is_resident(id),
            r is Some ==> r->Some_0@ == self.content(id),
    {
        match self.find_frame(id) {
            Some(i) => {
                proof {
                    self.lemma_slot(i as int);
                }
                Some(&self.frames[i].data)
            },
            None => None,
        }
    }
}

/// What the two pools have in common when the second comes from the
/// first by a fetch of `id` and the release of its handle.
spec fn touched(a: &Pager, b: &Pager, id: PageId) -> bool {
    &&& a.wf()
    &&& b.wf()
    &&& a.fetchable(id)
    &&& b.allocated() == a.allocated()
    &&& b.spec_capacity() == a.spec_capacity()
    &&& forall|p: PageId| #![trigger b.pins(p)] b.pins(p) == a.pins(p)
    &&& b.is_dirty(id) == a.is_dirty(id)
    &&& forall|p: PageId|
        #![trigger b.is_dirty(p)]
        p != id && b.is_resident(p) ==> b.is_dirty(p) == a.is_dirty(p)
    &&& b.resident() == if a.is_resident(id) {
        a.resident().remove(a.resident().index_of(id)).push(id)
    } else {
        a.resident_after_room().push(id)
    }
}

/// What a touch of a resident page keeps.
proof fn lemma_touched_hit(a: &Pager, b: &Pager, id: PageId)
    requires
        touched(a, b, id),
        a.is_resident(id),
    ensures
        b.is_resident(id),
        forall|p: PageId| #![trigger b.is_dirty(p)] b.is_dirty(p) ==> a.is_dirty(p),
        forall|p: PageId|
            #![trigger b.is_resident(p)]
            a.pins(p) > 0 ==> b.is_resident(p) && b.is_dirty(p) == a.is_dirty(p),
        forall|p: PageId| #![trigger b.fetchable(p)] b.fetchable(p) == a.fetchable(p),
{
    a.lemma_wf();
    b.lemma_wf();
    let r0 = a.resident();
    let r1 = b.resident();
    let k = r0.index_of(id);
    assert(r0.contains(id));
    assert(0 <= k < r0.len() && r0[k] == id);
    assert(r1.len() == r0.len());
    assert forall|p: PageId| r1.contains(p) == r0.contains(p) by {
        if r0.contains(p) {
            let j = choose|j: int| 0 <= j < r0.len() && r0[j] == p;
            if j < k {
                assert(r1[j] == p);
            } else if j == k {
                assert(r1[r1.len() - 1] == p);
            } else {
                assert(r1[j - 1] == p);
            }
        }
        if r1.contains(p) {
            let j = choose|j: int| 0 <= j < r1.len() && r1[j] == p;
            if j == r1.len() - 1 {
                assert(r0[k] == p);
            } else if j < k {
                assert(r0[j] == p);
            } else {
                assert(r0[j + 1] == p);
            }
        }
    }
    assert forall|p: PageId| #![trigger b.is_resident(p)] b.is_resident(p) == a.is_resident(p) by {
        assert(r1.contains(p) == r0.contains(p));
    }
    if exists|i: int| 0 <= i < r0.len() && a.pins(r0[i]) == 0 {
        let i = choose|i: int| 0 <= i < r0.len() && a.pins(r0[i]) == 0;
        assert(r0.contains(r0[i]));
        assert(r1.contains(r0[i]));
        let j = choose|j: int| 0 <= j < r1.len() && r1[j] == r0[i];
        assert(b.pins(r1[j]) == 0);
    }
    if exists|i: int| 0 <= i < r1.len() && b.pins(r1[i]) == 0 {
        let i = choose|i: int| 0 <= i < r1.len() && b.pins(r1[i]) == 0;
        assert(r1.contains(r1[i]));
        assert(r0.contains(r1[i]));
        let j = choose|j: int| 0 <= j < r0.len() && r0[j] == r1[i];
        assert(a.pins(r0[j]) == 0);
    }
    assert(b.has_room() == a.has_room());
}

/// Taking one element out of a sequence keeps every other element and
/// brings in none.
proof fn lemma_remove_members(r0: Seq<PageId>, v: int)
    requires
        0 <= v < r0.len(),
    ensures
        forall|p: PageId| #![trigger r0.remove(v).contains(p)] r0.remove(v).contains(p) ==> r0.contains(p),
        forall|p: PageId|
            #![trigger r0.remove(v).contains(p)]
            r0.contains(p) && p != r0[v] ==> r0.remove(v).contains(p),
{
    let ra = r0.remove(v);
    assert forall|p: PageId| #![trigger ra.contains(p)] ra.contains(p) implies r0.contains(p) by {
        let j = choose|j: int| 0 <= j < ra.len() && ra[j] == p;
        if j < v {
            assert(r0[j] == p);
        } else {
            assert(r0[j + 1] == p);
        }
    }
    assert forall|p: PageId|
        #![trigger ra.contains(p)]
        r0.contains(p) && p != r0[v] implies ra.contains(p) by {
        let j = choose|j: int| 0 <= j < r0.len() && r0[j] == p;
        if j < v {
            assert(ra[j] == p);
        } else {
            assert(ra[j - 1] == p);
        }
    }
}

/// Where a resident page is not pinned, the least recently used such
/// page is one.
proof fn lemma_victim(a: &Pager, i: int)
    requires
        0 <= i < a.resident().len(),
        a.pins(a.resident()[i]) == 0,
    ensures
        0 <= a.lru_unpinned_index() < a.resident().len(),
        a.pins(a.resident()[a.lru_unpinned_index()]) == 0,
    decreases i,
{
    let r = a.resident();
    if exists|j: int| 0 <= j < i && a.pins(r[j]) == 0 {
        let j = choose|j: int| 0 <= j < i && a.pins(r[j]) == 0;
        lemma_victim(a, j);
    } else {
        assert(0 <= i < r.len() && a.pins(r[i]) == 0 && forall|j: int|
            0 <= j < i ==> a.pins(#[trigger] r[j]) > 0);
    }
}

/// Making room keeps every pinned page and brings in none.
proof fn lemma_after_room(a: &Pager)
    requires
        a.has_room(),
    ensures
        forall|p: PageId|
            #![trigger a.resident_after_room().contains(p)]
            a.resident_after_room().contains(p) ==> a.resident().contains(p),
        forall|p: PageId|
            #![trigger a.resident_after_room().contains(p)]
            a.resident().contains(p) && a.pins(p) > 0 ==> a.resident_after_room().contains(p),
{
    let r0 = a.resident();
    if r0.len() >= a.spec_capacity() {
        let i = choose|i: int| 0 <= i < r0.len() && a.pins(r0[i]) == 0;
        lemma_victim(a, i);
        lemma_remove_members(r0, a.lru_unpinned_index());
    }
}

/// A pool with a resident page that is not pinned has room.
proof fn lemma_unpinned_is_room(b: &Pager, i: int)
    requires
        0 <= i < b.resident().len(),
        b.pins(b.resident()[i]) == 0,
    ensures
        b.has_room(),
{
}

/// What a touch of a page that was not resident keeps.
proof fn lemma_touched_miss(a: &Pager, b: &Pager, id: PageId)
    requires
        touched(a, b, id),
        !a.is_resident(id),
    ensures
        b.is_resident(id),
        forall|p: PageId| #![trigger b.is_dirty(p)] b.is_dirty(p) ==> a.is_dirty(p),
        forall|p: PageId|
            #![trigger b.is_resident(p)]
            a.pins(p) > 0 ==> b.is_resident(p) && b.is_dirty(p) == a.is_dirty(p),
        forall|p: PageId| #![trigger b.fetchable(p)] b.fetchable(p) == a.fetchable(p),
{
    a.lemma_wf();
    b.lemma_wf();
    lemma_after_room(a);
    let r0 = a.resident();
    let r1 = b.resident();
    let ra = a.resident_after_room();
    let z = r1.len() - 1;
    assert(r1[z] == id);
    assert(r1.contains(id));
    assert(a.pins(id) == 0);
    lemma_unpinned_is_room(b, z);
    assert forall|p: PageId| #![trigger r1.contains(p)] r1.contains(p) == (p == id || ra.contains(
        p,
    )) by {
        if r1.contains(p) {
            let j = choose|j: int| 0 <= j < r1.len() && r1[j] == p;
            if j < z {
                assert(ra[j] == p);
            }
        }
        if ra.contains(p) {
            let j = choose|j: int| 0 <= j < ra.len() && ra[j] == p;
            assert(r1[j] == p);
        }
    }
    assert forall|p: PageId| #![trigger b.is_resident(p)] a.pins(p) > 0 implies b.is_resident(p)
        && b.is_dirty(p) == a.is_dirty(p) by {
        assert(r0.contains(p));
        assert(ra.contains(p));
        assert(r1.contains(p));
    }
    assert forall|p: PageId| #![trigger b.is_dirty(p)] b.is_dirty(p) implies a.is_dirty(p) by {}
    assert forall|p: PageId| #![trigger b.fetchable(p)] b.fetchable(p) == a.fetchable(p) by {
        assert(r1.contains(p) == (p == id || ra.contains(p)));
        if a.is_resident(p) && a.pins(p) > 0 {
            assert(r0.contains(p));
            assert(ra.contains(p));
        }
    }
}

} // verus!
