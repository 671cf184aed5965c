//! The page store underneath the buffer pool: a flat sequence of fixed-size
//! pages that are read and written whole. It knows nothing of what a page
//! holds.

use vstd::prelude::*;
use crate::error::StorageError;

verus! {

/// Identifies a page of the store. Page 0 holds the store's metadata and
/// doubles as "no page".
pub type PageId = u64;

/// The identifier that stands for "no page".
pub const NULL_PAGE: PageId = 0;

/// The page size used when none is configured.
pub const DEFAULT_PAGE_SIZE: usize = 4096;

/// The smallest page size.
pub const MIN_PAGE_SIZE: usize = 512;

/// The largest page size.
pub const MAX_PAGE_SIZE: usize = 65536;

/// A page size is a power of two between 512 and 65536 bytes.
pub open spec fn spec_valid_page_size(n: int) -> bool {
    n == 512 || n == 1024 || n == 2048 || n == 4096 || n == 8192 || n == 16384 || n == 32768
        || n == 65536
}

/// Whether `n` can be the page size of a store.
pub fn valid_page_size(n: usize) -> (r: bool)
    ensures
        r == spec_valid_page_size(n as int),
{
    n == 512 || n == 1024 || n == 2048 || n == 4096 || n == 8192 || n == 16384 || n == 32768
        || n == 65536
}

/// A page of `n` zero bytes.
pub open spec fn zero_page(n: nat) -> Seq<u8> {
    Seq::new(n, |i: int| 0u8)
}

/// Makes a page of `n` zero bytes.
pub fn new_page(n: usize) -> (r: Vec<u8>)
    ensures
        r@ == zero_page(n as nat),
{
    let mut page: Vec<u8> = Vec::new();
    let mut i: usize = 0;
    while i < n
        invariant
            i <= n,
            page@ == zero_page(i as nat),
        decreases n - i,
    {
        page.push(0u8);
        i = i + 1;
        assert(page@ =~= zero_page(i as nat));
    }
    page
}

/// Copies a byte buffer.
pub fn copy_page(src: &Vec<u8>) -> (r: Vec<u8>)
    ensures
        r@ == src@,
{
    let mut page: Vec<u8> = Vec::new();
    let mut i: usize = 0;
    while i < src.len()
        invariant
            i <= src.len(),
            page@ == src@.subrange(0, i as int),
        decreases src.len() - i,
    {
        page.push(src[i]);
        i = i + 1;
        assert(page@ =~= src@.subrange(0, i as int));
    }
    assert(src@.subrange(0, src.len() as int) =~= src@);
    page
}

/// The pages of a store laid end to end: the form in which a store is
/// kept in a file.
pub open spec fn spec_image(pages: Seq<Seq<u8>>, page_size: int) -> Seq<u8> {
    Seq::new((pages.len() * page_size) as nat, |k: int| pages[k / page_size][k % page_size])
}

/// Byte `j` of page `i` is byte `i * page_size + j` of the image.
pub proof fn lemma_image_index(i: int, j: int, page_size: int)
    requires
        0 <= i,
        0 <= j < page_size,
    ensures
        (i * page_size + j) / page_size == i,
        (i * page_size + j) % page_size == j,
        i * page_size + j < (i + 1) * page_size,
        (i + 1) * page_size == i * page_size + page_size,
        0 <= i * page_size,
{
    vstd::arithmetic::div_mod::lemma_fundamental_div_mod_converse(
        i * page_size + j,
        page_size,
        i,
        j,
    );
    assert((i + 1) * page_size == i * page_size + page_size) by (nonlinear_arith);
    assert(0 <= i * page_size) by (nonlinear_arith)
        requires
            0 <= i,
            0 < page_size,
    ;
}

/// The two modes of the store's advisory lock.
#[derive(Debug, Clone, Copy, PartialEq, Eq, Structural)]
pub enum LockMode {
    /// Any number of holders may share the store.
    Shared,
    /// One holder has the store to itself.
    Exclusive,
}

/// Proof of a granted lock; handed back to `unlock`.
#[derive(Debug, Clone, Copy, PartialEq, Eq, Structural)]
pub struct LockGuard {
    pub mode: LockMode,
}

/// A store held in memory.
pub struct MemoryStore {
    page_size: usize,
    max_pages: usize,
    pages: Vec<Vec<u8>>,
    readers: usize,
    writer: bool,
}

impl View for MemoryStore {
    type V = Seq<Seq<u8>>;

    /// The pages of the store, by identifier.
    closed spec fn view(&self) -> Seq<Seq<u8>> {
        Seq::new(self.pages@.len(), |i: int| self.pages@[i]@)
    }
}

impl MemoryStore {
    /// The size of every page, in bytes.
    pub closed spec fn spec_page_size(&self) -> nat {
        self.page_size as nat
    }

    /// The number of pages that the store can grow to.
    pub closed spec fn spec_max_pages(&self) -> nat {
        self.max_pages as nat
    }

    /// How many holders share the lock.
    pub closed spec fn shared_holders(&self) -> nat {
        self.readers as nat
    }

    /// Whether the lock is held exclusively.
    pub closed spec fn exclusive_held(&self) -> bool {
        self.writer
    }

    /// The store's invariant: a valid page size, every page of that size,
    /// page 0 present, no more pages than the limit, and never a shared and
    /// an exclusive holder at once.
    pub closed spec fn wf(&self) -> bool {
        &&& spec_valid_page_size(self.page_size as int)
        &&& 1 <= self.pages@.len() <= self.max_pages
        &&& self.max_pages < u64::MAX
        &&& forall|i: int| 0 <= i < self.pages@.len() ==> (#[trigger] self.pages@[i])@.len() == self.page_size
        &&& !(self.writer && self.readers > 0)
    }

    /// Every page of a well-formed store has the store's page size.
    pub proof fn lemma_page_len(&self, id: int)
        requires
            self.wf(),
            0 <= id < self@.len(),
        ensures
            self@[id].len() == self.spec_page_size(),
            spec_valid_page_size(self.spec_page_size() as int),
            1 <= self@.len() <= self.spec_max_pages(),
            self.spec_max_pages() < u64::MAX,
    {
    }

    /// What holds of every well-formed store.
    pub proof fn lemma_wf(&self)
        requires
            self.wf(),
        ensures
            spec_valid_page_size(self.spec_page_size() as int),
            1 <= self@.len() <= self.spec_max_pages(),
            self.spec_max_pages() < u64::MAX,
            forall|id: int| 0 <= id < self@.len() ==> (#[trigger] self@[id]).len() == self.spec_page_size(),
            !(self.exclusive_held() && self.shared_holders() > 0),
    {
    }

    /// Tests the store's invariant.
    pub fn is_well_formed(&self) -> (r: bool)
        ensures
            r == self.wf(),
    {
        let n = self.pages.len();
        if !valid_page_size(self.page_size) || n < 1 || n > self.max_pages || self.max_pages as u64
            == u64::MAX || (self.writer && self.readers > 0) {
            return false;
        }
        let mut i: usize = 0;
        while i < n
            invariant
                i <= n,
                n == self.pages@.len(),
                forall|j: int| 0 <= j < i ==> (#[trigger] self.pages@[j])@.len() == self.page_size,
            decreases n - i,
        {
            if self.pages[i].len() != self.page_size {
                return false;
            }
            i = i + 1;
        }
        true
    }

    /// Whether page `id` of the store holds exactly `bytes`.
    pub fn page_is(&self, id: PageId, bytes: &Vec<u8>) -> (r: bool)
        ensures
            r == (id < self@.len() && self@[id as int] == bytes@),
    {
        if id >= self.pages.len() as u64 {
            return false;
        }
        let page = &self.pages[id as usize];
        let n = page.len();
        assert(page@ == self@[id as int]);
        if bytes.len() != n {
            return false;
        }
        let mut i: usize = 0;
        while i < n
            invariant
                i <= n,
                n == page@.len(),
                n == bytes@.len(),
                page@ == self@[id as int],
                forall|j: int| 0 <= j < i ==> page@[j] == bytes@[j],
            decreases n - i,
        {
            if page[i] != bytes[i] {
                return false;
            }
            i = i + 1;
        }
        assert(page@ =~= bytes@);
        true
    }

    /// A store of one zeroed page, the metadata page, that can grow to
    /// `max_pages` pages. `None` when the page size is not valid or the
    /// limit leaves no room for page 0.
    pub fn new(page_size: usize, max_pages: usize) -> (r: Option<MemoryStore>)
        ensures
            r is Some <==> spec_valid_page_size(page_size as int) && 1 <= max_pages < u64::MAX,
            r is Some ==> {
                let s = r->Some_0;
                &&& s.wf()
                &&& s@ == seq![zero_page(page_size as nat)]
                &&& s.spec_page_size() == page_size
                &&& s.spec_max_pages() == max_pages
                &&& s.shared_holders() == 0
                &&& !s.exclusive_held()
            },
    {
        if !valid_page_size(page_size) || max_pages < 1 || max_pages as u64 == u64::MAX {
            return None;
        }
        let mut pages: Vec<Vec<u8>> = Vec::new();
        pages.push(new_page(page_size));
        let s = MemoryStore { page_size, max_pages, pages, readers: 0, writer: false };
        assert(s@ =~= seq![zero_page(page_size as nat)]);
        Some(s)
    }

    /// The size of every page, in bytes.
    pub fn page_size(&self) -> (r: usize)
        ensures
            r == self.spec_page_size(),
    {
        self.page_size
    }

    /// The number of pages that the store can grow to.
    pub fn max_pages(&self) -> (r: usize)
        ensures
            r == self.spec_max_pages(),
    {
        self.max_pages
    }

    /// The number of pages in the store.
    pub fn page_count(&self) -> (r: u64)
        requires
            self.wf(),
        ensures
            r == self@.len(),
    {
        self.pages.len() as u64
    }

    /// Reads one page. Fails with `IoError` exactly when the identifier is
    /// out of bounds.
    pub fn read_page(&self, id: PageId) -> (r: Result<Vec<u8>, StorageError>)
        requires
            self.wf(),
        ensures
            match r {
                Ok(bytes) => id < self@.len() && bytes@ == self@[id as int],
                Err(e) => e == StorageError::IoError && id >= self@.len(),
            },
    {
        if id >= self.pages.len() as u64 {
            return Err(StorageError::IoError);
        }
        Ok(copy_page(&self.pages[id as usize]))
    }

    /// Writes one page, whole or not at all. Fails with `IoError` exactly
    /// when the identifier is out of bounds or the buffer is not one page
    /// long; the store is then unchanged.
    pub fn write_page(&mut self, id: PageId, bytes: &Vec<u8>) -> (r: Result<(), StorageError>)
        requires
            old(self).wf(),
        ensures
            final(self).wf(),
            final(self).spec_page_size() == old(self).spec_page_size(),
            final(self).spec_max_pages() == old(self).spec_max_pages(),
            final(self).shared_holders() == old(self).shared_holders(),
            final(self).exclusive_held() == old(self).exclusive_held(),
            r is Ok <==> id < old(self)@.len() && bytes@.len() == old(self).spec_page_size(),
            r is Ok ==> final(self)@ == old(self)@.update(id as int, bytes@),
            r is Err ==> r == Err::<(), StorageError>(StorageError::IoError) && final(self)@ == old(self)@,
    {
        if id >= self.pages.len() as u64 || bytes.len() != self.page_size {
            return Err(StorageError::IoError);
        }
        let copy = copy_page(bytes);
        self.pages.set(id as usize, copy);
        assert(self@ =~= old(self)@.update(id as int, bytes@));
        Ok(())
    }

    /// Appends a zeroed page and returns its identifier. Fails with
    /// `IoError` exactly when the store is at its limit.
    pub fn allocate_page(&mut self) -> (r: Result<PageId, StorageError>)
        requires
            old(self).wf(),
        ensures
            final(self).wf(),
            final(self).spec_page_size() == old(self).spec_page_size(),
            final(self).spec_max_pages() == old(self).spec_max_pages(),
            final(self).shared_holders() == old(self).shared_holders(),
            final(self).exclusive_held() == old(self).exclusive_held(),
            r is Ok <==> old(self)@.len() < old(self).spec_max_pages(),
            r is Ok ==> r->Ok_0 == old(self)@.len() && final(self)@ == old(self)@.push(
                zero_page(old(self).spec_page_size()),
            ),
            r is Err ==> r == Err::<PageId, StorageError>(StorageError::IoError) && final(self)@ == old(
                self,
            )@,
    {
        if self.pages.len() >= self.max_pages {
            return Err(StorageError::IoError);
        }
        let id = self.pages.len() as u64;
        self.pages.push(new_page(self.page_size));
        assert(self@ =~= old(self)@.push(zero_page(old(self).spec_page_size())));
        Ok(id)
    }

    /// Asks for the advisory lock over the whole store. A shared lock is
    /// granted unless the store is held exclusively; an exclusive lock is
    /// granted only when nobody holds the store. `None` when the lock is
    /// not granted; nothing changes then.
    pub fn lock(&mut self, mode: LockMode) -> (r: Option<LockGuard>)
        requires
            old(self).wf(),
        ensures
            final(self).wf(),
            final(self)@ == old(self)@,
            final(self).spec_page_size() == old(self).spec_page_size(),
            final(self).spec_max_pages() == old(self).spec_max_pages(),
            match mode {
                LockMode::Shared => {
                    &&& r is Some <==> !old(self).exclusive_held() && old(self).shared_holders()
                        < usize::MAX
                    &&& r is Some ==> final(self).shared_holders() == old(self).shared_holders() + 1
                        && !final(self).exclusive_held()
                },
                LockMode::Exclusive => {
                    &&& r is Some <==> !old(self).exclusive_held() && old(self).shared_holders() == 0
                    &&& r is Some ==> final(self).shared_holders() == 0 && final(self).exclusive_held()
                },
            },
            r is Some ==> r->Some_0.mode == mode,
            r is None ==> final(self).shared_holders() == old(self).shared_holders()
                && final(self).exclusive_held() == old(self).exclusive_held(),
    {
        match mode {
            LockMode::Shared => {
                if self.writer || self.readers == usize::MAX {
                    None
                } else {
                    self.readers = self.readers + 1;
                    Some(LockGuard { mode })
                }
            },
            LockMode::Exclusive => {
                if self.writer || self.readers > 0 {
                    None
                } else {
                    self.writer = true;
                    Some(LockGuard { mode })
                }
            },
        }
    }

    /// Gives a lock back. A guard for a lock that is not held changes
    /// nothing.
    pub fn unlock(&mut self, guard: LockGuard)
        requires
            old(self).wf(),
        ensures
            final(self).wf(),
            final(self)@ == old(self)@,
            final(self).spec_page_size() == old(self).spec_page_size(),
            final(self).spec_max_pages() == old(self).spec_max_pages(),
            match guard.mode {
                LockMode::Shared => {
                    &&& final(self).exclusive_held() == old(self).exclusive_held()
                    &&& final(self).shared_holders() == if old(self).shared_holders() > 0 {
                        old(self).shared_holders() - 1
                    } else {
                        0
                    }
                },
                LockMode::Exclusive => {
                    &&& !final(self).exclusive_held()
                    &&& final(self).shared_holders() == old(self).shared_holders()
                },
            },
    {
        match guard.mode {
            LockMode::Shared => {
                if self.readers > 0 {
                    self.readers = self.readers - 1;
                }
            },
            LockMode::Exclusive => {
                self.writer = false;
            },
        }
    }

    /// Forces written pages to the medium. In memory every write is already
    /// in place, so the store does not change and the call cannot fail.
    pub fn sync(&mut self) -> (r: Result<(), StorageError>)
        requires
            old(self).wf(),
        ensures
            r is Ok,
            *final(self) == *old(self),
    {
        Ok(())
    }

    /// The pages of the store laid end to end.
    pub fn to_image(&self) -> (r: Vec<u8>)
        requires
            self.wf(),
        ensures
            r@ == spec_image(self@, self.spec_page_size() as int),
    {
        let ps = self.page_size;
        let n = self.pages.len();
        let mut out: Vec<u8> = Vec::new();
        let mut i: usize = 0;
        while i < n
            invariant
                self.wf(),
                ps == self.page_size,
                n == self.pages@.len(),
                i <= n,
                out@.len() == i * ps,
                forall|k: int| 0 <= k < out@.len() ==> out@[k] == self@[k / (ps as int)][k % (ps as int)],
            decreases n - i,
        {
            let mut j: usize = 0;
            while j < ps
                invariant
                    self.wf(),
                    ps == self.page_size,
                    n == self.pages@.len(),
                    i < n,
                    j <= ps,
                    out@.len() == i * ps + j,
                    forall|k: int|
                        0 <= k < out@.len() ==> out@[k] == self@[k / (ps as int)][k % (ps as int)],
                decreases ps - j,
            {
                proof {
                    lemma_image_index(i as int, j as int, ps as int);
                }
                out.push(self.pages[i][j]);
                j = j + 1;
            }
            proof {
                lemma_image_index(i as int, 0, ps as int);
            }
            i = i + 1;
        }
        proof {
            assert(out@ =~= spec_image(self@, ps as int));
        }
        out
    }

    /// The store whose pages, laid end to end, are the given bytes.
    /// `None` when the page size is not valid, the bytes are not a whole
    /// number of pages, at least one, or the pages are more than
    /// `max_pages`.
    pub fn from_image(bytes: &Vec<u8>, page_size: usize, max_pages: usize) -> (r: Option<MemoryStore>)
        ensures
            r is Some <==> {
                &&& spec_valid_page_size(page_size as int)
                &&& bytes@.len() >= page_size
                &&& (bytes@.len() as int) % (page_size as int) == 0
                &&& (bytes@.len() as int) / (page_size as int) <= max_pages
                &&& max_pages < u64::MAX
            },
            r is Some ==> {
                let s = r->Some_0;
                &&& s.wf()
                &&& s.spec_page_size() == page_size
                &&& s.spec_max_pages() == max_pages
                &&& s.shared_holders() == 0
                &&& !s.exclusive_held()
                &&& s@.len() == (bytes@.len() as int) / (page_size as int)
                &&& spec_image(s@, page_size as int) == bytes@
            },
    {
        if !valid_page_size(page_size) {
            return None;
        }
        let len = bytes.len();
        if len < page_size || len % page_size != 0 || len / page_size > max_pages || max_pages as u64
            == u64::MAX {
            return None;
        }
        let count = len / page_size;
        let ghost ps = page_size as int;
        proof {
            vstd::arithmetic::div_mod::lemma_fundamental_div_mod(len as int, ps);
            assert(len == ps * (count as int));
        }
        let mut pages: Vec<Vec<u8>> = Vec::new();
        let mut i: usize = 0;
        let mut off: usize = 0;
        while i < count
            invariant
                i <= count,
                ps == page_size,
                ps >= 512,
                len == bytes@.len(),
                len == ps * (count as int),
                off == i * ps,
                pages@.len() == i,
                forall|a: int| 0 <= a < i ==> (#[trigger] pages@[a])@.len() == ps,
                forall|a: int, b: int|
                    #![trigger pages@[a]@[b]]
                    0 <= a < i && 0 <= b < ps ==> pages@[a]@[b] == bytes@[a * ps + b],
            decreases count - i,
        {
            proof {
                lemma_image_index(i as int, 0, ps);
                assert((i + 1) * ps <= count * ps) by (nonlinear_arith)
                    requires
                        i + 1 <= count,
                        0 < ps,
                ;
                assert(ps * (count as int) == count * ps) by (nonlinear_arith);
            }
            let mut page: Vec<u8> = Vec::new();
            let mut j: usize = 0;
            while j < page_size
                invariant
                    j <= page_size,
                    ps == page_size,
                    off + ps <= len,
                    len == bytes@.len(),
                    page@.len() == j,
                    forall|b: int| 0 <= b < j ==> page@[b] == bytes@[off + b],
                decreases page_size - j,
            {
                page.push(bytes[off + j]);
                j = j + 1;
            }
            pages.push(page);
            off = off + page_size;
            i = i + 1;
        }
        let s = MemoryStore { page_size, max_pages, pages, readers: 0, writer: false };
        proof {
            assert(count >= 1) by (nonlinear_arith)
                requires
                    len >= ps,
                    len == ps * (count as int),
                    ps > 0,
            ;
            assert(ps * (count as int) == count * ps) by (nonlinear_arith);
            assert forall|k: int| 0 <= k < len implies spec_image(s@, ps)[k] == bytes@[k] by {
                let a = k / ps;
                let b = k % ps;
                vstd::arithmetic::div_mod::lemma_fundamental_div_mod(k, ps);
                assert(k == ps * a + b);
                assert(0 <= b < ps);
                assert(ps * a == a * ps) by (nonlinear_arith);
                assert(0 <= a < count) by (nonlinear_arith)
                    requires
                        0 <= k < ps * (count as int),
                        k == ps * a + b,
                        0 <= b < ps,
                        ps > 0,
                ;
                assert(s@[a][b] == s.pages@[a]@[b]);
            }
            assert(spec_image(s@, ps) =~= bytes@);
        }
        Some(s)
    }
}

} // verus!
