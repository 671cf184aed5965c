use btree_store::error::StorageError;
use btree_store::os_interface::{valid_page_size, LockMode, MemoryStore};
use btree_store::pager::Pager;

fn pool(capacity: usize, max_pages: usize) -> Pager {
    let store = MemoryStore::new(512, max_pages).unwrap();
    Pager::new(store, capacity)
}

#[test]
fn page_sizes_are_powers_of_two_in_range() {
    for n in [512usize, 1024, 2048, 4096, 8192, 16384, 32768, 65536] {
        assert!(valid_page_size(n));
    }
    for n in [0usize, 1, 256, 511, 513, 1000, 4095, 65537, 131072] {
        assert!(!valid_page_size(n));
        assert!(MemoryStore::new(n, 10).is_none());
    }
    assert!(MemoryStore::new(4096, 0).is_none());
}

#[test]
fn store_reads_what_was_written() {
    let mut store = MemoryStore::new(512, 3).unwrap();
    assert_eq!(store.page_count(), 1);
    assert_eq!(store.read_page(0), Ok(vec![0u8; 512]));
    assert_eq!(store.read_page(1), Err(StorageError::IoError));
    assert_eq!(store.allocate_page(), Ok(1));
    assert_eq!(store.allocate_page(), Ok(2));
    assert_eq!(store.allocate_page(), Err(StorageError::IoError));
    let mut page = vec![0u8; 512];
    page[0] = 7;
    page[511] = 9;
    assert_eq!(store.write_page(2, &page), Ok(()));
    assert_eq!(store.read_page(2), Ok(page.clone()));
    assert_eq!(store.read_page(1), Ok(vec![0u8; 512]));
    assert_eq!(store.write_page(3, &page), Err(StorageError::IoError));
    assert_eq!(store.write_page(1, &vec![0u8; 511]), Err(StorageError::IoError));
    assert_eq!(store.read_page(1), Ok(vec![0u8; 512]));
    assert_eq!(store.sync(), Ok(()));
}

#[test]
fn store_lock_is_shared_or_exclusive() {
    let mut store = MemoryStore::new(512, 3).unwrap();
    let a = store.lock(LockMode::Shared).unwrap();
    let b = store.lock(LockMode::Shared).unwrap();
    assert!(store.lock(LockMode::Exclusive).is_none());
    store.unlock(a);
    assert!(store.lock(LockMode::Exclusive).is_none());
    store.unlock(b);
    let w = store.lock(LockMode::Exclusive).unwrap();
    assert_eq!(w.mode, LockMode::Exclusive);
    assert!(store.lock(LockMode::Shared).is_none());
    assert!(store.lock(LockMode::Exclusive).is_none());
    store.unlock(w);
    assert!(store.lock(LockMode::Shared).is_some());
}

#[test]
fn third_fetch_with_two_pinned_pages_exhausts_the_pool() {
    let mut pager = pool(2, 16);
    let (a, ha) = pager.allocate().unwrap();
    let (b, hb) = pager.allocate().unwrap();
    assert_eq!(pager.allocate(), Err(StorageError::PoolExhausted));
    pager.release(ha);
    let (c, hc) = pager.allocate().unwrap();
    pager.release(hc);
    pager.release(hb);
    // a was evicted to make room for c; b and c are resident and unpinned
    let h1 = pager.fetch(a).unwrap();
    let h2 = pager.fetch(b).unwrap();
    assert_eq!(pager.fetch(c), Err(StorageError::PoolExhausted));
    assert_eq!(pager.pin_count(a), 1);
    assert_eq!(pager.pin_count(b), 1);
    assert_eq!(pager.pin_count(c), 0);
    assert!(pager.data(h1).is_some());
    assert!(pager.data(h2).is_some());
    pager.release(h1);
    assert!(pager.fetch(c).is_ok());
    assert_eq!(pager.pin_count(a), 0);
    assert_eq!(pager.resident_count(), 2);
}

#[test]
fn fetch_of_a_page_that_is_not_allocated_fails() {
    let mut pager = pool(2, 16);
    assert_eq!(pager.fetch(0), Err(StorageError::PageNotFound));
    assert_eq!(pager.fetch(1), Err(StorageError::PageNotFound));
    let (a, h) = pager.allocate().unwrap();
    assert_eq!(a, 1);
    pager.release(h);
    assert!(pager.fetch(a).is_ok());
    assert_eq!(pager.fetch(2), Err(StorageError::PageNotFound));
}

#[test]
fn eviction_writes_dirty_pages_back() {
    let mut pager = pool(1, 16);
    let (a, ha) = pager.allocate().unwrap();
    let mut page = vec![0u8; 512];
    page[10] = 42;
    assert_eq!(pager.write(ha, &page), Ok(()));
    pager.mark_dirty(ha);
    pager.release(ha);
    let (b, hb) = pager.allocate().unwrap();
    assert_ne!(a, b);
    // a was evicted and must have reached the store
    assert_eq!(pager.store().read_page(a), Ok(page.clone()));
    pager.release(hb);
    let ha = pager.fetch(a).unwrap();
    assert_eq!(pager.data(ha), Some(&page));
    pager.release(ha);
}

#[test]
fn lru_page_is_the_one_evicted() {
    let mut pager = pool(2, 16);
    let (a, ha) = pager.allocate().unwrap();
    let (b, hb) = pager.allocate().unwrap();
    pager.release(ha);
    pager.release(hb);
    // touch a, so that b is the least recently used
    let ha = pager.fetch(a).unwrap();
    pager.release(ha);
    let (c, hc) = pager.allocate().unwrap();
    pager.release(hc);
    let mut dirty = vec![0u8; 512];
    dirty[0] = 1;
    // a is still resident: writing to it does not reach the store before a flush
    let ha = pager.fetch(a).unwrap();
    assert_eq!(pager.write(ha, &dirty), Ok(()));
    pager.release(ha);
    assert_eq!(pager.store().read_page(a), Ok(vec![0u8; 512]));
    assert_eq!(pager.flush(a), Ok(()));
    assert_eq!(pager.store().read_page(a), Ok(dirty));
    assert_eq!(pager.resident_count(), 2);
    assert!(pager.is_allocated(b));
    assert!(pager.is_allocated(c));
}

#[test]
fn write_needs_a_pinned_page_of_the_right_size() {
    let mut pager = pool(2, 16);
    let (_a, ha) = pager.allocate().unwrap();
    assert_eq!(pager.write(ha, &vec![0u8; 100]), Err(StorageError::IoError));
    pager.release(ha);
    assert_eq!(pager.write(ha, &vec![0u8; 512]), Err(StorageError::PageNotFound));
    assert!(pager.data(ha).is_none());
}

#[test]
fn free_and_reuse_of_pages() {
    let mut pager = pool(4, 4);
    let (a, ha) = pager.allocate().unwrap();
    let (b, hb) = pager.allocate().unwrap();
    let (c, hc) = pager.allocate().unwrap();
    assert_eq!((a, b, c), (1, 2, 3));
    assert!(!pager.can_allocate(1));
    pager.release(hc);
    assert_eq!(pager.allocate(), Err(StorageError::IoError));
    assert_eq!(pager.free(a), Err(StorageError::PageInUse));
    pager.release(ha);
    assert_eq!(pager.free(a), Ok(()));
    assert_eq!(pager.free(a), Err(StorageError::PageNotFound));
    assert_eq!(pager.free(9), Err(StorageError::PageNotFound));
    assert!(pager.can_allocate(1));
    assert!(!pager.can_allocate(2));
    pager.release(hb);
    assert_eq!(pager.free(b), Ok(()));
    // the page freed last is handed out first, zeroed
    let (x, hx) = pager.allocate().unwrap();
    assert_eq!(x, b);
    assert_eq!(pager.data(hx), Some(&vec![0u8; 512]));
    let (y, _hy) = pager.allocate().unwrap();
    assert_eq!(y, a);
    assert_eq!(pager.flush_all(), Ok(()));
}

#[test]
fn errors_have_messages() {
    assert_eq!(StorageError::PoolExhausted.message(), "buffer pool exhausted");
    assert_eq!(StorageError::NotFound.message(), "key not found");
    assert_eq!(StorageError::DuplicateKey.message(), "duplicate key");
    assert_eq!(StorageError::IoError.message(), "i/o error");
    assert_eq!(StorageError::PageNotFound.message(), "page not found");
    assert_eq!(StorageError::PageInUse.message(), "page in use");
    assert_eq!(StorageError::CorruptNode.message(), "corrupt node");
    assert!(StorageError::PageInUse.is_recoverable());
    assert!(!StorageError::CorruptNode.is_recoverable());
}

#[test]
fn store_image_round_trip() {
    let mut store = MemoryStore::new(512, 4).unwrap();
    assert_eq!(store.allocate_page(), Ok(1));
    let mut page = vec![0u8; 512];
    page[3] = 9;
    assert_eq!(store.write_page(1, &page), Ok(()));
    let image = store.to_image();
    assert_eq!(image.len(), 1024);
    assert_eq!(image[512 + 3], 9);
    let again = MemoryStore::from_image(&image, 512, 4).unwrap();
    assert_eq!(again.page_count(), 2);
    assert_eq!(again.read_page(1), Ok(page));
    assert_eq!(again.read_page(0), Ok(vec![0u8; 512]));
    assert!(MemoryStore::from_image(&image, 512, 1).is_none());
    assert!(MemoryStore::from_image(&image[..1000].to_vec(), 512, 4).is_none());
    assert!(MemoryStore::from_image(&vec![], 512, 4).is_none());
    assert!(MemoryStore::from_image(&image, 500, 4).is_none());
    assert_eq!(MemoryStore::from_image(&image, 1024, 4).unwrap().page_count(), 1);
}

#[test]
fn pool_reopens_with_its_free_pages() {
    let mut pager = pool(4, 16);
    let (a, ha) = pager.allocate().unwrap();
    let (b, hb) = pager.allocate().unwrap();
    let (c, hc) = pager.allocate().unwrap();
    let mut page = vec![0u8; 512];
    page[100] = 5;
    assert_eq!(pager.write(hb, &page), Ok(()));
    pager.release(ha);
    pager.release(hb);
    pager.release(hc);
    assert_eq!(pager.free(a), Ok(()));
    assert_eq!(pager.free(c), Ok(()));
    let header = btree_store::pager::Header { root: b, height: 0, fanout: 4 };
    let store = pager.close(header);
    let (mut again, got) = Pager::reopen(store, 2).unwrap();
    assert_eq!(got, header);
    assert!(again.is_allocated(b));
    assert!(!again.is_allocated(a));
    assert!(!again.is_allocated(c));
    let h = again.fetch(b).unwrap();
    assert_eq!(again.data(h), Some(&page));
    again.release(h);
    let (x, hx) = again.allocate().unwrap();
    assert_eq!(x, c);
    again.release(hx);
    let (y, _hy) = again.allocate().unwrap();
    assert_eq!(y, a);
}

#[test]
fn pool_tells_when_it_is_idle() {
    let store = MemoryStore::new(512, 8).unwrap();
    assert!(store.is_well_formed());
    let mut pager = Pager::new(store, 2);
    assert!(pager.is_well_formed());
    assert!(pager.is_idle());
    let (id, handle) = pager.allocate().unwrap();
    assert!(pager.is_well_formed());
    assert!(!pager.is_idle());
    pager.release(handle);
    assert!(pager.is_idle());
    let again = pager.fetch(id).unwrap();
    assert!(!pager.is_idle());
    pager.release(again);
    assert_eq!(pager.free(id), Ok(()));
    assert!(pager.is_well_formed());
    assert!(pager.is_idle());
    // a pool without a frame is sound, but nothing can work in it
    let pager = Pager::new(MemoryStore::new(512, 8).unwrap(), 0);
    assert!(pager.is_well_formed());
    assert!(!pager.is_idle());
}

#[test]
fn store_compares_a_page_with_bytes() {
    let mut store = MemoryStore::new(512, 8).unwrap();
    let id = store.allocate_page().unwrap();
    let mut bytes = vec![0u8; 512];
    assert!(store.page_is(id, &bytes));
    bytes[511] = 1;
    assert!(!store.page_is(id, &bytes));
    assert_eq!(store.write_page(id, &bytes), Ok(()));
    assert!(store.page_is(id, &bytes));
    assert!(!store.page_is(0, &bytes));
    assert!(!store.page_is(id, &vec![0u8; 511]));
    assert!(!store.page_is(id + 1, &bytes));
    assert!(store.is_well_formed());
}
