use novadb::buffer::{BufferPool, BufferStats};
use novadb::error::NovaError;
use novadb::page::{Page, PageId, SlotId};

/// An in-memory page file standing in for the one the pool serves.
struct Disk {
    pages: Vec<Page>,
    writes: usize,
}

impl Disk {
    fn new() -> Self {
        Disk { pages: Vec::new(), writes: 0 }
    }

    fn allocate(&mut self) -> u64 {
        let id = self.pages.len() as u64;
        self.pages.push(Page::new(PageId::new(id)));
        id
    }

    fn read(&self, id: u64) -> Page {
        self.pages[id as usize].clone()
    }

    fn write(&mut self, page: Page) {
        let at = page.id().get() as usize;
        self.pages[at] = page;
        self.writes += 1;
    }
}

fn evict(pool: &mut BufferPool, disk: &mut Disk) -> Result<(), NovaError> {
    let (_, written) = pool.evict_one()?;
    let wrote = written.is_some();
    if let Some(page) = written {
        disk.write(page);
    }
    pool.eviction_done(wrote);
    Ok(())
}

fn load(pool: &mut BufferPool, disk: &mut Disk, id: u64) -> Result<(), NovaError> {
    if pool.touch(id) {
        return Ok(());
    }
    if pool.is_full() {
        evict(pool, disk)?;
    }
    let page = disk.read(id);
    pool.insert_loaded(page);
    Ok(())
}

fn allocate(pool: &mut BufferPool, disk: &mut Disk) -> Result<u64, NovaError> {
    if pool.is_full() {
        evict(pool, disk)?;
    }
    let id = disk.allocate();
    load(pool, disk, id)?;
    Ok(id)
}

fn flush_all(pool: &mut BufferPool, disk: &mut Disk) {
    for id in pool.dirty_pages() {
        disk.write(pool.get(id).unwrap().clone());
        pool.mark_written(id);
    }
}

#[test]
fn lru_eviction_writes_dirty_pages_and_bounds_memory() {
    let mut disk = Disk::new();
    let mut pool = BufferPool::new(2).unwrap();
    let a = allocate(&mut pool, &mut disk).unwrap();
    let b = allocate(&mut pool, &mut disk).unwrap();
    load(&mut pool, &mut disk, a).unwrap();
    pool.insert_record(a, b"persisted").unwrap();
    load(&mut pool, &mut disk, b).unwrap();
    let c = allocate(&mut pool, &mut disk).unwrap();
    assert_eq!(pool.len(), 2);
    assert_eq!(pool.stats().evictions, 1);
    assert_eq!(pool.stats().writes, 1);
    load(&mut pool, &mut disk, c).unwrap();
    flush_all(&mut pool, &mut disk);
    assert_eq!(disk.read(a).get(SlotId::new(0)), Some(b"persisted".as_slice()));
}

#[test]
fn pinned_frames_block_eviction_until_released() {
    let mut disk = Disk::new();
    let mut pool = BufferPool::new(1).unwrap();
    let a = allocate(&mut pool, &mut disk).unwrap();
    load(&mut pool, &mut disk, a).unwrap();
    pool.pin(a).unwrap();
    assert!(matches!(allocate(&mut pool, &mut disk), Err(NovaError::InvalidState(_))));
    pool.unpin(a).unwrap();
    allocate(&mut pool, &mut disk).unwrap();
    flush_all(&mut pool, &mut disk);
}

#[test]
fn hits_misses_and_invalid_operations_are_explicit() {
    assert!(matches!(BufferPool::new(0), Err(NovaError::InvalidArgument(_))));
    let mut disk = Disk::new();
    let mut pool = BufferPool::new(1).unwrap();
    let page = allocate(&mut pool, &mut disk).unwrap();
    load(&mut pool, &mut disk, page).unwrap();
    assert_eq!(pool.stats().hits, 1);
    assert_eq!(pool.stats().misses, 1);
    assert!(pool.unpin(page).is_err());
    flush_all(&mut pool, &mut disk);
}

#[test]
fn the_least_recently_used_unpinned_frame_is_evicted_first() {
    let mut disk = Disk::new();
    let mut pool = BufferPool::new(3).unwrap();
    let a = allocate(&mut pool, &mut disk).unwrap();
    let b = allocate(&mut pool, &mut disk).unwrap();
    let c = allocate(&mut pool, &mut disk).unwrap();
    load(&mut pool, &mut disk, a).unwrap();
    load(&mut pool, &mut disk, b).unwrap();
    pool.pin(c).unwrap();
    // c was used least recently but is pinned; a is next.
    let (victim, written) = pool.evict_one().unwrap();
    assert_eq!(victim, a);
    assert!(written.is_none());
    assert!(!pool.contains(a) && pool.contains(b) && pool.contains(c));
    pool.insert_record(b, b"x").unwrap();
    let (victim, written) = pool.evict_one().unwrap();
    assert_eq!(victim, b);
    assert_eq!(written.unwrap().get(SlotId::new(0)), Some(b"x".as_slice()));
    let error = pool.evict_one().unwrap_err();
    assert!(matches!(error, NovaError::InvalidState(ref m) if m == "all buffer frames are pinned"));
    assert_eq!(pool.len(), 1);
}

#[test]
fn dirty_pages_are_listed_once_and_cleaned_by_writes() {
    let mut disk = Disk::new();
    let mut pool = BufferPool::new(4).unwrap();
    let a = allocate(&mut pool, &mut disk).unwrap();
    let b = allocate(&mut pool, &mut disk).unwrap();
    pool.insert_record(a, b"1").unwrap();
    pool.insert_record(a, b"2").unwrap();
    pool.insert_record(b, b"3").unwrap();
    pool.remove_record(b, SlotId::new(0)).unwrap();
    assert_eq!(pool.dirty_pages(), vec![a, b]);
    flush_all(&mut pool, &mut disk);
    assert!(pool.dirty_pages().is_empty());
    assert_eq!(pool.stats(), BufferStats { hits: 0, misses: 2, evictions: 0, writes: 2 });
    assert_eq!(disk.writes, 2);
    assert!(matches!(pool.unpin(99), Err(NovaError::InvalidState(ref m)) if m == "page is not buffered"));
    assert!(matches!(pool.unpin(a), Err(NovaError::InvalidState(ref m)) if m == "page is not pinned"));
}
