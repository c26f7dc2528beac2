//! Bounded, write-back page buffer: which pages are cached, which must be
//! written back, and which one makes room when the pool is full.
//!
//! The pool decides; the caller reads and writes the page file. A load
//! first `touch`es the pool; on a miss with a full pool it evicts the
//! least recently used unpinned frame (writing it back when dirty), reads
//! the page and hands it to `insert_loaded`.
use vstd::prelude::*;

use crate::error::{error_detail, NovaError, Result};
use crate::page::{inserted, removed, Page, PageView, SlotId};
use crate::text::push_str;

verus! {

/// Observable buffer-pool counters.
#[derive(Debug, Default, Clone, Copy, PartialEq, Eq)]
pub struct BufferStats {
    pub hits: u64,
    pub misses: u64,
    pub evictions: u64,
    pub writes: u64,
}

/// One cached page.
struct Frame {
    page: Page,
    dirty: bool,
    pins: usize,
    last_used: u64,
}

/// What the pool records of a cached page.
pub struct FrameView {
    pub page: PageView,
    pub dirty: bool,
    pub pins: usize,
    pub last_used: u64,
}

/// Capacity-bounded LRU page cache with write-back dirty pages.
pub struct BufferPool {
    frames: Vec<Frame>,
    capacity: usize,
    clock: u64,
    stats: BufferStats,
}

/// The position of a page's frame, if it is cached.
spec fn frame_index(frames: Seq<Frame>, id: u64) -> Option<int> {
    if exists|i: int| 0 <= i < frames.len() && (#[trigger] frames[i]).page@.id == id {
        Some(choose|i: int| 0 <= i < frames.len() && (#[trigger] frames[i]).page@.id == id)
    } else {
        None
    }
}

/// Frames hold distinct pages.
spec fn distinct_pages(frames: Seq<Frame>) -> bool {
    forall|i: int, j: int| 0 <= i < j < frames.len() ==> (#[trigger] frames[i]).page@.id != (#[trigger] frames[j]).page@.id
}

/// The view of a frame.
spec fn frame_view(f: Frame) -> FrameView {
    FrameView { page: f.page@, dirty: f.dirty, pins: f.pins, last_used: f.last_used }
}

/// `(a_used, a)` orders before `(b_used, b)`: least recently used first,
/// then the lower page id.
pub open spec fn lru_before(a_used: u64, a: u64, b_used: u64, b: u64) -> bool {
    a_used < b_used || (a_used == b_used && a <= b)
}

impl BufferPool {
    /// The frame of a cached page.
    pub closed spec fn frame(self, id: u64) -> Option<FrameView> {
        match frame_index(self.frames@, id) {
            Some(i) => Some(frame_view(self.frames@[i])),
            None => None,
        }
    }

    /// How many pages are cached.
    pub closed spec fn cached(self) -> nat {
        self.frames@.len()
    }

    /// The most frames the pool holds.
    pub closed spec fn capacity_view(self) -> usize {
        self.capacity
    }

    /// The logical clock that stamps each use.
    pub closed spec fn clock_view(self) -> u64 {
        self.clock
    }

    /// The counters.
    pub closed spec fn stats_view(self) -> BufferStats {
        self.stats
    }

    /// The page to evict: the unpinned frame used least recently, the
    /// lower page id first among equals.
    pub open spec fn is_victim(self, v: u64) -> bool {
        &&& self.frame(v) is Some
        &&& self.frame(v)->0.pins == 0
        &&& forall|o: u64|
            #[trigger] self.frame(o) is Some && self.frame(o)->0.pins == 0 ==> lru_before(
                self.frame(v)->0.last_used,
                v,
                self.frame(o)->0.last_used,
                o,
            )
    }

    /// The invariant: distinct pages, within capacity, capacity positive.
    pub closed spec fn wf(self) -> bool {
        &&& distinct_pages(self.frames@)
        &&& self.frames@.len() <= self.capacity
        &&& self.capacity > 0
    }
}

/// With distinct pages, the frame of a page is the one index that holds it.
proof fn lemma_index_at(frames: Seq<Frame>, id: u64, i: int)
    requires
        distinct_pages(frames),
        0 <= i < frames.len(),
        frames[i].page@.id == id,
    ensures
        frame_index(frames, id) == Some(i),
{
    let k = frame_index(frames, id)->0;
    assert(frames[i].page@.id == id);
    if k != i {
        if k < i {
            assert(frames[k].page@.id != frames[i].page@.id);
        } else {
            assert(frames[i].page@.id != frames[k].page@.id);
        }
    }
}

/// Replacing a frame by one of the same page keeps every lookup.
proof fn lemma_index_update(frames: Seq<Frame>, i: int, f: Frame, id: u64)
    requires
        distinct_pages(frames),
        0 <= i < frames.len(),
        f.page@.id == frames[i].page@.id,
    ensures
        distinct_pages(frames.update(i, f)),
        frame_index(frames.update(i, f), id) == frame_index(frames, id),
{
    let after = frames.update(i, f);
    assert forall|a: int, b: int| 0 <= a < b < after.len() implies (#[trigger] after[a]).page@.id != (
    #[trigger] after[b]).page@.id by {
        assert(after[a].page@.id == frames[a].page@.id);
        assert(after[b].page@.id == frames[b].page@.id);
    }
    if exists|j: int| 0 <= j < frames.len() && (#[trigger] frames[j]).page@.id == id {
        let j = choose|j: int| 0 <= j < frames.len() && (#[trigger] frames[j]).page@.id == id;
        lemma_index_at(frames, id, j);
        assert(after[j].page@.id == id);
        lemma_index_at(after, id, j);
    } else {
        assert forall|j: int| 0 <= j < after.len() implies (#[trigger] after[j]).page@.id != id by {
            assert(after[j].page@.id == frames[j].page@.id);
        }
    }
}

/// Appending a frame for an uncached page adds just that lookup.
proof fn lemma_index_push(frames: Seq<Frame>, f: Frame, id: u64)
    requires
        distinct_pages(frames),
        frame_index(frames, f.page@.id) is None,
    ensures
        distinct_pages(frames.push(f)),
        frame_index(frames.push(f), id) == if id == f.page@.id {
            Some(frames.len() as int)
        } else {
            frame_index(frames, id)
        },
{
    let after = frames.push(f);
    assert forall|a: int, b: int| 0 <= a < b < after.len() implies (#[trigger] after[a]).page@.id != (
    #[trigger] after[b]).page@.id by {
        assert(after[a] == frames[a]);
        if b == frames.len() {
            if frames[a].page@.id == f.page@.id {
                assert(exists|j: int| 0 <= j < frames.len() && (#[trigger] frames[j]).page@.id == f.page@.id);
            }
        } else {
            assert(after[b] == frames[b]);
        }
    }
    if id == f.page@.id {
        lemma_index_at(after, id, frames.len() as int);
    } else if exists|j: int| 0 <= j < frames.len() && (#[trigger] frames[j]).page@.id == id {
        let j = choose|j: int| 0 <= j < frames.len() && (#[trigger] frames[j]).page@.id == id;
        lemma_index_at(frames, id, j);
        assert(after[j] == frames[j]);
        lemma_index_at(after, id, j);
    } else {
        assert forall|j: int| 0 <= j < after.len() implies (#[trigger] after[j]).page@.id != id by {
            if j < frames.len() {
                assert(after[j] == frames[j]);
            }
        }
    }
}

/// Removing a frame removes just that lookup.
proof fn lemma_index_remove(frames: Seq<Frame>, i: int, id: u64)
    requires
        distinct_pages(frames),
        0 <= i < frames.len(),
    ensures
        distinct_pages(frames.remove(i)),
        frame_index(frames.remove(i), id) is Some ==> frame_index(frames, id) is Some,
        frame_index(frames.remove(i), id) matches Some(k) ==> frames.remove(i)[k] == frames[frame_index(frames, id)->0],
        id != frames[i].page@.id ==> (frame_index(frames.remove(i), id) is Some <==> frame_index(frames, id) is Some),
        frame_index(frames.remove(i), frames[i].page@.id) is None,
{
    let after = frames.remove(i);
    assert forall|j: int| 0 <= j < after.len() implies #[trigger] after[j] == if j < i { frames[j] } else { frames[j + 1] } by {
    }
    assert forall|a: int, b: int| 0 <= a < b < after.len() implies (#[trigger] after[a]).page@.id != (
    #[trigger] after[b]).page@.id by {
        let a2 = if a < i { a } else { a + 1 };
        let b2 = if b < i { b } else { b + 1 };
        assert(after[a] == frames[a2]);
        assert(after[b] == frames[b2]);
    }
    if exists|j: int| 0 <= j < after.len() && (#[trigger] after[j]).page@.id == id {
        let j = choose|j: int| 0 <= j < after.len() && (#[trigger] after[j]).page@.id == id;
        let j2 = if j < i { j } else { j + 1 };
        assert(after[j] == frames[j2]);
        lemma_index_at(frames, id, j2);
        lemma_index_at(after, id, j);
    } else {
        if id != frames[i].page@.id && exists|j: int| 0 <= j < frames.len() && (#[trigger] frames[j]).page@.id == id {
            let j = choose|j: int| 0 <= j < frames.len() && (#[trigger] frames[j]).page@.id == id;
            let j1 = if j < i { j } else { j - 1 };
            assert(after[j1] == frames[j]);
        }
    }
    assert forall|j: int| 0 <= j < after.len() implies (#[trigger] after[j]).page@.id != frames[i].page@.id by {
        let j2 = if j < i { j } else { j + 1 };
        assert(after[j] == frames[j2]);
    }
}

/// One more on a wrapping counter.
pub open spec fn tick(v: u64) -> u64 {
    if v == u64::MAX {
        0
    } else {
        (v + 1) as u64
    }
}

/// The message for a pool without frames.
pub open spec fn capacity_detail() -> Seq<char> {
    "buffer pool capacity must be positive"@
}

/// The message when no frame may be evicted.
pub open spec fn all_pinned_detail() -> Seq<char> {
    "all buffer frames are pinned"@
}

fn invalid_state(text: &str) -> (e: NovaError)
    ensures
        e is InvalidState && error_detail(e) == text@,
{
    let mut m = String::new();
    push_str(&mut m, text);
    NovaError::InvalidState(m)
}

impl BufferPool {
    /// An empty pool of `capacity` frames. Fails for a capacity of zero.
    pub fn new(capacity: usize) -> (r: Result<Self>)
        ensures
            match r {
                Ok(pool) => capacity > 0 && pool.wf() && pool.capacity_view() == capacity && pool.cached() == 0
                    && pool.clock_view() == 0 && pool.stats_view() == (BufferStats {
                    hits: 0,
                    misses: 0,
                    evictions: 0,
                    writes: 0,
                }),
                Err(e) => capacity == 0 && e is InvalidArgument && error_detail(e) == capacity_detail(),
            },
    {
        if capacity == 0 {
            let mut m = String::new();
            push_str(&mut m, "buffer pool capacity must be positive");
            return Err(NovaError::InvalidArgument(m));
        }
        Ok(BufferPool {
            frames: Vec::new(),
            capacity,
            clock: 0,
            stats: BufferStats { hits: 0, misses: 0, evictions: 0, writes: 0 },
        })
    }

    /// The most frames the pool holds.
    pub fn capacity(&self) -> (r: usize)
        ensures
            r == self.capacity_view(),
    {
        self.capacity
    }

    /// How many pages are cached.
    pub fn len(&self) -> (r: usize)
        ensures
            r == self.cached(),
    {
        self.frames.len()
    }

    /// Whether no page is cached.
    pub fn is_empty(&self) -> (r: bool)
        ensures
            r == (self.cached() == 0),
    {
        self.frames.len() == 0
    }

    /// Whether every frame is taken.
    pub fn is_full(&self) -> (r: bool)
        ensures
            r == (self.cached() == self.capacity_view()),
    {
        self.frames.len() == self.capacity
    }

    /// The counters.
    pub fn stats(&self) -> (r: BufferStats)
        ensures
            r == self.stats_view(),
    {
        self.stats
    }

    /// The position of a page's frame.
    fn find(&self, id: u64) -> (r: Option<usize>)
        requires
            self.wf(),
        ensures
            match r {
                Some(i) => i < self.frames@.len() && frame_index(self.frames@, id) == Some(i as int),
                None => frame_index(self.frames@, id) is None,
            },
    {
        let mut i: usize = 0;
        while i < self.frames.len()
            invariant
                i <= self.frames@.len(),
                self.wf(),
                forall|j: int| 0 <= j < i ==> (#[trigger] self.frames@[j]).page@.id != id,
            decreases self.frames@.len() - i,
        {
            if self.frames[i].page.id().get() == id {
                proof {
                    lemma_index_at(self.frames@, id, i as int);
                }
                return Some(i);
            }
            i = i + 1;
        }
        None
    }

    /// Whether a page is cached.
    pub fn contains(&self, id: u64) -> (r: bool)
        requires
            self.wf(),
        ensures
            r == self.frame(id) is Some,
    {
        self.find(id).is_some()
    }

    /// The cached page, if any.
    pub fn get(&self, id: u64) -> (r: Option<&Page>)
        requires
            self.wf(),
        ensures
            match self.frame(id) {
                Some(f) => r matches Some(p) && p@ == f.page,
                None => r is None,
            },
    {
        match self.find(id) {
            Some(i) => Some(&self.frames[i].page),
            None => None,
        }
    }

    /// Records a use of a page: the clock advances; a cached page counts a
    /// hit and is stamped with the new time, an uncached one counts a
    /// miss. Whether the page was cached.
    pub fn touch(&mut self, id: u64) -> (r: bool)
        requires
            old(self).wf(),
        ensures
            final(self).wf(),
            r == old(self).frame(id) is Some,
            final(self).capacity_view() == old(self).capacity_view(),
            final(self).cached() == old(self).cached(),
            final(self).clock_view() == tick(old(self).clock_view()),
            final(self).stats_view().hits == if r { tick(old(self).stats_view().hits) } else { old(self).stats_view().hits },
            final(self).stats_view().misses == if r { old(self).stats_view().misses } else { tick(old(self).stats_view().misses) },
            final(self).stats_view().evictions == old(self).stats_view().evictions,
            final(self).stats_view().writes == old(self).stats_view().writes,
            forall|o: u64| o != id ==> #[trigger] final(self).frame(o) == old(self).frame(o),
            r ==> final(self).frame(id) == Some(
                FrameView { last_used: final(self).clock_view(), ..old(self).frame(id)->0 },
            ),
            !r ==> final(self).frame(id) is None,
    {
        self.clock = self.clock.wrapping_add(1);
        match self.find(id) {
            Some(i) => {
                self.stats.hits = self.stats.hits.wrapping_add(1);
                let ghost before = self.frames@;
                self.frames[i].last_used = self.clock;
                proof {
                    assert(self.frames@ == before.update(i as int, self.frames@[i as int]));
                    assert forall|o: u64| #[trigger] frame_index(self.frames@, o) == frame_index(before, o) by {
                        lemma_index_update(before, i as int, self.frames@[i as int], o);
                    }
                    lemma_index_update(before, i as int, self.frames@[i as int], id);
                }
                true
            },
            None => {
                self.stats.misses = self.stats.misses.wrapping_add(1);
                false
            },
        }
    }
}

impl BufferPool {
    /// Removes the frame to evict and hands back its page when it must be
    /// written back (it is dirty). Fails, changing nothing, when every
    /// frame is pinned. The counters are left to `eviction_done`.
    pub fn evict_one(&mut self) -> (r: Result<(u64, Option<Page>)>)
        requires
            old(self).wf(),
        ensures
            final(self).wf(),
            final(self).capacity_view() == old(self).capacity_view(),
            final(self).clock_view() == old(self).clock_view(),
            final(self).stats_view() == old(self).stats_view(),
            r is Ok <==> exists|o: u64| #[trigger] old(self).frame(o) is Some && old(self).frame(o)->0.pins == 0,
            r matches Err(e) ==> e is InvalidState && error_detail(e) == all_pinned_detail() && final(self).cached()
                == old(self).cached() && forall|o: u64| #[trigger] final(self).frame(o) == old(self).frame(o),
            r matches Ok((v, written)) ==> {
                &&& old(self).is_victim(v)
                &&& final(self).frame(v) is None
                &&& final(self).cached() == old(self).cached() - 1
                &&& forall|o: u64| o != v ==> #[trigger] final(self).frame(o) == old(self).frame(o)
                &&& match written {
                    Some(p) => old(self).frame(v)->0.dirty && p@ == old(self).frame(v)->0.page,
                    None => !old(self).frame(v)->0.dirty,
                }
            },
    {
        let ghost fs = self.frames@;
        let mut best: Option<usize> = None;
        let mut i: usize = 0;
        while i < self.frames.len()
            invariant
                i <= fs.len(),
                self.frames@ == fs,
                match best {
                    Some(b) => b < i && fs[b as int].pins == 0 && forall|j: int|
                        0 <= j < i && (#[trigger] fs[j]).pins == 0 ==> lru_before(
                            fs[b as int].last_used,
                            fs[b as int].page@.id,
                            fs[j].last_used,
                            fs[j].page@.id,
                        ),
                    None => forall|j: int| 0 <= j < i ==> (#[trigger] fs[j]).pins != 0,
                },
            decreases fs.len() - i,
        {
            if self.frames[i].pins == 0 {
                let better = match best {
                    Some(b) => {
                        let (bu, bi) = (self.frames[b].last_used, self.frames[b].page.id().get());
                        let (u, id) = (self.frames[i].last_used, self.frames[i].page.id().get());
                        u < bu || (u == bu && id < bi)
                    },
                    None => true,
                };
                if better {
                    best = Some(i);
                }
            }
            i = i + 1;
        }
        let b = match best {
            Some(b) => b,
            None => {
                proof {
                    assert forall|o: u64| !(#[trigger] self.frame(o) is Some && self.frame(o)->0.pins == 0) by {
                        if self.frame(o) is Some {
                            let k = frame_index(fs, o)->0;
                            assert(fs[k].pins != 0);
                        }
                    }
                }
                return Err(invalid_state("all buffer frames are pinned"));
            },
        };
        let v = self.frames[b].page.id().get();
        proof {
            lemma_index_at(fs, v, b as int);
            assert(self.frame(v) is Some && self.frame(v)->0.pins == 0);
            assert forall|o: u64| #[trigger] self.frame(o) is Some && self.frame(o)->0.pins == 0 implies lru_before(
                self.frame(v)->0.last_used,
                v,
                self.frame(o)->0.last_used,
                o,
            ) by {
                let k = frame_index(fs, o)->0;
                assert(fs[k].page@.id == o);
            }
        }
        let frame = self.frames.remove(b);
        proof {
            assert(self.frames@ == fs.remove(b as int));
            assert forall|o: u64| o != v implies #[trigger] self.frame(o) == old(self).frame(o) by {
                lemma_index_remove(fs, b as int, o);
                if frame_index(fs, o) is Some {
                    let k = frame_index(fs, o)->0;
                    let k1 = if k < b { k } else { k - 1 };
                    assert(k != b) by {
                        assert(fs[k].page@.id == o);
                    }
                    assert(self.frames@[k1] == fs[k]);
                    lemma_index_at(self.frames@, o, k1);
                }
            }
            lemma_index_remove(fs, b as int, v);
        }
        if frame.dirty {
            Ok((v, Some(frame.page)))
        } else {
            Ok((v, None))
        }
    }

    /// Counts a completed eviction, and a write when its page was written
    /// back.
    pub fn eviction_done(&mut self, written: bool)
        requires
            old(self).wf(),
        ensures
            final(self).wf(),
            final(self).capacity_view() == old(self).capacity_view(),
            final(self).clock_view() == old(self).clock_view(),
            final(self).cached() == old(self).cached(),
            forall|o: u64| #[trigger] final(self).frame(o) == old(self).frame(o),
            final(self).stats_view().hits == old(self).stats_view().hits,
            final(self).stats_view().misses == old(self).stats_view().misses,
            final(self).stats_view().evictions == tick(old(self).stats_view().evictions),
            final(self).stats_view().writes == if written {
                tick(old(self).stats_view().writes)
            } else {
                old(self).stats_view().writes
            },
    {
        if written {
            self.stats.writes = self.stats.writes.wrapping_add(1);
        }
        self.stats.evictions = self.stats.evictions.wrapping_add(1);
    }

    /// Caches a page just read, clean, unpinned and stamped with the
    /// clock.
    pub fn insert_loaded(&mut self, page: Page)
        requires
            old(self).wf(),
            old(self).frame(page@.id) is None,
            old(self).cached() < old(self).capacity_view(),
        ensures
            final(self).wf(),
            final(self).capacity_view() == old(self).capacity_view(),
            final(self).clock_view() == old(self).clock_view(),
            final(self).stats_view() == old(self).stats_view(),
            final(self).cached() == old(self).cached() + 1,
            final(self).frame(page@.id) == Some(
                FrameView { page: page@, dirty: false, pins: 0, last_used: old(self).clock_view() },
            ),
            forall|o: u64| o != page@.id ==> #[trigger] final(self).frame(o) == old(self).frame(o),
    {
        let ghost fs = self.frames@;
        let frame = Frame { page, dirty: false, pins: 0, last_used: self.clock };
        self.frames.push(frame);
        proof {
            assert forall|o: u64| #[trigger] frame_index(self.frames@, o) == if o == frame.page@.id {
                Some(fs.len() as int)
            } else {
                frame_index(fs, o)
            } by {
                lemma_index_push(fs, frame, o);
            }
            lemma_index_push(fs, frame, frame.page@.id);
        }
    }
}

impl BufferPool {
    /// Sets one field group of a cached page's frame and shows what every
    /// lookup then gives.
    proof fn lemma_frame_set(self, before: Seq<Frame>, i: int, id: u64)
        requires
            distinct_pages(before),
            0 <= i < before.len(),
            before[i].page@.id == id,
            self.frames@ == before.update(i, self.frames@[i]),
            self.frames@[i].page@.id == id,
        ensures
            distinct_pages(self.frames@),
            frame_index(self.frames@, id) == Some(i),
            forall|o: u64| #[trigger] frame_index(self.frames@, o) == frame_index(before, o),
    {
        assert forall|o: u64| #[trigger] frame_index(self.frames@, o) == frame_index(before, o) by {
            lemma_index_update(before, i, self.frames@[i], o);
        }
        lemma_index_update(before, i, self.frames@[i], id);
        lemma_index_at(before, id, i);
    }

    /// Pins a cached page so it cannot be evicted. Fails, changing
    /// nothing, when its pin count is at its maximum.
    pub fn pin(&mut self, id: u64) -> (r: Result<()>)
        requires
            old(self).wf(),
            old(self).frame(id) is Some,
        ensures
            final(self).wf(),
            final(self).capacity_view() == old(self).capacity_view(),
            final(self).clock_view() == old(self).clock_view(),
            final(self).stats_view() == old(self).stats_view(),
            final(self).cached() == old(self).cached(),
            forall|o: u64| o != id ==> #[trigger] final(self).frame(o) == old(self).frame(o),
            r is Ok <==> old(self).frame(id)->0.pins < usize::MAX,
            r is Ok ==> final(self).frame(id) == Some(
                FrameView { pins: (old(self).frame(id)->0.pins + 1) as usize, ..old(self).frame(id)->0 },
            ),
            r matches Err(e) ==> e is InvalidState && error_detail(e) == "page pin count overflow"@
                && final(self).frame(id) == old(self).frame(id),
    {
        let i = match self.find(id) {
            Some(i) => i,
            None => {
                return Err(invalid_state("loaded buffer frame disappeared"));
            },
        };
        let pins = self.frames[i].pins;
        if pins == usize::MAX {
            return Err(invalid_state("page pin count overflow"));
        }
        let ghost before = self.frames@;
        self.frames[i].pins = pins + 1;
        proof {
            self.lemma_frame_set(before, i as int, id);
        }
        Ok(())
    }

    /// Releases one pin of a page. Fails, changing nothing, when the page
    /// is not cached or not pinned.
    pub fn unpin(&mut self, id: u64) -> (r: Result<()>)
        requires
            old(self).wf(),
        ensures
            final(self).wf(),
            final(self).capacity_view() == old(self).capacity_view(),
            final(self).clock_view() == old(self).clock_view(),
            final(self).stats_view() == old(self).stats_view(),
            final(self).cached() == old(self).cached(),
            forall|o: u64| o != id ==> #[trigger] final(self).frame(o) == old(self).frame(o),
            r is Ok <==> old(self).frame(id) is Some && old(self).frame(id)->0.pins > 0,
            r is Ok ==> final(self).frame(id) == Some(
                FrameView { pins: (old(self).frame(id)->0.pins - 1) as usize, ..old(self).frame(id)->0 },
            ),
            r matches Err(e) ==> e is InvalidState && error_detail(e) == (if old(self).frame(id) is None {
                "page is not buffered"@
            } else {
                "page is not pinned"@
            }) && final(self).frame(id) == old(self).frame(id),
    {
        let i = match self.find(id) {
            Some(i) => i,
            None => {
                return Err(invalid_state("page is not buffered"));
            },
        };
        let pins = self.frames[i].pins;
        if pins == 0 {
            return Err(invalid_state("page is not pinned"));
        }
        let ghost before = self.frames@;
        self.frames[i].pins = pins - 1;
        proof {
            self.lemma_frame_set(before, i as int, id);
        }
        Ok(())
    }

    /// Inserts a record into a cached page, which becomes dirty; the page
    /// changes as `Page::insert` describes.
    pub fn insert_record(&mut self, id: u64, record: &[u8]) -> (r: Result<SlotId>)
        requires
            old(self).wf(),
            old(self).frame(id) is Some,
        ensures
            final(self).wf(),
            final(self).capacity_view() == old(self).capacity_view(),
            final(self).clock_view() == old(self).clock_view(),
            final(self).stats_view() == old(self).stats_view(),
            final(self).cached() == old(self).cached(),
            forall|o: u64| o != id ==> #[trigger] final(self).frame(o) == old(self).frame(o),
            final(self).frame(id) matches Some(f) && f == (FrameView { page: f.page, dirty: true, ..old(self).frame(id)->0 })
                && inserted(old(self).frame(id)->0.page, record@, r, f.page),
    {
        let i = self.find(id).unwrap();
        let ghost before = self.frames@;
        let mut frame = self.frames.remove(i);
        frame.dirty = true;
        let r = frame.page.insert(record);
        self.frames.insert(i, frame);
        proof {
            assert(self.frames@ =~= before.update(i as int, frame));
            self.lemma_frame_set(before, i as int, id);
        }
        r
    }

    /// Removes a record from a cached page, which becomes dirty; the page
    /// changes as `Page::remove` describes.
    pub fn remove_record(&mut self, id: u64, slot: SlotId) -> (r: Result<Vec<u8>>)
        requires
            old(self).wf(),
            old(self).frame(id) is Some,
        ensures
            final(self).wf(),
            final(self).capacity_view() == old(self).capacity_view(),
            final(self).clock_view() == old(self).clock_view(),
            final(self).stats_view() == old(self).stats_view(),
            final(self).cached() == old(self).cached(),
            forall|o: u64| o != id ==> #[trigger] final(self).frame(o) == old(self).frame(o),
            final(self).frame(id) matches Some(f) && f == (FrameView { page: f.page, dirty: true, ..old(self).frame(id)->0 })
                && removed(old(self).frame(id)->0.page, slot@, r, f.page),
    {
        let i = self.find(id).unwrap();
        let ghost before = self.frames@;
        let mut frame = self.frames.remove(i);
        frame.dirty = true;
        let r = frame.page.remove(slot);
        self.frames.insert(i, frame);
        proof {
            assert(self.frames@ =~= before.update(i as int, frame));
            self.lemma_frame_set(before, i as int, id);
        }
        r
    }

    /// The cached pages that must be written back, in frame order.
    pub fn dirty_pages(&self) -> (r: Vec<u64>)
        requires
            self.wf(),
        ensures
            forall|o: u64| r@.contains(o) <==> (#[trigger] self.frame(o) is Some && self.frame(o)->0.dirty),
            forall|a: int, b: int| 0 <= a < b < r@.len() ==> r@[a] != r@[b],
    {
        let ghost fs = self.frames@;
        let mut out: Vec<u64> = Vec::new();
        let ghost mut at: Seq<int> = Seq::empty();
        let mut i: usize = 0;
        while i < self.frames.len()
            invariant
                i <= fs.len(),
                fs == self.frames@,
                self.wf(),
                at.len() == out@.len(),
                forall|k: int|
                    0 <= k < at.len() ==> 0 <= #[trigger] at[k] < i && fs[at[k]].dirty && fs[at[k]].page@.id == out@[k],
                forall|a: int, b: int| 0 <= a < b < at.len() ==> at[a] < at[b],
                forall|j: int| 0 <= j < i && (#[trigger] fs[j]).dirty ==> exists|k: int| 0 <= k < at.len() && at[k] == j,
            decreases fs.len() - i,
        {
            if self.frames[i].dirty {
                let id = self.frames[i].page.id().get();
                out.push(id);
                proof {
                    let prev = at;
                    at = at.push(i as int);
                    assert forall|j: int| 0 <= j < i + 1 && (#[trigger] fs[j]).dirty implies exists|k: int|
                        0 <= k < at.len() && at[k] == j by {
                        if j == i {
                            assert(at[prev.len() as int] == j);
                        } else {
                            let k = choose|k: int| 0 <= k < prev.len() && prev[k] == j;
                            assert(at[k] == j);
                        }
                    }
                }
            }
            i = i + 1;
        }
        proof {
            assert forall|a: int, b: int| 0 <= a < b < out@.len() implies out@[a] != out@[b] by {
                assert(at[a] < at[b]);
                assert(fs[at[a]].page@.id != fs[at[b]].page@.id);
            }
            assert forall|o: u64| out@.contains(o) <==> (#[trigger] self.frame(o) is Some && self.frame(o)->0.dirty) by {
                if out@.contains(o) {
                    let k = choose|k: int| 0 <= k < out@.len() && out@[k] == o;
                    assert(0 <= at[k] < i);
                    lemma_index_at(fs, o, at[k]);
                }
                if self.frame(o) is Some && self.frame(o)->0.dirty {
                    let j = frame_index(fs, o)->0;
                    assert(fs[j].page@.id == o);
                    assert(fs[j].dirty);
                    let k = choose|k: int| 0 <= k < at.len() && at[k] == j;
                    assert(out@[k] == o);
                }
            }
        }
        out
    }

    /// Marks a cached page written back: clean, and one more write counted.
    pub fn mark_written(&mut self, id: u64)
        requires
            old(self).wf(),
            old(self).frame(id) is Some,
        ensures
            final(self).wf(),
            final(self).capacity_view() == old(self).capacity_view(),
            final(self).clock_view() == old(self).clock_view(),
            final(self).cached() == old(self).cached(),
            forall|o: u64| o != id ==> #[trigger] final(self).frame(o) == old(self).frame(o),
            final(self).frame(id) == Some(FrameView { dirty: false, ..old(self).frame(id)->0 }),
            final(self).stats_view() == (BufferStats { writes: tick(old(self).stats_view().writes), ..old(self).stats_view() }),
    {
        let i = match self.find(id) {
            Some(i) => i,
            None => {
                proof {
                    assert(false);
                }
                return;
            },
        };
        let ghost before = self.frames@;
        self.frames[i].dirty = false;
        proof {
            self.lemma_frame_set(before, i as int, id);
        }
        self.stats.writes = self.stats.writes.wrapping_add(1);
    }
}

/// The pool never holds more frames than its capacity.
pub proof fn law_pool_is_bounded(pool: BufferPool)
    requires
        pool.wf(),
    ensures
        pool.cached() <= pool.capacity_view(),
{
}

/// A pinned frame is never the one evicted.
pub proof fn law_pinned_frames_are_not_evicted(pool: BufferPool, id: u64)
    requires
        pool.frame(id) matches Some(f) && f.pins > 0,
    ensures
        !pool.is_victim(id),
{
}

} // verus!
