//! A block-device storage engine over a remote message store: a bounded page
//! cache, a bounded write-back queue and a page directory, with the rules
//! that tie them together.
//!
//! The engine does no input or output. Where a step needs the remote store,
//! it says so in what it returns, and the caller brings what is needed.

pub mod layout;
pub mod utils;
pub mod metadata;
pub mod cache;
pub mod queue;
pub mod coherence;

use crate::cache::{
    cache_evicted, cache_find, cache_pushed, cache_read, cache_written, Cache, CacheBlock, CacheBlockView,
};
use crate::layout::{
    lemma_first_true, lemma_first_true_found, page_index, page_start, zero_buffer, zeros, CHUNK_SIZE,
    PAGE_SIZE,
};
use crate::metadata::{
    block_views, lemma_page_position_found, needs_fetch, page_buffer, page_position, record_text,
    written_buffer, written_page, MetadataBlock, MetadataBlockView, Page, PageView, RecordUpdate, TryWrite,
    MASK_BYTES, PAGE_CAPACITY,
};
use crate::coherence::{
    block_ok, block_page, coherent, directories_ok, is_live, lemma_cache_written, lemma_cached,
    lemma_cached_block, lemma_evicted, lemma_live, lemma_miss_is_not_live, lemma_new_directory_ok,
    lemma_no_holder, lemma_reclaimed, lemma_unqueued, lemma_with_new_page_ok, lemma_with_page_ok,
    lemma_written_chunk, live_chunk,
};
use crate::queue::{queue_position, Queue, QueueBlock, QueueBlockView};
use vstd::prelude::*;

verus! {

/// What the engine holds: the directories, the pages of the cache (oldest
/// first), the pages of the queue (in the order in which they came), and
/// whether a page taken from the queue is being written to the remote store.
pub struct DriveView {
    pub meta: Seq<MetadataBlockView>,
    pub cache: Seq<CacheBlockView>,
    pub queue: Seq<QueueBlockView>,
    pub syncing: bool,
}

/// What a page of the cache is in the queue.
pub open spec fn queued(block: CacheBlockView) -> QueueBlockView {
    QueueBlockView {
        page: PageView {
            offset: block.offset / PAGE_SIZE,
            message_id: block.message_id,
            zero_mask: block.mask,
        },
        data: block.data,
    }
}

/// What the page `page` with the buffer `data` is in the cache, where it
/// holds byte `offset`.
pub open spec fn cached_block(offset: u64, page: PageView, data: Seq<u8>) -> CacheBlockView {
    CacheBlockView { offset: page_start(offset), message_id: page.message_id, data, mask: page.zero_mask }
}

/// Whether a page can be added to the cache: the cache has room, or the
/// queue has room for the page that would leave the cache.
pub open spec fn has_room(v: DriveView, capacity: nat) -> bool {
    v.cache.len() < capacity || v.queue.len() < capacity
}

/// The engine after `block` was added to the cache: the page that left the
/// cache, if one did, is at the end of the queue.
pub open spec fn cached(v: DriveView, block: CacheBlockView, capacity: nat) -> DriveView {
    DriveView {
        cache: cache_pushed(v.cache, block, capacity),
        queue: match cache_evicted(v.cache, block, capacity) {
            Some(evicted) => v.queue.push(queued(evicted)),
            None => v.queue,
        },
        ..v
    }
}

/// The engine after the page that holds byte `offset` was taken back from
/// the queue into the cache, where the queue held it.
pub open spec fn reclaimed(v: DriveView, offset: u64, capacity: nat) -> DriveView {
    match queue_position(v.queue, page_index(offset)) {
        Some(i) => cached(
            DriveView { queue: v.queue.remove(i), ..v },
            cached_block(offset, v.queue[i].page, v.queue[i].data),
            capacity,
        ),
        None => v,
    }
}

/// Whether each of `meta` holds the page with index `index`.
pub open spec fn holds_page(meta: Seq<MetadataBlockView>, index: u64) -> Seq<bool> {
    meta.map_values(|m: MetadataBlockView| page_position(m.pages, index) is Some)
}

/// The first directory that holds the page with index `index`, if there is one.
pub open spec fn holder(meta: Seq<MetadataBlockView>, index: u64) -> Option<int> {
    holds_page(meta, index).index_of_first(true)
}

/// Whether each of `meta` has room for one more page.
pub open spec fn has_space(meta: Seq<MetadataBlockView>) -> Seq<bool> {
    meta.map_values(|m: MetadataBlockView| m.pages.len() < PAGE_CAPACITY)
}

/// The first directory that has room for one more page, if there is one.
pub open spec fn first_with_room(meta: Seq<MetadataBlockView>) -> Option<int> {
    has_space(meta).index_of_first(true)
}

/// The directory `dir` with the page at place `i` replaced by `page`.
pub open spec fn with_page(dir: MetadataBlockView, i: int, page: PageView) -> MetadataBlockView {
    MetadataBlockView { pages: dir.pages.update(i, page), ..dir }
}

/// The directory `dir` with `page` added at its end.
pub open spec fn with_new_page(dir: MetadataBlockView, page: PageView) -> MetadataBlockView {
    MetadataBlockView { pages: dir.pages.push(page), ..dir }
}

/// A page with index `index` that no remote object holds, with no chunk marked.
pub open spec fn fresh_page(index: u64) -> PageView {
    PageView { offset: index, message_id: 0, zero_mask: zeros(MASK_BYTES as nat) }
}

/// What a read came to.
pub enum ReadStep {
    /// The bytes of the chunk.
    Done(Vec<u8>),
    /// A directory holds this page, and what its remote object holds is to
    /// be brought and handed to `read`. Nothing was changed.
    Fetch(Page),
    /// Neither the cache nor the queue has room for the page: the caller is
    /// to wait until a page has left the queue, and to call `read` again
    /// with the buffer that comes back. Nothing was changed.
    Busy(Option<Vec<u8>>),
}

/// What a write came to.
pub enum WriteStep {
    /// The chunk is written.
    Done,
    /// The chunk is written, to a new page of the directory at this place:
    /// the directory's remote record is to be brought up to date.
    Persist(usize),
    /// A directory holds this page, and what its remote object holds is to
    /// be brought and handed to `write`. Nothing was changed.
    Fetch(Page),
    /// Neither the cache nor the queue has room for the page: the caller is
    /// to wait until a page has left the queue, and to call `write` again
    /// with the buffer that comes back. Nothing was changed.
    Busy(Option<Vec<u8>>),
}

/// What a flush came to.
pub enum FlushStep {
    /// Pages are still in the cache or the queue, or one is being written:
    /// the caller is to wait, and to call `flush` again.
    Wait,
    /// All pages are written. The remote records named, one for each
    /// directory, are to be moved to where they are found first.
    Done(Vec<u64>),
}

/// The engine: the directories, the cache and the queue.
pub struct DiscordDrivePlugin<const S: usize> {
    /// The directories, in the order in which they are looked through.
    pub meta: Vec<MetadataBlock>,
    /// The pages held in memory.
    pub cache: Cache<S>,
    /// The pages that wait to be written to the remote store.
    pub queue: Queue<S>,
}

impl<const S: usize> View for DiscordDrivePlugin<S> {
    type V = DriveView;

    open spec fn view(&self) -> DriveView {
        DriveView {
            meta: block_views(self.meta@),
            cache: self.cache@,
            queue: self.queue@,
            syncing: self.queue.is_syncing,
        }
    }
}

impl<const S: usize> DiscordDrivePlugin<S> {
    /// The cache and the queue are within their bounds, and every page in
    /// them has a whole buffer.
    pub open spec fn wf(&self) -> bool {
        self.cache.wf() && self.queue.wf()
    }

    /// Whether the engine is within its bounds (see `wf`).
    pub fn check(&self) -> (ok: bool)
        ensures
            ok == self.wf(),
    {
        self.cache.check() && self.queue.check()
    }

    /// An engine with the directories `meta`, an empty cache and an empty queue.
    pub fn new(meta: Vec<MetadataBlock>) -> (r: Self)
        ensures
            r.wf(),
            r.meta == meta,
            r@.cache == Seq::<CacheBlockView>::empty(),
            r@.queue == Seq::<QueueBlockView>::empty(),
            !r@.syncing,
            coherent(r@),
    {
        DiscordDrivePlugin { meta, cache: Cache::new(), queue: Queue::new() }
    }

    /// Adds `block` to the cache as its newest page; the page that leaves
    /// the cache for it, if one does, goes to the end of the queue. Where
    /// neither the cache nor the queue has room, nothing is changed and
    /// `block` comes back: the caller is to wait until a page has left the
    /// queue, and to try again.
    pub fn cache(&mut self, block: CacheBlock) -> (rejected: Option<CacheBlock>)
        requires
            old(self).wf(),
            block@.wf(),
        ensures
            final(self).wf(),
            has_room(old(self)@, S as nat) ==> rejected is None && final(self)@ == cached(
                old(self)@,
                block@,
                S as nat,
            ),
            !has_room(old(self)@, S as nat) ==> rejected == Some(block) && final(self)@ == old(self)@,
            coherent(old(self)@) && block_ok(block@) && !is_live(old(self)@, block_page(block@)) ==> coherent(
                final(self)@,
            ),
    {
        if self.cache.data.len() >= S && self.queue.data.len() >= S {
            return Some(block);
        }
        proof {
            if coherent(old(self)@) && block_ok(block@) && !is_live(old(self)@, block_page(block@)) {
                lemma_cached(old(self)@, block@, S as nat, 0);
            }
        }
        match self.cache.push(block) {
            Some(evicted) => {
                proof {
                    assert(old(self).cache@.push(block@)[0].wf());
                }
                let page = Page {
                    offset: evicted.offset / PAGE_SIZE,
                    message_id: evicted.message_id,
                    zero_mask: evicted.mask,
                };
                let _ = self.queue.push(page, evicted.data);
            },
            None => {},
        }
        None
    }

    /// Takes the page that holds byte `offset` back from the queue into the
    /// cache, where the queue holds it.
    fn reclaim(&mut self, offset: u64)
        requires
            old(self).wf(),
        ensures
            final(self).wf(),
            final(self)@ == reclaimed(old(self)@, offset, S as nat),
            coherent(old(self)@) && offset % CHUNK_SIZE == 0 ==> {
                &&& coherent(final(self)@)
                &&& forall|o: u64|
                    o % CHUNK_SIZE == 0 ==> #[trigger] live_chunk(final(self)@, o) == live_chunk(old(self)@, o)
            },
    {
        proof {
            if coherent(old(self)@) && offset % CHUNK_SIZE == 0 {
                lemma_reclaimed(old(self)@, offset, S as nat, offset);
                assert forall|o: u64| o % CHUNK_SIZE == 0 implies #[trigger] live_chunk(
                    reclaimed(old(self)@, offset, S as nat),
                    o,
                ) == live_chunk(old(self)@, o) by {
                    lemma_reclaimed(old(self)@, offset, S as nat, o);
                }
            }
        }
        match self.queue.release_offset(offset / PAGE_SIZE) {
            Some((page, data)) => {
                proof {
                    crate::queue::lemma_queue_position_found(old(self).queue@, page_index(offset));
                    let i = queue_position(old(self).queue@, page_index(offset))->0;
                    assert(old(self).queue@[i].wf());
                }
                let block = CacheBlock::new(offset - offset % PAGE_SIZE, page.message_id, data, page.zero_mask);
                let _ = self.cache(block);
            },
            None => {},
        }
    }

    /// Reads the chunk at `offset` from the cache, after the page that holds
    /// it was taken back from the queue, where the queue held it. `None`
    /// says that the cache does not hold the chunk.
    pub fn read_cache(&mut self, offset: u64) -> (r: Option<Vec<u8>>)
        requires
            old(self).wf(),
        ensures
            final(self).wf(),
            final(self)@ == reclaimed(old(self)@, offset, S as nat),
            match cache_read(final(self)@.cache, offset) {
                Some(chunk) => r is Some && r->0@ == chunk,
                None => r is None,
            },
            coherent(old(self)@) && offset % CHUNK_SIZE == 0 ==> {
                &&& coherent(final(self)@)
                &&& forall|o: u64|
                    o % CHUNK_SIZE == 0 ==> #[trigger] live_chunk(final(self)@, o) == live_chunk(old(self)@, o)
            },
    {
        self.reclaim(offset);
        self.cache.read(offset)
    }

    /// Writes the chunk `data` at `offset` to the cache, after the page that
    /// holds it was taken back from the queue, where the queue held it.
    /// Returns whether the cache holds the page.
    pub fn write_cache(&mut self, offset: u64, data: &[u8]) -> (r: bool)
        requires
            old(self).wf(),
            data@.len() == CHUNK_SIZE,
        ensures
            final(self).wf(),
            ({
                let v = reclaimed(old(self)@, offset, S as nat);
                &&& r == (cache_find(v.cache, offset) is Some)
                &&& final(self)@ == DriveView { cache: cache_written(v.cache, offset, data@), ..v }
            }),
            r ==> cache_read(final(self)@.cache, offset) == Some(data@),
            coherent(old(self)@) && offset % CHUNK_SIZE == 0 ==> {
                &&& coherent(final(self)@)
                &&& r ==> live_chunk(final(self)@, offset) == Some(data@)
                &&& forall|o: u64|
                    o % CHUNK_SIZE == 0 && o != offset ==> #[trigger] live_chunk(final(self)@, o) == live_chunk(
                        old(self)@,
                        o,
                    )
            },
    {
        self.reclaim(offset);
        let ghost v = self@;
        proof {
            if coherent(old(self)@) && offset % CHUNK_SIZE == 0 {
                lemma_cache_written(v, offset, data@, offset);
                assert forall|o: u64| o % CHUNK_SIZE == 0 && o != offset implies #[trigger] live_chunk(
                    DriveView { cache: cache_written(v.cache, offset, data@), ..v },
                    o,
                ) == live_chunk(old(self)@, o) by {
                    lemma_cache_written(v, offset, data@, o);
                }
            }
        }
        self.cache.write(offset, data)
    }

    /// Whether a page can be added to the cache.
    fn room(&self) -> (r: bool)
        ensures
            r == has_room(self@, S as nat),
    {
        self.cache.data.len() < S || self.queue.data.len() < S
    }

    /// Adds the page `page` with the buffer `data` to the cache, and reads
    /// the chunk at `offset` from it.
    fn install(&mut self, offset: u64, page: Page, data: Vec<u8>) -> (bytes: Vec<u8>)
        requires
            old(self).wf(),
            offset % CHUNK_SIZE == 0,
            data@.len() == PAGE_SIZE,
            has_room(old(self)@, S as nat),
            cache_find(old(self)@.cache, offset) is None,
        ensures
            final(self).wf(),
            final(self)@ == cached(old(self)@, cached_block(offset, page@, data@), S as nat),
            bytes@ == cached_block(offset, page@, data@).chunk_at(offset),
            cache_read(final(self)@.cache, offset) == Some(bytes@),
            coherent(old(self)@) && !is_live(old(self)@, page_index(offset)) ==> {
                &&& coherent(final(self)@)
                &&& live_chunk(final(self)@, offset) == Some(bytes@)
                &&& forall|o: u64|
                    o % CHUNK_SIZE == 0 && page_index(o) != page_index(offset) ==> #[trigger] live_chunk(
                        final(self)@,
                        o,
                    ) == live_chunk(old(self)@, o)
            },
    {
        let ghost added = cached_block(offset, page@, data@);
        proof {
            page.zero_mask.lemma_len();
            lemma_cached_block(offset, page@, data@);
            crate::coherence::lemma_covers(added, offset);
            crate::coherence::lemma_cached_found(old(self)@.cache, added, S as nat, offset);
            if coherent(old(self)@) && !is_live(old(self)@, page_index(offset)) {
                crate::coherence::lemma_cached_keeps_others(old(self)@, added, S as nat);
                lemma_cached(old(self)@, added, S as nat, offset);
            }
        }
        let block = CacheBlock::new(offset - offset % PAGE_SIZE, page.message_id, data, page.zero_mask);
        let _ = self.cache(block);
        match self.cache.read(offset) {
            Some(bytes) => bytes,
            None => Vec::new(),
        }
    }

    /// The first directory that holds the page with index `index`, and the
    /// place of the page in it.
    fn find_holder(&self, index: u64) -> (r: Option<(usize, usize)>)
        ensures
            match r {
                Some((d, i)) => {
                    &&& holder(self@.meta, index) == Some(d as int)
                    &&& d < self.meta@.len()
                    &&& page_position(self@.meta[d as int].pages, index) == Some(i as int)
                    &&& i < self.meta@[d as int].pages@.len()
                    &&& self.meta@[d as int].pages@[i as int]@ == self@.meta[d as int].pages[i as int]
                    &&& self.meta@[d as int].pages@[i as int].offset == index
                },
                None => holder(self@.meta, index) is None,
            },
    {
        let mut d: usize = 0;
        while d < self.meta.len()
            invariant
                d <= self.meta@.len(),
                forall|j: int| 0 <= j < d ==> !holds_page(self@.meta, index)[j],
            decreases self.meta.len() - d,
        {
            proof {
                assert(self@.meta[d as int] == self.meta@[d as int]@);
                assert(holds_page(self@.meta, index)[d as int] == (page_position(self@.meta[d as int].pages, index)
                    is Some));
            }
            match self.meta[d].position(index) {
                Some(i) => {
                    proof {
                        lemma_first_true(holds_page(self@.meta, index), d as int);
                        lemma_page_position_found(self@.meta[d as int].pages, index);
                    }
                    return Some((d, i));
                },
                None => {},
            }
            d += 1;
        }
        proof {
            lemma_first_true(holds_page(self@.meta, index), d as int);
        }
        None
    }

    /// The first directory that has room for one more page.
    fn find_room(&self) -> (r: Option<usize>)
        ensures
            match r {
                Some(d) => first_with_room(self@.meta) == Some(d as int) && d < self.meta@.len()
                    && self.meta@[d as int].pages@.len() < PAGE_CAPACITY,
                None => first_with_room(self@.meta) is None,
            },
    {
        let mut d: usize = 0;
        while d < self.meta.len()
            invariant
                d <= self.meta@.len(),
                forall|j: int| 0 <= j < d ==> !has_space(self@.meta)[j],
            decreases self.meta.len() - d,
        {
            proof {
                assert(self@.meta[d as int] == self.meta@[d as int]@);
                assert(has_space(self@.meta)[d as int] == (self@.meta[d as int].pages.len() < PAGE_CAPACITY));
            }
            if self.meta[d].pages.len() < PAGE_CAPACITY {
                proof {
                    lemma_first_true(has_space(self@.meta), d as int);
                }
                return Some(d);
            }
            d += 1;
        }
        proof {
            lemma_first_true(has_space(self@.meta), d as int);
        }
        None
    }

    /// Reads the chunk at `offset`: from the cache, after the page was taken
    /// back from the queue where the queue held it; else from the first
    /// directory that holds the page, whose buffer is added to the cache;
    /// else as zeros, where no directory holds the page. The buffer of a
    /// page that a directory holds is `page_buffer` of the page and of
    /// `fetched`, which is what the page's remote object holds: it agrees
    /// with the remote object on every chunk that is not marked as all zero.
    pub fn read(&mut self, offset: u64, fetched: Option<Vec<u8>>) -> (step: ReadStep)
        requires
            old(self).wf(),
            offset % CHUNK_SIZE == 0,
            fetched matches Some(buffer) ==> buffer@.len() == PAGE_SIZE,
        ensures
            final(self).wf(),
            ({
                let v = reclaimed(old(self)@, offset, S as nat);
                match cache_read(v.cache, offset) {
                    Some(chunk) => step matches ReadStep::Done(bytes) && bytes@ == chunk && final(self)@ == v,
                    None => match holder(v.meta, page_index(offset)) {
                        None => step matches ReadStep::Done(bytes) && bytes@ == zeros(CHUNK_SIZE as nat)
                            && final(self)@ == v,
                        Some(d) => {
                            let page = v.meta[d].pages[page_position(v.meta[d].pages, page_index(offset))->0];
                            if needs_fetch(page) && fetched is None {
                                step matches ReadStep::Fetch(found) && found@ == page && final(self)@ == v
                            } else if !has_room(v, S as nat) {
                                step == ReadStep::Busy(fetched) && final(self)@ == v
                            } else {
                                let block = cached_block(offset, page, page_buffer(page, fetched->0@));
                                &&& step matches ReadStep::Done(bytes) && bytes@ == block.chunk_at(offset)
                                &&& final(self)@ == cached(v, block, S as nat)
                            }
                        },
                    },
                }
            }),
            final(self)@.meta == old(self)@.meta,
            coherent(old(self)@) && S > 0 ==> {
                &&& coherent(final(self)@)
                &&& live_chunk(old(self)@, offset) matches Some(chunk) ==> step matches ReadStep::Done(bytes)
                    && bytes@ == chunk
                &&& forall|o: u64|
                    o % CHUNK_SIZE == 0 && live_chunk(old(self)@, o) is Some ==> #[trigger] live_chunk(
                        final(self)@,
                        o,
                    ) == live_chunk(old(self)@, o)
            },
    {
        if let Some(bytes) = self.read_cache(offset) {
            proof {
                if coherent(old(self)@) {
                    assert(live_chunk(self@, offset) == live_chunk(old(self)@, offset));
                }
            }
            return ReadStep::Done(bytes);
        }
        let ghost v = self@;
        let ghost index = page_index(offset);
        proof {
            crate::cache::lemma_cache_find_found(v.cache, offset);
            assert(v.meta == old(self)@.meta);
            if coherent(old(self)@) && S > 0 {
                lemma_miss_is_not_live(old(self)@, offset, S as nat);
                assert forall|o: u64| o % CHUNK_SIZE == 0 && page_index(o) == index implies live_chunk(v, o)
                    is None by {
                    lemma_live(v, o);
                }
            }
        }
        match self.find_holder(offset / PAGE_SIZE) {
            None => ReadStep::Done(zero_buffer(CHUNK_SIZE as usize)),
            Some((d, i)) => {
                if fetched.is_none() && self.meta[d].pages[i].needs_fetch() {
                    return ReadStep::Fetch(self.meta[d].pages[i].clone());
                }
                if !self.room() {
                    return ReadStep::Busy(fetched);
                }
                proof {
                    self.meta@[d as int].pages@[i as int].zero_mask.lemma_len();
                }
                match self.meta[d].try_read(offset, fetched) {
                    Some((Some(buffer), page)) => ReadStep::Done(self.install(offset, page, buffer)),
                    _ => ReadStep::Done(zero_buffer(CHUNK_SIZE as usize)),
                }
            },
        }
    }

    /// Writes the chunk `data` at `offset`: to the cache, after the page was
    /// taken back from the queue where the queue held it; else to the page
    /// in the first directory that holds it; else to a new page, which is
    /// added to the first directory with room, or to a new directory where
    /// none has room. The page's buffer with the chunk in it is added to
    /// the cache. The buffer of a page that a directory held before is
    /// `page_buffer` of the page and of `fetched`, which is what the page's
    /// remote object holds; the buffer of a new page is made of zeros.
    pub fn write(&mut self, offset: u64, data: &[u8], fetched: Option<Vec<u8>>) -> (step: WriteStep)
        requires
            old(self).wf(),
            offset % CHUNK_SIZE == 0,
            data@.len() == CHUNK_SIZE,
            fetched matches Some(buffer) ==> buffer@.len() == PAGE_SIZE,
        ensures
            final(self).wf(),
            ({
                let v = reclaimed(old(self)@, offset, S as nat);
                let index = page_index(offset);
                if cache_find(v.cache, offset) is Some {
                    step == WriteStep::Done && final(self)@ == (DriveView {
                        cache: cache_written(v.cache, offset, data@),
                        ..v
                    })
                } else if !has_room(v, S as nat) {
                    step == WriteStep::Busy(fetched) && final(self)@ == v
                } else {
                    match holder(v.meta, index) {
                        Some(d) => {
                            let i = page_position(v.meta[d].pages, index)->0;
                            let page = v.meta[d].pages[i];
                            if needs_fetch(page) && fetched is None {
                                step matches WriteStep::Fetch(found) && found@ == page && final(self)@ == v
                            } else {
                                let after = written_page(page, offset, data@);
                                &&& step == WriteStep::Done
                                &&& final(self)@ == cached(
                                    DriveView { meta: v.meta.update(d, with_page(v.meta[d], i, after)), ..v },
                                    cached_block(
                                        offset,
                                        after,
                                        written_buffer(page_buffer(page, fetched->0@), offset, data@),
                                    ),
                                    S as nat,
                                )
                            }
                        },
                        None => {
                            let after = written_page(fresh_page(index), offset, data@);
                            let block = cached_block(
                                offset,
                                after,
                                written_buffer(zeros(PAGE_SIZE as nat), offset, data@),
                            );
                            match first_with_room(v.meta) {
                                Some(d) => {
                                    &&& step == WriteStep::Persist(d as usize)
                                    &&& final(self)@ == cached(
                                        DriveView { meta: v.meta.update(d, with_new_page(v.meta[d], after)), ..v },
                                        block,
                                        S as nat,
                                    )
                                },
                                None => {
                                    &&& step == WriteStep::Persist(v.meta.len() as usize)
                                    &&& final(self)@ == cached(
                                        DriveView {
                                            meta: v.meta.push(
                                                MetadataBlockView { message_id: 0, pages: seq![after] },
                                            ),
                                            ..v
                                        },
                                        block,
                                        S as nat,
                                    )
                                },
                            }
                        },
                    }
                }
            }),
            (step is Done || step is Persist) ==> cache_read(final(self)@.cache, offset) == Some(data@),
            directories_ok(old(self)@.meta) ==> directories_ok(final(self)@.meta),
            coherent(old(self)@) && S > 0 ==> {
                &&& coherent(final(self)@)
                &&& (step is Done || step is Persist) ==> live_chunk(final(self)@, offset) == Some(data@)
                &&& forall|o: u64|
                    o % CHUNK_SIZE == 0 && o != offset && live_chunk(old(self)@, o) is Some ==> #[trigger] live_chunk(
                        final(self)@,
                        o,
                    ) == live_chunk(old(self)@, o)
            },
    {
        if self.write_cache(offset, data) {
            return WriteStep::Done;
        }
        let ghost v = self@;
        let ghost index = page_index(offset);
        proof {
            crate::cache::lemma_cache_find_found(v.cache, offset);
            assert(v.meta == old(self)@.meta);
            if coherent(old(self)@) && S > 0 {
                lemma_miss_is_not_live(old(self)@, offset, S as nat);
                assert forall|o: u64| o % CHUNK_SIZE == 0 && page_index(o) == index implies live_chunk(v, o)
                    is None by {
                    lemma_live(v, o);
                }
            }
        }
        if !self.room() {
            return WriteStep::Busy(fetched);
        }
        let ghost metas = self.meta@;
        match self.find_holder(offset / PAGE_SIZE) {
            Some((d, i)) => {
                if fetched.is_none() && self.meta[d].pages[i].needs_fetch() {
                    return WriteStep::Fetch(self.meta[d].pages[i].clone());
                }
                let ghost page = v.meta[d as int].pages[i as int];
                proof {
                    metas[d as int].pages@[i as int].zero_mask.lemma_len();
                }
                let mut dir = self.meta.remove(d);
                let written = match fetched {
                    Some(remote) => dir.write_fetched(offset, data, remote),
                    None => match dir.try_write(offset, data) {
                        TryWrite::Written(buffer, after) => (buffer, after),
                        _ => (Vec::new(), Page::new(offset / PAGE_SIZE)),
                    },
                };
                self.meta.insert(d, dir);
                proof {
                    assert(self.meta@ =~= metas.update(d as int, dir));
                    assert(dir@.pages =~= v.meta[d as int].pages.update(i as int, written.1@));
                    assert(self@.meta =~= v.meta.update(d as int, with_page(v.meta[d as int], i as int, written.1@)));
                    lemma_written_chunk(offset, page, page_buffer(page, fetched->0@), data@);
                    if directories_ok(v.meta) {
                        lemma_with_page_ok(v.meta, d as int, i as int, written.1@);
                    }
                }
                let _ = self.install(offset, written.1, written.0);
                WriteStep::Done
            },
            None => {
                proof {
                    lemma_first_true_found(holds_page(v.meta, index));
                    lemma_no_holder(v.meta, index);
                    lemma_written_chunk(offset, fresh_page(index), zeros(PAGE_SIZE as nat), data@);
                }
                match self.find_room() {
                    Some(d) => {
                        proof {
                            assert(v.meta[d as int] == metas[d as int]@);
                            assert(!holds_page(v.meta, index)[d as int]);
                        }
                        let mut dir = self.meta.remove(d);
                        let created = match dir.try_write(offset, data) {
                            TryWrite::Created(buffer, page) => (buffer, page),
                            _ => (Vec::new(), Page::new(offset / PAGE_SIZE)),
                        };
                        self.meta.insert(d, dir);
                        proof {
                            assert(self.meta@ =~= metas.update(d as int, dir));
                            assert(dir@.pages =~= v.meta[d as int].pages.push(created.1@));
                            assert(self@.meta =~= v.meta.update(
                                d as int,
                                with_new_page(v.meta[d as int], created.1@),
                            ));
                            if directories_ok(v.meta) {
                                lemma_with_new_page_ok(v.meta, d as int, created.1@);
                            }
                        }
                        let _ = self.install(offset, created.1, created.0);
                        WriteStep::Persist(d)
                    },
                    None => {
                        let d: usize = self.meta.len();
                        let mut dir = MetadataBlock::empty(0);
                        proof {
                            crate::metadata::lemma_page_position(dir@.pages, index, 0);
                        }
                        let created = match dir.try_write(offset, data) {
                            TryWrite::Created(buffer, page) => (buffer, page),
                            _ => (Vec::new(), Page::new(offset / PAGE_SIZE)),
                        };
                        proof {
                            assert(dir@.pages =~= seq![created.1@]);
                        }
                        self.meta.push(dir);
                        proof {
                            assert(self@.meta =~= v.meta.push(
                                MetadataBlockView { message_id: 0, pages: seq![created.1@] },
                            ));
                            if directories_ok(v.meta) {
                                lemma_new_directory_ok(v.meta, 0, created.1@);
                            }
                        }
                        let _ = self.install(offset, created.1, created.0);
                        WriteStep::Persist(d)
                    },
                }
            },
        }
    }

    /// One step of a flush: the pages of the cache go to the queue, oldest
    /// first, as far as the queue has room. The flush is done when the cache
    /// and the queue are empty and no page is being written.
    pub fn flush(&mut self) -> (step: FlushStep)
        requires
            old(self).wf(),
        ensures
            final(self).wf(),
            ({
                let v = old(self)@;
                let moved = if v.cache.len() <= S - v.queue.len() {
                    v.cache.len() as int
                } else {
                    S - v.queue.len()
                };
                &&& final(self)@ == (DriveView {
                    cache: v.cache.skip(moved),
                    queue: v.queue + v.cache.take(moved).map_values(|b: CacheBlockView| queued(b)),
                    ..v
                })
                &&& if v.cache.len() == moved && final(self)@.queue.len() == 0 && !v.syncing {
                    step matches FlushStep::Done(records) && records@ == v.meta.map_values(
                        |m: MetadataBlockView| m.message_id,
                    )
                } else {
                    step == FlushStep::Wait
                }
            }),
            coherent(old(self)@) ==> {
                &&& coherent(final(self)@)
                &&& forall|o: u64|
                    o % CHUNK_SIZE == 0 ==> #[trigger] live_chunk(final(self)@, o) == live_chunk(old(self)@, o)
            },
    {
        let ghost v = self@;
        let ghost mut moved: int = 0;
        proof {
            assert(v.cache.skip(0) =~= v.cache);
            assert(v.queue + v.cache.take(0).map_values(|b: CacheBlockView| queued(b)) =~= v.queue);
        }
        while self.cache.data.len() > 0 && self.queue.data.len() < S
            invariant
                self.wf(),
                v == old(self)@,
                0 <= moved <= v.cache.len(),
                moved <= S - v.queue.len(),
                self@ == (DriveView {
                    cache: v.cache.skip(moved),
                    queue: v.queue + v.cache.take(moved).map_values(|b: CacheBlockView| queued(b)),
                    ..v
                }),
                coherent(v) ==> {
                    &&& coherent(self@)
                    &&& forall|o: u64| o % CHUNK_SIZE == 0 ==> #[trigger] live_chunk(self@, o) == live_chunk(v, o)
                },
            decreases self.cache.data@.len(),
        {
            let ghost cache_before = self.cache@;
            let ghost queue_before = self.queue@;
            let ghost before = self@;
            proof {
                assert(self.cache@[0].wf());
            }
            let block = self.cache.data.remove(0);
            let page = Page {
                offset: block.offset / PAGE_SIZE,
                message_id: block.message_id,
                zero_mask: block.mask,
            };
            let _ = self.queue.push(page, block.data);
            proof {
                assert(self.cache@ =~= cache_before.skip(1));
                assert(self.cache@ =~= v.cache.skip(moved + 1));
                assert(cache_before[0] == v.cache[moved]);
                assert(self.queue@ =~= v.queue + v.cache.take(moved + 1).map_values(
                    |b: CacheBlockView| queued(b),
                ));
                moved = moved + 1;
                if coherent(v) {
                    assert(self@ == crate::coherence::evicted(before));
                    lemma_evicted(before, 0);
                    assert forall|o: u64| o % CHUNK_SIZE == 0 implies #[trigger] live_chunk(self@, o)
                        == live_chunk(v, o) by {
                        lemma_evicted(before, o);
                        assert(live_chunk(before, o) == live_chunk(v, o));
                    }
                }
            }
        }
        if self.cache.data.len() > 0 || !self.queue.flush() {
            return FlushStep::Wait;
        }
        let mut records: Vec<u64> = Vec::new();
        let mut d: usize = 0;
        while d < self.meta.len()
            invariant
                d <= self.meta@.len(),
                records@ == self@.meta.take(d as int).map_values(|m: MetadataBlockView| m.message_id),
            decreases self.meta.len() - d,
        {
            records.push(self.meta[d].message_id);
            proof {
                assert(records@ =~= self@.meta.take(d + 1).map_values(|m: MetadataBlockView| m.message_id));
            }
            d += 1;
        }
        proof {
            assert(self@.meta.take(self.meta@.len() as int) =~= self@.meta);
        }
        FlushStep::Done(records)
    }

    /// Takes the next page to be written to the remote store out of the
    /// queue (see `Queue::begin_sync`).
    pub fn begin_sync(&mut self) -> (r: Option<QueueBlock>)
        requires
            old(self).wf(),
        ensures
            final(self).wf(),
            final(self)@.meta == old(self)@.meta,
            final(self)@.cache == old(self)@.cache,
            old(self)@.queue.len() == 0 ==> r is None && final(self)@ == old(self)@,
            old(self)@.queue.len() > 0 ==> r == Some(old(self).queue.data@.last()) && final(self)@.queue == old(
                self,
            )@.queue.drop_last() && final(self)@.syncing,
            coherent(old(self)@) ==> {
                &&& coherent(final(self)@)
                &&& r matches Some(block) ==> !is_live(final(self)@, block.page.offset)
                &&& forall|o: u64|
                    o % CHUNK_SIZE == 0 && (r matches Some(block) ==> block.page.offset != page_index(o))
                        ==> #[trigger] live_chunk(final(self)@, o) == live_chunk(old(self)@, o)
            },
    {
        let r = self.queue.begin_sync();
        proof {
            let v = old(self)@;
            if coherent(v) && v.queue.len() > 0 {
                let last = v.queue.len() - 1;
                let u = crate::coherence::unqueued(v, last);
                assert(v.queue.remove(last) =~= v.queue.drop_last());
                assert(self@ == DriveView { syncing: true, ..u });
                lemma_unqueued(v, last, 0);
                assert(v.queue[last] == old(self).queue.data@.last()@);
                assert forall|o: u64|
                    o % CHUNK_SIZE == 0 && v.queue[last].page.offset != page_index(o) implies #[trigger] live_chunk(
                    self@,
                    o,
                ) == live_chunk(v, o) by {
                    lemma_unqueued(v, last, o);
                    assert(live_chunk(self@, o) == live_chunk(u, o));
                }
                assert(is_live(self@, v.queue[last].page.offset) == is_live(u, v.queue[last].page.offset));
            }
        }
        r
    }

    /// Takes over the remote object and the mask of `page`, which was
    /// written to the remote store, in the first directory that holds a page
    /// with its index. Returns the place of that directory, whose remote
    /// record is to be brought up to date; `None` where no directory holds
    /// such a page.
    pub fn sync_page(&mut self, page: Page) -> (r: Option<usize>)
        ensures
            final(self).cache == old(self).cache,
            final(self).queue == old(self).queue,
            match holder(old(self)@.meta, page.offset) {
                Some(d) => {
                    let i = page_position(old(self)@.meta[d].pages, page.offset)->0;
                    &&& r == Some(d as usize)
                    &&& final(self)@.meta == old(self)@.meta.update(d, with_page(old(self)@.meta[d], i, page@))
                },
                None => r is None && final(self)@.meta == old(self)@.meta,
            },
            directories_ok(old(self)@.meta) ==> directories_ok(final(self)@.meta),
    {
        let ghost v = self@;
        let mut d: usize = 0;
        while d < self.meta.len()
            invariant
                self@ == v,
                v == old(self)@,
                self.cache == old(self).cache,
                self.queue == old(self).queue,
                d <= self.meta@.len(),
                forall|j: int| 0 <= j < d ==> !holds_page(v.meta, page.offset)[j],
            decreases self.meta.len() - d,
        {
            let ghost metas = self.meta@;
            proof {
                assert(v.meta[d as int] == self.meta@[d as int]@);
                assert(holds_page(v.meta, page.offset)[d as int] == (page_position(
                    v.meta[d as int].pages,
                    page.offset,
                ) is Some));
            }
            let mut dir = self.meta.remove(d);
            let ghost before = dir@;
            let found = dir.update_page(page.clone());
            self.meta.insert(d, dir);
            proof {
                assert(self.meta@ =~= metas.update(d as int, dir));
            }
            if found {
                proof {
                    lemma_first_true(holds_page(v.meta, page.offset), d as int);
                    let i = page_position(before.pages, page.offset)->0;
                    lemma_page_position_found(before.pages, page.offset);
                    assert(dir@.pages =~= before.pages.update(i, page@));
                    assert(self@.meta =~= v.meta.update(d as int, with_page(v.meta[d as int], i, page@)));
                    if directories_ok(v.meta) {
                        lemma_with_page_ok(v.meta, d as int, i, page@);
                    }
                }
                return Some(d);
            }
            proof {
                assert(dir@.pages =~= before.pages);
                assert(self@.meta =~= v.meta);
            }
            d += 1;
        }
        proof {
            lemma_first_true(holds_page(v.meta, page.offset), d as int);
        }
        None
    }

    /// Records that the page taken by `begin_sync` was written.
    pub fn end_sync(&mut self)
        ensures
            final(self)@ == (DriveView { syncing: false, ..old(self)@ }),
            old(self).wf() ==> final(self).wf(),
    {
        self.queue.end_sync();
    }

    /// What has to be done to the remote record of the directory at place
    /// `dir` to bring it up to date (see `MetadataBlock::update_message`).
    pub fn update_message(&self, dir: usize) -> (r: RecordUpdate)
        requires
            dir < self@.meta.len(),
        ensures
            match r {
                RecordUpdate::Create(text) => self@.meta[dir as int].message_id == 0 && text@ == record_text(
                    self@.meta[dir as int].pages,
                ),
                RecordUpdate::Edit(message_id, text) => message_id != 0 && message_id == self@.meta[dir as int].message_id
                    && text@ == record_text(self@.meta[dir as int].pages),
            },
    {
        self.meta[dir].update_message()
    }

    /// Records that the directory at place `dir` is now kept in the remote
    /// record `message_id`.
    pub fn record_created(&mut self, dir: usize, message_id: u64)
        requires
            dir < old(self)@.meta.len(),
        ensures
            final(self).cache == old(self).cache,
            final(self).queue == old(self).queue,
            final(self)@.meta == old(self)@.meta.update(
                dir as int,
                MetadataBlockView { message_id, ..old(self)@.meta[dir as int] },
            ),
            directories_ok(old(self)@.meta) ==> directories_ok(final(self)@.meta),
    {
        let mut block = self.meta.remove(dir);
        block.set_message_id(message_id);
        self.meta.insert(dir, block);
        proof {
            assert(self@.meta =~= old(self)@.meta.update(
                dir as int,
                MetadataBlockView { message_id, ..old(self)@.meta[dir as int] },
            ));
        }
    }
}

} // verus!
