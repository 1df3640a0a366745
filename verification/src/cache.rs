//! The page cache: a bounded list of pages held in memory, oldest first.

use crate::layout::{all_zero, copy_range, is_all_zero, splice, spliced, zero_buffer, zeros, CHUNK_SIZE, PAGE_SIZE};
use crate::utils::{bits_of, bytes_with_bit, lemma_bytes_with_bit, BitMask};
use vstd::prelude::*;

verus! {

/// What a cached page is: the byte offset at which it begins, the remote
/// object that holds it (0 while there is none), its buffer, and the bytes
/// of its zero mask.
pub struct CacheBlockView {
    pub offset: u64,
    pub message_id: u64,
    pub data: Seq<u8>,
    pub mask: Seq<u8>,
}

impl CacheBlockView {
    /// The buffer is one page long, and the mask has a bit for each of its chunks.
    pub open spec fn wf(self) -> bool {
        self.data.len() == PAGE_SIZE && self.mask.len() == 256
    }

    /// The chunk at `offset` lies in the page.
    pub open spec fn covers(self, offset: u64) -> bool {
        self.offset <= offset && offset - self.offset + CHUNK_SIZE <= self.data.len()
    }

    /// The place in the buffer of byte `offset`.
    pub open spec fn place(self, offset: u64) -> int {
        offset - self.offset
    }

    /// The chunk of the page that holds byte `offset`.
    pub open spec fn chunk(self, offset: u64) -> int {
        (offset - self.offset) / CHUNK_SIZE as int
    }

    /// The chunk at `offset` as a reader sees it: zeros where the chunk is
    /// marked as all zero, and the bytes of the buffer otherwise.
    pub open spec fn chunk_at(self, offset: u64) -> Seq<u8> {
        if bits_of(self.mask)[self.chunk(offset)] {
            zeros(CHUNK_SIZE as nat)
        } else {
            self.data.subrange(self.place(offset), self.place(offset) + CHUNK_SIZE)
        }
    }

    /// The page after `data` was written at `offset`: the bytes are in the
    /// buffer, and the chunk's mark says whether they are all zero.
    pub open spec fn written(self, offset: u64, data: Seq<u8>) -> CacheBlockView {
        CacheBlockView {
            data: spliced(self.data, self.place(offset), data),
            mask: bytes_with_bit(self.mask, self.chunk(offset), all_zero(data)),
            ..self
        }
    }
}

/// The place of the first of `entries` in which the chunk at `offset` lies, if there is one.
pub open spec fn cache_find(entries: Seq<CacheBlockView>, offset: u64) -> Option<int> {
    entries.map_values(|b: CacheBlockView| b.covers(offset)).index_of_first(true)
}

/// What a read of the chunk at `offset` gives: the chunk as seen in the
/// first entry in which it lies.
pub open spec fn cache_read(entries: Seq<CacheBlockView>, offset: u64) -> Option<Seq<u8>> {
    match cache_find(entries, offset) {
        Some(i) => Some(entries[i].chunk_at(offset)),
        None => None,
    }
}

/// The entries after `data` was written at `offset`: written to the first
/// entry in which the chunk lies, and unchanged where there is none.
pub open spec fn cache_written(entries: Seq<CacheBlockView>, offset: u64, data: Seq<u8>) -> Seq<
    CacheBlockView,
> {
    match cache_find(entries, offset) {
        Some(i) => entries.update(i, entries[i].written(offset, data)),
        None => entries,
    }
}

/// The entries after `block` was added to a cache that holds `capacity`
/// pages: `block` is the newest, and the oldest has left where there were
/// too many.
pub open spec fn cache_pushed(entries: Seq<CacheBlockView>, block: CacheBlockView, capacity: nat) -> Seq<
    CacheBlockView,
> {
    if entries.len() >= capacity {
        entries.push(block).skip(1)
    } else {
        entries.push(block)
    }
}

/// The entry that left when `block` was added, if one did: the oldest.
pub open spec fn cache_evicted(entries: Seq<CacheBlockView>, block: CacheBlockView, capacity: nat) -> Option<
    CacheBlockView,
> {
    if entries.len() >= capacity {
        Some(entries.push(block)[0])
    } else {
        None
    }
}

/// The entries after each of `blocks` was added in turn.
pub open spec fn cache_pushed_all(entries: Seq<CacheBlockView>, blocks: Seq<CacheBlockView>, capacity: nat) -> Seq<
    CacheBlockView,
>
    decreases blocks.len(),
{
    if blocks.len() == 0 {
        entries
    } else {
        cache_pushed(cache_pushed_all(entries, blocks.drop_last(), capacity), blocks.last(), capacity)
    }
}

/// Pages leave the cache in the order in which they came: after any number
/// of pages was added, the cache holds the newest of all its pages, as many
/// as it has room for, oldest first. Reads and writes in between change
/// nothing in this, as they leave the order as it is.
pub proof fn lemma_cache_fifo(entries: Seq<CacheBlockView>, blocks: Seq<CacheBlockView>, capacity: nat)
    requires
        entries.len() <= capacity,
    ensures
        ({
            let all = entries + blocks;
            cache_pushed_all(entries, blocks, capacity) == if all.len() <= capacity {
                all
            } else {
                all.skip(all.len() - capacity)
            }
        }),
    decreases blocks.len(),
{
    let all = entries + blocks;
    if blocks.len() == 0 {
        assert(all =~= entries);
    } else {
        let before = entries + blocks.drop_last();
        lemma_cache_fifo(entries, blocks.drop_last(), capacity);
        assert(all =~= before.push(blocks.last()));
        let held = cache_pushed_all(entries, blocks.drop_last(), capacity);
        let after = cache_pushed(held, blocks.last(), capacity);
        if all.len() <= capacity {
            assert(after =~= all);
        } else {
            assert(after =~= all.skip(all.len() - capacity));
        }
    }
}

/// What tells the first entry in which the chunk at `offset` lies.
pub proof fn lemma_cache_find(entries: Seq<CacheBlockView>, offset: u64, r: int)
    requires
        0 <= r <= entries.len(),
        forall|j: int| 0 <= j < r ==> !entries[j].covers(offset),
        r < entries.len() ==> entries[r].covers(offset),
    ensures
        cache_find(entries, offset) == if r < entries.len() {
            Some(r)
        } else {
            None
        },
{
    let hits = entries.map_values(|b: CacheBlockView| b.covers(offset));
    hits.index_of_first_ensures(true);
    if r < entries.len() {
        assert(hits[r]);
        assert(hits.contains(true));
        let k = hits.index_of_first(true)->0;
        assert(hits[k]);
    } else {
        if hits.contains(true) {
            let k = choose|k: int| 0 <= k < hits.len() && hits[k] == true;
            assert(entries[k].covers(offset));
        }
    }
}

/// Where the chunk is found, it lies in that entry and in none before it.
pub proof fn lemma_cache_find_found(entries: Seq<CacheBlockView>, offset: u64)
    ensures
        match cache_find(entries, offset) {
            Some(i) => 0 <= i < entries.len() && entries[i].covers(offset) && forall|j: int|
                0 <= j < i ==> !entries[j].covers(offset),
            None => forall|j: int| 0 <= j < entries.len() ==> !entries[j].covers(offset),
        },
{
    let hits = entries.map_values(|b: CacheBlockView| b.covers(offset));
    hits.index_of_first_ensures(true);
    match cache_find(entries, offset) {
        Some(i) => {
            assert(hits[i]);
            assert forall|j: int| 0 <= j < i implies !entries[j].covers(offset) by {
                assert(hits[j] != true);
            }
        },
        None => {
            assert forall|j: int| 0 <= j < entries.len() implies !entries[j].covers(offset) by {
                assert(hits[j] == entries[j].covers(offset));
            }
        },
    }
}

/// A chunk that was written is read back as it was written, whether it is
/// all zero or not.
pub proof fn lemma_cache_read_after_write(entries: Seq<CacheBlockView>, offset: u64, data: Seq<u8>)
    requires
        forall|i: int| 0 <= i < entries.len() ==> (#[trigger] entries[i]).wf(),
        data.len() == CHUNK_SIZE,
        cache_find(entries, offset) is Some,
    ensures
        cache_read(cache_written(entries, offset, data), offset) == Some(data),
        bits_of(cache_written(entries, offset, data)[cache_find(entries, offset)->0].mask)[entries[cache_find(
            entries,
            offset,
        )->0].chunk(offset)] == all_zero(data),
{
    lemma_cache_find_found(entries, offset);
    let i = cache_find(entries, offset)->0;
    let before = entries[i];
    let after = before.written(offset, data);
    let all = cache_written(entries, offset, data);
    assert(before.wf());
    lemma_bytes_with_bit(before.mask, before.chunk(offset), all_zero(data));
    assert forall|j: int| 0 <= j < i implies !all[j].covers(offset) by {
        assert(all[j] == entries[j]);
    }
    assert(after.covers(offset));
    lemma_cache_find(all, offset, i);
    assert(after.chunk_at(offset) =~= data);
}

/// One page held in memory.
#[derive(Debug)]
pub struct CacheBlock {
    /// The byte offset at which the page begins.
    pub offset: u64,
    /// The remote object that holds the page; 0 while there is none.
    pub message_id: u64,
    /// The page's buffer.
    pub data: Vec<u8>,
    /// One bit for each chunk; a set bit says that the chunk is all zero.
    pub mask: BitMask<256>,
}

impl View for CacheBlock {
    type V = CacheBlockView;

    open spec fn view(&self) -> CacheBlockView {
        CacheBlockView {
            offset: self.offset,
            message_id: self.message_id,
            data: self.data@,
            mask: self.mask.bytes(),
        }
    }
}

impl CacheBlock {
    /// The page that begins at byte `offset`, with its remote object, its
    /// buffer and its mask.
    pub fn new(offset: u64, message_id: u64, data: Vec<u8>, mask: BitMask<256>) -> (r: Self)
        ensures
            r@ == (CacheBlockView { offset, message_id, data: data@, mask: mask.bytes() }),
            r.data == data,
            r.mask == mask,
    {
        CacheBlock { offset, message_id, data, mask }
    }

    /// Whether the chunk at `offset` lies in the page.
    fn covers(&self, offset: u64) -> (r: bool)
        requires
            self@.wf(),
        ensures
            r == self@.covers(offset),
    {
        offset >= self.offset && offset - self.offset <= PAGE_SIZE - CHUNK_SIZE
    }
}

/// The views of `blocks`, in order.
pub open spec fn cache_views(blocks: Seq<CacheBlock>) -> Seq<CacheBlockView> {
    blocks.map_values(|b: CacheBlock| b@)
}

/// Up to `S` pages held in memory, oldest first.
pub struct Cache<const S: usize> {
    /// The pages, oldest first.
    pub data: Vec<CacheBlock>,
}

impl<const S: usize> View for Cache<S> {
    type V = Seq<CacheBlockView>;

    open spec fn view(&self) -> Seq<CacheBlockView> {
        cache_views(self.data@)
    }
}

impl<const S: usize> Cache<S> {
    /// The cache holds no more than `S` pages, each with a whole buffer.
    pub open spec fn wf(&self) -> bool {
        &&& self@.len() <= S
        &&& forall|i: int| 0 <= i < self@.len() ==> (#[trigger] self@[i]).wf()
    }

    /// An empty cache.
    pub fn new() -> (r: Self)
        ensures
            r@ == Seq::<CacheBlockView>::empty(),
            r.wf(),
    {
        let r = Cache { data: Vec::new() };
        proof {
            assert(r@ =~= Seq::<CacheBlockView>::empty());
        }
        r
    }

    /// Whether the cache is within its bounds (see `wf`).
    pub fn check(&self) -> (ok: bool)
        ensures
            ok == self.wf(),
    {
        if self.data.len() > S {
            return false;
        }
        let mut i: usize = 0;
        while i < self.data.len()
            invariant
                i <= self.data@.len(),
                forall|j: int| 0 <= j < i ==> (#[trigger] self@[j]).wf(),
            decreases self.data.len() - i,
        {
            proof {
                self.data@[i as int].mask.lemma_len();
            }
            if self.data[i].data.len() as u64 != PAGE_SIZE {
                proof {
                    assert(!self@[i as int].wf());
                }
                return false;
            }
            i += 1;
        }
        true
    }

    /// The place of the first entry in which the chunk at `offset` lies.
    fn find(&self, offset: u64) -> (r: Option<usize>)
        requires
            self.wf(),
        ensures
            match r {
                Some(i) => cache_find(self@, offset) == Some(i as int) && i < self.data@.len() && self@[i as int].covers(
                    offset,
                ),
                None => cache_find(self@, offset) is None,
            },
    {
        let mut i: usize = 0;
        while i < self.data.len()
            invariant
                self.wf(),
                i <= self.data@.len(),
                forall|j: int| 0 <= j < i ==> !self@[j].covers(offset),
            decreases self.data.len() - i,
        {
            proof {
                assert(self@[i as int].wf());
            }
            if self.data[i].covers(offset) {
                proof {
                    lemma_cache_find(self@, offset, i as int);
                }
                return Some(i);
            }
            i += 1;
        }
        proof {
            lemma_cache_find(self@, offset, i as int);
        }
        None
    }

    /// Reads the chunk at `offset` from the first page in which it lies.
    /// `None` says that the chunk lies in no page of the cache, which is
    /// not to say that it is zero.
    pub fn read(&self, offset: u64) -> (r: Option<Vec<u8>>)
        requires
            self.wf(),
        ensures
            match cache_read(self@, offset) {
                Some(chunk) => r is Some && r->0@ == chunk,
                None => r is None,
            },
    {
        match self.find(offset) {
            None => None,
            Some(i) => {
                proof {
                    assert(self@[i as int].wf());
                }
                let block = &self.data[i];
                let at: usize = (offset - block.offset) as usize;
                let chunk: usize = ((offset - block.offset) / CHUNK_SIZE) as usize;
                if block.mask.get(chunk) {
                    Some(zero_buffer(CHUNK_SIZE as usize))
                } else {
                    Some(copy_range(&block.data, at, CHUNK_SIZE as usize))
                }
            },
        }
    }

    /// Writes `data` at `offset` to the first page in which the chunk lies,
    /// and marks the chunk as all zero or not. Returns whether there is such
    /// a page; where there is none, nothing is changed.
    pub fn write(&mut self, offset: u64, data: &[u8]) -> (r: bool)
        requires
            old(self).wf(),
            data@.len() == CHUNK_SIZE,
        ensures
            final(self).wf(),
            r == (cache_find(old(self)@, offset) is Some),
            final(self)@ == cache_written(old(self)@, offset, data@),
            r ==> cache_read(final(self)@, offset) == Some(data@),
    {
        match self.find(offset) {
            None => false,
            Some(i) => {
                proof {
                    assert(self@[i as int].wf());
                    lemma_cache_read_after_write(self@, offset, data@);
                }
                let mut block = self.data.remove(i);
                let at: usize = (offset - block.offset) as usize;
                let chunk: usize = ((offset - block.offset) / CHUNK_SIZE) as usize;
                splice(&mut block.data, at, data);
                block.mask.set(chunk, is_all_zero(data));
                proof {
                    assert(block@ == old(self)@[i as int].written(offset, data@));
                    lemma_bytes_with_bit(old(self)@[i as int].mask, chunk as int, all_zero(data@));
                }
                self.data.insert(i, block);
                proof {
                    assert(self@ =~= cache_written(old(self)@, offset, data@));
                }
                true
            },
        }
    }

    /// Adds `block` as the newest page. Where the cache was full, the oldest
    /// page leaves it and is returned.
    pub fn push(&mut self, block: CacheBlock) -> (r: Option<CacheBlock>)
        requires
            old(self).wf(),
            block@.wf(),
        ensures
            final(self).wf(),
            final(self)@ == cache_pushed(old(self)@, block@, S as nat),
            match cache_evicted(old(self)@, block@, S as nat) {
                Some(evicted) => r is Some && r->0@ == evicted,
                None => r is None,
            },
    {
        let ghost pushed = block@;
        self.data.push(block);
        proof {
            assert(self@ =~= old(self)@.push(pushed));
        }
        if self.data.len() > S {
            let evicted = self.data.remove(0);
            proof {
                assert(self@ =~= old(self)@.push(pushed).skip(1));
            }
            Some(evicted)
        } else {
            None
        }
    }
}

} // verus!
