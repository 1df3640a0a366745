//! What keeps the engine's pages apart: a page is held at most once, in the
//! cache or in the queue, and what a reader sees of it does not depend on
//! which of the two holds it.

use crate::cache::{
    cache_find, cache_written, lemma_cache_find, lemma_cache_find_found, CacheBlockView,
};
use crate::layout::{all_zero, page_index, page_start, CHUNK_SIZE, PAGE_SIZE};
use crate::layout::lemma_first_true_found;
use crate::metadata::{
    lemma_page_position_found, written_buffer, written_page, MetadataBlockView, PageView, PAGE_CAPACITY,
};
use crate::queue::{lemma_queue_position, lemma_queue_position_found, queue_position};
use crate::utils::{bits_of, lemma_bytes_with_bit};
use crate::{
    cached, cached_block, holder, holds_page, queued, reclaimed, with_new_page, with_page, DriveView,
};
use vstd::prelude::*;

verus! {

/// The index of the page that the cache entry `block` holds.
pub open spec fn block_page(block: CacheBlockView) -> u64 {
    block.offset / PAGE_SIZE
}

/// The cache entry `block` has a whole buffer and begins where a page begins.
pub open spec fn block_ok(block: CacheBlockView) -> bool {
    block.wf() && block.offset % PAGE_SIZE == 0
}

/// Whether the cache or the queue holds the page with index `index`.
pub open spec fn is_live(v: DriveView, index: u64) -> bool {
    ||| exists|i: int| 0 <= i < v.cache.len() && block_page(#[trigger] v.cache[i]) == index
    ||| exists|j: int| 0 <= j < v.queue.len() && (#[trigger] v.queue[j]).page.offset == index
}

/// Every page of the cache and of the queue has a whole buffer, every page
/// of the cache begins where a page begins, and no page is held twice:
/// not twice in the cache, not twice in the queue, and not in both.
pub open spec fn coherent(v: DriveView) -> bool {
    &&& forall|i: int| 0 <= i < v.cache.len() ==> block_ok(#[trigger] v.cache[i])
    &&& forall|j: int| 0 <= j < v.queue.len() ==> (#[trigger] v.queue[j]).wf()
    &&& forall|i: int, j: int|
        0 <= i < j < v.cache.len() ==> block_page(#[trigger] v.cache[i]) != block_page(#[trigger] v.cache[j])
    &&& forall|i: int, j: int|
        0 <= i < j < v.queue.len() ==> (#[trigger] v.queue[i]).page.offset != (#[trigger] v.queue[j]).page.offset
    &&& forall|i: int, j: int|
        0 <= i < v.cache.len() && 0 <= j < v.queue.len() ==> block_page(#[trigger] v.cache[i]) != (
        #[trigger] v.queue[j]).page.offset
}

/// The chunk at `offset` as the engine holds it, where it holds the page:
/// as seen in the cache, or else as it will be seen once the page is taken
/// back from the queue.
pub open spec fn live_chunk(v: DriveView, offset: u64) -> Option<Seq<u8>> {
    match cache_find(v.cache, offset) {
        Some(i) => Some(v.cache[i].chunk_at(offset)),
        None => match queue_position(v.queue, page_index(offset)) {
            Some(j) => Some(cached_block(offset, v.queue[j].page, v.queue[j].data).chunk_at(offset)),
            None => None,
        },
    }
}

/// A page of the cache holds the chunk at `offset` exactly when it is the
/// page that holds byte `offset`.
pub proof fn lemma_covers(block: CacheBlockView, offset: u64)
    requires
        block_ok(block),
        offset % CHUNK_SIZE == 0,
    ensures
        block.covers(offset) <==> block_page(block) == page_index(offset),
        block.covers(offset) ==> block.offset == page_start(offset),
{
    let start = block.offset;
    let k = start / PAGE_SIZE;
    let q = offset / PAGE_SIZE;
    let r = offset % PAGE_SIZE;
    assert(r % 4096 == 0 && r <= 8388608 - 4096) by (bit_vector)
        requires
            r == offset % 8388608,
            offset % 4096 == 0,
    ;
    assert(start == k * 8388608) by (bit_vector)
        requires
            start % 8388608 == 0,
            k == start / 8388608,
    ;
    assert(offset == q * 8388608 + r) by (bit_vector)
        requires
            q == offset / 8388608,
            r == offset % 8388608,
    ;
    if k == q {
        assert(offset - start == r);
    }
    if block.covers(offset) {
        assert(k * 8388608 <= q * 8388608 + r < k * 8388608 + 8388608);
        assert(k == q);
    }
}

/// A page that goes from the cache to the queue and back is the page it was.
pub proof fn lemma_queued_back(block: CacheBlockView, offset: u64)
    requires
        block_ok(block),
        offset % CHUNK_SIZE == 0,
        block_page(block) == page_index(offset),
    ensures
        cached_block(offset, queued(block).page, queued(block).data) == block,
        queued(block).wf(),
        queued(block).page.offset == block_page(block),
{
    lemma_covers(block, offset);
}

/// In a coherent engine, the page that holds byte `offset` is found in the
/// cache at the one place where the cache holds it.
pub proof fn lemma_find_in_cache(v: DriveView, offset: u64, i: int)
    requires
        coherent(v),
        offset % CHUNK_SIZE == 0,
        0 <= i < v.cache.len(),
        block_page(v.cache[i]) == page_index(offset),
    ensures
        cache_find(v.cache, offset) == Some(i),
        live_chunk(v, offset) == Some(v.cache[i].chunk_at(offset)),
{
    assert forall|j: int| 0 <= j < i implies !v.cache[j].covers(offset) by {
        lemma_covers(v.cache[j], offset);
    }
    lemma_covers(v.cache[i], offset);
    lemma_cache_find(v.cache, offset, i);
}

/// In a coherent engine, a page that the cache does not hold is not found in it.
pub proof fn lemma_not_in_cache(v: DriveView, offset: u64)
    requires
        coherent(v),
        offset % CHUNK_SIZE == 0,
        forall|i: int| 0 <= i < v.cache.len() ==> block_page(#[trigger] v.cache[i]) != page_index(offset),
    ensures
        cache_find(v.cache, offset) is None,
{
    assert forall|j: int| 0 <= j < v.cache.len() implies !v.cache[j].covers(offset) by {
        lemma_covers(v.cache[j], offset);
    }
    lemma_cache_find(v.cache, offset, v.cache.len() as int);
}

/// In a coherent engine, the page that holds byte `offset` is found in the
/// queue at the one place where the queue holds it, and not in the cache.
pub proof fn lemma_find_in_queue(v: DriveView, offset: u64, j: int)
    requires
        coherent(v),
        offset % CHUNK_SIZE == 0,
        0 <= j < v.queue.len(),
        v.queue[j].page.offset == page_index(offset),
    ensures
        cache_find(v.cache, offset) is None,
        queue_position(v.queue, page_index(offset)) == Some(j),
        live_chunk(v, offset) == Some(cached_block(offset, v.queue[j].page, v.queue[j].data).chunk_at(offset)),
{
    lemma_not_in_cache(v, offset);
    lemma_queue_position(v.queue, page_index(offset), j);
}

/// A page that is not live is found neither in the cache nor in the queue;
/// a page that is found in one of them is live.
pub proof fn lemma_live(v: DriveView, offset: u64)
    requires
        coherent(v),
        offset % CHUNK_SIZE == 0,
    ensures
        is_live(v, page_index(offset)) <==> live_chunk(v, offset) is Some,
{
    lemma_cache_find_found(v.cache, offset);
    lemma_queue_position_found(v.queue, page_index(offset));
    if is_live(v, page_index(offset)) {
        if exists|i: int| 0 <= i < v.cache.len() && block_page(#[trigger] v.cache[i]) == page_index(offset) {
            let i = choose|i: int| 0 <= i < v.cache.len() && block_page(#[trigger] v.cache[i]) == page_index(offset);
            lemma_find_in_cache(v, offset, i);
        } else {
            let j = choose|j: int| 0 <= j < v.queue.len() && (#[trigger] v.queue[j]).page.offset == page_index(offset);
            lemma_find_in_queue(v, offset, j);
        }
    }
    if live_chunk(v, offset) is Some {
        match cache_find(v.cache, offset) {
            Some(i) => {
                lemma_covers(v.cache[i], offset);
                assert(block_page(v.cache[i]) == page_index(offset));
            },
            None => {
                let j = queue_position(v.queue, page_index(offset))->0;
                assert(v.queue[j].page.offset == page_index(offset));
            },
        }
    }
}

/// The engine with `block` added to the cache as its newest page.
pub open spec fn appended(v: DriveView, block: CacheBlockView) -> DriveView {
    DriveView { cache: v.cache.push(block), ..v }
}

/// The engine with the oldest page of the cache moved to the end of the queue.
pub open spec fn evicted(v: DriveView) -> DriveView {
    DriveView { cache: v.cache.skip(1), queue: v.queue.push(queued(v.cache[0])), ..v }
}

/// The engine with the page at place `j` of the queue taken out.
pub open spec fn unqueued(v: DriveView, j: int) -> DriveView {
    DriveView { queue: v.queue.remove(j), ..v }
}

/// Adding a page that is not live keeps the engine coherent; the page is
/// then seen as it is, and every other page as before.
pub proof fn lemma_appended(v: DriveView, block: CacheBlockView, offset: u64)
    requires
        coherent(v),
        block_ok(block),
        !is_live(v, block_page(block)),
        offset % CHUNK_SIZE == 0,
    ensures
        coherent(appended(v, block)),
        page_index(offset) == block_page(block) ==> live_chunk(appended(v, block), offset) == Some(
            block.chunk_at(offset),
        ),
        page_index(offset) != block_page(block) ==> live_chunk(appended(v, block), offset) == live_chunk(v, offset),
        forall|index: u64| is_live(appended(v, block), index) <==> is_live(v, index) || index == block_page(block),
{
    let w = appended(v, block);
    assert forall|i: int| 0 <= i < w.cache.len() implies block_ok(#[trigger] w.cache[i]) by {
        if i < v.cache.len() {
            assert(w.cache[i] == v.cache[i]);
        }
    }
    assert forall|i: int, j: int| 0 <= i < j < w.cache.len() implies block_page(#[trigger] w.cache[i])
        != block_page(#[trigger] w.cache[j]) by {
        assert(w.cache[i] == v.cache[i]);
        if j < v.cache.len() {
            assert(w.cache[j] == v.cache[j]);
        }
    }
    assert forall|i: int, j: int| 0 <= i < w.cache.len() && 0 <= j < w.queue.len() implies block_page(
        #[trigger] w.cache[i],
    ) != (#[trigger] w.queue[j]).page.offset by {
        if i < v.cache.len() {
            assert(w.cache[i] == v.cache[i]);
        }
    }
    assert(coherent(w));
    assert forall|index: u64| is_live(w, index) <==> is_live(v, index) || index == block_page(block) by {
        if is_live(v, index) {
            if exists|i: int| 0 <= i < v.cache.len() && block_page(#[trigger] v.cache[i]) == index {
                let i = choose|i: int| 0 <= i < v.cache.len() && block_page(#[trigger] v.cache[i]) == index;
                assert(w.cache[i] == v.cache[i]);
            }
        }
        if index == block_page(block) {
            assert(w.cache[v.cache.len() as int] == block);
        }
        if is_live(w, index) && index != block_page(block) {
            if exists|i: int| 0 <= i < w.cache.len() && block_page(#[trigger] w.cache[i]) == index {
                let i = choose|i: int| 0 <= i < w.cache.len() && block_page(#[trigger] w.cache[i]) == index;
                assert(w.cache[i] == v.cache[i]);
            }
        }
    }
    if page_index(offset) == block_page(block) {
        lemma_find_in_cache(w, offset, v.cache.len() as int);
    } else {
        lemma_cache_find_found(v.cache, offset);
        match cache_find(v.cache, offset) {
            Some(i) => {
                lemma_covers(v.cache[i], offset);
                assert(w.cache[i] == v.cache[i]);
                lemma_find_in_cache(w, offset, i);
            },
            None => {
                assert forall|i: int| 0 <= i < w.cache.len() implies block_page(#[trigger] w.cache[i])
                    != page_index(offset) by {
                    if i < v.cache.len() {
                        assert(w.cache[i] == v.cache[i]);
                        lemma_covers(v.cache[i], offset);
                    }
                }
                lemma_not_in_cache(w, offset);
            },
        }
    }
}

/// Moving the oldest page of the cache to the queue keeps the engine
/// coherent, and every page is seen as before.
pub proof fn lemma_evicted(v: DriveView, offset: u64)
    requires
        coherent(v),
        v.cache.len() > 0,
        offset % CHUNK_SIZE == 0,
    ensures
        coherent(evicted(v)),
        live_chunk(evicted(v), offset) == live_chunk(v, offset),
        forall|index: u64| is_live(evicted(v), index) <==> is_live(v, index),
{
    let w = evicted(v);
    let first = v.cache[0];
    let moved = queued(first);
    assert(block_ok(first));
    assert forall|i: int| 0 <= i < w.cache.len() implies block_ok(#[trigger] w.cache[i]) by {
        assert(w.cache[i] == v.cache[i + 1]);
    }
    assert forall|j: int| 0 <= j < w.queue.len() implies (#[trigger] w.queue[j]).wf() by {
        if j < v.queue.len() {
            assert(w.queue[j] == v.queue[j]);
        }
    }
    assert forall|i: int, j: int| 0 <= i < j < w.cache.len() implies block_page(#[trigger] w.cache[i])
        != block_page(#[trigger] w.cache[j]) by {
        assert(w.cache[i] == v.cache[i + 1]);
        assert(w.cache[j] == v.cache[j + 1]);
    }
    assert forall|i: int, j: int| 0 <= i < j < w.queue.len() implies (#[trigger] w.queue[i]).page.offset != (
    #[trigger] w.queue[j]).page.offset by {
        assert(w.queue[i] == v.queue[i]);
        if j < v.queue.len() {
            assert(w.queue[j] == v.queue[j]);
        }
    }
    assert forall|i: int, j: int| 0 <= i < w.cache.len() && 0 <= j < w.queue.len() implies block_page(
        #[trigger] w.cache[i],
    ) != (#[trigger] w.queue[j]).page.offset by {
        assert(w.cache[i] == v.cache[i + 1]);
        if j < v.queue.len() {
            assert(w.queue[j] == v.queue[j]);
        }
    }
    assert(coherent(w));
    assert forall|index: u64| is_live(w, index) <==> is_live(v, index) by {
        if is_live(v, index) {
            if exists|i: int| 0 <= i < v.cache.len() && block_page(#[trigger] v.cache[i]) == index {
                let i = choose|i: int| 0 <= i < v.cache.len() && block_page(#[trigger] v.cache[i]) == index;
                if i == 0 {
                    assert(w.queue[v.queue.len() as int] == moved);
                } else {
                    assert(w.cache[i - 1] == v.cache[i]);
                }
            } else {
                let j = choose|j: int| 0 <= j < v.queue.len() && (#[trigger] v.queue[j]).page.offset == index;
                assert(w.queue[j] == v.queue[j]);
            }
        }
        if is_live(w, index) {
            if exists|i: int| 0 <= i < w.cache.len() && block_page(#[trigger] w.cache[i]) == index {
                let i = choose|i: int| 0 <= i < w.cache.len() && block_page(#[trigger] w.cache[i]) == index;
                assert(w.cache[i] == v.cache[i + 1]);
            } else {
                let j = choose|j: int| 0 <= j < w.queue.len() && (#[trigger] w.queue[j]).page.offset == index;
                if j < v.queue.len() {
                    assert(w.queue[j] == v.queue[j]);
                }
            }
        }
    }
    lemma_cache_find_found(v.cache, offset);
    match cache_find(v.cache, offset) {
        Some(i) => {
            lemma_covers(v.cache[i], offset);
            if i == 0 {
                lemma_queued_back(first, offset);
                lemma_find_in_queue(w, offset, v.queue.len() as int);
            } else {
                assert(w.cache[i - 1] == v.cache[i]);
                lemma_find_in_cache(w, offset, i - 1);
            }
        },
        None => {
            assert forall|i: int| 0 <= i < w.cache.len() implies block_page(#[trigger] w.cache[i])
                != page_index(offset) by {
                assert(w.cache[i] == v.cache[i + 1]);
                lemma_covers(v.cache[i + 1], offset);
            }
            lemma_not_in_cache(w, offset);
            lemma_queue_position_found(v.queue, page_index(offset));
            lemma_covers(first, offset);
            match queue_position(v.queue, page_index(offset)) {
                Some(j) => {
                    assert(w.queue[j] == v.queue[j]);
                    lemma_find_in_queue(w, offset, j);
                },
                None => {
                    assert forall|j: int| 0 <= j < w.queue.len() implies w.queue[j].page.offset != page_index(
                        offset,
                    ) by {
                        if j < v.queue.len() {
                            assert(w.queue[j] == v.queue[j]);
                        }
                    }
                    lemma_queue_position(w.queue, page_index(offset), w.queue.len() as int);
                },
            }
        },
    }
}

/// Taking a page out of the queue keeps the engine coherent; the page is
/// then not live, and every other page is seen as before.
pub proof fn lemma_unqueued(v: DriveView, j: int, offset: u64)
    requires
        coherent(v),
        0 <= j < v.queue.len(),
        offset % CHUNK_SIZE == 0,
    ensures
        coherent(unqueued(v, j)),
        !is_live(unqueued(v, j), v.queue[j].page.offset),
        page_index(offset) != v.queue[j].page.offset ==> live_chunk(unqueued(v, j), offset) == live_chunk(
            v,
            offset,
        ),
        forall|index: u64|
            is_live(unqueued(v, j), index) <==> is_live(v, index) && index != v.queue[j].page.offset,
{
    let w = unqueued(v, j);
    let gone = v.queue[j].page.offset;
    assert forall|k: int| 0 <= k < w.queue.len() implies (#[trigger] w.queue[k]).wf() && w.queue[k].page.offset
        != gone && (w.queue[k] == v.queue[k] || w.queue[k] == v.queue[k + 1]) by {
        if k < j {
            assert(w.queue[k] == v.queue[k]);
        } else {
            assert(w.queue[k] == v.queue[k + 1]);
        }
    }
    assert forall|i: int, k: int| 0 <= i < k < w.queue.len() implies (#[trigger] w.queue[i]).page.offset != (
    #[trigger] w.queue[k]).page.offset by {
        let a = if i < j { i } else { i + 1 };
        let b = if k < j { k } else { k + 1 };
        assert(w.queue[i] == v.queue[a]);
        assert(w.queue[k] == v.queue[b]);
    }
    assert forall|i: int, k: int| 0 <= i < w.cache.len() && 0 <= k < w.queue.len() implies block_page(
        #[trigger] w.cache[i],
    ) != (#[trigger] w.queue[k]).page.offset by {
        let b = if k < j { k } else { k + 1 };
        assert(w.queue[k] == v.queue[b]);
    }
    assert(coherent(w));
    assert forall|index: u64| is_live(w, index) <==> is_live(v, index) && index != gone by {
        if is_live(v, index) && index != gone {
            if exists|i: int| 0 <= i < v.cache.len() && block_page(#[trigger] v.cache[i]) == index {
            } else {
                let k = choose|k: int| 0 <= k < v.queue.len() && (#[trigger] v.queue[k]).page.offset == index;
                if k < j {
                    assert(w.queue[k] == v.queue[k]);
                } else {
                    assert(w.queue[k - 1] == v.queue[k]);
                }
            }
        }
        if is_live(w, index) {
            if exists|i: int| 0 <= i < w.cache.len() && block_page(#[trigger] w.cache[i]) == index {
                let i = choose|i: int| 0 <= i < w.cache.len() && block_page(#[trigger] w.cache[i]) == index;
                assert(block_page(v.cache[i]) != v.queue[j].page.offset);
            } else {
                let k = choose|k: int| 0 <= k < w.queue.len() && (#[trigger] w.queue[k]).page.offset == index;
                let b = if k < j { k } else { k + 1 };
                assert(w.queue[k] == v.queue[b]);
            }
        }
    }
    assert(!is_live(w, gone));
    if page_index(offset) != gone {
        match cache_find(v.cache, offset) {
            Some(i) => {},
            None => {
                lemma_queue_position_found(v.queue, page_index(offset));
                match queue_position(v.queue, page_index(offset)) {
                    Some(k) => {
                        let b = if k < j { k } else { k - 1 };
                        assert(w.queue[b] == v.queue[k]);
                        lemma_cache_find_found(v.cache, offset);
                        assert forall|i: int| 0 <= i < w.cache.len() implies block_page(#[trigger] w.cache[i])
                            != page_index(offset) by {
                            lemma_covers(v.cache[i], offset);
                        }
                        lemma_find_in_queue(w, offset, b);
                    },
                    None => {
                        assert forall|k: int| 0 <= k < w.queue.len() implies w.queue[k].page.offset
                            != page_index(offset) by {
                            let b = if k < j { k } else { k + 1 };
                            assert(w.queue[k] == v.queue[b]);
                        }
                        lemma_queue_position(w.queue, page_index(offset), w.queue.len() as int);
                    },
                }
            },
        }
    }
}

/// Adding a page that is not live to the cache, with the oldest page
/// leaving for the queue where the cache is full, keeps the engine
/// coherent; the page is then seen as it is, and every other page as before.
pub proof fn lemma_cached(v: DriveView, block: CacheBlockView, capacity: nat, offset: u64)
    requires
        coherent(v),
        block_ok(block),
        !is_live(v, block_page(block)),
        offset % CHUNK_SIZE == 0,
    ensures
        coherent(cached(v, block, capacity)),
        page_index(offset) == block_page(block) ==> live_chunk(cached(v, block, capacity), offset) == Some(
            block.chunk_at(offset),
        ),
        page_index(offset) != block_page(block) ==> live_chunk(cached(v, block, capacity), offset)
            == live_chunk(v, offset),
        forall|index: u64|
            is_live(cached(v, block, capacity), index) <==> is_live(v, index) || index == block_page(block),
        capacity > 0 && page_index(offset) == block_page(block) ==> cache_find(
            cached(v, block, capacity).cache,
            offset,
        ) is Some,
{
    let a = appended(v, block);
    lemma_appended(v, block, offset);
    if v.cache.len() >= capacity {
        lemma_evicted(a, offset);
        assert(cached(v, block, capacity) == evicted(a));
        if capacity > 0 && page_index(offset) == block_page(block) {
            let w = evicted(a);
            assert(w.cache[w.cache.len() - 1] == block);
            lemma_find_in_cache(w, offset, w.cache.len() - 1);
        }
    } else {
        assert(cached(v, block, capacity) == a);
        if page_index(offset) == block_page(block) {
            lemma_find_in_cache(a, offset, v.cache.len() as int);
        }
    }
}

/// Taking a page back from the queue into the cache keeps the engine
/// coherent, and every page is seen as before.
pub proof fn lemma_reclaimed(v: DriveView, offset: u64, capacity: nat, other: u64)
    requires
        coherent(v),
        offset % CHUNK_SIZE == 0,
        other % CHUNK_SIZE == 0,
    ensures
        coherent(reclaimed(v, offset, capacity)),
        live_chunk(reclaimed(v, offset, capacity), other) == live_chunk(v, other),
        forall|index: u64| is_live(reclaimed(v, offset, capacity), index) <==> is_live(v, index),
        capacity > 0 && queue_position(v.queue, page_index(offset)) is Some ==> cache_find(
            reclaimed(v, offset, capacity).cache,
            offset,
        ) is Some,
        queue_position(v.queue, page_index(offset)) is None ==> reclaimed(v, offset, capacity) == v,
{
    lemma_queue_position_found(v.queue, page_index(offset));
    match queue_position(v.queue, page_index(offset)) {
        Some(j) => {
            let u = unqueued(v, j);
            let block = cached_block(offset, v.queue[j].page, v.queue[j].data);
            lemma_unqueued(v, j, other);
            lemma_unqueued(v, j, offset);
            assert(v.queue[j].wf());
            assert(block_ok(block));
            assert(block_page(block) == page_index(offset));
            lemma_cached(u, block, capacity, other);
            lemma_cached(u, block, capacity, offset);
            assert(is_live(v, page_index(offset)));
            if page_index(other) == page_index(offset) {
                lemma_find_in_queue(v, other, j);
                assert(cached_block(other, v.queue[j].page, v.queue[j].data) == block);
            }
        },
        None => {},
    }
}

/// A write of one chunk to a page leaves every other chunk of the page as
/// it is seen.
pub proof fn lemma_written_other_chunk(block: CacheBlockView, offset: u64, data: Seq<u8>, other: u64)
    requires
        block_ok(block),
        offset % CHUNK_SIZE == 0,
        other % CHUNK_SIZE == 0,
        other != offset,
        data.len() == CHUNK_SIZE,
        block.covers(offset),
        block.covers(other),
    ensures
        block.written(offset, data).chunk_at(other) == block.chunk_at(other),
{
    let start = block.offset;
    let a: u64 = (offset - start) as u64;
    let b: u64 = (other - start) as u64;
    assert(a % 4096 == 0 && b % 4096 == 0) by (bit_vector)
        requires
            start % 8388608 == 0,
            offset % 4096 == 0,
            other % 4096 == 0,
            start <= offset,
            start <= other,
            a == (offset - start) as u64,
            b == (other - start) as u64,
    ;
    assert(a / 4096 != b / 4096 && (a + 4096 <= b || b + 4096 <= a) && a / 4096 < 2048) by (bit_vector)
        requires
            a % 4096 == 0,
            b % 4096 == 0,
            a != b,
            a <= 8388608 - 4096,
            b <= 8388608 - 4096,
    ;
    let after = block.written(offset, data);
    lemma_bytes_with_bit(block.mask, block.chunk(offset), all_zero(data));
    assert(after.chunk(other) == block.chunk(other));
    assert(block.chunk(other) != block.chunk(offset));
    assert(bits_of(after.mask)[after.chunk(other)] == bits_of(block.mask)[block.chunk(other)]);
    assert(after.chunk_at(other) =~= block.chunk_at(other));
}

/// A write to the cache keeps the engine coherent; the chunk written is
/// then seen as it was written, and every other chunk as before.
pub proof fn lemma_cache_written(v: DriveView, offset: u64, data: Seq<u8>, other: u64)
    requires
        coherent(v),
        offset % CHUNK_SIZE == 0,
        other % CHUNK_SIZE == 0,
        data.len() == CHUNK_SIZE,
    ensures
        coherent(DriveView { cache: cache_written(v.cache, offset, data), ..v }),
        forall|index: u64|
            is_live(DriveView { cache: cache_written(v.cache, offset, data), ..v }, index) <==> is_live(v, index),
        other != offset ==> live_chunk(DriveView { cache: cache_written(v.cache, offset, data), ..v }, other)
            == live_chunk(v, other),
        cache_find(v.cache, offset) is Some ==> live_chunk(
            DriveView { cache: cache_written(v.cache, offset, data), ..v },
            offset,
        ) == Some(data),
{
    let w = DriveView { cache: cache_written(v.cache, offset, data), ..v };
    lemma_cache_find_found(v.cache, offset);
    match cache_find(v.cache, offset) {
        Some(i) => {
            let before = v.cache[i];
            let after = before.written(offset, data);
            assert(block_ok(before));
            lemma_covers(before, offset);
            lemma_bytes_with_bit(before.mask, before.chunk(offset), all_zero(data));
            assert(block_ok(after));
            assert(block_page(after) == block_page(before));
            assert forall|k: int| 0 <= k < w.cache.len() implies block_ok(#[trigger] w.cache[k]) && block_page(
                w.cache[k],
            ) == block_page(v.cache[k]) by {
                if k != i {
                    assert(w.cache[k] == v.cache[k]);
                }
            }
            assert(coherent(w));
            assert forall|index: u64| is_live(w, index) <==> is_live(v, index) by {
                if exists|k: int| 0 <= k < v.cache.len() && block_page(#[trigger] v.cache[k]) == index {
                    let k = choose|k: int| 0 <= k < v.cache.len() && block_page(#[trigger] v.cache[k]) == index;
                    assert(block_page(w.cache[k]) == index);
                }
                if exists|k: int| 0 <= k < w.cache.len() && block_page(#[trigger] w.cache[k]) == index {
                    let k = choose|k: int| 0 <= k < w.cache.len() && block_page(#[trigger] w.cache[k]) == index;
                    assert(block_page(v.cache[k]) == index);
                }
            }
            crate::cache::lemma_cache_read_after_write(v.cache, offset, data);
            if other != offset {
                lemma_cache_find_found(v.cache, other);
                match cache_find(v.cache, other) {
                    Some(k) => {
                        lemma_covers(v.cache[k], other);
                        lemma_find_in_cache(w, other, k);
                        if k == i {
                            lemma_written_other_chunk(before, offset, data, other);
                        } else {
                            assert(w.cache[k] == v.cache[k]);
                        }
                    },
                    None => {
                        assert forall|k: int| 0 <= k < w.cache.len() implies block_page(#[trigger] w.cache[k])
                            != page_index(other) by {
                            lemma_covers(v.cache[k], other);
                        }
                        lemma_not_in_cache(w, other);
                    },
                }
            }
        },
        None => {
            assert(w == v);
        },
    }
}

/// In a coherent engine whose cache does not hold the chunk at `offset`
/// after the page was taken back from the queue, the page is not live.
pub proof fn lemma_miss_is_not_live(v: DriveView, offset: u64, capacity: nat)
    requires
        coherent(v),
        offset % CHUNK_SIZE == 0,
        capacity > 0,
        cache_find(reclaimed(v, offset, capacity).cache, offset) is None,
    ensures
        reclaimed(v, offset, capacity) == v,
        !is_live(v, page_index(offset)),
        live_chunk(v, offset) is None,
{
    lemma_reclaimed(v, offset, capacity, offset);
    lemma_live(v, offset);
}

/// The cache entry made of a page and a whole buffer begins where the
/// page begins, and holds that page.
pub proof fn lemma_cached_block(offset: u64, page: PageView, data: Seq<u8>)
    requires
        data.len() == PAGE_SIZE,
        page.zero_mask.len() == 256,
    ensures
        block_ok(cached_block(offset, page, data)),
        block_page(cached_block(offset, page, data)) == page_index(offset),
{
    let start = page_start(offset);
    assert(start % 8388608 == 0 && start / 8388608 == offset / 8388608) by (bit_vector)
        requires
            start == (offset - offset % 8388608) as u64,
    ;
}

/// A chunk that was written to a page is seen in the page's cache entry as
/// it was written, whether it is all zero or not.
pub proof fn lemma_written_chunk(offset: u64, page: PageView, current: Seq<u8>, data: Seq<u8>)
    requires
        offset % CHUNK_SIZE == 0,
        data.len() == CHUNK_SIZE,
        current.len() == PAGE_SIZE,
        page.zero_mask.len() == 256,
    ensures
        cached_block(offset, written_page(page, offset, data), written_buffer(current, offset, data)).chunk_at(
            offset,
        ) == data,
{
    let block = cached_block(
        offset,
        written_page(page, offset, data),
        written_buffer(current, offset, data),
    );
    let r = offset % PAGE_SIZE;
    assert(r % 4096 == 0 && r <= 8388608 - 4096 && r / 4096 < 2048) by (bit_vector)
        requires
            r == offset % 8388608,
            offset % 4096 == 0,
    ;
    assert(block.place(offset) == r);
    assert(block.chunk(offset) == crate::layout::chunk_index(offset));
    lemma_bytes_with_bit(page.zero_mask, crate::layout::chunk_index(offset), all_zero(data));
    assert(block.chunk_at(offset) =~= data);
}

/// After a page was added to a cache that did not hold the chunk at
/// `offset`, the chunk is read from that page.
pub proof fn lemma_cached_found(cache: Seq<CacheBlockView>, block: CacheBlockView, capacity: nat, offset: u64)
    requires
        capacity > 0,
        cache_find(cache, offset) is None,
        block.covers(offset),
    ensures
        crate::cache::cache_read(crate::cache::cache_pushed(cache, block, capacity), offset) == Some(
            block.chunk_at(offset),
        ),
{
    let after = crate::cache::cache_pushed(cache, block, capacity);
    lemma_cache_find_found(cache, offset);
    assert(after.len() >= 1);
    assert(after.last() == block);
    assert forall|j: int| 0 <= j < after.len() - 1 implies !after[j].covers(offset) by {
        if cache.len() >= capacity {
            assert(after[j] == cache[j + 1]);
        } else {
            assert(after[j] == cache[j]);
        }
    }
    lemma_cache_find(after, offset, after.len() - 1);
}

/// Adding a page that is not live to the cache keeps the engine coherent
/// and every other page as it is seen.
pub proof fn lemma_cached_keeps_others(v: DriveView, block: CacheBlockView, capacity: nat)
    requires
        coherent(v),
        block_ok(block),
        !is_live(v, block_page(block)),
    ensures
        coherent(cached(v, block, capacity)),
        forall|o: u64|
            o % CHUNK_SIZE == 0 && page_index(o) != block_page(block) ==> #[trigger] live_chunk(
                cached(v, block, capacity),
                o,
            ) == live_chunk(v, o),
{
    lemma_cached(v, block, capacity, 0);
    assert forall|o: u64| o % CHUNK_SIZE == 0 && page_index(o) != block_page(block) implies #[trigger] live_chunk(
        cached(v, block, capacity),
        o,
    ) == live_chunk(v, o) by {
        lemma_cached(v, block, capacity, o);
    }
}

/// What is seen of a page that was brought from the remote store: a
/// chunk that is not marked is as the remote object has it, and a marked
/// chunk is made of zeros.
pub proof fn lemma_fetched_chunk(offset: u64, page: PageView, remote: Seq<u8>, other: u64)
    requires
        crate::metadata::needs_fetch(page),
        page.zero_mask.len() == 256,
        remote.len() == PAGE_SIZE,
        other % CHUNK_SIZE == 0,
        page_index(other) == page_index(offset),
    ensures
        cached_block(offset, page, crate::metadata::page_buffer(page, remote)).chunk_at(other) == if bits_of(
            page.zero_mask,
        )[crate::layout::chunk_index(other)] {
            crate::layout::zeros(CHUNK_SIZE as nat)
        } else {
            remote.subrange((other % PAGE_SIZE) as int, (other % PAGE_SIZE) as int + CHUNK_SIZE)
        },
{
    let block = cached_block(offset, page, crate::metadata::page_buffer(page, remote));
    let r = other % PAGE_SIZE;
    let start = page_start(offset);
    assert(r % 4096 == 0 && r <= 8388608 - 4096 && r / 4096 < 2048 && (r / 4096) * 4096 == r) by (bit_vector)
        requires
            r == other % 8388608,
            other % 4096 == 0,
    ;
    assert(start == (other - r) as u64) by (bit_vector)
        requires
            start == (offset - offset % 8388608) as u64,
            r == other % 8388608,
            other / 8388608 == offset / 8388608,
    ;
    assert(block.place(other) == r);
    assert(block.chunk(other) == crate::layout::chunk_index(other));
    crate::metadata::lemma_page_buffer_chunk(page, remote, (r / 4096) as int);
}

/// A write of one chunk to a page leaves every other chunk of the page as
/// it was seen before the write.
pub proof fn lemma_written_page_other_chunk(
    offset: u64,
    page: PageView,
    current: Seq<u8>,
    data: Seq<u8>,
    other: u64,
)
    requires
        offset % CHUNK_SIZE == 0,
        other % CHUNK_SIZE == 0,
        other != offset,
        page_index(other) == page_index(offset),
        data.len() == CHUNK_SIZE,
        current.len() == PAGE_SIZE,
        page.zero_mask.len() == 256,
    ensures
        cached_block(offset, written_page(page, offset, data), written_buffer(current, offset, data)).chunk_at(
            other,
        ) == cached_block(offset, page, current).chunk_at(other),
{
    let before = cached_block(offset, page, current);
    let after = cached_block(offset, written_page(page, offset, data), written_buffer(current, offset, data));
    lemma_cached_block(offset, page, current);
    lemma_covers(before, offset);
    lemma_covers(before, other);
    let start = before.offset;
    let a: u64 = (offset - start) as u64;
    let b: u64 = (other - start) as u64;
    assert(a % 4096 == 0 && b % 4096 == 0) by (bit_vector)
        requires
            start % 8388608 == 0,
            offset % 4096 == 0,
            other % 4096 == 0,
            start <= offset,
            start <= other,
            a == (offset - start) as u64,
            b == (other - start) as u64,
    ;
    assert(a / 4096 != b / 4096 && (a + 4096 <= b || b + 4096 <= a) && a / 4096 < 2048) by (bit_vector)
        requires
            a % 4096 == 0,
            b % 4096 == 0,
            a != b,
            a <= 8388608 - 4096,
            b <= 8388608 - 4096,
    ;
    assert(a == offset % PAGE_SIZE);
    assert(crate::layout::chunk_index(offset) == a / 4096);
    lemma_bytes_with_bit(page.zero_mask, crate::layout::chunk_index(offset), all_zero(data));
    assert(after.chunk(other) == before.chunk(other));
    assert(bits_of(after.mask)[after.chunk(other)] == bits_of(before.mask)[before.chunk(other)]);
    assert(after.chunk_at(other) =~= before.chunk_at(other));
}

/// The directories are in order: none holds more pages than it can, and
/// no page index occurs twice, in one directory or in two.
pub open spec fn directories_ok(meta: Seq<MetadataBlockView>) -> bool {
    &&& forall|d: int| 0 <= d < meta.len() ==> (#[trigger] meta[d]).pages.len() <= PAGE_CAPACITY
    &&& forall|d: int, i: int, e: int, j: int|
        0 <= d < meta.len() && 0 <= i < meta[d].pages.len() && 0 <= e < meta.len() && 0 <= j < meta[e].pages.len()
            && (d != e || i != j) ==> (#[trigger] meta[d].pages[i]).offset != (#[trigger] meta[e].pages[j]).offset
}

/// Where no directory is found to hold a page, no page of any directory has its index.
pub proof fn lemma_no_holder(meta: Seq<MetadataBlockView>, index: u64)
    requires
        holder(meta, index) is None,
    ensures
        forall|e: int, j: int|
            0 <= e < meta.len() && 0 <= j < meta[e].pages.len() ==> (#[trigger] meta[e].pages[j]).offset != index,
{
    let holds = holds_page(meta, index);
    lemma_first_true_found(holds);
    assert forall|e: int, j: int| 0 <= e < meta.len() && 0 <= j < meta[e].pages.len() implies (
    #[trigger] meta[e].pages[j]).offset != index by {
        lemma_page_position_found(meta[e].pages, index);
        assert(!holds[e]);
    }
}

/// Replacing a page by one with the same index keeps the directories in order.
pub proof fn lemma_with_page_ok(meta: Seq<MetadataBlockView>, d: int, i: int, page: PageView)
    requires
        directories_ok(meta),
        0 <= d < meta.len(),
        0 <= i < meta[d].pages.len(),
        page.offset == meta[d].pages[i].offset,
    ensures
        directories_ok(meta.update(d, with_page(meta[d], i, page))),
{
    let after = meta.update(d, with_page(meta[d], i, page));
    assert forall|e: int| 0 <= e < after.len() implies (#[trigger] after[e]).pages.len() == meta[e].pages.len() by {}
    assert forall|a: int, x: int, b: int, y: int|
        0 <= a < after.len() && 0 <= x < after[a].pages.len() && 0 <= b < after.len() && 0 <= y
            < after[b].pages.len() && (a != b || x != y) implies (#[trigger] after[a].pages[x]).offset != (
    #[trigger] after[b].pages[y]).offset by {
        assert(after[a].pages[x].offset == meta[a].pages[x].offset);
        assert(after[b].pages[y].offset == meta[b].pages[y].offset);
    }
}

/// Adding a page that no directory holds to a directory with room keeps
/// the directories in order.
pub proof fn lemma_with_new_page_ok(meta: Seq<MetadataBlockView>, d: int, page: PageView)
    requires
        directories_ok(meta),
        0 <= d < meta.len(),
        meta[d].pages.len() < PAGE_CAPACITY,
        forall|e: int, j: int|
            0 <= e < meta.len() && 0 <= j < meta[e].pages.len() ==> (#[trigger] meta[e].pages[j]).offset
                != page.offset,
    ensures
        directories_ok(meta.update(d, with_new_page(meta[d], page))),
{
    let after = meta.update(d, with_new_page(meta[d], page));
    assert forall|a: int, x: int, b: int, y: int|
        0 <= a < after.len() && 0 <= x < after[a].pages.len() && 0 <= b < after.len() && 0 <= y
            < after[b].pages.len() && (a != b || x != y) implies (#[trigger] after[a].pages[x]).offset != (
    #[trigger] after[b].pages[y]).offset by {
        if a == d && x == meta[d].pages.len() {
            assert(after[b].pages[y] == meta[b].pages[y]);
        } else if b == d && y == meta[d].pages.len() {
            assert(after[a].pages[x] == meta[a].pages[x]);
        } else {
            assert(after[a].pages[x] == meta[a].pages[x]);
            assert(after[b].pages[y] == meta[b].pages[y]);
        }
    }
    assert forall|e: int| 0 <= e < after.len() implies (#[trigger] after[e]).pages.len() <= PAGE_CAPACITY by {
        if e != d {
            assert(after[e] == meta[e]);
        }
    }
}

/// Adding a directory with one page that no directory holds keeps the
/// directories in order.
pub proof fn lemma_new_directory_ok(meta: Seq<MetadataBlockView>, message_id: u64, page: PageView)
    requires
        directories_ok(meta),
        forall|e: int, j: int|
            0 <= e < meta.len() && 0 <= j < meta[e].pages.len() ==> (#[trigger] meta[e].pages[j]).offset
                != page.offset,
    ensures
        directories_ok(meta.push(MetadataBlockView { message_id, pages: seq![page] })),
{
    let after = meta.push(MetadataBlockView { message_id, pages: seq![page] });
    assert forall|a: int, x: int, b: int, y: int|
        0 <= a < after.len() && 0 <= x < after[a].pages.len() && 0 <= b < after.len() && 0 <= y
            < after[b].pages.len() && (a != b || x != y) implies (#[trigger] after[a].pages[x]).offset != (
    #[trigger] after[b].pages[y]).offset by {
        if a < meta.len() {
            assert(after[a].pages[x] == meta[a].pages[x]);
        }
        if b < meta.len() {
            assert(after[b].pages[y] == meta[b].pages[y]);
        }
    }
    assert forall|e: int| 0 <= e < after.len() implies (#[trigger] after[e]).pages.len() <= PAGE_CAPACITY by {
        if e < meta.len() {
            assert(after[e] == meta[e]);
        }
    }
}

} // verus!
