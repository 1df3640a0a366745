//! The write-back queue: a bounded list of pages that left the cache and
//! wait to be written to the remote store.

use crate::layout::PAGE_SIZE;
use crate::metadata::{Page, PageView};
use vstd::prelude::*;

verus! {

/// What a queued page is: the page and its buffer.
pub struct QueueBlockView {
    pub page: PageView,
    pub data: Seq<u8>,
}

impl QueueBlockView {
    /// The buffer is one page long, and the mask has a bit for each of its chunks.
    pub open spec fn wf(self) -> bool {
        self.data.len() == PAGE_SIZE && self.page.zero_mask.len() == 256
    }
}

/// The place of the first of `entries` that holds the page with index `index`, if there is one.
pub open spec fn queue_position(entries: Seq<QueueBlockView>, index: u64) -> Option<int> {
    entries.map_values(|b: QueueBlockView| b.page.offset).index_of_first(index)
}

/// What tells the place of the first entry that holds the page with index `index`.
pub proof fn lemma_queue_position(entries: Seq<QueueBlockView>, index: u64, r: int)
    requires
        0 <= r <= entries.len(),
        forall|j: int| 0 <= j < r ==> entries[j].page.offset != index,
        r < entries.len() ==> entries[r].page.offset == index,
    ensures
        queue_position(entries, index) == if r < entries.len() {
            Some(r)
        } else {
            None
        },
{
    let offsets = entries.map_values(|b: QueueBlockView| b.page.offset);
    offsets.index_of_first_ensures(index);
    if r < entries.len() {
        assert(offsets[r] == index);
        assert(offsets.contains(index));
        let k = offsets.index_of_first(index)->0;
        assert(offsets[k] == index);
    } else {
        if offsets.contains(index) {
            let k = choose|k: int| 0 <= k < offsets.len() && offsets[k] == index;
            assert(entries[k].page.offset == index);
        }
    }
}

/// Where a page is found in the queue, the entry holds that page, and none before it does.
pub proof fn lemma_queue_position_found(entries: Seq<QueueBlockView>, index: u64)
    ensures
        match queue_position(entries, index) {
            Some(i) => 0 <= i < entries.len() && entries[i].page.offset == index && forall|j: int|
                0 <= j < i ==> entries[j].page.offset != index,
            None => forall|j: int| 0 <= j < entries.len() ==> entries[j].page.offset != index,
        },
{
    let offsets = entries.map_values(|b: QueueBlockView| b.page.offset);
    offsets.index_of_first_ensures(index);
    match queue_position(entries, index) {
        Some(i) => {
            assert(offsets[i] == index);
            assert forall|j: int| 0 <= j < i implies entries[j].page.offset != index by {
                assert(offsets[j] != index);
            }
        },
        None => {
            assert forall|j: int| 0 <= j < entries.len() implies entries[j].page.offset != index by {
                assert(offsets[j] == entries[j].page.offset);
            }
        },
    }
}

/// One page that waits to be written to the remote store.
#[derive(Debug)]
pub struct QueueBlock {
    /// The page as it is to be recorded in its directory.
    pub page: Page,
    /// The page's buffer.
    pub data: Vec<u8>,
}

impl View for QueueBlock {
    type V = QueueBlockView;

    open spec fn view(&self) -> QueueBlockView {
        QueueBlockView { page: self.page@, data: self.data@ }
    }
}

impl QueueBlock {
    /// The page `page` with the buffer `data`.
    pub fn new(page: Page, data: Vec<u8>) -> (r: Self)
        ensures
            r.page == page,
            r.data == data,
    {
        QueueBlock { page, data }
    }

    /// Records that the page's buffer was written to the remote object `message_id`.
    pub fn sync(&mut self, message_id: u64)
        ensures
            final(self)@ == (QueueBlockView {
                page: PageView { message_id, ..old(self)@.page },
                data: old(self)@.data,
            }),
    {
        self.page.update_message(message_id);
    }
}

/// The views of `blocks`, in order.
pub open spec fn queue_views(blocks: Seq<QueueBlock>) -> Seq<QueueBlockView> {
    blocks.map_values(|b: QueueBlock| b@)
}

/// Up to `S` pages that wait to be written to the remote store, in the
/// order in which they came.
pub struct Queue<const S: usize> {
    /// The pages, in the order in which they came.
    pub data: Vec<QueueBlock>,
    /// Whether a page that was taken from the queue is being written to the remote store.
    pub is_syncing: bool,
}

impl<const S: usize> View for Queue<S> {
    type V = Seq<QueueBlockView>;

    open spec fn view(&self) -> Seq<QueueBlockView> {
        queue_views(self.data@)
    }
}

impl<const S: usize> Queue<S> {
    /// The queue holds no more than `S` pages, each with a whole buffer.
    pub open spec fn wf(&self) -> bool {
        &&& self@.len() <= S
        &&& forall|i: int| 0 <= i < self@.len() ==> (#[trigger] self@[i]).wf()
    }

    /// An empty queue, with no page being written.
    pub fn new() -> (r: Self)
        ensures
            r@ == Seq::<QueueBlockView>::empty(),
            !r.is_syncing,
            r.wf(),
    {
        let r = Queue { data: Vec::new(), is_syncing: false };
        proof {
            assert(r@ =~= Seq::<QueueBlockView>::empty());
        }
        r
    }

    /// Whether the queue is within its bounds (see `wf`).
    pub fn check(&self) -> (ok: bool)
        ensures
            ok == self.wf(),
    {
        if self.data.len() > S {
            return false;
        }
        let mut i: usize = 0;
        while i < self.data.len()
            invariant
                i <= self.data@.len(),
                forall|j: int| 0 <= j < i ==> (#[trigger] self@[j]).wf(),
            decreases self.data.len() - i,
        {
            proof {
                self.data@[i as int].page.zero_mask.lemma_len();
            }
            if self.data[i].data.len() as u64 != PAGE_SIZE {
                proof {
                    assert(!self@[i as int].wf());
                }
                return false;
            }
            i += 1;
        }
        true
    }

    /// Adds the page at the end of the queue, where the queue has room. A
    /// full queue is left as it is, and the page comes back: the caller is
    /// to wait until a page has left the queue, and to try again.
    pub fn push(&mut self, page: Page, data: Vec<u8>) -> (rejected: Option<QueueBlock>)
        requires
            old(self).wf(),
            data@.len() == PAGE_SIZE,
        ensures
            final(self).wf(),
            final(self).is_syncing == old(self).is_syncing,
            old(self)@.len() < S ==> rejected is None && final(self)@ == old(self)@.push(
                QueueBlockView { page: page@, data: data@ },
            ),
            old(self)@.len() >= S ==> rejected == Some(QueueBlock { page, data }) && final(self)@ == old(self)@,
    {
        if self.data.len() >= S {
            return Some(QueueBlock::new(page, data));
        }
        proof {
            page.zero_mask.lemma_len();
        }
        let ghost entry = QueueBlockView { page: page@, data: data@ };
        self.data.push(QueueBlock::new(page, data));
        proof {
            assert(self@ =~= old(self)@.push(entry));
        }
        None
    }

    /// The place of the first entry that holds the page with index `offset`.
    fn position(&self, offset: u64) -> (r: Option<usize>)
        ensures
            match r {
                Some(i) => queue_position(self@, offset) == Some(i as int) && i < self.data@.len(),
                None => queue_position(self@, offset) is None,
            },
    {
        let mut i: usize = 0;
        while i < self.data.len()
            invariant
                i <= self.data@.len(),
                forall|j: int| 0 <= j < i ==> self@[j].page.offset != offset,
            decreases self.data.len() - i,
        {
            if self.data[i].page.offset == offset {
                proof {
                    lemma_queue_position(self@, offset, i as int);
                }
                return Some(i);
            }
            i += 1;
        }
        proof {
            lemma_queue_position(self@, offset, i as int);
        }
        None
    }

    /// Takes the page with index `offset` out of the queue, where the queue
    /// holds it, and returns it with its buffer.
    pub fn release_offset(&mut self, offset: u64) -> (r: Option<(Page, Vec<u8>)>)
        requires
            old(self).wf(),
        ensures
            final(self).wf(),
            final(self).is_syncing == old(self).is_syncing,
            match queue_position(old(self)@, offset) {
                Some(i) => {
                    &&& r matches Some((page, data))
                    &&& page == old(self).data@[i].page
                    &&& data == old(self).data@[i].data
                    &&& final(self)@ == old(self)@.remove(i)
                },
                None => r is None && final(self)@ == old(self)@,
            },
    {
        match self.position(offset) {
            Some(i) => {
                let block = self.data.remove(i);
                proof {
                    assert(self@ =~= old(self)@.remove(i as int));
                }
                Some((block.page, block.data))
            },
            None => None,
        }
    }

    /// Takes the page that came last out of the queue.
    pub fn pop(&mut self) -> (r: Option<QueueBlock>)
        requires
            old(self).wf(),
        ensures
            final(self).wf(),
            final(self).is_syncing == old(self).is_syncing,
            old(self)@.len() == 0 ==> r is None && final(self)@ == old(self)@,
            old(self)@.len() > 0 ==> r == Some(old(self).data@.last()) && final(self)@ == old(self)@.drop_last(),
    {
        let r = self.data.pop();
        proof {
            if old(self)@.len() > 0 {
                assert(self@ =~= old(self)@.drop_last());
            }
        }
        r
    }

    /// Whether the queue is flushed: it is empty, and no page that was
    /// taken from it is still being written. The caller is to wait and to
    /// ask again until it is.
    pub fn flush(&self) -> (flushed: bool)
        ensures
            flushed == (self@.len() == 0 && !self.is_syncing),
    {
        self.data.len() == 0 && !self.is_syncing
    }

    /// Takes the next page to be written to the remote store out of the
    /// queue: the one that came last. From then until `end_sync` the queue
    /// counts as syncing. `None` says that the queue is empty: the caller is
    /// to wait and to ask again.
    pub fn begin_sync(&mut self) -> (r: Option<QueueBlock>)
        requires
            old(self).wf(),
        ensures
            final(self).wf(),
            old(self)@.len() == 0 ==> r is None && final(self)@ == old(self)@ && final(self).is_syncing
                == old(self).is_syncing,
            old(self)@.len() > 0 ==> r == Some(old(self).data@.last()) && final(self)@ == old(self)@.drop_last()
                && final(self).is_syncing,
    {
        if self.data.len() == 0 {
            return None;
        }
        self.is_syncing = true;
        self.pop()
    }

    /// Records that the page taken by `begin_sync` was written.
    pub fn end_sync(&mut self)
        ensures
            final(self)@ == old(self)@,
            !final(self).is_syncing,
    {
        self.is_syncing = false;
    }
}

} // verus!
