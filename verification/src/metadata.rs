//! Pages and page directories: which remote object holds a page, which of its
//! chunks are zero, and the text record that a directory is kept in.

use crate::layout::{
    all_zero, chunk_index, is_all_zero, page_index, splice, spliced, zero_buffer, zeros, CHUNK_SIZE, PAGE_SIZE,
};
use crate::utils::{
    after_first, base255_symbol, base255_value, base32_chars, base32_read_u64, base32_text,
    base_255_to_byte, bits_of, byte_to_base_255, chars_of, find_char, first_field, first_index,
    bytes_with_bit, parse_base32, string_of, zero_padded, BitMask,
};
use vstd::prelude::*;
use vstd::slice::slice_subrange;
use vstd::string::*;

verus! {

/// The pages that one directory can hold.
pub const PAGE_CAPACITY: usize = 5;

/// The bytes of a page's zero mask: one bit for each chunk.
pub const MASK_BYTES: usize = 256;

/// The symbols that stand for the mask bytes `bytes`, one for each byte.
pub open spec fn mask_text(bytes: Seq<u8>) -> Seq<char> {
    bytes.map_values(|b: u8| base255_symbol(b))
}

/// The mask bytes that the symbols `text` stand for, followed by zeros: 256 bytes in all.
pub open spec fn mask_bytes(text: Seq<char>) -> Seq<u8> {
    zero_padded(text.map_values(|c: char| base255_value(c)), MASK_BYTES as nat)
}

/// What a page is: its index, the remote object that holds its buffer
/// (0 while there is none), and the bytes of its zero mask.
pub struct PageView {
    pub offset: u64,
    pub message_id: u64,
    pub zero_mask: Seq<u8>,
}

/// The page `page` after the chunk `data` was written at `offset`: the
/// chunk's mark says whether `data` is all zero.
pub open spec fn written_page(page: PageView, offset: u64, data: Seq<u8>) -> PageView {
    PageView { zero_mask: bytes_with_bit(page.zero_mask, chunk_index(offset), all_zero(data)), ..page }
}

/// The buffer `current` of a page after the chunk `data` was written at
/// `offset`: a chunk of zeros is not written.
pub open spec fn written_buffer(current: Seq<u8>, offset: u64, data: Seq<u8>) -> Seq<u8> {
    if all_zero(data) {
        current
    } else {
        spliced(current, (offset % PAGE_SIZE) as int, data)
    }
}

/// Every chunk is marked as all zero in the mask `mask`: each of its bytes has all bits set.
pub open spec fn all_marked(mask: Seq<u8>) -> bool {
    forall|i: int| 0 <= i < mask.len() ==> mask[i] == 0xffu8
}

/// Whether the buffer of `page` has to be brought from the remote store: a
/// remote object holds it, and not every chunk is marked as all zero.
pub open spec fn needs_fetch(page: PageView) -> bool {
    page.message_id != 0 && !all_marked(page.zero_mask)
}

/// The bytes `base` with every chunk that `mask` marks as all zero made of zeros.
pub open spec fn masked(mask: Seq<u8>, base: Seq<u8>) -> Seq<u8> {
    Seq::new(
        base.len(),
        |i: int|
            if bits_of(mask)[i / CHUNK_SIZE as int] {
                0u8
            } else {
                base[i]
            },
    )
}

/// The buffer of `page`, where `remote` is what its remote object holds: a
/// chunk that is not marked is as the remote object has it, and a marked
/// chunk is made of zeros. A page that no remote object holds, or whose
/// chunks are all marked, has a buffer of zeros, whatever `remote` is.
pub open spec fn page_buffer(page: PageView, remote: Seq<u8>) -> Seq<u8> {
    if needs_fetch(page) {
        masked(page.zero_mask, remote)
    } else {
        zeros(PAGE_SIZE as nat)
    }
}

/// In the buffer of a page, a chunk that is not marked holds what the
/// remote object holds, and a marked chunk holds zeros.
pub proof fn lemma_page_buffer_chunk(page: PageView, remote: Seq<u8>, chunk: int)
    requires
        needs_fetch(page),
        page.zero_mask.len() == MASK_BYTES,
        remote.len() == PAGE_SIZE,
        0 <= chunk < 2048,
    ensures
        page_buffer(page, remote).len() == PAGE_SIZE,
        page_buffer(page, remote).subrange(chunk * 4096, chunk * 4096 + 4096) == if bits_of(
            page.zero_mask,
        )[chunk] {
            zeros(4096)
        } else {
            remote.subrange(chunk * 4096, chunk * 4096 + 4096)
        },
{
    let buffer = page_buffer(page, remote);
    let part = buffer.subrange(chunk * 4096, chunk * 4096 + 4096);
    let expected = if bits_of(page.zero_mask)[chunk] {
        zeros(4096)
    } else {
        remote.subrange(chunk * 4096, chunk * 4096 + 4096)
    };
    assert forall|k: int| 0 <= k < 4096 implies #[trigger] part[k] == expected[k] by {
        assert((chunk * 4096 + k) / 4096 == chunk);
    }
    assert(part =~= expected);
}

/// Where every chunk is marked, the mask makes zeros of any bytes.
pub proof fn lemma_all_marked(mask: Seq<u8>, base: Seq<u8>)
    requires
        all_marked(mask),
        mask.len() == MASK_BYTES,
        base.len() == PAGE_SIZE,
    ensures
        masked(mask, base) == zeros(base.len()),
        forall|i: int| 0 <= i < 8 * mask.len() ==> bits_of(mask)[i],
{
    assert forall|i: int| 0 <= i < 8 * mask.len() implies bits_of(mask)[i] by {
        let b = mask[i / 8];
        let k = (i % 8) as u8;
        assert(k < 8 && b == 0xffu8 ==> (b >> k) & 1u8 == 1u8) by (bit_vector);
    }
    assert forall|i: int| 0 <= i < base.len() implies #[trigger] masked(mask, base)[i] == 0u8 by {
        let c = i / 4096;
        assert(0 <= c < 8 * mask.len());
        assert(bits_of(mask)[c]);
    }
    assert(masked(mask, base) =~= zeros(base.len()));
}

/// One page of 8 MiB, kept in one remote object.
#[derive(Debug)]
pub struct Page {
    /// The page's index: its first byte is at `offset * PAGE_SIZE`.
    pub offset: u64,
    /// The remote object that holds the page's buffer; 0 while there is none.
    pub message_id: u64,
    /// One bit for each chunk; a set bit says that the chunk is all zero.
    pub zero_mask: BitMask<256>,
}

impl View for Page {
    type V = PageView;

    open spec fn view(&self) -> PageView {
        PageView { offset: self.offset, message_id: self.message_id, zero_mask: self.zero_mask.bytes() }
    }
}

impl Clone for Page {
    fn clone(&self) -> (r: Self)
        ensures
            r == *self,
    {
        Page { offset: self.offset, message_id: self.message_id, zero_mask: self.zero_mask.clone() }
    }
}

impl Page {
    /// Whether byte `offset` lies in this page.
    pub open spec fn holds(&self, offset: u64) -> bool {
        page_index(offset) == self.offset
    }

    /// A page that no remote object holds yet, with no chunk marked.
    pub fn new(offset: u64) -> (r: Self)
        ensures
            r@ == (PageView { offset, message_id: 0, zero_mask: zeros(MASK_BYTES as nat) }),
    {
        let r = Page { offset, message_id: 0, zero_mask: BitMask::new() };
        proof {
            assert(r.zero_mask.bytes() =~= zeros(MASK_BYTES as nat));
        }
        r
    }

    /// The page whose mask is written in `text`, one symbol for each byte.
    fn from_chars(message_id: u64, offset: u64, text: &[char]) -> (r: Self)
        requires
            text@.len() <= MASK_BYTES,
        ensures
            r@ == (PageView { offset, message_id, zero_mask: mask_bytes(text@) }),
    {
        let mut bytes: Vec<u8> = Vec::new();
        let mut i: usize = 0;
        while i < text.len()
            invariant
                i <= text@.len(),
                bytes@ == text@.take(i as int).map_values(|c: char| base255_value(c)),
            decreases text.len() - i,
        {
            bytes.push(base_255_to_byte(text[i]));
            proof {
                assert(bytes@ =~= text@.take(i + 1).map_values(|c: char| base255_value(c)));
            }
            i += 1;
        }
        proof {
            assert(text@.take(text@.len() as int) =~= text@);
        }
        Page { offset, message_id, zero_mask: BitMask::from_bytes(bytes.as_slice()) }
    }

    /// The page whose mask is written in `text`, one symbol for each byte;
    /// the bytes that `text` does not reach are zero.
    pub fn from_text(message_id: u64, offset: u64, text: &str) -> (r: Self)
        requires
            text@.len() <= MASK_BYTES,
        ensures
            r@ == (PageView { offset, message_id, zero_mask: mask_bytes(text@) }),
    {
        let chars = chars_of(text);
        Self::from_chars(message_id, offset, chars.as_slice())
    }

    /// Whether the page's buffer has to be brought from the remote store
    /// (see `needs_fetch`).
    pub fn needs_fetch(&self) -> (r: bool)
        ensures
            r == needs_fetch(self@),
    {
        if self.message_id == 0 {
            return false;
        }
        let bytes = self.zero_mask.as_bytes();
        let mut i: usize = 0;
        while i < bytes.len()
            invariant
                i <= bytes@.len(),
                self.message_id != 0,
                bytes@ == self@.zero_mask,
                forall|j: int| 0 <= j < i ==> bytes@[j] == 0xffu8,
            decreases bytes.len() - i,
        {
            if bytes[i] != 0xff {
                proof {
                    assert(self@.zero_mask[i as int] != 0xffu8);
                }
                return true;
            }
            i += 1;
        }
        false
    }

    /// The page's buffer for a read at `offset` (see `page_buffer`), where
    /// `remote` is what the page's remote object holds. `None` says that
    /// the buffer is to be brought from the remote object `message_id`
    /// first, and nothing was given.
    pub fn read(&self, offset: u64, remote: Option<Vec<u8>>) -> (r: Option<Vec<u8>>)
        requires
            self.holds(offset),
            remote matches Some(bytes) ==> bytes@.len() == PAGE_SIZE,
        ensures
            match r {
                Some(buffer) => (needs_fetch(self@) ==> remote is Some) && buffer@ == page_buffer(
                    self@,
                    remote->0@,
                ),
                None => needs_fetch(self@) && remote is None,
            },
    {
        if !self.needs_fetch() {
            return Some(zero_buffer(PAGE_SIZE as usize));
        }
        match remote {
            None => None,
            Some(bytes) => Some(self.mask_buffer(bytes)),
        }
    }

    /// The bytes `base` with every chunk that the page marks as all zero
    /// made of zeros.
    fn mask_buffer(&self, base: Vec<u8>) -> (r: Vec<u8>)
        requires
            base@.len() == PAGE_SIZE,
        ensures
            r@ == masked(self@.zero_mask, base@),
    {
        let mut buffer = base;
        let blank = zero_buffer(CHUNK_SIZE as usize);
        let mut chunk: usize = 0;
        proof {
            self.zero_mask.lemma_len();
        }
        while chunk < 2048
            invariant
                chunk <= 2048,
                blank@ == zeros(CHUNK_SIZE as nat),
                buffer@.len() == PAGE_SIZE,
                base@.len() == PAGE_SIZE,
                self@.zero_mask.len() == MASK_BYTES,
                forall|i: int|
                    0 <= i < PAGE_SIZE ==> #[trigger] buffer@[i] == if i < chunk * 4096 && self.zero_mask@[i
                        / 4096] {
                        0u8
                    } else {
                        base@[i]
                    },
            decreases 2048 - chunk,
        {
            if self.zero_mask.get(chunk) {
                let ghost before = buffer@;
                splice(&mut buffer, chunk * 4096, blank.as_slice());
                proof {
                    assert forall|i: int| 0 <= i < PAGE_SIZE implies #[trigger] buffer@[i] == if i < (chunk + 1)
                        * 4096 && self.zero_mask@[i / 4096] {
                        0u8
                    } else {
                        base@[i]
                    } by {
                        assert(buffer@[i] == spliced(before, chunk * 4096, blank@)[i]);
                        if chunk * 4096 <= i < chunk * 4096 + 4096 {
                            assert(i / 4096 == chunk);
                        } else {
                            assert(before[i] == buffer@[i]);
                            assert(i < chunk * 4096 || i >= (chunk + 1) * 4096);
                        }
                    }
                }
            } else {
                proof {
                    assert forall|i: int| 0 <= i < PAGE_SIZE implies #[trigger] buffer@[i] == if i < (chunk + 1)
                        * 4096 && self.zero_mask@[i / 4096] {
                        0u8
                    } else {
                        base@[i]
                    } by {
                        if chunk * 4096 <= i < chunk * 4096 + 4096 {
                            assert(i / 4096 == chunk);
                        }
                    }
                }
            }
            chunk += 1;
        }
        proof {
            assert(buffer@ =~= masked(self@.zero_mask, base@));
        }
        buffer
    }

    /// Writes the chunk `data` at `offset` to the page whose buffer is
    /// `current`. A chunk of zeros only marks the chunk in the mask and leaves
    /// the buffer as it is; any other chunk is written over the buffer, and
    /// its mark is cleared. Returns the page's new buffer and the page.
    pub fn write(&mut self, offset: u64, data: &[u8], current: Vec<u8>) -> (r: (Vec<u8>, Page))
        requires
            old(self).holds(offset),
            offset % CHUNK_SIZE == 0,
            data@.len() == CHUNK_SIZE,
            current@.len() == PAGE_SIZE,
        ensures
            final(self)@ == written_page(old(self)@, offset, data@),
            r.0@ == written_buffer(current@, offset, data@),
            r.1 == *final(self),
    {
        let mut buffer = current;
        let at: usize = (offset % PAGE_SIZE) as usize;
        let chunk: usize = ((offset % PAGE_SIZE) / CHUNK_SIZE) as usize;
        if is_all_zero(data) {
            self.zero_mask.set(chunk, true);
        } else {
            splice(&mut buffer, at, data);
            self.zero_mask.set(chunk, false);
        }
        (buffer, self.clone())
    }

    /// The remote object that holds the page's buffer, if there is one.
    pub fn remote(&self) -> (r: Option<u64>)
        ensures
            r == if self.message_id == 0 {
                None
            } else {
                Some(self.message_id)
            },
    {
        if self.message_id == 0 {
            None
        } else {
            Some(self.message_id)
        }
    }

    /// Records that the remote object `message_id` now holds the page's buffer.
    pub fn update_message(&mut self, message_id: u64)
        ensures
            final(self)@ == (PageView { message_id, ..old(self)@ }),
    {
        self.message_id = message_id;
    }

    /// The symbols of the page's mask.
    fn mask_chars(&self) -> (r: Vec<char>)
        ensures
            r@ == mask_text(self@.zero_mask),
    {
        let bytes = self.zero_mask.as_bytes();
        let mut r: Vec<char> = Vec::new();
        let mut i: usize = 0;
        while i < bytes.len()
            invariant
                i <= bytes@.len(),
                r@ == mask_text(bytes@.take(i as int)),
            decreases bytes.len() - i,
        {
            r.push(byte_to_base_255(bytes[i]));
            proof {
                assert(r@ =~= mask_text(bytes@.take(i + 1)));
            }
            i += 1;
        }
        proof {
            assert(bytes@.take(bytes@.len() as int) =~= bytes@);
        }
        r
    }

    /// The page's mask as text, one symbol for each of its 256 bytes.
    pub fn as_text(&self) -> (text: String)
        ensures
            text@ == mask_text(self@.zero_mask),
    {
        let chars = self.mask_chars();
        string_of(&chars)
    }
}

/// What a directory is: the remote record it is kept in (0 while there is
/// none) and its pages, in the order in which they were added.
pub struct MetadataBlockView {
    pub message_id: u64,
    pub pages: Seq<PageView>,
}

/// The views of `pages`, in order.
pub open spec fn page_views(pages: Seq<Page>) -> Seq<PageView> {
    pages.map_values(|p: Page| p@)
}

/// The place of the first page with index `index` among `pages`, if there is one.
pub open spec fn page_position(pages: Seq<PageView>, index: u64) -> Option<int> {
    pages.map_values(|p: PageView| p.offset).index_of_first(index)
}

/// What tells the place of the first page with index `index`.
pub proof fn lemma_page_position(pages: Seq<PageView>, index: u64, r: int)
    requires
        0 <= r <= pages.len(),
        forall|j: int| 0 <= j < r ==> pages[j].offset != index,
        r < pages.len() ==> pages[r].offset == index,
    ensures
        page_position(pages, index) == if r < pages.len() {
            Some(r)
        } else {
            None
        },
{
    let offsets = pages.map_values(|p: PageView| p.offset);
    offsets.index_of_first_ensures(index);
    if r < pages.len() {
        assert(offsets[r] == index);
        assert(offsets.contains(index));
        let k = offsets.index_of_first(index)->0;
        assert(offsets[k] == index);
    } else {
        if offsets.contains(index) {
            let k = choose|k: int| 0 <= k < offsets.len() && offsets[k] == index;
            assert(pages[k].offset == index);
        }
    }
}

/// Where a page is found, it has the index asked for, and no page before it has.
pub proof fn lemma_page_position_found(pages: Seq<PageView>, index: u64)
    ensures
        match page_position(pages, index) {
            Some(i) => 0 <= i < pages.len() && pages[i].offset == index && forall|j: int|
                0 <= j < i ==> pages[j].offset != index,
            None => forall|j: int| 0 <= j < pages.len() ==> pages[j].offset != index,
        },
{
    let offsets = pages.map_values(|p: PageView| p.offset);
    offsets.index_of_first_ensures(index);
    match page_position(pages, index) {
        Some(i) => {
            assert forall|j: int| 0 <= j < i implies pages[j].offset != index by {
                assert(offsets[j] != index);
            }
        },
        None => {
            assert forall|j: int| 0 <= j < pages.len() implies pages[j].offset != index by {
                assert(offsets[j] == pages[j].offset);
            }
        },
    }
}

/// `line` without the carriage return at its end, if it has one.
pub open spec fn without_return(line: Seq<char>) -> Seq<char> {
    if line.len() > 0 && line.last() == '\r' {
        line.drop_last()
    } else {
        line
    }
}

/// The lines of `text`. A line ends at a line feed; a carriage return just
/// before the line feed belongs to the line's end. What follows the last
/// line feed is a line of its own unless it is empty.
pub open spec fn text_lines(text: Seq<char>) -> Seq<Seq<char>>
    decreases text.len(),
{
    let n = first_index(text, '\n');
    if text.len() == 0 {
        Seq::empty()
    } else if 0 <= n < text.len() {
        seq![without_return(text.take(n))] + text_lines(text.skip(n + 1))
    } else {
        seq![text]
    }
}

/// The page that `line` describes: its index and its remote object in radix
/// 32, then the symbols of its mask, with a colon after each of the two
/// numbers. `None` where `line` is not of that form.
pub open spec fn page_of_line(line: Seq<char>) -> Option<PageView> {
    let rest = after_first(line, ':');
    let index = base32_read_u64(first_field(line, ':'));
    let handle = base32_read_u64(first_field(rest, ':'));
    let mask = after_first(rest, ':');
    if first_index(line, ':') < line.len() && first_index(rest, ':') < rest.len() && index is Some
        && handle is Some && mask.len() <= MASK_BYTES {
        Some(PageView { offset: index->0, message_id: handle->0, zero_mask: mask_bytes(mask) })
    } else {
        None
    }
}

/// The lines of `text` that describe pages: all but the first, which is the header.
pub open spec fn page_lines(text: Seq<char>) -> Seq<Seq<char>> {
    if text_lines(text).len() == 0 {
        Seq::empty()
    } else {
        text_lines(text).skip(1)
    }
}

/// The pages that the record `text` describes, in order; `None` where one
/// of its lines after the header describes no page.
pub open spec fn record_pages(text: Seq<char>) -> Option<Seq<PageView>> {
    let lines = page_lines(text);
    if forall|i: int| 0 <= i < lines.len() ==> (#[trigger] page_of_line(lines[i])) is Some {
        Some(Seq::new(lines.len(), |i: int| page_of_line(lines[i])->0))
    } else {
        None
    }
}

/// The line that describes `page`, without its line feed.
pub open spec fn page_line(page: PageView) -> Seq<char> {
    base32_text(page.offset as nat).push(':') + base32_text(page.message_id as nat).push(':') + mask_text(
        page.zero_mask,
    )
}

/// The lines that describe `pages`, each with its line feed.
pub open spec fn page_lines_text(pages: Seq<PageView>) -> Seq<char>
    decreases pages.len(),
{
    if pages.len() == 0 {
        Seq::empty()
    } else {
        page_line(pages[0]).push('\n') + page_lines_text(pages.skip(1))
    }
}

/// The record of a directory with the pages `pages`: the header line, then
/// one line for each page.
pub open spec fn record_text(pages: Seq<PageView>) -> Seq<char> {
    "METABLOCK\n"@ + page_lines_text(pages)
}

/// The lines of one more page are the lines of the pages before it, then its own.
pub proof fn lemma_page_lines_text_push(pages: Seq<PageView>, page: PageView)
    ensures
        page_lines_text(pages.push(page)) == page_lines_text(pages) + page_line(page).push('\n'),
    decreases pages.len(),
{
    let all = pages.push(page);
    if pages.len() == 0 {
        assert(all.skip(1) =~= Seq::<PageView>::empty());
        assert(page_lines_text(all.skip(1)) =~= Seq::<char>::empty());
        assert(all[0] == page);
        assert(page_lines_text(all) =~= page_line(page).push('\n'));
        assert(page_lines_text(pages) + page_line(page).push('\n') =~= page_line(page).push('\n'));
    } else {
        lemma_page_lines_text_push(pages.skip(1), page);
        assert(all.skip(1) =~= pages.skip(1).push(page));
        assert(page_lines_text(all) =~= page_lines_text(pages) + page_line(page).push('\n'));
    }
}

/// A line that holds no line feed and does not end in a carriage return is
/// the first line of any text that begins with it and a line feed.
pub proof fn lemma_text_lines_first(line: Seq<char>, rest: Seq<char>)
    requires
        forall|i: int| 0 <= i < line.len() ==> line[i] != '\n',
        line.len() > 0 ==> line.last() != '\r',
    ensures
        text_lines(line.push('\n') + rest) == seq![line] + text_lines(rest),
{
    crate::utils::lemma_first_field(line, '\n', rest);
}

/// The line of a page holds no line feed and does not end in a carriage return.
pub proof fn lemma_page_line_plain(page: PageView)
    requires
        page.zero_mask.len() == MASK_BYTES,
    ensures
        forall|i: int| 0 <= i < page_line(page).len() ==> page_line(page)[i] != '\n',
        page_line(page).len() > 0,
        page_line(page).last() != '\r',
{
    let index = base32_text(page.offset as nat);
    let handle = base32_text(page.message_id as nat);
    let mask = mask_text(page.zero_mask);
    let line = page_line(page);
    crate::utils::lemma_base32_text_is_base32(page.offset as nat);
    crate::utils::lemma_base32_text_is_base32(page.message_id as nat);
    assert forall|i: int| 0 <= i < line.len() implies line[i] != '\n' by {
        if i < index.len() {
            assert(crate::utils::base32_digit_value(index[i]) < 32);
        } else if i == index.len() {
        } else if i < index.len() + 1 + handle.len() {
            assert(line[i] == handle[i - index.len() - 1]);
            assert(crate::utils::base32_digit_value(handle[i - index.len() - 1]) < 32);
        } else if i == index.len() + 1 + handle.len() {
        } else {
            let k = i - index.len() - handle.len() - 2;
            assert(line[i] == mask[k]);
            crate::utils::lemma_base255_symbol_plain(page.zero_mask[k]);
        }
    }
    assert(line.last() == mask[MASK_BYTES - 1]);
    crate::utils::lemma_base255_symbol_plain(page.zero_mask[MASK_BYTES - 1]);
}

/// The line of a page is read back as the page.
pub proof fn lemma_page_line_round_trip(page: PageView)
    requires
        page.zero_mask.len() == MASK_BYTES,
    ensures
        page_of_line(page_line(page)) == Some(page),
{
    let index = base32_text(page.offset as nat);
    let handle = base32_text(page.message_id as nat);
    let mask = mask_text(page.zero_mask);
    let line = page_line(page);
    crate::utils::lemma_base32_round_trip(page.offset as nat);
    crate::utils::lemma_base32_round_trip(page.message_id as nat);
    assert forall|i: int| 0 <= i < index.len() implies index[i] != ':' by {
        assert(crate::utils::base32_digit_value(index[i]) < 32);
    }
    assert forall|i: int| 0 <= i < handle.len() implies handle[i] != ':' by {
        assert(crate::utils::base32_digit_value(handle[i]) < 32);
    }
    assert(line =~= index.push(':') + (handle.push(':') + mask));
    crate::utils::lemma_first_field(index, ':', handle.push(':') + mask);
    crate::utils::lemma_first_field(handle, ':', mask);
    assert forall|i: int| 0 <= i < MASK_BYTES implies #[trigger] mask_bytes(mask)[i] == page.zero_mask[i] by {
        crate::utils::lemma_base255_round_trip(page.zero_mask[i]);
    }
    assert(mask_bytes(mask) =~= page.zero_mask);
}

/// The lines of a record's text are its header and the lines of its pages.
pub proof fn lemma_page_lines(pages: Seq<PageView>)
    requires
        forall|i: int| 0 <= i < pages.len() ==> (#[trigger] pages[i]).zero_mask.len() == MASK_BYTES,
    ensures
        text_lines(page_lines_text(pages)) == pages.map_values(|p: PageView| page_line(p)),
    decreases pages.len(),
{
    if pages.len() == 0 {
        assert(text_lines(page_lines_text(pages)) =~= pages.map_values(|p: PageView| page_line(p)));
    } else {
        let rest = pages.skip(1);
        assert forall|i: int| 0 <= i < rest.len() implies (#[trigger] rest[i]).zero_mask.len() == MASK_BYTES by {
            assert(rest[i] == pages[i + 1]);
        }
        lemma_page_lines(rest);
        assert(pages[0].zero_mask.len() == MASK_BYTES);
        lemma_page_line_plain(pages[0]);
        lemma_text_lines_first(page_line(pages[0]), page_lines_text(rest));
        assert(text_lines(page_lines_text(pages)) =~= pages.map_values(|p: PageView| page_line(p)));
    }
}

/// A directory's record is read back as the directory's pages, whatever
/// their indices, their remote objects and their masks are.
pub proof fn lemma_record_round_trip(pages: Seq<PageView>)
    requires
        forall|i: int| 0 <= i < pages.len() ==> (#[trigger] pages[i]).zero_mask.len() == MASK_BYTES,
    ensures
        is_record(record_text(pages)),
        record_pages(record_text(pages)) == Some(pages),
{
    reveal_strlit("METABLOCK\n");
    reveal_strlit("METABLOCK");
    let header = "METABLOCK"@;
    let text = record_text(pages);
    assert("METABLOCK\n"@ =~= header.push('\n'));
    assert(header =~= text.subrange(0, header.len() as int));
    lemma_page_lines(pages);
    lemma_text_lines_first(header, page_lines_text(pages));
    let lines = page_lines(text);
    assert(lines =~= pages.map_values(|p: PageView| page_line(p)));
    assert forall|i: int| 0 <= i < lines.len() implies (#[trigger] page_of_line(lines[i])) == Some(
        pages[i],
    ) by {
        lemma_page_line_round_trip(pages[i]);
    }
    assert(record_pages(text)->0 =~= pages);
}

/// Whether `text` begins as a directory's record does.
pub open spec fn is_record(text: Seq<char>) -> bool {
    "METABLOCK"@.is_prefix_of(text)
}

/// Whether message `i` of `messages` begins as a record does and cannot be read as one.
pub open spec fn is_malformed(messages: Seq<(u64, String)>, i: int) -> bool {
    is_record(messages[i].1@) && record_pages(messages[i].1@) is None
}

/// The directories kept in those of `messages` that begin as a record does
/// and can be read: each with the name of its message, in the order of the messages.
pub open spec fn loaded_blocks(messages: Seq<(u64, String)>) -> Seq<MetadataBlockView>
    decreases messages.len(),
{
    if messages.len() == 0 {
        Seq::empty()
    } else {
        let before = loaded_blocks(messages.drop_last());
        let last = messages.last();
        if is_record(last.1@) && record_pages(last.1@) is Some {
            before.push(MetadataBlockView { message_id: last.0, pages: record_pages(last.1@)->0 })
        } else {
            before
        }
    }
}

/// The views of `blocks`, in order.
pub open spec fn block_views(blocks: Seq<MetadataBlock>) -> Seq<MetadataBlockView> {
    blocks.map_values(|b: MetadataBlock| b@)
}

/// What the loading of the directories has to do next.
pub enum LoadStep {
    /// The messages before the one named first are to be listed, newest
    /// first (0: from the newest on); as many messages as the second number
    /// says may still be looked at.
    More(u64, usize),
    /// Nothing: the directories are loaded.
    Done,
    /// Nothing: the message named begins as a record does and cannot be read.
    Malformed(u64),
}

/// A group of up to five pages that is kept in one remote text record.
#[derive(Debug)]
pub struct MetadataBlock {
    /// The remote record that holds the directory; 0 while there is none.
    pub message_id: u64,
    /// The pages, in the order in which they were added.
    pub pages: Vec<Page>,
}

impl View for MetadataBlock {
    type V = MetadataBlockView;

    open spec fn view(&self) -> MetadataBlockView {
        MetadataBlockView { message_id: self.message_id, pages: page_views(self.pages@) }
    }
}

/// What a write to a directory came to.
pub enum TryWrite {
    /// The directory held the page, and the chunk was written to it: the
    /// page's new buffer, and the page.
    Written(Vec<u8>, Page),
    /// The directory did not hold the page and had room: a new page with the
    /// chunk written to it was added. Its buffer, and the page. The
    /// directory's record is now out of date.
    Created(Vec<u8>, Page),
    /// The directory holds this page, whose buffer is to be brought from the
    /// remote store before the chunk can be written (see `needs_fetch`).
    /// Nothing was changed.
    Fetch(Page),
    /// The directory does not hold the page and has no room. Nothing was changed.
    Full,
}

/// What has to be done to a directory's remote record to bring it up to date.
pub enum RecordUpdate {
    /// There is no record yet: one is to be made with this text.
    Create(String),
    /// The text of this record is to be replaced by this text.
    Edit(u64, String),
}

impl MetadataBlock {
    /// The directory holds no more pages than it can.
    pub open spec fn within_capacity(&self) -> bool {
        self.pages@.len() <= PAGE_CAPACITY
    }

    /// The record of a directory is read back as the directory: with the
    /// same pages in the same order, whatever their indices, their remote
    /// objects and their masks are.
    pub proof fn lemma_text_round_trip(&self)
        ensures
            is_record(record_text(self@.pages)),
            record_pages(record_text(self@.pages)) == Some(self@.pages),
    {
        assert forall|i: int| 0 <= i < self@.pages.len() implies (#[trigger] self@.pages[i]).zero_mask.len()
            == MASK_BYTES by {
            self.pages@[i].zero_mask.lemma_len();
        }
        lemma_record_round_trip(self@.pages);
    }

    /// A directory without pages, kept in the record `message_id`.
    pub fn empty(message_id: u64) -> (r: Self)
        ensures
            r@ == (MetadataBlockView { message_id, pages: Seq::empty() }),
    {
        let r = MetadataBlock { message_id, pages: Vec::new() };
        proof {
            assert(page_views(r.pages@) =~= Seq::empty());
        }
        r
    }

    /// Reads the directory kept in the record `message_id` from the
    /// record's text. The first line is passed over as the header; every
    /// other line has to describe a page. `None` where one does not.
    pub fn try_from_text(message_id: u64, text: &str) -> (r: Option<Self>)
        ensures
            match record_pages(text@) {
                Some(pages) => r is Some && r->0@ == (MetadataBlockView { message_id, pages }),
                None => r is None,
            },
    {
        let chars = chars_of(text);
        let n: usize = chars.len();
        let mut pages: Vec<Page> = Vec::new();
        let mut pos: usize = 0;
        let mut header: bool = true;
        let ghost mut done: Seq<Seq<char>> = Seq::empty();
        proof {
            assert(chars@.skip(0) =~= chars@);
        }
        while pos < n
            invariant
                chars@ == text@,
                n == chars@.len(),
                pos <= n,
                text_lines(chars@) == done + text_lines(chars@.skip(pos as int)),
                header <==> done.len() == 0,
                header ==> pos == 0 && pages@.len() == 0,
                !header ==> pages@.len() == done.len() - 1,
                forall|i: int| 0 <= i < pages@.len() ==> page_of_line(#[trigger] done[i + 1]) == Some(pages@[i]@),
            decreases n - pos,
        {
            let ghost rest = chars@.skip(pos as int);
            let end: usize = find_char(chars.as_slice(), pos, '\n');
            let stop: usize = if end < n && end > pos && chars[end - 1] == '\r' {
                (end - 1) as usize
            } else {
                end
            };
            let next: usize = if end < n {
                (end + 1) as usize
            } else {
                n
            };
            let ghost line = chars@.subrange(pos as int, stop as int);
            proof {
                if end < n {
                    assert(rest.take(end - pos) =~= chars@.subrange(pos as int, end as int));
                    assert(without_return(rest.take(end - pos)) =~= line);
                    assert(rest.skip(end - pos + 1) =~= chars@.skip(next as int));
                } else {
                    assert(rest =~= line);
                    assert(chars@.skip(n as int) =~= Seq::<char>::empty());
                    assert(text_lines(chars@.skip(n as int)) =~= Seq::<Seq<char>>::empty());
                }
                assert(text_lines(rest) =~= seq![line] + text_lines(chars@.skip(next as int)));
                assert(done + text_lines(rest) =~= done.push(line) + text_lines(chars@.skip(next as int)));
            }
            if !header {
                match Self::page_from_line(slice_subrange(chars.as_slice(), pos, stop)) {
                    Some(page) => {
                        pages.push(page);
                    },
                    None => {
                        proof {
                            let lines = page_lines(chars@);
                            assert(text_lines(chars@)[done.len() as int] == line);
                            assert(lines[done.len() - 1] == line);
                            assert(page_of_line(lines[done.len() - 1]) is None);
                        }
                        return None;
                    },
                }
            }
            proof {
                done = done.push(line);
            }
            header = false;
            pos = next;
        }
        let r = MetadataBlock { message_id, pages };
        proof {
            assert(chars@.skip(n as int) =~= Seq::<char>::empty());
            assert(text_lines(chars@) =~= done);
            let lines = page_lines(chars@);
            assert forall|i: int| 0 <= i < lines.len() implies (#[trigger] page_of_line(lines[i])) is Some by {
                assert(lines[i] == done[i + 1]);
            }
            assert(r@.pages =~= record_pages(text@)->0) by {
                assert forall|i: int| 0 <= i < lines.len() implies r@.pages[i] == page_of_line(lines[i])->0 by {
                    assert(lines[i] == done[i + 1]);
                }
            }
        }
        Some(r)
    }

    /// The page that `line` describes.
    fn page_from_line(line: &[char]) -> (r: Option<Page>)
        ensures
            match page_of_line(line@) {
                Some(page) => r is Some && r->0@ == page,
                None => r is None,
            },
    {
        let n: usize = line.len();
        proof {
            assert(line@.skip(0) =~= line@);
        }
        let first: usize = find_char(line, 0, ':');
        if first >= n {
            return None;
        }
        let second: usize = find_char(line, first + 1, ':');
        if second >= n {
            return None;
        }
        proof {
            let rest = after_first(line@, ':');
            assert(rest =~= line@.skip(first + 1));
            assert(line@.subrange(0, first as int) =~= first_field(line@, ':'));
            assert(line@.subrange(first + 1, second as int) =~= first_field(rest, ':'));
            assert(line@.subrange(second + 1, n as int) =~= after_first(rest, ':'));
        }
        let index = parse_base32(slice_subrange(line, 0, first));
        let handle = parse_base32(slice_subrange(line, first + 1, second));
        let mask = slice_subrange(line, second + 1, n);
        match (index, handle) {
            (Some(offset), Some(message_id)) => {
                if mask.len() > MASK_BYTES {
                    None
                } else {
                    Some(Page::from_chars(message_id, offset, mask))
                }
            },
            _ => None,
        }
    }

    /// Reads the directory kept in the record `message_id` from the
    /// record's text.
    pub fn from_text(message_id: u64, text: &str) -> (r: Self)
        requires
            record_pages(text@) is Some,
        ensures
            r@ == (MetadataBlockView { message_id, pages: record_pages(text@)->0 }),
    {
        match Self::try_from_text(message_id, text) {
            Some(block) => block,
            None => Self::empty(message_id),
        }
    }

    /// The characters of the directory's record.
    fn record_chars(&self) -> (r: Vec<char>)
        ensures
            r@ == record_text(self@.pages),
    {
        let mut r: Vec<char> = chars_of("METABLOCK\n");
        let mut i: usize = 0;
        proof {
            assert(self@.pages.take(0) =~= Seq::empty());
            assert(r@ =~= record_text(self@.pages.take(0)));
        }
        while i < self.pages.len()
            invariant
                i <= self.pages@.len(),
                r@ == record_text(self@.pages.take(i as int)),
            decreases self.pages.len() - i,
        {
            let page = &self.pages[i];
            let ghost before = r@;
            let mut index = base32_chars(page.offset);
            r.append(&mut index);
            r.push(':');
            let mut handle = base32_chars(page.message_id);
            r.append(&mut handle);
            r.push(':');
            let mut mask = page.mask_chars();
            r.append(&mut mask);
            r.push('\n');
            proof {
                let taken = self@.pages.take(i + 1);
                assert(taken =~= self@.pages.take(i as int).push(page@));
                lemma_page_lines_text_push(self@.pages.take(i as int), page@);
                assert(r@ =~= before + page_line(page@).push('\n'));
                assert(r@ =~= record_text(taken));
            }
            i += 1;
        }
        proof {
            assert(self@.pages.take(self.pages@.len() as int) =~= self@.pages);
        }
        r
    }

    /// The text of the directory's record: the header line, then one line
    /// for each page.
    pub fn as_text(&self) -> (text: String)
        ensures
            text@ == record_text(self@.pages),
    {
        let chars = self.record_chars();
        string_of(&chars)
    }

    /// What has to be done to the directory's remote record to bring it up
    /// to date: a record is made where there is none, and edited otherwise.
    /// After a record was made, `set_message_id` takes its name.
    pub fn update_message(&self) -> (r: RecordUpdate)
        ensures
            match r {
                RecordUpdate::Create(text) => self.message_id == 0 && text@ == record_text(self@.pages),
                RecordUpdate::Edit(message_id, text) => self.message_id != 0 && message_id == self.message_id
                    && text@ == record_text(self@.pages),
            },
    {
        if self.message_id == 0 {
            RecordUpdate::Create(self.as_text())
        } else {
            RecordUpdate::Edit(self.message_id, self.as_text())
        }
    }

    /// Whether `text` begins as a directory's record does.
    pub fn is_record(text: &str) -> (r: bool)
        ensures
            r == is_record(text@),
    {
        let chars = chars_of(text);
        let head = chars_of("METABLOCK");
        if chars.len() < head.len() {
            return false;
        }
        let mut i: usize = 0;
        while i < head.len()
            invariant
                i <= head@.len() <= chars@.len(),
                head@ == "METABLOCK"@,
                chars@ == text@,
                forall|j: int| 0 <= j < i ==> head@[j] == chars@[j],
            decreases head.len() - i,
        {
            if head[i] != chars[i] {
                proof {
                    assert(chars@.subrange(0, head@.len() as int)[i as int] != head@[i as int]);
                }
                return false;
            }
            i += 1;
        }
        proof {
            assert(head@ =~= chars@.subrange(0, head@.len() as int));
        }
        true
    }

    /// The first step of loading the directories, of which at most `limit`
    /// messages are looked at.
    pub fn load_start(limit: usize) -> (r: LoadStep)
        ensures
            r == if limit > 0 {
                LoadStep::More(0, limit)
            } else {
                LoadStep::Done
            },
    {
        if limit > 0 {
            LoadStep::More(0, limit)
        } else {
            LoadStep::Done
        }
    }

    /// One step of loading the directories: `messages` are the messages that
    /// were listed, each with its name and its text, and `limit` says how
    /// many messages may still be looked at. Every message that begins as a
    /// record does is read and added to `blocks`. The step that follows
    /// lists the messages before the last of these, unless there were none
    /// or `limit` is used up. A record that cannot be read ends the loading,
    /// with the directories before it added.
    pub fn load_all(blocks: &mut Vec<MetadataBlock>, messages: &Vec<(u64, String)>, limit: usize) -> (r:
        LoadStep)
        requires
            messages@.len() <= limit,
        ensures
            match r {
                LoadStep::Malformed(message_id) => exists|k: int|
                    {
                        &&& 0 <= k < messages@.len()
                        &&& #[trigger] is_malformed(messages@, k)
                        &&& forall|j: int| 0 <= j < k ==> !is_malformed(messages@, j)
                        &&& message_id == messages@[k].0
                        &&& block_views(final(blocks)@) == block_views(old(blocks)@) + loaded_blocks(
                            messages@.take(k),
                        )
                    },
                _ => {
                    &&& forall|j: int| 0 <= j < messages@.len() ==> !is_malformed(messages@, j)
                    &&& block_views(final(blocks)@) == block_views(old(blocks)@) + loaded_blocks(messages@)
                    &&& r == if messages@.len() == 0 || messages@.len() == limit {
                        LoadStep::Done
                    } else {
                        LoadStep::More(messages@.last().0, (limit - messages@.len()) as usize)
                    }
                },
            },
    {
        let mut i: usize = 0;
        proof {
            assert(messages@.take(0) =~= Seq::empty());
            assert(block_views(blocks@) + loaded_blocks(messages@.take(0)) =~= block_views(blocks@));
        }
        while i < messages.len()
            invariant
                i <= messages@.len(),
                forall|j: int| 0 <= j < i ==> !is_malformed(messages@, j),
                block_views(blocks@) == block_views(old(blocks)@) + loaded_blocks(messages@.take(i as int)),
            decreases messages.len() - i,
        {
            let ghost before = blocks@;
            let ghost taken = messages@.take(i + 1);
            proof {
                assert(taken.drop_last() =~= messages@.take(i as int));
                assert(taken.last() == messages@[i as int]);
            }
            let message = &messages[i];
            if Self::is_record(message.1.as_str()) {
                match Self::try_from_text(message.0, message.1.as_str()) {
                    Some(block) => {
                        blocks.push(block);
                        proof {
                            assert(block_views(blocks@) =~= block_views(before).push(block@));
                            assert(block_views(blocks@) =~= block_views(old(blocks)@) + loaded_blocks(taken));
                        }
                    },
                    None => {
                        proof {
                            assert(is_malformed(messages@, i as int));
                        }
                        return LoadStep::Malformed(message.0);
                    },
                }
            }
            i += 1;
        }
        proof {
            assert(messages@.take(messages@.len() as int) =~= messages@);
        }
        if messages.len() == 0 || messages.len() == limit {
            LoadStep::Done
        } else {
            LoadStep::More(messages[messages.len() - 1].0, limit - messages.len())
        }
    }

    /// The place of the first page with index `index`, where the directory holds one.
    pub fn position(&self, index: u64) -> (r: Option<usize>)
        ensures
            match r {
                Some(i) => page_position(self@.pages, index) == Some(i as int) && i < self.pages@.len(),
                None => page_position(self@.pages, index) is None,
            },
    {
        let mut i: usize = 0;
        while i < self.pages.len()
            invariant
                i <= self.pages@.len(),
                forall|j: int| 0 <= j < i ==> self@.pages[j].offset != index,
            decreases self.pages.len() - i,
        {
            if self.pages[i].offset == index {
                proof {
                    lemma_page_position(self@.pages, index, i as int);
                }
                return Some(i);
            }
            i += 1;
        }
        proof {
            lemma_page_position(self@.pages, index, i as int);
        }
        None
    }

    /// Looks for the page that holds byte `offset`. `None` says that the
    /// directory does not hold it. Otherwise the page is returned, and with
    /// it its buffer (see `Page::read`), where `remote` is what the page's
    /// remote object holds; no buffer is returned where it is to be brought
    /// from the remote store first.
    pub fn try_read(&self, offset: u64, remote: Option<Vec<u8>>) -> (r: Option<(Option<Vec<u8>>, Page)>)
        requires
            remote matches Some(bytes) ==> bytes@.len() == PAGE_SIZE,
        ensures
            match page_position(self@.pages, page_index(offset)) {
                None => r is None,
                Some(i) => {
                    &&& r matches Some((buffer, page))
                    &&& page == self.pages@[i]
                    &&& match buffer {
                        Some(bytes) => (needs_fetch(page@) ==> remote is Some) && bytes@ == page_buffer(
                            page@,
                            remote->0@,
                        ),
                        None => needs_fetch(page@) && remote is None,
                    }
                },
            },
    {
        match self.position(offset / PAGE_SIZE) {
            None => None,
            Some(i) => {
                proof {
                    lemma_page_position_found(self@.pages, page_index(offset));
                }
                let page = &self.pages[i];
                Some((page.read(offset, remote), page.clone()))
            },
        }
    }

    /// Writes the chunk `data` at `offset` where that can be done without
    /// the remote store: to the page that holds `offset`, where its buffer
    /// need not be brought (see `needs_fetch`), or, where the directory
    /// holds no such page and has room, to a new page added at its end.
    pub fn try_write(&mut self, offset: u64, data: &[u8]) -> (r: TryWrite)
        requires
            offset % CHUNK_SIZE == 0,
            data@.len() == CHUNK_SIZE,
        ensures
            final(self).message_id == old(self).message_id,
            old(self).within_capacity() ==> final(self).within_capacity(),
            match page_position(old(self)@.pages, page_index(offset)) {
                Some(i) => if needs_fetch(old(self)@.pages[i]) {
                    &&& r == TryWrite::Fetch(old(self).pages@[i])
                    &&& final(self).pages@ == old(self).pages@
                } else {
                    &&& r matches TryWrite::Written(buffer, page)
                    &&& buffer@ == written_buffer(zeros(PAGE_SIZE as nat), offset, data@)
                    &&& page@ == written_page(old(self)@.pages[i], offset, data@)
                    &&& final(self).pages@ == old(self).pages@.update(i, page)
                },
                None => if old(self).pages@.len() < PAGE_CAPACITY {
                    &&& r matches TryWrite::Created(buffer, page)
                    &&& buffer@ == written_buffer(zeros(PAGE_SIZE as nat), offset, data@)
                    &&& page@ == written_page(
                        PageView {
                            offset: page_index(offset),
                            message_id: 0,
                            zero_mask: zeros(MASK_BYTES as nat),
                        },
                        offset,
                        data@,
                    )
                    &&& final(self).pages@ == old(self).pages@.push(page)
                } else {
                    &&& r == TryWrite::Full
                    &&& final(self).pages@ == old(self).pages@
                },
            },
    {
        match self.position(offset / PAGE_SIZE) {
            Some(i) => {
                proof {
                    lemma_page_position_found(self@.pages, page_index(offset));
                }
                let mut page = self.pages[i].clone();
                if page.needs_fetch() {
                    return TryWrite::Fetch(page);
                }
                let written = page.write(offset, data, zero_buffer(PAGE_SIZE as usize));
                self.pages.set(i, page);
                TryWrite::Written(written.0, written.1)
            },
            None => {
                if self.pages.len() >= PAGE_CAPACITY {
                    return TryWrite::Full;
                }
                let mut page = Page::new(offset / PAGE_SIZE);
                let written = page.write(offset, data, zero_buffer(PAGE_SIZE as usize));
                self.pages.push(page);
                TryWrite::Created(written.0, written.1)
            },
        }
    }

    /// Writes the chunk `data` at `offset` to the page that holds `offset`,
    /// where `remote` is what the page's remote object holds: the chunk is
    /// written to the page's buffer (see `page_buffer`). Returns the page's
    /// new buffer and the page.
    pub fn write_fetched(&mut self, offset: u64, data: &[u8], remote: Vec<u8>) -> (r: (Vec<u8>, Page))
        requires
            offset % CHUNK_SIZE == 0,
            data@.len() == CHUNK_SIZE,
            remote@.len() == PAGE_SIZE,
            page_position(old(self)@.pages, page_index(offset)) is Some,
        ensures
            final(self).message_id == old(self).message_id,
            ({
                let i = page_position(old(self)@.pages, page_index(offset))->0;
                &&& r.0@ == written_buffer(page_buffer(old(self)@.pages[i], remote@), offset, data@)
                &&& r.1@ == written_page(old(self)@.pages[i], offset, data@)
                &&& final(self).pages@ == old(self).pages@.update(i, r.1)
            }),
    {
        match self.position(offset / PAGE_SIZE) {
            Some(i) => {
                proof {
                    lemma_page_position_found(self@.pages, page_index(offset));
                    self.pages@[i as int].zero_mask.lemma_len();
                    if !needs_fetch(self.pages@[i as int]@) {
                    } else {
                        assert(page_buffer(self.pages@[i as int]@, remote@).len() == PAGE_SIZE);
                    }
                }
                let mut page = self.pages[i].clone();
                let current = match page.read(offset, Some(remote)) {
                    Some(buffer) => buffer,
                    None => zero_buffer(PAGE_SIZE as usize),
                };
                let written = page.write(offset, data, current);
                self.pages.set(i, page);
                written
            },
            None => (remote, Page::new(offset / PAGE_SIZE)),
        }
    }

    /// Takes over the remote object and the mask of `page_new` for the page
    /// with the same index. Returns whether the directory holds such a page;
    /// where it does, its record is now out of date.
    pub fn update_page(&mut self, page_new: Page) -> (found: bool)
        ensures
            final(self).message_id == old(self).message_id,
            match page_position(old(self)@.pages, page_new.offset) {
                Some(i) => found && final(self).pages@ == old(self).pages@.update(i, page_new),
                None => !found && final(self).pages@ == old(self).pages@,
            },
    {
        match self.position(page_new.offset) {
            Some(i) => {
                self.pages.set(i, page_new);
                true
            },
            None => false,
        }
    }

    /// Records that the directory is now kept in the remote record `message_id`.
    pub fn set_message_id(&mut self, message_id: u64)
        ensures
            final(self)@ == (MetadataBlockView { message_id, ..old(self)@ }),
            final(self).pages == old(self).pages,
    {
        self.message_id = message_id;
    }
}

} // verus!
