//! The address space: pages of 8 MiB, each made of 2048 chunks of 4 KiB.

use vstd::prelude::*;

verus! {

/// The bytes of one page.
pub const PAGE_SIZE: u64 = 8388608;

/// The bytes of one chunk, the unit of every read and write.
pub const CHUNK_SIZE: u64 = 4096;

/// The chunks of one page.
pub const CHUNKS_PER_PAGE: u64 = 2048;

/// The page that holds byte `offset`.
pub open spec fn page_index(offset: u64) -> u64 {
    offset / PAGE_SIZE
}

/// The chunk, within its page, that holds byte `offset`.
pub open spec fn chunk_index(offset: u64) -> int {
    (offset % PAGE_SIZE) as int / CHUNK_SIZE as int
}

/// Every byte of `data` is zero.
pub open spec fn all_zero(data: Seq<u8>) -> bool {
    forall|i: int| 0 <= i < data.len() ==> data[i] == 0u8
}

/// `n` zero bytes.
pub open spec fn zeros(n: nat) -> Seq<u8> {
    Seq::new(n, |i: int| 0u8)
}

/// `buffer` with `data` written over it from place `at` on.
pub open spec fn spliced(buffer: Seq<u8>, at: int, data: Seq<u8>) -> Seq<u8> {
    Seq::new(
        buffer.len(),
        |i: int|
            if at <= i < at + data.len() {
                data[i - at]
            } else {
                buffer[i]
            },
    )
}

/// The byte at which the page that holds byte `offset` begins.
pub open spec fn page_start(offset: u64) -> u64 {
    (offset - offset % PAGE_SIZE) as u64
}

/// What tells the place of the first `true` in `hits`.
pub proof fn lemma_first_true(hits: Seq<bool>, r: int)
    requires
        0 <= r <= hits.len(),
        forall|j: int| 0 <= j < r ==> !hits[j],
        r < hits.len() ==> hits[r],
    ensures
        hits.index_of_first(true) == if r < hits.len() {
            Some(r)
        } else {
            None
        },
{
    hits.index_of_first_ensures(true);
    if r < hits.len() {
        assert(hits.contains(true));
        let k = hits.index_of_first(true)->0;
        assert(hits[k]);
    } else {
        if hits.contains(true) {
            let k = choose|k: int| 0 <= k < hits.len() && hits[k] == true;
            assert(!hits[k]);
        }
    }
}

/// The first `true` in `hits` is one, and nothing before it is.
pub proof fn lemma_first_true_found(hits: Seq<bool>)
    ensures
        match hits.index_of_first(true) {
            Some(i) => 0 <= i < hits.len() && hits[i] && forall|j: int| 0 <= j < i ==> !hits[j],
            None => forall|j: int| 0 <= j < hits.len() ==> !hits[j],
        },
{
    hits.index_of_first_ensures(true);
    match hits.index_of_first(true) {
        Some(i) => {
            assert forall|j: int| 0 <= j < i implies !hits[j] by {
                assert(hits[j] != true);
            }
        },
        None => {
            assert forall|j: int| 0 <= j < hits.len() implies !hits[j] by {
                if hits[j] {
                    assert(hits.contains(true));
                }
            }
        },
    }
}

/// Whether every byte of `data` is zero.
pub fn is_all_zero(data: &[u8]) -> (r: bool)
    ensures
        r == all_zero(data@),
{
    let mut i: usize = 0;
    while i < data.len()
        invariant
            i <= data@.len(),
            forall|j: int| 0 <= j < i ==> data@[j] == 0u8,
        decreases data.len() - i,
    {
        if data[i] != 0 {
            return false;
        }
        i += 1;
    }
    true
}

/// A buffer of `n` zero bytes.
pub fn zero_buffer(n: usize) -> (r: Vec<u8>)
    ensures
        r@ == zeros(n as nat),
{
    let r = vec![0u8; n];
    proof {
        assert(r@ =~= zeros(n as nat));
    }
    r
}

/// Writes `data` over `buffer` from place `at` on.
pub fn splice(buffer: &mut Vec<u8>, at: usize, data: &[u8])
    requires
        at + data@.len() <= old(buffer)@.len(),
    ensures
        final(buffer)@ == spliced(old(buffer)@, at as int, data@),
{
    let mut i: usize = 0;
    while i < data.len()
        invariant
            i <= data@.len(),
            at + data@.len() <= buffer.len(),
            buffer@ == spliced(old(buffer)@, at as int, data@.take(i as int)),
        decreases data.len() - i,
    {
        buffer.set(at + i, data[i]);
        proof {
            assert(buffer@ =~= spliced(old(buffer)@, at as int, data@.take(i + 1)));
        }
        i += 1;
    }
    proof {
        assert(data@.take(data@.len() as int) =~= data@);
    }
}

/// The `len` bytes of `buffer` from place `at` on.
pub fn copy_range(buffer: &Vec<u8>, at: usize, len: usize) -> (r: Vec<u8>)
    requires
        at + len <= buffer@.len(),
    ensures
        r@ == buffer@.subrange(at as int, at + len),
{
    let mut r: Vec<u8> = Vec::new();
    let mut i: usize = 0;
    while i < len
        invariant
            i <= len,
            at + len <= buffer.len(),
            r@ == buffer@.subrange(at as int, at + i),
        decreases len - i,
    {
        r.push(buffer[at + i]);
        proof {
            assert(r@ =~= buffer@.subrange(at as int, at + i + 1));
        }
        i += 1;
    }
    r
}

} // verus!
