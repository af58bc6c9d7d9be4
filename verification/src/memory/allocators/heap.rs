//! The choices of the heap's small-block allocator: which block size serves
//! a request, and which free list it is taken from. The free lists
//! themselves are threaded through the free memory and are kept by whoever
//! owns that memory.

use vstd::prelude::*;

verus! {

/// The number of block sizes.
pub const NUM_BLOCK_SIZES: usize = 5;

/// The largest block size; a chunk is cut into blocks of this size.
pub const MAXIMAL_BLOCK_SIZE: usize = 256;

/// The size of block size class `key`: 16, 32, 64, 128 or 256 bytes.
pub open spec fn block_size(key: int) -> int {
    if key == 0 {
        16
    } else if key == 1 {
        32
    } else if key == 2 {
        64
    } else if key == 3 {
        128
    } else {
        256
    }
}

/// The size of block size class `key`, which must be below
/// `NUM_BLOCK_SIZES`.
pub fn block_size_of(key: usize) -> (r: usize)
    requires
        key < NUM_BLOCK_SIZES,
    ensures
        r == block_size(key as int),
{
    let sizes: [usize; NUM_BLOCK_SIZES] = [16, 32, 64, 128, 256];
    sizes[key]
}

/// The smallest block size class whose blocks hold `size` bytes at
/// alignment `align` (a block serves both as its size), or `None` when even
/// the largest is too small.
pub fn key_for_size_align(size: usize, align: usize) -> (r: Option<usize>)
    ensures
        ({
            let need = if size >= align {
                size as int
            } else {
                align as int
            };
            match r {
                Some(k) => {
                    &&& k < NUM_BLOCK_SIZES
                    &&& block_size(k as int) >= need
                    &&& forall|j: int| 0 <= j < k ==> #[trigger] block_size(j) < need
                },
                None => need > MAXIMAL_BLOCK_SIZE,
            }
        }),
{
    let need = if size >= align {
        size
    } else {
        align
    };
    let mut key: usize = 0;
    while key < NUM_BLOCK_SIZES
        invariant
            key <= NUM_BLOCK_SIZES,
            need == (if size >= align {
                size
            } else {
                align
            }),
            forall|j: int| 0 <= j < key ==> #[trigger] block_size(j) < need,
        decreases NUM_BLOCK_SIZES - key,
    {
        if block_size_of(key) >= need {
            return Some(key);
        }
        key = key + 1;
    }
    assert(block_size(4) < need);
    None
}

/// The first free list, from size class `key` up, that has a block, given
/// which lists are non-empty; `None` when all of them are empty and a fresh
/// chunk is needed.
pub fn first_fit(nonempty: &[bool; NUM_BLOCK_SIZES], key: usize) -> (r: Option<usize>)
    requires
        key < NUM_BLOCK_SIZES,
    ensures
        match r {
            Some(j) => {
                &&& key <= j < NUM_BLOCK_SIZES
                &&& nonempty@[j as int]
                &&& forall|i: int| key <= i < j ==> !#[trigger] nonempty@[i]
            },
            None => forall|i: int| key <= i < NUM_BLOCK_SIZES ==> !#[trigger] nonempty@[i],
        },
{
    let mut j: usize = key;
    while j < NUM_BLOCK_SIZES
        invariant
            key <= j <= NUM_BLOCK_SIZES,
            forall|i: int| key <= i < j ==> !#[trigger] nonempty@[i],
        decreases NUM_BLOCK_SIZES - j,
    {
        if nonempty[j] {
            return Some(j);
        }
        j = j + 1;
    }
    None
}

/// How many maximal blocks a chunk of `chunk_size` bytes is cut into: as
/// many as fit whole.
pub fn blocks_per_chunk(chunk_size: usize) -> (r: usize)
    ensures
        r * MAXIMAL_BLOCK_SIZE <= chunk_size,
        chunk_size < (r + 1) * MAXIMAL_BLOCK_SIZE,
{
    chunk_size / MAXIMAL_BLOCK_SIZE
}

/// A block taken for a request fits it: a size class chosen by
/// `key_for_size_align` and a list chosen from it up by `first_fit` give a
/// block at least as large as the request and its alignment.
pub proof fn lemma_first_fit_block_fits(need: int, key: int, j: int)
    requires
        0 <= key <= j < 5,
        block_size(key) >= need,
    ensures
        block_size(j) >= need,
{
}

} // verus!
