//! Blocks: the unit in which memory is handed out.

use vstd::prelude::*;

verus! {

/// Size of a machine word in bytes. Every payload address is a multiple of it.
pub const WORD_SIZE: usize = 8;

/// Bytes that a block header takes in front of its payload: the two links of
/// its list node and the three fields of [`Block`].
pub const BLOCK_HEADER_SIZE: usize = 40;

/// Smallest payload a block may have. A free block keeps the node of the
/// free-block index in its payload, so the payload must hold one such node.
pub const MIN_BLOCK_SIZE: usize = 24;

/// Largest request for which the padded sizes can still be computed.
pub const MAX_REQUEST: usize = usize::MAX - 8;

/// Header of a block. The payload follows the header at
/// `BLOCK_HEADER_SIZE` bytes from the header's address.
#[derive(Clone, Copy, Debug)]
pub struct Block {
    /// Size of the payload in bytes.
    pub size: usize,
    /// Whether the block is free.
    pub is_free: bool,
    /// Address of the region the block belongs to.
    pub region: usize,
}

/// The payload a request of `size` bytes is given: the size rounded up to a
/// whole number of words, and no less than the smallest payload.
pub open spec fn payload_for(size: int) -> int {
    let rounded = crate::utils::align_up(size, WORD_SIZE as int);
    if rounded >= MIN_BLOCK_SIZE as int {
        rounded
    } else {
        MIN_BLOCK_SIZE as int
    }
}

/// `payload_for` covers the request with whole words.
pub proof fn lemma_payload_for(size: int)
    requires
        size >= 0,
    ensures
        payload_for(size) >= size,
        payload_for(size) >= MIN_BLOCK_SIZE,
        payload_for(size) % (WORD_SIZE as int) == 0,
        payload_for(size) < size + WORD_SIZE || payload_for(size) == MIN_BLOCK_SIZE,
{
    crate::utils::lemma_align_up(size, WORD_SIZE as int);
}

/// Computes [`payload_for`], or nothing for a request too large to pad.
pub fn padded_payload(size: usize) -> (padded: Option<usize>)
    ensures
        match padded {
            Some(p) => size <= MAX_REQUEST && p == payload_for(size as int),
            None => size > MAX_REQUEST,
        },
{
    if size > MAX_REQUEST {
        None
    } else {
        let rounded: usize = crate::utils::align(size, WORD_SIZE);
        if rounded >= MIN_BLOCK_SIZE {
            Some(rounded)
        } else {
            Some(MIN_BLOCK_SIZE)
        }
    }
}

} // verus!
