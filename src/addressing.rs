//! Block addressing: how a block id and an offset inside it become a flat
//! slot index, and how a block id becomes a byte range of a cache buffer.
use vstd::prelude::*;

verus! {

/// Slot value meaning "no physical backing; ignore this position".
pub const PAD_SLOT_ID: i64 = -1;

/// The slot of the token at `offset` inside block `block_id`.
pub open spec fn slot_of(block_id: int, offset: int, block_size: int) -> int {
    block_id * block_size + offset
}

/// The first byte of block `block_id` in a buffer whose view starts at
/// `start_offset` of its backing allocation.
pub open spec fn block_start(start_offset: int, block_id: int, block_bytes: int) -> int {
    start_offset + block_id * block_bytes
}

/// Flat slot index of the token at `offset` within block `block_id`.
pub fn slot(block_id: usize, offset: usize, block_size: usize) -> (r: usize)
    requires
        offset < block_size,
        block_id * block_size + offset <= usize::MAX,
    ensures
        r == slot_of(block_id as int, offset as int, block_size as int),
{
    block_id * block_size + offset
}

/// Bytes of one block: the element width times the leading dimension of the
/// cache layout.
pub fn block_size_in_bytes(element_size: usize, block_dim: usize) -> (r: usize)
    requires
        element_size * block_dim <= usize::MAX,
    ensures
        r == element_size * block_dim,
{
    element_size * block_dim
}

/// Byte address of block `block_id` inside a buffer view.
pub fn block_byte_offset(start_offset: usize, block_id: usize, block_bytes: usize) -> (r: usize)
    requires
        start_offset + block_id * block_bytes <= usize::MAX,
    ensures
        r == block_start(start_offset as int, block_id as int, block_bytes as int),
{
    start_offset + block_id * block_bytes
}

/// Every slot of a block lies in `[block_id * block_size, block_id * block_size + block_size)`.
pub proof fn lemma_slot_in_block(block_id: int, offset: int, block_size: int)
    requires
        0 <= offset < block_size,
    ensures
        block_id * block_size <= slot_of(block_id, offset, block_size) < block_id * block_size
            + block_size,
{
}

/// Distinct block ids give disjoint ranges of slots: no slot of one block is a
/// slot of another.
pub proof fn lemma_block_slots_disjoint(
    block_a: int,
    offset_a: int,
    block_b: int,
    offset_b: int,
    block_size: int,
)
    requires
        block_a != block_b,
        0 <= offset_a < block_size,
        0 <= offset_b < block_size,
    ensures
        slot_of(block_a, offset_a, block_size) != slot_of(block_b, offset_b, block_size),
{
    if block_a < block_b {
        assert(block_a * block_size + block_size <= block_b * block_size) by (nonlinear_arith)
            requires
                block_a < block_b,
                0 < block_size,
        ;
    } else {
        assert(block_b * block_size + block_size <= block_a * block_size) by (nonlinear_arith)
            requires
                block_b < block_a,
                0 < block_size,
        ;
    }
}

/// Distinct block ids give disjoint byte ranges of one buffer.
pub proof fn lemma_block_bytes_disjoint(
    start_offset: int,
    block_a: int,
    block_b: int,
    block_bytes: int,
    k: int,
)
    requires
        block_a != block_b,
        block_start(start_offset, block_a, block_bytes) <= k < block_start(
            start_offset,
            block_a,
            block_bytes,
        ) + block_bytes,
    ensures
        !(block_start(start_offset, block_b, block_bytes) <= k < block_start(
            start_offset,
            block_b,
            block_bytes,
        ) + block_bytes),
{
    lemma_blocks_apart(start_offset, block_a, block_b, block_bytes);
}

/// Two distinct blocks of one buffer do not overlap.
pub proof fn lemma_blocks_apart(start_offset: int, block_a: int, block_b: int, block_bytes: int)
    requires
        block_a != block_b,
        0 <= block_bytes,
    ensures
        block_start(start_offset, block_a, block_bytes) + block_bytes <= block_start(
            start_offset,
            block_b,
            block_bytes,
        ) || block_start(start_offset, block_b, block_bytes) + block_bytes <= block_start(
            start_offset,
            block_a,
            block_bytes,
        ),
{
    if block_a < block_b {
        assert(block_a * block_bytes + block_bytes <= block_b * block_bytes) by (nonlinear_arith)
            requires
                block_a < block_b,
                0 <= block_bytes,
        ;
    } else {
        assert(block_b * block_bytes + block_bytes <= block_a * block_bytes) by (nonlinear_arith)
            requires
                block_b < block_a,
                0 <= block_bytes,
        ;
    }
}

} // verus!
