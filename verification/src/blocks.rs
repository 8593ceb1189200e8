//! How a piece is cut into blocks, and how a block is asked for.

use vstd::prelude::*;
use vstd::slice::slice_to_vec;
use crate::framing::{Message, MessageTag};
use crate::wire::Request;
#[allow(unused_imports)]
use crate::wire::{law_request_reads_back, request_bytes};
#[allow(unused_imports)]
use crate::big_endian::be_value;
#[allow(unused_imports)]
use crate::wire_laws::{law_request_layout, number_at};

verus! {

/// The length of every block of a piece but the last.
pub const BLOCK_MAX: usize = 16384;

/// The number of blocks of a piece of `piece_size` bytes.
pub open spec fn blocks_in(piece_size: int) -> int {
    (piece_size + (BLOCK_MAX - 1)) / BLOCK_MAX as int
}

/// Where a block begins in its piece.
pub open spec fn block_start(block: int) -> int {
    block * BLOCK_MAX
}

/// The length of block `block` of a piece of `piece_size` bytes in `nblocks` blocks.
pub open spec fn block_length(block: int, nblocks: int, piece_size: int) -> int {
    if block == nblocks - 1 && piece_size % BLOCK_MAX as int != 0 {
        piece_size % BLOCK_MAX as int
    } else {
        BLOCK_MAX as int
    }
}

/// A number without what does not fit in 32 bits.
pub open spec fn low32(n: int) -> int {
    n % 0x1_0000_0000
}

/// A number without what does not fit in 32 bits.
pub fn truncate32(n: usize) -> (low: u32)
    ensures
        low == low32(n as int),
{
    let wide: u64 = n as u64;
    assert(wide as u32 == wide % 0x1_0000_0000) by (bit_vector);
    wide as u32
}

/// The number of blocks of a piece of `piece_size` bytes.
pub fn count_blocks(piece_size: usize) -> (nblocks: usize)
    requires
        piece_size + (BLOCK_MAX - 1) <= usize::MAX,
    ensures
        nblocks == blocks_in(piece_size as int),
{
    (piece_size + (BLOCK_MAX - 1)) / BLOCK_MAX
}

/// The length of block `block` of a piece of `piece_size` bytes in `nblocks` blocks.
pub fn length_of_block(block: usize, nblocks: usize, piece_size: usize) -> (length: usize)
    requires
        nblocks > 0,
    ensures
        length == block_length(block as int, nblocks as int, piece_size as int),
        0 < length <= BLOCK_MAX,
{
    if block == nblocks - 1 {
        let md: usize = piece_size % BLOCK_MAX;
        if md == 0 {
            BLOCK_MAX
        } else {
            md
        }
    } else {
        BLOCK_MAX
    }
}

/// The payload of the request for a block. The numbers go out in 32 bits each; what does
/// not fit is lost.
pub open spec fn block_request(piece_i: int, block: int, length: int) -> Seq<u8> {
    request_bytes(low32(piece_i), low32(block_start(block)), low32(length))
}

/// The request for the `length` bytes of block `block` of piece `piece_i`.
pub fn request_block(piece_i: usize, block: usize, length: usize) -> (message: Message)
    requires
        block_start(block as int) <= usize::MAX,
    ensures
        message.tag == MessageTag::Request,
        message.payload@ == block_request(piece_i as int, block as int, length as int),
{
    let mut request: Request = Request::new(
        truncate32(piece_i),
        truncate32(block * BLOCK_MAX),
        truncate32(length),
    );
    let payload: Vec<u8> = slice_to_vec(request.as_bytes_mut());
    Message { tag: MessageTag::Request, payload }
}

/// The blocks of a piece lie one behind the other: each begins where the one before it
/// ends, the first at the start of the piece, and the last ends where the piece ends. None
/// is empty, and none is longer than [`BLOCK_MAX`].
pub proof fn law_blocks_tile_the_piece(piece_size: int, block: int)
    requires
        0 < piece_size,
        0 <= block < blocks_in(piece_size),
    ensures
        ({
            let nblocks = blocks_in(piece_size);
            let end = block_start(block) + block_length(block, nblocks, piece_size);
            &&& block_start(0) == 0
            &&& 0 < block_length(block, nblocks, piece_size) <= BLOCK_MAX
            &&& block + 1 < nblocks ==> end == block_start(block + 1)
            &&& block + 1 == nblocks ==> end == piece_size
        }),
{
}

/// Every byte of a piece lies in one block, and in no other.
pub proof fn law_every_byte_is_in_one_block(piece_size: int, at: int, block: int)
    requires
        0 <= at < piece_size,
        0 <= block < blocks_in(piece_size),
    ensures
        ({
            let nblocks = blocks_in(piece_size);
            &&& 0 <= at / BLOCK_MAX as int && at / (BLOCK_MAX as int) < nblocks
            &&& block_start(block) <= at < block_start(block) + block_length(
                block,
                nblocks,
                piece_size,
            ) <==> block == at / BLOCK_MAX as int
        }),
{
    law_blocks_tile_the_piece(piece_size, block);
}

/// The lengths of the first `n` blocks of a piece, added up.
pub open spec fn lengths_sum(n: int, nblocks: int, piece_size: int) -> int
    decreases n,
{
    if n <= 0 {
        0
    } else {
        lengths_sum(n - 1, nblocks, piece_size) + block_length(n - 1, nblocks, piece_size)
    }
}

proof fn first_lengths_sum(n: int, piece_size: int)
    requires
        0 < piece_size,
        0 <= n < blocks_in(piece_size),
    ensures
        lengths_sum(n, blocks_in(piece_size), piece_size) == block_start(n),
    decreases n,
{
    if n > 0 {
        first_lengths_sum(n - 1, piece_size);
        law_blocks_tile_the_piece(piece_size, n - 1);
    }
}

/// The blocks of a piece have as many bytes as the piece.
pub proof fn law_block_lengths_add_up(piece_size: int)
    requires
        0 <= piece_size,
    ensures
        lengths_sum(blocks_in(piece_size), blocks_in(piece_size), piece_size) == piece_size,
{
    if piece_size > 0 {
        let nblocks = blocks_in(piece_size);
        first_lengths_sum(nblocks - 1, piece_size);
        law_blocks_tile_the_piece(piece_size, nblocks - 1);
    }
}

proof fn low32_keeps(n: int)
    requires
        0 <= n < 0x1_0000_0000,
    ensures
        low32(n) == n,
{
}

/// As long as a piece's index and size fit in 32 bits, the request for one of its blocks
/// says which block it is.
pub proof fn law_block_request_reads_back(piece_i: int, block: int, piece_size: int)
    requires
        0 <= piece_i < 0x1_0000_0000,
        0 < piece_size <= 0x1_0000_0000,
        0 <= block < blocks_in(piece_size),
    ensures
        ({
            let length = block_length(block, blocks_in(piece_size), piece_size);
            let payload = block_request(piece_i, block, length);
            &&& payload.len() == 12
            &&& be_value(payload.subrange(0, 4)) == piece_i
            &&& be_value(payload.subrange(4, 8)) == block_start(block)
            &&& be_value(payload.subrange(8, 12)) == length
        }),
{
    let length = block_length(block, blocks_in(piece_size), piece_size);
    assert(0 < length <= BLOCK_MAX && 0 <= block_start(block) < piece_size) by {
        law_blocks_tile_the_piece(piece_size, block);
    }
    low32_keeps(piece_i);
    low32_keeps(block_start(block));
    low32_keeps(length);
    law_request_reads_back(piece_i, block_start(block), length);
}

/// The lesser of two numbers.
pub open spec fn lesser(a: int, b: int) -> int {
    if a <= b {
        a
    } else {
        b
    }
}

/// A piece has a block for each 16384 bytes and one for what is left: block `block` is there
/// exactly where the piece has bytes from `16384 * block` on, and it has as many of them as
/// are left, but no more than 16384.
pub proof fn law_block_has_what_is_left(piece_size: int, block: int)
    requires
        0 <= piece_size,
        0 <= block,
    ensures
        block_start(block) == 16384 * block,
        block < blocks_in(piece_size) <==> 16384 * block < piece_size,
        block < blocks_in(piece_size) ==> block_length(block, blocks_in(piece_size), piece_size)
            == lesser(16384, piece_size - 16384 * block) && block_length(
            block,
            blocks_in(piece_size),
            piece_size,
        ) > 0,
{
    if block < blocks_in(piece_size) {
        law_blocks_tile_the_piece(piece_size, block);
    }
}

/// Only the last of some blocks may be shorter than 16384 bytes, and without it the piece is
/// made of whole blocks.
pub proof fn law_only_the_last_block_is_shorter(block: int, nblocks: int, piece_size: int)
    requires
        0 <= piece_size,
    ensures
        block != nblocks - 1 ==> block_length(block, nblocks, piece_size) == 16384,
        0 < block_length(block, nblocks, piece_size) <= 16384,
        block == nblocks - 1 ==> (piece_size - block_length(block, nblocks, piece_size)) % 16384
            == 0,
{
}

/// The request for a block holds the piece's index, where the block begins and its length,
/// four bytes each; each differs from the number by whole multiples of 2^32, and not at all
/// where the number is smaller than that.
pub proof fn law_request_names_the_block(piece_i: int, block: int, length: int)
    requires
        0 <= piece_i,
        0 <= block,
        0 <= length,
    ensures
        ({
            let payload = block_request(piece_i, block, length);
            &&& payload.len() == 12
            &&& (piece_i - number_at(payload, 0)) % 0x1_0000_0000 == 0
            &&& (16384 * block - number_at(payload, 4)) % 0x1_0000_0000 == 0
            &&& (length - number_at(payload, 8)) % 0x1_0000_0000 == 0
            &&& piece_i < 0x1_0000_0000 ==> number_at(payload, 0) == piece_i
            &&& 16384 * block < 0x1_0000_0000 ==> number_at(payload, 4) == 16384 * block
            &&& length < 0x1_0000_0000 ==> number_at(payload, 8) == length
        }),
{
    law_request_layout(low32(piece_i), low32(block_start(block)), low32(length));
}

/// A number that is cut to 32 bits fits in them and differs by whole multiples of 2^32.
pub proof fn law_cut_numbers(n: int)
    requires
        0 <= n,
    ensures
        0 <= low32(n) < 0x1_0000_0000,
        (n - low32(n)) % 0x1_0000_0000 == 0,
        n < 0x1_0000_0000 ==> low32(n) == n,
{
}

} // verus!
