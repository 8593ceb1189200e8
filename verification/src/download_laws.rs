//! What holds of the blocks that make up a piece, and of the pieces that make up a torrent.

use vstd::prelude::*;
#[allow(unused_imports)]
use crate::blocks::{block_length, block_start, blocks_in, law_block_lengths_add_up,
    law_blocks_tile_the_piece, law_every_byte_is_in_one_block, lengths_sum, BLOCK_MAX};
#[allow(unused_imports)]
use crate::download::{most_urgent, most_urgent_is_found, placed, Assembly, DownloadedIter,
    WantedPiece};
#[allow(unused_imports)]
use crate::wire::{piece_begin, piece_block, zeros};
#[allow(unused_imports)]
use crate::wire_laws::{law_piece_layout, number_at};

verus! {

/// Block `block` of the piece `whole`.
pub open spec fn block_of(whole: Seq<u8>, block: int) -> Seq<u8> {
    let length = block_length(block, blocks_in(whole.len() as int), whole.len() as int);
    whole.subrange(block_start(block), block_start(block) + length)
}

/// `buffer` after blocks of the piece `whole` were put into it, in the order `order`.
pub open spec fn assembled(buffer: Seq<u8>, whole: Seq<u8>, order: Seq<int>) -> Seq<u8>
    decreases order.len(),
{
    if order.len() == 0 {
        buffer
    } else {
        placed(
            assembled(buffer, whole, order.drop_last()),
            block_start(order.last()),
            block_of(whole, order.last()),
        )
    }
}

/// The bytes in the blocks of `order`, added up.
pub open spec fn bytes_in(order: Seq<int>, piece_size: int) -> int
    decreases order.len(),
{
    if order.len() == 0 {
        0
    } else {
        bytes_in(order.drop_last(), piece_size) + block_length(
            order.last(),
            blocks_in(piece_size),
            piece_size,
        )
    }
}

/// Whether `order` names blocks of a piece.
pub open spec fn names_blocks(order: Seq<int>, piece_size: int) -> bool {
    forall|i: int| 0 <= i < order.len() ==> 0 <= #[trigger] order[i] < blocks_in(piece_size)
}

/// Placing some bytes changes these and no others.
pub proof fn law_placing_changes_only_its_place(buffer: Seq<u8>, begin: int, block: Seq<u8>, at: int)
    requires
        0 <= begin,
        begin + block.len() <= buffer.len(),
        0 <= at < buffer.len(),
    ensures
        placed(buffer, begin, block).len() == buffer.len(),
        placed(buffer, begin, block)[at] == if begin <= at < begin + block.len() {
            block[at - begin]
        } else {
            buffer[at]
        },
{
}

proof fn assembled_at(buffer: Seq<u8>, whole: Seq<u8>, order: Seq<int>, at: int)
    requires
        buffer.len() == whole.len(),
        names_blocks(order, whole.len() as int),
        0 <= at < whole.len(),
    ensures
        assembled(buffer, whole, order).len() == whole.len(),
        assembled(buffer, whole, order)[at] == if order.contains(at / BLOCK_MAX as int) {
            whole[at]
        } else {
            buffer[at]
        },
    decreases order.len(),
{
    if order.len() > 0 {
        let size = whole.len() as int;
        let fewer = order.drop_last();
        let block = order.last();
        assert(block == order[order.len() - 1]);
        assert forall|i: int| 0 <= i < fewer.len() implies 0 <= #[trigger] fewer[i] < blocks_in(
            size,
        ) by {
            assert(fewer[i] == order[i]);
        }
        assembled_at(buffer, whole, fewer, at);
        let before = assembled(buffer, whole, fewer);
        law_blocks_tile_the_piece(size, block);
        law_every_byte_is_in_one_block(size, at, block);
        let end = block_start(block) + block_length(block, blocks_in(size), size);
        assert(0 <= block_start(block) && end <= size) by {
            block_ends_inside(size, block);
        }
        law_placing_changes_only_its_place(before, block_start(block), block_of(whole, block), at);
        let own = at / BLOCK_MAX as int;
        if order.contains(own) {
            let i = order.index_of(own);
            if i < fewer.len() {
                assert(fewer[i] == own);
            }
        }
        if fewer.contains(own) {
            let i = fewer.index_of(own);
            assert(order[i] == own);
        }
    }
}

proof fn block_ends_inside(piece_size: int, block: int)
    requires
        0 < piece_size,
        0 <= block < blocks_in(piece_size),
    ensures
        0 <= block_start(block),
        block_start(block) + block_length(block, blocks_in(piece_size), piece_size) <= piece_size,
{
    law_blocks_tile_the_piece(piece_size, block);
    if block + 1 < blocks_in(piece_size) {
        law_blocks_tile_the_piece(piece_size, block + 1);
    }
}

/// Once every block of a piece has been put into a buffer of the piece's length, in any
/// order, the buffer holds the piece, whatever it held before.
pub proof fn law_blocks_make_up_the_piece(buffer: Seq<u8>, whole: Seq<u8>, order: Seq<int>)
    requires
        buffer.len() == whole.len(),
        names_blocks(order, whole.len() as int),
        forall|block: int|
            0 <= block < blocks_in(whole.len() as int) ==> #[trigger] order.contains(block),
    ensures
        assembled(buffer, whole, order) == whole,
{
    if whole.len() == 0 {
        if order.len() > 0 {
            assert(0 <= order[0] < blocks_in(0));
        }
        assert(assembled(buffer, whole, order) =~= whole);
    } else {
        assembled_at(buffer, whole, order, 0);
        assert forall|at: int| 0 <= at < whole.len() implies assembled(buffer, whole, order)[at]
            == whole[at] by {
            assembled_at(buffer, whole, order, at);
            law_every_byte_is_in_one_block(whole.len() as int, at, 0);
            assert(order.contains(at / BLOCK_MAX as int));
        }
        assert(assembled(buffer, whole, order) =~= whole);
    }
}

proof fn bytes_without(order: Seq<int>, i: int, piece_size: int)
    requires
        0 <= i < order.len(),
    ensures
        bytes_in(order, piece_size) == bytes_in(order.remove(i), piece_size) + block_length(
            order[i],
            blocks_in(piece_size),
            piece_size,
        ),
    decreases order.len(),
{
    if i == order.len() - 1 {
        assert(order.remove(i) =~= order.drop_last());
    } else {
        bytes_without(order.drop_last(), i, piece_size);
        assert(order.drop_last().remove(i) =~= order.remove(i).drop_last());
        assert(order.remove(i).last() == order.last());
    }
}

proof fn bytes_of_some(order: Seq<int>, n: int, piece_size: int)
    requires
        0 <= n <= blocks_in(piece_size),
        0 < piece_size,
        order.no_duplicates(),
        forall|i: int| 0 <= i < order.len() ==> 0 <= #[trigger] order[i] < n,
    ensures
        bytes_in(order, piece_size) <= lengths_sum(n, blocks_in(piece_size), piece_size),
        (forall|block: int| 0 <= block < n ==> #[trigger] order.contains(block)) ==> bytes_in(
            order,
            piece_size,
        ) == lengths_sum(n, blocks_in(piece_size), piece_size),
    decreases n,
{
    if n == 0 {
        if order.len() > 0 {
            assert(0 <= order[0] < 0);
        }
    } else {
        law_blocks_tile_the_piece(piece_size, n - 1);
        if order.contains(n - 1) {
            let at = order.index_of(n - 1);
            let rest = order.remove(at);
            assert forall|i: int| 0 <= i < rest.len() implies 0 <= #[trigger] rest[i] < n - 1 by {
                let j = if i < at { i } else { i + 1 };
                assert(rest[i] == order[j]);
                assert(order[j] != order[at]);
            }
            assert(rest.no_duplicates()) by {
                assert forall|i: int, j: int| 0 <= i < rest.len() && 0 <= j < rest.len() && i
                    != j implies rest[i] != rest[j] by {
                    let a = if i < at { i } else { i + 1 };
                    let b = if j < at { j } else { j + 1 };
                    assert(rest[i] == order[a] && rest[j] == order[b]);
                }
            }
            bytes_of_some(rest, n - 1, piece_size);
            bytes_without(order, at, piece_size);
            if forall|block: int| 0 <= block < n ==> #[trigger] order.contains(block) {
                assert forall|block: int| 0 <= block < n - 1 implies #[trigger] rest.contains(
                    block,
                ) by {
                    assert(order.contains(block));
                    let k = order.index_of(block);
                    assert(rest[if k < at { k } else { k - 1 }] == block);
                }
            }
        } else {
            assert forall|i: int| 0 <= i < order.len() implies 0 <= #[trigger] order[i] < n
                - 1 by {
                if order[i] == n - 1 {
                    assert(order.contains(n - 1));
                }
            }
            bytes_of_some(order, n - 1, piece_size);
            assert(0 <= n - 1 < n && !order.contains(n - 1));
        }
    }
}

/// Counting bytes tells when a piece is there: as long as no block comes twice, as many
/// bytes have arrived as the piece has if and only if every block has.
pub proof fn law_byte_count_tells_the_end(order: Seq<int>, piece_size: int)
    requires
        0 < piece_size,
        order.no_duplicates(),
        names_blocks(order, piece_size),
    ensures
        bytes_in(order, piece_size) <= piece_size,
        bytes_in(order, piece_size) == piece_size <==> forall|block: int|
            0 <= block < blocks_in(piece_size) ==> #[trigger] order.contains(block),
{
    let n = blocks_in(piece_size);
    law_block_lengths_add_up(piece_size);
    bytes_of_some(order, n, piece_size);
    if exists|block: int| 0 <= block < n && !#[trigger] order.contains(block) {
        let block = choose|block: int| 0 <= block < n && !#[trigger] order.contains(block);
        let more = order.push(block);
        assert forall|i: int| 0 <= i < more.len() implies 0 <= #[trigger] more[i] < n by {
            if i < order.len() {
                assert(more[i] == order[i]);
            }
        }
        assert(more.no_duplicates()) by {
            assert forall|i: int, j: int| 0 <= i < more.len() && 0 <= j < more.len() && i
                != j implies more[i] != more[j] by {
                if i < order.len() {
                    assert(order.contains(order[i]));
                }
                if j < order.len() {
                    assert(order.contains(order[j]));
                }
            }
        }
        bytes_of_some(more, n, piece_size);
        assert(more.drop_last() =~= order);
        law_blocks_tile_the_piece(piece_size, block);
    }
}

/// A block that is delivered is admitted, as long as it has not been before: with the blocks
/// of `order` there, block `block` of the piece `whole` has a place among them, and putting
/// it there gives what the blocks of `order` and then this one give.
pub proof fn law_delivered_block_is_admitted(
    assembly: Assembly,
    whole: Seq<u8>,
    order: Seq<int>,
    block: int,
    payload: Seq<u8>,
)
    requires
        0 < whole.len() <= usize::MAX,
        order.no_duplicates(),
        names_blocks(order, whole.len() as int),
        assembly.blocks() == assembled(zeros(whole.len()), whole, order),
        assembly.received() == bytes_in(order, whole.len() as int),
        0 <= block < blocks_in(whole.len() as int),
        !order.contains(block),
        payload.len() >= 8,
        piece_begin(payload) == block_start(block),
        piece_block(payload) == block_of(whole, block),
    ensures
        assembly.takes(payload),
        placed(assembly.blocks(), piece_begin(payload), piece_block(payload)) == assembled(
            zeros(whole.len()),
            whole,
            order.push(block),
        ),
        assembly.received() + piece_block(payload).len() == bytes_in(
            order.push(block),
            whole.len() as int,
        ),
        order.push(block).no_duplicates(),
        names_blocks(order.push(block), whole.len() as int),
{
    let size = whole.len() as int;
    let more = order.push(block);
    assert(more.drop_last() =~= order);
    assert forall|i: int| 0 <= i < more.len() implies 0 <= #[trigger] more[i] < blocks_in(size) by {
        if i < order.len() {
            assert(more[i] == order[i]);
        }
    }
    assert forall|i: int, j: int| 0 <= i < more.len() && 0 <= j < more.len() && i
        != j implies more[i] != more[j] by {
        if i < order.len() {
            assert(order.contains(order[i]));
        }
        if j < order.len() {
            assert(order.contains(order[j]));
        }
    }
    assembled_at(zeros(whole.len()), whole, order, 0);
    block_ends_inside(size, block);
    law_blocks_tile_the_piece(size, block);
    law_byte_count_tells_the_end(more, size);
}

/// Pieces do not disturb each other: what one was stored as stays when another is stored
/// that lies elsewhere.
pub proof fn law_stored_pieces_stay(
    all: Seq<u8>,
    plength: int,
    a: int,
    first: Seq<u8>,
    b: int,
    second: Seq<u8>,
)
    requires
        0 <= a,
        0 <= b,
        a != b,
        first.len() <= plength,
        second.len() <= plength,
        a * plength + first.len() <= all.len(),
        b * plength + second.len() <= all.len(),
    ensures
        ({
            let stored = placed(placed(all, a * plength, first), b * plength, second);
            &&& stored.len() == all.len()
            &&& stored.subrange(a * plength, a * plength + first.len()) == first
            &&& stored.subrange(b * plength, b * plength + second.len()) == second
        }),
{
    assert(0 <= a * plength && 0 <= b * plength) by (nonlinear_arith)
        requires
            0 <= a,
            0 <= b,
            0 <= plength,
    ;
    assert(a < b ==> a * plength + plength <= b * plength) by (nonlinear_arith)
        requires
            0 <= plength,
    ;
    assert(b < a ==> b * plength + plength <= a * plength) by (nonlinear_arith)
        requires
            0 <= plength,
    ;
    let middle = placed(all, a * plength, first);
    let stored = placed(middle, b * plength, second);
    assert(middle.len() == all.len());
    assert(stored.subrange(a * plength, a * plength + first.len()) =~= first);
    assert(stored.subrange(b * plength, b * plength + second.len()) =~= second);
}

/// The piece that comes next is of a rank that none exceeds, and no piece before it has that
/// rank.
pub proof fn law_next_piece_is_most_urgent(pieces: Seq<WantedPiece>, i: int)
    requires
        0 <= i < pieces.len(),
    ensures
        0 <= most_urgent(pieces) < pieces.len(),
        pieces[i].rank <= pieces[most_urgent(pieces)].rank,
        i < most_urgent(pieces) ==> pieces[i].rank < pieces[most_urgent(pieces)].rank,
{
    most_urgent_is_found(pieces);
}

/// A payload is taken exactly where it has its two numbers and its block lies inside the
/// piece, as long as the bytes that arrived can be counted.
pub proof fn law_blocks_inside_the_piece_are_taken(assembly: Assembly, payload: Seq<u8>)
    ensures
        payload.len() < 8 ==> !assembly.takes(payload),
        payload.len() >= 8 ==> (assembly.takes(payload) <==> number_at(payload, 4) + payload.len()
            - 8 <= assembly.blocks().len() && assembly.received() + payload.len() - 8
            <= usize::MAX),
{
    if payload.len() >= 8 {
        law_piece_layout(payload, 0);
    }
}

/// A piece can be stored exactly where it is not whole, in which case it is not, or its bytes
/// are as many as it has and lie inside the torrent.
pub proof fn law_pieces_inside_the_torrent_are_stored(
    assembly: Assembly,
    index: int,
    plength: int,
    all_pieces: Seq<u8>,
)
    ensures
        assembly.received() != assembly.size() ==> assembly.storable(index, plength, all_pieces),
        assembly.received() == assembly.size() ==> (assembly.storable(index, plength, all_pieces)
            <==> assembly.blocks().len() == assembly.size() && index * plength + assembly.size()
            <= all_pieces.len()),
{
}

/// There is a next file exactly where not all files have come and its bytes are there.
pub proof fn law_next_file_is_there(files: DownloadedIter)
    ensures
        files.has_next() <==> files.position() < files.source().list().len() && files.start()
            + files.source().list()[files.position() as int].length
            <= files.source().content().len(),
{
}

} // verus!
