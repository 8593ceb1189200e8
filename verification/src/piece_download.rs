//! The download of one piece from one peer, block after block.

use vstd::prelude::*;
use crate::blocks::{count_blocks, length_of_block, request_block, BLOCK_MAX};
use crate::digest::matches_hash;
use crate::framing::{Message, MessageTag};
use crate::peer::{check_block, PeerError};
#[allow(unused_imports)]
use crate::blocks::{block_length, block_request, block_start, blocks_in,
    law_block_has_what_is_left, law_blocks_tile_the_piece, law_request_names_the_block, lesser};
#[allow(unused_imports)]
use crate::digest::sha1_of;
#[allow(unused_imports)]
use crate::download_laws::block_of;
#[allow(unused_imports)]
use crate::peer::block_fault;
#[allow(unused_imports)]
use crate::peer_laws::law_faults_of_answers;
#[allow(unused_imports)]
use crate::wire::piece_block;
#[allow(unused_imports)]
use crate::wire_laws::number_at;

verus! {

/// What the peer is to send next.
#[derive(Debug, Clone, Copy, PartialEq, Eq, Structural)]
pub enum Stage {
    /// Its bitfield.
    Bitfield,
    /// That it no longer chokes.
    Unchoke,
    /// The blocks.
    Blocks,
}

/// The download of one piece from one peer.
pub struct PieceDownload {
    stage: Stage,
    piece_i: usize,
    piece_size: usize,
    hash: [u8; 20],
    nblocks: usize,
    next_block: usize,
    all_blocks: Vec<u8>,
}

impl PieceDownload {
    /// What the peer is to send next.
    pub closed spec fn stage(self) -> Stage {
        self.stage
    }

    /// The index of the piece.
    pub closed spec fn index(self) -> int {
        self.piece_i as int
    }

    /// The size of the piece.
    pub closed spec fn size(self) -> int {
        self.piece_size as int
    }

    /// The hash of the piece.
    pub closed spec fn hash(self) -> Seq<u8> {
        self.hash@
    }

    /// The number of blocks that have arrived.
    pub closed spec fn arrived(self) -> int {
        self.next_block as int
    }

    /// The blocks that have arrived, one behind the other.
    pub closed spec fn content(self) -> Seq<u8> {
        self.all_blocks@
    }

    /// Whether the blocks that have arrived are the first ones of the piece, as far as their
    /// number and their lengths tell.
    pub closed spec fn well_formed(self) -> bool {
        &&& self.nblocks == blocks_in(self.piece_size as int)
        &&& self.piece_size + (BLOCK_MAX - 1) <= usize::MAX
        &&& self.next_block <= self.nblocks
        &&& self.stage != Stage::Blocks ==> self.next_block == 0
        &&& self.all_blocks@.len() == first_blocks(self.next_block as int, self.piece_size as int)
    }

    /// The length of the block that comes next.
    pub open spec fn next_length(self) -> int {
        block_length(self.arrived(), blocks_in(self.size()), self.size())
    }

    /// Whether all blocks have arrived.
    pub open spec fn is_done(self) -> bool {
        self.stage() == Stage::Blocks && self.arrived() == blocks_in(self.size())
    }

    /// Whether `request` asks for the block that comes next, or is none if there is none.
    pub open spec fn asks_next(self, request: Option<Message>) -> bool {
        if self.arrived() < blocks_in(self.size()) {
            request matches Some(message) && message.tag == MessageTag::Request
                && message.payload@ == block_request(
                self.index(),
                self.arrived(),
                self.next_length(),
            )
        } else {
            request is None
        }
    }

    /// What is wrong with a message, if it is not the one that is to come.
    pub open spec fn fault(self, tag: MessageTag, payload: Seq<u8>) -> Option<PeerError> {
        match self.stage() {
            Stage::Bitfield => if tag == MessageTag::Bitfield {
                None
            } else {
                Some(PeerError::NoBitfield)
            },
            Stage::Unchoke => if tag != MessageTag::Unchoke {
                Some(PeerError::NotUnchoked)
            } else if payload.len() > 0 {
                Some(PeerError::PayloadNotEmpty)
            } else {
                None
            },
            Stage::Blocks => block_fault(
                payload,
                self.index(),
                self.arrived(),
                self.next_length(),
            ),
        }
    }

    /// The download of piece `piece_i` of a torrent in pieces of `plength` bytes that have
    /// these hashes. As many bytes are asked for of the last piece as of any other.
    pub fn new(piece_i: usize, hashes: &Vec<[u8; 20]>, plength: usize) -> (download: PieceDownload)
        requires
            piece_i < hashes@.len(),
            plength + (BLOCK_MAX - 1) <= usize::MAX,
        ensures
            download.well_formed(),
            download.stage() == Stage::Bitfield,
            download.index() == piece_i,
            download.size() == plength,
            download.hash() == hashes@[piece_i as int]@,
            download.arrived() == 0,
            download.content() == Seq::<u8>::empty(),
    {
        PieceDownload {
            stage: Stage::Bitfield,
            piece_i,
            piece_size: plength,
            hash: hashes[piece_i],
            nblocks: count_blocks(plength),
            next_block: 0,
            all_blocks: Vec::with_capacity(plength),
        }
    }

    fn next_request(&self) -> (request: Option<Message>)
        requires
            self.well_formed(),
        ensures
            self.asks_next(request),
    {
        if self.next_block == self.nblocks {
            return None;
        }
        proof {
            law_blocks_tile_the_piece(self.size(), self.arrived());
        }
        let length: usize = length_of_block(self.next_block, self.nblocks, self.piece_size);
        Some(request_block(self.piece_i, self.next_block, length))
    }

    /// Takes the next message from the peer, and gives the one that is to be sent to it, if
    /// any. At the time of the blocks only the payload is looked at, not the tag.
    pub fn on_message(&mut self, message: &Message) -> (result: Result<Option<Message>, PeerError>)
        requires
            old(self).well_formed(),
            !old(self).is_done(),
            old(self).stage() == Stage::Blocks ==> message.payload@.len() >= 8,
        ensures
            final(self).well_formed(),
            final(self).index() == old(self).index(),
            final(self).size() == old(self).size(),
            final(self).hash() == old(self).hash(),
            match old(self).fault(message.tag, message.payload@) {
                Some(e) => {
                    &&& result matches Err(error) && error == e
                    &&& *final(self) == *old(self)
                },
                None => match old(self).stage() {
                    Stage::Bitfield => {
                        &&& result matches Ok(Some(reply)) && reply.tag == MessageTag::Intrested
                            && reply.payload@ == Seq::<u8>::empty()
                        &&& final(self).stage() == Stage::Unchoke
                        &&& final(self).arrived() == old(self).arrived()
                        &&& final(self).content() == old(self).content()
                    },
                    Stage::Unchoke => {
                        &&& result matches Ok(request) && final(self).asks_next(request)
                        &&& final(self).stage() == Stage::Blocks
                        &&& final(self).arrived() == old(self).arrived()
                        &&& final(self).content() == old(self).content()
                    },
                    Stage::Blocks => {
                        &&& result matches Ok(request) && final(self).asks_next(request)
                        &&& final(self).stage() == Stage::Blocks
                        &&& final(self).arrived() == old(self).arrived() + 1
                        &&& final(self).content() == old(self).content() + piece_block(
                            message.payload@,
                        )
                    },
                },
            },
    {
        match self.stage {
            Stage::Bitfield => {
                if message.tag != MessageTag::Bitfield {
                    return Err(PeerError::NoBitfield);
                }
                self.stage = Stage::Unchoke;
                Ok(Some(Message { tag: MessageTag::Intrested, payload: Vec::new() }))
            },
            Stage::Unchoke => {
                if message.tag != MessageTag::Unchoke {
                    return Err(PeerError::NotUnchoked);
                }
                if !message.payload.is_empty() {
                    return Err(PeerError::PayloadNotEmpty);
                }
                self.stage = Stage::Blocks;
                Ok(self.next_request())
            },
            Stage::Blocks => {
                proof {
                    law_blocks_tile_the_piece(self.size(), self.arrived());
                }
                let length: usize = length_of_block(self.next_block, self.nblocks, self.piece_size);
                match check_block(
                    message.payload.as_slice(),
                    self.piece_i,
                    self.next_block,
                    length,
                ) {
                    Err(e) => Err(e),
                    Ok(block) => {
                        self.all_blocks.extend_from_slice(block.as_slice());
                        self.next_block = self.next_block + 1;
                        proof {
                            assert(self.content() =~= old(self).content() + piece_block(
                                message.payload@,
                            ));
                        }
                        Ok(self.next_request())
                    },
                }
            },
        }
    }

    /// What the peer is to send next, if anything is left to come.
    pub fn awaits(&self) -> (stage: Option<Stage>)
        requires
            self.well_formed(),
        ensures
            stage == if self.is_done() {
                None::<Stage>
            } else {
                Some(self.stage())
            },
    {
        match self.stage {
            Stage::Blocks => if self.next_block == self.nblocks {
                None
            } else {
                Some(Stage::Blocks)
            },
            stage => Some(stage),
        }
    }

    /// The piece, if what has arrived has its hash.
    pub fn finish(self) -> (piece: Option<Vec<u8>>)
        requires
            self.well_formed(),
            self.is_done(),
        ensures
            piece is Some <==> sha1_of(self.content()) == self.hash(),
            piece is Some ==> piece->0@ == self.content() && piece->0@.len() == self.size(),
    {
        proof {
            law_done_download_is_as_long_as_the_piece(self);
        }
        if matches_hash(self.all_blocks.as_slice(), &self.hash) {
            Some(self.all_blocks)
        } else {
            None
        }
    }
}

/// The number of bytes in the first `n` blocks of a piece.
pub open spec fn first_blocks(n: int, piece_size: int) -> int {
    if n < blocks_in(piece_size) {
        block_start(n)
    } else {
        piece_size
    }
}

/// Once all blocks have arrived, there are as many bytes as the piece has.
pub proof fn law_done_download_is_as_long_as_the_piece(download: PieceDownload)
    requires
        download.well_formed(),
        download.is_done(),
    ensures
        download.content().len() == download.size(),
{
}

/// The first `n` blocks of the piece `whole`, one behind the other.
pub open spec fn blocks_up_to(whole: Seq<u8>, n: int) -> Seq<u8>
    decreases n,
{
    if n <= 0 {
        seq![]
    } else {
        blocks_up_to(whole, n - 1) + block_of(whole, n - 1)
    }
}

/// The blocks of a piece, one behind the other, are the piece.
pub proof fn law_blocks_in_order_are_the_piece(whole: Seq<u8>, n: int)
    requires
        0 <= n <= blocks_in(whole.len() as int),
    ensures
        blocks_up_to(whole, n) == whole.take(first_blocks(n, whole.len() as int)),
        n == blocks_in(whole.len() as int) ==> blocks_up_to(whole, n) == whole,
    decreases n,
{
    let size = whole.len() as int;
    if n == 0 {
        assert(whole.take(0) =~= Seq::<u8>::empty());
        if blocks_in(size) == 0 {
            assert(size == 0);
            assert(whole.take(0) =~= whole);
        }
    } else {
        law_blocks_in_order_are_the_piece(whole, n - 1);
        law_blocks_tile_the_piece(size, n - 1);
        assert(first_blocks(n - 1, size) == block_start(n - 1));
        let end = block_start(n - 1) + block_length(n - 1, blocks_in(size), size);
        assert(end == first_blocks(n, size));
        if n < blocks_in(size) {
            law_blocks_tile_the_piece(size, n);
        }
        assert(end <= size);
        assert(blocks_up_to(whole, n) =~= whole.take(end));
        assert(whole.take(size) =~= whole);
    }
}

/// The requests cover the piece: while bytes are missing, the request asks for the bytes of
/// the piece that come right behind those that are there, as many as are left but no more
/// than 16384, and at least one. Once none is missing, nothing is asked for. Numbers that are
/// too large for four bytes are off by whole multiples of 2^32.
pub proof fn law_request_asks_for_what_is_missing(download: PieceDownload, request: Option<Message>)
    requires
        download.well_formed(),
        download.asks_next(request),
    ensures
        request is Some <==> download.content().len() < download.size(),
        request matches Some(message) ==> {
            let there = download.content().len() as int;
            &&& message.tag == MessageTag::Request
            &&& message.payload@.len() == 12
            &&& (download.index() - number_at(message.payload@, 0)) % 0x1_0000_0000 == 0
            &&& (there - number_at(message.payload@, 4)) % 0x1_0000_0000 == 0
            &&& number_at(message.payload@, 8) == lesser(16384, download.size() - there)
            &&& number_at(message.payload@, 8) > 0
            &&& download.index() < 0x1_0000_0000 ==> number_at(message.payload@, 0)
                == download.index()
            &&& there < 0x1_0000_0000 ==> number_at(message.payload@, 4) == there
        },
{
    law_block_has_what_is_left(download.size(), download.arrived());
    if download.arrived() < blocks_in(download.size()) {
        law_request_names_the_block(
            download.index(),
            download.arrived(),
            download.next_length(),
        );
    }
}

/// An answer is found faultless exactly where it is of the piece, begins right behind the
/// bytes that are there, and has as many bytes as are left, but no more than 16384. Else the
/// fault is the first of these that does not hold.
pub proof fn law_next_answer_is_taken(download: PieceDownload, tag: MessageTag, payload: Seq<u8>)
    requires
        download.well_formed(),
        download.stage() == Stage::Blocks,
        !download.is_done(),
        payload.len() >= 8,
    ensures
        ({
            let there = download.content().len() as int;
            let fault = download.fault(tag, payload);
            let of_piece = number_at(payload, 0) == download.index();
            let behind = number_at(payload, 4) == there;
            let long = payload.len() - 8 == lesser(16384, download.size() - there);
            &&& fault is None <==> of_piece && behind && long
            &&& fault == Some(PeerError::OtherPiece) <==> !of_piece
            &&& fault == Some(PeerError::OtherBlock) <==> of_piece && !behind
            &&& fault == Some(PeerError::OtherLength) <==> of_piece && behind && !long
        }),
{
    law_block_has_what_is_left(download.size(), download.arrived());
    law_faults_of_answers(
        payload,
        download.index(),
        download.arrived(),
        download.next_length(),
    );
}

/// The answer to a request is taken by the download that sent it: an answer is found
/// faultless exactly where it has the piece, the begin and the length that the request names.
pub proof fn law_answer_to_the_request_is_taken(
    download: PieceDownload,
    request: Message,
    tag: MessageTag,
    payload: Seq<u8>,
)
    requires
        download.well_formed(),
        download.stage() == Stage::Blocks,
        download.asks_next(Some(request)),
        download.index() < 0x1_0000_0000,
        download.content().len() < 0x1_0000_0000,
        payload.len() >= 8,
    ensures
        download.fault(tag, payload) is None <==> number_at(payload, 0) == number_at(
            request.payload@,
            0,
        ) && number_at(payload, 4) == number_at(request.payload@, 4) && payload.len() - 8
            == number_at(request.payload@, 8),
{
    law_request_asks_for_what_is_missing(download, Some(request));
    law_done_when_no_byte_is_missing(download);
    law_next_answer_is_taken(download, tag, payload);
}

/// Of the two messages before the blocks, the first has to be a bitfield, whatever it holds,
/// and the second an unchoke that holds nothing.
pub proof fn law_messages_before_the_blocks(
    download: PieceDownload,
    tag: MessageTag,
    payload: Seq<u8>,
)
    ensures
        download.stage() == Stage::Bitfield ==> (download.fault(tag, payload) is None <==> tag
            == MessageTag::Bitfield) && (tag != MessageTag::Bitfield ==> download.fault(
            tag,
            payload,
        ) == Some(PeerError::NoBitfield)),
        download.stage() == Stage::Unchoke ==> (download.fault(tag, payload) is None <==> tag
            == MessageTag::Unchoke && payload.len() == 0) && (tag != MessageTag::Unchoke
            ==> download.fault(tag, payload) == Some(PeerError::NotUnchoked)) && (tag
            == MessageTag::Unchoke && payload.len() > 0 ==> download.fault(tag, payload) == Some(
            PeerError::PayloadNotEmpty,
        )),
{
}

/// A download is done exactly where it is at the blocks and no byte is missing.
pub proof fn law_done_when_no_byte_is_missing(download: PieceDownload)
    requires
        download.well_formed(),
    ensures
        download.is_done() <==> download.stage() == Stage::Blocks && download.content().len()
            == download.size(),
        download.content().len() <= download.size(),
{
    law_block_has_what_is_left(download.size(), download.arrived());
}

/// With each answer the start of the piece grows: if what is there is the start of `whole`
/// and the answer carries the bytes of `whole` from its begin on, what is there then is a
/// longer start of `whole`, and all of it once no byte is missing.
pub proof fn law_answers_make_up_the_piece(
    download: PieceDownload,
    whole: Seq<u8>,
    tag: MessageTag,
    payload: Seq<u8>,
)
    requires
        download.well_formed(),
        !download.is_done(),
        download.stage() == Stage::Blocks,
        whole.len() == download.size(),
        download.content() == whole.take(download.content().len() as int),
        payload.len() >= 8,
        download.fault(tag, payload) is None,
        forall|j: int|
            8 <= j < payload.len() ==> #[trigger] payload[j] == whole[number_at(payload, 4) + j
                - 8],
    ensures
        ({
            let more = download.content() + piece_block(payload);
            &&& download.content().len() < more.len() <= whole.len()
            &&& more == whole.take(more.len() as int)
            &&& more.len() == whole.len() ==> more == whole
        }),
{
    law_block_has_what_is_left(download.size(), download.arrived());
    law_faults_of_answers(
        payload,
        download.index(),
        download.arrived(),
        download.next_length(),
    );
    let start = download.content().len() as int;
    assert(number_at(payload, 4) == start);
    let more = download.content() + piece_block(payload);
    assert forall|i: int| 0 <= i < more.len() implies more[i] == whole[i] by {
        if i >= start {
            let j = i - start;
            assert(piece_block(payload)[j] == payload[8 + j]);
            assert(payload[8 + j] == whole[number_at(payload, 4) + (8 + j) - 8]);
        } else {
            assert(whole.take(start)[i] == whole[i]);
        }
    }
    assert(more =~= whole.take(more.len() as int));
    if more.len() == whole.len() {
        assert(more =~= whole);
    }
}

} // verus!
