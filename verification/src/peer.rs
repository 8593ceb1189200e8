//! A peer that pieces are downloaded from: what is decided about it, without the connection.

use vstd::prelude::*;
use vstd::slice::slice_to_vec;
use crate::bitfield::Bitfield;
use crate::blocks::{length_of_block, request_block, BLOCK_MAX};
use crate::framing::{Message, MessageTag};
use crate::wire::{Handshake, Piece};
#[allow(unused_imports)]
use crate::bitfield::{announces, witness_piece};
#[allow(unused_imports)]
use crate::blocks::{block_length, block_request, block_start};
#[allow(unused_imports)]
use crate::wire::{piece_begin, piece_block, piece_index, protocol_name};

verus! {

/// Why a peer is given up.
#[derive(Debug, Clone, Copy, PartialEq, Eq, Structural)]
pub enum PeerError {
    /// The handshake gives another length for the protocol's name.
    HandshakeLength,
    /// The handshake names another protocol.
    HandshakeProtocol,
    /// The first message is no bitfield.
    NoBitfield,
    /// The peer does not unchoke.
    NotUnchoked,
    /// The peer does not have the piece.
    PieceNotThere,
    /// The answer to a request is no piece.
    NotAPiece,
    /// A message that carries nothing has a payload.
    PayloadNotEmpty,
    /// The answer to a request is of another piece.
    OtherPiece,
    /// The answer to a request is of another block.
    OtherBlock,
    /// The answer to a request is of another length.
    OtherLength,
    /// The peer choked while it was choking.
    ChokeWhileChoked,
    /// The peer unchoked while it was not choking.
    UnchokeWhileUnchoked,
    /// A bitfield came after the first message.
    LateBitfield,
}

/// A peer after its handshake and its bitfield.
pub struct Peer {
    bitfield: Bitfield,
    choked: bool,
}

/// What the bytes of a peer's handshake say of it: nothing, or why it is given up.
pub open spec fn handshake_fault(handshake: Seq<u8>) -> Option<PeerError> {
    if handshake[0] != 19 {
        Some(PeerError::HandshakeLength)
    } else if handshake.subrange(1, 20) != protocol_name() {
        Some(PeerError::HandshakeProtocol)
    } else {
        None
    }
}

/// Whether the bytes that carry a block are those of block `block` of piece `piece_i`.
pub open spec fn carries_block(payload: Seq<u8>, piece_i: int, block: int) -> bool {
    piece_index(payload) == piece_i && piece_begin(payload) == block_start(block)
}

/// What is found of the bytes that carry a block, if block `block` of piece `piece_i` is
/// awaited, of `length` bytes: nothing, or what is wrong.
pub open spec fn block_fault(payload: Seq<u8>, piece_i: int, block: int, length: int) -> Option<
    PeerError,
> {
    if piece_index(payload) != piece_i {
        Some(PeerError::OtherPiece)
    } else if piece_begin(payload) != block_start(block) {
        Some(PeerError::OtherBlock)
    } else if piece_block(payload).len() != length {
        Some(PeerError::OtherLength)
    } else {
        None
    }
}

/// The block that a payload carries, if it is the one that is awaited.
pub fn check_block(payload: &[u8], piece_i: usize, block_i: usize, block_size: usize) -> (result:
    Result<Vec<u8>, PeerError>)
    requires
        payload@.len() >= 8,
        block_start(block_i as int) <= usize::MAX,
    ensures
        match block_fault(payload@, piece_i as int, block_i as int, block_size as int) {
            Some(e) => result matches Err(error) && error == e,
            None => result matches Ok(block) && block@ == piece_block(payload@),
        },
{
    match Piece::ref_from_bytes(payload) {
        None => Err(PeerError::NotAPiece),
        Some(piece) => if piece.index() as usize != piece_i {
            Err(PeerError::OtherPiece)
        } else if piece.begin() as usize != block_i * BLOCK_MAX {
            Err(PeerError::OtherBlock)
        } else if piece.block().len() != block_size {
            Err(PeerError::OtherLength)
        } else {
            Ok(slice_to_vec(piece.block()))
        },
    }
}

impl Peer {
    /// The bytes of the peer's bitfield.
    pub closed spec fn bits(self) -> Seq<u8> {
        self.bitfield@
    }

    /// Whether the peer is choking.
    pub closed spec fn choking(self) -> bool {
        self.choked
    }

    /// Checks the handshake that a peer answered with. The torrent that it names is not
    /// looked at.
    pub fn check_handshake(handshake: &Handshake) -> (result: Result<(), PeerError>)
        ensures
            handshake@.len() == 68,
            match handshake_fault(handshake@) {
                Some(e) => result matches Err(error) && error == e,
                None => result is Ok,
            },
    {
        if handshake.length() != 19 {
            return Err(PeerError::HandshakeLength);
        }
        if !handshake.is_bittorrent() {
            return Err(PeerError::HandshakeProtocol);
        }
        Ok(())
    }

    /// A peer that answered with `handshake` and then sent `first`, which has to be its
    /// bitfield. The peer chokes at first.
    pub fn new(handshake: &Handshake, first: Message) -> (result: Result<Peer, PeerError>)
        ensures
            match handshake_fault(handshake@) {
                Some(e) => result matches Err(error) && error == e,
                None => if first.tag == MessageTag::Bitfield {
                    result matches Ok(peer) && peer.bits() == first.payload@ && peer.choking()
                } else {
                    result matches Err(PeerError::NoBitfield)
                },
            },
    {
        match Peer::check_handshake(handshake) {
            Err(e) => Err(e),
            Ok(()) => {
                if first.tag != MessageTag::Bitfield {
                    return Err(PeerError::NoBitfield);
                }
                Ok(Peer { bitfield: Bitfield::from_payload(first.payload), choked: true })
            },
        }
    }

    /// Whether the peer has the piece, as [`Bitfield::has_piece`] says.
    pub fn has_piece(&self, piece_i: usize) -> (has: bool)
        ensures
            has == announces(self.bits(), witness_piece(piece_i as int)),
    {
        self.bitfield.has_piece(piece_i)
    }

    /// Whether the peer is choking.
    pub fn is_choking(&self) -> (choking: bool)
        ensures
            choking == self.choking(),
    {
        self.choked
    }

    /// The request for a block, if the peer has the piece.
    pub fn download(&self, piece_i: usize, block_i: usize, block_size: usize) -> (result: Result<
        Message,
        PeerError,
    >)
        requires
            announces(self.bits(), witness_piece(piece_i as int)) ==> block_start(block_i as int)
                <= usize::MAX,
        ensures
            if announces(self.bits(), witness_piece(piece_i as int)) {
                result matches Ok(message) && message.tag == MessageTag::Request
                    && message.payload@ == block_request(
                    piece_i as int,
                    block_i as int,
                    block_size as int,
                )
            } else {
                result matches Err(PeerError::PieceNotThere)
            },
    {
        if !self.has_piece(piece_i) {
            return Err(PeerError::PieceNotThere);
        }
        Ok(request_block(piece_i, block_i, block_size))
    }

    /// The block in the answer to the request of [`Peer::download`]. An answer that is no
    /// piece is refused, and so is one of another piece, another block or another length.
    pub fn download_reply(
        reply: &Message,
        piece_i: usize,
        block_i: usize,
        block_size: usize,
    ) -> (result: Result<Vec<u8>, PeerError>)
        requires
            reply.tag == MessageTag::Piece ==> reply.payload@.len() >= 8,
            block_start(block_i as int) <= usize::MAX,
        ensures
            if reply.tag != MessageTag::Piece {
                result matches Err(PeerError::NotAPiece)
            } else {
                match block_fault(
                    reply.payload@,
                    piece_i as int,
                    block_i as int,
                    block_size as int,
                ) {
                    Some(e) => result matches Err(error) && error == e,
                    None => result matches Ok(block) && block@ == piece_block(reply.payload@),
                }
            },
    {
        if reply.tag != MessageTag::Piece {
            return Err(PeerError::NotAPiece);
        }
        check_block(reply.payload.as_slice(), piece_i, block_i, block_size)
    }

    /// Sets out to download blocks of a piece from the peer: the message that says so, and
    /// the state that [`Peer::on_task`] and [`Peer::on_message`] go on from.
    pub fn partecipate(&self, piece_i: usize, piece_size: usize, nblocks: usize) -> (result: (
        Participation,
        Message,
    ))
        ensures
            result.0 == (Participation { piece_i, piece_size, nblocks, pending: None }),
            result.1.tag == MessageTag::Intrested,
            result.1.payload@ == Seq::<u8>::empty(),
    {
        (
            Participation { piece_i, piece_size, nblocks, pending: None },
            Message { tag: MessageTag::Intrested, payload: Vec::new() },
        )
    }

    /// What the peer is to be given next: the next message that comes from it, or, if it
    /// does not choke and no block is awaited, the next block to ask for.
    pub fn next_need(&self, job: &Participation) -> (need: Need)
        ensures
            need == job.need(self.choking()),
    {
        if job.pending.is_none() && !self.choked {
            Need::Task
        } else {
            Need::Message
        }
    }

    /// Asks for a block, or ends, if there is none to ask for.
    pub fn on_task(&self, job: &mut Participation, task: Option<usize>) -> (request: Option<
        Message,
    >)
        requires
            old(job).need(self.choking()) is Task,
            task is Some ==> old(job).nblocks > 0 && block_start(task->0 as int) <= usize::MAX,
        ensures
            match task {
                None => request is None && *final(job) == *old(job),
                Some(block) => {
                    &&& *final(job) == (Participation { pending: Some(block), ..*old(job) })
                    &&& request matches Some(message) && message.tag == MessageTag::Request
                        && message.payload@ == block_request(
                        old(job).piece_i as int,
                        block as int,
                        old(job).length_of(block as int),
                    )
                },
            },
    {
        match task {
            None => None,
            Some(block) => {
                job.pending = Some(block);
                let length: usize = length_of_block(block, job.nblocks, job.piece_size);
                Some(request_block(job.piece_i, block, length))
            },
        }
    }

    /// Whether [`Peer::on_message`] can be given the message.
    pub fn admits(&self, job: &Participation, message: &Message) -> (admitted: bool)
        requires
            job.pending is Some ==> job.nblocks > 0 && block_start(job.pending->0 as int)
                <= usize::MAX,
        ensures
            admitted == job.admissible(message.tag, message.payload@),
    {
        match job.pending {
            None => message.tag != MessageTag::Unchoke || message.payload.len() == 0,
            Some(block) => match message.tag {
                MessageTag::Choke => message.payload.len() == 0,
                MessageTag::Piece => match Piece::ref_from_bytes(message.payload.as_slice()) {
                    None => false,
                    Some(piece) => piece.index() as usize != job.piece_i || piece.begin() as usize
                        != block * BLOCK_MAX || piece.block().len() == length_of_block(
                        block,
                        job.nblocks,
                        job.piece_size,
                    ),
                },
                _ => true,
            },
        }
    }

    /// Takes a message from the peer.
    pub fn on_message(&mut self, job: &mut Participation, message: Message) -> (result: Result<
        Effect,
        PeerError,
    >)
        requires
            old(job).consistent(old(self).choking()),
            old(job).need(old(self).choking()) is Message,
            old(job).admissible(message.tag, message.payload@),
            old(job).pending is Some ==> block_start(old(job).pending->0 as int) <= usize::MAX,
        ensures
            final(self).bits() == old(self).bits(),
            match old(job).outcome(message.tag, message.payload@) {
                Outcome::Fails(e) => {
                    &&& result matches Err(error) && error == e
                    &&& final(self).choking() == old(self).choking()
                    &&& *final(job) == *old(job)
                },
                Outcome::Ignores => {
                    &&& result matches Ok(Effect::Nothing)
                    &&& final(self).choking() == old(self).choking()
                    &&& *final(job) == *old(job)
                },
                Outcome::Unchokes => {
                    &&& result matches Ok(Effect::Nothing)
                    &&& !final(self).choking()
                    &&& *final(job) == *old(job)
                },
                Outcome::Returns(block) => {
                    &&& result matches Ok(Effect::Resubmit(b)) && b == block
                    &&& final(self).choking()
                    &&& *final(job) == (Participation { pending: None, ..*old(job) })
                },
                Outcome::Finishes(block) => {
                    &&& result matches Ok(Effect::Finish(m)) && m == message
                    &&& !final(self).choking()
                    &&& *final(job) == (Participation { pending: None, ..*old(job) })
                },
            },
            final(job).consistent(final(self).choking()),
    {
        match job.pending {
            None => match message.tag {
                MessageTag::Unchoke => {
                    self.choked = false;
                    Ok(Effect::Nothing)
                },
                MessageTag::Choke => Err(PeerError::ChokeWhileChoked),
                MessageTag::Bitfield => Err(PeerError::LateBitfield),
                MessageTag::Have | MessageTag::Intrested | MessageTag::NotInterested
                | MessageTag::Request | MessageTag::Cancel | MessageTag::Piece => Ok(
                    Effect::Nothing,
                ),
            },
            Some(block) => match message.tag {
                MessageTag::Choke => {
                    self.choked = true;
                    job.pending = None;
                    Ok(Effect::Resubmit(block))
                },
                MessageTag::Piece => {
                    let awaited: bool = match Piece::ref_from_bytes(message.payload.as_slice()) {
                        None => false,
                        Some(piece) => piece.index() as usize == job.piece_i
                            && piece.begin() as usize == block * BLOCK_MAX,
                    };
                    if awaited {
                        job.pending = None;
                        Ok(Effect::Finish(message))
                    } else {
                        Ok(Effect::Nothing)
                    }
                },
                MessageTag::Unchoke => Err(PeerError::UnchokeWhileUnchoked),
                MessageTag::Bitfield => Err(PeerError::LateBitfield),
                MessageTag::Have | MessageTag::Intrested | MessageTag::NotInterested
                | MessageTag::Request | MessageTag::Cancel => Ok(Effect::Nothing),
            },
        }
    }
}

/// The peers that have a piece, by their places among `peers`, in ascending order.
pub fn holders_of(peers: &Vec<&Peer>, piece_i: usize) -> (holding: Vec<usize>)
    ensures
        forall|i: int, j: int| 0 <= i < j < holding@.len() ==> holding@[i] < holding@[j],
        forall|i: usize| #[trigger]
            holding@.contains(i) <==> i < peers@.len() && announces(
                peers@[i as int].bits(),
                witness_piece(piece_i as int),
            ),
{
    let mut holding: Vec<usize> = Vec::new();
    let mut peer_i: usize = 0;
    while peer_i < peers.len()
        invariant
            peer_i <= peers@.len(),
            forall|i: int, j: int| 0 <= i < j < holding@.len() ==> holding@[i] < holding@[j],
            forall|i: int| 0 <= i < holding@.len() ==> #[trigger] holding@[i] < peer_i,
            forall|i: usize| #[trigger]
                holding@.contains(i) <==> i < peer_i && announces(
                    peers@[i as int].bits(),
                    witness_piece(piece_i as int),
                ),
        decreases peers@.len() - peer_i,
    {
        let ghost before = holding@;
        if peers[peer_i].has_piece(piece_i) {
            holding.push(peer_i);
            proof {
                assert(holding@[before.len() as int] == peer_i);
                assert forall|i: usize| #[trigger] holding@.contains(i) implies before.contains(i)
                    || i == peer_i by {
                    let k = holding@.index_of(i);
                    if k < before.len() {
                        assert(before[k] == i);
                    }
                }
                assert forall|i: usize| before.contains(i) implies #[trigger] holding@.contains(
                    i,
                ) by {
                    let k = before.index_of(i);
                    assert(holding@[k] == i);
                }
                assert(holding@.contains(peer_i));
            }
        }
        peer_i = peer_i + 1;
    }
    holding
}

/// A download of blocks of one piece from one peer, and the block that is awaited, if any.
#[derive(Debug, Clone, Copy, PartialEq, Eq, Structural)]
pub struct Participation {
    pub piece_i: usize,
    pub piece_size: usize,
    pub nblocks: usize,
    pub pending: Option<usize>,
}

/// What a download from a peer is to be given next.
#[derive(Debug, Clone, Copy, PartialEq, Eq, Structural)]
pub enum Need {
    /// The next message from the peer.
    Message,
    /// The next block to ask for.
    Task,
}

/// What is to be done on account of a message.
#[derive(Debug)]
pub enum Effect {
    /// Nothing.
    Nothing,
    /// Let another peer have the block.
    Resubmit(usize),
    /// Hand on the message, which carries the block that was awaited.
    Finish(Message),
}

/// What a message does to a download.
pub enum Outcome {
    /// The peer is given up.
    Fails(PeerError),
    /// Nothing changes.
    Ignores,
    /// The peer no longer chokes.
    Unchokes,
    /// The peer chokes, and the block that was awaited goes back.
    Returns(usize),
    /// The block that was awaited is there.
    Finishes(usize),
}

impl Participation {
    /// The length of a block of the piece.
    pub open spec fn length_of(self, block: int) -> int {
        block_length(block, self.nblocks as int, self.piece_size as int)
    }

    /// What is to be given next.
    pub open spec fn need(self, choking: bool) -> Need {
        if self.pending is None && !choking {
            Need::Task
        } else {
            Need::Message
        }
    }

    /// Nothing is awaited from a peer that chokes.
    pub open spec fn consistent(self, choking: bool) -> bool {
        self.pending is Some ==> !choking
    }

    /// Whether the payload of a message is as it has to be: empty where the peer chokes or
    /// unchokes; and long enough where it carries a block, with a block of the right length
    /// if it is the one that is awaited.
    pub open spec fn admissible(self, tag: MessageTag, payload: Seq<u8>) -> bool {
        match self.pending {
            None => tag == MessageTag::Unchoke ==> payload.len() == 0,
            Some(block) => {
                &&& tag == MessageTag::Choke ==> payload.len() == 0
                &&& tag == MessageTag::Piece ==> {
                    &&& payload.len() >= 8
                    &&& carries_block(payload, self.piece_i as int, block as int)
                        ==> piece_block(payload).len() == self.length_of(block as int)
                }
            },
        }
    }

    /// What a message does.
    pub open spec fn outcome(self, tag: MessageTag, payload: Seq<u8>) -> Outcome {
        match self.pending {
            None => match tag {
                MessageTag::Unchoke => Outcome::Unchokes,
                MessageTag::Choke => Outcome::Fails(PeerError::ChokeWhileChoked),
                MessageTag::Bitfield => Outcome::Fails(PeerError::LateBitfield),
                _ => Outcome::Ignores,
            },
            Some(block) => match tag {
                MessageTag::Choke => Outcome::Returns(block),
                MessageTag::Unchoke => Outcome::Fails(PeerError::UnchokeWhileUnchoked),
                MessageTag::Bitfield => Outcome::Fails(PeerError::LateBitfield),
                MessageTag::Piece => if carries_block(payload, self.piece_i as int, block as int) {
                    Outcome::Finishes(block)
                } else {
                    Outcome::Ignores
                },
                _ => Outcome::Ignores,
            },
        }
    }
}

} // verus!
