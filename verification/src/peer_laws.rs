//! What holds of every download from a peer, whatever the peer sends.

use vstd::prelude::*;
#[allow(unused_imports)]
use vstd::multiset::Multiset;
#[allow(unused_imports)]
use crate::big_endian::{be_bytes, be_bytes_then_value};
#[allow(unused_imports)]
use crate::blocks::{block_request, block_start, blocks_in, law_block_has_what_is_left,
    law_only_the_last_block_is_shorter, law_request_names_the_block, lesser};
#[allow(unused_imports)]
use crate::framing::MessageTag;
#[allow(unused_imports)]
use crate::peer::{block_fault, Outcome, Participation, PeerError};
#[allow(unused_imports)]
use crate::wire::{piece_begin, piece_block, piece_index};
#[allow(unused_imports)]
use crate::wire_laws::{law_piece_layout, number_at};

verus! {

/// What a download from a peer is given.
pub enum Event {
    /// A block to ask for.
    Task(usize),
    /// A message from the peer.
    Message(MessageTag, Seq<u8>),
}

/// A download from a peer, and the blocks that went through it.
pub struct Run {
    pub job: Participation,
    pub choking: bool,
    /// The blocks that it was given to ask for.
    pub taken: Multiset<usize>,
    /// The blocks that arrived.
    pub finished: Multiset<usize>,
    /// The blocks that went back, for another peer to ask for.
    pub returned: Multiset<usize>,
    /// Whether the peer was given up.
    pub failed: bool,
}

/// The block that is awaited, if any.
pub open spec fn awaited(job: Participation) -> Multiset<usize> {
    match job.pending {
        None => Multiset::empty(),
        Some(block) => Multiset::singleton(block),
    }
}

impl Run {
    /// A download that nothing has happened in.
    pub open spec fn start(job: Participation, choking: bool) -> Run {
        Run {
            job: Participation { pending: None, ..job },
            choking,
            taken: Multiset::empty(),
            finished: Multiset::empty(),
            returned: Multiset::empty(),
            failed: false,
        }
    }

    /// The download after an event, which is what it needs.
    pub open spec fn after(self, event: Event) -> Run {
        match event {
            _ if self.failed => self,
            Event::Task(block) => if self.job.need(self.choking) is Task {
                Run {
                    job: Participation { pending: Some(block), ..self.job },
                    taken: self.taken.insert(block),
                    ..self
                }
            } else {
                self
            },
            Event::Message(tag, payload) => if self.job.need(self.choking) is Message {
                match self.job.outcome(tag, payload) {
                    Outcome::Fails(_) => Run { failed: true, ..self },
                    Outcome::Ignores => self,
                    Outcome::Unchokes => Run { choking: false, ..self },
                    Outcome::Returns(block) => Run {
                        job: Participation { pending: None, ..self.job },
                        choking: true,
                        returned: self.returned.insert(block),
                        ..self
                    },
                    Outcome::Finishes(block) => Run {
                        job: Participation { pending: None, ..self.job },
                        finished: self.finished.insert(block),
                        ..self
                    },
                }
            } else {
                self
            },
        }
    }

    /// The download after several events.
    pub open spec fn after_all(self, events: Seq<Event>) -> Run
        decreases events.len(),
    {
        if events.len() == 0 {
            self
        } else {
            self.after_all(events.drop_last()).after(events.last())
        }
    }
}

/// No block is lost and none comes twice: each that was taken has arrived, has gone back, or
/// is still awaited. Nothing is awaited from a peer that chokes. The piece stays the same.
pub proof fn law_no_block_is_lost(job: Participation, choking: bool, events: Seq<Event>)
    ensures
        ({
            let run = Run::start(job, choking).after_all(events);
            &&& run.taken == run.finished.add(run.returned).add(awaited(run.job))
            &&& run.job.consistent(run.choking)
            &&& run.job == (Participation { pending: run.job.pending, ..job })
        }),
    decreases events.len(),
{
    let start = Run::start(job, choking);
    let run = start.after_all(events);
    if events.len() == 0 {
        assert(run.taken =~= run.finished.add(run.returned).add(awaited(run.job)));
    } else {
        law_no_block_is_lost(job, choking, events.drop_last());
        let before = start.after_all(events.drop_last());
        assert(run == before.after(events.last()));
        assert(run.taken =~= run.finished.add(run.returned).add(awaited(run.job)));
    }
}

/// A block is asked for only of a peer that does not choke and has not been given up, and
/// only while no other block is awaited.
pub proof fn law_asks_only_when_unchoked(run: Run, event: Event)
    requires
        run.after(event).taken != run.taken,
    ensures
        event is Task,
        !run.choking,
        !run.failed,
        run.job.pending is None,
        run.after(event).taken == run.taken.insert(event->Task_0),
        run.after(event).job.pending == Some(event->Task_0),
{
}

/// A message that finishes a block is of the piece, begins where the block begins and is as
/// long as the block.
pub proof fn law_finished_block_is_the_awaited_one(
    job: Participation,
    tag: MessageTag,
    payload: Seq<u8>,
)
    requires
        job.admissible(tag, payload),
        job.outcome(tag, payload) is Finishes,
    ensures
        tag == MessageTag::Piece,
        job.pending == Some(job.outcome(tag, payload)->Finishes_0),
        piece_index(payload) == job.piece_i,
        piece_begin(payload) == block_start(job.pending->0 as int),
        piece_block(payload).len() == job.length_of(job.pending->0 as int),
{
}

/// A peer that chokes is asked for nothing until it unchokes, whatever else it sends.
pub proof fn law_choking_lasts_until_unchoke(run: Run, events: Seq<Event>)
    requires
        run.choking,
        run.job.pending is None,
        forall|i: int| #![trigger events[i]]
            0 <= i < events.len() ==> (events[i] matches Event::Message(tag, _) ==> tag
                != MessageTag::Unchoke),
    ensures
        run.after_all(events).choking,
        run.after_all(events).taken == run.taken,
        run.after_all(events).job == run.job,
    decreases events.len(),
{
    if events.len() > 0 {
        let fewer = events.drop_last();
        assert forall|i: int| #![trigger fewer[i]] 0 <= i < fewer.len() implies (
        fewer[i] matches Event::Message(tag, _) ==> tag != MessageTag::Unchoke) by {
            assert(fewer[i] == events[i]);
        }
        law_choking_lasts_until_unchoke(run, fewer);
        assert(events.last() == events[events.len() - 1]);
    }
}

/// The payload that carries block `block` of piece `piece_i`.
pub open spec fn block_payload(piece_i: int, block: int, bytes: Seq<u8>) -> Seq<u8> {
    be_bytes(piece_i) + be_bytes(block_start(block)) + bytes
}

/// The answer that carries the block that was asked for is found faultless, and the block is
/// read from it; one of another piece, another block or another length is not.
pub proof fn law_requested_block_is_taken(
    piece_i: int,
    block: int,
    bytes: Seq<u8>,
    asked_piece: int,
    asked_block: int,
    asked_length: int,
)
    requires
        0 <= piece_i < 0x1_0000_0000,
        0 <= block_start(block) < 0x1_0000_0000,
    ensures
        block_payload(piece_i, block, bytes).len() == 8 + bytes.len(),
        piece_block(block_payload(piece_i, block, bytes)) == bytes,
        block_fault(
            block_payload(piece_i, block, bytes),
            asked_piece,
            asked_block,
            asked_length,
        ) is None <==> piece_i == asked_piece && block == asked_block && bytes.len()
            == asked_length,
{
    let payload = block_payload(piece_i, block, bytes);
    be_bytes_then_value(piece_i);
    be_bytes_then_value(block_start(block));
    assert(payload.subrange(0, 4) =~= be_bytes(piece_i));
    assert(payload.subrange(4, 8) =~= be_bytes(block_start(block)));
    assert(piece_block(payload) =~= bytes);
}

/// The block that is awaited finishes: a piece message with the piece's index, the place where
/// the block begins and as many bytes as the block has is admitted, and the block is there.
pub proof fn law_awaited_block_finishes(job: Participation, block: usize, bytes: Seq<u8>)
    requires
        job.pending == Some(block),
        job.piece_i < 0x1_0000_0000,
        16384 * block < 0x1_0000_0000,
        job.nblocks == blocks_in(job.piece_size as int),
        16384 * block < job.piece_size,
        bytes.len() == lesser(16384, job.piece_size - 16384 * block),
    ensures
        job.admissible(
            MessageTag::Piece,
            block_payload(job.piece_i as int, block as int, bytes),
        ),
        job.outcome(MessageTag::Piece, block_payload(job.piece_i as int, block as int, bytes))
            == Outcome::Finishes(block),
{
    let payload = block_payload(job.piece_i as int, block as int, bytes);
    law_block_has_what_is_left(job.piece_size as int, block as int);
    law_requested_block_is_taken(
        job.piece_i as int,
        block as int,
        bytes,
        job.piece_i as int,
        block as int,
        bytes.len() as int,
    );
}

/// The same of any block that was asked for, however many blocks there are: as many bytes
/// as were asked for finish it.
pub proof fn law_block_as_asked_for_finishes(job: Participation, block: usize, bytes: Seq<u8>)
    requires
        job.pending == Some(block),
        job.piece_i < 0x1_0000_0000,
        16384 * block < 0x1_0000_0000,
        bytes.len() == number_at(
            block_request(job.piece_i as int, block as int, job.length_of(block as int)),
            8,
        ),
    ensures
        job.admissible(
            MessageTag::Piece,
            block_payload(job.piece_i as int, block as int, bytes),
        ),
        job.outcome(MessageTag::Piece, block_payload(job.piece_i as int, block as int, bytes))
            == Outcome::Finishes(block),
{
    law_only_the_last_block_is_shorter(
        block as int,
        job.nblocks as int,
        job.piece_size as int,
    );
    law_request_names_the_block(job.piece_i as int, block as int, job.length_of(block as int));
    law_requested_block_is_taken(
        job.piece_i as int,
        block as int,
        bytes,
        job.piece_i as int,
        block as int,
        bytes.len() as int,
    );
}

/// Each message does what its tag says. While nothing is awaited, only an unchoke changes
/// anything, and a choke or a bitfield ends it. While a block is awaited, a choke gives it
/// back, an unchoke or a bitfield ends it, and the piece message of that index and that begin
/// finishes it. Nothing else changes anything.
pub proof fn law_messages_do_what_they_say(job: Participation, tag: MessageTag, payload: Seq<u8>)
    requires
        job.pending is Some && tag == MessageTag::Piece ==> payload.len() >= 8,
    ensures
        ({
            let outcome = job.outcome(tag, payload);
            let awaiting = job.pending is Some;
            let arrives = awaiting && tag == MessageTag::Piece && number_at(payload, 0)
                == job.piece_i && number_at(payload, 4) == 16384 * job.pending->0;
            &&& outcome is Unchokes <==> !awaiting && tag == MessageTag::Unchoke
            &&& outcome is Returns <==> awaiting && tag == MessageTag::Choke
            &&& outcome is Finishes <==> arrives
            &&& outcome is Returns ==> Some(outcome->Returns_0) == job.pending
            &&& outcome is Finishes ==> Some(outcome->Finishes_0) == job.pending
            &&& outcome == Outcome::Fails(PeerError::ChokeWhileChoked) <==> !awaiting && tag
                == MessageTag::Choke
            &&& outcome == Outcome::Fails(PeerError::UnchokeWhileUnchoked) <==> awaiting && tag
                == MessageTag::Unchoke
            &&& outcome == Outcome::Fails(PeerError::LateBitfield) <==> tag == MessageTag::Bitfield
            &&& outcome is Fails ==> tag == MessageTag::Choke || tag == MessageTag::Unchoke || tag
                == MessageTag::Bitfield
        }),
{
    if payload.len() >= 8 {
        law_piece_layout(payload, 0);
    }
}

/// Messages are admitted unless one that carries nothing has a payload, or one that carries
/// a block is too short for it or carries the awaited block in another length. Where nothing
/// is awaited, only an unchoke is looked at.
pub proof fn law_admitted_messages(job: Participation, tag: MessageTag, payload: Seq<u8>)
    ensures
        job.pending is None ==> (job.admissible(tag, payload) <==> tag != MessageTag::Unchoke
            || payload.len() == 0),
        job.pending is Some && tag != MessageTag::Choke && tag != MessageTag::Piece
            ==> job.admissible(tag, payload),
        job.pending is Some && tag == MessageTag::Choke ==> (job.admissible(tag, payload)
            <==> payload.len() == 0),
        job.pending is Some && tag == MessageTag::Piece && payload.len() < 8 ==> !job.admissible(
            tag,
            payload,
        ),
        job.pending is Some && tag == MessageTag::Piece && payload.len() >= 8 ==> (job.admissible(
            tag,
            payload,
        ) <==> (number_at(payload, 0) == job.piece_i && number_at(payload, 4) == 16384
            * job.pending->0 ==> payload.len() - 8 == job.length_of(job.pending->0 as int))),
{
    if payload.len() >= 8 {
        law_piece_layout(payload, 0);
    }
}

/// What is given next is a block to ask for, exactly where the peer does not choke and no
/// block is awaited; else it is a message.
pub proof fn law_what_is_needed(job: Participation, choking: bool)
    ensures
        job.need(choking) is Task <==> !choking && job.pending is None,
        job.need(choking) is Message <==> choking || job.pending is Some,
        job.consistent(choking) <==> !(choking && job.pending is Some),
{
}

/// The lengths by which a download goes are those of the blocks of its piece: 16384 bytes but
/// for the last block, without which the piece is made of whole blocks.
pub proof fn law_lengths_are_those_of_the_piece(job: Participation, block: int)
    requires
        0 <= block,
    ensures
        job.nblocks == blocks_in(job.piece_size as int) && 16384 * block < job.piece_size
            ==> job.length_of(block) == lesser(16384, job.piece_size - 16384 * block),
        block != job.nblocks - 1 ==> job.length_of(block) == 16384,
        block == job.nblocks - 1 ==> (job.piece_size - job.length_of(block)) % 16384 == 0,
        0 < job.length_of(block) <= 16384,
{
    law_block_has_what_is_left(job.piece_size as int, block);
    law_only_the_last_block_is_shorter(block, job.nblocks as int, job.piece_size as int);
}

/// A block comes through: asked for of a peer that does not choke, it arrives with the answer,
/// and the next one can be asked for.
pub proof fn law_block_comes_through(run: Run, block: usize, bytes: Seq<u8>)
    requires
        !run.failed,
        !run.choking,
        run.job.pending is None,
        run.job.piece_i < 0x1_0000_0000,
        16384 * block < 0x1_0000_0000,
    ensures
        ({
            let asked = run.after(Event::Task(block));
            let done = asked.after(
                Event::Message(
                    MessageTag::Piece,
                    block_payload(run.job.piece_i as int, block as int, bytes),
                ),
            );
            &&& asked.job.pending == Some(block)
            &&& asked.taken == run.taken.insert(block)
            &&& done.finished == run.finished.insert(block)
            &&& done.returned == run.returned
            &&& done.job == run.job
            &&& !done.choking
            &&& !done.failed
        }),
{
    law_requested_block_is_taken(
        run.job.piece_i as int,
        block as int,
        bytes,
        run.job.piece_i as int,
        block as int,
        bytes.len() as int,
    );
}

/// A block that the peer chokes on goes back, and the peer is asked again once it unchokes.
pub proof fn law_choked_block_goes_back(run: Run, block: usize, again: usize)
    requires
        !run.failed,
        !run.choking,
        run.job.pending is None,
    ensures
        ({
            let choked = run.after(Event::Task(block)).after(
                Event::Message(MessageTag::Choke, Seq::empty()),
            );
            let unchoked = choked.after(Event::Message(MessageTag::Unchoke, Seq::empty()));
            &&& choked.returned == run.returned.insert(block)
            &&& choked.finished == run.finished
            &&& choked.choking
            &&& choked.job == run.job
            &&& !choked.failed
            &&& !unchoked.choking
            &&& !unchoked.failed
            &&& unchoked.after(Event::Task(again)).job.pending == Some(again)
        }),
{
}

/// What is wrong with an answer is what differs first: the piece's index, where the block
/// begins, or how many bytes it has. Where nothing differs, nothing is wrong.
pub proof fn law_faults_of_answers(payload: Seq<u8>, piece_i: int, block: int, length: int)
    requires
        payload.len() >= 8,
    ensures
        ({
            let fault = block_fault(payload, piece_i, block, length);
            let same_piece = number_at(payload, 0) == piece_i;
            let same_begin = number_at(payload, 4) == 16384 * block;
            &&& fault == Some(PeerError::OtherPiece) <==> !same_piece
            &&& fault == Some(PeerError::OtherBlock) <==> same_piece && !same_begin
            &&& fault == Some(PeerError::OtherLength) <==> same_piece && same_begin && payload.len()
                - 8 != length
            &&& fault is None <==> same_piece && same_begin && payload.len() - 8 == length
        }),
{
    law_piece_layout(payload, 0);
}

} // verus!
