//! The download of a whole torrent, piece after piece, without the connections: what is to
//! be done next, and what becomes of what has arrived.

use vstd::prelude::*;
use crate::blocks::{count_blocks, BLOCK_MAX};
use crate::download::{blank, helpers, Assembly, DownloadError, Downloaded, PieceQueue, WantedPiece};
use crate::torrent::{length_of_piece, Keys};
#[allow(unused_imports)]
use crate::blocks::blocks_in;
#[allow(unused_imports)]
use crate::digest::sha1_of;
#[allow(unused_imports)]
use crate::download::{most_urgent, most_urgent_is_found, placed};
#[allow(unused_imports)]
use crate::download_laws::law_stored_pieces_stay;
#[allow(unused_imports)]
use crate::torrent::{are_files_of, piece_length};
#[allow(unused_imports)]
use crate::wire::{piece_begin, piece_block, zeros};

verus! {

/// The piece that is to be downloaded next, and by whose help.
#[derive(Debug)]
pub struct Job {
    /// The place of the piece among the pieces of the torrent.
    pub index: usize,
    /// Its length in bytes.
    pub piece_size: usize,
    /// The number of its blocks.
    pub nblocks: usize,
    /// The peers that are to help, by their places among the connected ones.
    pub helpers: Vec<usize>,
}

/// A piece, and what has arrived of it.
pub struct PieceInWork {
    pub piece: WantedPiece,
    pub assembly: Assembly,
}

/// The download of a torrent.
pub struct TorrentDownload {
    length: usize,
    plength: usize,
    hashes: Vec<[u8; 20]>,
    queue: PieceQueue,
    in_work: Option<PieceInWork>,
    all_pieces: Vec<u8>,
}

/// What a torrent says of its pieces.
pub struct Plan {
    pub length: int,
    pub plength: int,
    pub hashes: Seq<[u8; 20]>,
}

impl Plan {
    /// Where piece `piece_i` begins.
    pub open spec fn begin_of(self, piece_i: int) -> int {
        piece_i * self.plength
    }

    /// The length of piece `piece_i`.
    pub open spec fn length_of(self, piece_i: int) -> int {
        piece_length(piece_i, self.hashes.len() as int, self.length, self.plength)
    }

    /// Whether, if there are pieces, they have bytes, and the blocks of each can be counted.
    pub open spec fn can_be_cut(self) -> bool {
        &&& self.hashes.len() > 0 ==> 0 < self.plength
        &&& forall|i: int|
            0 <= i < self.hashes.len() ==> #[trigger] self.length_of(i) + (BLOCK_MAX - 1)
                <= usize::MAX
    }

    /// Whether the torrent has such a piece.
    pub open spec fn has_piece(self, piece: WantedPiece) -> bool {
        &&& piece.index < self.hashes.len()
        &&& piece.length == self.length_of(piece.index as int)
        &&& piece.hash == self.hashes[piece.index as int]
    }

    /// Whether piece `piece_i` stands in `content` where it belongs: there lie as many bytes
    /// as it has, and they have its hash.
    pub open spec fn holds(self, content: Seq<u8>, piece_i: int) -> bool {
        let begin = self.begin_of(piece_i);
        let end = begin + self.length_of(piece_i);
        end <= content.len() && sha1_of(content.subrange(begin, end)) == self.hashes[piece_i]@
    }
}

/// Whether piece `piece_i` is one of `pieces`.
pub open spec fn is_among(pieces: Seq<WantedPiece>, piece_i: int) -> bool {
    exists|k: int| 0 <= k < pieces.len() && (#[trigger] pieces[k]).index == piece_i
}

/// Whether no two of the pieces are the same piece of the torrent.
pub open spec fn indexes_differ(pieces: Seq<WantedPiece>) -> bool {
    forall|i: int, j: int|
        0 <= i < j < pieces.len() ==> (#[trigger] pieces[i]).index != (#[trigger] pieces[j]).index
}

impl TorrentDownload {
    /// What the torrent says of its pieces.
    pub closed spec fn plan(self) -> Plan {
        Plan { length: self.length as int, plength: self.plength as int, hashes: self.hashes@ }
    }

    /// The pieces that are still to be downloaded.
    pub closed spec fn need(self) -> Seq<WantedPiece> {
        self.queue.need()
    }

    /// The piece that is being downloaded, if any.
    pub closed spec fn in_work(self) -> Option<PieceInWork> {
        self.in_work
    }

    /// The bytes of the torrent, as far as they are there.
    pub closed spec fn content(self) -> Seq<u8> {
        self.all_pieces@
    }

    /// Whether piece `piece_i` is still to come.
    pub open spec fn awaits(self, piece_i: int) -> bool {
        is_among(self.need(), piece_i) || (self.in_work() is Some && self.in_work()->0.piece.index
            == piece_i)
    }

    /// Each piece of the torrent is still to come, once, or stands where it belongs.
    pub open spec fn well_formed(self) -> bool {
        &&& self.plan().can_be_cut()
        &&& self.content().len() == self.plan().length
        &&& indexes_differ(self.need())
        &&& forall|k: int|
            0 <= k < self.need().len() ==> self.plan().has_piece(#[trigger] self.need()[k])
        &&& self.in_work() is Some ==> {
            let work = self.in_work()->0;
            &&& self.plan().has_piece(work.piece)
            &&& work.assembly.size() == work.piece.length
            &&& work.assembly.blocks().len() == work.piece.length
            &&& !is_among(self.need(), work.piece.index as int)
        }
        &&& forall|i: int|
            0 <= i < self.plan().hashes.len() && !#[trigger] self.awaits(i) ==> self.plan().holds(
                self.content(),
                i,
            )
    }

    /// The download of a torrent of `length` bytes in pieces of `plength` bytes that have
    /// these hashes. `holders` gives for each piece the peers that have it, and `ranks` how
    /// urgent it is. There is no download if some piece is had by no peer.
    pub fn new(
        length: usize,
        plength: usize,
        hashes: Vec<[u8; 20]>,
        holders: &Vec<Vec<usize>>,
        ranks: &Vec<usize>,
    ) -> (download: Option<TorrentDownload>)
        requires
            (Plan { length: length as int, plength: plength as int, hashes: hashes@ }).can_be_cut(),
            holders@.len() == hashes@.len(),
            ranks@.len() == hashes@.len(),
        ensures
            download is Some <==> forall|i: int|
                0 <= i < holders@.len() ==> (#[trigger] holders@[i])@.len() > 0,
            download matches Some(d) ==> {
                &&& d.well_formed()
                &&& d.plan() == (Plan {
                    length: length as int,
                    plength: plength as int,
                    hashes: hashes@,
                })
                &&& d.in_work() is None
                &&& d.content() == zeros(length as nat)
                &&& d.need().len() == hashes@.len()
                &&& forall|i: int| #![trigger d.need()[i]]
                    0 <= i < d.need().len() ==> d.need()[i].index == i && d.need()[i].peers@
                        == holders@[i]@ && d.need()[i].rank == ranks@[i]
            },
    {
        let ghost plan = Plan { length: length as int, plength: plength as int, hashes: hashes@ };
        let npieces: usize = hashes.len();
        let mut queue: PieceQueue = PieceQueue::new();
        let mut piece_i: usize = 0;
        while piece_i < npieces
            invariant
                piece_i <= npieces == hashes@.len(),
                holders@.len() == hashes@.len(),
                ranks@.len() == hashes@.len(),
                plan.can_be_cut(),
                plan == (Plan { length: length as int, plength: plength as int, hashes: hashes@ }),
                queue.need().len() + queue.orphans().len() == piece_i,
                queue.orphans().len() == 0 <==> forall|i: int|
                    0 <= i < piece_i ==> (#[trigger] holders@[i])@.len() > 0,
                queue.orphans().len() == 0 ==> forall|i: int| #![trigger queue.need()[i]]
                    0 <= i < piece_i ==> queue.need()[i].index == i && plan.has_piece(
                        queue.need()[i],
                    ) && queue.need()[i].peers@ == holders@[i]@ && queue.need()[i].rank
                        == ranks@[i],
            decreases npieces - piece_i,
        {
            let peers: Vec<usize> = holders[piece_i].clone();
            assert(peers@ =~= holders@[piece_i as int]@);
            queue.add(
                WantedPiece {
                    index: piece_i,
                    length: length_of_piece(piece_i, npieces, length, plength),
                    hash: hashes[piece_i],
                    peers,
                    rank: ranks[piece_i],
                },
            );
            piece_i = piece_i + 1;
        }
        if !queue.is_available() {
            return None;
        }
        let download: TorrentDownload = TorrentDownload {
            length,
            plength,
            hashes,
            queue,
            in_work: None,
            all_pieces: blank(length),
        };
        proof {
            assert forall|i: int| 0 <= i < hashes@.len() implies #[trigger] download.awaits(i) by {
                assert(download.need()[i].index == i);
            }
        }
        Some(download)
    }

    /// Takes up the piece that comes next, if there is one: the one of the greatest rank, and
    /// of those the first. `connected` peers are there to help.
    pub fn next_piece(&mut self, connected: usize) -> (job: Option<Job>)
        requires
            old(self).well_formed(),
            old(self).in_work() is None,
        ensures
            final(self).well_formed(),
            final(self).plan() == old(self).plan(),
            final(self).content() == old(self).content(),
            old(self).need().len() == 0 ==> job is None && final(self).need() == old(self).need()
                && final(self).in_work() is None,
            old(self).need().len() > 0 ==> {
                let next = old(self).need()[most_urgent(old(self).need())];
                &&& job matches Some(j) && j.index == next.index && j.piece_size == next.length
                    && j.nblocks == blocks_in(next.length as int) && (forall|i: int, k: int|
                    0 <= i < k < j.helpers@.len() ==> j.helpers@[i] < j.helpers@[k]) && (forall|
                    peer: usize,
                | #[trigger]
                    j.helpers@.contains(peer) <==> peer < connected && next.peers@.contains(peer))
                &&& final(self).need() == old(self).need().remove(most_urgent(old(self).need()))
                &&& final(self).in_work() matches Some(work) && work.piece == next
                    && work.assembly.blocks() == zeros(next.length as nat)
                    && work.assembly.received() == 0
            },
    {
        match self.queue.pop() {
            None => {
                assert forall|i: int| old(self).awaits(i) implies #[trigger] self.awaits(i) by {}
                None
            },
            Some(piece) => {
                let ghost before = old(self).need();
                let ghost m = most_urgent(before);
                let ghost after = before.remove(m);
                proof {
                    most_urgent_is_found(before);
                    assert(self.plan().has_piece(before[m]));
                }
                let job: Job = Job {
                    index: piece.index,
                    piece_size: piece.length,
                    nblocks: count_blocks(piece.length),
                    helpers: helpers(connected, &piece),
                };
                let assembly: Assembly = Assembly::new(piece.length);
                self.in_work = Some(PieceInWork { piece, assembly });
                proof {
                    assert(self.need() == after);
                    assert forall|i: int, j: int| 0 <= i < j < after.len() implies (
                    #[trigger] after[i]).index != (#[trigger] after[j]).index by {
                        let a = if i < m { i } else { i + 1 };
                        let b = if j < m { j } else { j + 1 };
                        assert(before[a].index != before[b].index);
                    }
                    assert forall|k: int| 0 <= k < after.len() implies self.plan().has_piece(
                        #[trigger] after[k],
                    ) && after[k].index != piece.index by {
                        let b = if k < m { k } else { k + 1 };
                        assert(old(self).plan().has_piece(before[b]));
                        assert(before[b].index != before[m].index);
                    }
                    assert forall|i: int| old(self).awaits(i) implies #[trigger] self.awaits(i) by {
                        let k = choose|k: int|
                            0 <= k < before.len() && (#[trigger] before[k]).index == i;
                        if k < m {
                            assert(after[k].index == i);
                        } else if k > m {
                            assert(after[k - 1].index == i);
                        }
                    }
                }
                Some(job)
            },
        }
    }

    /// Whether [`TorrentDownload::on_block`] can be given the payload.
    pub fn admits(&self, payload: &[u8]) -> (admitted: bool)
        ensures
            admitted == (self.in_work() matches Some(work) && work.assembly.takes(payload@)),
    {
        match &self.in_work {
            None => false,
            Some(work) => work.assembly.admits(payload),
        }
    }

    /// Takes a block of the piece, and says whether as many bytes have arrived as the piece
    /// has.
    pub fn on_block(&mut self, payload: &[u8]) -> (whole: bool)
        requires
            old(self).well_formed(),
            old(self).in_work() is Some,
            old(self).in_work()->0.assembly.takes(payload@),
        ensures
            final(self).well_formed(),
            final(self).plan() == old(self).plan(),
            final(self).content() == old(self).content(),
            final(self).need() == old(self).need(),
            ({
                let before = old(self).in_work()->0;
                &&& final(self).in_work() matches Some(work) && work.piece == before.piece
                    && work.assembly.blocks() == placed(
                    before.assembly.blocks(),
                    piece_begin(payload@),
                    piece_block(payload@),
                ) && work.assembly.received() == before.assembly.received() + piece_block(
                    payload@,
                ).len() && whole == (work.assembly.received() == work.piece.length)
            }),
    {
        match self.in_work.take() {
            None => false,
            Some(work) => {
                let PieceInWork { piece, mut assembly } = work;
                let whole: bool = assembly.add(payload);
                self.in_work = Some(PieceInWork { piece, assembly });
                assert forall|i: int| old(self).awaits(i) implies self.awaits(i) by {}
                whole
            },
        }
    }

    /// Whether [`TorrentDownload::end_piece`] can be called.
    pub fn admits_end(&self) -> (admitted: bool)
        ensures
            admitted == (self.in_work() matches Some(work) && work.assembly.storable(
                work.piece.index as int,
                self.plan().plength,
                self.content(),
            )),
    {
        match &self.in_work {
            None => false,
            Some(work) => work.assembly.admits_store(&work.piece, self.plength, &self.all_pieces),
        }
    }

    /// Ends the work on a piece, once it is whole or no peers are left: puts it where it
    /// belongs, if it is whole and has its hash.
    pub fn end_piece(&mut self) -> (result: Result<(), DownloadError>)
        requires
            old(self).well_formed(),
            old(self).in_work() is Some,
            old(self).in_work()->0.assembly.storable(
                old(self).in_work()->0.piece.index as int,
                old(self).plan().plength,
                old(self).content(),
            ),
        ensures
            final(self).well_formed(),
            final(self).plan() == old(self).plan(),
            final(self).need() == old(self).need(),
            ({
                let work = old(self).in_work()->0;
                let index = work.piece.index;
                if work.assembly.received() != work.piece.length {
                    result == Err::<(), DownloadError>(DownloadError::NoPeersLeft(index))
                        && final(self).content() == old(self).content() && final(self).in_work()
                        == old(self).in_work()
                } else if sha1_of(work.assembly.blocks()) != work.piece.hash@ {
                    result == Err::<(), DownloadError>(DownloadError::WrongHash(index))
                        && final(self).content() == old(self).content() && final(self).in_work()
                        == old(self).in_work()
                } else {
                    result == Ok::<(), DownloadError>(()) && final(self).content() == placed(
                        old(self).content(),
                        old(self).plan().begin_of(index as int),
                        work.assembly.blocks(),
                    ) && final(self).in_work() is None
                }
            }),
    {
        match self.in_work.take() {
            None => Ok(()),
            Some(work) => {
                let result: Result<(), DownloadError> = work.assembly.store(
                    &work.piece,
                    self.plength,
                    &mut self.all_pieces,
                );
                if result.is_err() {
                    self.in_work = Some(work);
                    assert forall|i: int| old(self).awaits(i) implies self.awaits(i) by {}
                } else {
                    proof {
                        storing_keeps_the_pieces(
                            self.plan(),
                            old(self).content(),
                            work.piece,
                            work.assembly.blocks(),
                        );
                        assert forall|i: int|
                            0 <= i < self.plan().hashes.len()
                                && !#[trigger] self.awaits(i) implies self.plan().holds(
                            self.content(),
                            i,
                        ) by {
                            if i != work.piece.index {
                                assert(!old(self).awaits(i));
                            }
                        }
                    }
                }
                result
            },
        }
    }

    /// The torrent, once no piece is left: each of its pieces stands where it belongs and has
    /// its hash.
    pub fn finish(self, keys: Keys, name: String) -> (downloaded: Downloaded)
        requires
            self.well_formed(),
            self.need().len() == 0,
            self.in_work() is None,
        ensures
            downloaded.content() == self.content(),
            are_files_of(downloaded.list(), keys, name@),
            forall|i: int|
                0 <= i < self.plan().hashes.len() ==> #[trigger] self.plan().holds(
                    downloaded.content(),
                    i,
                ),
    {
        assert forall|i: int| 0 <= i < self.plan().hashes.len() implies #[trigger] self.plan().holds(
            self.content(),
            i,
        ) by {
            assert(!self.awaits(i));
        }
        Downloaded::new(self.all_pieces, keys, name)
    }
}

/// Storing a piece that has its hash puts it where it belongs, and leaves there the pieces
/// that already stand where they belong.
pub proof fn storing_keeps_the_pieces(plan: Plan, content: Seq<u8>, piece: WantedPiece, blocks: Seq<
    u8,
>)
    requires
        0 < plan.plength,
        plan.has_piece(piece),
        blocks.len() == piece.length,
        sha1_of(blocks) == piece.hash@,
        plan.begin_of(piece.index as int) + blocks.len() <= content.len(),
    ensures
        placed(content, plan.begin_of(piece.index as int), blocks).len() == content.len(),
        plan.holds(
            placed(content, plan.begin_of(piece.index as int), blocks),
            piece.index as int,
        ),
        forall|i: int|
            0 <= i < plan.hashes.len() && #[trigger] plan.holds(content, i) && i != piece.index
                ==> plan.holds(placed(content, plan.begin_of(piece.index as int), blocks), i),
{
    let a = piece.index as int;
    let begin = plan.begin_of(a);
    let stored = placed(content, begin, blocks);
    vstd::arithmetic::div_mod::lemma_mod_bound(plan.length, plan.plength);
    assert(0 <= begin) by (nonlinear_arith)
        requires
            begin == a * plan.plength,
            0 <= a,
            0 < plan.plength,
    ;
    assert(stored.subrange(begin, begin + blocks.len()) =~= blocks);
    assert forall|i: int|
        0 <= i < plan.hashes.len() && #[trigger] plan.holds(content, i) && i != a implies plan.holds(
        stored,
        i,
    ) by {
        let other = plan.begin_of(i);
        let own = content.subrange(other, other + plan.length_of(i));
        assert(0 <= other) by (nonlinear_arith)
            requires
                other == i * plan.plength,
                0 <= i,
                0 < plan.plength,
        ;
        assert(placed(content, other, own) =~= content);
        law_stored_pieces_stay(content, plan.plength, i, own, a, blocks);
    }
}

} // verus!
