//! The download of a whole torrent: which piece comes next, how its blocks are put
//! together, and what becomes of the bytes at the end.

use vstd::prelude::*;
use vstd::slice::slice_subrange;
use crate::digest::matches_hash;
use crate::torrent::{File, Keys};
use crate::wire::Piece;
#[allow(unused_imports)]
use crate::digest::sha1_of;
#[allow(unused_imports)]
use crate::torrent::are_files_of;
#[allow(unused_imports)]
use crate::wire::{piece_begin, piece_block, zeros};

verus! {

/// How many peers are connected to at most.
pub const PEERS_WANTED: usize = 5;

/// Whether no more peers need to be connected to.
pub fn enough_peers(connected: usize) -> (enough: bool)
    ensures
        enough == (connected >= PEERS_WANTED),
        enough == (connected >= 5),
{
    connected >= PEERS_WANTED
}

/// Why a download cannot go on.
#[derive(Debug, Clone, Copy, PartialEq, Eq, Structural)]
pub enum DownloadError {
    /// No peers are left to get this piece from.
    NoPeersLeft(usize),
    /// The bytes of this piece are not those that the torrent has the hash of.
    WrongHash(usize),
}

/// A piece that is still to be downloaded.
#[derive(Debug)]
pub struct WantedPiece {
    /// Its place among the pieces of the torrent.
    pub index: usize,
    /// Its length in bytes.
    pub length: usize,
    /// Its hash.
    pub hash: [u8; 20],
    /// The peers that have it, by their places among the connected ones.
    pub peers: Vec<usize>,
    /// How urgent it is: a piece of a greater rank comes first.
    pub rank: usize,
}

/// The pieces that are still to be downloaded, and those that no peer has.
pub struct PieceQueue {
    need: Vec<WantedPiece>,
    no_peers: Vec<WantedPiece>,
}

/// Whether `pieces[i]` is the first of those with the greatest rank.
pub open spec fn is_most_urgent(pieces: Seq<WantedPiece>, i: int) -> bool {
    &&& 0 <= i < pieces.len()
    &&& forall|j: int| 0 <= j < i ==> (#[trigger] pieces[j]).rank < pieces[i].rank
    &&& forall|j: int| 0 <= j < pieces.len() ==> (#[trigger] pieces[j]).rank <= pieces[i].rank
}

/// The place of the first of the pieces with the greatest rank.
pub open spec fn most_urgent(pieces: Seq<WantedPiece>) -> int
    decreases pieces.len(),
{
    if pieces.len() <= 1 {
        0
    } else {
        let before = most_urgent(pieces.drop_last());
        if pieces.last().rank > pieces[before].rank {
            pieces.len() - 1
        } else {
            before
        }
    }
}

/// There is a first among the pieces with the greatest rank, and only one.
pub proof fn most_urgent_is_found(pieces: Seq<WantedPiece>)
    requires
        pieces.len() > 0,
    ensures
        is_most_urgent(pieces, most_urgent(pieces)),
        forall|i: int| is_most_urgent(pieces, i) ==> i == most_urgent(pieces),
    decreases pieces.len(),
{
    let m = most_urgent(pieces);
    if pieces.len() > 1 {
        let fewer = pieces.drop_last();
        most_urgent_is_found(fewer);
        assert forall|j: int| 0 <= j < pieces.len() implies (#[trigger] pieces[j]).rank
            <= pieces[m].rank by {
            if j < fewer.len() {
                assert(fewer[j] == pieces[j]);
            }
        }
        assert forall|j: int| 0 <= j < m implies (#[trigger] pieces[j]).rank < pieces[m].rank by {
            assert(fewer[j] == pieces[j]);
        }
    }
    assert forall|i: int| is_most_urgent(pieces, i) implies i == m by {
        assert(pieces[i].rank == pieces[m].rank);
    }
}

impl PieceQueue {
    /// The pieces that are still to be downloaded, in the order in which they were added.
    pub closed spec fn need(self) -> Seq<WantedPiece> {
        self.need@
    }

    /// The pieces that no peer has, in the order in which they were added.
    pub closed spec fn orphans(self) -> Seq<WantedPiece> {
        self.no_peers@
    }

    /// No pieces.
    pub fn new() -> (queue: PieceQueue)
        ensures
            queue.need() == Seq::<WantedPiece>::empty(),
            queue.orphans() == Seq::<WantedPiece>::empty(),
    {
        PieceQueue { need: Vec::new(), no_peers: Vec::new() }
    }

    /// Adds a piece: to those that are to be downloaded, if some peer has it.
    pub fn add(&mut self, piece: WantedPiece)
        ensures
            piece.peers@.len() > 0 ==> final(self).need() == old(self).need().push(piece)
                && final(self).orphans() == old(self).orphans(),
            piece.peers@.len() == 0 ==> final(self).need() == old(self).need()
                && final(self).orphans() == old(self).orphans().push(piece),
    {
        if piece.peers.is_empty() {
            self.no_peers.push(piece);
        } else {
            self.need.push(piece);
        }
    }

    /// Whether some peer has each of the pieces that were added.
    pub fn is_available(&self) -> (available: bool)
        ensures
            available == (self.orphans().len() == 0),
    {
        self.no_peers.is_empty()
    }

    /// Takes the piece that comes next: one of the greatest rank, and of those the one that
    /// was added first.
    pub fn pop(&mut self) -> (piece: Option<WantedPiece>)
        ensures
            final(self).orphans() == old(self).orphans(),
            old(self).need().len() == 0 ==> piece is None && final(self).need()
                == old(self).need(),
            old(self).need().len() > 0 ==> piece == Some(
                old(self).need()[most_urgent(old(self).need())],
            ) && final(self).need() == old(self).need().remove(most_urgent(old(self).need())),
    {
        if self.need.is_empty() {
            return None;
        }
        let mut best: usize = 0;
        let mut i: usize = 1;
        while i < self.need.len()
            invariant
                *self == *old(self),
                best < i <= self.need@.len(),
                forall|j: int| 0 <= j < best ==> (#[trigger] self.need@[j]).rank < self.need@[best as int].rank,
                forall|j: int| 0 <= j < i ==> (#[trigger] self.need@[j]).rank <= self.need@[best as int].rank,
            decreases self.need@.len() - i,
        {
            if self.need[i].rank > self.need[best].rank {
                best = i;
            }
            i = i + 1;
        }
        proof {
            most_urgent_is_found(self.need@);
            assert(is_most_urgent(self.need@, best as int));
        }
        Some(self.need.remove(best))
    }
}

/// The order in which pieces are taken.
pub open spec fn taken_in_order(pieces: Seq<WantedPiece>) -> Seq<WantedPiece>
    decreases pieces.len(),
{
    if pieces.len() == 0 {
        seq![]
    } else {
        let m = most_urgent(pieces);
        if 0 <= m < pieces.len() {
            seq![pieces[m]] + taken_in_order(pieces.remove(m))
        } else {
            seq![]
        }
    }
}

/// Every piece is taken, once each.
pub proof fn law_every_piece_is_taken_once(pieces: Seq<WantedPiece>)
    ensures
        taken_in_order(pieces).to_multiset() == pieces.to_multiset(),
    decreases pieces.len(),
{
    broadcast use vstd::seq_lib::group_to_multiset_ensures;

    if pieces.len() == 0 {
        assert(taken_in_order(pieces) =~= pieces);
    } else {
        most_urgent_is_found(pieces);
        let m = most_urgent(pieces);
        let rest = pieces.remove(m);
        law_every_piece_is_taken_once(rest);
        let tail = taken_in_order(rest);
        assert(taken_in_order(pieces) =~= tail.insert(0, pieces[m]));
        assert(taken_in_order(pieces).to_multiset() =~= tail.to_multiset().insert(pieces[m]));
        assert(rest.to_multiset() =~= pieces.to_multiset().remove(pieces[m]));
        assert(pieces.to_multiset().count(pieces[m]) > 0) by {
            assert(pieces.contains(pieces[m]));
        }
        assert(rest.to_multiset().insert(pieces[m]) =~= pieces.to_multiset());
    }
}

/// A piece is not taken before one of a greater rank.
pub proof fn law_pieces_come_by_rank(pieces: Seq<WantedPiece>, i: int, j: int)
    requires
        0 <= i < j < taken_in_order(pieces).len(),
    ensures
        taken_in_order(pieces)[i].rank >= taken_in_order(pieces)[j].rank,
    decreases pieces.len(),
{
    most_urgent_is_found(pieces);
    let m = most_urgent(pieces);
    let rest = pieces.remove(m);
    let all = taken_in_order(pieces);
    let tail = taken_in_order(rest);
    if i > 0 {
        law_pieces_come_by_rank(rest, i - 1, j - 1);
        assert(all[i] == tail[i - 1] && all[j] == tail[j - 1]);
    } else {
        law_every_piece_is_taken_once(rest);
        broadcast use vstd::seq_lib::group_to_multiset_ensures;

        assert(tail.contains(tail[j - 1]));
        assert(tail.to_multiset().count(tail[j - 1]) > 0);
        assert(rest.contains(tail[j - 1]));
        let k = choose|k: int| 0 <= k < rest.len() && rest[k] == tail[j - 1];
        assert(rest[k] == pieces[if k < m { k } else { k + 1 }]);
        assert(all[j] == tail[j - 1]);
    }
}

/// The connected peers that are to help with a piece: of the first `connected` ones those
/// that have it, in ascending order.
pub fn helpers(connected: usize, piece: &WantedPiece) -> (helping: Vec<usize>)
    ensures
        forall|i: int, j: int| 0 <= i < j < helping@.len() ==> helping@[i] < helping@[j],
        forall|peer: usize| #[trigger]
            helping@.contains(peer) <==> peer < connected && piece.peers@.contains(peer),
{
    let mut helping: Vec<usize> = Vec::new();
    let mut peer_i: usize = 0;
    while peer_i < connected
        invariant
            peer_i <= connected,
            forall|i: int, j: int| 0 <= i < j < helping@.len() ==> helping@[i] < helping@[j],
            forall|i: int| 0 <= i < helping@.len() ==> #[trigger] helping@[i] < peer_i,
            forall|peer: usize| #[trigger]
                helping@.contains(peer) <==> peer < peer_i && piece.peers@.contains(peer),
        decreases connected - peer_i,
    {
        let ghost before = helping@;
        if has(&piece.peers, peer_i) {
            helping.push(peer_i);
            proof {
                assert(helping@[before.len() as int] == peer_i);
                assert forall|peer: usize| #[trigger] helping@.contains(peer) implies before.contains(
                    peer,
                ) || peer == peer_i by {
                    let i = helping@.index_of(peer);
                    if i < before.len() {
                        assert(before[i] == peer);
                    }
                }
                assert forall|peer: usize| before.contains(peer) implies
                    #[trigger] helping@.contains(peer) by {
                    let i = before.index_of(peer);
                    assert(helping@[i] == peer);
                }
                assert(helping@.contains(peer_i));
            }
        }
        peer_i = peer_i + 1;
    }
    helping
}

fn has(peers: &Vec<usize>, peer: usize) -> (found: bool)
    ensures
        found == peers@.contains(peer),
{
    let mut i: usize = 0;
    while i < peers.len()
        invariant
            i <= peers@.len(),
            forall|j: int| 0 <= j < i ==> peers@[j] != peer,
        decreases peers@.len() - i,
    {
        if peers[i] == peer {
            return true;
        }
        i = i + 1;
    }
    false
}

/// `buffer` with `block` in the place of what stood at `begin`.
pub open spec fn placed(buffer: Seq<u8>, begin: int, block: Seq<u8>) -> Seq<u8> {
    buffer.take(begin) + block + buffer.skip(begin + block.len())
}

/// Puts `block` in the place of what stands at `begin`.
fn place(buffer: &mut Vec<u8>, begin: usize, block: &[u8])
    requires
        begin + block@.len() <= old(buffer)@.len(),
    ensures
        final(buffer)@ == placed(old(buffer)@, begin as int, block@),
{
    let ghost before = buffer@;
    let mut i: usize = 0;
    while i < block.len()
        invariant
            i <= block@.len(),
            buffer@.len() == before.len(),
            begin + block@.len() <= before.len(),
            forall|j: int| 0 <= j < before.len() ==> #[trigger] buffer@[j] == (if begin <= j < begin + i {
                block@[j - begin]
            } else {
                before[j]
            }),
        decreases block@.len() - i,
    {
        assert(buffer@.len() == buffer.len());
        buffer[begin + i] = block[i];
        i = i + 1;
    }
    assert(buffer@ =~= placed(before, begin as int, block@));
}

/// The blocks of a piece, as far as they have arrived.
pub struct Assembly {
    all_blocks: Vec<u8>,
    bytes_received: usize,
    piece_size: usize,
}

impl Assembly {
    /// The bytes that the blocks are put into.
    pub closed spec fn blocks(self) -> Seq<u8> {
        self.all_blocks@
    }

    /// The number of bytes that have arrived.
    pub closed spec fn received(self) -> nat {
        self.bytes_received as nat
    }

    /// The length of the piece.
    pub closed spec fn size(self) -> nat {
        self.piece_size as nat
    }

    /// A piece of `piece_size` bytes of which nothing has arrived. The blocks are put into
    /// as many bytes of zero.
    pub fn new(piece_size: usize) -> (assembly: Assembly)
        ensures
            assembly.blocks() == zeros(piece_size as nat),
            assembly.received() == 0,
            assembly.size() == piece_size,
    {
        Assembly { all_blocks: blank(piece_size), bytes_received: 0, piece_size }
    }

    /// Whether the block in `payload` has a place among the blocks.
    pub open spec fn takes(self, payload: Seq<u8>) -> bool {
        &&& payload.len() >= 8
        &&& piece_begin(payload) + piece_block(payload).len() <= self.blocks().len()
        &&& self.received() + piece_block(payload).len() <= usize::MAX
    }

    /// Whether [`Assembly::add`] can be given the payload.
    pub fn admits(&self, payload: &[u8]) -> (admitted: bool)
        ensures
            admitted == self.takes(payload@),
    {
        match Piece::ref_from_bytes(payload) {
            None => false,
            Some(piece) => {
                let begin: usize = piece.begin() as usize;
                let length: usize = piece.block().len();
                begin <= self.all_blocks.len() && length <= self.all_blocks.len() - begin && length
                    <= usize::MAX - self.bytes_received
            },
        }
    }

    /// Puts the block in `payload` where it belongs, and says whether as many bytes have
    /// arrived as the piece has.
    pub fn add(&mut self, payload: &[u8]) -> (whole: bool)
        requires
            old(self).takes(payload@),
        ensures
            final(self).blocks() == placed(
                old(self).blocks(),
                piece_begin(payload@),
                piece_block(payload@),
            ),
            final(self).received() == old(self).received() + piece_block(payload@).len(),
            final(self).size() == old(self).size(),
            whole == (final(self).received() == final(self).size()),
    {
        match Piece::ref_from_bytes(payload) {
            None => false,
            Some(piece) => {
                self.bytes_received = self.bytes_received + piece.block().len();
                place(&mut self.all_blocks, piece.begin() as usize, piece.block());
                self.bytes_received == self.piece_size
            },
        }
    }

    /// Whether as many bytes have arrived as the piece has.
    pub fn is_whole(&self) -> (whole: bool)
        ensures
            whole == (self.received() == self.size()),
    {
        self.bytes_received == self.piece_size
    }

    /// Whether, if all bytes of the piece have arrived, the blocks are as long as the piece
    /// and have a place among all pieces of the torrent.
    pub open spec fn storable(self, index: int, plength: int, all_pieces: Seq<u8>) -> bool {
        self.received() == self.size() ==> self.blocks().len() == self.size() && index * plength
            + self.size() <= all_pieces.len()
    }

    /// Whether [`Assembly::store`] can be given the piece.
    pub fn admits_store(&self, piece: &WantedPiece, plength: usize, all_pieces: &Vec<u8>) -> (admitted:
        bool)
        ensures
            admitted == self.storable(piece.index as int, plength as int, all_pieces@),
    {
        if self.bytes_received != self.piece_size {
            return true;
        }
        assert(all_pieces@.len() == all_pieces.len());
        match piece.index.checked_mul(plength) {
            None => false,
            Some(begin) => self.all_blocks.len() == self.piece_size && begin <= all_pieces.len()
                && self.piece_size <= all_pieces.len() - begin,
        }
    }

    /// Puts the blocks where the piece belongs among all pieces of the torrent, if all its
    /// bytes have arrived and are those that the torrent has the hash of.
    pub fn store(&self, piece: &WantedPiece, plength: usize, all_pieces: &mut Vec<u8>) -> (result:
        Result<(), DownloadError>)
        requires
            self.storable(piece.index as int, plength as int, old(all_pieces)@),
        ensures
            if self.received() != self.size() {
                result == Err::<(), DownloadError>(DownloadError::NoPeersLeft(piece.index))
                    && final(all_pieces)@ == old(all_pieces)@
            } else if sha1_of(self.blocks()) != piece.hash@ {
                result == Err::<(), DownloadError>(DownloadError::WrongHash(piece.index))
                    && final(all_pieces)@ == old(all_pieces)@
            } else {
                result == Ok::<(), DownloadError>(()) && final(all_pieces)@ == placed(
                    old(all_pieces)@,
                    piece.index * plength,
                    self.blocks(),
                )
            },
    {
        if self.bytes_received != self.piece_size {
            return Err(DownloadError::NoPeersLeft(piece.index));
        }
        if !matches_hash(self.all_blocks.as_slice(), &piece.hash) {
            return Err(DownloadError::WrongHash(piece.index));
        }
        assert(all_pieces@.len() == all_pieces.len());
        assert(0 <= piece.index * plength) by (nonlinear_arith)
            requires
                0 <= piece.index,
                0 <= plength,
        ;
        place(all_pieces, piece.index * plength, self.all_blocks.as_slice());
        Ok(())
    }
}

/// `length` bytes of zero.
pub fn blank(length: usize) -> (bytes: Vec<u8>)
    ensures
        bytes@ == zeros(length as nat),
{
    let bytes: Vec<u8> = vec![0u8; length];
    assert(bytes@ =~= zeros(length as nat));
    bytes
}

/// A torrent that was downloaded: the bytes of all its files, and the files.
pub struct Downloaded {
    bytes: Vec<u8>,
    files: Vec<File>,
}

impl Downloaded {
    /// The bytes.
    pub closed spec fn content(self) -> Seq<u8> {
        self.bytes@
    }

    /// The files.
    pub closed spec fn list(self) -> Seq<File> {
        self.files@
    }

    /// The files of a torrent named `name`, in `bytes`.
    pub fn new(bytes: Vec<u8>, keys: Keys, name: String) -> (downloaded: Downloaded)
        ensures
            downloaded.content() == bytes@,
            are_files_of(downloaded.list(), keys, name@),
    {
        Downloaded { bytes, files: keys.into_files(name) }
    }

    /// The files, one after another.
    pub fn into_iter<'d>(&'d self) -> (files: DownloadedIter<'d>)
        ensures
            files.source() == *self,
            files.position() == 0,
            files.start() == 0,
    {
        DownloadedIter::new(self)
    }
}

/// The files of a torrent that are still to come.
pub struct DownloadedIter<'d> {
    downloaded: &'d Downloaded,
    file_i: usize,
    offset: usize,
}

impl<'d> DownloadedIter<'d> {
    /// The torrent.
    pub closed spec fn source(self) -> Downloaded {
        *self.downloaded
    }

    /// The place of the next file among the files.
    pub closed spec fn position(self) -> nat {
        self.file_i as nat
    }

    /// Where the bytes of the next file begin.
    pub closed spec fn start(self) -> nat {
        self.offset as nat
    }

    /// All files of a torrent.
    pub fn new(d: &'d Downloaded) -> (files: DownloadedIter<'d>)
        ensures
            files.source() == *d,
            files.position() == 0,
            files.start() == 0,
    {
        DownloadedIter { downloaded: d, file_i: 0, offset: 0 }
    }

    /// Whether there is another file and its bytes are there.
    pub open spec fn has_next(self) -> bool {
        self.position() < self.source().list().len() && self.start()
            + self.source().list()[self.position() as int].length <= self.source().content().len()
    }

    /// Whether [`DownloadedIter::next`] can be called: there is no other file, or its bytes
    /// are there.
    pub fn admits_next(&self) -> (admitted: bool)
        ensures
            admitted == (self.position() >= self.source().list().len() || self.has_next()),
    {
        if self.file_i >= self.downloaded.files.len() {
            return true;
        }
        let length: usize = self.downloaded.files[self.file_i].length;
        let there: usize = self.downloaded.bytes.len();
        self.offset <= there && length <= there - self.offset
    }

    /// The next file, if there is one. The bytes of the one behind it begin where its own
    /// do.
    pub fn next(&mut self) -> (file: Option<DownloadedFile<'d>>)
        requires
            old(self).position() >= old(self).source().list().len() || old(self).has_next(),
        ensures
            final(self).source() == old(self).source(),
            final(self).start() == old(self).start(),
            old(self).position() >= old(self).source().list().len() ==> file is None
                && final(self).position() == old(self).position(),
            old(self).has_next() ==> {
                let next = old(self).source().list()[old(self).position() as int];
                &&& final(self).position() == old(self).position() + 1
                &&& file matches Some(f) && f.file() == next && f.content()
                    == old(self).source().content().subrange(
                    old(self).start() as int,
                    old(self).start() + next.length,
                )
            },
    {
        if self.file_i >= self.downloaded.files.len() {
            return None;
        }
        let file: &'d File = &self.downloaded.files[self.file_i];
        assert(self.downloaded.bytes@.len() == self.downloaded.bytes.len());
        let bytes: &'d [u8] = slice_subrange(
            self.downloaded.bytes.as_slice(),
            self.offset,
            self.offset + file.length,
        );
        self.file_i = self.file_i + 1;
        Some(DownloadedFile { file, bytes })
    }
}

/// A file of a torrent that was downloaded.
pub struct DownloadedFile<'d> {
    file: &'d File,
    bytes: &'d [u8],
}

impl<'d> DownloadedFile<'d> {
    /// What the torrent says of the file.
    pub closed spec fn file(self) -> File {
        *self.file
    }

    /// The bytes of the file.
    pub closed spec fn content(self) -> Seq<u8> {
        self.bytes@
    }

    /// The directories that lead to the file, and its name.
    pub fn path(&self) -> (path: &'d [String])
        ensures
            path@ == self.file().path@,
    {
        self.file.path.as_slice()
    }

    /// The bytes of the file.
    pub fn bytes(&self) -> (bytes: &'d [u8])
        ensures
            bytes@ == self.content(),
    {
        self.bytes
    }
}

} // verus!
