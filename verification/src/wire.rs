//! The fixed layouts that peers exchange: the handshake, a request for a block, and the
//! answer to one.

use vstd::prelude::*;
use vstd::slice::slice_subrange;
use crate::big_endian::{from_be, read_be, to_be};
#[allow(unused_imports)]
use crate::big_endian::{be_bytes, be_bytes_then_value, be_value};

verus! {

/// The name of the protocol, `BitTorrent protocol`, in ASCII.
pub open spec fn protocol_name() -> Seq<u8> {
    seq![
        66u8, 105, 116, 84, 111, 114, 114, 101, 110, 116, 32, 112, 114, 111, 116, 111, 99, 111,
        108,
    ]
}

/// The id of this peer, `00112233445566778899`, in ASCII.
pub open spec fn own_id() -> Seq<u8> {
    seq![
        48u8, 48, 49, 49, 50, 50, 51, 51, 52, 52, 53, 53, 54, 54, 55, 55, 56, 56, 57, 57,
    ]
}

/// `n` bytes of zero.
pub open spec fn zeros(n: nat) -> Seq<u8> {
    Seq::new(n, |i: int| 0u8)
}

fn protocol_bytes() -> (name: [u8; 19])
    ensures
        name@ == protocol_name(),
{
    let name: [u8; 19] = [
        66, 105, 116, 84, 111, 114, 114, 101, 110, 116, 32, 112, 114, 111, 116, 111, 99, 111, 108,
    ];
    assert(name@ =~= protocol_name());
    name
}

/// Whether two slices hold the same bytes.
pub fn same_bytes(a: &[u8], b: &[u8]) -> (same: bool)
    ensures
        same == (a@ == b@),
{
    if a.len() != b.len() {
        return false;
    }
    let mut i: usize = 0;
    while i < a.len()
        invariant
            a@.len() == b@.len(),
            i <= a@.len(),
            forall|j: int| 0 <= j < i ==> a@[j] == b@[j],
        decreases a@.len() - i,
    {
        if a[i] != b[i] {
            return false;
        }
        i = i + 1;
    }
    assert(a@ =~= b@);
    true
}

/// The first message on a connection, in both directions: 68 bytes.
///
/// - byte 0: the length of the protocol's name
/// - bytes 1 to 19: the protocol's name
/// - bytes 20 to 27: reserved
/// - bytes 28 to 47: the hash of the torrent's info section
/// - bytes 48 to 67: the id of the peer that sends it
pub struct Handshake {
    bytes: [u8; 68],
}

impl View for Handshake {
    type V = Seq<u8>;

    closed spec fn view(&self) -> Seq<u8> {
        self.bytes@
    }
}

/// The bytes of a handshake for a torrent, from a peer.
pub open spec fn handshake_bytes(info_hash: Seq<u8>, peer_id: Seq<u8>) -> Seq<u8> {
    seq![19u8] + protocol_name() + zeros(8) + info_hash + peer_id
}

/// Whether the bytes of a handshake name this protocol.
pub open spec fn names_protocol(handshake: Seq<u8>) -> bool {
    handshake[0] == 19 && handshake.subrange(1, 20) == protocol_name()
}

/// The hash of the info section in the bytes of a handshake.
pub open spec fn info_hash_of(handshake: Seq<u8>) -> Seq<u8> {
    handshake.subrange(28, 48)
}

/// The peer's id in the bytes of a handshake.
pub open spec fn peer_id_of(handshake: Seq<u8>) -> Seq<u8> {
    handshake.subrange(48, 68)
}

impl Handshake {
    /// The handshake that a peer of id `peer_id` opens with, for the torrent of hash
    /// `info_hash`.
    pub fn new(info_hash: [u8; 20], peer_id: [u8; 20]) -> (handshake: Handshake)
        ensures
            handshake@ == handshake_bytes(info_hash@, peer_id@),
            handshake@.len() == 68,
    {
        let name: [u8; 19] = protocol_bytes();
        let mut bytes: [u8; 68] = [0;68];
        let ghost wanted = handshake_bytes(info_hash@, peer_id@);
        bytes[0] = 19;
        let mut i: usize = 0;
        while i < 19
            invariant
                i <= 19,
                name@ == protocol_name(),
                bytes@[0] == 19,
                forall|j: int| 0 <= j < i ==> bytes@[1 + j] == name@[j],
                forall|j: int| 20 <= j < 68 ==> bytes@[j] == 0,
            decreases 19 - i,
        {
            bytes[1 + i] = name[i];
            i = i + 1;
        }
        assert(forall|j: int| 1 <= j < 20 ==> bytes@[j] == name@[j - 1]) by {
            assert forall|j: int| 1 <= j < 20 implies bytes@[j] == name@[j - 1] by {
                assert(bytes@[1 + (j - 1)] == name@[j - 1]);
            }
        }
        let mut i: usize = 0;
        while i < 20
            invariant
                i <= 20,
                name@ == protocol_name(),
                wanted == handshake_bytes(info_hash@, peer_id@),
                wanted.len() == 68,
                forall|j: int| 0 <= j < 28 + i ==> bytes@[j] == wanted[j],
                forall|j: int| 48 <= j < 48 + i ==> bytes@[j] == wanted[j],
            decreases 20 - i,
        {
            bytes[28 + i] = info_hash[i];
            bytes[48 + i] = peer_id[i];
            i = i + 1;
        }
        assert(bytes@ =~= wanted);
        Handshake { bytes }
    }

    /// The handshake as one slice, to send it from or to read another one into. What the
    /// slice holds at the end is what the handshake holds.
    pub fn as_bytes_mut(&mut self) -> (bytes: &mut [u8])
        ensures
            bytes@ == old(self)@,
            bytes@.len() == 68,
            final(self)@ == final(bytes)@,
    {
        &mut self.bytes
    }

    /// The length that the handshake gives for the protocol's name.
    pub fn length(&self) -> (length: u8)
        ensures
            self@.len() == 68,
            length == self@[0],
    {
        self.bytes[0]
    }

    /// The protocol's name.
    pub fn bittorrent(&self) -> (name: [u8; 19])
        ensures
            self@.len() == 68,
            name@ == self@.subrange(1, 20),
    {
        let mut name: [u8; 19] = [0;19];
        let mut i: usize = 0;
        while i < 19
            invariant
                i <= 19,
                forall|j: int| 0 <= j < i ==> name@[j] == self.bytes@[1 + j],
            decreases 19 - i,
        {
            name[i] = self.bytes[1 + i];
            i = i + 1;
        }
        assert(name@ =~= self@.subrange(1, 20));
        name
    }

    /// The reserved bytes.
    pub fn reserved(&self) -> (reserved: [u8; 8])
        ensures
            self@.len() == 68,
            reserved@ == self@.subrange(20, 28),
    {
        let mut reserved: [u8; 8] = [0;8];
        let mut i: usize = 0;
        while i < 8
            invariant
                i <= 8,
                forall|j: int| 0 <= j < i ==> reserved@[j] == self.bytes@[20 + j],
            decreases 8 - i,
        {
            reserved[i] = self.bytes[20 + i];
            i = i + 1;
        }
        assert(reserved@ =~= self@.subrange(20, 28));
        reserved
    }

    /// The hash of the torrent's info section.
    pub fn info_hash(&self) -> (info_hash: [u8; 20])
        ensures
            self@.len() == 68,
            info_hash@ == info_hash_of(self@),
    {
        self.twenty_from(28)
    }

    /// The id of the peer that sent the handshake.
    pub fn peer_id(&self) -> (peer_id: [u8; 20])
        ensures
            self@.len() == 68,
            peer_id@ == peer_id_of(self@),
    {
        self.twenty_from(48)
    }

    fn twenty_from(&self, at: usize) -> (part: [u8; 20])
        requires
            at <= 48,
        ensures
            self@.len() == 68,
            part@ == self@.subrange(at as int, at + 20),
    {
        let mut part: [u8; 20] = [0;20];
        let mut i: usize = 0;
        while i < 20
            invariant
                i <= 20,
                at <= 48,
                forall|j: int| 0 <= j < i ==> part@[j] == self.bytes@[at + j],
            decreases 20 - i,
        {
            part[i] = self.bytes[at + i];
            i = i + 1;
        }
        assert(part@ =~= self@.subrange(at as int, at + 20));
        part
    }

    /// Whether the handshake names this protocol.
    pub fn is_bittorrent(&self) -> (named: bool)
        ensures
            self@.len() == 68,
            named == names_protocol(self@),
    {
        self.length() == 19 && same_bytes(&self.bittorrent(), &protocol_bytes())
    }

    /// Whether the handshake names this protocol and the torrent of hash `info_hash`.
    pub fn answers(&self, info_hash: &[u8; 20]) -> (answered: bool)
        ensures
            self@.len() == 68,
            answered == (names_protocol(self@) && info_hash_of(self@) == info_hash@),
    {
        self.is_bittorrent() && same_bytes(&self.info_hash(), info_hash)
    }
}

/// The handshake that this peer opens with, for the torrent of hash `info_hash`.
pub fn greeting(info_hash: [u8; 20]) -> (handshake: Handshake)
    ensures
        handshake@ == handshake_bytes(info_hash@, own_id()),
        handshake@.len() == 68,
{
    let id: [u8; 20] = [
        48, 48, 49, 49, 50, 50, 51, 51, 52, 52, 53, 53, 54, 54, 55, 55, 56, 56, 57, 57,
    ];
    assert(id@ =~= own_id());
    Handshake::new(info_hash, id)
}

/// A handshake that a peer opens with names the protocol, the torrent and the peer.
pub proof fn law_new_handshake_reads_back(info_hash: Seq<u8>, peer_id: Seq<u8>)
    requires
        info_hash.len() == 20,
        peer_id.len() == 20,
    ensures
        names_protocol(handshake_bytes(info_hash, peer_id)),
        info_hash_of(handshake_bytes(info_hash, peer_id)) == info_hash,
        peer_id_of(handshake_bytes(info_hash, peer_id)) == peer_id,
        handshake_bytes(info_hash, peer_id).subrange(20, 28) == zeros(8),
{
    let bytes = handshake_bytes(info_hash, peer_id);
    assert(bytes.subrange(1, 20) =~= protocol_name());
    assert(bytes.subrange(20, 28) =~= zeros(8));
    assert(bytes.subrange(28, 48) =~= info_hash);
    assert(bytes.subrange(48, 68) =~= peer_id);
}

/// A request for a block of a piece: the piece's index, where the block begins in the
/// piece, and the block's length, four bytes each.
pub struct Request {
    bytes: [u8; 12],
}

impl View for Request {
    type V = Seq<u8>;

    closed spec fn view(&self) -> Seq<u8> {
        self.bytes@
    }
}

/// The bytes of a request.
pub open spec fn request_bytes(index: int, begin: int, length: int) -> Seq<u8> {
    be_bytes(index) + be_bytes(begin) + be_bytes(length)
}

impl Request {
    /// A request for the `length` bytes from `begin` on of piece `index`.
    pub fn new(index: u32, begin: u32, length: u32) -> (request: Request)
        ensures
            request@ == request_bytes(index as int, begin as int, length as int),
    {
        let a: [u8; 4] = to_be(index);
        let b: [u8; 4] = to_be(begin);
        let c: [u8; 4] = to_be(length);
        let bytes: [u8; 12] = [
            a[0], a[1], a[2], a[3], b[0], b[1], b[2], b[3], c[0], c[1], c[2], c[3],
        ];
        assert(bytes@ =~= a@ + b@ + c@);
        Request { bytes }
    }

    /// The index of the piece.
    pub fn index(&self) -> (index: u32)
        ensures
            self@.len() == 12,
            index == be_value(self@.subrange(0, 4)),
    {
        read_be(&self.bytes, 0)
    }

    /// Where the block begins in the piece.
    pub fn begin(&self) -> (begin: u32)
        ensures
            self@.len() == 12,
            begin == be_value(self@.subrange(4, 8)),
    {
        read_be(&self.bytes, 4)
    }

    /// The length of the block.
    pub fn length(&self) -> (length: u32)
        ensures
            self@.len() == 12,
            length == be_value(self@.subrange(8, 12)),
    {
        read_be(&self.bytes, 8)
    }

    /// The request as one slice. What the slice holds at the end is what the request holds.
    pub fn as_bytes_mut(&mut self) -> (bytes: &mut [u8])
        ensures
            bytes@ == old(self)@,
            bytes@.len() == 12,
            final(self)@ == final(bytes)@,
    {
        &mut self.bytes
    }
}

/// The three numbers of a request are read back from its bytes.
pub proof fn law_request_reads_back(index: int, begin: int, length: int)
    requires
        0 <= index < 0x1_0000_0000,
        0 <= begin < 0x1_0000_0000,
        0 <= length < 0x1_0000_0000,
    ensures
        request_bytes(index, begin, length).len() == 12,
        be_value(request_bytes(index, begin, length).subrange(0, 4)) == index,
        be_value(request_bytes(index, begin, length).subrange(4, 8)) == begin,
        be_value(request_bytes(index, begin, length).subrange(8, 12)) == length,
{
    be_bytes_then_value(index);
    be_bytes_then_value(begin);
    be_bytes_then_value(length);
    let bytes = request_bytes(index, begin, length);
    assert(bytes.subrange(0, 4) =~= be_bytes(index));
    assert(bytes.subrange(4, 8) =~= be_bytes(begin));
    assert(bytes.subrange(8, 12) =~= be_bytes(length));
}

/// A block of a piece, in the bytes that carry it: the piece's index and where the block
/// begins in the piece, four bytes each, then the block itself.
pub struct Piece<'a> {
    index: [u8; 4],
    begin: [u8; 4],
    block: &'a [u8],
}

impl<'a> View for Piece<'a> {
    type V = Seq<u8>;

    closed spec fn view(&self) -> Seq<u8> {
        self.index@ + self.begin@ + self.block@
    }
}

/// The index of the piece in the bytes that carry a block.
pub open spec fn piece_index(data: Seq<u8>) -> int {
    be_value(data.subrange(0, 4))
}

/// Where the block begins in the piece, in the bytes that carry the block.
pub open spec fn piece_begin(data: Seq<u8>) -> int {
    be_value(data.subrange(4, 8))
}

/// The block in the bytes that carry it.
pub open spec fn piece_block(data: Seq<u8>) -> Seq<u8> {
    data.subrange(8, data.len() as int)
}

impl<'a> Piece<'a> {
    /// The index of the piece.
    pub fn index(&self) -> (index: u32)
        ensures
            index == piece_index(self@),
    {
        assert(self@.subrange(0, 4) =~= self.index@);
        from_be(self.index)
    }

    /// Where the block begins in the piece.
    pub fn begin(&self) -> (begin: u32)
        ensures
            begin == piece_begin(self@),
    {
        assert(self@.subrange(4, 8) =~= self.begin@);
        from_be(self.begin)
    }

    /// The block.
    pub fn block(&self) -> (block: &'a [u8])
        ensures
            self@.len() >= 8,
            block@ == piece_block(self@),
    {
        assert(self.block@ =~= piece_block(self@));
        self.block
    }

    /// The block that `data` carries, if `data` is long enough for the two numbers before
    /// it. The block itself may be empty.
    pub fn ref_from_bytes(data: &'a [u8]) -> (piece: Option<Piece<'a>>)
        ensures
            piece is Some <==> data@.len() >= 8,
            piece is Some ==> piece->0@ == data@,
    {
        if data.len() < 8 {
            return None;
        }
        let piece: Piece<'a> = Piece {
            index: [data[0], data[1], data[2], data[3]],
            begin: [data[4], data[5], data[6], data[7]],
            block: slice_subrange(data, 8, data.len()),
        };
        assert(piece@ =~= data@);
        Some(piece)
    }
}

} // verus!
