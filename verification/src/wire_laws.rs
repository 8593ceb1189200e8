//! What holds of the layouts that peers exchange, byte for byte.

use vstd::prelude::*;
#[allow(unused_imports)]
use vstd::utf8::{encode_utf8, is_ascii_chars_encode_utf8};
#[allow(unused_imports)]
use crate::big_endian::{be_bytes, be_bytes_then_value, be_value};
#[allow(unused_imports)]
use crate::peer::handshake_fault;
#[allow(unused_imports)]
use crate::peer::PeerError;
#[allow(unused_imports)]
use crate::wire::{handshake_bytes, info_hash_of, names_protocol, own_id, peer_id_of, piece_begin,
    piece_block, piece_index, protocol_name, request_bytes, zeros};

verus! {

/// The number in the four bytes from `at` on, the first one counting most.
pub open spec fn number_at(bytes: Seq<u8>, at: int) -> int {
    ((bytes[at] * 256 + bytes[at + 1]) * 256 + bytes[at + 2]) * 256 + bytes[at + 3]
}

/// The protocol is named in words, and this peer by twenty digits.
pub proof fn law_names_are_text()
    ensures
        protocol_name() == encode_utf8("BitTorrent protocol"@),
        protocol_name().len() == 19,
        own_id() == encode_utf8("00112233445566778899"@),
        own_id().len() == 20,
{
    reveal_strlit("BitTorrent protocol");
    reveal_strlit("00112233445566778899");
    is_ascii_chars_encode_utf8("BitTorrent protocol"@);
    is_ascii_chars_encode_utf8("00112233445566778899"@);
    assert(protocol_name() =~= encode_utf8("BitTorrent protocol"@));
    assert(own_id() =~= encode_utf8("00112233445566778899"@));
}

/// Each byte of a handshake has its place: the length of the protocol's name, the name, eight
/// zeros, the torrent's hash, the peer's id.
pub proof fn law_handshake_layout(info_hash: Seq<u8>, peer_id: Seq<u8>, i: int)
    requires
        info_hash.len() == 20,
        peer_id.len() == 20,
        0 <= i < 68,
    ensures
        handshake_bytes(info_hash, peer_id).len() == 68,
        i == 0 ==> handshake_bytes(info_hash, peer_id)[i] == 19,
        1 <= i < 20 ==> handshake_bytes(info_hash, peer_id)[i] == encode_utf8(
            "BitTorrent protocol"@,
        )[i - 1],
        20 <= i < 28 ==> handshake_bytes(info_hash, peer_id)[i] == 0,
        28 <= i < 48 ==> handshake_bytes(info_hash, peer_id)[i] == info_hash[i - 28],
        48 <= i ==> handshake_bytes(info_hash, peer_id)[i] == peer_id[i - 48],
{
    law_names_are_text();
}

/// Each part of a handshake is read from its place.
pub proof fn law_handshake_parts(handshake: Seq<u8>, i: int)
    requires
        handshake.len() == 68,
        0 <= i < 20,
    ensures
        info_hash_of(handshake).len() == 20,
        peer_id_of(handshake).len() == 20,
        info_hash_of(handshake)[i] == handshake[28 + i],
        peer_id_of(handshake)[i] == handshake[48 + i],
{
}

/// A handshake names the protocol exactly where its first twenty bytes do: the length 19 and
/// the name. What is reserved, the torrent and the peer have no say in it.
pub proof fn law_protocol_is_named_in_front(handshake: Seq<u8>)
    requires
        handshake.len() == 68,
    ensures
        names_protocol(handshake) <==> handshake[0] == 19 && forall|i: int|
            0 <= i < 19 ==> handshake[1 + i] == #[trigger] encode_utf8("BitTorrent protocol"@)[i],
{
    law_names_are_text();
    let part = handshake.subrange(1, 20);
    let name = encode_utf8("BitTorrent protocol"@);
    assert(forall|i: int| 0 <= i < 19 ==> part[i] == handshake[1 + i]);
    if handshake[0] == 19 && forall|i: int|
        0 <= i < 19 ==> handshake[1 + i] == #[trigger] encode_utf8("BitTorrent protocol"@)[i] {
        assert forall|i: int| 0 <= i < 19 implies part[i] == name[i] by {
            assert(handshake[1 + i] == encode_utf8("BitTorrent protocol"@)[i]);
        }
        assert(part =~= name);
    }
}

/// The handshakes without fault are those that name the protocol, whatever else they hold.
/// One that gives another length is faulted for that, and one with another name for that.
pub proof fn law_faultless_handshakes(handshake: Seq<u8>)
    requires
        handshake.len() == 68,
    ensures
        handshake_fault(handshake) is None <==> names_protocol(handshake),
        handshake_fault(handshake) == Some(PeerError::HandshakeLength) <==> handshake[0] != 19,
        handshake_fault(handshake) == Some(PeerError::HandshakeProtocol) <==> handshake[0] == 19
            && !names_protocol(handshake),
{
}

/// Two handshakes with the same first twenty bytes have the same fault, or none.
pub proof fn law_rest_of_handshake_has_no_say(a: Seq<u8>, b: Seq<u8>)
    requires
        a.len() == 68,
        b.len() == 68,
        forall|i: int| 0 <= i < 20 ==> a[i] == b[i],
    ensures
        handshake_fault(a) == handshake_fault(b),
{
    assert(a.subrange(1, 20) =~= b.subrange(1, 20));
}

/// A handshake that a peer opens with is accepted by the other end.
pub proof fn law_greeting_is_accepted(info_hash: Seq<u8>, peer_id: Seq<u8>)
    requires
        info_hash.len() == 20,
        peer_id.len() == 20,
    ensures
        handshake_fault(handshake_bytes(info_hash, peer_id)) is None,
        info_hash_of(handshake_bytes(info_hash, peer_id)) == info_hash,
        peer_id_of(handshake_bytes(info_hash, peer_id)) == peer_id,
{
    crate::wire::law_new_handshake_reads_back(info_hash, peer_id);
}

/// A request is three numbers of four bytes each, in the order index, begin, length.
pub proof fn law_request_layout(index: int, begin: int, length: int)
    requires
        0 <= index < 0x1_0000_0000,
        0 <= begin < 0x1_0000_0000,
        0 <= length < 0x1_0000_0000,
    ensures
        request_bytes(index, begin, length).len() == 12,
        number_at(request_bytes(index, begin, length), 0) == index,
        number_at(request_bytes(index, begin, length), 4) == begin,
        number_at(request_bytes(index, begin, length), 8) == length,
{
    be_bytes_then_value(index);
    be_bytes_then_value(begin);
    be_bytes_then_value(length);
}

/// The bytes that carry a block are two numbers of four bytes each, the piece's index and
/// where the block begins, and then the block.
pub proof fn law_piece_layout(data: Seq<u8>, i: int)
    requires
        data.len() >= 8,
    ensures
        piece_index(data) == number_at(data, 0),
        piece_begin(data) == number_at(data, 4),
        piece_block(data).len() == data.len() - 8,
        0 <= i < data.len() - 8 ==> piece_block(data)[i] == data[8 + i],
{
}

/// As many bytes of zero as asked for, and nothing else.
pub proof fn law_zeros_are_zero(n: nat, i: int)
    requires
        0 <= i < n,
    ensures
        zeros(n).len() == n,
        zeros(n)[i] == 0,
{
}

} // verus!
