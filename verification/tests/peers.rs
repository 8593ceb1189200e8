use bittorrent::blocks::{count_blocks, length_of_block, request_block, truncate32, BLOCK_MAX};
use bittorrent::framing::{Message, MessageTag};
use bittorrent::peer::{check_block, holders_of, Effect, Need, Participation, Peer, PeerError};
use bittorrent::wire::Handshake;

fn message(tag: MessageTag, payload: Vec<u8>) -> Message {
    Message { tag, payload }
}

fn answer(index: u32, begin: u32, block: &[u8]) -> Vec<u8> {
    let mut payload = index.to_be_bytes().to_vec();
    payload.extend_from_slice(&begin.to_be_bytes());
    payload.extend_from_slice(block);
    payload
}

fn peer() -> Peer {
    let handshake = Handshake::new([1; 20], [2; 20]);
    match Peer::new(&handshake, message(MessageTag::Bitfield, vec![0b10000000])) {
        Ok(peer) => peer,
        Err(e) => panic!("{:?}", e),
    }
}

fn unchoked() -> (Peer, Participation) {
    let mut peer = peer();
    let (mut job, _) = peer.partecipate(3, BLOCK_MAX + 10, 2);
    assert!(matches!(
        peer.on_message(&mut job, message(MessageTag::Unchoke, vec![])),
        Ok(Effect::Nothing)
    ));
    (peer, job)
}

#[test]
fn block_counts_and_lengths() {
    assert_eq!(BLOCK_MAX, 1 << 14);
    assert_eq!(count_blocks(0), 0);
    assert_eq!(count_blocks(1), 1);
    assert_eq!(count_blocks(BLOCK_MAX), 1);
    assert_eq!(count_blocks(BLOCK_MAX + 1), 2);
    assert_eq!(length_of_block(0, 2, BLOCK_MAX + 10), BLOCK_MAX);
    assert_eq!(length_of_block(1, 2, BLOCK_MAX + 10), 10);
    assert_eq!(length_of_block(1, 2, 2 * BLOCK_MAX), BLOCK_MAX);
}

#[test]
fn block_lengths_add_up() {
    for size in [1, 5, BLOCK_MAX - 1, BLOCK_MAX, BLOCK_MAX + 1, 3 * BLOCK_MAX, 100_000] {
        let n = count_blocks(size);
        let sum: usize = (0..n).map(|b| length_of_block(b, n, size)).sum();
        assert_eq!(sum, size);
    }
}

#[test]
fn requests_in_32_bits() {
    let request = request_block(258, 2, 10);
    assert_eq!(request.tag, MessageTag::Request);
    assert_eq!(request.payload, vec![0, 0, 1, 2, 0, 0, 128, 0, 0, 0, 0, 10]);
    assert_eq!(truncate32(7), 7);
    assert_eq!(truncate32(u32::MAX as usize), u32::MAX);
    assert_eq!(truncate32(0x1_0000_0005), 5);
}

#[test]
fn peer_is_made_of_handshake_and_bitfield() {
    let peer = peer();
    assert!(peer.is_choking());
    assert!(peer.has_piece(0));
    assert!(peer.has_piece(7));
    assert!(!peer.has_piece(8));
}

#[test]
fn peer_with_another_protocol() {
    let bitfield = || message(MessageTag::Bitfield, vec![]);
    let mut handshake = Handshake::new([1; 20], [2; 20]);
    handshake.as_bytes_mut()[0] = 18;
    assert_eq!(Peer::new(&handshake, bitfield()).err(), Some(PeerError::HandshakeLength));
    let mut handshake = Handshake::new([1; 20], [2; 20]);
    handshake.as_bytes_mut()[19] = b'L';
    assert_eq!(Peer::new(&handshake, bitfield()).err(), Some(PeerError::HandshakeProtocol));
    assert_eq!(Peer::check_handshake(&handshake), Err(PeerError::HandshakeProtocol));
    assert_eq!(Peer::check_handshake(&Handshake::new([9; 20], [2; 20])), Ok(()));
}

#[test]
fn peer_without_bitfield() {
    let handshake = Handshake::new([1; 20], [2; 20]);
    let first = message(MessageTag::Unchoke, vec![]);
    assert_eq!(Peer::new(&handshake, first).err(), Some(PeerError::NoBitfield));
}

#[test]
fn download_asks_for_what_the_peer_has() {
    let peer = peer();
    let request = peer.download(5, 1, 10).unwrap();
    assert_eq!(request.tag, MessageTag::Request);
    assert_eq!(request.payload, vec![0, 0, 0, 5, 0, 0, 64, 0, 0, 0, 0, 10]);
    assert_eq!(peer.download(8, 1, 10).err(), Some(PeerError::PieceNotThere));
}

#[test]
fn download_replies() {
    let piece = message(MessageTag::Piece, answer(5, 16384, &[1, 2]));
    assert_eq!(Peer::download_reply(&piece, 5, 1, 2), Ok(vec![1, 2]));
    assert_eq!(Peer::download_reply(&piece, 4, 1, 2), Err(PeerError::OtherPiece));
    assert_eq!(Peer::download_reply(&piece, 5, 0, 2), Err(PeerError::OtherBlock));
    assert_eq!(Peer::download_reply(&piece, 5, 1, 3), Err(PeerError::OtherLength));
    let empty = message(MessageTag::Piece, answer(5, 0, &[]));
    assert_eq!(Peer::download_reply(&empty, 5, 0, 0), Ok(vec![]));
    for payload in [vec![], answer(5, 16384, &[1, 2])] {
        let have = message(MessageTag::Have, payload);
        assert_eq!(Peer::download_reply(&have, 5, 1, 2), Err(PeerError::NotAPiece));
    }
}

#[test]
fn holders_are_the_peers_with_the_piece() {
    let with = |payload: Vec<u8>| {
        let handshake = Handshake::new([1; 20], [2; 20]);
        match Peer::new(&handshake, message(MessageTag::Bitfield, payload)) {
            Ok(peer) => peer,
            Err(e) => panic!("{:?}", e),
        }
    };
    let a = with(vec![0b10000000]);
    let b = with(vec![]);
    let c = with(vec![0b11111111, 0b01000000]);
    let peers = vec![&a, &b, &c];
    assert_eq!(holders_of(&peers, 0), vec![0, 2]);
    assert_eq!(holders_of(&peers, 9), vec![2]);
    assert!(holders_of(&peers, 16).is_empty());
    assert!(holders_of(&vec![], 0).is_empty());
}

#[test]
fn blocks_are_checked() {
    let payload = answer(5, 16384, &[1, 2]);
    assert_eq!(check_block(&payload, 5, 1, 2), Ok(vec![1, 2]));
    assert_eq!(check_block(&payload, 6, 1, 2), Err(PeerError::OtherPiece));
    assert_eq!(check_block(&payload, 5, 0, 2), Err(PeerError::OtherBlock));
    assert_eq!(check_block(&payload, 5, 1, 3), Err(PeerError::OtherLength));
}

#[test]
fn participation_opens_with_interest() {
    let peer = peer();
    let (job, hello) = peer.partecipate(3, 20, 1);
    assert_eq!(job, Participation { piece_i: 3, piece_size: 20, nblocks: 1, pending: None });
    assert_eq!(hello.tag, MessageTag::Intrested);
    assert!(hello.payload.is_empty());
    assert_eq!(peer.next_need(&job), Need::Message);
}

#[test]
fn choked_peer_is_waited_for() {
    let mut peer = peer();
    let (mut job, _) = peer.partecipate(3, 20, 1);
    for tag in [
        MessageTag::Have,
        MessageTag::Intrested,
        MessageTag::NotInterested,
        MessageTag::Request,
        MessageTag::Cancel,
        MessageTag::Piece,
    ] {
        assert!(matches!(peer.on_message(&mut job, message(tag, vec![1])), Ok(Effect::Nothing)));
        assert!(peer.is_choking());
        assert_eq!(peer.next_need(&job), Need::Message);
    }
    let choke = peer.on_message(&mut job, message(MessageTag::Choke, vec![]));
    assert_eq!(choke.err(), Some(PeerError::ChokeWhileChoked));
    let bitfield = peer.on_message(&mut job, message(MessageTag::Bitfield, vec![]));
    assert_eq!(bitfield.err(), Some(PeerError::LateBitfield));
    let unchoke = message(MessageTag::Unchoke, vec![]);
    assert!(peer.admits(&job, &unchoke));
    assert!(!peer.admits(&job, &message(MessageTag::Unchoke, vec![1])));
    assert!(matches!(peer.on_message(&mut job, unchoke), Ok(Effect::Nothing)));
    assert!(!peer.is_choking());
    assert_eq!(peer.next_need(&job), Need::Task);
}

#[test]
fn block_is_asked_for_and_arrives() {
    let (mut peer, mut job) = unchoked();
    let request = peer.on_task(&mut job, Some(1)).unwrap();
    assert_eq!(request.tag, MessageTag::Request);
    assert_eq!(request.payload, vec![0, 0, 0, 3, 0, 0, 64, 0, 0, 0, 0, 10]);
    assert_eq!(job.pending, Some(1));
    assert_eq!(peer.next_need(&job), Need::Message);

    let other = message(MessageTag::Piece, answer(3, 0, &[0; 5]));
    assert!(peer.admits(&job, &other));
    assert!(matches!(peer.on_message(&mut job, other), Ok(Effect::Nothing)));
    let short = message(MessageTag::Piece, answer(3, 16384, &[0; 9]));
    assert!(!peer.admits(&job, &short));
    assert!(!peer.admits(&job, &message(MessageTag::Piece, vec![0; 7])));

    let payload = answer(3, 16384, &[4; 10]);
    let right = message(MessageTag::Piece, payload.clone());
    assert!(peer.admits(&job, &right));
    match peer.on_message(&mut job, right) {
        Ok(Effect::Finish(done)) => {
            assert_eq!(done.tag, MessageTag::Piece);
            assert_eq!(done.payload, payload);
        }
        other => panic!("{:?}", other),
    }
    assert_eq!(job.pending, None);
    assert_eq!(peer.next_need(&job), Need::Task);
    assert!(peer.on_task(&mut job, None).is_none());
}

#[test]
fn choking_gives_the_block_back() {
    let (mut peer, mut job) = unchoked();
    assert!(peer.on_task(&mut job, Some(0)).is_some());
    assert!(!peer.admits(&job, &message(MessageTag::Choke, vec![1])));
    let choke = peer.on_message(&mut job, message(MessageTag::Choke, vec![]));
    assert!(matches!(choke, Ok(Effect::Resubmit(0))));
    assert!(peer.is_choking());
    assert_eq!(job.pending, None);
    assert_eq!(peer.next_need(&job), Need::Message);
}

#[test]
fn messages_out_of_turn() {
    let (mut peer, mut job) = unchoked();
    assert!(peer.on_task(&mut job, Some(0)).is_some());
    let unchoke = peer.on_message(&mut job, message(MessageTag::Unchoke, vec![]));
    assert_eq!(unchoke.err(), Some(PeerError::UnchokeWhileUnchoked));
    let bitfield = peer.on_message(&mut job, message(MessageTag::Bitfield, vec![]));
    assert_eq!(bitfield.err(), Some(PeerError::LateBitfield));
    for tag in [
        MessageTag::Have,
        MessageTag::Intrested,
        MessageTag::NotInterested,
        MessageTag::Request,
        MessageTag::Cancel,
    ] {
        assert!(matches!(peer.on_message(&mut job, message(tag, vec![1])), Ok(Effect::Nothing)));
        assert_eq!(job.pending, Some(0));
    }
}
