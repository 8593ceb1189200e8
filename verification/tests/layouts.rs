use bittorrent::tracker::TrackerRequest;
use bittorrent::wire::{greeting, Handshake, Piece, Request};

#[test]
fn greeting_carries_the_id_of_this_peer() {
    let mut handshake = greeting([7; 20]);
    assert_eq!(handshake.peer_id(), *b"00112233445566778899");
    assert_eq!(TrackerRequest::first(1).peer_id.as_bytes(), &handshake.peer_id()[..]);
    let mut same = Handshake::new([7; 20], *b"00112233445566778899");
    assert_eq!(handshake.as_bytes_mut(), same.as_bytes_mut());
}

#[test]
fn handshake_layout() {
    let mut handshake = Handshake::new([7; 20], *b"00112233445566778899");
    assert_eq!(handshake.length(), 19);
    assert_eq!(handshake.bittorrent(), *b"BitTorrent protocol");
    assert_eq!(handshake.reserved(), [0; 8]);
    assert_eq!(handshake.info_hash(), [7; 20]);
    assert_eq!(handshake.peer_id(), *b"00112233445566778899");
    assert!(handshake.is_bittorrent());
    assert!(handshake.answers(&[7; 20]));
    assert!(!handshake.answers(&[8; 20]));
    let bytes = handshake.as_bytes_mut();
    assert_eq!(bytes.len(), 68);
    assert_eq!(bytes[0], 19);
    assert_eq!(&bytes[1..20], b"BitTorrent protocol");
    assert_eq!(&bytes[20..28], &[0; 8]);
    assert_eq!(&bytes[28..48], &[7; 20]);
    assert_eq!(&bytes[48..], b"00112233445566778899");
}

#[test]
fn handshake_is_read_into() {
    let mut handshake = Handshake::new([7; 20], [1; 20]);
    let other: Vec<u8> = (0..68).collect();
    handshake.as_bytes_mut().copy_from_slice(&other);
    assert_eq!(handshake.length(), 0);
    assert_eq!(&handshake.bittorrent()[..], &other[1..20]);
    assert_eq!(&handshake.reserved()[..], &other[20..28]);
    assert_eq!(&handshake.info_hash()[..], &other[28..48]);
    assert_eq!(&handshake.peer_id()[..], &other[48..68]);
    assert!(!handshake.is_bittorrent());
}

#[test]
fn request_layout() {
    let mut request = Request::new(0x01020304, 0x05060708, 0xfffefdfc);
    assert_eq!(request.index(), 0x01020304);
    assert_eq!(request.begin(), 0x05060708);
    assert_eq!(request.length(), 0xfffefdfc);
    assert_eq!(request.as_bytes_mut(), &[1, 2, 3, 4, 5, 6, 7, 8, 255, 254, 253, 252]);
    request.as_bytes_mut()[3] = 9;
    assert_eq!(request.index(), 0x01020309);
}

#[test]
fn piece_layout() {
    let data = [0u8, 0, 1, 0, 0, 0, 64, 0, 5, 6, 7];
    let piece = Piece::ref_from_bytes(&data).unwrap();
    assert_eq!(piece.index(), 256);
    assert_eq!(piece.begin(), 16384);
    assert_eq!(piece.block(), &[5, 6, 7]);
}

#[test]
fn piece_needs_eight_bytes() {
    assert!(Piece::ref_from_bytes(&[0; 7]).is_none());
    assert!(Piece::ref_from_bytes(&[]).is_none());
    let bare = [1u8; 8];
    let piece = Piece::ref_from_bytes(&bare).unwrap();
    assert_eq!(piece.index(), 0x01010101);
    assert!(piece.block().is_empty());
}
