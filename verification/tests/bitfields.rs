use bittorrent::bitfield::Bitfield;

#[test]
fn bitfield_has() {
    let bf = Bitfield::from_payload(vec![0b10101010, 0b01010101]);
    assert!(bf.has_piece(0));
    assert!(bf.has_piece(1));
    assert!(bf.has_piece(7));
    assert!(bf.has_piece(8));
    assert!(bf.has_piece(15));
}

#[test]
fn bitfield_iter() {
    let bf = Bitfield::from_payload(vec![0b10101010, 0b01010101]);
    let mut pieces = bf.pieces().into_iter();
    assert_eq!(pieces.next(), Some(0));
    assert_eq!(pieces.next(), Some(2));
    assert_eq!(pieces.next(), Some(4));
    assert_eq!(pieces.next(), Some(6));
    assert_eq!(pieces.next(), Some(9));
    assert_eq!(pieces.next(), Some(11));
    assert_eq!(pieces.next(), Some(13));
    assert_eq!(pieces.next(), Some(15));
}

#[test]
fn bitfield_ends() {
    let bf = Bitfield::from_payload(vec![0b10101010, 0b01010101]);
    assert_eq!(bf.pieces(), vec![0, 2, 4, 6, 9, 11, 13, 15]);
    assert!(!bf.has_piece(16));
    assert!(!bf.has_piece(usize::MAX));
}

#[test]
fn bitfield_empty() {
    let bf = Bitfield::from_payload(Vec::new());
    assert!(bf.pieces().is_empty());
    assert!(!bf.has_piece(0));
}

#[test]
fn bitfield_byte_decides_by_its_own_place() {
    let bf = Bitfield::from_payload(vec![0b01111111, 0b01000000, 0b11011111]);
    for piece in 0..8 {
        assert!(!bf.has_piece(piece));
    }
    for piece in 8..16 {
        assert!(bf.has_piece(piece));
    }
    for piece in 16..24 {
        assert!(!bf.has_piece(piece));
    }
}

#[test]
fn bitfield_ninth_byte_starts_over() {
    let mut payload = vec![0u8; 9];
    payload[8] = 0b10000000;
    let bf = Bitfield::from_payload(payload);
    assert_eq!(bf.pieces(), vec![64]);
    assert!(bf.has_piece(64));
    assert!(bf.has_piece(71));
    assert!(!bf.has_piece(63));
}

#[test]
fn joined_payloads_list_both() {
    let first = Bitfield::from_payload(vec![0b00000001]);
    let second = Bitfield::from_payload(vec![0b10000000, 0b01000000]);
    assert_eq!(first.pieces(), vec![7]);
    assert_eq!(second.pieces(), vec![0, 9]);
    let both = Bitfield::from_payload(vec![0b00000001, 0b10000000, 0b01000000]);
    assert_eq!(both.pieces(), vec![7, 8, 17]);
}
