use bittorrent::download::{blank, Assembly, WantedPiece};
use bittorrent::torrent::{length_of_piece, split_hashes, File, Keys};
use bittorrent::tracker::{compact_peers, PeerAddress};

fn file(length: usize) -> File {
    File { length, path: vec!["a".to_string()] }
}

#[test]
fn lengths_of_files_add_up() {
    assert_eq!(Keys::SingleFile { length: 7 }.total_length(), Some(7));
    let keys = Keys::MultiFile { files: vec![file(5), file(0), file(6)] };
    assert_eq!(keys.total_length(), Some(11));
    assert_eq!(Keys::MultiFile { files: vec![] }.total_length(), Some(0));
    let keys = Keys::MultiFile { files: vec![file(usize::MAX), file(1)] };
    assert_eq!(keys.total_length(), None);
}

#[test]
fn last_piece_may_be_shorter() {
    assert_eq!(length_of_piece(0, 3, 25, 10), 10);
    assert_eq!(length_of_piece(1, 3, 25, 10), 10);
    assert_eq!(length_of_piece(2, 3, 25, 10), 5);
    assert_eq!(length_of_piece(2, 3, 30, 10), 10);
}

#[test]
fn pieces_tile_the_torrent() {
    for (length, npieces) in [(1, 1), (10, 1), (11, 2), (25, 3), (30, 3)] {
        let mut end = 0;
        for piece_i in 0..npieces {
            assert_eq!(end, piece_i * 10);
            end += length_of_piece(piece_i, npieces, length, 10);
        }
        assert_eq!(end, length);
    }
}

#[test]
fn hashes_of_twenty_bytes() {
    let bytes: Vec<u8> = (0..40).collect();
    let hashes = split_hashes(&bytes).unwrap();
    assert_eq!(hashes.len(), 2);
    assert_eq!(hashes[0][..], bytes[..20]);
    assert_eq!(hashes[1][..], bytes[20..]);
    assert_eq!(split_hashes(&bytes[..39]), None);
    assert_eq!(split_hashes(&[]), Some(vec![]));
}

#[test]
fn peers_of_six_bytes() {
    let bytes = [178, 62, 82, 89, 201, 14, 127, 0, 0, 1, 0, 80];
    assert_eq!(
        compact_peers(&bytes),
        Some(vec![
            PeerAddress { ip: [178, 62, 82, 89], port: 51470 },
            PeerAddress { ip: [127, 0, 0, 1], port: 80 },
        ]),
    );
    assert_eq!(compact_peers(&bytes[..7]), None);
    assert_eq!(compact_peers(&[]), Some(vec![]));
}

#[test]
fn storing_needs_room() {
    let piece = |index| WantedPiece { index, length: 2, hash: [0; 20], peers: vec![0], rank: 0 };
    let mut assembly = Assembly::new(2);
    assert!(assembly.admits_store(&piece(9), 2, &blank(4)));
    assert!(assembly.add(&[0, 0, 0, 0, 0, 0, 0, 0, 7, 9]));
    assert!(assembly.admits_store(&piece(1), 2, &blank(4)));
    assert!(!assembly.admits_store(&piece(2), 2, &blank(4)));
    assert!(!assembly.admits_store(&piece(usize::MAX), 2, &blank(4)));
}
