use bittorrent::blocks::{count_blocks, length_of_block, BLOCK_MAX};
use bittorrent::digest::info_hash;
use bittorrent::download::{
    blank, enough_peers, helpers, Assembly, DownloadError, Downloaded, DownloadedIter, PieceQueue,
    WantedPiece,
};
use bittorrent::framing::{Message, MessageTag};
use bittorrent::peer::PeerError;
use bittorrent::piece_download::{PieceDownload, Stage};
use bittorrent::torrent::{File, Keys};

fn wanted(index: usize, peers: Vec<usize>, rank: usize) -> WantedPiece {
    WantedPiece { index, length: 2, hash: [0; 20], peers, rank }
}

fn answer(index: u32, begin: u32, block: &[u8]) -> Vec<u8> {
    let mut payload = index.to_be_bytes().to_vec();
    payload.extend_from_slice(&begin.to_be_bytes());
    payload.extend_from_slice(block);
    payload
}

fn content(n: usize) -> Vec<u8> {
    (0..n).map(|i| (i % 251) as u8).collect()
}

#[test]
fn five_peers_are_enough() {
    assert!(!enough_peers(4));
    assert!(enough_peers(5));
    assert!(enough_peers(6));
}

#[test]
fn pieces_come_by_rank() {
    let mut queue = PieceQueue::new();
    for (index, rank) in [(0, 3), (1, 7), (2, 1), (3, 7), (4, 5)] {
        queue.add(wanted(index, vec![0], rank));
    }
    assert!(queue.is_available());
    let mut order = Vec::new();
    while let Some(piece) = queue.pop() {
        order.push(piece.index);
    }
    assert_eq!(order, vec![1, 3, 4, 0, 2]);
    assert!(queue.pop().is_none());
}

#[test]
fn pieces_without_peers() {
    let mut queue = PieceQueue::new();
    queue.add(wanted(0, vec![], 9));
    assert!(!queue.is_available());
    assert!(queue.pop().is_none());
    queue.add(wanted(1, vec![2], 0));
    assert_eq!(queue.pop().unwrap().index, 1);
    assert!(!queue.is_available());
}

#[test]
fn helpers_are_connected_and_have_the_piece() {
    assert_eq!(helpers(4, &wanted(0, vec![3, 9, 1, 3], 0)), vec![1, 3]);
    assert!(helpers(0, &wanted(0, vec![0], 0)).is_empty());
}

#[test]
fn assembly_of_two_bytes() {
    let mut assembly = Assembly::new(2);
    assert!(!assembly.is_whole());
    let payload = answer(1, 0, &[7, 9]);
    assert!(assembly.admits(&payload));
    assert!(assembly.add(&payload));
    assert!(assembly.is_whole());
    let mut piece = wanted(1, vec![0], 0);
    piece.hash = [
        230, 247, 7, 114, 197, 243, 3, 59, 185, 104, 103, 43, 125, 23, 152, 32, 32, 78, 187, 133,
    ];
    let mut all = blank(6);
    assert_eq!(assembly.store(&piece, 2, &mut all), Ok(()));
    assert_eq!(all, vec![0, 0, 7, 9, 0, 0]);
}

#[test]
fn assembly_has_room_for_the_piece() {
    let assembly = Assembly::new(300);
    assert!(assembly.admits(&answer(0, 0, &[1; 300])));
    assert!(assembly.admits(&answer(0, 299, &[1])));
    assert!(!assembly.admits(&answer(0, 0, &[1; 301])));
    assert!(!assembly.admits(&answer(0, 300, &[1])));
    assert!(assembly.admits(&answer(0, 300, &[])));
    assert!(!assembly.admits(&[0; 7]));
}

#[test]
fn assembly_starts_as_zeros() {
    let mut assembly = Assembly::new(3);
    assert!(!assembly.add(&answer(0, 1, &[5])));
    let mut piece = wanted(0, vec![0], 0);
    piece.hash = info_hash(&[0, 5, 0]);
    let mut all = blank(3);
    assert_eq!(assembly.store(&piece, 3, &mut all), Err(DownloadError::NoPeersLeft(0)));
    assert!(!assembly.add(&answer(0, 1, &[5])));
    assert!(assembly.add(&answer(0, 1, &[5])));
    assert_eq!(assembly.store(&piece, 3, &mut all), Ok(()));
    assert_eq!(all, vec![0, 5, 0]);
}

#[test]
fn assembly_with_a_wrong_hash() {
    let mut assembly = Assembly::new(2);
    assert!(assembly.add(&answer(4, 0, &[7, 9])));
    let mut all = blank(20);
    let piece = wanted(4, vec![0], 0);
    assert_eq!(assembly.store(&piece, 2, &mut all), Err(DownloadError::WrongHash(4)));
    assert_eq!(all, vec![0; 20]);
}

#[test]
fn blocks_make_up_the_piece_in_any_order() {
    let whole = content(2 * BLOCK_MAX + 100);
    let n = count_blocks(whole.len());
    let mut assembly = Assembly::new(whole.len());
    for (turn, block) in [2, 0, 1].iter().enumerate() {
        let begin = block * BLOCK_MAX;
        let length = length_of_block(*block, n, whole.len());
        let payload = answer(0, begin as u32, &whole[begin..begin + length]);
        assert!(assembly.admits(&payload));
        assert_eq!(assembly.add(&payload), turn == 2);
    }
    let mut piece = wanted(1, vec![0], 0);
    piece.hash = info_hash(&whole);
    let mut all = blank(2 * whole.len());
    assert_eq!(assembly.store(&piece, whole.len(), &mut all), Ok(()));
    assert_eq!(all[..whole.len()], vec![0; whole.len()][..]);
    assert_eq!(all[whole.len()..], whole[..]);
}

#[test]
fn single_file_is_everything() {
    let d = Downloaded::new(vec![1, 2, 3], Keys::SingleFile { length: 3 }, "name".to_string());
    let mut files = d.into_iter();
    assert!(files.admits_next());
    let file = files.next().unwrap();
    assert_eq!(file.path(), &["name".to_string()]);
    assert_eq!(file.bytes(), &[1, 2, 3]);
    assert!(files.admits_next());
    assert!(files.next().is_none());
    assert!(files.next().is_none());
}

#[test]
fn every_file_begins_at_the_start() {
    let listed = vec![
        File { length: 2, path: vec!["a".to_string(), "b".to_string()] },
        File { length: 3, path: vec!["c".to_string()] },
        File { length: 9, path: vec![] },
    ];
    let keys = Keys::MultiFile { files: listed };
    assert_eq!(keys.single_length(), None);
    assert_eq!(Keys::SingleFile { length: 4 }.single_length(), Some(4));
    let d = Downloaded::new(vec![1, 2, 3, 4, 5], keys, "name".to_string());
    let mut files = DownloadedIter::new(&d);
    let first = files.next().unwrap();
    assert_eq!(first.path(), &["a".to_string(), "b".to_string()]);
    assert_eq!(first.bytes(), &[1, 2]);
    let second = files.next().unwrap();
    assert_eq!(second.path(), &["c".to_string()]);
    assert_eq!(second.bytes(), &[1, 2, 3]);
    assert!(!files.admits_next());
}

fn open(plength: usize, hash: [u8; 20]) -> (PieceDownload, Option<Message>) {
    let mut download = PieceDownload::new(1, &vec![[9; 20], hash], plength);
    assert_eq!(download.awaits(), Some(Stage::Bitfield));
    let bitfield = Message { tag: MessageTag::Bitfield, payload: vec![0xc0] };
    let hello = download.on_message(&bitfield).unwrap().unwrap();
    assert_eq!(hello.tag, MessageTag::Intrested);
    assert!(hello.payload.is_empty());
    assert_eq!(download.awaits(), Some(Stage::Unchoke));
    let unchoke = Message { tag: MessageTag::Unchoke, payload: vec![] };
    let request = download.on_message(&unchoke).unwrap();
    (download, request)
}

#[test]
fn piece_is_downloaded_block_after_block() {
    let whole = content(20_000);
    let hash = [
        0x7f, 0x21, 0xd0, 0xbe, 0xc0, 0xec, 0x41, 0xae, 0xa4, 0x38, 0x54, 0xe5, 0xbb, 0x9e, 0x97,
        0x95, 0x1d, 0x38, 0x31, 0x57,
    ];
    let (mut download, request) = open(20_000, hash);
    assert_eq!(request.unwrap().payload, vec![0, 0, 0, 1, 0, 0, 0, 0, 0, 0, 64, 0]);
    let first = Message { tag: MessageTag::Piece, payload: answer(1, 0, &whole[..BLOCK_MAX]) };
    let request = download.on_message(&first).unwrap().unwrap();
    assert_eq!(request.tag, MessageTag::Request);
    assert_eq!(request.payload, vec![0, 0, 0, 1, 0, 0, 64, 0, 0, 0, 0x0e, 0x20]);
    assert_eq!(download.awaits(), Some(Stage::Blocks));
    let last = answer(1, BLOCK_MAX as u32, &whole[BLOCK_MAX..]);
    let last = Message { tag: MessageTag::Have, payload: last };
    assert!(download.on_message(&last).unwrap().is_none());
    assert_eq!(download.awaits(), None);
    assert_eq!(download.finish(), Some(whole));
}

#[test]
fn piece_with_a_wrong_hash_is_dropped() {
    let (mut download, _) = open(3, [0; 20]);
    let only = Message { tag: MessageTag::Piece, payload: answer(1, 0, &[1, 2, 3]) };
    assert!(download.on_message(&only).unwrap().is_none());
    assert_eq!(download.finish(), None);
}

#[test]
fn piece_of_no_bytes() {
    let (download, request) = open(0, info_hash(&[]));
    assert!(request.is_none());
    assert_eq!(download.awaits(), None);
    assert_eq!(download.finish(), Some(vec![]));
}

#[test]
fn piece_download_refuses_what_is_out_of_turn() {
    let choke = Message { tag: MessageTag::Choke, payload: vec![] };
    let mut download = PieceDownload::new(0, &vec![[0; 20]], 5);
    assert_eq!(download.on_message(&choke).err(), Some(PeerError::NoBitfield));
    assert_eq!(download.awaits(), Some(Stage::Bitfield));
    let bitfield = Message { tag: MessageTag::Bitfield, payload: vec![] };
    assert!(download.on_message(&bitfield).is_ok());
    assert_eq!(download.on_message(&choke).err(), Some(PeerError::NotUnchoked));
    let odd = Message { tag: MessageTag::Unchoke, payload: vec![1] };
    assert_eq!(download.on_message(&odd).err(), Some(PeerError::PayloadNotEmpty));
    let unchoke = Message { tag: MessageTag::Unchoke, payload: vec![] };
    assert!(download.on_message(&unchoke).is_ok());
    for (payload, error) in [
        (answer(1, 0, &[0; 5]), PeerError::OtherPiece),
        (answer(0, 1, &[0; 5]), PeerError::OtherBlock),
        (answer(0, 0, &[0; 4]), PeerError::OtherLength),
    ] {
        let message = Message { tag: MessageTag::Piece, payload };
        assert_eq!(download.on_message(&message).err(), Some(error));
        assert_eq!(download.awaits(), Some(Stage::Blocks));
    }
}
