use bittorrent::blocks::{length_of_block, BLOCK_MAX};
use bittorrent::digest::info_hash;
use bittorrent::download::DownloadError;
use bittorrent::torrent::Keys;
use bittorrent::torrent_download::TorrentDownload;

fn answer(index: u32, block: &[u8]) -> Vec<u8> {
    let mut payload = index.to_be_bytes().to_vec();
    payload.extend_from_slice(&[0; 4]);
    payload.extend_from_slice(block);
    payload
}

fn two_pieces() -> TorrentDownload {
    let hashes = vec![info_hash(&[1, 2]), info_hash(&[3, 4])];
    let holders = vec![vec![0], vec![2, 1, 9]];
    TorrentDownload::new(4, 2, hashes, &holders, &vec![5, 6]).unwrap()
}

#[test]
fn torrent_is_downloaded_piece_by_piece() {
    let mut download = two_pieces();
    assert!(!download.admits(&answer(1, &[3, 4])));
    assert!(!download.admits_end());

    let job = download.next_piece(3).unwrap();
    assert_eq!((job.index, job.piece_size, job.nblocks), (1, 2, 1));
    assert_eq!(job.helpers, vec![1, 2]);
    assert!(download.admits(&answer(1, &[3, 4])));
    assert!(!download.admits(&answer(1, &[3, 4, 5])));
    assert!(!download.on_block(&answer(1, &[3])));
    assert_eq!(download.end_piece(), Err(DownloadError::NoPeersLeft(1)));
    assert!(!download.on_block(&answer(1, &[3, 4])));

    let mut download = two_pieces();
    assert!(download.next_piece(3).is_some());
    assert!(download.on_block(&answer(1, &[3, 4])));
    assert!(download.admits_end());
    assert_eq!(download.end_piece(), Ok(()));
    let job = download.next_piece(3).unwrap();
    assert_eq!((job.index, job.helpers), (0, vec![0]));
    assert!(download.on_block(&answer(0, &[1, 2])));
    assert_eq!(download.end_piece(), Ok(()));
    assert!(download.next_piece(3).is_none());

    let done = download.finish(Keys::SingleFile { length: 4 }, "name".to_string());
    let file = done.into_iter().next().unwrap();
    assert_eq!(file.bytes(), &[1, 2, 3, 4]);
    assert_eq!(file.path(), &["name".to_string()]);
}

#[test]
fn torrent_with_a_wrong_piece() {
    let mut download = two_pieces();
    assert!(download.next_piece(0).unwrap().helpers.is_empty());
    assert!(download.on_block(&answer(1, &[4, 3])));
    assert!(download.admits_end());
    assert_eq!(download.end_piece(), Err(DownloadError::WrongHash(1)));
}

#[test]
fn torrent_with_a_piece_that_nobody_has() {
    let hashes = vec![[0; 20], [1; 20]];
    let holders = vec![vec![0], vec![]];
    assert!(TorrentDownload::new(4, 2, hashes, &holders, &vec![0, 0]).is_none());
}

#[test]
fn torrent_without_pieces() {
    let mut download = TorrentDownload::new(0, 0, vec![], &vec![], &vec![]).unwrap();
    assert!(download.next_piece(1).is_none());
    let done = download.finish(Keys::MultiFile { files: vec![] }, "name".to_string());
    assert!(done.into_iter().next().is_none());
}

#[test]
fn torrent_of_pieces_of_several_blocks() {
    let plength = 2 * BLOCK_MAX;
    let whole: Vec<u8> = (0..2 * plength + BLOCK_MAX + 7).map(|i| (i % 251) as u8).collect();
    let pieces: Vec<&[u8]> = whole.chunks(plength).collect();
    let hashes: Vec<[u8; 20]> = pieces.iter().map(|piece| info_hash(piece)).collect();
    let holders = vec![vec![0], vec![0], vec![0]];
    let mut download =
        TorrentDownload::new(whole.len(), plength, hashes, &holders, &vec![2, 1, 3]).unwrap();
    let mut taken = Vec::new();
    while let Some(job) = download.next_piece(1) {
        let piece = pieces[job.index];
        assert_eq!((job.piece_size, job.nblocks), (piece.len(), 2));
        assert_eq!(job.helpers, vec![0]);
        for block in [1, 0] {
            let begin = block * BLOCK_MAX;
            let length = length_of_block(block, job.nblocks, job.piece_size);
            let mut payload = (job.index as u32).to_be_bytes().to_vec();
            payload.extend_from_slice(&(begin as u32).to_be_bytes());
            payload.extend_from_slice(&piece[begin..begin + length]);
            assert!(download.admits(&payload));
            assert_eq!(download.on_block(&payload), block == 0);
        }
        assert!(download.admits_end());
        assert_eq!(download.end_piece(), Ok(()));
        taken.push(job.index);
    }
    assert_eq!(taken, vec![2, 0, 1]);
    let done = download.finish(Keys::SingleFile { length: whole.len() }, "name".to_string());
    assert_eq!(done.into_iter().next().unwrap().bytes(), &whole[..]);
}

#[test]
fn piece_beyond_the_torrent_cannot_be_stored() {
    let hashes = vec![info_hash(&[1, 2, 3]), info_hash(&[4, 5, 6])];
    let holders = vec![vec![0], vec![0]];
    let mut download = TorrentDownload::new(3, 3, hashes, &holders, &vec![0, 1]).unwrap();
    assert_eq!(download.next_piece(1).unwrap().index, 1);
    assert!(download.admits_end());
    assert!(download.on_block(&answer(1, &[4, 5, 6])));
    assert!(!download.admits_end());
}

#[test]
fn torrent_shorter_than_its_piece_length() {
    let hashes = vec![info_hash(&[1, 2, 3])];
    let mut download =
        TorrentDownload::new(3, usize::MAX, hashes, &vec![vec![0]], &vec![0]).unwrap();
    let job = download.next_piece(1).unwrap();
    assert_eq!((job.index, job.piece_size, job.nblocks), (0, 3, 1));
    assert!(download.on_block(&answer(0, &[1, 2, 3])));
    assert!(download.admits_end());
    assert_eq!(download.end_piece(), Ok(()));
    assert!(download.next_piece(1).is_none());
}
