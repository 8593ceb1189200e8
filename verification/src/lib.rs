//! The verified core of a small BitTorrent client.

pub mod bencode;
pub mod bencode_laws;
pub mod big_endian;
pub mod bitfield;
pub mod blocks;
pub mod buffer;
pub mod decimal;
pub mod digest;
pub mod download;
pub mod download_laws;
pub mod framing;
pub mod framing_laws;
pub mod hexadecimal;
pub mod peer;
pub mod peer_laws;
pub mod piece_download;
pub mod report;
pub mod torrent;
pub mod torrent_download;
pub mod torrent_laws;
pub mod tracker;
pub mod wire;
pub mod wire_laws;
