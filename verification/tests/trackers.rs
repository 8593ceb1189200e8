use bittorrent::decimal::{decimal, parse_signed, parse_unsigned};
use bittorrent::digest::{info_hash, matches_hash};
use bittorrent::hexadecimal::{to_hex, urlencode};
use bittorrent::report::{describe_peer, describe_torrent};
use bittorrent::tracker::TrackerRequest;
use bittorrent::wire::Handshake;

fn counting() -> [u8; 20] {
    let mut hash = [0u8; 20];
    for i in 0..20 {
        hash[i] = 13 * i as u8;
    }
    hash
}

#[test]
fn urlencode_escapes_every_byte() {
    assert_eq!(
        urlencode(&counting()),
        "%00%0d%1a%27%34%41%4e%5b%68%75%82%8f%9c%a9%b6%c3%d0%dd%ea%f7",
    );
}

#[test]
fn hex_has_two_digits_for_each_byte() {
    assert_eq!(to_hex(&counting()), "000d1a2734414e5b6875828f9ca9b6c3d0ddeaf7");
}

#[test]
fn digests() {
    let hash = info_hash(b"hello world");
    assert_eq!(to_hex(&hash), "2aae6c35c94fcfb415dbe95f408b9ce91ee846ed");
    assert!(matches_hash(b"hello world", &hash));
    assert!(!matches_hash(b"hello world!", &hash));
    assert_eq!(to_hex(&info_hash(b"")), "da39a3ee5e6b4b0d3255bfef95601890afd80709");
}

#[test]
fn first_request_in_a_url() {
    let request = TrackerRequest::first(92063);
    assert_eq!(
        request.to_form().unwrap(),
        "peer_id=00112233445566778899&port=6881&uploaded=0&downloaded=0&left=92063&compact=1",
    );
    let mut hash = [0u8; 20];
    hash[0] = 0xab;
    assert_eq!(
        request.url("http://tracker.example/announce", &hash).unwrap(),
        "http://tracker.example/announce?peer_id=00112233445566778899&port=6881&uploaded=0\
         &downloaded=0&left=92063&compact=1&info_hash=%ab%00%00%00%00%00%00%00%00%00%00%00%00\
         %00%00%00%00%00%00%00",
    );
}

#[test]
fn form_escapes_what_is_special() {
    let request = TrackerRequest {
        peer_id: "a b&c=d+\u{e9}~*-._%Z9".to_string(),
        port: 65535,
        uploaded: usize::MAX,
        downloaded: 10,
        left: 100,
        compact: 0,
    };
    let form = request.to_form().unwrap();
    let start = "peer_id=a+b%26c%3Dd%2B%C3%A9%7E*-._%25Z9&port=65535&uploaded=";
    assert!(form.starts_with(start));
    assert!(form.ends_with("&downloaded=10&left=100&compact=0"));
}

#[test]
fn numbers_in_digits() {
    assert_eq!(decimal(0), "0");
    assert_eq!(decimal(9), "9");
    assert_eq!(decimal(10), "10");
    assert_eq!(decimal(u64::MAX), "18446744073709551615");
    assert_eq!(parse_unsigned(b"0042", 100), Some(42));
    assert_eq!(parse_unsigned(b"101", 100), None);
    assert_eq!(parse_unsigned(b"", 100), None);
    assert_eq!(parse_unsigned(b"+1", 100), None);
    assert_eq!(parse_unsigned(b"18446744073709551615", u64::MAX), Some(u64::MAX));
    assert_eq!(parse_unsigned(b"18446744073709551616", u64::MAX), None);
    assert_eq!(parse_signed(b"-0"), Some(0));
    assert_eq!(parse_signed(b"+12"), Some(12));
    assert_eq!(parse_signed(b"--1"), None);
    assert_eq!(parse_signed(b"-"), None);
}

#[test]
fn torrent_in_lines() {
    let lines = describe_torrent("http://t/a", 92063, &[0xff; 20], 32768, &vec![[1; 20], [0x20; 20]]);
    assert_eq!(
        lines,
        vec![
            "Tracker URL: http://t/a",
            "Length: 92063",
            "Info Hash: ffffffffffffffffffffffffffffffffffffffff",
            "Piece Length: 32768",
            "Piece Hashes:",
            "0101010101010101010101010101010101010101",
            "2020202020202020202020202020202020202020",
        ],
    );
}

#[test]
fn peer_in_a_line() {
    let handshake = Handshake::new([1; 20], *b"00112233445566778899");
    assert_eq!(
        describe_peer(&handshake),
        "Peer ID: 3030313132323333343435353636373738383939",
    );
}
