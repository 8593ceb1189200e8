use bittorrent::framing::{FrameError, Message, MessageFramer, MessageTag, MAX};
use bittorrent::report::describe_refusal;
use bytes::BytesMut;

const TAGS: [MessageTag; 9] = [
    MessageTag::Choke,
    MessageTag::Unchoke,
    MessageTag::Intrested,
    MessageTag::NotInterested,
    MessageTag::Have,
    MessageTag::Bitfield,
    MessageTag::Request,
    MessageTag::Piece,
    MessageTag::Cancel,
];

fn buffer(bytes: &[u8]) -> BytesMut {
    BytesMut::from(bytes)
}

#[test]
fn encode_writes_length_tag_and_payload() {
    let mut dst = buffer(&[1, 2]);
    let message = Message { tag: MessageTag::Have, payload: vec![9, 8, 7] };
    assert_eq!(MessageFramer.encode(message, &mut dst), Ok(()));
    assert_eq!(&dst[..], &[1, 2, 0, 0, 0, 4, 4, 9, 8, 7]);
}

#[test]
fn encode_without_payload() {
    let mut dst = BytesMut::new();
    let message = Message { tag: MessageTag::Intrested, payload: Vec::new() };
    assert_eq!(MessageFramer.encode(message, &mut dst), Ok(()));
    assert_eq!(&dst[..], &[0, 0, 0, 1, 2]);
}

#[test]
fn encode_refuses_what_is_too_large() {
    let mut dst = buffer(&[5]);
    let message = Message { tag: MessageTag::Piece, payload: vec![0; MAX] };
    assert_eq!(MessageFramer.encode(message, &mut dst), Err(FrameError::TooLarge(MAX)));
    assert_eq!(&dst[..], &[5]);
}

#[test]
fn largest_message_goes_through() {
    let mut buf = BytesMut::new();
    let payload: Vec<u8> = (0..MAX - 1).map(|i| (i % 251) as u8).collect();
    let message = Message { tag: MessageTag::Piece, payload: payload.clone() };
    assert_eq!(MessageFramer.encode(message, &mut buf), Ok(()));
    assert_eq!(&buf[..5], &[0, 1, 0, 0, 7]);
    let read = MessageFramer.decode(&mut buf).unwrap().unwrap();
    assert_eq!(read.tag, MessageTag::Piece);
    assert_eq!(read.payload, payload);
    assert!(buf.is_empty());
}

#[test]
fn decode_every_tag() {
    for (code, tag) in TAGS.iter().enumerate() {
        let mut src = buffer(&[0, 0, 0, 2, code as u8, 42]);
        let read = MessageFramer.decode(&mut src).unwrap().unwrap();
        assert_eq!(read.tag, *tag);
        assert_eq!(read.payload, vec![42]);
        assert!(src.is_empty());
        assert_eq!(tag.code(), code as u8);
        assert_eq!(MessageTag::from_code(code as u8), Some(*tag));
    }
    assert_eq!(MessageTag::from_code(9), None);
}

#[test]
fn decode_refuses_an_unknown_tag() {
    let mut src = buffer(&[0, 0, 0, 1, 9, 1]);
    assert_eq!(MessageFramer.decode(&mut src).unwrap_err(), FrameError::UnknownTag(9));
    assert_eq!(&src[..], &[0, 0, 0, 1, 9, 1]);
}

#[test]
fn decode_refuses_what_is_too_large() {
    let mut src = buffer(&[0, 1, 0, 1, 7]);
    assert_eq!(MessageFramer.decode(&mut src).unwrap_err(), FrameError::TooLarge(65537));
    assert_eq!(src.len(), 5);
    let mut short = buffer(&[0, 1, 0, 1]);
    assert!(MessageFramer.decode(&mut short).unwrap().is_none());
}

#[test]
fn decode_waits_for_the_rest() {
    let whole = [0u8, 0, 0, 3, 4, 1, 2];
    for n in 0..whole.len() {
        let mut src = buffer(&whole[..n]);
        assert!(MessageFramer.decode(&mut src).unwrap().is_none());
        assert_eq!(&src[..], &whole[..n]);
        src.extend_from_slice(&whole[n..]);
        assert_eq!(MessageFramer.decode(&mut src).unwrap().unwrap().payload, vec![1, 2]);
    }
}

#[test]
fn decode_drops_heartbeats() {
    let mut src = buffer(&[0, 0, 0, 0, 0, 0, 0, 0, 0, 0, 0, 1, 1, 77]);
    let read = MessageFramer.decode(&mut src).unwrap().unwrap();
    assert_eq!(read.tag, MessageTag::Unchoke);
    assert!(read.payload.is_empty());
    assert_eq!(&src[..], &[77]);

    let mut only = buffer(&[0, 0, 0, 0, 0, 0]);
    assert!(MessageFramer.decode(&mut only).unwrap().is_none());
    assert_eq!(&only[..], &[0, 0]);
}

#[test]
fn messages_arrive_in_order() {
    let mut buf = BytesMut::new();
    for (i, tag) in TAGS.iter().enumerate() {
        let message = Message { tag: *tag, payload: vec![i as u8; i] };
        assert_eq!(MessageFramer.encode(message, &mut buf), Ok(()));
    }
    for (i, tag) in TAGS.iter().enumerate() {
        let read = MessageFramer.decode(&mut buf).unwrap().unwrap();
        assert_eq!(read.tag, *tag);
        assert_eq!(read.payload, vec![i as u8; i]);
    }
    assert!(MessageFramer.decode(&mut buf).unwrap().is_none());
}

#[test]
fn refusals_in_words() {
    assert_eq!(describe_refusal(FrameError::TooLarge(65537)), "Frame of length 65537 is too large.");
    assert_eq!(describe_refusal(FrameError::UnknownTag(200)), "Unknown message tag 200.");
}
