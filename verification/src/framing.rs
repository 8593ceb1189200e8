//! Messages between peers, and the frames that carry them.
//!
//! A frame is the length of what follows, four bytes, the most significant first; then the
//! code of the message's tag, one byte; then the payload. A length of zero is a heartbeat,
//! and carries nothing.

use bytes::BytesMut;
use vstd::prelude::*;
use vstd::slice::{slice_subrange, slice_to_vec};
use crate::big_endian::{read_be, to_be};
#[allow(unused_imports)]
use crate::big_endian::{be_bytes, be_bytes_then_value, be_value};
use crate::buffer::{advance, bytes_of, put_u8};
#[allow(unused_imports)]
use crate::buffer::buffered;

verus! {

/// The longest frame that is accepted or sent, the length field not counted.
pub const MAX: usize = 65536;

/// What a message is about.
#[derive(Debug, Clone, Copy, PartialEq, Eq, Structural)]
pub enum MessageTag {
    Choke,
    Unchoke,
    Intrested,
    NotInterested,
    Have,
    Bitfield,
    Request,
    Piece,
    Cancel,
}

/// A message from or to a peer.
#[derive(Debug, Clone)]
pub struct Message {
    pub tag: MessageTag,
    pub payload: Vec<u8>,
}

/// Why a frame is refused.
#[derive(Debug, Clone, Copy, PartialEq, Eq, Structural)]
pub enum FrameError {
    /// A frame or a payload of this length is too large.
    TooLarge(usize),
    /// No tag has this code.
    UnknownTag(u8),
}

/// Reads and writes frames.
pub struct MessageFramer;

/// The code of a tag on the wire.
pub open spec fn code_of(tag: MessageTag) -> u8 {
    match tag {
        MessageTag::Choke => 0,
        MessageTag::Unchoke => 1,
        MessageTag::Intrested => 2,
        MessageTag::NotInterested => 3,
        MessageTag::Have => 4,
        MessageTag::Bitfield => 5,
        MessageTag::Request => 6,
        MessageTag::Piece => 7,
        MessageTag::Cancel => 8,
    }
}

/// The tag with a code, if there is one.
pub open spec fn tag_of(code: u8) -> Option<MessageTag> {
    match code {
        0 => Some(MessageTag::Choke),
        1 => Some(MessageTag::Unchoke),
        2 => Some(MessageTag::Intrested),
        3 => Some(MessageTag::NotInterested),
        4 => Some(MessageTag::Have),
        5 => Some(MessageTag::Bitfield),
        6 => Some(MessageTag::Request),
        7 => Some(MessageTag::Piece),
        8 => Some(MessageTag::Cancel),
        _ => None,
    }
}

/// What the start of a buffer holds.
pub enum Frame {
    /// Part of a frame, or nothing.
    Incomplete,
    /// A frame that says it is this long, which is too long.
    TooLarge(int),
    /// A frame whose tag has this code, which no tag has.
    UnknownTag(u8),
    /// A whole frame.
    Whole(MessageTag, Seq<u8>),
}

/// The length that the frame at the start of `bytes` gives for itself.
pub open spec fn frame_length(bytes: Seq<u8>) -> int {
    be_value(bytes.subrange(0, 4))
}

/// What is left of `bytes` once the heartbeats at its start are dropped.
pub open spec fn without_heartbeats(bytes: Seq<u8>) -> Seq<u8>
    decreases bytes.len(),
{
    if bytes.len() >= 4 && frame_length(bytes) == 0 {
        without_heartbeats(bytes.skip(4))
    } else {
        bytes
    }
}

/// What the start of `bytes` holds, where it is no heartbeat.
pub open spec fn first_frame(bytes: Seq<u8>) -> Frame {
    if bytes.len() < 5 {
        Frame::Incomplete
    } else if frame_length(bytes) > MAX {
        Frame::TooLarge(frame_length(bytes))
    } else if bytes.len() < 4 + frame_length(bytes) {
        Frame::Incomplete
    } else {
        match tag_of(bytes[4]) {
            Some(tag) => Frame::Whole(tag, bytes.subrange(5, 4 + frame_length(bytes))),
            None => Frame::UnknownTag(bytes[4]),
        }
    }
}

/// The bytes of the frame that carries a message.
pub open spec fn frame_bytes(tag: MessageTag, payload: Seq<u8>) -> Seq<u8> {
    be_bytes((payload.len() + 1) as int) + seq![code_of(tag)] + payload
}

/// Whether `result` says what the start of `bytes` holds.
pub open spec fn reports(
    result: Result<Option<Message>, FrameError>,
    bytes: Seq<u8>,
) -> bool {
    match first_frame(bytes) {
        Frame::Incomplete => result matches Ok(None),
        Frame::TooLarge(n) => result matches Err(FrameError::TooLarge(m)) && m == n,
        Frame::UnknownTag(code) => result == Err::<Option<Message>, FrameError>(
            FrameError::UnknownTag(code),
        ),
        Frame::Whole(tag, payload) => result matches Ok(Some(message)) && message.tag == tag
            && message.payload@ == payload,
    }
}

/// What is left of `bytes` once the frame at its start is taken, if it holds a whole one.
pub open spec fn after_frame(bytes: Seq<u8>) -> Seq<u8> {
    if first_frame(bytes) is Whole {
        bytes.skip(4 + frame_length(bytes))
    } else {
        bytes
    }
}

impl MessageTag {
    /// The code of the tag on the wire.
    pub fn code(self) -> (code: u8)
        ensures
            code == code_of(self),
    {
        match self {
            MessageTag::Choke => 0,
            MessageTag::Unchoke => 1,
            MessageTag::Intrested => 2,
            MessageTag::NotInterested => 3,
            MessageTag::Have => 4,
            MessageTag::Bitfield => 5,
            MessageTag::Request => 6,
            MessageTag::Piece => 7,
            MessageTag::Cancel => 8,
        }
    }

    /// The tag with the code, if there is one.
    pub fn from_code(code: u8) -> (tag: Option<MessageTag>)
        ensures
            tag == tag_of(code),
    {
        match code {
            0 => Some(MessageTag::Choke),
            1 => Some(MessageTag::Unchoke),
            2 => Some(MessageTag::Intrested),
            3 => Some(MessageTag::NotInterested),
            4 => Some(MessageTag::Have),
            5 => Some(MessageTag::Bitfield),
            6 => Some(MessageTag::Request),
            7 => Some(MessageTag::Piece),
            8 => Some(MessageTag::Cancel),
            _ => None,
        }
    }
}

impl MessageFramer {
    /// Takes the next message off the buffer, if the whole of its frame is there.
    ///
    /// The heartbeats before it are dropped in any case. A frame that is refused stays in
    /// the buffer.
    pub fn decode(&mut self, src: &mut BytesMut) -> (result: Result<Option<Message>, FrameError>)
        ensures
            reports(result, without_heartbeats(buffered(*old(src)))),
            buffered(*final(src)) == after_frame(without_heartbeats(buffered(*old(src)))),
    {
        let ghost start = buffered(*old(src));
        while src.len() >= 4 && read_be(bytes_of(src), 0) == 0
            invariant
                without_heartbeats(buffered(*src)) == without_heartbeats(start),
            decreases buffered(*src).len(),
        {
            advance(src, 4);
        }
        let ghost rest = buffered(*src);
        if src.len() < 5 {
            return Ok(None);
        }
        let length: usize = read_be(bytes_of(src), 0) as usize;
        if length > MAX {
            return Err(FrameError::TooLarge(length));
        }
        if src.len() < 4 + length {
            let missing: usize = 4 + length - src.len();
            src.reserve(missing);
            return Ok(None);
        }
        let code: u8 = bytes_of(src)[4];
        match MessageTag::from_code(code) {
            None => Err(FrameError::UnknownTag(code)),
            Some(tag) => {
                let payload: Vec<u8> = slice_to_vec(slice_subrange(bytes_of(src), 5, 4 + length));
                advance(src, 4 + length);
                Ok(Some(Message { tag, payload }))
            },
        }
    }

    /// Appends the frame of the message to the buffer, unless the payload is too large for
    /// the other end to accept.
    pub fn encode(&mut self, item: Message, dst: &mut BytesMut) -> (result: Result<(), FrameError>)
        requires
            item.payload@.len() + 1 <= MAX ==> buffered(*old(dst)).len() + 5 + item.payload@.len()
                <= isize::MAX,
        ensures
            item.payload@.len() + 1 > MAX ==> result == Err::<(), FrameError>(
                FrameError::TooLarge(item.payload@.len() as usize),
            ) && buffered(*final(dst)) == buffered(*old(dst)),
            item.payload@.len() + 1 <= MAX ==> result == Ok::<(), FrameError>(())
                && buffered(*final(dst)) == buffered(*old(dst)) + frame_bytes(
                item.tag,
                item.payload@,
            ),
    {
        if item.payload.len() >= MAX {
            return Err(FrameError::TooLarge(item.payload.len()));
        }
        let length: [u8; 4] = to_be(item.payload.len() as u32 + 1);
        dst.reserve(4 + 1 + item.payload.len());
        dst.extend_from_slice(&length);
        put_u8(dst, item.tag.code());
        dst.extend_from_slice(item.payload.as_slice());
        proof {
            assert(buffered(*dst) =~= buffered(*old(dst)) + frame_bytes(item.tag, item.payload@));
        }
        Ok(())
    }
}

/// Every tag is the tag of its code.
pub proof fn law_tag_codes(tag: MessageTag)
    ensures
        tag_of(code_of(tag)) == Some(tag),
{
}

/// A code that has a tag is the code of that tag.
pub proof fn law_code_tags(code: u8)
    ensures
        tag_of(code) is Some <==> code <= 8,
        tag_of(code) is Some ==> code_of(tag_of(code)->0) == code,
{
}

/// Dropping heartbeats leaves no more bytes than there were, and no heartbeat in front.
pub proof fn without_heartbeats_shrinks(bytes: Seq<u8>)
    ensures
        without_heartbeats(bytes).len() <= bytes.len(),
        without_heartbeats(bytes).len() >= 4 ==> frame_length(without_heartbeats(bytes)) != 0,
        without_heartbeats(without_heartbeats(bytes)) == without_heartbeats(bytes),
    decreases bytes.len(),
{
    if bytes.len() >= 4 && frame_length(bytes) == 0 {
        without_heartbeats_shrinks(bytes.skip(4));
    }
}

/// What is written is what is read: the frame of a message, whatever comes behind it, gives
/// the message and leaves what came behind.
pub proof fn law_encoded_message_decodes(tag: MessageTag, payload: Seq<u8>, behind: Seq<u8>)
    requires
        payload.len() + 1 <= MAX,
    ensures
        without_heartbeats(frame_bytes(tag, payload) + behind) == frame_bytes(tag, payload)
            + behind,
        first_frame(frame_bytes(tag, payload) + behind) == Frame::Whole(tag, payload),
        after_frame(frame_bytes(tag, payload) + behind) == behind,
{
    let n: int = payload.len() as int + 1;
    let bytes = frame_bytes(tag, payload) + behind;
    be_bytes_then_value(n);
    assert(bytes.subrange(0, 4) =~= be_bytes(n));
    assert(bytes[4] == code_of(tag));
    law_tag_codes(tag);
    assert(bytes.subrange(5, 4 + n) =~= payload);
    assert(bytes.skip(4 + n) =~= behind);
}

/// A payload that is too large to send is also too large to receive, and no other is.
pub proof fn law_size_limit_is_shared(tag: MessageTag, payload: Seq<u8>, behind: Seq<u8>)
    requires
        payload.len() + 1 < 0x1_0000_0000,
    ensures
        first_frame(frame_bytes(tag, payload) + behind) is TooLarge <==> payload.len() + 1 > MAX,
{
    let n: int = payload.len() as int + 1;
    let bytes = frame_bytes(tag, payload) + behind;
    be_bytes_then_value(n);
    assert(bytes.subrange(0, 4) =~= be_bytes(n));
    if n <= MAX {
        law_encoded_message_decodes(tag, payload, behind);
    }
}

/// A message that is taken off a buffer is no longer than one that may be sent.
pub proof fn law_decoded_message_can_be_sent(bytes: Seq<u8>)
    requires
        first_frame(without_heartbeats(bytes)) is Whole,
    ensures
        first_frame(without_heartbeats(bytes))->Whole_1.len() + 1 <= MAX,
{
    without_heartbeats_shrinks(bytes);
}

/// What is taken off a buffer is a frame: writing the message again gives the bytes that it
/// was read from.
pub proof fn law_decoded_message_encodes(bytes: Seq<u8>)
    requires
        first_frame(without_heartbeats(bytes)) is Whole,
    ensures
        ({
            let rest = without_heartbeats(bytes);
            let frame = first_frame(rest);
            rest == frame_bytes(frame->Whole_0, frame->Whole_1) + after_frame(rest)
        }),
{
    without_heartbeats_shrinks(bytes);
    let rest = without_heartbeats(bytes);
    let n = frame_length(rest);
    let frame = first_frame(rest);
    crate::big_endian::be_value_then_bytes(rest.subrange(0, 4));
    law_code_tags(rest[4]);
    assert(frame->Whole_1.len() + 1 == n);
    assert(rest =~= frame_bytes(frame->Whole_0, frame->Whole_1) + after_frame(rest)) by {
        assert(be_bytes(n) =~= rest.subrange(0, 4));
        assert forall|i: int| 0 <= i < 4 implies rest[i] == be_bytes(n)[i] by {
            assert(rest.subrange(0, 4)[i] == rest[i]);
        }
    }
}

/// Heartbeats do not show: with one in front, a buffer gives what it gives without.
pub proof fn law_heartbeats_do_not_show(bytes: Seq<u8>)
    ensures
        without_heartbeats(be_bytes(0) + bytes) == without_heartbeats(bytes),
{
    let longer = be_bytes(0) + bytes;
    be_bytes_then_value(0);
    assert(longer.subrange(0, 4) =~= be_bytes(0));
    assert(longer.skip(4) =~= bytes);
}

/// Part of a frame is waited for, never refused: each proper prefix of the frame of a
/// message that may be sent is incomplete, and none of it is dropped.
pub proof fn law_partial_frame_is_kept(tag: MessageTag, payload: Seq<u8>, k: int)
    requires
        payload.len() + 1 <= MAX,
        0 <= k < frame_bytes(tag, payload).len(),
    ensures
        without_heartbeats(frame_bytes(tag, payload).take(k)) == frame_bytes(tag, payload).take(k),
        first_frame(frame_bytes(tag, payload).take(k)) is Incomplete,
{
    let n: int = payload.len() as int + 1;
    let bytes = frame_bytes(tag, payload).take(k);
    be_bytes_then_value(n);
    if k >= 4 {
        assert(bytes.subrange(0, 4) =~= be_bytes(n));
    }
}

/// Once a buffer has something to say, bytes that arrive later do not change what it says,
/// and stay behind what is left.
pub proof fn law_later_bytes_change_nothing(bytes: Seq<u8>, more: Seq<u8>)
    requires
        !(first_frame(without_heartbeats(bytes)) is Incomplete),
    ensures
        first_frame(without_heartbeats(bytes + more)) == first_frame(without_heartbeats(bytes)),
        after_frame(without_heartbeats(bytes + more)) == after_frame(without_heartbeats(bytes))
            + more,
    decreases bytes.len(),
{
    let longer = bytes + more;
    if bytes.len() >= 4 {
        assert(longer.subrange(0, 4) =~= bytes.subrange(0, 4));
        if frame_length(bytes) == 0 {
            assert(longer.skip(4) =~= bytes.skip(4) + more);
            law_later_bytes_change_nothing(bytes.skip(4), more);
        } else {
            let n = frame_length(bytes);
            assert(longer[4] == bytes[4]);
            if first_frame(bytes) is Whole {
                assert(longer.subrange(5, 4 + n) =~= bytes.subrange(5, 4 + n));
                assert(longer.skip(4 + n) =~= bytes.skip(4 + n) + more);
            }
        }
    }
}

/// The messages that a buffer gives, one after another, until it has no whole frame in
/// front.
pub open spec fn messages_in(bytes: Seq<u8>) -> Seq<(MessageTag, Seq<u8>)>
    decreases bytes.len(),
{
    let rest = without_heartbeats(bytes);
    match first_frame(rest) {
        Frame::Whole(tag, payload) => {
            proof {
                without_heartbeats_shrinks(bytes);
            }
            seq![(tag, payload)] + messages_in(after_frame(rest))
        },
        _ => seq![],
    }
}

/// What is left of a buffer once its messages are taken.
pub open spec fn left_in(bytes: Seq<u8>) -> Seq<u8>
    decreases bytes.len(),
{
    let rest = without_heartbeats(bytes);
    if first_frame(rest) is Whole {
        proof {
            without_heartbeats_shrinks(bytes);
        }
        left_in(after_frame(rest))
    } else {
        rest
    }
}

/// The frames of several messages, one behind the other.
pub open spec fn frames_of(messages: Seq<(MessageTag, Seq<u8>)>) -> Seq<u8>
    decreases messages.len(),
{
    if messages.len() == 0 {
        seq![]
    } else {
        frame_bytes(messages[0].0, messages[0].1) + frames_of(messages.drop_first())
    }
}

/// A run of messages that are sent one after another is received in that order, all of
/// them, and with nothing left over.
pub proof fn law_messages_arrive_in_order(messages: Seq<(MessageTag, Seq<u8>)>)
    requires
        forall|i: int|
            0 <= i < messages.len() ==> (#[trigger] messages[i]).1.len() + 1 <= MAX,
    ensures
        messages_in(frames_of(messages)) == messages,
        left_in(frames_of(messages)) == Seq::<u8>::empty(),
    decreases messages.len(),
{
    if messages.len() == 0 {
        assert(messages_in(frames_of(messages)) =~= messages);
    } else {
        let rest = messages.drop_first();
        assert forall|i: int| 0 <= i < rest.len() implies (#[trigger] rest[i]).1.len() + 1
            <= MAX by {
            assert(rest[i] == messages[i + 1]);
        }
        law_messages_arrive_in_order(rest);
        law_encoded_message_decodes(messages[0].0, messages[0].1, frames_of(rest));
        assert(messages_in(frames_of(messages)) =~= seq![messages[0]] + messages_in(
            frames_of(rest),
        ));
        assert(messages =~= seq![messages[0]] + rest);
    }
}

} // verus!
