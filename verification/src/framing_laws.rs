//! What holds of every frame, byte for byte.

use vstd::prelude::*;
#[allow(unused_imports)]
use crate::big_endian::{be_bytes, be_bytes_then_value, be_value};
#[allow(unused_imports)]
use crate::framing::{after_frame, code_of, first_frame, frame_bytes, frame_length,
    law_encoded_message_decodes, reports, tag_of, without_heartbeats, Frame, FrameError, Message,
    MessageTag};

verus! {

/// The nine tags are numbered from zero on, and no other number has a tag.
pub proof fn law_tags_are_numbered(tag: MessageTag, code: u8)
    ensures
        code_of(tag) == 0 <==> tag is Choke,
        code_of(tag) == 1 <==> tag is Unchoke,
        code_of(tag) == 2 <==> tag is Intrested,
        code_of(tag) == 3 <==> tag is NotInterested,
        code_of(tag) == 4 <==> tag is Have,
        code_of(tag) == 5 <==> tag is Bitfield,
        code_of(tag) == 6 <==> tag is Request,
        code_of(tag) == 7 <==> tag is Piece,
        code_of(tag) == 8 <==> tag is Cancel,
        tag_of(code) == Some(tag) <==> code_of(tag) == code,
        code > 8 ==> tag_of(code) is None,
{
}

/// The number in the first four bytes, the first one counting most.
pub open spec fn leading_number(bytes: Seq<u8>) -> int {
    ((bytes[0] * 256 + bytes[1]) * 256 + bytes[2]) * 256 + bytes[3]
}

/// A frame is five bytes longer than the payload: four of a number that is one more than the
/// payload's length, one of the tag's code, and then the payload.
pub proof fn law_frame_layout(tag: MessageTag, payload: Seq<u8>)
    requires
        payload.len() + 1 < 0x1_0000_0000,
    ensures
        frame_bytes(tag, payload).len() == 5 + payload.len(),
        leading_number(frame_bytes(tag, payload)) == 1 + payload.len(),
        frame_bytes(tag, payload)[4] == code_of(tag),
        forall|i: int|
            0 <= i < payload.len() ==> #[trigger] frame_bytes(tag, payload)[5 + i] == payload[i],
{
    let n: int = payload.len() as int + 1;
    be_bytes_then_value(n);
    assert(frame_bytes(tag, payload).subrange(0, 4) =~= be_bytes(n));
}

/// Four bytes of zero are dropped wherever a frame is to begin, and nothing else is.
pub proof fn law_only_heartbeats_are_dropped(bytes: Seq<u8>)
    ensures
        without_heartbeats(seq![0u8, 0, 0, 0] + bytes) == without_heartbeats(bytes),
        bytes.len() < 4 || bytes[0] != 0 || bytes[1] != 0 || bytes[2] != 0 || bytes[3] != 0
            ==> without_heartbeats(bytes) == bytes,
{
    let longer = seq![0u8, 0, 0, 0] + bytes;
    assert(longer.subrange(0, 4) =~= seq![0u8, 0, 0, 0]);
    assert(longer.skip(4) =~= bytes);
    if bytes.len() >= 4 {
        assert(frame_length(bytes) == leading_number(bytes));
    }
}

/// What the start of a buffer holds is decided by the number in front, the limit of 65536,
/// the bytes that are there, and the code: too few bytes are waited for, too large a number
/// or an unknown code is refused and stays, and a whole frame gives its payload byte for byte
/// and goes.
pub proof fn law_frame_at_the_start(bytes: Seq<u8>, n: int)
    requires
        bytes.len() >= 4 ==> n == leading_number(bytes) && n > 0,
    ensures
        ({
            let frame = first_frame(bytes);
            &&& bytes.len() < 5 ==> frame is Incomplete
            &&& bytes.len() >= 5 && n > 65536 ==> frame == Frame::TooLarge(n)
            &&& bytes.len() >= 5 && n <= 65536 && bytes.len() < 4 + n ==> frame is Incomplete
            &&& bytes.len() >= 5 && n <= 65536 && bytes.len() >= 4 + n && bytes[4] > 8 ==> frame
                == Frame::UnknownTag(bytes[4])
            &&& bytes.len() >= 5 && n <= 65536 && bytes.len() >= 4 + n && bytes[4] <= 8 ==> {
                &&& frame is Whole
                &&& code_of(frame->Whole_0) == bytes[4]
                &&& frame->Whole_1.len() == n - 1
                &&& forall|i: int| 0 <= i < n - 1 ==> frame->Whole_1[i] == bytes[5 + i]
                &&& after_frame(bytes).len() == bytes.len() - 4 - n
                &&& forall|i: int|
                    0 <= i < bytes.len() - 4 - n ==> after_frame(bytes)[i] == bytes[4 + n + i]
            }
            &&& !(frame is Whole) ==> after_frame(bytes) == bytes
        }),
{
    if bytes.len() >= 4 {
        assert(frame_length(bytes) == leading_number(bytes));
    }
}

/// What is reported of a buffer is what its start holds: the message with its tag and its
/// payload, the refusal with its reason, or nothing yet.
pub proof fn law_report_is_what_is_there(result: Result<Option<Message>, FrameError>, bytes: Seq<u8>)
    requires
        reports(result, bytes),
    ensures
        first_frame(bytes) is Incomplete <==> result matches Ok(None),
        first_frame(bytes) is Whole <==> result matches Ok(Some(_)),
        result matches Ok(Some(message)) ==> first_frame(bytes) == Frame::Whole(
            message.tag,
            message.payload@,
        ),
        result matches Err(FrameError::TooLarge(n)) ==> first_frame(bytes) == Frame::TooLarge(
            n as int,
        ),
        result matches Err(FrameError::UnknownTag(code)) ==> first_frame(bytes)
            == Frame::UnknownTag(code),
{
}

/// A message that was sent is the one that is received, whatever was sent behind it.
pub proof fn law_sent_message_is_received(
    result: Result<Option<Message>, FrameError>,
    tag: MessageTag,
    payload: Seq<u8>,
    behind: Seq<u8>,
)
    requires
        payload.len() + 1 <= 65536,
        reports(result, without_heartbeats(frame_bytes(tag, payload) + behind)),
    ensures
        result matches Ok(Some(message)) && message.tag == tag && message.payload@ == payload,
        after_frame(without_heartbeats(frame_bytes(tag, payload) + behind)) == behind,
{
    law_encoded_message_decodes(tag, payload, behind);
}

} // verus!
