//! What the program tells its user.

use vstd::prelude::*;
use crate::decimal::decimal;
use crate::framing::FrameError;
use crate::hexadecimal::to_hex;
use crate::wire::Handshake;
#[allow(unused_imports)]
use vstd::string::StringExecFns;
#[allow(unused_imports)]
use crate::decimal::decimal_text;
#[allow(unused_imports)]
use crate::hexadecimal::hex_text;
#[allow(unused_imports)]
use crate::wire::peer_id_of;

verus! {

fn labelled(label: &str, text: &str) -> (line: String)
    ensures
        line@ == label@ + text@,
{
    let mut line: String = label.to_owned();
    line.append(text);
    line
}

/// What there is to tell of a torrent of one file, line by line.
pub open spec fn info_lines(
    announce: Seq<char>,
    length: nat,
    info_hash: Seq<u8>,
    plength: nat,
    hashes: Seq<[u8; 20]>,
) -> Seq<Seq<char>> {
    seq![
        "Tracker URL: "@ + announce,
        "Length: "@ + decimal_text(length),
        "Info Hash: "@ + hex_text(info_hash),
        "Piece Length: "@ + decimal_text(plength),
        "Piece Hashes:"@,
    ] + Seq::new(hashes.len(), |i: int| hex_text(hashes[i]@))
}

/// The texts of some lines.
pub open spec fn line_texts(lines: Seq<String>) -> Seq<Seq<char>> {
    Seq::new(lines.len(), |i: int| lines[i]@)
}

/// What there is to tell of a torrent of one file, line by line.
pub fn describe_torrent(
    announce: &str,
    length: usize,
    info_hash: &[u8; 20],
    plength: usize,
    hashes: &Vec<[u8; 20]>,
) -> (lines: Vec<String>)
    ensures
        line_texts(lines@) == info_lines(
            announce@,
            length as nat,
            info_hash@,
            plength as nat,
            hashes@,
        ),
{
    let ghost wanted = info_lines(announce@, length as nat, info_hash@, plength as nat, hashes@);
    let mut lines: Vec<String> = Vec::new();
    lines.push(labelled("Tracker URL: ", announce));
    lines.push(labelled("Length: ", decimal(length as u64).as_str()));
    lines.push(labelled("Info Hash: ", to_hex(info_hash).as_str()));
    lines.push(labelled("Piece Length: ", decimal(plength as u64).as_str()));
    lines.push("Piece Hashes:".to_owned());
    let mut i: usize = 0;
    while i < hashes.len()
        invariant
            i <= hashes@.len(),
            wanted == info_lines(announce@, length as nat, info_hash@, plength as nat, hashes@),
            lines@.len() == 5 + i,
            forall|j: int| 0 <= j < 5 + i ==> (#[trigger] lines@[j])@ == wanted[j],
        decreases hashes@.len() - i,
    {
        lines.push(to_hex(&hashes[i]));
        i = i + 1;
    }
    assert(line_texts(lines@) =~= wanted);
    lines
}

/// Who sent a handshake.
pub fn describe_peer(handshake: &Handshake) -> (line: String)
    ensures
        line@ == "Peer ID: "@ + hex_text(peer_id_of(handshake@)),
{
    labelled("Peer ID: ", to_hex(&handshake.peer_id()).as_str())
}

/// Why a frame is refused, in words.
pub open spec fn refusal_text(error: FrameError) -> Seq<char> {
    match error {
        FrameError::TooLarge(length) => "Frame of length "@ + decimal_text(length as nat)
            + " is too large."@,
        FrameError::UnknownTag(code) => "Unknown message tag "@ + decimal_text(code as nat) + "."@,
    }
}

/// Why a frame is refused, in words.
pub fn describe_refusal(error: FrameError) -> (text: String)
    ensures
        text@ == refusal_text(error),
{
    match error {
        FrameError::TooLarge(length) => {
            let mut text: String = labelled("Frame of length ", decimal(length as u64).as_str());
            text.append(" is too large.");
            text
        },
        FrameError::UnknownTag(code) => {
            let mut text: String = labelled("Unknown message tag ", decimal(code as u64).as_str());
            text.append(".");
            text
        },
    }
}

/// The lines on a torrent are five that say each what it is, and then one for each hash, in
/// their order, in hexadecimal digits.
pub proof fn law_lines_on_a_torrent(
    announce: Seq<char>,
    length: nat,
    info_hash: Seq<u8>,
    plength: nat,
    hashes: Seq<[u8; 20]>,
    k: int,
)
    requires
        0 <= k < hashes.len(),
    ensures
        ({
            let lines = info_lines(announce, length, info_hash, plength, hashes);
            &&& lines.len() == 5 + hashes.len()
            &&& lines[0] == "Tracker URL: "@ + announce
            &&& lines[1] == "Length: "@ + decimal_text(length)
            &&& lines[2] == "Info Hash: "@ + hex_text(info_hash)
            &&& lines[3] == "Piece Length: "@ + decimal_text(plength)
            &&& lines[4] == "Piece Hashes:"@
            &&& lines[5 + k] == hex_text(hashes[k]@)
        }),
{
}

/// Lines are told in their order, as they are.
pub proof fn law_lines_keep_their_order(lines: Seq<String>, i: int)
    requires
        0 <= i < lines.len(),
    ensures
        line_texts(lines).len() == lines.len(),
        line_texts(lines)[i] == lines[i]@,
{
}

/// A refusal says what is wrong, with the length or the code in decimal digits.
pub proof fn law_refusals_say_why(length: usize, code: u8)
    ensures
        refusal_text(FrameError::TooLarge(length)) == "Frame of length "@ + decimal_text(
            length as nat,
        ) + " is too large."@,
        refusal_text(FrameError::UnknownTag(code)) == "Unknown message tag "@ + decimal_text(
            code as nat,
        ) + "."@,
{
}

} // verus!
