//! What a tracker is asked for peers with.

use vstd::prelude::*;
use crate::decimal::decimal;
use crate::hexadecimal::urlencode;
#[allow(unused_imports)]
use vstd::string::StringExecFns;
#[allow(unused_imports)]
use vstd::utf8::{encode_utf8, is_ascii_chars_encode_utf8};
#[allow(unused_imports)]
use crate::decimal::decimal_text;
#[allow(unused_imports)]
use crate::hexadecimal::{digit_worth, law_urlencode_reads_back, percent_text};
#[allow(unused_imports)]
use crate::wire::own_id;

verus! {

/// The parameters of a request to a tracker.
#[derive(Debug)]
pub struct TrackerRequest {
    /// The id of this peer.
    pub peer_id: String,
    /// The port that this peer listens on.
    pub port: u16,
    /// The bytes sent so far.
    pub uploaded: usize,
    /// The bytes received so far.
    pub downloaded: usize,
    /// The bytes that are still missing.
    pub left: usize,
    /// Whether the peers are to come in compact form: 1 if so.
    pub compact: u8,
}

/// Why a tracker cannot be asked.
#[derive(Debug, Clone, Copy, PartialEq, Eq, Structural)]
pub enum TrackerError {
    /// The parameters cannot be encoded.
    Parameters,
}

/// Whether a byte stands for itself in a form.
pub open spec fn form_keeps(byte: u8) -> bool {
    ||| 48 <= byte <= 57
    ||| 65 <= byte <= 90
    ||| 97 <= byte <= 122
    ||| byte == 42
    ||| byte == 45
    ||| byte == 46
    ||| byte == 95
}

/// The hexadecimal digit of a number below 16, in upper case.
pub open spec fn upper_digit(n: int) -> char {
    if n < 10 {
        (48 + n) as char
    } else {
        (55 + n) as char
    }
}

/// A byte in a form: itself, a plus sign for a space, or a percent sign and two digits.
pub open spec fn form_byte(byte: u8) -> Seq<char> {
    if form_keeps(byte) {
        seq![byte as char]
    } else if byte == 32 {
        seq!['+']
    } else {
        seq!['%', upper_digit(byte as int / 16), upper_digit(byte as int % 16)]
    }
}

/// Bytes in a form, one after another.
pub open spec fn form_bytes(bytes: Seq<u8>) -> Seq<char>
    decreases bytes.len(),
{
    if bytes.len() == 0 {
        seq![]
    } else {
        form_bytes(bytes.drop_last()) + form_byte(bytes.last())
    }
}

/// A name and its value in a form.
pub open spec fn form_pair(name: Seq<char>, value: Seq<char>) -> Seq<char> {
    form_bytes(encode_utf8(name)) + seq!['='] + form_bytes(encode_utf8(value))
}

/// Names and their values in a form, with an ampersand between them.
pub open spec fn form_text(pairs: Seq<(Seq<char>, Seq<char>)>) -> Seq<char>
    decreases pairs.len(),
{
    if pairs.len() == 0 {
        seq![]
    } else if pairs.len() == 1 {
        form_pair(pairs[0].0, pairs[0].1)
    } else {
        form_text(pairs.drop_last()) + seq!['&'] + form_pair(pairs.last().0, pairs.last().1)
    }
}

/// The text of each name and each value.
pub open spec fn texts(pairs: Seq<(String, String)>) -> Seq<(Seq<char>, Seq<char>)> {
    Seq::new(pairs.len(), |i: int| (pairs[i].0@, pairs[i].1@))
}

/// `serde_urlencoded::ser::Error`, of which nothing is known.
#[verifier::external_type_specification]
#[verifier::external_body]
pub struct ExFormError(serde_urlencoded::ser::Error);

/// `serde_urlencoded::to_string` of a list of names and values: the list in the format
/// `application/x-www-form-urlencoded`, which every list of texts has.
#[verifier::external_body]
fn form(pairs: &Vec<(String, String)>) -> (result: Result<String, serde_urlencoded::ser::Error>)
    ensures
        result is Ok,
        result->Ok_0@ == form_text(texts(pairs@)),
{
    serde_urlencoded::to_string(pairs)
}

/// The parameters of a request, by name, in their order.
pub open spec fn parameters(
    peer_id: Seq<char>,
    port: nat,
    uploaded: nat,
    downloaded: nat,
    left: nat,
    compact: nat,
) -> Seq<(Seq<char>, Seq<char>)> {
    seq![
        ("peer_id"@, peer_id),
        ("port"@, decimal_text(port)),
        ("uploaded"@, decimal_text(uploaded)),
        ("downloaded"@, decimal_text(downloaded)),
        ("left"@, decimal_text(left)),
        ("compact"@, decimal_text(compact)),
    ]
}

/// The address that asks for the peers of a torrent.
pub open spec fn url_text(
    announce: Seq<char>,
    form: Seq<char>,
    info_hash: Seq<u8>,
) -> Seq<char> {
    announce + "?"@ + form + "&info_hash="@ + percent_text(info_hash, 20)
}

impl TrackerRequest {
    /// The first request for the peers of a torrent of `left` bytes.
    pub fn first(left: usize) -> (request: TrackerRequest)
        ensures
            request.peer_id@ == "00112233445566778899"@,
            encode_utf8(request.peer_id@) == own_id(),
            request.port == 6881,
            request.uploaded == 0,
            request.downloaded == 0,
            request.left == left,
            request.compact == 1,
    {
        proof {
            id_in_ascii();
        }
        TrackerRequest {
            peer_id: "00112233445566778899".to_owned(),
            port: 6881,
            uploaded: 0,
            downloaded: 0,
            left,
            compact: 1,
        }
    }

    /// The parameters, by name, in their order.
    pub open spec fn pairs(self) -> Seq<(Seq<char>, Seq<char>)> {
        parameters(
            self.peer_id@,
            self.port as nat,
            self.uploaded as nat,
            self.downloaded as nat,
            self.left as nat,
            self.compact as nat,
        )
    }

    /// The parameters as they stand in a URL.
    pub fn to_form(&self) -> (result: Result<String, TrackerError>)
        ensures
            result matches Ok(text) && text@ == form_text(self.pairs()),
    {
        let mut pairs: Vec<(String, String)> = Vec::new();
        pairs.push(("peer_id".to_owned(), self.peer_id.clone()));
        pairs.push(("port".to_owned(), decimal(self.port as u64)));
        pairs.push(("uploaded".to_owned(), decimal(self.uploaded as u64)));
        pairs.push(("downloaded".to_owned(), decimal(self.downloaded as u64)));
        pairs.push(("left".to_owned(), decimal(self.left as u64)));
        pairs.push(("compact".to_owned(), decimal(self.compact as u64)));
        assert(texts(pairs@) =~= self.pairs());
        match form(&pairs) {
            Ok(text) => Ok(text),
            Err(_) => Err(TrackerError::Parameters),
        }
    }

    /// The address that asks the tracker at `announce` for the peers of the torrent of hash
    /// `info_hash`.
    pub fn url(&self, announce: &str, info_hash: &[u8; 20]) -> (result: Result<
        String,
        TrackerError,
    >)
        ensures
            result matches Ok(url) && url@ == url_text(
                announce@,
                form_text(self.pairs()),
                info_hash@,
            ),
    {
        match self.to_form() {
            Err(e) => Err(e),
            Ok(form) => {
                let mut url: String = announce.to_owned();
                url.append("?");
                url.append(form.as_str());
                url.append("&info_hash=");
                url.append(urlencode(info_hash).as_str());
                Ok(url)
            },
        }
    }
}

/// The id for the tracker is the one for the peers.
proof fn id_in_ascii()
    ensures
        encode_utf8("00112233445566778899"@) == own_id(),
{
    reveal_strlit("00112233445566778899");
    is_ascii_chars_encode_utf8("00112233445566778899"@);
    assert(encode_utf8("00112233445566778899"@) =~= own_id());
}

/// Where a peer is to be reached.
#[derive(Debug, Clone, Copy, PartialEq, Eq)]
pub struct PeerAddress {
    pub ip: [u8; 4],
    pub port: u16,
}

/// Whether `address` is peer `k` in the compact form, which gives each peer six bytes: four
/// of its IPv4 address, and two of its port, the higher one first.
pub open spec fn is_peer_at(address: PeerAddress, bytes: Seq<u8>, k: int) -> bool {
    &&& address.ip@ == bytes.subrange(6 * k, 6 * k + 4)
    &&& address.port == bytes[6 * k + 4] * 0x100 + bytes[6 * k + 5]
}

/// The peers that `bytes` give in the compact form, if nothing is left over.
pub fn compact_peers(bytes: &[u8]) -> (peers: Option<Vec<PeerAddress>>)
    ensures
        peers is Some <==> bytes@.len() % 6 == 0,
        peers is Some ==> 6 * peers->0@.len() == bytes@.len() && forall|k: int|
            0 <= k < peers->0@.len() ==> is_peer_at(#[trigger] peers->0@[k], bytes@, k),
{
    if bytes.len() % 6 != 0 {
        return None;
    }
    let mut peers: Vec<PeerAddress> = Vec::new();
    let mut at: usize = 0;
    while at < bytes.len()
        invariant
            at <= bytes@.len(),
            bytes@.len() % 6 == 0,
            at == 6 * peers@.len(),
            forall|k: int|
                0 <= k < peers@.len() ==> is_peer_at(#[trigger] peers@[k], bytes@, k),
        decreases bytes@.len() - at,
    {
        let ip: [u8; 4] = [bytes[at], bytes[at + 1], bytes[at + 2], bytes[at + 3]];
        let port: u16 = bytes[at + 4] as u16 * 0x100 + bytes[at + 5] as u16;
        assert(ip@ =~= bytes@.subrange(at as int, at + 4));
        peers.push(PeerAddress { ip, port });
        at = at + 6;
    }
    Some(peers)
}

/// The address is made of the tracker's own, a question mark, the parameters, and the hash
/// under its name. The last 60 characters give back the 20 bytes of the hash, three for each:
/// a percent sign and two hexadecimal digits.
pub proof fn law_url_carries_the_hash(
    announce: Seq<char>,
    form: Seq<char>,
    info_hash: Seq<u8>,
    k: int,
)
    requires
        info_hash.len() == 20,
        0 <= k < 20,
    ensures
        ({
            let url = url_text(announce, form, info_hash);
            let start = announce.len() as int + 1;
            let end = url.len() - 60;
            &&& end == announce.len() + 1 + form.len() + 11
            &&& url.take(announce.len() as int) == announce
            &&& url[announce.len() as int] == '?'
            &&& url.subrange(start, start + form.len()) == form
            &&& url.subrange(end - 11, end) == "&info_hash="@
            &&& url[end + 3 * k] == '%'
            &&& 0 <= digit_worth(url[end + 3 * k + 1]) < 16
            &&& 0 <= digit_worth(url[end + 3 * k + 2]) < 16
            &&& 16 * digit_worth(url[end + 3 * k + 1]) + digit_worth(url[end + 3 * k + 2])
                == info_hash[k]
        }),
{
    reveal_strlit("?");
    reveal_strlit("&info_hash=");
    let url = url_text(announce, form, info_hash);
    law_urlencode_reads_back(info_hash, k);
    let start = announce.len() as int + 1;
    let end = url.len() - 60;
    assert(url.take(announce.len() as int) =~= announce);
    assert(url.subrange(start, start + form.len()) =~= form);
    assert(url.subrange(end - 11, end) =~= "&info_hash="@);
    assert(url.skip(end) =~= percent_text(info_hash, 20));
    assert(url[end + 3 * k] == url.skip(end)[3 * k]);
    assert(url[end + 3 * k + 1] == url.skip(end)[3 * k + 1]);
    assert(url[end + 3 * k + 2] == url.skip(end)[3 * k + 2]);
}

/// A tracker is never asked for one torrent in place of another: with all else the same, two
/// hashes make two addresses.
pub proof fn law_urls_tell_hashes_apart(
    announce: Seq<char>,
    form: Seq<char>,
    a: Seq<u8>,
    b: Seq<u8>,
)
    requires
        a.len() == 20,
        b.len() == 20,
        url_text(announce, form, a) == url_text(announce, form, b),
    ensures
        a == b,
{
    assert forall|k: int| 0 <= k < 20 implies a[k] == b[k] by {
        law_url_carries_the_hash(announce, form, a, k);
        law_url_carries_the_hash(announce, form, b, k);
    }
    assert(a =~= b);
}

/// In a form, letters, digits and the four characters `*-._` stand for themselves, a space is
/// a plus sign, and any other byte is a percent sign and two hexadecimal digits that give it
/// back, in capital letters.
pub proof fn law_form_of_a_byte(byte: u8)
    ensures
        ({
            let text = form_byte(byte);
            let plain = 'a' as int <= byte as int <= 'z' as int || 'A' as int <= byte as int
                <= 'Z' as int || '0' as int <= byte as int <= '9' as int || byte as int
                == '*' as int || byte as int == '-' as int || byte as int == '.' as int || byte
                as int == '_' as int;
            &&& plain ==> text.len() == 1 && text[0] as int == byte as int
            &&& byte as int == ' ' as int ==> text == seq!['+']
            &&& !plain && byte as int != ' ' as int ==> text.len() == 3 && text[0] == '%'
                && 0 <= digit_worth(text[1]) < 16 && 0 <= digit_worth(text[2]) < 16 && 16
                * digit_worth(text[1]) + digit_worth(text[2]) == byte && !('a' as int
                <= text[1] as int <= 'z' as int) && !('a' as int <= text[2] as int <= 'z' as int)
        }),
{
}

/// Bytes stand in a form in their order, each for itself.
pub proof fn law_form_of_bytes(bytes: Seq<u8>, byte: u8)
    ensures
        form_bytes(Seq::empty()) == Seq::<char>::empty(),
        form_bytes(bytes.push(byte)) == form_bytes(bytes) + form_byte(byte),
{
    assert(bytes.push(byte).drop_last() =~= bytes);
}

/// In a form, a name and its value have an equals sign between them, and two pairs an
/// ampersand.
pub proof fn law_form_of_pairs(
    pairs: Seq<(Seq<char>, Seq<char>)>,
    name: Seq<char>,
    value: Seq<char>,
)
    ensures
        form_text(Seq::empty()) == Seq::<char>::empty(),
        form_pair(name, value) == form_bytes(encode_utf8(name)) + seq!['='] + form_bytes(
            encode_utf8(value),
        ),
        pairs.len() == 0 ==> form_text(pairs.push((name, value))) == form_pair(name, value),
        pairs.len() > 0 ==> form_text(pairs.push((name, value))) == form_text(pairs) + seq!['&']
            + form_pair(name, value),
{
    assert(pairs.push((name, value)).drop_last() =~= pairs);
}

/// Each parameter of a request stands under its own name, the numbers in decimal digits.
pub proof fn law_parameters_have_their_names(request: TrackerRequest)
    ensures
        request.pairs().len() == 6,
        request.pairs()[0] == ("peer_id"@, request.peer_id@),
        request.pairs()[1] == ("port"@, decimal_text(request.port as nat)),
        request.pairs()[2] == ("uploaded"@, decimal_text(request.uploaded as nat)),
        request.pairs()[3] == ("downloaded"@, decimal_text(request.downloaded as nat)),
        request.pairs()[4] == ("left"@, decimal_text(request.left as nat)),
        request.pairs()[5] == ("compact"@, decimal_text(request.compact as nat)),
{
}

/// A list of names and values is read as it stands.
pub proof fn law_texts_keep_their_order(pairs: Seq<(String, String)>, i: int)
    requires
        0 <= i < pairs.len(),
    ensures
        texts(pairs).len() == pairs.len(),
        texts(pairs)[i] == (pairs[i].0@, pairs[i].1@),
{
}

/// The compact form of some peers.
pub open spec fn compact_form(peers: Seq<PeerAddress>) -> Seq<u8>
    decreases peers.len(),
{
    if peers.len() == 0 {
        seq![]
    } else {
        compact_form(peers.drop_last()) + peers.last().ip@ + seq![
            (peers.last().port / 256) as u8,
            (peers.last().port % 256) as u8,
        ]
    }
}

/// The peers that a tracker gives in the compact form are read as they are, one after
/// another.
pub proof fn law_compact_peers_read_back(peers: Seq<PeerAddress>, k: int, read: PeerAddress)
    requires
        0 <= k < peers.len(),
        is_peer_at(read, compact_form(peers), k),
    ensures
        compact_form(peers).len() == 6 * peers.len(),
        read.ip@ == peers[k].ip@,
        read.port == peers[k].port,
    decreases peers.len(),
{
    let bytes = compact_form(peers);
    let front = compact_form(peers.drop_last());
    compact_form_length(peers.drop_last());
    if k == peers.len() - 1 {
        assert(bytes.subrange(6 * k, 6 * k + 4) =~= peers[k].ip@);
    } else {
        assert(front.subrange(6 * k, 6 * k + 4) =~= bytes.subrange(6 * k, 6 * k + 4));
        law_compact_peers_read_back(peers.drop_last(), k, read);
    }
}

proof fn compact_form_length(peers: Seq<PeerAddress>)
    ensures
        compact_form(peers).len() == 6 * peers.len(),
    decreases peers.len(),
{
    if peers.len() > 0 {
        compact_form_length(peers.drop_last());
    }
}

} // verus!
