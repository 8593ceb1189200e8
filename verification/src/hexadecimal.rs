//! Bytes as text, two hexadecimal digits for each.

use vstd::prelude::*;
use crate::decimal::push_char;
#[allow(unused_imports)]
use vstd::string::StringExecFns;

verus! {

/// The hexadecimal digit of a number below 16, in lower case.
pub open spec fn lower_digit(n: int) -> char {
    if n < 10 {
        (48 + n) as char
    } else {
        (87 + n) as char
    }
}

/// Two digits for each byte, the higher half first.
pub open spec fn hex_text(data: Seq<u8>) -> Seq<char> {
    Seq::new(
        2 * data.len(),
        |i: int|
            if i % 2 == 0 {
                lower_digit(data[i / 2] as int / 16)
            } else {
                lower_digit(data[i / 2] as int % 16)
            },
    )
}

/// `hex::encode`: the bytes of `data` as lower-case hexadecimal digits. It panics where the
/// text would not fit in memory.
#[verifier::external_body]
fn encode(data: &[u8]) -> (text: String)
    requires
        2 * data@.len() <= isize::MAX,
    ensures
        text@ == hex_text(data@),
{
    hex::encode(data)
}

/// A hash or an id in hexadecimal digits.
pub fn to_hex(data: &[u8; 20]) -> (text: String)
    ensures
        text@ == hex_text(data@),
        text@.len() == 40,
{
    encode(data)
}

/// The first `n` bytes of `data`, a percent sign and two digits for each.
pub open spec fn percent_text(data: Seq<u8>, n: int) -> Seq<char>
    decreases n,
{
    if n <= 0 {
        seq![]
    } else {
        percent_text(data, n - 1) + seq!['%'] + hex_text(seq![data[n - 1]])
    }
}

/// A hash as it stands in a URL: a percent sign and two digits for each byte.
pub fn urlencode(t: &[u8; 20]) -> (encoded: String)
    ensures
        encoded@ == percent_text(t@, 20),
{
    let mut encoded: String = String::new();
    let mut i: usize = 0;
    while i < 20
        invariant
            i <= 20,
            encoded@ == percent_text(t@, i as int),
        decreases 20 - i,
    {
        let byte: [u8; 1] = [t[i]];
        assert(byte@ =~= seq![t@[i as int]]);
        push_char(&mut encoded, '%');
        encoded.append(encode(&byte).as_str());
        assert(encoded@ =~= percent_text(t@, i + 1));
        i = i + 1;
    }
    encoded
}

proof fn percent_text_at(data: Seq<u8>, n: int, k: int)
    requires
        0 <= k < n,
    ensures
        percent_text(data, n).len() == 3 * n,
        percent_text(data, n)[3 * k] == '%',
        percent_text(data, n)[3 * k + 1] == lower_digit(data[k] as int / 16),
        percent_text(data, n)[3 * k + 2] == lower_digit(data[k] as int % 16),
    decreases n,
{
    let front = percent_text(data, n - 1);
    let digits = hex_text(seq![data[n - 1]]);
    assert(digits.len() == 2);
    assert(digits[0] == lower_digit(data[n - 1] as int / 16));
    assert(digits[1] == lower_digit(data[n - 1] as int % 16));
    if n == 1 {
        assert(front =~= Seq::<char>::empty());
    } else if k < n - 1 {
        percent_text_at(data, n - 1, k);
    } else {
        percent_text_at(data, n - 1, 0);
    }
}

/// No two hashes look alike in a URL.
pub proof fn law_urlencode_tells_hashes_apart(a: Seq<u8>, b: Seq<u8>)
    requires
        a.len() == 20,
        b.len() == 20,
        percent_text(a, 20) == percent_text(b, 20),
    ensures
        a == b,
{
    assert forall|k: int| 0 <= k < 20 implies a[k] == b[k] by {
        percent_text_at(a, 20, k);
        percent_text_at(b, 20, k);
    }
    assert(a =~= b);
}

/// Each byte of a hash takes three characters of a URL: a percent sign and two digits.
pub proof fn law_urlencode_shape(hash: Seq<u8>, k: int)
    requires
        hash.len() == 20,
        0 <= k < 20,
    ensures
        percent_text(hash, 20).len() == 60,
        percent_text(hash, 20).subrange(3 * k, 3 * k + 3) == seq!['%'] + hex_text(seq![hash[k]]),
{
    percent_text_at(hash, 20, k);
    assert(percent_text(hash, 20).subrange(3 * k, 3 * k + 3) =~= seq!['%'] + hex_text(
        seq![hash[k]],
    ));
}

/// What a hexadecimal digit is worth, in either case; a negative number for any other
/// character.
pub open spec fn digit_worth(c: char) -> int {
    if '0' as int <= c as int <= '9' as int {
        c as int - '0' as int
    } else if 'a' as int <= c as int <= 'f' as int {
        c as int - 'a' as int + 10
    } else if 'A' as int <= c as int <= 'F' as int {
        c as int - 'A' as int + 10
    } else {
        -1
    }
}

/// Whether a character is a digit or a small letter.
pub open spec fn is_small(c: char) -> bool {
    !('A' as int <= c as int <= 'Z' as int)
}

/// Hexadecimal text gives the bytes back: two characters for each byte, in small letters,
/// worth sixteen times the first and once the second.
pub proof fn law_hex_reads_back(data: Seq<u8>, k: int)
    requires
        0 <= k < data.len(),
    ensures
        hex_text(data).len() == 2 * data.len(),
        0 <= digit_worth(hex_text(data)[2 * k]) < 16,
        0 <= digit_worth(hex_text(data)[2 * k + 1]) < 16,
        16 * digit_worth(hex_text(data)[2 * k]) + digit_worth(hex_text(data)[2 * k + 1]) == data[k],
        is_small(hex_text(data)[2 * k]),
        is_small(hex_text(data)[2 * k + 1]),
{
    assert((2 * k) / 2 == k && (2 * k) % 2 == 0);
    assert((2 * k + 1) / 2 == k && (2 * k + 1) % 2 == 1);
}

/// A hash in a URL gives its bytes back: three characters for each byte, a percent sign and
/// two digits in small letters, worth sixteen times the first and once the second.
pub proof fn law_urlencode_reads_back(hash: Seq<u8>, k: int)
    requires
        hash.len() == 20,
        0 <= k < 20,
    ensures
        percent_text(hash, 20).len() == 60,
        percent_text(hash, 20)[3 * k] == '%',
        0 <= digit_worth(percent_text(hash, 20)[3 * k + 1]) < 16,
        0 <= digit_worth(percent_text(hash, 20)[3 * k + 2]) < 16,
        16 * digit_worth(percent_text(hash, 20)[3 * k + 1]) + digit_worth(
            percent_text(hash, 20)[3 * k + 2],
        ) == hash[k],
        is_small(percent_text(hash, 20)[3 * k + 1]),
        is_small(percent_text(hash, 20)[3 * k + 2]),
{
    percent_text_at(hash, 20, k);
}

} // verus!
