//! Numbers in decimal digits.

use vstd::prelude::*;

verus! {

/// Whether a byte is an ASCII digit.
pub open spec fn is_digit(byte: u8) -> bool {
    48 <= byte <= 57
}

/// Whether all bytes are ASCII digits.
pub open spec fn all_digits(bytes: Seq<u8>) -> bool {
    forall|i: int| 0 <= i < bytes.len() ==> is_digit(#[trigger] bytes[i])
}

/// The number that ASCII digits stand for.
pub open spec fn digits_value(bytes: Seq<u8>) -> int
    decreases bytes.len(),
{
    if bytes.len() == 0 {
        0
    } else {
        10 * digits_value(bytes.drop_last()) + (bytes.last() - 48)
    }
}

/// The number that `bytes` stand for, if they are one or more ASCII digits and it is no
/// greater than `limit`.
pub open spec fn unsigned(bytes: Seq<u8>, limit: int) -> Option<int> {
    if bytes.len() > 0 && all_digits(bytes) && digits_value(bytes) <= limit {
        Some(digits_value(bytes))
    } else {
        None
    }
}

/// The number that `bytes` stand for, if they are one or more ASCII digits, with or without
/// a sign in front, and it fits in 64 bits.
pub open spec fn signed(bytes: Seq<u8>) -> Option<int> {
    if bytes.len() > 0 && bytes[0] == 45 {
        match unsigned(bytes.skip(1), 0x8000_0000_0000_0000) {
            Some(n) => Some(-n),
            None => None,
        }
    } else if bytes.len() > 0 && bytes[0] == 43 {
        unsigned(bytes.skip(1), 0x7fff_ffff_ffff_ffff)
    } else {
        unsigned(bytes, 0x7fff_ffff_ffff_ffff)
    }
}

/// The number in the first digits is no greater than the number in all of them.
proof fn digits_value_grows(bytes: Seq<u8>, k: int)
    requires
        0 <= k <= bytes.len(),
        all_digits(bytes),
    ensures
        0 <= digits_value(bytes.take(k)) <= digits_value(bytes),
    decreases bytes.len(),
{
    if k == bytes.len() {
        assert(bytes.take(k) =~= bytes);
        if bytes.len() > 0 {
            digits_value_grows(bytes.drop_last(), 0);
            assert(bytes.drop_last().take(0) =~= Seq::<u8>::empty());
        }
    } else {
        digits_value_grows(bytes.drop_last(), k);
        assert(bytes.drop_last().take(k) =~= bytes.take(k));
    }
}

/// Reads a number of no more than `limit` from ASCII digits.
pub fn parse_unsigned(bytes: &[u8], limit: u64) -> (n: Option<u64>)
    ensures
        n is Some <==> unsigned(bytes@, limit as int) is Some,
        n is Some ==> n->0 == unsigned(bytes@, limit as int)->0,
{
    if bytes.len() == 0 {
        return None;
    }
    let mut value: u64 = 0;
    let mut i: usize = 0;
    proof {
        assert(bytes@.take(0) =~= Seq::<u8>::empty());
    }
    while i < bytes.len()
        invariant
            i <= bytes@.len(),
            forall|j: int| 0 <= j < i ==> is_digit(#[trigger] bytes@[j]),
            value == digits_value(bytes@.take(i as int)),
            value <= limit,
        decreases bytes@.len() - i,
    {
        let byte: u8 = bytes[i];
        if byte < 48 || byte > 57 {
            return None;
        }
        let digit: u64 = (byte - 48) as u64;
        proof {
            assert(bytes@.take(i + 1).drop_last() =~= bytes@.take(i as int));
            if all_digits(bytes@) {
                digits_value_grows(bytes@, i + 1);
            }
        }
        if value > limit / 10 || digit > limit - 10 * value {
            return None;
        }
        value = 10 * value + digit;
        i = i + 1;
    }
    assert(bytes@.take(i as int) =~= bytes@);
    Some(value)
}

/// Reads a number of 64 bits from ASCII digits with or without a sign in front.
pub fn parse_signed(bytes: &[u8]) -> (n: Option<i64>)
    ensures
        n is Some <==> signed(bytes@) is Some,
        n is Some ==> n->0 == signed(bytes@)->0,
{
    if bytes.len() > 0 && (bytes[0] == 45 || bytes[0] == 43) {
        let body: &[u8] = vstd::slice::slice_subrange(bytes, 1, bytes.len());
        assert(body@ =~= bytes@.skip(1));
        if bytes[0] == 45 {
            match parse_unsigned(body, 0x8000_0000_0000_0000) {
                Some(n) => if n == 0x8000_0000_0000_0000 {
                    Some(i64::MIN)
                } else {
                    Some(-(n as i64))
                },
                None => None,
            }
        } else {
            match parse_unsigned(body, 0x7fff_ffff_ffff_ffff) {
                Some(n) => Some(n as i64),
                None => None,
            }
        }
    } else {
        match parse_unsigned(bytes, 0x7fff_ffff_ffff_ffff) {
            Some(n) => Some(n as i64),
            None => None,
        }
    }
}

/// The decimal digits of a number, as text.
pub open spec fn decimal_text(n: nat) -> Seq<char>
    decreases n,
{
    if n < 10 {
        seq![(48 + n) as char]
    } else {
        decimal_text(n / 10).push((48 + n % 10) as char)
    }
}

/// A number as text, in decimal digits.
pub fn decimal(n: u64) -> (text: String)
    ensures
        text@ == decimal_text(n as nat),
    decreases n,
{
    if n < 10 {
        let mut text: String = String::new();
        push_digit(&mut text, n as u8);
        assert(text@ =~= decimal_text(n as nat));
        text
    } else {
        let mut text: String = decimal(n / 10);
        push_digit(&mut text, (n % 10) as u8);
        text
    }
}

fn push_digit(text: &mut String, digit: u8)
    requires
        digit < 10,
    ensures
        final(text)@ == old(text)@.push((48 + digit) as char),
{
    push_char(text, (48 + digit) as char);
}

/// `String::push`: appends a character.
#[verifier::external_body]
pub(crate) fn push_char(text: &mut String, c: char)
    ensures
        final(text)@ == old(text)@.push(c),
{
    text.push(c)
}

/// Each digit counts ten times as much as the one behind it.
pub proof fn law_digits_count_in_tens(bytes: Seq<u8>, digit: u8)
    ensures
        digits_value(Seq::empty()) == 0,
        digits_value(bytes.push(digit)) == 10 * digits_value(bytes) + (digit as int - '0' as int),
{
    assert(bytes.push(digit).drop_last() =~= bytes);
}

/// A number without a sign is read exactly where there are digits, nothing but digits, and
/// the number is within the limit; leading zeros do no harm.
pub proof fn law_what_is_a_number(bytes: Seq<u8>, limit: int)
    ensures
        unsigned(bytes, limit) is Some <==> bytes.len() > 0 && (forall|i: int|
            0 <= i < bytes.len() ==> '0' as int <= #[trigger] bytes[i] as int <= '9' as int)
            && digits_value(bytes) <= limit,
        unsigned(bytes, limit) is Some ==> unsigned(bytes, limit)->0 == digits_value(bytes),
        unsigned(seq![48u8] + bytes, limit) is Some && bytes.len() > 0 ==> unsigned(
            seq![48u8] + bytes,
            limit,
        ) == unsigned(bytes, limit),
        unsigned(bytes, limit) is Some ==> unsigned(seq![48u8] + bytes, limit) == unsigned(
            bytes,
            limit,
        ),
{
    leading_zero(bytes);
    let longer = seq![48u8] + bytes;
    if all_digits(bytes) {
        assert forall|i: int| 0 <= i < longer.len() implies is_digit(#[trigger] longer[i]) by {
            if i > 0 {
                assert(longer[i] == bytes[i - 1]);
            }
        }
    }
    if all_digits(longer) {
        assert forall|i: int| 0 <= i < bytes.len() implies is_digit(#[trigger] bytes[i]) by {
            assert(longer[i + 1] == bytes[i]);
        }
    }
}

proof fn leading_zero(bytes: Seq<u8>)
    ensures
        digits_value(seq![48u8] + bytes) == digits_value(bytes),
    decreases bytes.len(),
{
    let longer = seq![48u8] + bytes;
    if bytes.len() == 0 {
        assert(longer.drop_last() =~= bytes);
    } else {
        leading_zero(bytes.drop_last());
        assert(longer.drop_last() =~= seq![48u8] + bytes.drop_last());
        assert(longer.last() == bytes.last());
    }
}

/// A number with a minus is the negative of the one without, one with a plus is the same, and
/// what fits in 64 bits is read, from -2^63 to 2^63 - 1.
pub proof fn law_signs(bytes: Seq<u8>)
    requires
        bytes.len() > 0,
        all_digits(bytes),
    ensures
        signed(bytes) is Some <==> digits_value(bytes) <= i64::MAX,
        signed(bytes) is Some ==> signed(bytes)->0 == digits_value(bytes),
        signed(seq![45u8] + bytes) is Some <==> -digits_value(bytes) >= i64::MIN,
        signed(seq![45u8] + bytes) is Some ==> signed(seq![45u8] + bytes)->0 == -digits_value(
            bytes,
        ),
        signed(seq![43u8] + bytes) == signed(bytes),
{
    assert((seq![45u8] + bytes).skip(1) =~= bytes);
    assert((seq![43u8] + bytes).skip(1) =~= bytes);
    assert(is_digit(bytes[0]));
}

/// What is no sign and digits is no number.
pub proof fn law_what_is_no_number(bytes: Seq<u8>, at: int)
    requires
        bytes.len() == 0 || (0 <= at < bytes.len() && !is_digit(bytes[at]) && (at > 0 || bytes.len()
            == 1 || (bytes[0] != 45 && bytes[0] != 43))),
    ensures
        signed(bytes) is None,
{
    if bytes.len() > 0 && at > 0 {
        assert(bytes.skip(1)[at - 1] == bytes[at]);
    }
}

/// The digits of a number are those of its tenth and then its last one.
pub proof fn law_decimal_text_in_tens(n: nat, digit: nat)
    requires
        digit < 10,
    ensures
        decimal_text(digit) == seq![('0' as int + digit) as char],
        n > 0 ==> decimal_text(10 * n + digit) == decimal_text(n).push(
            ('0' as int + digit) as char,
        ),
{
    if n > 0 {
        assert((10 * n + digit) / 10 == n);
        assert((10 * n + digit) % 10 == digit);
    }
}

/// A number that is written in digits is read as the same number.
pub proof fn law_decimal_text_reads_back(n: nat)
    ensures
        decimal_text(n).len() > 0,
        ({
            let bytes = Seq::new(decimal_text(n).len(), |i: int| decimal_text(n)[i] as u8);
            all_digits(bytes) && digits_value(bytes) == n
        }),
    decreases n,
{
    let text = decimal_text(n);
    let bytes = Seq::new(text.len(), |i: int| text[i] as u8);
    if n < 10 {
        assert(bytes.drop_last() =~= Seq::<u8>::empty());
        assert(digits_value(bytes.drop_last()) == 0);
    } else {
        law_decimal_text_reads_back(n / 10);
        let front = decimal_text(n / 10);
        let fewer = Seq::new(front.len(), |i: int| front[i] as u8);
        assert(bytes.drop_last() =~= fewer);
        assert forall|i: int| 0 <= i < bytes.len() implies is_digit(#[trigger] bytes[i]) by {
            if i < fewer.len() {
                assert(bytes[i] == fewer[i]);
            }
        }
    }
}

} // verus!
