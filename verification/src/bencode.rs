//! Values in the bencode format, read from text.
//!
//! - `5:hello` is the text `hello`: its length in bytes, a colon, and the bytes
//! - `i45e` is the number 45
//! - `l5:helloi52ee` is a list of two values
//! - `d3:foo3:bar5:helloi52ee` is a dictionary of two entries
//!
//! Text that starts with none of these is no value: it is read as [`Value::Null`], and all
//! of it is left.

use vstd::prelude::*;
#[allow(unused_imports)]
use vstd::string::StringSliceAdditionalSpecFns;
#[allow(unused_imports)]
use vstd::utf8::{encode_utf8, encode_utf8_valid_utf8, is_char_boundary,
    is_char_boundary_iff_not_is_continuation_byte, is_char_boundary_start_end_of_seq,
    is_continuation_byte, valid_utf8};
use crate::decimal::{parse_signed, parse_unsigned};
#[allow(unused_imports)]
use crate::decimal::{is_digit, signed, unsigned};

verus! {

/// A value of the format.
#[derive(Debug, PartialEq)]
pub enum Value {
    Null,
    Integer(i64),
    Text(String),
    List(Vec<Value>),
    /// The entries. No key occurs twice, and their order means nothing.
    Dictionary(Vec<(String, Value)>),
}

/// What a value means: text as its UTF-8 bytes, a dictionary as a map.
pub enum Bencoded {
    Null,
    Integer(int),
    Text(Seq<u8>),
    List(Seq<Bencoded>),
    Dictionary(Map<Seq<u8>, Bencoded>),
}

/// Why no value can be read.
#[derive(Debug, Clone, Copy, PartialEq, Eq, Structural)]
pub enum DecodeError {
    /// A text is said to be longer than what is left, or to end inside a character.
    TextOutOfBounds,
    /// A list or a dictionary does not end.
    Unterminated,
    /// The key of an entry is no text.
    KeyNotText,
    /// An item of a list is no value, so that the list goes on forever.
    Endless,
}

/// What the entries of a dictionary mean: the last value of each key.
pub open spec fn entries_meaning(entries: Seq<(String, Value)>) -> Map<Seq<u8>, Bencoded>
    decreases entries,
{
    if entries.len() == 0 {
        Map::empty()
    } else {
        entries_meaning(entries.drop_last()).insert(
            encode_utf8(entries.last().0@),
            entries.last().1.meaning(),
        )
    }
}

/// What the items of a list mean.
pub open spec fn items_meaning(items: Seq<Value>) -> Seq<Bencoded>
    decreases items,
{
    Seq::new(
        items.len(),
        |i: int|
            if 0 <= i < items.len() {
                items[i].meaning()
            } else {
                Bencoded::Null
            },
    )
}

impl Value {
    /// What the value means.
    pub open spec fn meaning(self) -> Bencoded
        decreases self,
    {
        match self {
            Value::Null => Bencoded::Null,
            Value::Integer(n) => Bencoded::Integer(n as int),
            Value::Text(text) => Bencoded::Text(encode_utf8(text@)),
            Value::List(items) => Bencoded::List(items_meaning(items@)),
            Value::Dictionary(entries) => Bencoded::Dictionary(entries_meaning(entries@)),
        }
    }
}

/// Whether no key occurs twice in the entries of a dictionary.
pub open spec fn keys_differ(entries: Seq<(String, Value)>) -> bool {
    forall|i: int, j: int|
        0 <= i < j < entries.len() ==> (#[trigger] entries[i]).0@ != (#[trigger] entries[j]).0@
}

impl Value {
    /// Whether no dictionary in the value has a key twice.
    pub open spec fn well_formed(self) -> bool
        decreases self,
    {
        match self {
            Value::List(items) => forall|i: int|
                0 <= i < items@.len() ==> (#[trigger] items@[i]).well_formed(),
            Value::Dictionary(entries) => keys_differ(entries@) && forall|i: int|
                0 <= i < entries@.len() ==> (#[trigger] entries@[i]).1.well_formed(),
            _ => true,
        }
    }
}

/// How many bytes come before the first `byte` in `bytes`: all of them, if there is none.
pub open spec fn before_first(bytes: Seq<u8>, byte: u8) -> int
    decreases bytes.len(),
{
    if bytes.len() == 0 || bytes[0] == byte {
        0
    } else {
        1 + before_first(bytes.skip(1), byte)
    }
}

/// Whether the first `n` bytes of a text are there and end where a character ends.
pub open spec fn ends_character(bytes: Seq<u8>, n: int) -> bool {
    0 <= n <= bytes.len() && (n == bytes.len() || !is_continuation_byte(bytes[n]))
}

/// The value and the rest of a text that starts with a digit.
pub open spec fn text_in(bytes: Seq<u8>) -> Result<(Bencoded, Seq<u8>), DecodeError> {
    let colon = before_first(bytes, 58);
    match unsigned(bytes.take(colon), usize::MAX as int) {
        Some(n) if colon < bytes.len() => {
            let body = bytes.skip(colon + 1);
            if ends_character(body, n) {
                Ok((Bencoded::Text(body.take(n)), body.skip(n)))
            } else {
                Err(DecodeError::TextOutOfBounds)
            }
        },
        _ => Ok((Bencoded::Null, bytes)),
    }
}

/// The value and the rest of a text that starts with `i`.
pub open spec fn integer_in(bytes: Seq<u8>) -> (Bencoded, Seq<u8>) {
    let body = bytes.skip(1);
    let end = before_first(body, 101);
    match signed(body.take(end)) {
        Some(n) if end < body.len() => (Bencoded::Integer(n), body.skip(end + 1)),
        _ => (Bencoded::Null, bytes),
    }
}

/// The value at the start of a text, and what is left of the text.
pub open spec fn decoded(bytes: Seq<u8>) -> Result<(Bencoded, Seq<u8>), DecodeError>
    decreases bytes.len(), 0int,
{
    if bytes.len() == 0 {
        Ok((Bencoded::Null, bytes))
    } else if is_digit(bytes[0]) {
        text_in(bytes)
    } else if bytes[0] == 105 {
        Ok(integer_in(bytes))
    } else if bytes[0] == 108 {
        match items_in(bytes.skip(1)) {
            Ok((items, rest)) => Ok((Bencoded::List(items), rest)),
            Err(e) => Err(e),
        }
    } else if bytes[0] == 100 {
        match entries_in(bytes.skip(1), Map::empty()) {
            Ok((entries, rest)) => Ok((Bencoded::Dictionary(entries), rest)),
            Err(e) => Err(e),
        }
    } else {
        Ok((Bencoded::Null, bytes))
    }
}

/// The values up to the `e` that ends a list, and what is left behind it.
pub open spec fn items_in(bytes: Seq<u8>) -> Result<(Seq<Bencoded>, Seq<u8>), DecodeError>
    decreases bytes.len(), 1int,
{
    if bytes.len() == 0 {
        Err(DecodeError::Unterminated)
    } else if bytes[0] == 101 {
        Ok((seq![], bytes.skip(1)))
    } else {
        match decoded(bytes) {
            Err(e) => Err(e),
            Ok((item, rest)) => if rest.len() < bytes.len() {
                match items_in(rest) {
                    Ok((items, end)) => Ok((seq![item] + items, end)),
                    Err(e) => Err(e),
                }
            } else {
                Err(DecodeError::Endless)
            },
        }
    }
}

/// The entries up to the `e` that ends a dictionary, put into `entries` one after another,
/// and what is left behind it. A key always takes some of the text.
pub open spec fn entries_in(bytes: Seq<u8>, entries: Map<Seq<u8>, Bencoded>) -> Result<
    (Map<Seq<u8>, Bencoded>, Seq<u8>),
    DecodeError,
>
    decreases bytes.len(), 1int,
{
    if bytes.len() == 0 {
        Err(DecodeError::Unterminated)
    } else if bytes[0] == 101 {
        Ok((entries, bytes.skip(1)))
    } else {
        match decoded(bytes) {
            Err(e) => Err(e),
            Ok((Bencoded::Text(key), behind_key)) if behind_key.len() < bytes.len() => match decoded(
                behind_key,
            ) {
                Err(e) => Err(e),
                Ok((value, rest)) if rest.len() < bytes.len() => entries_in(
                    rest,
                    entries.insert(key, value),
                ),
                Ok(_) => Err(DecodeError::Endless),
            },
            Ok(_) => Err(DecodeError::KeyNotText),
        }
    }
}

/// Whether `result` is the value and the rest that `outcome` gives, or its error.
pub open spec fn agrees(
    result: Result<(Value, &str), DecodeError>,
    outcome: Result<(Bencoded, Seq<u8>), DecodeError>,
) -> bool {
    match outcome {
        Ok((meaning, rest)) => result matches Ok((value, left)) && value.meaning() == meaning
            && value.well_formed() && left.spec_bytes() == rest,
        Err(e) => result matches Err(error) && error == e,
    }
}

proof fn character_ends(bytes: Seq<u8>, n: int)
    requires
        valid_utf8(bytes),
        0 <= n <= bytes.len(),
    ensures
        is_char_boundary(bytes, n) <==> ends_character(bytes, n),
{
    if n == bytes.len() {
        is_char_boundary_start_end_of_seq(bytes);
    } else {
        is_char_boundary_iff_not_is_continuation_byte(bytes, n);
    }
}

proof fn ascii_is_one_byte(bytes: Seq<u8>)
    requires
        valid_utf8(bytes),
        bytes.len() > 0,
        bytes[0] < 0x80,
    ensures
        is_char_boundary(bytes, 1),
{
    reveal_with_fuel(is_char_boundary, 2);
    reveal_with_fuel(valid_utf8, 2);
}

/// What is left of a text behind its first character, which is ASCII.
fn behind_ascii<'a>(text: &'a str) -> (rest: &'a str)
    requires
        text.spec_bytes().len() > 0,
        text.spec_bytes()[0] < 0x80,
    ensures
        rest.spec_bytes() == text.spec_bytes().skip(1),
{
    proof {
        encode_utf8_valid_utf8(text@);
        ascii_is_one_byte(text.spec_bytes());
    }
    let (_, rest) = text.split_at(1);
    assert(rest.spec_bytes() =~= text.spec_bytes().skip(1));
    rest
}

/// Splits a text before byte `at`, which is ASCII.
fn split_before<'a>(text: &'a str, at: usize) -> (parts: (&'a str, &'a str))
    requires
        at < text.spec_bytes().len(),
        text.spec_bytes()[at as int] < 0x80,
    ensures
        parts.0.spec_bytes() == text.spec_bytes().take(at as int),
        parts.1.spec_bytes() == text.spec_bytes().skip(at as int),
{
    proof {
        encode_utf8_valid_utf8(text@);
        character_ends(text.spec_bytes(), at as int);
    }
    let parts: (&'a str, &'a str) = text.split_at(at);
    assert(parts.0.spec_bytes() =~= text.spec_bytes().take(at as int));
    assert(parts.1.spec_bytes() =~= text.spec_bytes().skip(at as int));
    parts
}

fn find(bytes: &[u8], byte: u8) -> (at: usize)
    ensures
        at == before_first(bytes@, byte),
        at <= bytes@.len(),
        at < bytes@.len() ==> bytes@[at as int] == byte,
{
    let mut at: usize = 0;
    assert(bytes@.skip(0) =~= bytes@);
    while at < bytes.len() && bytes[at] != byte
        invariant
            at <= bytes@.len(),
            before_first(bytes@, byte) == at + before_first(bytes@.skip(at as int), byte),
        decreases bytes@.len() - at,
    {
        assert(bytes@.skip(at as int).skip(1) =~= bytes@.skip(at + 1));
        at = at + 1;
    }
    at
}

fn decode_text<'a>(text: &'a str) -> (result: Result<(Value, &'a str), DecodeError>)
    requires
        text.spec_bytes().len() > 0,
    ensures
        agrees(result, text_in(text.spec_bytes())),
{
    let bytes: &[u8] = text.as_bytes();
    let colon: usize = find(bytes, 58);
    if colon == bytes.len() {
        return Ok((Value::Null, text));
    }
    let (digits, from_colon) = split_before(text, colon);
    match parse_unsigned(digits.as_bytes(), usize::MAX as u64) {
        None => Ok((Value::Null, text)),
        Some(n) => {
            let n: usize = n as usize;
            let body: &'a str = behind_ascii(from_colon);
            assert(body.spec_bytes() =~= bytes@.skip(colon + 1));
            proof {
                encode_utf8_valid_utf8(body@);
            }
            if n > body.as_bytes().len() {
                return Err(DecodeError::TextOutOfBounds);
            }
            proof {
                character_ends(body.spec_bytes(), n as int);
            }
            if !body.is_char_boundary(n) {
                return Err(DecodeError::TextOutOfBounds);
            }
            let (inside, rest) = body.split_at(n);
            assert(inside.spec_bytes() =~= body.spec_bytes().take(n as int));
            assert(rest.spec_bytes() =~= body.spec_bytes().skip(n as int));
            Ok((Value::Text(inside.to_owned()), rest))
        },
    }
}

fn decode_integer<'a>(text: &'a str) -> (result: (Value, &'a str))
    requires
        text.spec_bytes().len() > 0,
        text.spec_bytes()[0] < 0x80,
    ensures
        agrees(Ok(result), Ok(integer_in(text.spec_bytes()))),
{
    let body: &'a str = behind_ascii(text);
    let bytes: &[u8] = body.as_bytes();
    let end: usize = find(bytes, 101);
    if end == bytes.len() {
        return (Value::Null, text);
    }
    let (digits, from_end) = split_before(body, end);
    match parse_signed(digits.as_bytes()) {
        None => (Value::Null, text),
        Some(n) => {
            let rest: &'a str = behind_ascii(from_end);
            assert(rest.spec_bytes() =~= bytes@.skip(end + 1));
            (Value::Integer(n), rest)
        },
    }
}

/// Putting an entry in the place of the one with its key gives the key its new value.
proof fn replacing_is_inserting(entries: Seq<(String, Value)>, at: int, entry: (String, Value))
    requires
        0 <= at < entries.len(),
        keys_differ(entries),
        entries[at].0@ == entry.0@,
    ensures
        entries_meaning(entries.update(at, entry)) == entries_meaning(entries).insert(
            encode_utf8(entry.0@),
            entry.1.meaning(),
        ),
        keys_differ(entries.update(at, entry)),
    decreases entries.len(),
{
    broadcast use vstd::utf8::encode_utf8_decode_utf8;

    let updated = entries.update(at, entry);
    let last = entries.len() - 1;
    if at == last {
        assert(updated.drop_last() =~= entries.drop_last());
    } else {
        assert(keys_differ(entries.drop_last())) by {
            let fewer = entries.drop_last();
            assert forall|i: int, j: int| 0 <= i < j < fewer.len() implies (
            #[trigger] fewer[i]).0@ != (#[trigger] fewer[j]).0@ by {
                assert(fewer[i] == entries[i] && fewer[j] == entries[j]);
            }
        }
        replacing_is_inserting(entries.drop_last(), at, entry);
        assert(updated.drop_last() =~= entries.drop_last().update(at, entry));
        assert(entries[at].0@ != entries[last].0@);
        assert(encode_utf8(entry.0@) != encode_utf8(entries[last].0@)) by {
            if encode_utf8(entry.0@) == encode_utf8(entries[last].0@) {
                assert(vstd::utf8::decode_utf8(encode_utf8(entry.0@)) == entry.0@);
            }
        }
    }
    assert(entries_meaning(updated) =~= entries_meaning(entries).insert(
        encode_utf8(entry.0@),
        entry.1.meaning(),
    ));
    assert forall|i: int, j: int| 0 <= i < j < updated.len() implies (#[trigger] updated[i]).0@ != (
    #[trigger] updated[j]).0@ by {
        assert(entries[i].0@ != entries[j].0@);
    }
}

/// Gives a key a value: in its place if the key is there, else at the end.
fn put(entries: &mut Vec<(String, Value)>, key: String, value: Value)
    requires
        keys_differ(old(entries)@),
        value.well_formed(),
        forall|i: int| 0 <= i < old(entries)@.len() ==> (#[trigger] old(entries)@[i]).1.well_formed(),
    ensures
        keys_differ(final(entries)@),
        forall|i: int| 0 <= i < final(entries)@.len() ==> (#[trigger] final(entries)@[i]).1.well_formed(),
        entries_meaning(final(entries)@) == entries_meaning(old(entries)@).insert(
            encode_utf8(key@),
            value.meaning(),
        ),
{
    let ghost before = entries@;
    let mut i: usize = 0;
    while i < entries.len()
        invariant
            i <= entries@.len(),
            entries@ == before,
            before == old(entries)@,
            keys_differ(before),
            value.well_formed(),
            forall|j: int| 0 <= j < before.len() ==> (#[trigger] before[j]).1.well_formed(),
            forall|j: int| 0 <= j < i ==> (#[trigger] before[j]).0@ != key@,
        decreases entries@.len() - i,
    {
        if entries[i].0 == key {
            let ghost entry = (key, value);
            proof {
                replacing_is_inserting(before, i as int, entry);
            }
            entries[i] = (key, value);
            assert(entries@ =~= before.update(i as int, entry));
            return;
        }
        i = i + 1;
    }
    entries.push((key, value));
    proof {
        assert(entries@.drop_last() =~= before);
        assert forall|i: int, j: int| 0 <= i < j < entries@.len() implies (
        #[trigger] entries@[i]).0@ != (#[trigger] entries@[j]).0@ by {
            assert(entries@[i] == before[i]);
            if j < before.len() {
                assert(entries@[j] == before[j]);
            }
        }
    }
}

/// The value at the start of a text, and what is left of the text; or why reading it cannot
/// end well.
pub fn try_decode_bencoded_value<'a>(encoded_value: &'a str) -> (result: Result<
    (Value, &'a str),
    DecodeError,
>)
    ensures
        agrees(result, decoded(encoded_value.spec_bytes())),
    decreases encoded_value.spec_bytes().len(), 0int,
{
    let bytes: &[u8] = encoded_value.as_bytes();
    if bytes.len() == 0 {
        return Ok((Value::Null, encoded_value));
    }
    let first: u8 = bytes[0];
    if 48 <= first && first <= 57 {
        decode_text(encoded_value)
    } else if first == 105 {
        Ok(decode_integer(encoded_value))
    } else if first == 108 {
        match decode_items(behind_ascii(encoded_value)) {
            Ok((items, rest)) => Ok((Value::List(items), rest)),
            Err(e) => Err(e),
        }
    } else if first == 100 {
        match decode_entries(behind_ascii(encoded_value)) {
            Ok((entries, rest)) => Ok((Value::Dictionary(entries), rest)),
            Err(e) => Err(e),
        }
    } else {
        Ok((Value::Null, encoded_value))
    }
}

fn decode_items<'a>(text: &'a str) -> (result: Result<(Vec<Value>, &'a str), DecodeError>)
    ensures
        match items_in(text.spec_bytes()) {
            Ok((items, rest)) => result matches Ok((values, left)) && items_meaning(values@)
                == items && left.spec_bytes() == rest && forall|i: int|
                0 <= i < values@.len() ==> (#[trigger] values@[i]).well_formed(),
            Err(e) => result matches Err(error) && error == e,
        },
    decreases text.spec_bytes().len(), 1int,
{
    let mut values: Vec<Value> = Vec::new();
    let mut rest: &'a str = text;
    assert(items_meaning(values@) =~= Seq::<Bencoded>::empty());
    proof {
        if let Ok((items, end)) = items_in(text.spec_bytes()) {
            assert(Seq::<Bencoded>::empty() + items =~= items);
        }
    }
    loop
        invariant
            rest.spec_bytes().len() <= text.spec_bytes().len(),
            forall|i: int| 0 <= i < values@.len() ==> (#[trigger] values@[i]).well_formed(),
            items_in(text.spec_bytes()) == match items_in(rest.spec_bytes()) {
                Ok((items, end)) => Ok::<(Seq<Bencoded>, Seq<u8>), DecodeError>(
                    (items_meaning(values@) + items, end),
                ),
                Err(e) => Err(e),
            },
        decreases rest.spec_bytes().len(),
    {
        let bytes: &[u8] = rest.as_bytes();
        if bytes.len() == 0 {
            return Err(DecodeError::Unterminated);
        }
        if bytes[0] == 101 {
            assert(items_meaning(values@) + Seq::<Bencoded>::empty() =~= items_meaning(values@));
            return Ok((values, behind_ascii(rest)));
        }
        match try_decode_bencoded_value(rest) {
            Err(e) => {
                return Err(e);
            },
            Ok((value, behind)) => {
                if behind.as_bytes().len() >= bytes.len() {
                    return Err(DecodeError::Endless);
                }
                let ghost before = values@;
                values.push(value);
                proof {
                    assert(items_meaning(values@) =~= items_meaning(before).push(value.meaning()));
                    if let Ok((items, end)) = items_in(behind.spec_bytes()) {
                        assert(items_meaning(before) + (seq![value.meaning()] + items)
                            =~= items_meaning(values@) + items);
                    }
                }
                rest = behind;
            },
        }
    }
}

fn decode_entries<'a>(text: &'a str) -> (result: Result<
    (Vec<(String, Value)>, &'a str),
    DecodeError,
>)
    ensures
        match entries_in(text.spec_bytes(), Map::empty()) {
            Ok((meaning, rest)) => result matches Ok((entries, left)) && entries_meaning(entries@)
                == meaning && left.spec_bytes() == rest && keys_differ(entries@) && forall|i: int|
                0 <= i < entries@.len() ==> (#[trigger] entries@[i]).1.well_formed(),
            Err(e) => result matches Err(error) && error == e,
        },
    decreases text.spec_bytes().len(), 1int,
{
    let mut entries: Vec<(String, Value)> = Vec::new();
    let mut rest: &'a str = text;
    loop
        invariant
            rest.spec_bytes().len() <= text.spec_bytes().len(),
            keys_differ(entries@),
            forall|i: int| 0 <= i < entries@.len() ==> (#[trigger] entries@[i]).1.well_formed(),
            entries_in(text.spec_bytes(), Map::empty()) == entries_in(
                rest.spec_bytes(),
                entries_meaning(entries@),
            ),
        decreases rest.spec_bytes().len(),
    {
        let bytes: &[u8] = rest.as_bytes();
        if bytes.len() == 0 {
            return Err(DecodeError::Unterminated);
        }
        if bytes[0] == 101 {
            return Ok((entries, behind_ascii(rest)));
        }
        match try_decode_bencoded_value(rest) {
            Err(e) => {
                return Err(e);
            },
            Ok((Value::Text(key), behind_key)) => {
                if behind_key.as_bytes().len() >= bytes.len() {
                    return Err(DecodeError::KeyNotText);
                }
                match try_decode_bencoded_value(behind_key) {
                    Err(e) => {
                        return Err(e);
                    },
                    Ok((value, behind)) => {
                        if behind.as_bytes().len() >= bytes.len() {
                            return Err(DecodeError::Endless);
                        }
                        put(&mut entries, key, value);
                        rest = behind;
                    },
                }
            },
            Ok(_) => {
                return Err(DecodeError::KeyNotText);
            },
        }
    }
}

/// The value at the start of a text, and what is left of the text.
pub fn decode_bencoded_value<'a>(encoded_value: &'a str) -> (result: (Value, &'a str))
    requires
        decoded(encoded_value.spec_bytes()) is Ok,
    ensures
        agrees(Ok(result), decoded(encoded_value.spec_bytes())),
{
    match try_decode_bencoded_value(encoded_value) {
        Ok(result) => result,
        Err(_) => (Value::Null, encoded_value),
    }
}

} // verus!
