//! What holds of every text that [`crate::bencode`] reads.

use vstd::prelude::*;
#[allow(unused_imports)]
use vstd::string::StringSliceAdditionalSpecFns;
#[allow(unused_imports)]
use vstd::utf8::{encode_utf8, is_continuation_byte};
#[allow(unused_imports)]
use crate::bencode::{agrees, before_first, decoded, entries_in, entries_meaning, items_in,
    keys_differ, Bencoded, DecodeError, Value};
#[allow(unused_imports)]
use crate::decimal::{all_digits, digits_value, is_digit, signed, unsigned};

verus! {

/// Whether `rest` is the end of `bytes`.
pub open spec fn is_end_of(rest: Seq<u8>, bytes: Seq<u8>) -> bool {
    rest.len() <= bytes.len() && rest == bytes.skip(bytes.len() - rest.len())
}

proof fn end_of_end(rest: Seq<u8>, middle: Seq<u8>, bytes: Seq<u8>)
    requires
        is_end_of(rest, middle),
        is_end_of(middle, bytes),
    ensures
        is_end_of(rest, bytes),
{
    assert(rest =~= bytes.skip(bytes.len() - rest.len()));
}

proof fn before_first_in_range(bytes: Seq<u8>, byte: u8)
    ensures
        0 <= before_first(bytes, byte) <= bytes.len(),
    decreases bytes.len(),
{
    if bytes.len() > 0 && bytes[0] != byte {
        before_first_in_range(bytes.skip(1), byte);
    }
}

/// What is left of a text is the end of it. All of it is left exactly where no value was
/// found.
pub proof fn law_reading_moves_on(bytes: Seq<u8>)
    requires
        decoded(bytes) is Ok,
    ensures
        is_end_of(decoded(bytes)->Ok_0.1, bytes),
        decoded(bytes)->Ok_0.0 is Null <==> decoded(bytes)->Ok_0.1 == bytes,
        decoded(bytes)->Ok_0.0 is Null <==> decoded(bytes)->Ok_0.1.len() == bytes.len(),
    decreases bytes.len(), 0int,
{
    let (value, rest) = decoded(bytes)->Ok_0;
    assert(bytes.skip(0) =~= bytes);
    if bytes.len() == 0 {
    } else if is_digit(bytes[0]) {
        before_first_in_range(bytes, 58);
        let colon = before_first(bytes, 58);
        if value is Text {
            let n = unsigned(bytes.take(colon), usize::MAX as int)->0;
            assert(rest =~= bytes.skip(colon + 1 + n));
        }
    } else if bytes[0] == 105 {
        before_first_in_range(bytes.skip(1), 101);
        let end = before_first(bytes.skip(1), 101);
        if value is Integer {
            assert(rest =~= bytes.skip(1 + end + 1));
        }
    } else if bytes[0] == 108 {
        items_move_on(bytes.skip(1));
        end_of_end(rest, bytes.skip(1), bytes);
    } else if bytes[0] == 100 {
        entries_move_on(bytes.skip(1), Map::empty());
        end_of_end(rest, bytes.skip(1), bytes);
    }
}

proof fn items_move_on(bytes: Seq<u8>)
    requires
        items_in(bytes) is Ok,
    ensures
        is_end_of(items_in(bytes)->Ok_0.1, bytes),
    decreases bytes.len(), 1int,
{
    if bytes[0] != 101 {
        let (item, rest) = decoded(bytes)->Ok_0;
        law_reading_moves_on(bytes);
        items_move_on(rest);
        end_of_end(items_in(bytes)->Ok_0.1, rest, bytes);
    }
}

proof fn entries_move_on(bytes: Seq<u8>, entries: Map<Seq<u8>, Bencoded>)
    requires
        entries_in(bytes, entries) is Ok,
    ensures
        is_end_of(entries_in(bytes, entries)->Ok_0.1, bytes),
    decreases bytes.len(), 1int,
{
    if bytes[0] != 101 {
        let (key, behind_key) = decoded(bytes)->Ok_0;
        law_reading_moves_on(bytes);
        let (value, rest) = decoded(behind_key)->Ok_0;
        law_reading_moves_on(behind_key);
        end_of_end(rest, behind_key, bytes);
        entries_move_on(rest, entries.insert(key->Text_0, value));
        end_of_end(entries_in(bytes, entries)->Ok_0.1, rest, bytes);
    }
}

/// A value as it is written: text as its bytes, the entries of a dictionary in the order in
/// which they stand.
pub enum Written {
    Integer(int),
    Text(Seq<u8>),
    List(Seq<Written>),
    Dictionary(Seq<(Seq<u8>, Written)>),
}

/// The decimal digits of a number, in ASCII.
pub open spec fn decimal_digits(n: nat) -> Seq<u8>
    decreases n,
{
    if n < 10 {
        seq![(48 + n) as u8]
    } else {
        decimal_digits(n / 10).push((48 + n % 10) as u8)
    }
}

/// The decimal digits of a number, with a minus in front if it is negative.
pub open spec fn signed_digits(n: int) -> Seq<u8> {
    if n < 0 {
        seq![45u8] + decimal_digits((-n) as nat)
    } else {
        decimal_digits(n as nat)
    }
}

/// The text that a list holds between its two ends.
pub open spec fn items_text(items: Seq<Written>) -> Seq<u8>
    decreases items,
{
    if items.len() == 0 {
        seq![]
    } else {
        items[0].text() + items_text(items.drop_first())
    }
}

/// The text that a dictionary holds between its two ends.
pub open spec fn entries_text(entries: Seq<(Seq<u8>, Written)>) -> Seq<u8>
    decreases entries,
{
    if entries.len() == 0 {
        seq![]
    } else {
        text_text(entries[0].0) + entries[0].1.text() + entries_text(entries.drop_first())
    }
}

/// How a text is written.
pub open spec fn text_text(text: Seq<u8>) -> Seq<u8> {
    decimal_digits(text.len()) + seq![58u8] + text
}

/// What the entries of a dictionary mean, put into `into` one after another.
pub open spec fn entries_value(
    entries: Seq<(Seq<u8>, Written)>,
    into: Map<Seq<u8>, Bencoded>,
) -> Map<Seq<u8>, Bencoded>
    decreases entries,
{
    if entries.len() == 0 {
        into
    } else {
        entries_value(entries.drop_first(), into.insert(entries[0].0, entries[0].1.value()))
    }
}

/// What the items of a list mean.
pub open spec fn items_value(items: Seq<Written>) -> Seq<Bencoded>
    decreases items,
{
    if items.len() == 0 {
        seq![]
    } else {
        seq![items[0].value()] + items_value(items.drop_first())
    }
}

impl Written {
    /// The text.
    pub open spec fn text(self) -> Seq<u8>
        decreases self,
    {
        match self {
            Written::Integer(n) => seq![105u8] + signed_digits(n) + seq![101u8],
            Written::Text(text) => text_text(text),
            Written::List(items) => seq![108u8] + items_text(items) + seq![101u8],
            Written::Dictionary(entries) => seq![100u8] + entries_text(entries) + seq![101u8],
        }
    }

    /// What it means: of two entries with one key, the later one counts.
    pub open spec fn value(self) -> Bencoded
        decreases self,
    {
        match self {
            Written::Integer(n) => Bencoded::Integer(n),
            Written::Text(text) => Bencoded::Text(text),
            Written::List(items) => Bencoded::List(items_value(items)),
            Written::Dictionary(entries) => Bencoded::Dictionary(
                entries_value(entries, Map::empty()),
            ),
        }
    }

    /// Whether the numbers in it fit in 64 bits and the lengths in the machine's word.
    pub open spec fn fits(self) -> bool
        decreases self,
    {
        match self {
            Written::Integer(n) => i64::MIN <= n <= i64::MAX,
            Written::Text(text) => text.len() <= usize::MAX,
            Written::List(items) => forall|i: int|
                0 <= i < items.len() ==> (#[trigger] items[i]).fits(),
            Written::Dictionary(entries) => forall|i: int|
                0 <= i < entries.len() ==> (#[trigger] entries[i]).0.len() <= usize::MAX
                    && entries[i].1.fits(),
        }
    }
}

proof fn digits_read_back(n: nat)
    ensures
        decimal_digits(n).len() > 0,
        all_digits(decimal_digits(n)),
        digits_value(decimal_digits(n)) == n,
    decreases n,
{
    let digits = decimal_digits(n);
    if n < 10 {
        assert(digits.drop_last() =~= Seq::<u8>::empty());
        assert(digits_value(digits.drop_last()) == 0);
    } else {
        digits_read_back(n / 10);
        assert(digits.drop_last() =~= decimal_digits(n / 10));
        assert forall|i: int| 0 <= i < digits.len() implies is_digit(#[trigger] digits[i]) by {
            if i < digits.len() - 1 {
                assert(digits[i] == decimal_digits(n / 10)[i]);
            }
        }
    }
}

proof fn signed_digits_read_back(n: int)
    requires
        i64::MIN <= n <= i64::MAX,
    ensures
        signed(signed_digits(n)) == Some(n),
        forall|i: int| 0 <= i < signed_digits(n).len() ==> #[trigger] signed_digits(n)[i] != 101,
{
    let digits = signed_digits(n);
    if n < 0 {
        digits_read_back((-n) as nat);
        assert(digits.skip(1) =~= decimal_digits((-n) as nat));
        assert forall|i: int| 0 <= i < digits.len() implies #[trigger] digits[i] != 101 by {
            if i > 0 {
                assert(digits[i] == decimal_digits((-n) as nat)[i - 1]);
            }
        }
    } else {
        digits_read_back(n as nat);
        assert(is_digit(digits[0]));
    }
}

proof fn before_first_is_found(front: Seq<u8>, byte: u8, behind: Seq<u8>)
    requires
        forall|i: int| 0 <= i < front.len() ==> #[trigger] front[i] != byte,
    ensures
        before_first(front + seq![byte] + behind, byte) == front.len(),
    decreases front.len(),
{
    let all = front + seq![byte] + behind;
    if front.len() == 0 {
        assert(all[0] == byte);
    } else {
        assert(all[0] == front[0]);
        assert(all.skip(1) =~= front.skip(1) + seq![byte] + behind);
        before_first_is_found(front.skip(1), byte, behind);
    }
}

proof fn written_starts_a_value(written: Written)
    ensures
        written.text().len() >= 2,
        written.text()[0] < 0x80,
        written.text()[0] != 101,
{
    match written {
        Written::Text(text) => {
            digits_read_back(text.len());
            assert(is_digit(decimal_digits(text.len())[0]));
            assert(written.text()[0] == decimal_digits(text.len())[0]);
        },
        _ => {},
    }
}

/// Whether a text can stand behind a whole character.
pub open spec fn starts_character(bytes: Seq<u8>) -> bool {
    bytes.len() == 0 || !is_continuation_byte(bytes[0])
}

proof fn text_is_read(text: Seq<u8>, behind: Seq<u8>)
    requires
        text.len() <= usize::MAX,
        starts_character(behind),
    ensures
        decoded(text_text(text) + behind) == Ok::<_, crate::bencode::DecodeError>(
            (Bencoded::Text(text), behind),
        ),
{
    let digits = decimal_digits(text.len());
    let all = text_text(text) + behind;
    digits_read_back(text.len());
    assert forall|i: int| 0 <= i < digits.len() implies #[trigger] digits[i] != 58 by {
        assert(is_digit(digits[i]));
    }
    assert(all =~= digits + seq![58u8] + (text + behind));
    before_first_is_found(digits, 58, text + behind);
    assert(all.take(digits.len() as int) =~= digits);
    assert(all.skip(digits.len() as int + 1) =~= text + behind);
    assert(is_digit(digits[0]) && all[0] == digits[0]);
    assert((text + behind).take(text.len() as int) =~= text);
    assert((text + behind).skip(text.len() as int) =~= behind);
}

/// Every value that is written as the format says is read as what it means, whatever comes
/// behind it, and what comes behind is left.
pub proof fn law_written_value_is_read(written: Written, behind: Seq<u8>)
    requires
        written.fits(),
        starts_character(behind),
    ensures
        decoded(written.text() + behind) == Ok::<_, crate::bencode::DecodeError>(
            (written.value(), behind),
        ),
    decreases written,
{
    let all = written.text() + behind;
    match written {
        Written::Integer(n) => {
            signed_digits_read_back(n);
            let digits = signed_digits(n);
            let body = all.skip(1);
            assert(body =~= digits + seq![101u8] + behind);
            before_first_is_found(digits, 101, behind);
            assert(body.take(digits.len() as int) =~= digits);
            assert(body.skip(digits.len() as int + 1) =~= behind);
        },
        Written::Text(text) => {
            text_is_read(text, behind);
        },
        Written::List(items) => {
            assert(all.skip(1) =~= items_text(items) + (seq![101u8] + behind));
            items_are_read(items, behind);
        },
        Written::Dictionary(entries) => {
            assert(all.skip(1) =~= entries_text(entries) + (seq![101u8] + behind));
            entries_are_read(entries, Map::empty(), behind);
        },
    }
}

proof fn items_are_read(items: Seq<Written>, behind: Seq<u8>)
    requires
        forall|i: int| 0 <= i < items.len() ==> (#[trigger] items[i]).fits(),
    ensures
        items_in(items_text(items) + (seq![101u8] + behind)) == Ok::<
            _,
            crate::bencode::DecodeError,
        >((items_value(items), behind)),
    decreases items,
{
    let end = seq![101u8] + behind;
    let all = items_text(items) + end;
    if items.len() == 0 {
        assert(all =~= end);
        assert(end.skip(1) =~= behind);
    } else {
        let more = items.drop_first();
        let rest = items_text(more) + end;
        assert forall|i: int| 0 <= i < more.len() implies (#[trigger] more[i]).fits() by {
            assert(more[i] == items[i + 1]);
        }
        assert(items[0].fits());
        if more.len() > 0 {
            written_starts_a_value(more[0]);
            assert(rest[0] == more[0].text()[0]);
        } else {
            assert(rest =~= end);
        }
        written_starts_a_value(items[0]);
        assert(all =~= items[0].text() + rest);
        assert(all[0] == items[0].text()[0]);
        law_written_value_is_read(items[0], rest);
        items_are_read(more, behind);
    }
}

proof fn entries_are_read(
    entries: Seq<(Seq<u8>, Written)>,
    into: Map<Seq<u8>, Bencoded>,
    behind: Seq<u8>,
)
    requires
        forall|i: int|
            0 <= i < entries.len() ==> (#[trigger] entries[i]).0.len() <= usize::MAX
                && entries[i].1.fits(),
    ensures
        entries_in(entries_text(entries) + (seq![101u8] + behind), into) == Ok::<
            _,
            crate::bencode::DecodeError,
        >((entries_value(entries, into), behind)),
    decreases entries,
{
    let end = seq![101u8] + behind;
    let all = entries_text(entries) + end;
    if entries.len() == 0 {
        assert(all =~= end);
        assert(end.skip(1) =~= behind);
    } else {
        let more = entries.drop_first();
        let rest = entries_text(more) + end;
        let (key, value) = entries[0];
        assert forall|i: int| 0 <= i < more.len() implies (#[trigger] more[i]).0.len()
            <= usize::MAX && more[i].1.fits() by {
            assert(more[i] == entries[i + 1]);
        }
        assert(entries[0].1.fits());
        if more.len() > 0 {
            written_starts_a_value(Written::Text(more[0].0));
            assert(rest[0] == text_text(more[0].0)[0]);
        } else {
            assert(rest =~= end);
        }
        written_starts_a_value(Written::Text(key));
        written_starts_a_value(value);
        let behind_key = value.text() + rest;
        assert(all =~= text_text(key) + behind_key);
        assert(all[0] == text_text(key)[0]);
        assert(behind_key[0] == value.text()[0]);
        text_is_read(key, behind_key);
        law_written_value_is_read(value, rest);
        entries_are_read(more, into.insert(key, value.value()), behind);
    }
}

/// A text is as many bytes behind the colon as the digits before it say, leading zeros or
/// not. A number that is too large for the machine is none, and fewer bytes, or an end inside
/// a character, are refused.
pub proof fn law_text_is_cut_at_its_length(digits: Seq<u8>, body: Seq<u8>)
    requires
        digits.len() > 0,
        all_digits(digits),
    ensures
        ({
            let bytes = digits + seq![58u8] + body;
            let n = digits_value(digits);
            let ends = n <= body.len() && (n == body.len() || !is_continuation_byte(body[n]));
            &&& n > usize::MAX ==> decoded(bytes) == Ok::<_, DecodeError>((Bencoded::Null, bytes))
            &&& n <= usize::MAX && ends ==> decoded(bytes) == Ok::<_, DecodeError>(
                (Bencoded::Text(body.take(n)), body.skip(n)),
            )
            &&& n <= usize::MAX && !ends ==> decoded(bytes) == Err::<
                (Bencoded, Seq<u8>),
                DecodeError,
            >(DecodeError::TextOutOfBounds)
        }),
{
    let bytes = digits + seq![58u8] + body;
    digits_value_is_natural(digits);
    assert forall|i: int| 0 <= i < digits.len() implies #[trigger] digits[i] != 58 by {
        assert(is_digit(digits[i]));
    }
    before_first_is_found(digits, 58, body);
    assert(bytes.take(digits.len() as int) =~= digits);
    assert(bytes.skip(digits.len() as int + 1) =~= body);
    assert(is_digit(digits[0]) && bytes[0] == digits[0]);
}

proof fn digits_value_is_natural(digits: Seq<u8>)
    requires
        all_digits(digits),
    ensures
        0 <= digits_value(digits),
    decreases digits.len(),
{
    if digits.len() > 0 {
        digits_value_is_natural(digits.drop_last());
        assert(is_digit(digits[digits.len() - 1]));
    }
}

proof fn before_first_of_none(bytes: Seq<u8>, byte: u8)
    requires
        forall|i: int| 0 <= i < bytes.len() ==> #[trigger] bytes[i] != byte,
    ensures
        before_first(bytes, byte) == bytes.len(),
    decreases bytes.len(),
{
    if bytes.len() > 0 {
        assert forall|i: int| 0 <= i < bytes.skip(1).len() implies #[trigger] bytes.skip(1)[i]
            != byte by {
            assert(bytes.skip(1)[i] == bytes[i + 1]);
        }
        before_first_of_none(bytes.skip(1), byte);
    }
}

/// What starts with a digit and has no colon, or something else than digits before its first
/// colon, is no value.
pub proof fn law_no_text_without_a_length(front: Seq<u8>, body: Seq<u8>, at: int)
    requires
        front.len() > 0,
        is_digit(front[0]),
        forall|i: int| 0 <= i < front.len() ==> #[trigger] front[i] != 58,
    ensures
        decoded(front) == Ok::<_, DecodeError>((Bencoded::Null, front)),
        0 <= at < front.len() && !is_digit(front[at]) ==> decoded(front + seq![58u8] + body)
            == Ok::<_, DecodeError>((Bencoded::Null, front + seq![58u8] + body)),
{
    before_first_of_none(front, 58);
    let bytes = front + seq![58u8] + body;
    before_first_is_found(front, 58, body);
    assert(bytes.take(front.len() as int) =~= front);
    assert(bytes[0] == front[0]);
}

/// A number is what stands between `i` and the next `e`, if that is a number of 64 bits with
/// or without a sign; else it is no value, and so it is without an `e`.
pub proof fn law_number_stands_between_i_and_e(middle: Seq<u8>, behind: Seq<u8>)
    requires
        forall|i: int| 0 <= i < middle.len() ==> #[trigger] middle[i] != 101,
    ensures
        ({
            let bytes = seq![105u8] + middle + seq![101u8] + behind;
            let open = seq![105u8] + middle;
            &&& signed(middle) is Some ==> decoded(bytes) == Ok::<_, DecodeError>(
                (Bencoded::Integer(signed(middle)->0), behind),
            )
            &&& signed(middle) is None ==> decoded(bytes) == Ok::<_, DecodeError>(
                (Bencoded::Null, bytes),
            )
            &&& decoded(open) == Ok::<_, DecodeError>((Bencoded::Null, open))
        }),
{
    let bytes = seq![105u8] + middle + seq![101u8] + behind;
    let open = seq![105u8] + middle;
    assert(open.skip(1) =~= middle);
    before_first_of_none(middle, 101);
    assert(bytes.skip(1) =~= middle + seq![101u8] + behind);
    before_first_is_found(middle, 101, behind);
    assert(bytes.skip(1).take(middle.len() as int) =~= middle);
    assert(bytes.skip(1).skip(middle.len() as int + 1) =~= behind);
}

/// What starts with no digit, `i`, `l` or `d` is no value, and all of it is left; so is
/// nothing.
pub proof fn law_other_starts_are_no_value(bytes: Seq<u8>)
    requires
        bytes.len() == 0 || !(is_digit(bytes[0]) || bytes[0] == 'i' as int || bytes[0] == 'l' as int
            || bytes[0] == 'd' as int),
    ensures
        decoded(bytes) == Ok::<_, DecodeError>((Bencoded::Null, bytes)),
{
}

/// A list is read item by item: with a value in front of what stands between `l` and `e`, the
/// list has that value in front, and the rest is as without it. An item that cannot be read
/// is the list's error, one that is no value never ends, and a list has to end.
pub proof fn law_list_is_read_item_by_item(bytes: Seq<u8>)
    ensures
        decoded(seq![108u8]) == Err::<(Bencoded, Seq<u8>), DecodeError>(DecodeError::Unterminated),
        decoded(seq![108u8, 101] + bytes) == Ok::<_, DecodeError>(
            (Bencoded::List(Seq::empty()), bytes),
        ),
        bytes.len() > 0 && bytes[0] != 101 ==> match decoded(bytes) {
            Err(e) => decoded(seq![108u8] + bytes) == Err::<(Bencoded, Seq<u8>), DecodeError>(e),
            Ok((Bencoded::Null, _)) => decoded(seq![108u8] + bytes) == Err::<
                (Bencoded, Seq<u8>),
                DecodeError,
            >(DecodeError::Endless),
            Ok((item, rest)) => match decoded(seq![108u8] + rest) {
                Err(e) => decoded(seq![108u8] + bytes) == Err::<(Bencoded, Seq<u8>), DecodeError>(
                    e,
                ),
                Ok((list, end)) => list is List && decoded(seq![108u8] + bytes) == Ok::<
                    _,
                    DecodeError,
                >((Bencoded::List(seq![item] + list->List_0), end)),
            },
        },
{
    assert(seq![108u8].skip(1) =~= Seq::<u8>::empty());
    let empty = seq![108u8, 101] + bytes;
    assert(empty.skip(1) =~= seq![101u8] + bytes);
    assert(empty.skip(1).skip(1) =~= bytes);
    assert((seq![108u8] + bytes).skip(1) =~= bytes);
    if bytes.len() > 0 && bytes[0] != 101 {
        if let Ok((item, rest)) = decoded(bytes) {
            law_reading_moves_on(bytes);
            assert((seq![108u8] + rest).skip(1) =~= rest);
        }
    }
}

proof fn entries_into(
    bytes: Seq<u8>,
    one: Map<Seq<u8>, Bencoded>,
    other: Map<Seq<u8>, Bencoded>,
    key: Seq<u8>,
)
    requires
        forall|k: Seq<u8>|
            k != key ==> (#[trigger] one.dom().contains(k) <==> other.dom().contains(k)) && (
            one.dom().contains(k) ==> one[k] == other[k]),
    ensures
        match (entries_in(bytes, one), entries_in(bytes, other)) {
            (Err(e), Err(f)) => e == f,
            (Ok((m, rest)), Ok((n, left))) => {
                &&& rest == left
                &&& forall|k: Seq<u8>|
                    k != key ==> (#[trigger] m.dom().contains(k) <==> n.dom().contains(k)) && (
                    m.dom().contains(k) ==> m[k] == n[k])
                &&& (m.dom().contains(key) && n.dom().contains(key) && m[key] == n[key]) || (
                (m.dom().contains(key) <==> one.dom().contains(key)) && (n.dom().contains(key)
                    <==> other.dom().contains(key)) && (one.dom().contains(key) ==> m[key]
                    == one[key]) && (other.dom().contains(key) ==> n[key] == other[key]))
            },
            _ => false,
        },
    decreases bytes.len(),
{
    if bytes.len() > 0 && bytes[0] != 101 {
        if let Ok((Bencoded::Text(k), behind_key)) = decoded(bytes) {
            if behind_key.len() < bytes.len() {
                if let Ok((value, rest)) = decoded(behind_key) {
                    if rest.len() < bytes.len() {
                        entries_into(rest, one.insert(k, value), other.insert(k, value), key);
                    }
                }
            }
        }
    }
}

proof fn entries_keep(bytes: Seq<u8>, into: Map<Seq<u8>, Bencoded>, key: Seq<u8>)
    requires
        into.dom().contains(key),
    ensures
        entries_in(bytes, into) matches Ok((m, _)) ==> m.dom().contains(key),
    decreases bytes.len(),
{
    if bytes.len() > 0 && bytes[0] != 101 {
        if let Ok((Bencoded::Text(k), behind_key)) = decoded(bytes) {
            if behind_key.len() < bytes.len() {
                if let Ok((value, rest)) = decoded(behind_key) {
                    if rest.len() < bytes.len() {
                        entries_keep(rest, into.insert(k, value), key);
                    }
                }
            }
        }
    }
}

/// A dictionary is read entry by entry: with a key and a value in front of what stands between
/// `d` and `e`, the key has that value, unless it has another one in the rest, and the rest
/// is as without it. What cannot be read is the dictionary's error, a key has to be a text,
/// and a dictionary has to end.
pub proof fn law_dictionary_is_read_entry_by_entry(bytes: Seq<u8>)
    ensures
        decoded(seq![100u8]) == Err::<(Bencoded, Seq<u8>), DecodeError>(DecodeError::Unterminated),
        decoded(seq![100u8, 101] + bytes) == Ok::<_, DecodeError>(
            (Bencoded::Dictionary(Map::empty()), bytes),
        ),
        bytes.len() > 0 && bytes[0] != 101 ==> match decoded(bytes) {
            Err(e) => decoded(seq![100u8] + bytes) == Err::<(Bencoded, Seq<u8>), DecodeError>(e),
            Ok((Bencoded::Text(key), behind_key)) => match decoded(behind_key) {
                Err(e) => decoded(seq![100u8] + bytes) == Err::<(Bencoded, Seq<u8>), DecodeError>(
                    e,
                ),
                Ok((value, rest)) => match decoded(seq![100u8] + rest) {
                    Err(e) => decoded(seq![100u8] + bytes) == Err::<
                        (Bencoded, Seq<u8>),
                        DecodeError,
                    >(e),
                    Ok((others, end)) => others is Dictionary && decoded(seq![100u8] + bytes)
                        == Ok::<_, DecodeError>(
                        (
                            Bencoded::Dictionary(
                                if others->Dictionary_0.dom().contains(key) {
                                    others->Dictionary_0
                                } else {
                                    others->Dictionary_0.insert(key, value)
                                },
                            ),
                            end,
                        ),
                    ),
                },
            },
            Ok(_) => decoded(seq![100u8] + bytes) == Err::<(Bencoded, Seq<u8>), DecodeError>(
                DecodeError::KeyNotText,
            ),
        },
{
    assert(seq![100u8].skip(1) =~= Seq::<u8>::empty());
    let empty = seq![100u8, 101] + bytes;
    assert(empty.skip(1) =~= seq![101u8] + bytes);
    assert(empty.skip(1).skip(1) =~= bytes);
    let all = seq![100u8] + bytes;
    assert(all.skip(1) =~= bytes);
    if bytes.len() > 0 && bytes[0] != 101 {
        if let Ok((Bencoded::Text(key), behind_key)) = decoded(bytes) {
            law_reading_moves_on(bytes);
            if let Ok((value, rest)) = decoded(behind_key) {
                law_reading_moves_on(behind_key);
                assert((seq![100u8] + rest).skip(1) =~= rest);
                let none = Map::<Seq<u8>, Bencoded>::empty();
                let one = none.insert(key, value);
                entries_into(rest, one, none, key);
                entries_keep(rest, one, key);
                if let Ok((m, end)) = entries_in(rest, one) {
                    let (n, left) = entries_in(rest, none)->Ok_0;
                    let wanted = if n.dom().contains(key) {
                        n
                    } else {
                        n.insert(key, value)
                    };
                    assert(m =~= wanted);
                }
            }
        }
    }
}

/// A value means what it holds: a number, the bytes of a text, the items of a list in their
/// order.
pub proof fn law_values_mean_what_they_hold(value: Value)
    ensures
        value is Null <==> value.meaning() is Null,
        value matches Value::Integer(n) ==> value.meaning() == Bencoded::Integer(n as int),
        value matches Value::Text(text) ==> value.meaning() == Bencoded::Text(encode_utf8(text@)),
        value matches Value::List(items) ==> value.meaning() is List
            && value.meaning()->List_0.len() == items@.len() && forall|i: int|
            0 <= i < items@.len() ==> value.meaning()->List_0[i] == (
            #[trigger] items@[i]).meaning(),
        value matches Value::Dictionary(_) ==> value.meaning() is Dictionary,
{
}

/// A dictionary in which no key occurs twice means what it holds: each key has its value, and
/// no other key has any.
pub proof fn law_entries_mean_what_they_hold(entries: Seq<(String, Value)>, key: Seq<u8>)
    requires
        keys_differ(entries),
    ensures
        forall|i: int|
            0 <= i < entries.len() ==> entries_meaning(entries).dom().contains(
                encode_utf8((#[trigger] entries[i]).0@),
            ) && entries_meaning(entries)[encode_utf8(entries[i].0@)] == entries[i].1.meaning(),
        entries_meaning(entries).dom().contains(key) ==> exists|i: int|
            0 <= i < entries.len() && encode_utf8((#[trigger] entries[i]).0@) == key,
    decreases entries.len(),
{
    broadcast use vstd::utf8::encode_utf8_decode_utf8;

    if entries.len() > 0 {
        let fewer = entries.drop_last();
        let last = entries.len() - 1;
        assert forall|i: int, j: int| 0 <= i < j < fewer.len() implies (#[trigger] fewer[i]).0@ != (
        #[trigger] fewer[j]).0@ by {
            assert(fewer[i] == entries[i] && fewer[j] == entries[j]);
        }
        law_entries_mean_what_they_hold(fewer, key);
        assert forall|i: int| 0 <= i < entries.len() implies entries_meaning(
            entries,
        ).dom().contains(encode_utf8((#[trigger] entries[i]).0@)) && entries_meaning(
            entries,
        )[encode_utf8(entries[i].0@)] == entries[i].1.meaning() by {
            if i < last {
                assert(fewer[i] == entries[i]);
                assert(entries[i].0@ != entries[last].0@);
                if encode_utf8(entries[i].0@) == encode_utf8(entries[last].0@) {
                    assert(vstd::utf8::decode_utf8(encode_utf8(entries[i].0@)) == entries[i].0@);
                    assert(vstd::utf8::decode_utf8(encode_utf8(entries[last].0@))
                        == entries[last].0@);
                }
            }
        }
        if entries_meaning(entries).dom().contains(key) {
            if key == encode_utf8(entries[last].0@) {
            } else {
                let i = choose|i: int|
                    0 <= i < fewer.len() && encode_utf8((#[trigger] fewer[i]).0@) == key;
                assert(entries[i] == fewer[i]);
            }
        }
    }
}

/// What is handed over is what was read: the value that means it and the rest, or the error.
pub proof fn law_result_is_what_was_read(
    result: Result<(Value, &str), DecodeError>,
    outcome: Result<(Bencoded, Seq<u8>), DecodeError>,
)
    requires
        agrees(result, outcome),
    ensures
        result is Ok <==> outcome is Ok,
        result matches Err(e) ==> outcome == Err::<(Bencoded, Seq<u8>), DecodeError>(e),
        result matches Ok((value, left)) ==> outcome == Ok::<_, DecodeError>(
            (value.meaning(), left.spec_bytes()),
        ) && value.well_formed(),
        result matches Ok((Value::Dictionary(entries), _)) ==> keys_differ(entries@),
{
}

/// In a value that was read, no dictionary has a key twice, however deep it lies.
pub proof fn law_no_key_occurs_twice(value: Value)
    requires
        value.well_formed(),
    ensures
        value matches Value::Dictionary(entries) ==> (forall|i: int, j: int|
            0 <= i < j < entries@.len() ==> (#[trigger] entries@[i]).0@ != (
            #[trigger] entries@[j]).0@) && forall|i: int|
            0 <= i < entries@.len() ==> (#[trigger] entries@[i]).1.well_formed(),
        value matches Value::List(items) ==> forall|i: int|
            0 <= i < items@.len() ==> (#[trigger] items@[i]).well_formed(),
{
}

} // verus!
