//! The pieces that a peer says it has, one bit for each.

use vstd::prelude::*;

verus! {

/// Whether bit `n` of `byte` is set, where bit 0 is the highest.
pub open spec fn high_bit(byte: u8, n: int) -> bool {
    byte & (128u8 >> (n as u8)) != 0
}

/// Whether the bit of piece `piece` is set in `payload`: the first byte stands for the
/// pieces 0 to 7, from its highest bit to its lowest, and so on.
pub open spec fn announces(payload: Seq<u8>, piece: int) -> bool {
    0 <= piece < 8 * payload.len() && high_bit(payload[piece / 8], piece % 8)
}

/// The one piece among the eight of a byte whose bit [`Bitfield::has_piece`] looks at for
/// any of the eight: in byte `b`, it is the piece of bit `b % 8`.
pub open spec fn witness_piece(piece: int) -> int {
    piece / 8 * 8 + piece / 8 % 8
}

/// A peer's bitfield, as it came in the payload of a message.
pub struct Bitfield {
    payload: Vec<u8>,
}

impl View for Bitfield {
    type V = Seq<u8>;

    closed spec fn view(&self) -> Seq<u8> {
        self.payload@
    }
}

impl Bitfield {
    /// A bitfield of the bytes in `payload`.
    pub fn from_payload(payload: Vec<u8>) -> (bitfield: Bitfield)
        ensures
            bitfield@ == payload@,
    {
        Bitfield { payload }
    }

    /// Whether the peer has the piece: the bit that decides is that of
    /// [`witness_piece`], and a piece beyond the payload is not there.
    pub fn has_piece(&self, piece_i: usize) -> (has: bool)
        ensures
            has == announces(self@, witness_piece(piece_i as int)),
    {
        let byte_i: usize = piece_i / 8;
        let bit_i: u8 = (byte_i % 8) as u8;
        if byte_i >= self.payload.len() {
            return false;
        }
        let byte: u8 = self.payload[byte_i];
        byte & (128u8 >> bit_i) != 0
    }

    /// The pieces whose bits are set, in ascending order.
    pub fn pieces(&self) -> (pieces: Vec<usize>)
        requires
            8 * self@.len() <= usize::MAX + 1,
        ensures
            forall|i: int, j: int| 0 <= i < j < pieces@.len() ==> pieces@[i] < pieces@[j],
            forall|piece: usize| pieces@.contains(piece) <==> announces(self@, piece as int),
    {
        let mut pieces: Vec<usize> = Vec::new();
        let mut byte_i: usize = 0;
        while byte_i < self.payload.len()
            invariant
                byte_i <= self.payload@.len(),
                8 * self.payload@.len() <= usize::MAX + 1,
                forall|i: int, j: int| 0 <= i < j < pieces@.len() ==> pieces@[i] < pieces@[j],
                forall|i: int| 0 <= i < pieces@.len() ==> #[trigger] pieces@[i] < 8 * byte_i,
                forall|piece: usize|
                    #[trigger] pieces@.contains(piece) <==> piece < 8 * byte_i && announces(
                        self.payload@,
                        piece as int,
                    ),
            decreases self.payload@.len() - byte_i,
        {
            let byte: u8 = self.payload[byte_i];
            let mut bit_i: u8 = 0;
            while bit_i < 8
                invariant
                    byte_i < self.payload@.len(),
                    8 * self.payload@.len() <= usize::MAX + 1,
                    byte == self.payload@[byte_i as int],
                    bit_i <= 8,
                    forall|i: int, j: int| 0 <= i < j < pieces@.len() ==> pieces@[i] < pieces@[j],
                    forall|i: int|
                        0 <= i < pieces@.len() ==> #[trigger] pieces@[i] < 8 * byte_i + bit_i,
                    forall|piece: usize|
                        #[trigger] pieces@.contains(piece) <==> piece < 8 * byte_i + bit_i
                            && announces(self.payload@, piece as int),
                decreases 8 - bit_i,
            {
                let piece_i: usize = byte_i * 8 + bit_i as usize;
                let ghost before = pieces@;
                if byte & (128u8 >> bit_i) != 0 {
                    pieces.push(piece_i);
                    proof {
                        assert(pieces@[before.len() as int] == piece_i);
                        assert forall|piece: usize| #[trigger]
                            pieces@.contains(piece) implies before.contains(piece) || piece
                            == piece_i by {
                            let i = pieces@.index_of(piece);
                            if i < before.len() {
                                assert(before[i] == piece);
                            }
                        }
                        assert forall|piece: usize| before.contains(piece) implies
                            #[trigger] pieces@.contains(piece) by {
                            let i = before.index_of(piece);
                            assert(pieces@[i] == piece);
                        }
                        assert(pieces@.contains(piece_i));
                    }
                }
                bit_i = bit_i + 1;
            }
            byte_i = byte_i + 1;
        }
        pieces
    }
}

/// A piece is had exactly when the piece that [`witness_piece`] gives for it is among the
/// pieces that the bitfield lists.
pub proof fn law_has_piece_follows_the_list(payload: Seq<u8>, listed: Seq<usize>, piece: usize)
    requires
        8 * payload.len() <= usize::MAX + 1,
        forall|p: usize| listed.contains(p) <==> announces(payload, p as int),
    ensures
        announces(payload, witness_piece(piece as int)) <==> exists|i: int|
            0 <= i < listed.len() && listed[i] == witness_piece(piece as int),
{
    let w = witness_piece(piece as int);
    if announces(payload, w) {
        assert(listed.contains(w as usize));
    }
    if exists|i: int| 0 <= i < listed.len() && listed[i] == w {
        let i = choose|i: int| 0 <= i < listed.len() && listed[i] == w;
        assert(listed.contains(listed[i]));
    }
}

/// On the pieces whose bit stands at the place of their byte among eight, having the piece
/// and listing it are the same.
pub proof fn law_has_piece_is_listed(payload: Seq<u8>, piece: int)
    requires
        0 <= piece,
        piece % 8 == piece / 8 % 8,
    ensures
        announces(payload, witness_piece(piece)) <==> announces(payload, piece),
{
}

/// One payload behind another announces what the two announce, the second one's pieces
/// counted on from the first one's.
pub proof fn law_joined_payloads_announce_both(first: Seq<u8>, second: Seq<u8>, piece: int)
    ensures
        announces(first + second, piece) <==> announces(first, piece) || announces(
            second,
            piece - 8 * first.len(),
        ),
{
    if 0 <= piece < 8 * first.len() {
        assert((first + second)[piece / 8] == first[piece / 8]);
    } else if 0 <= piece < 8 * (first + second).len() {
        let own = piece - 8 * first.len();
        assert(piece / 8 == first.len() + own / 8);
        assert((first + second)[piece / 8] == second[own / 8]);
    }
}

/// The eight pieces of a byte are had together or not at all.
pub proof fn law_pieces_of_a_byte_agree(payload: Seq<u8>, piece: int, other: int)
    requires
        0 <= piece,
        piece / 8 == other / 8,
    ensures
        announces(payload, witness_piece(piece)) == announces(payload, witness_piece(other)),
{
}

/// Whether `digits` are the eight binary digits of a byte, the one that counts most first.
pub open spec fn are_digits_of(digits: Seq<u8>, byte: u8) -> bool {
    &&& digits.len() == 8
    &&& forall|i: int| 0 <= i < 8 ==> #[trigger] digits[i] <= 1
    &&& byte == 128 * digits[0] + 64 * digits[1] + 32 * digits[2] + 16 * digits[3] + 8 * digits[4]
        + 4 * digits[5] + 2 * digits[6] + digits[7]
}

/// The bits of a byte are its binary digits: bit `n` is set exactly where digit `n` is a one.
pub proof fn law_bits_are_binary_digits(byte: u8, digits: Seq<u8>, n: int)
    requires
        are_digits_of(digits, byte),
        0 <= n < 8,
    ensures
        high_bit(byte, n) <==> digits[n] == 1,
{
    let (a, b, c, d) = (digits[0], digits[1], digits[2], digits[3]);
    let (e, f, g, h) = (digits[4], digits[5], digits[6], digits[7]);
    assert((byte & (128u8 >> 0u8) != 0 <==> a == 1) && (byte & (128u8 >> 1u8) != 0 <==> b == 1) && (
    byte & (128u8 >> 2u8) != 0 <==> c == 1) && (byte & (128u8 >> 3u8) != 0 <==> d == 1) && (byte & (
    128u8 >> 4u8) != 0 <==> e == 1) && (byte & (128u8 >> 5u8) != 0 <==> f == 1) && (byte & (128u8
        >> 6u8) != 0 <==> g == 1) && (byte & (128u8 >> 7u8) != 0 <==> h == 1)) by (bit_vector)
        requires
            byte == 128 * a + 64 * b + 32 * c + 16 * d + 8 * e + 4 * f + 2 * g + h,
            a <= 1 && b <= 1 && c <= 1 && d <= 1 && e <= 1 && f <= 1 && g <= 1 && h <= 1,
    ;
    assert(n == 0 || n == 1 || n == 2 || n == 3 || n == 4 || n == 5 || n == 6 || n == 7);
}

/// A byte is the sum of what its bits count, so that no bit has a say in another.
pub proof fn law_byte_is_the_sum_of_its_bits(byte: u8)
    ensures
        are_digits_of(
            Seq::new(
                8,
                |n: int|
                    if high_bit(byte, n) {
                        1u8
                    } else {
                        0u8
                    },
            ),
            byte,
        ),
{
    let digits = seq![
        byte / 128, byte / 64 % 2, byte / 32 % 2, byte / 16 % 2, byte / 8 % 2, byte / 4 % 2, byte
            / 2 % 2, byte % 2,
    ];
    assert(byte == 128 * (byte / 128) + 64 * (byte / 64 % 2) + 32 * (byte / 32 % 2) + 16 * (byte
        / 16 % 2) + 8 * (byte / 8 % 2) + 4 * (byte / 4 % 2) + 2 * (byte / 2 % 2) + byte % 2)
        by (bit_vector);
    assert(are_digits_of(digits, byte)) by {
        assert forall|i: int| 0 <= i < 8 implies #[trigger] digits[i] <= 1 by {
            assert(i == 0 || i == 1 || i == 2 || i == 3 || i == 4 || i == 5 || i == 6 || i == 7);
        }
    }
    let bits = Seq::new(
        8,
        |n: int|
            if high_bit(byte, n) {
                1u8
            } else {
                0u8
            },
    );
    assert forall|n: int| 0 <= n < 8 implies bits[n] == digits[n] by {
        law_bits_are_binary_digits(byte, digits, n);
        assert(digits[n] <= 1);
    }
    assert(bits =~= digits);
}

/// Piece `8 * b + n` is announced exactly where digit `n` of byte `b` is a one.
pub proof fn law_announced_pieces(payload: Seq<u8>, b: int, digits: Seq<u8>, n: int)
    requires
        0 <= b < payload.len(),
        are_digits_of(digits, payload[b]),
        0 <= n < 8,
    ensures
        announces(payload, 8 * b + n) <==> digits[n] == 1,
{
    assert((8 * b + n) / 8 == b && (8 * b + n) % 8 == n);
    law_bits_are_binary_digits(payload[b], digits, n);
}

/// No piece is announced or had for which there is no byte.
pub proof fn law_nothing_beyond_the_payload(payload: Seq<u8>, piece: int)
    requires
        piece < 0 || piece >= 8 * payload.len(),
    ensures
        !announces(payload, piece),
        !announces(payload, witness_piece(piece)),
{
}

/// Having a piece depends on one digit of the byte of the piece: the digit whose place is
/// that of the byte among eight.
pub proof fn law_has_piece_reads_one_digit(payload: Seq<u8>, piece: int, digits: Seq<u8>)
    requires
        0 <= piece < 8 * payload.len(),
        are_digits_of(digits, payload[piece / 8]),
    ensures
        announces(payload, witness_piece(piece)) <==> digits[piece / 8 % 8] == 1,
{
    let b = piece / 8;
    assert(witness_piece(piece) == 8 * b + b % 8);
    law_announced_pieces(payload, b, digits, b % 8);
}

/// A peer whose bits are all set has and lists every piece that there is a bit for, and one
/// whose bits are all clear has and lists none.
pub proof fn law_full_and_empty_bitfields(payload: Seq<u8>, piece: int)
    requires
        0 <= piece < 8 * payload.len(),
    ensures
        (forall|i: int| 0 <= i < payload.len() ==> payload[i] == 255) ==> announces(payload, piece)
            && announces(payload, witness_piece(piece)),
        (forall|i: int| 0 <= i < payload.len() ==> payload[i] == 0) ==> !announces(payload, piece)
            && !announces(payload, witness_piece(piece)),
{
    let b = piece / 8;
    let ones = seq![1u8, 1, 1, 1, 1, 1, 1, 1];
    let zeros = seq![0u8, 0, 0, 0, 0, 0, 0, 0];
    assert(piece == 8 * b + piece % 8);
    if payload[b] == 255 {
        assert(are_digits_of(ones, payload[b]));
        law_announced_pieces(payload, b, ones, piece % 8);
        law_has_piece_reads_one_digit(payload, piece, ones);
    }
    if payload[b] == 0 {
        assert(are_digits_of(zeros, payload[b]));
        law_announced_pieces(payload, b, zeros, piece % 8);
        law_has_piece_reads_one_digit(payload, piece, zeros);
    }
}

} // verus!
