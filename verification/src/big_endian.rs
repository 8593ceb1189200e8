//! Unsigned 32-bit numbers as the four bytes that stand for them on the wire,
//! the most significant byte first.

use vstd::prelude::*;

verus! {

/// The number that four bytes stand for, the most significant byte first.
pub open spec fn be_value(bytes: Seq<u8>) -> int {
    bytes[0] * 0x100_0000 + bytes[1] * 0x1_0000 + bytes[2] * 0x100 + bytes[3]
}

/// The four bytes that stand for `n`, the most significant byte first.
pub open spec fn be_bytes(n: int) -> Seq<u8> {
    seq![
        (n / 0x100_0000 % 0x100) as u8,
        (n / 0x1_0000 % 0x100) as u8,
        (n / 0x100 % 0x100) as u8,
        (n % 0x100) as u8,
    ]
}

/// Reading back the four bytes of a number gives the number.
pub proof fn be_bytes_then_value(n: int)
    requires
        0 <= n < 0x1_0000_0000,
    ensures
        be_bytes(n).len() == 4,
        be_value(be_bytes(n)) == n,
{
}

/// The bytes of the number that four bytes stand for are those four bytes.
pub proof fn be_value_then_bytes(bytes: Seq<u8>)
    requires
        bytes.len() == 4,
    ensures
        0 <= be_value(bytes) < 0x1_0000_0000,
        be_bytes(be_value(bytes)) == bytes,
{
}

/// The number in `bytes`, the most significant byte first.
pub fn from_be(bytes: [u8; 4]) -> (n: u32)
    ensures
        n == be_value(bytes@),
{
    bytes[0] as u32 * 0x100_0000 + bytes[1] as u32 * 0x1_0000 + bytes[2] as u32 * 0x100
        + bytes[3] as u32
}

/// The bytes of `n`, the most significant byte first.
pub fn to_be(n: u32) -> (bytes: [u8; 4])
    ensures
        bytes@ == be_bytes(n as int),
        be_value(bytes@) == n,
{
    let bytes: [u8; 4] = [
        (n / 0x100_0000 % 0x100) as u8,
        (n / 0x1_0000 % 0x100) as u8,
        (n / 0x100 % 0x100) as u8,
        (n % 0x100) as u8,
    ];
    proof {
        be_bytes_then_value(n as int);
        assert(bytes@ =~= be_bytes(n as int));
    }
    bytes
}

/// The number in the four bytes of `data` that start at `at`.
pub fn read_be(data: &[u8], at: usize) -> (n: u32)
    requires
        at + 4 <= data@.len(),
    ensures
        n == be_value(data@.subrange(at as int, at + 4)),
{
    from_be([data[at], data[at + 1], data[at + 2], data[at + 3]])
}

/// The first byte counts most: each byte before another counts 256 times as much.
pub proof fn law_first_byte_counts_most(a: u8, b: u8, c: u8, d: u8)
    ensures
        be_value(seq![a, b, c, d]) == ((a * 256 + b) * 256 + c) * 256 + d,
{
}

/// The numbers that four bytes stand for are ordered as the bytes are, from the first one on.
pub proof fn law_bytes_order_as_numbers(a: Seq<u8>, b: Seq<u8>, k: int)
    requires
        a.len() == 4,
        b.len() == 4,
        0 <= k < 4,
        forall|i: int| 0 <= i < k ==> a[i] == b[i],
        a[k] < b[k],
    ensures
        be_value(a) < be_value(b),
{
}

} // verus!
