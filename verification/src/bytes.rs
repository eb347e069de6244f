//! Little-endian integers inside byte buffers.

use byteorder::{ByteOrder, LittleEndian};
use vstd::prelude::*;

verus! {

/// The 16-bit little-endian integer stored at `at`.
pub open spec fn le16(s: Seq<u8>, at: int) -> u16 {
    (s[at] + 256 * s[at + 1]) as u16
}

/// The 32-bit little-endian integer stored at `at`.
pub open spec fn le32(s: Seq<u8>, at: int) -> u32 {
    (s[at] + 256 * s[at + 1] + 65536 * s[at + 2] + 16777216 * s[at + 3]) as u32
}

/// The two bytes of `n`, least significant first.
pub open spec fn le16_bytes(n: u16) -> Seq<u8> {
    seq![(n % 256) as u8, (n / 256) as u8]
}

/// The four bytes of `n`, least significant first.
pub open spec fn le32_bytes(n: u32) -> Seq<u8> {
    seq![
        (n % 256) as u8,
        (n / 256 % 256) as u8,
        (n / 65536 % 256) as u8,
        (n / 16777216) as u8,
    ]
}

/// `s` with the bytes from `at` on replaced by `raw`.
pub open spec fn splice(s: Seq<u8>, at: int, raw: Seq<u8>) -> Seq<u8> {
    Seq::new(
        s.len(),
        |i: int|
            if at <= i < at + raw.len() {
                raw[i - at]
            } else {
                s[i]
            },
    )
}

/// Calls `byteorder::LittleEndian::read_u16` on the two bytes at `at`: the
/// integer they store with the least significant byte first.
#[verifier::external_body]
pub(crate) fn read_u16(buffer: &[u8], at: usize) -> (value: u16)
    requires
        at + 2 <= buffer@.len(),
    ensures
        value == le16(buffer@, at as int),
{
    LittleEndian::read_u16(&buffer[at..at + 2])
}

/// Calls `byteorder::LittleEndian::read_u32` on the four bytes at `at`: the
/// integer they store with the least significant byte first.
#[verifier::external_body]
pub(crate) fn read_u32(buffer: &[u8], at: usize) -> (value: u32)
    requires
        at + 4 <= buffer@.len(),
    ensures
        value == le32(buffer@, at as int),
{
    LittleEndian::read_u32(&buffer[at..at + 4])
}

/// Calls `byteorder::LittleEndian::write_u16` on the two bytes at `at`, which
/// receive the integer with its least significant byte first; no other byte
/// changes.
#[verifier::external_body]
pub(crate) fn write_u16(buffer: &mut [u8], at: usize, value: u16)
    requires
        at + 2 <= old(buffer)@.len(),
    ensures
        final(buffer)@ == splice(old(buffer)@, at as int, le16_bytes(value)),
{
    LittleEndian::write_u16(&mut buffer[at..at + 2], value)
}

/// Calls `byteorder::LittleEndian::write_u32` on the four bytes at `at`, which
/// receive the integer with its least significant byte first; no other byte
/// changes.
#[verifier::external_body]
pub(crate) fn write_u32(buffer: &mut [u8], at: usize, value: u32)
    requires
        at + 4 <= old(buffer)@.len(),
    ensures
        final(buffer)@ == splice(old(buffer)@, at as int, le32_bytes(value)),
{
    LittleEndian::write_u32(&mut buffer[at..at + 4], value)
}

/// Copy `raw` into `buffer` from `at` on.
pub(crate) fn copy_into(buffer: &mut [u8], at: usize, raw: &[u8])
    requires
        at + raw@.len() <= old(buffer)@.len(),
    ensures
        final(buffer)@ == splice(old(buffer)@, at as int, raw@),
{
    let ghost before = buffer@;
    let len: usize = buffer.len();
    let mut i: usize = 0;
    while i < raw.len()
        invariant
            i <= raw@.len(),
            at + raw@.len() <= len,
            len == before.len(),
            buffer@ == splice(before, at as int, raw@.take(i as int)),
            buffer@.len() == before.len(),
        decreases raw@.len() - i,
    {
        buffer[at + i] = raw[i];
        i += 1;
    }
    assert(raw@.take(raw@.len() as int) =~= raw@);
}

/// What a two-byte integer was written as is what is read back.
pub proof fn lemma_le16_round_trip(s: Seq<u8>, at: int, n: u16)
    requires
        0 <= at,
        at + 2 <= s.len(),
    ensures
        le16(splice(s, at, le16_bytes(n)), at) == n,
{
}

/// What a four-byte integer was written as is what is read back.
pub proof fn lemma_le32_round_trip(s: Seq<u8>, at: int, n: u32)
    requires
        0 <= at,
        at + 4 <= s.len(),
    ensures
        le32(splice(s, at, le32_bytes(n)), at) == n,
{
    assert(n == n % 256 + 256 * (n / 256 % 256) + 65536 * (n / 65536 % 256) + 16777216 * (n
        / 16777216)) by (nonlinear_arith);
}

} // verus!
