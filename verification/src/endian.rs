//! Little-endian integers, as the `mod-settings.dat` format stores them.
//!
//! The reads and writes go through `byteorder`; what they compute is stated
//! here over plain bytes, and the round trips between the two directions are
//! proved.

use byteorder::{ByteOrder, LittleEndian};
use vstd::prelude::*;

verus! {

/// The `u16` whose little-endian bytes are `b0, b1`.
pub open spec fn u16_from_le(b0: u8, b1: u8) -> u16 {
    ((b1 as u16) << 8u16) | (b0 as u16)
}

/// The `u32` whose little-endian bytes are `b0 .. b3`.
pub open spec fn u32_from_le(b0: u8, b1: u8, b2: u8, b3: u8) -> u32 {
    ((b3 as u32) << 24u32) | ((b2 as u32) << 16u32) | ((b1 as u32) << 8u32) | (b0 as u32)
}

/// The `u64` whose little-endian bytes are `b0 .. b7`.
pub open spec fn u64_from_le(b0: u8, b1: u8, b2: u8, b3: u8, b4: u8, b5: u8, b6: u8, b7: u8) -> u64 {
    ((b7 as u64) << 56u64) | ((b6 as u64) << 48u64) | ((b5 as u64) << 40u64) | ((b4 as u64) << 32u64)
        | ((b3 as u64) << 24u64) | ((b2 as u64) << 16u64) | ((b1 as u64) << 8u64) | (b0 as u64)
}

/// The little-endian `u16` stored at `s[i..i + 2]`.
pub open spec fn u16_at(s: Seq<u8>, i: int) -> u16 {
    u16_from_le(s[i], s[i + 1])
}

/// The little-endian `u32` stored at `s[i..i + 4]`.
pub open spec fn u32_at(s: Seq<u8>, i: int) -> u32 {
    u32_from_le(s[i], s[i + 1], s[i + 2], s[i + 3])
}

/// The little-endian `u64` stored at `s[i..i + 8]`.
pub open spec fn u64_at(s: Seq<u8>, i: int) -> u64 {
    u64_from_le(s[i], s[i + 1], s[i + 2], s[i + 3], s[i + 4], s[i + 5], s[i + 6], s[i + 7])
}

/// The little-endian `i64` (two's complement) stored at `s[i..i + 8]`.
pub open spec fn i64_at(s: Seq<u8>, i: int) -> i64 {
    u64_at(s, i) as i64
}

/// The two little-endian bytes of `n`.
pub open spec fn u16_le(n: u16) -> Seq<u8> {
    seq![n as u8, (n >> 8u16) as u8]
}

/// The four little-endian bytes of `n`.
pub open spec fn u32_le(n: u32) -> Seq<u8> {
    seq![n as u8, (n >> 8u32) as u8, (n >> 16u32) as u8, (n >> 24u32) as u8]
}

/// The eight little-endian bytes of `n`.
pub open spec fn u64_le(n: u64) -> Seq<u8> {
    seq![
        n as u8,
        (n >> 8u64) as u8,
        (n >> 16u64) as u8,
        (n >> 24u64) as u8,
        (n >> 32u64) as u8,
        (n >> 40u64) as u8,
        (n >> 48u64) as u8,
        (n >> 56u64) as u8,
    ]
}

/// The eight little-endian bytes of `n` in two's complement.
pub open spec fn i64_le(n: i64) -> Seq<u8> {
    u64_le(n as u64)
}

/// `byteorder::LittleEndian::read_u16` on the bytes from `pos` on: it reads the
/// first two of them, least significant first.
#[verifier::external_body]
pub(crate) fn read_u16_at(data: &[u8], pos: usize) -> (r: u16)
    requires
        pos + 2 <= data@.len(),
    ensures
        r == u16_at(data@, pos as int),
{
    LittleEndian::read_u16(&data[pos..])
}

/// `byteorder::LittleEndian::read_u32` on the bytes from `pos` on: it reads the
/// first four of them, least significant first.
#[verifier::external_body]
pub(crate) fn read_u32_at(data: &[u8], pos: usize) -> (r: u32)
    requires
        pos + 4 <= data@.len(),
    ensures
        r == u32_at(data@, pos as int),
{
    LittleEndian::read_u32(&data[pos..])
}

/// `byteorder::LittleEndian::read_u64` on the bytes from `pos` on: it reads the
/// first eight of them, least significant first.
#[verifier::external_body]
pub(crate) fn read_u64_at(data: &[u8], pos: usize) -> (r: u64)
    requires
        pos + 8 <= data@.len(),
    ensures
        r == u64_at(data@, pos as int),
{
    LittleEndian::read_u64(&data[pos..])
}

/// `byteorder::LittleEndian::read_i64` on the bytes from `pos` on: the `u64`
/// that `read_u64` reads there, taken as two's complement.
#[verifier::external_body]
pub(crate) fn read_i64_at(data: &[u8], pos: usize) -> (r: i64)
    requires
        pos + 8 <= data@.len(),
    ensures
        r == i64_at(data@, pos as int),
{
    LittleEndian::read_i64(&data[pos..])
}

/// `byteorder::LittleEndian::write_u16` into a two-byte buffer: the bytes of
/// `n`, least significant first.
#[verifier::external_body]
pub(crate) fn u16_le_bytes(n: u16) -> (r: [u8; 2])
    ensures
        r@ == u16_le(n),
{
    let mut buf = [0u8; 2];
    LittleEndian::write_u16(&mut buf, n);
    buf
}

/// `byteorder::LittleEndian::write_u32` into a four-byte buffer: the bytes of
/// `n`, least significant first.
#[verifier::external_body]
pub(crate) fn u32_le_bytes(n: u32) -> (r: [u8; 4])
    ensures
        r@ == u32_le(n),
{
    let mut buf = [0u8; 4];
    LittleEndian::write_u32(&mut buf, n);
    buf
}

/// `byteorder::LittleEndian::write_u64` into an eight-byte buffer: the bytes
/// of `n`, least significant first.
#[verifier::external_body]
pub(crate) fn u64_le_bytes(n: u64) -> (r: [u8; 8])
    ensures
        r@ == u64_le(n),
{
    let mut buf = [0u8; 8];
    LittleEndian::write_u64(&mut buf, n);
    buf
}

/// `byteorder::LittleEndian::write_i64` into an eight-byte buffer: the bytes
/// that `write_u64` writes for `n as u64`.
#[verifier::external_body]
pub(crate) fn i64_le_bytes(n: i64) -> (r: [u8; 8])
    ensures
        r@ == i64_le(n),
{
    let mut buf = [0u8; 8];
    LittleEndian::write_i64(&mut buf, n);
    buf
}

/// Reading back the two bytes written for `n` gives `n`.
pub proof fn lemma_u16_round_trip(n: u16)
    ensures
        u16_at(u16_le(n), 0) == n,
{
    assert(((((n >> 8u16) as u8) as u16) << 8u16) | ((n as u8) as u16) == n) by (bit_vector);
}

/// Reading back the four bytes written for `n` gives `n`.
pub proof fn lemma_u32_round_trip(n: u32)
    ensures
        u32_at(u32_le(n), 0) == n,
{
    assert(((((n >> 24u32) as u8) as u32) << 24u32) | ((((n >> 16u32) as u8) as u32) << 16u32)
        | ((((n >> 8u32) as u8) as u32) << 8u32) | ((n as u8) as u32) == n) by (bit_vector);
}

/// Reading back the eight bytes written for `n` gives `n`.
pub proof fn lemma_u64_round_trip(n: u64)
    ensures
        u64_at(u64_le(n), 0) == n,
{
    assert(((((n >> 56u64) as u8) as u64) << 56u64) | ((((n >> 48u64) as u8) as u64) << 48u64)
        | ((((n >> 40u64) as u8) as u64) << 40u64) | ((((n >> 32u64) as u8) as u64) << 32u64)
        | ((((n >> 24u64) as u8) as u64) << 24u64) | ((((n >> 16u64) as u8) as u64) << 16u64)
        | ((((n >> 8u64) as u8) as u64) << 8u64) | ((n as u8) as u64) == n) by (bit_vector);
}

/// Reading back the eight bytes written for `n` gives `n`.
pub proof fn lemma_i64_round_trip(n: i64)
    ensures
        i64_at(i64_le(n), 0) == n,
{
    lemma_u64_round_trip(n as u64);
    assert(((n as u64) as i64) == n) by (bit_vector);
}

/// Writing the `u16` read at `s[i..i + 2]` gives those bytes again.
pub proof fn lemma_u16_bytes_round_trip(s: Seq<u8>, i: int)
    requires
        0 <= i,
        i + 2 <= s.len(),
    ensures
        u16_le(u16_at(s, i)) == s.subrange(i, i + 2),
{
    let b0 = s[i];
    let b1 = s[i + 1];
    assert((((b1 as u16) << 8u16) | (b0 as u16)) as u8 == b0 && ((((b1 as u16) << 8u16) | (
    b0 as u16)) >> 8u16) as u8 == b1) by (bit_vector);
    assert(u16_le(u16_at(s, i)) =~= s.subrange(i, i + 2));
}

/// Writing the `u32` read at `s[i..i + 4]` gives those bytes again.
pub proof fn lemma_u32_bytes_round_trip(s: Seq<u8>, i: int)
    requires
        0 <= i,
        i + 4 <= s.len(),
    ensures
        u32_le(u32_at(s, i)) == s.subrange(i, i + 4),
{
    let b0 = s[i];
    let b1 = s[i + 1];
    let b2 = s[i + 2];
    let b3 = s[i + 3];
    let n = u32_from_le(b0, b1, b2, b3);
    assert(n as u8 == b0 && (n >> 8u32) as u8 == b1 && (n >> 16u32) as u8 == b2 && (n
        >> 24u32) as u8 == b3) by (bit_vector)
        requires
            n == ((b3 as u32) << 24u32) | ((b2 as u32) << 16u32) | ((b1 as u32) << 8u32) | (
            b0 as u32),
    ;
    assert(u32_le(u32_at(s, i)) =~= s.subrange(i, i + 4));
}

/// Writing the `u64` read at `s[i..i + 8]` gives those bytes again.
pub proof fn lemma_u64_bytes_round_trip(s: Seq<u8>, i: int)
    requires
        0 <= i,
        i + 8 <= s.len(),
    ensures
        u64_le(u64_at(s, i)) == s.subrange(i, i + 8),
{
    let b0 = s[i];
    let b1 = s[i + 1];
    let b2 = s[i + 2];
    let b3 = s[i + 3];
    let b4 = s[i + 4];
    let b5 = s[i + 5];
    let b6 = s[i + 6];
    let b7 = s[i + 7];
    let n = u64_from_le(b0, b1, b2, b3, b4, b5, b6, b7);
    assert(n as u8 == b0 && (n >> 8u64) as u8 == b1 && (n >> 16u64) as u8 == b2 && (n
        >> 24u64) as u8 == b3 && (n >> 32u64) as u8 == b4 && (n >> 40u64) as u8 == b5 && (n
        >> 48u64) as u8 == b6 && (n >> 56u64) as u8 == b7) by (bit_vector)
        requires
            n == ((b7 as u64) << 56u64) | ((b6 as u64) << 48u64) | ((b5 as u64) << 40u64) | ((
            b4 as u64) << 32u64) | ((b3 as u64) << 24u64) | ((b2 as u64) << 16u64) | ((b1 as u64)
                << 8u64) | (b0 as u64),
    ;
    assert(u64_le(u64_at(s, i)) =~= s.subrange(i, i + 8));
}

/// Writing the `i64` read at `s[i..i + 8]` gives those bytes again.
pub proof fn lemma_i64_bytes_round_trip(s: Seq<u8>, i: int)
    requires
        0 <= i,
        i + 8 <= s.len(),
    ensures
        i64_le(i64_at(s, i)) == s.subrange(i, i + 8),
{
    let n = u64_at(s, i);
    assert(((n as i64) as u64) == n) by (bit_vector);
    lemma_u64_bytes_round_trip(s, i);
}

} // verus!
