//! Fixed-width little-endian integers: what their bytes are, and the calls
//! into `byteorder` that produce and read them.

use byteorder::ByteOrder;
use byteorder::LittleEndian;
use vstd::prelude::*;

verus! {

/// 256 to the power `n`.
pub open spec fn pow256(n: nat) -> nat
    decreases n,
{
    if n == 0 {
        1
    } else {
        256 * pow256((n - 1) as nat)
    }
}

/// The `width` least significant base-256 digits of `value`, least
/// significant digit first.
pub open spec fn le_bytes(value: nat, width: nat) -> Seq<u8>
    decreases width,
{
    if width == 0 {
        Seq::empty()
    } else {
        seq![(value % 256) as u8] + le_bytes(value / 256, (width - 1) as nat)
    }
}

/// The number whose base-256 digits, least significant first, are `bytes`.
pub open spec fn le_value(bytes: Seq<u8>) -> nat
    decreases bytes.len(),
{
    if bytes.len() == 0 {
        0
    } else {
        bytes[0] as nat + 256 * le_value(bytes.drop_first())
    }
}

/// The 64-bit two's complement pattern of `n`, read as an unsigned number.
pub open spec fn unsigned_of(n: i64) -> nat {
    if n >= 0 {
        n as nat
    } else {
        (n + 0x1_0000_0000_0000_0000) as nat
    }
}

/// The signed number whose 64-bit two's complement pattern is `v`.
pub open spec fn signed_of(v: nat) -> i64 {
    if v < 0x8000_0000_0000_0000 {
        v as i64
    } else {
        (v - 0x1_0000_0000_0000_0000) as i64
    }
}

/// `le_bytes` yields exactly `width` bytes.
pub proof fn lemma_le_bytes_len(value: nat, width: nat)
    ensures
        le_bytes(value, width).len() == width,
    decreases width,
{
    if width > 0 {
        lemma_le_bytes_len(value / 256, (width - 1) as nat);
    }
}

/// Reading back the digits of a number that fits in `width` digits gives the
/// number.
pub proof fn lemma_le_value_of_le_bytes(value: nat, width: nat)
    requires
        value < pow256(width),
    ensures
        le_value(le_bytes(value, width)) == value,
    decreases width,
{
    if width > 0 {
        let rest = le_bytes(value / 256, (width - 1) as nat);
        lemma_le_bytes_len(value / 256, (width - 1) as nat);
        lemma_le_value_of_le_bytes(value / 256, (width - 1) as nat);
        assert(le_bytes(value, width).drop_first() =~= rest);
    }
}

/// `256^4` and `256^8` as numbers.
pub proof fn lemma_pow256_values()
    ensures
        pow256(4) == 0x1_0000_0000,
        pow256(8) == 0x1_0000_0000_0000_0000,
{
    reveal_with_fuel(pow256, 9);
}

/// `signed_of` undoes `unsigned_of`.
pub proof fn lemma_signed_of_unsigned_of(n: i64)
    ensures
        unsigned_of(n) < 0x1_0000_0000_0000_0000,
        signed_of(unsigned_of(n)) == n,
{
}

/// Calls `byteorder::LittleEndian::write_u32` on a four-byte buffer and
/// returns the buffer. Believed of it: the buffer then holds the four
/// base-256 digits of `n`, least significant first.
#[verifier::external_body]
pub(crate) fn le_write_u32(n: u32) -> (bytes: [u8; 4])
    ensures
        bytes@ == le_bytes(n as nat, 4),
{
    let mut buf = [0u8; 4];
    LittleEndian::write_u32(&mut buf, n);
    buf
}

/// Calls `byteorder::LittleEndian::read_u32`, which panics on fewer than
/// four bytes. Believed of it: the result is the number whose base-256
/// digits, least significant first, are the first four bytes of `buf`.
#[verifier::external_body]
pub(crate) fn le_read_u32(buf: &[u8]) -> (n: u32)
    requires
        buf@.len() >= 4,
    ensures
        n as nat == le_value(buf@.subrange(0, 4)),
{
    LittleEndian::read_u32(buf)
}

/// Calls `byteorder::LittleEndian::write_u64` on an eight-byte buffer and
/// returns the buffer. Believed of it: the buffer then holds the eight
/// base-256 digits of `n`, least significant first.
#[verifier::external_body]
pub(crate) fn le_write_u64(n: u64) -> (bytes: [u8; 8])
    ensures
        bytes@ == le_bytes(n as nat, 8),
{
    let mut buf = [0u8; 8];
    LittleEndian::write_u64(&mut buf, n);
    buf
}

/// Calls `byteorder::LittleEndian::read_u64`, which panics on fewer than
/// eight bytes. Believed of it: the result is the number whose base-256
/// digits, least significant first, are the first eight bytes of `buf`.
#[verifier::external_body]
pub(crate) fn le_read_u64(buf: &[u8]) -> (n: u64)
    requires
        buf@.len() >= 8,
    ensures
        n as nat == le_value(buf@.subrange(0, 8)),
{
    LittleEndian::read_u64(buf)
}

/// Calls `byteorder::LittleEndian::write_i64` on an eight-byte buffer and
/// returns the buffer. Believed of it: the buffer then holds the eight
/// base-256 digits, least significant first, of the two's complement
/// pattern of `n`.
#[verifier::external_body]
pub(crate) fn le_write_i64(n: i64) -> (bytes: [u8; 8])
    ensures
        bytes@ == le_bytes(unsigned_of(n), 8),
{
    let mut buf = [0u8; 8];
    LittleEndian::write_i64(&mut buf, n);
    buf
}

/// Calls `byteorder::LittleEndian::read_i64`, which panics on fewer than
/// eight bytes. Believed of it: the two's complement pattern of the result
/// has the first eight bytes of `buf` as its base-256 digits, least
/// significant first.
#[verifier::external_body]
pub(crate) fn le_read_i64(buf: &[u8]) -> (n: i64)
    requires
        buf@.len() >= 8,
    ensures
        unsigned_of(n) == le_value(buf@.subrange(0, 8)),
{
    LittleEndian::read_i64(buf)
}

} // verus!
