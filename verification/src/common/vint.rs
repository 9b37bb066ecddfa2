//! Variable-length encoding of 64-bit unsigned integers: base 128, least
//! significant digit first, with the high bit set on the last byte only.

use super::serialize::BinarySerializable;
use super::serialize::DecodeError;
use vstd::prelude::*;
use vstd::slice::slice_subrange;

verus! {

/// Wrapper over a `u64` that serializes as a variable-length integer.
#[derive(Debug, Eq, PartialEq)]
pub struct VInt(pub u64);

impl VInt {
    /// The wrapped number.
    pub fn val(&self) -> (value: u64)
        ensures
            value == self.0,
    {
        self.0
    }
}

/// 128 to the power `n`.
pub open spec fn pow128(n: nat) -> nat
    decreases n,
{
    if n == 0 {
        1
    } else {
        128 * pow128((n - 1) as nat)
    }
}

/// The bytes of `value`: its base-128 digits, least significant first, the
/// last of them raised by 128.
pub open spec fn vint_encoding(value: nat) -> Seq<u8>
    decreases value,
{
    if value < 128 {
        seq![(value + 128) as u8]
    } else {
        seq![(value % 128) as u8] + vint_encoding(value / 128)
    }
}

/// The number that the bytes up to the first one with its high bit set
/// denote, and how many bytes those are; `None` where no byte has its high
/// bit set.
pub open spec fn vint_scan(bytes: Seq<u8>) -> Option<(nat, nat)>
    decreases bytes.len(),
{
    if bytes.len() == 0 {
        None
    } else if bytes[0] >= 128 {
        Some(((bytes[0] - 128) as nat, 1nat))
    } else {
        match vint_scan(bytes.drop_first()) {
            None => None,
            Some((value, len)) => Some((bytes[0] as nat + 128 * value, len + 1)),
        }
    }
}

/// What reading a variable-length integer from the front of `bytes` gives:
/// the number that the bytes up to the first one with its high bit set
/// denote, computed in 64 bits, and the count of those bytes; or
/// `InvalidData` where no byte has its high bit set. Computed in 64 bits
/// means that of a number beyond 64 bits the low 64 bits are kept: the
/// tenth digit counts with its lowest bit only, and later digits not at
/// all.
pub open spec fn vint_decoding(bytes: Seq<u8>) -> Result<(u64, nat), DecodeError> {
    match vint_scan(bytes) {
        Some((value, len)) => Ok(((value % 0x1_0000_0000_0000_0000) as u64, len)),
        None => Err(DecodeError::InvalidData),
    }
}

/// A scan reads at least one byte and no more than there are.
pub proof fn lemma_vint_scan_in_bounds(bytes: Seq<u8>)
    ensures
        vint_scan(bytes) matches Some((_, len)) ==> 1 <= len <= bytes.len(),
    decreases bytes.len(),
{
    if bytes.len() > 0 && bytes[0] < 128 {
        lemma_vint_scan_in_bounds(bytes.drop_first());
    }
}

/// Scanning an encoding, whatever follows it, gives the encoded number and
/// stops at the encoding's end.
pub proof fn lemma_vint_scan_of_encoding(value: nat, rest: Seq<u8>)
    ensures
        vint_scan(vint_encoding(value) + rest) == Some((value, vint_encoding(value).len())),
    decreases value,
{
    let bytes = vint_encoding(value) + rest;
    if value >= 128 {
        lemma_vint_scan_of_encoding(value / 128, rest);
        assert(bytes.drop_first() =~= vint_encoding(value / 128) + rest);
    }
}

/// The encoding of a number has `k` bytes exactly when the number is below
/// `128^k` and, for `k > 1`, at least `128^(k-1)`.
pub proof fn lemma_vint_encoding_len(value: nat, k: nat)
    requires
        k >= 1,
        value < pow128(k),
        k > 1 ==> value >= pow128((k - 1) as nat),
    ensures
        vint_encoding(value).len() == k,
    decreases k,
{
    reveal_with_fuel(pow128, 2);
    if value >= 128 {
        if k == 1 {
            assert(pow128(1) == 128);
        } else {
            lemma_vint_encoding_len(value / 128, (k - 1) as nat);
        }
    } else {
        if k > 1 {
            lemma_pow128_grows((k - 1) as nat);
        }
    }
}

/// From the first power on, powers of 128 are at least 128.
pub proof fn lemma_pow128_grows(n: nat)
    ensures
        pow128(n) >= 1,
        n >= 1 ==> pow128(n) >= 128,
    decreases n,
{
    if n > 0 {
        lemma_pow128_grows((n - 1) as nat);
    }
}

/// Bytes of which none has its high bit set, and so the
/// empty sequence too, are the encoding of no number.
pub proof fn lemma_vint_unfinished(bytes: Seq<u8>)
    requires
        forall|i: int| 0 <= i < bytes.len() ==> bytes[i] < 128,
    ensures
        vint_scan(bytes) is None,
        vint_decoding(bytes) == Err::<(u64, nat), DecodeError>(DecodeError::InvalidData),
    decreases bytes.len(),
{
    if bytes.len() > 0 {
        let others = bytes.drop_first();
        assert forall|i: int| 0 <= i < others.len() implies others[i] < 128 by {
            assert(others[i] == bytes[i + 1]);
        }
        lemma_vint_unfinished(others);
    }
}

/// Bytes of which one has its high bit set are read as a number: reading
/// fails on no other ground than the lack of such a byte. The bytes read
/// end at the first such byte.
pub proof fn lemma_vint_finished(bytes: Seq<u8>, k: int)
    requires
        0 <= k < bytes.len(),
        bytes[k] >= 128,
    ensures
        vint_decoding(bytes) matches Ok((_, len)) && len <= k + 1,
    decreases bytes.len(),
{
    if bytes[0] < 128 {
        let others = bytes.drop_first();
        assert(others[k - 1] == bytes[k]);
        lemma_vint_finished(others, k - 1);
    }
}

/// Every 64-bit number has an encoding of one to ten bytes: one byte below
/// 128, two bytes from there below 16384, and ten bytes for the greatest.
pub proof fn lemma_vint_encoding_len_u64(value: u64)
    ensures
        1 <= vint_encoding(value as nat).len() <= 10,
        value < 128 ==> vint_encoding(value as nat).len() == 1,
        128 <= value < 16384 ==> vint_encoding(value as nat).len() == 2,
        16384 <= value < 2097152 ==> vint_encoding(value as nat).len() == 3,
        value == u64::MAX ==> vint_encoding(value as nat).len() == 10,
{
    reveal_with_fuel(vint_encoding, 11);
}

/// The first ten powers of 128 fit in 64 bits, and the tenth is `2^63`.
proof fn lemma_pow128_small(n: nat)
    requires
        n <= 9,
    ensures
        1 <= pow128(n) <= 0x8000_0000_0000_0000,
        n < 9 ==> 128 * pow128(n) <= 0x8000_0000_0000_0000,
        n == 9 ==> pow128(n) == 0x8000_0000_0000_0000,
{
    reveal_with_fuel(pow128, 10);
}

/// While a number is read digit by digit: `low` is the number that the
/// first `i` digits denote and `value` its low 64 bits, `carry` counting
/// what lies beyond them. Up to the tenth digit `place` is the weight of
/// the next digit and nothing lies beyond 64 bits; from the eleventh digit
/// on the weight of the next digit is `scale` times `2^64`.
spec fn reading(i: nat, value: u64, place: u64, low: nat, carry: nat, scale: nat) -> bool {
    &&& low == value + 0x1_0000_0000_0000_0000 * carry
    &&& i <= 9 ==> place == pow128(i) && low < place && carry == 0
    &&& i >= 10 ==> pow128(i) == 0x1_0000_0000_0000_0000 * scale
}

/// The low 64 bits of the number read once digit `i` is added to it.
spec fn value_with_digit(i: nat, value: u64, place: u64, digit: u64) -> int {
    if i < 9 {
        value + digit * place
    } else if i == 9 {
        value + (digit % 2) * place
    } else {
        value as int
    }
}

/// The weight of digit `i + 1`, as far as it is kept.
spec fn place_after(i: nat, place: u64) -> int {
    if i < 9 {
        place * 128
    } else {
        place as int
    }
}

/// Adding digit `i` keeps the reading consistent: the products fit in 64
/// bits, and the result names the new `carry` and `scale`.
proof fn lemma_read_digit(
    i: nat,
    value: u64,
    place: u64,
    low: nat,
    carry: nat,
    scale: nat,
    digit: u64,
) -> (next: (nat, nat))
    requires
        reading(i, value, place, low, carry, scale),
        digit <= 127,
    ensures
        i < 9 ==> digit * place <= u64::MAX && place * 128 <= u64::MAX,
        i == 9 ==> (digit % 2) * place <= u64::MAX,
        0 <= value_with_digit(i, value, place, digit) <= u64::MAX,
        0 <= place_after(i, place) <= u64::MAX,
        reading(
            (i + 1) as nat,
            value_with_digit(i, value, place, digit) as u64,
            place_after(i, place) as u64,
            (low + digit * pow128(i)) as nat,
            next.0,
            next.1,
        ),
{
    let unit = pow128(i);
    assert(pow128(i + 1) == 128 * unit);
    if i < 9 {
        lemma_pow128_small(i);
        assert(digit * place <= 127 * place) by (nonlinear_arith)
            requires
                digit <= 127,
                place >= 0,
        ;
        assert(0 <= digit * place) by (nonlinear_arith)
            requires
                digit >= 0,
                place >= 0,
        ;
        (0, 0)
    } else if i == 9 {
        lemma_pow128_small(i);
        assert(place == 0x8000_0000_0000_0000);
        assert(digit == 2 * (digit / 2) + digit % 2);
        ((digit / 2) as nat, 64)
    } else {
        assert(digit * unit == 0x1_0000_0000_0000_0000 * (digit * scale)) by (nonlinear_arith)
            requires
                unit == 0x1_0000_0000_0000_0000 * scale,
        ;
        assert(0 <= digit * scale) by (nonlinear_arith)
            requires
                digit >= 0,
                scale >= 0,
        ;
        ((carry + digit * scale) as nat, 128 * scale)
    }
}

/// What is left to scan from byte `i` on completes the number `low` that
/// the bytes before it denote to what the whole of `bytes` denotes.
spec fn scanned(bytes: Seq<u8>, i: nat, low: nat) -> bool {
    match vint_scan(bytes.skip(i as int)) {
        None => vint_scan(bytes) is None,
        Some((tail, len)) => vint_scan(bytes) == Some(
            ((low + pow128(i) * tail) as nat, (len + i) as nat),
        ),
    }
}

/// One step of a scan that runs front to back: byte `i` either ends the
/// number, which is then `low` with its digit added, or passes the scan on
/// to the next byte.
proof fn lemma_scanned_step(bytes: Seq<u8>, i: nat, low: nat)
    requires
        i < bytes.len(),
        scanned(bytes, i, low),
    ensures
        ({
            let next = low + (bytes[i as int] % 128) * pow128(i);
            if bytes[i as int] >= 128 {
                vint_scan(bytes) == Some((next as nat, (i + 1) as nat))
            } else {
                scanned(bytes, (i + 1) as nat, next as nat)
            }
        }),
{
    let here = bytes.skip(i as int);
    let unit = pow128(i);
    let digit = (bytes[i as int] % 128) as nat;
    assert(here.drop_first() =~= bytes.skip(i + 1 as int));
    assert(here[0] == bytes[i as int]);
    assert(pow128(i + 1) == 128 * unit);
    if here[0] >= 128 {
        assert(unit * digit == digit * unit) by (nonlinear_arith);
    } else {
        if let Some((high, rest)) = vint_scan(here.drop_first()) {
            assert(unit * (digit + 128 * high) == digit * unit + (128 * unit) * high)
                by (nonlinear_arith);
        }
    }
}

impl BinarySerializable for VInt {
    type Model = u64;

    open spec fn model(&self) -> u64 {
        self.0
    }

    open spec fn encoding(m: u64) -> Seq<u8> {
        vint_encoding(m as nat)
    }

    open spec fn decoding(bytes: Seq<u8>) -> Result<(u64, nat), DecodeError> {
        vint_decoding(bytes)
    }

    proof fn lemma_decoding_in_bounds(bytes: Seq<u8>) {
        lemma_vint_scan_in_bounds(bytes);
    }

    proof fn lemma_round_trip(&self, rest: Seq<u8>) {
        lemma_vint_scan_of_encoding(self.0 as nat, rest);
    }

    fn serialize(&self, writer: &mut Vec<u8>) -> (written: usize) {
        let mut remaining: u64 = self.0;
        let mut written: usize = 0;
        loop
            invariant_except_break
                writer@ + vint_encoding(remaining as nat) == old(writer)@ + vint_encoding(
                    self.0 as nat,
                ),
                writer@.len() == old(writer)@.len() + written,
            ensures
                writer@ == old(writer)@ + vint_encoding(self.0 as nat),
                writer@.len() == old(writer)@.len() + written,
            decreases remaining,
        {
            let ghost before = writer@;
            let ghost value = remaining as nat;
            let next_byte: u8 = (remaining % 128) as u8;
            remaining = remaining / 128;
            if remaining == 0 {
                writer.push(next_byte + 128);
                assert(writer@.len() == writer.len());
                written += 1;
                assert(writer@ =~= before + vint_encoding(value));
                break ;
            } else {
                writer.push(next_byte);
                assert(writer@.len() == writer.len());
                written += 1;
                assert(writer@ + vint_encoding(remaining as nat) =~= before + vint_encoding(
                    value,
                ));
            }
        }
        written
    }

    fn deserialize(reader: &mut &[u8]) -> (result: Result<VInt, DecodeError>) {
        let source: &[u8] = *reader;
        let mut value: u64 = 0;
        let mut place: u64 = 1;
        let mut i: usize = 0;
        // The digits read so far as a number, what of it lies beyond 64
        // bits, and, from the eleventh digit on, the weight of the next
        // digit in units of 2^64.
        let ghost mut low: nat = 0;
        let ghost mut carry: nat = 0;
        let ghost mut scale: nat = 0;
        assert(source@.skip(0) =~= source@);
        while i < source.len()
            invariant
                i <= source.len(),
                source@ == old(reader)@,
                *reader == *old(reader),
                reading(i as nat, value, place, low, carry, scale),
                scanned(source@, i as nat, low),
            decreases source.len() - i,
        {
            let b: u8 = source[i];
            let digit: u64 = (b % 128) as u64;
            proof {
                let next = lemma_read_digit(i as nat, value, place, low, carry, scale, digit);
                lemma_scanned_step(source@, i as nat, low);
                low = (low + digit * pow128(i as nat)) as nat;
                carry = next.0;
                scale = next.1;
            }
            if i < 9 {
                value = value + digit * place;
                place = place * 128;
            } else if i == 9 {
                value = value + (digit % 2) * place;
            }
            if b >= 128 {
                *reader = slice_subrange(source, i + 1, source.len());
                proof {
                    vstd::arithmetic::div_mod::lemma_fundamental_div_mod_converse(
                        low as int,
                        0x1_0000_0000_0000_0000,
                        carry as int,
                        value as int,
                    );
                }
                return Ok(VInt(value));
            }
            i += 1;
        }
        assert(source@.skip(i as int) =~= Seq::<u8>::empty());
        Err(DecodeError::InvalidData)
    }
}

} // verus!
