//! How integers lie on the wire, least significant byte first, and the
//! outside calls that lay them out and read them back.

use byteorder::{ByteOrder, LittleEndian};
use vstd::prelude::*;
use vstd::utf8::{encode_utf8, valid_utf8};

verus! {

/// The `width` least significant bytes of `value`, least significant first.
pub open spec fn le_bytes(value: nat, width: nat) -> Seq<u8>
    decreases width,
{
    if width == 0 {
        Seq::empty()
    } else {
        seq![(value % 256) as u8] + le_bytes(value / 256, (width - 1) as nat)
    }
}

/// The number of values that `width` bytes can hold.
pub open spec fn radix(width: nat) -> nat
    decreases width,
{
    if width == 0 {
        1
    } else {
        256 * radix((width - 1) as nat)
    }
}

/// The unsigned number with the same two's complement bit pattern as `value`
/// in `width` bytes.
pub open spec fn unsigned(value: int, width: nat) -> nat {
    if value < 0 {
        (value + radix(width)) as nat
    } else {
        value as nat
    }
}

/// The signed number whose two's complement in `width` bytes is the bit
/// pattern of `pattern`.
pub open spec fn signed(pattern: nat, width: nat) -> int {
    if 2 * pattern >= radix(width) {
        pattern - radix(width)
    } else {
        pattern as int
    }
}

/// The number that `bytes` hold, least significant byte first.
pub open spec fn le_value(bytes: Seq<u8>) -> nat
    decreases bytes.len(),
{
    if bytes.len() == 0 {
        0
    } else {
        bytes[0] as nat + 256 * le_value(bytes.skip(1))
    }
}

/// `le_bytes` yields exactly `width` bytes.
pub proof fn lemma_le_bytes_len(value: nat, width: nat)
    ensures
        le_bytes(value, width).len() == width,
    decreases width,
{
    if width > 0 {
        lemma_le_bytes_len(value / 256, (width - 1) as nat);
    }
}

/// Reading back what `le_bytes` laid out gives the value again, as long as
/// the value fits in `width` bytes.
pub proof fn lemma_le_round_trip(value: nat, width: nat)
    requires
        value < radix(width),
    ensures
        le_value(le_bytes(value, width)) == value,
    decreases width,
{
    if width > 0 {
        let rest = le_bytes(value / 256, (width - 1) as nat);
        let all = le_bytes(value, width);
        lemma_le_round_trip(value / 256, (width - 1) as nat);
        lemma_le_bytes_len(value / 256, (width - 1) as nat);
        assert(all.skip(1) =~= rest);
        assert(all[0] == (value % 256) as u8);
    }
}

/// Any `width` bytes are the layout of the number they hold.
pub proof fn lemma_le_value_round_trip(bytes: Seq<u8>)
    ensures
        le_value(bytes) < radix(bytes.len()),
        le_bytes(le_value(bytes), bytes.len()) == bytes,
    decreases bytes.len(),
{
    if bytes.len() > 0 {
        let tail = bytes.skip(1);
        lemma_le_value_round_trip(tail);
        let value = le_value(bytes);
        assert(value == bytes[0] as nat + 256 * le_value(tail));
        assert(value % 256 == bytes[0] as nat);
        assert(value / 256 == le_value(tail));
        assert(le_bytes(value, bytes.len()) =~= bytes);
    }
}

/// The number of values that one, two, four and eight bytes can hold.
pub proof fn lemma_radix()
    ensures
        radix(1) == 0x100,
        radix(2) == 0x1_0000,
        radix(4) == 0x1_0000_0000,
        radix(8) == 0x1_0000_0000_0000_0000,
{
    reveal_with_fuel(radix, 9);
}

/// A number that was laid out in front of `rest` is read back from there,
/// and `rest` is what remains.
pub proof fn lemma_read_back(value: nat, width: nat, rest: Seq<u8>)
    requires
        value < radix(width),
    ensures
        (le_bytes(value, width) + rest).len() >= width,
        le_value((le_bytes(value, width) + rest).take(width as int)) == value,
        (le_bytes(value, width) + rest).skip(width as int) == rest,
{
    lemma_le_bytes_len(value, width);
    lemma_le_round_trip(value, width);
    assert((le_bytes(value, width) + rest).take(width as int) =~= le_bytes(value, width));
    assert((le_bytes(value, width) + rest).skip(width as int) =~= rest);
}

/// A signed number that fits in `width` bytes is the one that has its bit
/// pattern.
pub proof fn lemma_signed_round_trip(value: int, width: nat)
    requires
        -radix(width) <= 2 * value < radix(width),
    ensures
        unsigned(value, width) < radix(width),
        signed(unsigned(value, width), width) == value,
{
}

/// A signed number that was laid out in front of `rest` is read back from
/// there, and `rest` is what remains.
pub proof fn lemma_signed_read_back(value: int, width: nat, rest: Seq<u8>)
    requires
        -radix(width) <= 2 * value < radix(width),
    ensures
        (le_bytes(unsigned(value, width), width) + rest).len() >= width,
        signed(
            le_value((le_bytes(unsigned(value, width), width) + rest).take(width as int)),
            width,
        ) == value,
        (le_bytes(unsigned(value, width), width) + rest).skip(width as int) == rest,
{
    lemma_signed_round_trip(value, width);
    lemma_read_back(unsigned(value, width), width, rest);
}

/// `byteorder::ByteOrder::write_u16` of `LittleEndian`: the first two bytes
/// of `buf` become those of `n`, least significant byte first, and the
/// other bytes of `buf` stay. The crate panics on fewer than two bytes.
#[verifier::external_body]
pub(crate) fn write_u16(buf: &mut Vec<u8>, n: u16)
    requires
        old(buf)@.len() >= 2,
    ensures
        final(buf)@ == le_bytes(n as nat, 2) + old(buf)@.skip(2),
{
    LittleEndian::write_u16(buf, n)
}

/// `byteorder::ByteOrder::write_u32` of `LittleEndian`: the first four bytes
/// of `buf` become those of `n`, least significant byte first, and the
/// other bytes of `buf` stay. The crate panics on fewer than four bytes.
#[verifier::external_body]
pub(crate) fn write_u32(buf: &mut Vec<u8>, n: u32)
    requires
        old(buf)@.len() >= 4,
    ensures
        final(buf)@ == le_bytes(n as nat, 4) + old(buf)@.skip(4),
{
    LittleEndian::write_u32(buf, n)
}

/// `byteorder::ByteOrder::write_u64` of `LittleEndian`: the first eight bytes
/// of `buf` become those of `n`, least significant byte first, and the
/// other bytes of `buf` stay. The crate panics on fewer than eight bytes.
#[verifier::external_body]
pub(crate) fn write_u64(buf: &mut Vec<u8>, n: u64)
    requires
        old(buf)@.len() >= 8,
    ensures
        final(buf)@ == le_bytes(n as nat, 8) + old(buf)@.skip(8),
{
    LittleEndian::write_u64(buf, n)
}

/// `byteorder::ByteOrder::write_i16` of `LittleEndian`: the first two bytes
/// of `buf` become the two's complement of `n`, least significant byte
/// first, and the other bytes of `buf` stay. The crate panics on fewer than
/// two bytes.
#[verifier::external_body]
pub(crate) fn write_i16(buf: &mut Vec<u8>, n: i16)
    requires
        old(buf)@.len() >= 2,
    ensures
        final(buf)@ == le_bytes(unsigned(n as int, 2), 2) + old(buf)@.skip(2),
{
    LittleEndian::write_i16(buf, n)
}

/// `byteorder::ByteOrder::write_i32` of `LittleEndian`: the first four bytes
/// of `buf` become the two's complement of `n`, least significant byte
/// first, and the other bytes of `buf` stay. The crate panics on fewer than
/// four bytes.
#[verifier::external_body]
pub(crate) fn write_i32(buf: &mut Vec<u8>, n: i32)
    requires
        old(buf)@.len() >= 4,
    ensures
        final(buf)@ == le_bytes(unsigned(n as int, 4), 4) + old(buf)@.skip(4),
{
    LittleEndian::write_i32(buf, n)
}

/// `byteorder::ByteOrder::write_i64` of `LittleEndian`: the first eight bytes
/// of `buf` become the two's complement of `n`, least significant byte
/// first, and the other bytes of `buf` stay. The crate panics on fewer than
/// eight bytes.
#[verifier::external_body]
pub(crate) fn write_i64(buf: &mut Vec<u8>, n: i64)
    requires
        old(buf)@.len() >= 8,
    ensures
        final(buf)@ == le_bytes(unsigned(n as int, 8), 8) + old(buf)@.skip(8),
{
    LittleEndian::write_i64(buf, n)
}

/// `byteorder::ByteOrder::read_u16` of `LittleEndian`: the number that the
/// first two bytes of `buf` hold, least significant byte first. The crate
/// panics on fewer than two bytes.
#[verifier::external_body]
pub(crate) fn read_u16(buf: &[u8]) -> (v: u16)
    requires
        buf@.len() >= 2,
    ensures
        v as nat == le_value(buf@.subrange(0, 2)),
{
    LittleEndian::read_u16(buf)
}

/// `byteorder::ByteOrder::read_u32` of `LittleEndian`: the number that the
/// first four bytes of `buf` hold, least significant byte first. The crate
/// panics on fewer than four bytes.
#[verifier::external_body]
pub(crate) fn read_u32(buf: &[u8]) -> (v: u32)
    requires
        buf@.len() >= 4,
    ensures
        v as nat == le_value(buf@.subrange(0, 4)),
{
    LittleEndian::read_u32(buf)
}

/// `byteorder::ByteOrder::read_u64` of `LittleEndian`: the number that the
/// first eight bytes of `buf` hold, least significant byte first. The crate
/// panics on fewer than eight bytes.
#[verifier::external_body]
pub(crate) fn read_u64(buf: &[u8]) -> (v: u64)
    requires
        buf@.len() >= 8,
    ensures
        v as nat == le_value(buf@.subrange(0, 8)),
{
    LittleEndian::read_u64(buf)
}

/// `String::from_utf8`: the string that `bytes` encode, if they are UTF-8,
/// and nothing if they are not.
#[verifier::external_body]
pub(crate) fn from_utf8(bytes: Vec<u8>) -> (text: Option<String>)
    ensures
        text is Some <==> valid_utf8(bytes@),
        text matches Some(s) ==> encode_utf8(s@) == bytes@,
{
    String::from_utf8(bytes).ok()
}

} // verus!
