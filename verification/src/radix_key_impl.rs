//! Keys of the unsigned integers and of byte arrays.
use vstd::prelude::*;
use crate::radix_key::{le_from, RadixKey};

verus! {

/// The byte of `x` that starts at bit `shift`.
pub open spec fn byte_at(x: u128, shift: u32) -> u8 {
    ((x >> shift) & 0xff) as u8
}

/// Extracts the byte of `x` that starts at bit `shift`.
pub fn get_byte(x: u128, shift: u32) -> (byte: u8)
    requires
        shift < 128,
    ensures
        byte == byte_at(x, shift),
{
    let v: u128 = (x >> shift) & 0xff;
    assert(v < 256) by (bit_vector)
        requires
            v == (x >> shift) & 0xff,
    ;
    v as u8
}

/// The bit at which the byte of `level` starts in a key of `levels` bytes.
pub open spec fn shift_of(levels: int, level: int) -> u32 {
    if 0 <= level < levels {
        ((levels - 1 - level) * 8) as u32
    } else {
        0
    }
}

/// Computes the bit at which the byte of `level` starts.
pub fn get_shift(levels: usize, level: usize) -> (shift: u32)
    requires
        level < levels <= 16,
    ensures
        shift == shift_of(levels as int, level as int),
        shift < 128,
{
    ((levels - 1 - level) * 8) as u32
}

/// A byte is its own key.
impl RadixKey for u8 {
    const LEVELS: usize = 1;

    open spec fn key_byte(&self, level: int) -> u8 {
        byte_at(*self as u128, shift_of(1, level))
    }

    fn get_level(&self, level: usize) -> (byte: u8) {
        get_byte(*self as u128, get_shift(Self::LEVELS, level))
    }
}

/// Two bytes, the high one first.
impl RadixKey for u16 {
    const LEVELS: usize = 2;

    open spec fn key_byte(&self, level: int) -> u8 {
        byte_at(*self as u128, shift_of(2, level))
    }

    fn get_level(&self, level: usize) -> (byte: u8) {
        get_byte(*self as u128, get_shift(Self::LEVELS, level))
    }
}

/// Four bytes, the highest first.
impl RadixKey for u32 {
    const LEVELS: usize = 4;

    open spec fn key_byte(&self, level: int) -> u8 {
        byte_at(*self as u128, shift_of(4, level))
    }

    fn get_level(&self, level: usize) -> (byte: u8) {
        get_byte(*self as u128, get_shift(Self::LEVELS, level))
    }
}

/// Eight bytes, the highest first.
impl RadixKey for u64 {
    const LEVELS: usize = 8;

    open spec fn key_byte(&self, level: int) -> u8 {
        byte_at(*self as u128, shift_of(8, level))
    }

    fn get_level(&self, level: usize) -> (byte: u8) {
        get_byte(*self as u128, get_shift(Self::LEVELS, level))
    }
}

/// Sixteen bytes, the highest first.
impl RadixKey for u128 {
    const LEVELS: usize = 16;

    open spec fn key_byte(&self, level: int) -> u8 {
        byte_at(*self, shift_of(16, level))
    }

    fn get_level(&self, level: usize) -> (byte: u8) {
        get_byte(*self, get_shift(Self::LEVELS, level))
    }
}

/// A `usize` is sorted as a key of eight bytes, whatever the width of the
/// machine word.
impl RadixKey for usize {
    const LEVELS: usize = 8;

    open spec fn key_byte(&self, level: int) -> u8 {
        byte_at(*self as u128, shift_of(8, level))
    }

    fn get_level(&self, level: usize) -> (byte: u8) {
        get_byte(*self as u128, get_shift(Self::LEVELS, level))
    }
}

/// A byte array is its own key: the first byte is the most significant one.
impl<const N: usize> RadixKey for [u8; N] {
    const LEVELS: usize = N;

    open spec fn key_byte(&self, level: int) -> u8 {
        if 0 <= level < N {
            self@[level]
        } else {
            0
        }
    }

    fn get_level(&self, level: usize) -> (byte: u8) {
        self[level]
    }
}

/// The lowest `bits` bits of `x`.
pub open spec fn low_bits(x: u128, bits: u32) -> u128 {
    if bits >= 128 {
        x
    } else {
        x & (((1u128 << bits) - 1) as u128)
    }
}

/// `x` is not greater than `y` when the bytes of the levels `level..levels`
/// of the two are compared lexicographically.
pub open spec fn le_bytes(x: u128, y: u128, levels: int, level: int) -> bool
    decreases levels - level,
{
    if level >= levels {
        true
    } else if byte_at(x, shift_of(levels, level)) != byte_at(y, shift_of(levels, level)) {
        byte_at(x, shift_of(levels, level)) < byte_at(y, shift_of(levels, level))
    } else {
        le_bytes(x, y, levels, level + 1)
    }
}

/// Comparing eight bits more is comparing the byte they make, and the bits
/// below where the bytes are equal.
proof fn lemma_low_bits_step(x: u128, y: u128, s: u32)
    by (bit_vector)
    requires
        s <= 120,
    ensures
        (if s + 8 >= 128 { x } else { x & (((1u128 << ((s + 8) as u32)) - 1) as u128) })
            <= (if s + 8 >= 128 { y } else { y & (((1u128 << ((s + 8) as u32)) - 1) as u128) })
            <==> (((x >> s) & 0xff) < ((y >> s) & 0xff) || (((x >> s) & 0xff) == ((y >> s) & 0xff)
            && (x & (((1u128 << s) - 1) as u128)) <= (y & (((1u128 << s) - 1) as u128)))),
        ((x >> s) & 0xff) < 256,
        ((y >> s) & 0xff) < 256,
{
}

/// Comparing the bytes from `level` on is comparing the numbers that the
/// bits below that level make.
pub proof fn lemma_le_bytes_is_le(x: u128, y: u128, levels: int, level: int)
    requires
        0 <= level <= levels <= 16,
    ensures
        le_bytes(x, y, levels, level) <==> low_bits(x, ((levels - level) * 8) as u32) <= low_bits(
            y,
            ((levels - level) * 8) as u32,
        ),
    decreases levels - level,
{
    if level < levels {
        lemma_le_bytes_is_le(x, y, levels, level + 1);
        let s = shift_of(levels, level);
        assert(s == (levels - (level + 1)) * 8);
        lemma_low_bits_step(x, y, s);
        assert(byte_at(x, s) == (x >> s) & 0xff);
        assert(byte_at(y, s) == (y >> s) & 0xff);
        assert(s + 8 == (levels - level) * 8);
    } else {
        assert(x & (((1u128 << 0u32) - 1) as u128) == 0) by (bit_vector);
        assert(y & (((1u128 << 0u32) - 1) as u128) == 0) by (bit_vector);
    }
}

/// The key order of `u8` from `level` on is the order of the bytes.
proof fn lemma_le_from_u8(x: u8, y: u8, level: int)
    requires
        0 <= level <= 1,
    ensures
        le_from(x, y, level) <==> le_bytes(x as u128, y as u128, 1, level),
    decreases 1 - level,
{
    if level < 1 {
        lemma_le_from_u8(x, y, level + 1);
    }
}

/// The key order of `u16` from `level` on is the order of the bytes.
proof fn lemma_le_from_u16(x: u16, y: u16, level: int)
    requires
        0 <= level <= 2,
    ensures
        le_from(x, y, level) <==> le_bytes(x as u128, y as u128, 2, level),
    decreases 2 - level,
{
    if level < 2 {
        lemma_le_from_u16(x, y, level + 1);
    }
}

/// The key order of `u32` from `level` on is the order of the bytes.
proof fn lemma_le_from_u32(x: u32, y: u32, level: int)
    requires
        0 <= level <= 4,
    ensures
        le_from(x, y, level) <==> le_bytes(x as u128, y as u128, 4, level),
    decreases 4 - level,
{
    if level < 4 {
        lemma_le_from_u32(x, y, level + 1);
    }
}

/// The key order of `u64` from `level` on is the order of the bytes.
proof fn lemma_le_from_u64(x: u64, y: u64, level: int)
    requires
        0 <= level <= 8,
    ensures
        le_from(x, y, level) <==> le_bytes(x as u128, y as u128, 8, level),
    decreases 8 - level,
{
    if level < 8 {
        lemma_le_from_u64(x, y, level + 1);
    }
}

/// The key order of `u128` from `level` on is the order of the bytes.
proof fn lemma_le_from_u128(x: u128, y: u128, level: int)
    requires
        0 <= level <= 16,
    ensures
        le_from(x, y, level) <==> le_bytes(x, y, 16, level),
    decreases 16 - level,
{
    if level < 16 {
        lemma_le_from_u128(x, y, level + 1);
    }
}

/// The key order of `usize` from `level` on is the order of the bytes.
proof fn lemma_le_from_usize(x: usize, y: usize, level: int)
    requires
        0 <= level <= 8,
    ensures
        le_from(x, y, level) <==> le_bytes(x as u128, y as u128, 8, level),
    decreases 8 - level,
{
    if level < 8 {
        lemma_le_from_usize(x, y, level + 1);
    }
}

/// The key order of `u8` is the order of the numbers.
pub proof fn lemma_u8_key_order(x: u8, y: u8)
    ensures
        le_from(x, y, 0) <==> x <= y,
{
    lemma_le_from_u8(x, y, 0);
    lemma_le_bytes_is_le(x as u128, y as u128, 1, 0);
    let (a, b) = (x as u128, y as u128);
    assert(a & (((1u128 << 8u32) - 1) as u128) == a) by (bit_vector)
        requires
            a < 0x100,
    ;
    assert(b & (((1u128 << 8u32) - 1) as u128) == b) by (bit_vector)
        requires
            b < 0x100,
    ;
}

/// The key order of `u16` is the order of the numbers.
pub proof fn lemma_u16_key_order(x: u16, y: u16)
    ensures
        le_from(x, y, 0) <==> x <= y,
{
    lemma_le_from_u16(x, y, 0);
    lemma_le_bytes_is_le(x as u128, y as u128, 2, 0);
    let (a, b) = (x as u128, y as u128);
    assert(a & (((1u128 << 16u32) - 1) as u128) == a) by (bit_vector)
        requires
            a < 0x1_0000,
    ;
    assert(b & (((1u128 << 16u32) - 1) as u128) == b) by (bit_vector)
        requires
            b < 0x1_0000,
    ;
}

/// The key order of `u32` is the order of the numbers.
pub proof fn lemma_u32_key_order(x: u32, y: u32)
    ensures
        le_from(x, y, 0) <==> x <= y,
{
    lemma_le_from_u32(x, y, 0);
    lemma_le_bytes_is_le(x as u128, y as u128, 4, 0);
    let (a, b) = (x as u128, y as u128);
    assert(a & (((1u128 << 32u32) - 1) as u128) == a) by (bit_vector)
        requires
            a < 0x1_0000_0000,
    ;
    assert(b & (((1u128 << 32u32) - 1) as u128) == b) by (bit_vector)
        requires
            b < 0x1_0000_0000,
    ;
}

/// The key order of `u64` is the order of the numbers.
pub proof fn lemma_u64_key_order(x: u64, y: u64)
    ensures
        le_from(x, y, 0) <==> x <= y,
{
    lemma_le_from_u64(x, y, 0);
    lemma_le_bytes_is_le(x as u128, y as u128, 8, 0);
    let (a, b) = (x as u128, y as u128);
    assert(a & (((1u128 << 64u32) - 1) as u128) == a) by (bit_vector)
        requires
            a < 0x1_0000_0000_0000_0000,
    ;
    assert(b & (((1u128 << 64u32) - 1) as u128) == b) by (bit_vector)
        requires
            b < 0x1_0000_0000_0000_0000,
    ;
}

/// The key order of `u128` is the order of the numbers.
pub proof fn lemma_u128_key_order(x: u128, y: u128)
    ensures
        le_from(x, y, 0) <==> x <= y,
{
    lemma_le_from_u128(x, y, 0);
    lemma_le_bytes_is_le(x, y, 16, 0);
}

/// The key order of `usize` is the order of the numbers.
pub proof fn lemma_usize_key_order(x: usize, y: usize)
    ensures
        le_from(x, y, 0) <==> x <= y,
{
    lemma_le_from_usize(x, y, 0);
    lemma_le_bytes_is_le(x as u128, y as u128, 8, 0);
    let (a, b) = (x as u128, y as u128);
    assert(a & (((1u128 << 64u32) - 1) as u128) == a) by (bit_vector)
        requires
            a < 0x1_0000_0000_0000_0000,
    ;
    assert(b & (((1u128 << 64u32) - 1) as u128) == b) by (bit_vector)
        requires
            b < 0x1_0000_0000_0000_0000,
    ;
}

} // verus!
