//! Little-endian field codecs.
//!
//! Every multi-byte field of the buffer format is little-endian.  The spec
//! functions here state the value of a field as plain arithmetic over its
//! bytes; the executable readers and writers are proved against them, so a
//! written field reads back as the value it was written from.

use vstd::prelude::*;
use vstd::arithmetic::div_mod::lemma_fundamental_div_mod;

verus! {

/// The value of a little-endian 2-byte unsigned field.
pub open spec fn u16_le_spec(b0: u8, b1: u8) -> u16 {
    (b0 + b1 * 256) as u16
}

/// The value of a little-endian 4-byte unsigned field.
pub open spec fn u32_le_spec(b0: u8, b1: u8, b2: u8, b3: u8) -> u32 {
    (b0 + b1 * 0x100 + b2 * 0x10000 + b3 * 0x1000000) as u32
}

/// The unsigned 32-bit pattern that stands for a signed coordinate.
pub open spec fn u32_of_i32(v: i32) -> u32 {
    if v >= 0 {
        v as u32
    } else {
        (v + 0x1_0000_0000) as u32
    }
}

/// The signed coordinate a stored 32-bit pattern stands for.
pub open spec fn i32_of_u32(u: u32) -> i32 {
    if u < 0x8000_0000 {
        u as i32
    } else {
        (u - 0x1_0000_0000) as i32
    }
}

/// A signed coordinate survives the trip through its stored pattern.
pub proof fn lemma_i32_roundtrip(v: i32)
    ensures
        i32_of_u32(u32_of_i32(v)) == v,
{
}

/// Read a 2-byte little-endian field.
pub fn read_u16_le(b0: u8, b1: u8) -> (r: u16)
    ensures
        r == u16_le_spec(b0, b1),
{
    b0 as u16 + b1 as u16 * 256
}

/// Read a 4-byte little-endian field.
pub fn read_u32_le(b0: u8, b1: u8, b2: u8, b3: u8) -> (r: u32)
    ensures
        r == u32_le_spec(b0, b1, b2, b3),
{
    b0 as u32 + b1 as u32 * 0x100 + b2 as u32 * 0x10000 + b3 as u32 * 0x1000000
}

/// Split a 2-byte field into its little-endian bytes.
pub fn write_u16_le(v: u16) -> (r: (u8, u8))
    ensures
        u16_le_spec(r.0, r.1) == v,
{
    proof {
        lemma_fundamental_div_mod(v as int, 256);
    }
    ((v % 256) as u8, (v / 256) as u8)
}

/// Split a 4-byte field into its little-endian bytes.
pub fn write_u32_le(v: u32) -> (r: (u8, u8, u8, u8))
    ensures
        u32_le_spec(r.0, r.1, r.2, r.3) == v,
{
    let b0 = (v % 0x100) as u8;
    let b1 = (v / 0x100 % 0x100) as u8;
    let b2 = (v / 0x10000 % 0x100) as u8;
    let b3 = (v / 0x1000000) as u8;
    proof {
        assert(b0 + b1 * 0x100 + b2 * 0x10000 + b3 * 0x1000000 == v) by (bit_vector)
            requires
                b0 == v % 0x100 && b1 == v / 0x100 % 0x100 && b2 == v / 0x10000 % 0x100 && b3
                    == v / 0x1000000,
        ;
    }
    (b0, b1, b2, b3)
}

/// Store a signed coordinate as its unsigned 32-bit pattern.
pub fn encode_i32(v: i32) -> (r: u32)
    ensures
        r == u32_of_i32(v),
{
    if v >= 0 {
        v as u32
    } else {
        ((v as i64) + 0x1_0000_0000) as u32
    }
}

/// Recover a signed coordinate from its stored pattern.
pub fn decode_i32(u: u32) -> (r: i32)
    ensures
        r == i32_of_u32(u),
{
    if u < 0x8000_0000 {
        u as i32
    } else {
        ((u as i64) - 0x1_0000_0000) as i32
    }
}

} // verus!
