//! The closed set of coordinate element kinds.
//!
//! Each kind has a fixed byte width and a unique small tag; the tag is stored
//! in the low nibble of the second header byte, so that a buffer describes its
//! own element type and a reader asking for a different type can be refused.

use vstd::prelude::*;

verus! {

/// A coordinate element kind.
///
/// The tag numbering follows the original typed-array table of the buffer
/// format family; tag 2 (a clamped byte kind) is reserved there and unused
/// here.
#[derive(Clone, Copy, Debug, PartialEq, Eq, Structural)]
pub enum CoordType {
    Int8,
    UInt8,
    Int16,
    UInt16,
    Int32,
    UInt32,
    Float32,
    Float64,
}

impl CoordType {
    /// The serialized type tag of this kind.
    pub open spec fn spec_tag(self) -> u8 {
        match self {
            CoordType::Int8 => 0,
            CoordType::UInt8 => 1,
            CoordType::Int16 => 3,
            CoordType::UInt16 => 4,
            CoordType::Int32 => 5,
            CoordType::UInt32 => 6,
            CoordType::Float32 => 7,
            CoordType::Float64 => 8,
        }
    }

    /// The width in bytes of one element of this kind.
    pub open spec fn spec_bytes_per_element(self) -> nat {
        match self {
            CoordType::Int8 => 1,
            CoordType::UInt8 => 1,
            CoordType::Int16 => 2,
            CoordType::UInt16 => 2,
            CoordType::Int32 => 4,
            CoordType::UInt32 => 4,
            CoordType::Float32 => 4,
            CoordType::Float64 => 8,
        }
    }

    /// The kind a tag stands for, if any.
    pub open spec fn spec_from_tag(tag: u8) -> Option<CoordType> {
        match tag {
            0u8 => Some(CoordType::Int8),
            1u8 => Some(CoordType::UInt8),
            3u8 => Some(CoordType::Int16),
            4u8 => Some(CoordType::UInt16),
            5u8 => Some(CoordType::Int32),
            6u8 => Some(CoordType::UInt32),
            7u8 => Some(CoordType::Float32),
            8u8 => Some(CoordType::Float64),
            _ => None,
        }
    }

    /// Executable form of [`CoordType::spec_tag`].
    pub fn tag(self) -> (r: u8)
        ensures
            r == self.spec_tag(),
    {
        match self {
            CoordType::Int8 => 0,
            CoordType::UInt8 => 1,
            CoordType::Int16 => 3,
            CoordType::UInt16 => 4,
            CoordType::Int32 => 5,
            CoordType::UInt32 => 6,
            CoordType::Float32 => 7,
            CoordType::Float64 => 8,
        }
    }

    /// Executable form of [`CoordType::spec_bytes_per_element`].
    pub fn bytes_per_element(self) -> (r: usize)
        ensures
            r == self.spec_bytes_per_element(),
    {
        match self {
            CoordType::Int8 => 1,
            CoordType::UInt8 => 1,
            CoordType::Int16 => 2,
            CoordType::UInt16 => 2,
            CoordType::Int32 => 4,
            CoordType::UInt32 => 4,
            CoordType::Float32 => 4,
            CoordType::Float64 => 8,
        }
    }

    /// Executable form of [`CoordType::spec_from_tag`].
    pub fn from_tag(tag: u8) -> (r: Option<CoordType>)
        ensures
            r == CoordType::spec_from_tag(tag),
    {
        match tag {
            0u8 => Some(CoordType::Int8),
            1u8 => Some(CoordType::UInt8),
            3u8 => Some(CoordType::Int16),
            4u8 => Some(CoordType::UInt16),
            5u8 => Some(CoordType::Int32),
            6u8 => Some(CoordType::UInt32),
            7u8 => Some(CoordType::Float32),
            8u8 => Some(CoordType::Float64),
            _ => None,
        }
    }
}

/// The tag of a kind names that kind and no other: it round-trips exactly
/// through serialization.
pub proof fn lemma_tag_roundtrip(ct: CoordType)
    ensures
        CoordType::spec_from_tag(ct.spec_tag()) == Some(ct),
{
}

} // verus!
