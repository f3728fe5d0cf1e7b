//! The buffer layout engine.
//!
//! Given an item count and a node size, every byte offset of the packed
//! buffer is a pure function: header, position-index array, alignment
//! padding, coordinate array, in that fixed order.  Opening a foreign buffer
//! validates its header against these functions before any typed view exists.

use vstd::prelude::*;
use crate::codec::{read_u16_le, read_u32_le, u16_le_spec, u32_le_spec};
use crate::coord::CoordType;
use crate::error::GeoIndexError;

verus! {

/// Bytes in the fixed header: magic, version+type, node size, item count.
pub const HEADER_SIZE: usize = 8;

/// The magic byte identifying this buffer format family.
pub const MAGIC: u8 = 0xdb;

/// The buffer format version this engine reads and writes.
pub const VERSION: u8 = 1;

/// Width in bytes of one position-index entry: 2 while the count fits a
/// 16-bit index, 4 otherwise.
pub open spec fn spec_index_entry_bytes(num_items: nat) -> nat {
    if num_items < 65536 {
        2
    } else {
        4
    }
}

/// Total bytes of the position-index array.
pub open spec fn spec_indices_byte_size(num_items: nat) -> nat {
    if num_items < 65536 {
        num_items * 2
    } else {
        num_items * 4
    }
}

/// Padding after the index array, bringing the coordinate array to 8-byte
/// alignment.
pub open spec fn spec_pad_byte_size(num_items: nat) -> nat {
    ((8 - spec_indices_byte_size(num_items) % 8) % 8) as nat
}

/// Total bytes of the coordinate array: two elements per item.
pub open spec fn spec_coords_byte_size(num_items: nat, ct: CoordType) -> nat {
    match ct {
        CoordType::Int8 => num_items * 2,
        CoordType::UInt8 => num_items * 2,
        CoordType::Int16 => num_items * 4,
        CoordType::UInt16 => num_items * 4,
        CoordType::Int32 => num_items * 8,
        CoordType::UInt32 => num_items * 8,
        CoordType::Float32 => num_items * 8,
        CoordType::Float64 => num_items * 16,
    }
}

/// Total length of a well-formed buffer: header, indices, padding,
/// coordinates.
pub open spec fn spec_data_buffer_length(num_items: nat, ct: CoordType) -> nat {
    (HEADER_SIZE + spec_indices_byte_size(num_items) + spec_pad_byte_size(num_items)
        + spec_coords_byte_size(num_items, ct)) as nat
}

/// Byte offset of the coordinate array.
pub open spec fn spec_coords_byte_start(num_items: nat) -> nat {
    (HEADER_SIZE + spec_indices_byte_size(num_items) + spec_pad_byte_size(num_items)) as nat
}

/// Metadata describing one packed index buffer.
///
/// Only the two construction inputs and the element kind are held; every
/// derived size is recomputed, so the metadata can never disagree with
/// itself.
#[derive(Clone, Copy, Debug, PartialEq, Eq, Structural)]
pub struct KDTreeMetadata {
    /// Partition granularity used at construction time.
    pub node_size: u16,
    /// Number of indexed items.
    pub num_items: u32,
    /// Kind of each coordinate element.
    pub coord_type: CoordType,
}

/// The header bytes a buffer must carry to match a metadata value.
pub open spec fn spec_valid_header(data: Seq<u8>, m: KDTreeMetadata) -> bool {
    &&& data.len() >= HEADER_SIZE
    &&& data[0] == MAGIC
    &&& data[1] == VERSION * 16 + m.coord_type.spec_tag()
    &&& u16_le_spec(data[2], data[3]) == m.node_size
    &&& u32_le_spec(data[4], data[5], data[6], data[7]) == m.num_items
}

/// A buffer that fully matches a metadata value: valid header and exactly
/// the derived length.
pub open spec fn spec_valid_buffer(data: Seq<u8>, m: KDTreeMetadata) -> bool {
    &&& spec_valid_header(data, m)
    &&& data.len() == spec_data_buffer_length(m.num_items as nat, m.coord_type)
}

/// What validating a buffer yields: the checks in their fixed order —
/// magic byte, version nibble, type nibble, recomputed total length — each
/// failing with its own error kind.  Each field is read as soon as the
/// buffer is long enough to hold it, so a short buffer with a wrong magic,
/// version, or type is reported as such; only a buffer too short to hold
/// the field about to be read is a length mismatch.
pub open spec fn spec_validate(data: Seq<u8>, ct: CoordType) -> Result<
    KDTreeMetadata,
    GeoIndexError,
> {
    if data.len() < 1 {
        Err(GeoIndexError::LengthMismatch)
    } else if data[0] != MAGIC {
        Err(GeoIndexError::InvalidFormat)
    } else if data.len() < 2 {
        Err(GeoIndexError::LengthMismatch)
    } else if data[1] / 16 != VERSION {
        Err(GeoIndexError::VersionMismatch)
    } else if data[1] % 16 != ct.spec_tag() {
        Err(GeoIndexError::TypeMismatch)
    } else if data.len() < HEADER_SIZE {
        Err(GeoIndexError::LengthMismatch)
    } else {
        let m = KDTreeMetadata {
            node_size: u16_le_spec(data[2], data[3]),
            num_items: u32_le_spec(data[4], data[5], data[6], data[7]),
            coord_type: ct,
        };
        if data.len() == m.spec_buffer_length() {
            Ok(m)
        } else {
            Err(GeoIndexError::LengthMismatch)
        }
    }
}

impl KDTreeMetadata {
    /// Derived length of the whole buffer, as a mathematical value.
    pub open spec fn spec_buffer_length(self) -> nat {
        spec_data_buffer_length(self.num_items as nat, self.coord_type)
    }

    /// Construct metadata from the two public inputs.
    ///
    /// A node size below 2 is a caller defect, ruled out up front; a `u16`
    /// cannot exceed 65535, so the upper bound of the valid range holds by
    /// type.
    pub fn new(num_items: u32, node_size: u16, coord_type: CoordType) -> (r: Self)
        requires
            2 <= node_size,
        ensures
            r == (KDTreeMetadata { node_size, num_items, coord_type }),
    {
        KDTreeMetadata { node_size, num_items, coord_type }
    }

    /// Bytes of one position-index entry for this item count.
    pub fn index_entry_bytes(&self) -> (r: usize)
        ensures
            r == spec_index_entry_bytes(self.num_items as nat),
    {
        if self.num_items < 65536 {
            2
        } else {
            4
        }
    }

    /// Total bytes of the position-index array.
    pub fn indices_byte_size(&self) -> (r: usize)
        requires
            spec_indices_byte_size(self.num_items as nat) <= usize::MAX,
        ensures
            r == spec_indices_byte_size(self.num_items as nat),
    {
        if self.num_items < 65536 {
            (self.num_items as usize) * 2
        } else {
            (self.num_items as usize) * 4
        }
    }

    /// Bytes of alignment padding after the index array.
    pub fn pad_byte_size(&self) -> (r: usize)
        requires
            spec_indices_byte_size(self.num_items as nat) <= usize::MAX,
        ensures
            r == spec_pad_byte_size(self.num_items as nat),
    {
        (8 - self.indices_byte_size() % 8) % 8
    }

    /// Total bytes of the coordinate array.
    pub fn coords_byte_size(&self) -> (r: usize)
        requires
            spec_coords_byte_size(self.num_items as nat, self.coord_type) <= usize::MAX,
        ensures
            r == spec_coords_byte_size(self.num_items as nat, self.coord_type),
    {
        let n = self.num_items as usize;
        match self.coord_type {
            CoordType::Int8 => n * 2,
            CoordType::UInt8 => n * 2,
            CoordType::Int16 => n * 4,
            CoordType::UInt16 => n * 4,
            CoordType::Int32 => n * 8,
            CoordType::UInt32 => n * 8,
            CoordType::Float32 => n * 8,
            CoordType::Float64 => n * 16,
        }
    }

    /// Total length of the buffer this metadata describes.
    pub fn data_buffer_length(&self) -> (r: usize)
        requires
            self.spec_buffer_length() <= usize::MAX,
        ensures
            r == self.spec_buffer_length(),
    {
        HEADER_SIZE + self.indices_byte_size() + self.pad_byte_size() + self.coords_byte_size()
    }

    /// Byte offset of the coordinate array.
    pub fn coords_byte_start(&self) -> (r: usize)
        requires
            self.spec_buffer_length() <= usize::MAX,
        ensures
            r == spec_coords_byte_start(self.num_items as nat),
    {
        HEADER_SIZE + self.indices_byte_size() + self.pad_byte_size()
    }

    /// Validate a foreign buffer's header and length.
    ///
    /// The checks run in a fixed order — magic byte, version nibble, type
    /// nibble, recomputed total length — and each failure is its own error
    /// kind, so corruption is never silently misread.  Each field is read
    /// as soon as the buffer holds it; a buffer that ends before the field
    /// about to be read is a length mismatch.
    pub fn try_new_from_slice(data: &[u8], coord_type: CoordType) -> (r: Result<
        Self,
        GeoIndexError,
    >)
        ensures
            r == spec_validate(data@, coord_type),
            r is Ok ==> spec_valid_buffer(data@, r->Ok_0) && r->Ok_0.coord_type == coord_type,
    {
        if data.len() < 1 {
            return Err(GeoIndexError::LengthMismatch);
        }
        if data[0] != MAGIC {
            return Err(GeoIndexError::InvalidFormat);
        }
        if data.len() < 2 {
            return Err(GeoIndexError::LengthMismatch);
        }
        let version_and_type = data[1];
        let version = version_and_type / 16;
        if version != VERSION {
            return Err(GeoIndexError::VersionMismatch);
        }
        let type_tag = version_and_type % 16;
        if type_tag != coord_type.tag() {
            return Err(GeoIndexError::TypeMismatch);
        }
        if data.len() < HEADER_SIZE {
            return Err(GeoIndexError::LengthMismatch);
        }
        let node_size = read_u16_le(data[2], data[3]);
        let num_items = read_u32_le(data[4], data[5], data[6], data[7]);
        let m = KDTreeMetadata { node_size, num_items, coord_type };
        proof {
            assert(version_and_type == 16 * (version_and_type / 16) + version_and_type % 16)
                by (bit_vector);
        }
        // The recomputed length is at most 8 + 4 * n + 7 + 16 * n for a
        // 32-bit count, so it fits in 64 bits; compare in that width to
        // stay independent of the platform's address size.
        let n64: u64 = num_items as u64;
        let ibs64: u64 = if num_items < 65536 {
            n64 * 2
        } else {
            n64 * 4
        };
        let pad64: u64 = (8 - ibs64 % 8) % 8;
        let cbs64: u64 = match coord_type {
            CoordType::Int8 => n64 * 2,
            CoordType::UInt8 => n64 * 2,
            CoordType::Int16 => n64 * 4,
            CoordType::UInt16 => n64 * 4,
            CoordType::Int32 => n64 * 8,
            CoordType::UInt32 => n64 * 8,
            CoordType::Float32 => n64 * 8,
            CoordType::Float64 => n64 * 16,
        };
        let expected: u64 = (HEADER_SIZE as u64) + ibs64 + pad64 + cbs64;
        if (data.len() as u64) != expected {
            return Err(GeoIndexError::LengthMismatch);
        }
        Ok(m)
    }
}

} // verus!
