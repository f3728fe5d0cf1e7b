//! Errors reported while validating a foreign buffer.
//!
//! Every kind is distinct, so a caller can tell a buffer of another format
//! family from one of another version, another element type, or one whose
//! length does not match its own header.

use vstd::prelude::*;

verus! {

/// Why a byte buffer was refused as a spatial index.
#[derive(Clone, Copy, Debug, PartialEq, Eq, Structural)]
pub enum GeoIndexError {
    /// The magic byte does not identify this format family.
    InvalidFormat,
    /// The encoded format version differs from the supported one.
    VersionMismatch,
    /// The encoded coordinate-type tag differs from the requested type.
    TypeMismatch,
    /// The buffer's length disagrees with the length its header implies,
    /// or the buffer ends before the header field about to be read.
    LengthMismatch,
}

} // verus!
