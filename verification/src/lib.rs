//! A static 2-D spatial index engine.
//!
//! Points are packed once into a contiguous, self-describing buffer (header,
//! position-index array, alignment padding, coordinate array) and queried
//! many times through read-only views.  An owned KD-tree builds and holds
//! its buffer; a reference KD-tree validates and borrows a buffer supplied
//! from outside.  Beside it, an R-tree bulk-loads bounding boxes into a
//! packed bottom-up hierarchy for intersection queries.

use vstd::prelude::*;

pub mod codec;
pub mod coord;
pub mod error;
pub mod kdtree;
pub mod layout;
pub mod rtree;

verus! {

} // verus!
