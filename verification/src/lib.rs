//! Byte-level editing of binary images.
//!
//! The crate parses byte-count literals and ranges (`0x100`, `45K`, `12Ki..16Ki`),
//! converts buffers to and from the checksummed Intel HEX text format, and
//! edits byte buffers: extracting a sub-range, stitching several buffers
//! together at given offsets with gap filling, and grafting a replacement
//! block into a fixed-size window of an existing buffer.

pub mod byte_offset;
pub mod concat;
pub mod errors;
pub mod intelhex;
pub mod ops;
pub mod range;
pub mod stitch;
