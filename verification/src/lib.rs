//! A verified builder for sorted-string-table (SST) files.
//!
//! The builder consumes a non-decreasing stream of (key, versioned value)
//! records and emits a self-describing byte blob: data blocks, an
//! old-versions section, index blocks over both, a property record, a
//! membership filter, checksums and a fixed-size footer.

pub mod block;
pub mod builder;
pub mod entry_slice;
pub mod footer;
pub mod hashes;
pub mod le;
pub mod value;

use vstd::prelude::*;

verus! {

/// Checksum algorithm identifier: CRC-32 with the Castagnoli polynomial.
pub const CRC32_CASTAGNOLI: u8 = 1;
/// Compression identifier: the builder never compresses.
pub const NO_COMPRESSION: u8 = 0;
/// Version of the on-disk table layout.
pub const TABLE_FORMAT: u16 = 1;
/// Magic number stored in the footer.
pub const MAGIC_NUMBER: u32 = 2940551257;
/// Meta flag set on an entry that supersedes an older version.
pub const META_HAS_OLD: u8 = 2;
/// Terminator byte for the extras region of an index block.
pub const EXTRA_END: u8 = 255;
/// Extras tag for an embedded filter.
pub const EXTRA_FILTER: u8 = 1;
/// Filter family identifier for a binary fuse filter with 8-bit fingerprints.
pub const EXTRA_FILTER_TYPE_BINARY_FUSE_8: u8 = 1;
/// Size in bytes of the marshalled footer: four offsets, two identifier
/// bytes, the format version and the magic number.
pub const FOOTER_SIZE: usize = 24;

} // verus!
