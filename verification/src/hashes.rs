//! Trusted bindings to the outside hash, checksum and filter crates.
//!
//! Each result is a pure function of its input, so it is named by an
//! uninterpreted spec function and every contract in the crate speaks of
//! that name.

use vstd::prelude::*;

verus! {

/// The CRC-32 (Castagnoli) checksum of a byte sequence.
pub uninterp spec fn crc32c_of(data: Seq<u8>) -> u32;

/// Relies on crc32c::crc32c: the checksum depends on the bytes alone.
pub assume_specification[ crc32c::crc32c ](data: &[u8]) -> (r: u32)
    ensures
        r == crc32c_of(data@),
;

/// The 64-bit farmhash fingerprint of a byte sequence.
pub uninterp spec fn fingerprint64_of(data: Seq<u8>) -> u64;

/// Relies on farmhash::fingerprint64: the fingerprint depends on the bytes
/// alone and is stable across platforms and seeds.
pub assume_specification[ farmhash::fingerprint64 ](s: &[u8]) -> (r: u64)
    ensures
        r == fingerprint64_of(s@),
;

/// The serialized binary fuse filter built from a list of distinct
/// fingerprints, or `None` where construction fails.
pub uninterp spec fn filter_section_of(hashes: Seq<u64>) -> Option<Seq<u8>>;

/// Relies on xorf::BinaryFuse8::try_from, whose construction is seeded by a
/// constant and so depends on the fingerprint list alone. Duplicates are
/// excluded because construction asserts the fingerprints distinct in
/// debug builds. The filter is serialized field by field in little-endian
/// order, the fingerprint bytes behind their count, exactly the layout
/// serde-based encoders give it. The length bound comes from the source:
/// the fingerprint array holds at most round(6.0 * n) plus three segments
/// of at most 262144 slots each, behind a 28-byte header.
///
/// Residual assumption, beyond what the requires can state: construction
/// tallies, per slot, four per fingerprint in a byte-wide counter with no
/// guard, so sixty-four or more distinct fingerprints steered into one
/// slot overflow it, which panics in builds with overflow checks. That
/// steering depends on the seeded hash layout, not on any plain property
/// of the list, so no dischargeable precondition can exclude it, and a
/// guard would put the construction's own arithmetic into this body.
#[verifier::external_body]
pub fn build_filter_section(hashes: &Vec<u64>) -> (r: Option<Vec<u8>>)
    requires
        forall|i: int, j: int| 0 <= i < j < hashes@.len() ==> hashes@[i] != hashes@[j],
    ensures
        r is Some <==> filter_section_of(hashes@) is Some,
        r matches Some(b) ==> filter_section_of(hashes@) matches Some(s) && b@ == s,
        r matches Some(b) ==> b@.len() <= 6 * hashes@.len() + 786470,
{
    match <xorf::BinaryFuse8 as core::convert::TryFrom<&Vec<u64>>>::try_from(hashes) {
        Ok(f) => {
            let mut out = Vec::new();
            out.extend_from_slice(&f.descriptor.seed.to_le_bytes());
            out.extend_from_slice(&f.descriptor.segment_length.to_le_bytes());
            out.extend_from_slice(&f.descriptor.segment_length_mask.to_le_bytes());
            out.extend_from_slice(&f.descriptor.segment_count_length.to_le_bytes());
            out.extend_from_slice(&(f.fingerprints.len() as u64).to_le_bytes());
            out.extend_from_slice(&f.fingerprints);
            Some(out)
        },
        Err(_) => None,
    }
}

} // verus!
