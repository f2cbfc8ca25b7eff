//! The checksum that keys fields on disk.

use vstd::prelude::*;

verus! {

/// The CRC-32 (ISO-HDLC) checksum of a field name, computed over the
/// name's UTF-8 bytes: the on-disk key of the field.
pub uninterp spec fn crc32_of(name: Seq<char>) -> u32;

/// Computes the checksum of a field name.
///
/// Relies on the crc crate's `Crc::<u32>::checksum` with the
/// `CRC_32_ISO_HDLC` algorithm: the result is a pure function of the
/// input bytes, so equal names always give equal checksums.
#[verifier::external_body]
pub fn get_hash(s: &str) -> (r: u32)
    ensures
        r == crc32_of(s@),
{
    let func: crc::Crc<u32> = crc::Crc::<u32>::new(&crc::CRC_32_ISO_HDLC);
    func.checksum(s.as_bytes())
}

} // verus!
