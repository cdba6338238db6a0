//! CRC-32/ISCSI (Castagnoli) checksums over byte strings.

use vstd::prelude::*;

verus! {

/// The CRC-32/ISCSI checksum of `bytes`, as the `crc` crate computes it.
pub uninterp spec fn crc32_iscsi(bytes: Seq<u8>) -> u32;

/// Calls `crc::Crc::<u32>::checksum` with the `CRC_32_ISCSI` algorithm. The
/// contract only gives the result its name: equal inputs yield equal checksums.
#[verifier::external_body]
pub(crate) fn checksum(bytes: &[u8]) -> (sum: u32)
    ensures
        sum == crc32_iscsi(bytes@),
{
    crc::Crc::<u32>::new(&crc::CRC_32_ISCSI).checksum(bytes)
}

} // verus!
