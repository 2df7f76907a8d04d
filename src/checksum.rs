//! The CRC-64 digest that guards each record.
use vstd::prelude::*;

verus! {

/// The CRC-64/ECMA-182 checksum of `data`.
pub uninterp spec fn crc64_of(data: Seq<u8>) -> u64;

/// Relies on `crc::Crc::<u64>::checksum` of the crc crate, set up with
/// `CRC_64_ECMA_182`: its result depends on the bytes alone.
#[verifier::external_body]
pub(crate) fn crc64(data: &Vec<u8>) -> (r: u64)
    ensures
        r == crc64_of(data@),
{
    crc::Crc::<u64>::new(&crc::CRC_64_ECMA_182).checksum(data.as_slice())
}

} // verus!
