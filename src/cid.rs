use vstd::prelude::*;
use libipld_core::cid::Cid;

verus! {

#[verifier::external_type_specification]
#[verifier::external_body]
pub struct ExCidError(libipld_core::cid::Error);

/// The bytes `b` form a content identifier (a version, a codec and a multihash).
pub uninterp spec fn cid_valid(b: Seq<u8>) -> bool;

/// Relies on `Cid::try_from(&[u8])`: succeeds exactly where a content identifier
/// can be read from the bytes.
#[verifier::external_body]
pub(crate) fn check_cid(b: &[u8]) -> (r: Result<(), libipld_core::cid::Error>)
    ensures
        r is Ok <==> cid_valid(b@),
{
    Cid::try_from(b).map(|_| ())
}

} // verus!
