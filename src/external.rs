//! Calls into the outside DER codecs for the sub-structures this library treats as opaque.
use vstd::prelude::*;

verus! {

/// Whether `const-oid` accepts these octets as the content of an OBJECT IDENTIFIER.
pub uninterp spec fn oid_accepts(b: Seq<u8>) -> bool;

/// Whether `spki` accepts these octets as one complete DER `AlgorithmIdentifier`.
pub uninterp spec fn algorithm_identifier_accepts(b: Seq<u8>) -> bool;

/// Relies on `spki::ObjectIdentifier::from_bytes` (from `const-oid`): it validates the
/// content octets of an OBJECT IDENTIFIER, and its verdict depends on those octets alone.
#[verifier::external_body]
pub(crate) fn oid_valid(b: &[u8]) -> (r: bool)
    ensures
        r == oid_accepts(b@),
{
    spki::ObjectIdentifier::from_bytes(b).is_ok()
}

/// Relies on `der::Decode::from_der` for `spki::AlgorithmIdentifierRef`: it decodes one
/// `AlgorithmIdentifier` that spans the whole input, and its verdict depends on the input alone.
#[verifier::external_body]
pub(crate) fn algorithm_identifier_valid(b: &[u8]) -> (r: bool)
    ensures
        r == algorithm_identifier_accepts(b@),
{
    <spki::AlgorithmIdentifierRef<'_> as der::Decode<'_>>::from_der(b).is_ok()
}

} // verus!
