use vstd::prelude::*;

verus! {

/// Why a `SignedData` buffer was refused, or could not be encoded.
#[derive(Clone, Copy, Debug, PartialEq, Eq, Structural)]
pub enum DerError {
    /// A tag in the high-tag-number form, or a tag that the field does not admit.
    MalformedTag,
    /// An indefinite, non-minimal or oversized length, or one that claims more
    /// bytes than its enclosing scope holds.
    MalformedLength,
    /// The buffer ends inside a tag or a length.
    PrematureEof,
    /// A well-formed version INTEGER whose value lies outside `1..=5`. Holds the value;
    /// for an INTEGER of more than eight octets, which lies beyond the 64-bit range,
    /// it holds `i64::MIN` or `i64::MAX`, on the side of its sign.
    InvalidVersion(i64),
    /// A version INTEGER whose content is empty or not in minimal two's-complement form.
    MalformedInteger,
    /// A content type that is not a valid OBJECT IDENTIFIER.
    MalformedObjectIdentifier,
    /// A digest algorithm that is not a valid `AlgorithmIdentifier`.
    MalformedAlgorithmIdentifier,
    /// The EXPLICIT `[0]` wrapper of the content holds zero or several values.
    MalformedContentWrapper,
    /// A certificate choice that is recognised but not modelled; holds its tag number.
    UnsupportedCertificateChoice(u8),
    /// Bytes after the certificates field (`crls` or `signerInfos`).
    UnsupportedField,
    /// A SET OF whose elements are not in strictly ascending byte order.
    NonCanonicalSetOrdering,
    /// Bytes after the last field of a structure.
    TrailingData,
}

} // verus!
