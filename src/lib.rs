//! Decoding and encoding of the CMS `SignedData` content type in DER.
pub mod error;
pub mod tlv;
pub mod external;
pub mod signed_data;

pub use error::DerError;
pub use signed_data::{CertificateChoices, Content, EncapsulatedContentInfo, SignedDataContent, Version};
