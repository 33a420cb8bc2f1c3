//! The `SignedData` content type: its values, their DER decoding and encoding.
//!
//! Decoded values own copies of the bytes they hold, so they outlive the input buffer.
//! Decoding is not recursive: the nesting depth is fixed by the structure itself, and
//! every length is checked against the octets left in its enclosing scope before use.
use crate::error::DerError;
use crate::external::{
    algorithm_identifier_accepts, algorithm_identifier_valid, oid_accepts, oid_valid,
};
use crate::tlv::{
    be_value, integer_value, lemma_integer_bounds, lemma_pow256_mono, minimal_integer, pow256,
    concat, copy_range, lemma_elems_canonical, lemma_elems_concat, lemma_tlv_canonical,
    lemma_tlv_parse, lemma_tlv_prefix, less_than, lex_lt, octets_view, push_all, push_header,
    read_elems, read_tlv, single_tlv, spec_elems, spec_header, spec_tlv, strictly_ascending, tlv,
    MAX_LEN,
};
use vstd::prelude::*;

verus! {

pub const TAG_INTEGER: u8 = 0x02;
pub const TAG_OCTET_STRING: u8 = 0x04;
pub const TAG_OID: u8 = 0x06;
pub const TAG_SEQUENCE: u8 = 0x30;
pub const TAG_SET: u8 = 0x31;
/// Context-specific, constructed, number 0: EXPLICIT on `content`, IMPLICIT on `certificates`.
pub const TAG_CONTEXT_0: u8 = 0xA0;

/// Syntax version of the `signed-data` content type; versions 1 to 5 are supported.
#[derive(Clone, Copy, Debug, PartialEq, Eq, Structural)]
pub enum Version {
    V1,
    V2,
    V3,
    V4,
    V5,
}

impl Version {
    /// The version's number.
    pub open spec fn spec_byte(self) -> u8 {
        match self {
            Version::V1 => 1,
            Version::V2 => 2,
            Version::V3 => 3,
            Version::V4 => 4,
            Version::V5 => 5,
        }
    }

    /// The version numbered `b`, if it is one of 1 to 5.
    pub open spec fn spec_from_byte(b: u8) -> Option<Version> {
        if b == 1 {
            Some(Version::V1)
        } else if b == 2 {
            Some(Version::V2)
        } else if b == 3 {
            Some(Version::V3)
        } else if b == 4 {
            Some(Version::V4)
        } else if b == 5 {
            Some(Version::V5)
        } else {
            None
        }
    }

    /// The version's number.
    pub fn to_byte(self) -> (r: u8)
        ensures
            r == self.spec_byte(),
            1 <= r <= 5,
    {
        match self {
            Version::V1 => 1,
            Version::V2 => 2,
            Version::V3 => 3,
            Version::V4 => 4,
            Version::V5 => 5,
        }
    }

    /// The version numbered `b`; any number outside 1 to 5 is refused, never clamped.
    pub fn from_byte(b: u8) -> (r: Result<Version, DerError>)
        ensures
            match r {
                Ok(v) => Version::spec_from_byte(b) == Some(v) && v.spec_byte() == b,
                Err(e) => Version::spec_from_byte(b) is None && e == DerError::InvalidVersion(b as i64),
            },
            r is Ok <==> 1 <= b <= 5,
    {
        match b {
            1 => Ok(Version::V1),
            2 => Ok(Version::V2),
            3 => Ok(Version::V3),
            4 => Ok(Version::V4),
            5 => Ok(Version::V5),
            _ => Err(DerError::InvalidVersion(b as i64)),
        }
    }
}

/// The payload of an `EncapsulatedContentInfo`, in one of its two wire forms.
#[derive(Clone, Debug, PartialEq, Eq)]
pub enum Content {
    /// `[0] EXPLICIT OCTET STRING`: the octets of the string.
    OctetString(Vec<u8>),
    /// `[0] EXPLICIT ANY DEFINED BY contentType`: the inner element's complete encoding,
    /// kept byte for byte.
    Custom(Vec<u8>),
}

/// What a `Content` holds, as octet sequences.
pub enum ContentView {
    OctetString(Seq<u8>),
    Custom(Seq<u8>),
}

impl View for Content {
    type V = ContentView;

    open spec fn view(&self) -> ContentView {
        match self {
            Content::OctetString(o) => ContentView::OctetString(o@),
            Content::Custom(c) => ContentView::Custom(c@),
        }
    }
}

/// `EncapsulatedContentInfo ::= SEQUENCE { eContentType ContentType, eContent [0] EXPLICIT ... OPTIONAL }`
#[derive(Clone, Debug, PartialEq, Eq)]
pub struct EncapsulatedContentInfo {
    /// The content octets of the content type's OBJECT IDENTIFIER.
    pub content_type: Vec<u8>,
    /// The content; absent for detached content.
    pub content: Option<Content>,
}

/// What an `EncapsulatedContentInfo` holds, as octet sequences.
pub struct EncapsulatedContentInfoView {
    pub content_type: Seq<u8>,
    pub content: Option<ContentView>,
}

impl View for EncapsulatedContentInfo {
    type V = EncapsulatedContentInfoView;

    open spec fn view(&self) -> EncapsulatedContentInfoView {
        EncapsulatedContentInfoView {
            content_type: self.content_type@,
            content: match self.content {
                Some(c) => Some(c@),
                None => None,
            },
        }
    }
}

/// `CertificateChoices`: only a bare X.509 certificate is modelled; the tagged
/// alternatives `[0]` to `[3]` are refused on decoding.
#[derive(Clone, Debug, PartialEq, Eq)]
pub enum CertificateChoices {
    /// The certificate's complete encoding, a universal SEQUENCE.
    Certificate(Vec<u8>),
}

impl View for CertificateChoices {
    type V = Seq<u8>;

    open spec fn view(&self) -> Seq<u8> {
        match self {
            CertificateChoices::Certificate(c) => c@,
        }
    }
}

/// `SignedData ::= SEQUENCE { version, digestAlgorithms, encapContentInfo, certificates [0] IMPLICIT OPTIONAL, ... }`
///
/// `crls` and `signerInfos` are not modelled: a buffer that holds them is refused.
#[derive(Clone, Debug, PartialEq, Eq)]
pub struct SignedDataContent {
    /// The syntax version number.
    pub version: Version,
    /// The digest algorithm identifiers, each as its complete DER encoding, in
    /// strictly ascending byte order.
    pub digest_algorithms: Vec<Vec<u8>>,
    /// The signed content.
    pub encapsulated_content_info: EncapsulatedContentInfo,
    /// The certificate set, if present.
    pub certificates: Option<Vec<CertificateChoices>>,
}

/// What a `SignedDataContent` holds, as octet sequences.
pub struct SignedDataContentView {
    pub version: Version,
    pub digest_algorithms: Seq<Seq<u8>>,
    pub encapsulated_content_info: EncapsulatedContentInfoView,
    pub certificates: Option<Seq<Seq<u8>>>,
}

impl View for SignedDataContent {
    type V = SignedDataContentView;

    open spec fn view(&self) -> SignedDataContentView {
        SignedDataContentView {
            version: self.version,
            digest_algorithms: octets_view(self.digest_algorithms@),
            encapsulated_content_info: self.encapsulated_content_info@,
            certificates: match self.certificates {
                Some(cs) => Some(certs_view(cs@)),
                None => None,
            },
        }
    }
}

/// A value that this library can hold: every opaque element is one complete DER element
/// accepted by its codec, the digest algorithms are in canonical order, and the stored
/// forms are the ones decoding would choose.
pub open spec fn valid(v: SignedDataContentView) -> bool {
    &&& forall|i: int|
        0 <= i < v.digest_algorithms.len() ==> single_tlv(#[trigger] v.digest_algorithms[i])
            && algorithm_identifier_accepts(v.digest_algorithms[i])
    &&& strictly_ascending(v.digest_algorithms)
    &&& oid_accepts(v.encapsulated_content_info.content_type)
    &&& v.encapsulated_content_info.content matches Some(ContentView::Custom(x)) ==> single_tlv(x)
        && x[0] != TAG_OCTET_STRING
    &&& v.certificates matches Some(cs) ==> forall|i: int|
        0 <= i < cs.len() ==> single_tlv(#[trigger] cs[i]) && cs[i][0] == TAG_SEQUENCE
}

/// Custom content, if any, is one element not tagged OCTET STRING.
pub open spec fn content_ok(c: Option<ContentView>) -> bool {
    match c {
        Some(ContentView::Custom(x)) => single_tlv(x) && x[0] != TAG_OCTET_STRING,
        _ => true,
    }
}

/// Each certificate is one SEQUENCE element.
pub open spec fn certificates_ok(cs: Seq<Seq<u8>>) -> bool {
    forall|i: int| 0 <= i < cs.len() ==> single_tlv(#[trigger] cs[i]) && cs[i][0] == TAG_SEQUENCE
}

/// Why a value is not `valid`, checked field by field in the order of the encoding.
pub open spec fn spec_validate(v: SignedDataContentView) -> Result<(), DerError> {
    let a = v.digest_algorithms;
    let e = v.encapsulated_content_info;
    if !(forall|i: int| 0 <= i < a.len() ==> single_tlv(#[trigger] a[i]) && algorithm_identifier_accepts(a[i])) {
        Err(DerError::MalformedAlgorithmIdentifier)
    } else if !strictly_ascending(a) {
        Err(DerError::NonCanonicalSetOrdering)
    } else if !oid_accepts(e.content_type) {
        Err(DerError::MalformedObjectIdentifier)
    } else if !content_ok(e.content) {
        Err(DerError::MalformedContentWrapper)
    } else if v.certificates is Some && !certificates_ok(v.certificates->0) {
        Err(DerError::MalformedTag)
    } else {
        Ok(())
    }
}

/// The encoding of each certificate, in order.
pub open spec fn certs_view(v: Seq<CertificateChoices>) -> Seq<Seq<u8>> {
    v.map_values(|c: CertificateChoices| c@)
}

// ---------------------------------------------------------------- decoding, as a model

/// The element at the start of `b` has tag `t`: its header length and content length.
pub open spec fn spec_expect(b: Seq<u8>, t: u8) -> Result<(nat, nat), DerError> {
    match spec_tlv(b) {
        Err(e) => Err(e),
        Ok((bt, h, l)) => if bt == t {
            Ok((h, l))
        } else {
            Err(DerError::MalformedTag)
        },
    }
}

/// What `InvalidVersion` reports of an INTEGER's content: its value, or, for more than
/// eight octets, the 64-bit bound on the side of its sign.
pub open spec fn version_report(c: Seq<u8>) -> i64 {
    if c.len() <= 8 {
        integer_value(c) as i64
    } else if c[0] >= 0x80 {
        i64::MIN
    } else {
        i64::MAX
    }
}

/// The version INTEGER at the start of `b`, and the octets it takes: any minimal
/// INTEGER is read, then its value is checked against 1 to 5.
pub open spec fn spec_version(b: Seq<u8>) -> Result<(Version, nat), DerError> {
    match spec_expect(b, TAG_INTEGER) {
        Err(e) => Err(e),
        Ok((h, l)) => {
            let c = b.subrange(h as int, (h + l) as int);
            if !minimal_integer(c) {
                Err(DerError::MalformedInteger)
            } else if 1 <= integer_value(c) <= 5 {
                Ok((Version::spec_from_byte(integer_value(c) as u8)->0, h + l))
            } else {
                Err(DerError::InvalidVersion(version_report(c)))
            }
        },
    }
}

/// The elements of a digest-algorithm SET OF, given its content octets.
pub open spec fn spec_digest_set(body: Seq<u8>) -> Result<Seq<Seq<u8>>, DerError> {
    match spec_elems(body) {
        Err(e) => Err(e),
        Ok(s) => if !(forall|i: int| 0 <= i < s.len() ==> algorithm_identifier_accepts(#[trigger] s[i])) {
            Err(DerError::MalformedAlgorithmIdentifier)
        } else if !strictly_ascending(s) {
            Err(DerError::NonCanonicalSetOrdering)
        } else {
            Ok(s)
        },
    }
}

/// The content inside the EXPLICIT `[0]` wrapper, chosen by the inner tag alone.
pub open spec fn spec_content(inner: Seq<u8>) -> Result<ContentView, DerError> {
    if inner.len() == 0 {
        Err(DerError::MalformedContentWrapper)
    } else {
        match spec_tlv(inner) {
            Err(e) => Err(e),
            Ok((t, h, l)) => if h + l != inner.len() {
                Err(DerError::MalformedContentWrapper)
            } else if t == TAG_OCTET_STRING {
                Ok(ContentView::OctetString(inner.subrange(h as int, (h + l) as int)))
            } else {
                Ok(ContentView::Custom(inner))
            },
        }
    }
}

/// An `EncapsulatedContentInfo`, given its content octets.
#[verifier::opaque]
pub open spec fn spec_eci(body: Seq<u8>) -> Result<EncapsulatedContentInfoView, DerError> {
    match spec_expect(body, TAG_OID) {
        Err(e) => Err(e),
        Ok((h, l)) => {
            let ct = body.subrange(h as int, (h + l) as int);
            let rest = body.skip((h + l) as int);
            if !oid_accepts(ct) {
                Err(DerError::MalformedObjectIdentifier)
            } else if rest.len() == 0 {
                Ok(EncapsulatedContentInfoView { content_type: ct, content: None })
            } else {
                match spec_tlv(rest) {
                    Err(e) => Err(e),
                    Ok((t, h2, l2)) => if t != TAG_CONTEXT_0 || h2 + l2 != rest.len() {
                        Err(DerError::TrailingData)
                    } else {
                        match spec_content(rest.skip(h2 as int)) {
                            Err(e) => Err(e),
                            Ok(c) => Ok(EncapsulatedContentInfoView { content_type: ct, content: Some(c) }),
                        }
                    },
                }
            }
        },
    }
}

/// Why a certificate-set element is refused, if it is.
pub open spec fn spec_cert_error(e: Seq<u8>) -> Option<DerError> {
    if e[0] == TAG_SEQUENCE {
        None
    } else if e[0] == 0x80 || e[0] == 0x81 || e[0] == 0x82 || e[0] == 0x83 || e[0] == 0xA0 || e[0] == 0xA1 || e[0] == 0xA2 || e[0] == 0xA3 {
        Some(DerError::UnsupportedCertificateChoice(e[0] % 32))
    } else {
        Some(DerError::MalformedTag)
    }
}

/// The first refusal among certificate-set elements, if any.
pub open spec fn spec_certs_error(s: Seq<Seq<u8>>) -> Option<DerError>
    decreases s.len(),
{
    if s.len() == 0 {
        None
    } else {
        match spec_cert_error(s[0]) {
            Some(e) => Some(e),
            None => spec_certs_error(s.skip(1)),
        }
    }
}

/// The certificates of an IMPLICIT `[0]` certificate set, given its content octets.
pub open spec fn spec_cert_set(body: Seq<u8>) -> Result<Seq<Seq<u8>>, DerError> {
    match spec_elems(body) {
        Err(e) => Err(e),
        Ok(s) => match spec_certs_error(s) {
            Some(e) => Err(e),
            None => Ok(s),
        },
    }
}

/// The optional certificates field and what follows it, given the rest of the SEQUENCE.
#[verifier::opaque]
pub open spec fn spec_tail(rest: Seq<u8>) -> Result<Option<Seq<Seq<u8>>>, DerError> {
    if rest.len() == 0 {
        Ok(None)
    } else if rest[0] != TAG_CONTEXT_0 {
        Err(DerError::UnsupportedField)
    } else {
        match spec_tlv(rest) {
            Err(e) => Err(e),
            Ok((t, h, l)) => match spec_cert_set(rest.subrange(h as int, (h + l) as int)) {
                Err(e) => Err(e),
                Ok(s) => if h + l < rest.len() {
                    Err(DerError::UnsupportedField)
                } else {
                    Ok(Some(s))
                },
            },
        }
    }
}

/// The fields after the digest algorithms, given the rest of the SEQUENCE.
#[verifier::opaque]
pub open spec fn spec_rest(b: Seq<u8>, v: Version, algs: Seq<Seq<u8>>) -> Result<SignedDataContentView, DerError> {
    match spec_expect(b, TAG_SEQUENCE) {
        Err(e) => Err(e),
        Ok((h, l)) => match spec_eci(b.subrange(h as int, (h + l) as int)) {
            Err(e) => Err(e),
            Ok(eci) => match spec_tail(b.skip((h + l) as int)) {
                Err(e) => Err(e),
                Ok(certs) => Ok(SignedDataContentView {
                    version: v,
                    digest_algorithms: algs,
                    encapsulated_content_info: eci,
                    certificates: certs,
                }),
            },
        },
    }
}

/// A `SignedData`, given the content octets of its SEQUENCE.
#[verifier::opaque]
pub open spec fn spec_body(b: Seq<u8>) -> Result<SignedDataContentView, DerError> {
    match spec_version(b) {
        Err(e) => Err(e),
        Ok((v, n1)) => {
            let b1 = b.skip(n1 as int);
            match spec_expect(b1, TAG_SET) {
                Err(e) => Err(e),
                Ok((h2, l2)) => match spec_digest_set(b1.subrange(h2 as int, (h2 + l2) as int)) {
                    Err(e) => Err(e),
                    Ok(algs) => spec_rest(b1.skip((h2 + l2) as int), v, algs),
                },
            }
        },
    }
}

/// A buffer holding exactly one DER `SignedData` SEQUENCE.
pub open spec fn spec_decode(b: Seq<u8>) -> Result<SignedDataContentView, DerError> {
    match spec_expect(b, TAG_SEQUENCE) {
        Err(e) => Err(e),
        Ok((h, l)) => if h + l < b.len() {
            Err(DerError::TrailingData)
        } else {
            spec_body(b.subrange(h as int, (h + l) as int))
        },
    }
}

// ---------------------------------------------------------------- decoding

/// Reads the header of an element at `pos` that must carry tag `t`.
fn expect_tag(b: &[u8], pos: usize, end: usize, t: u8) -> (r: Result<(usize, usize), DerError>)
    requires
        pos <= end <= b@.len(),
    ensures
        match (r, spec_expect(b@.subrange(pos as int, end as int), t)) {
            (Ok((h, l)), Ok((sh, sl))) => h == sh && l == sl && pos + h + l <= end,
            (Err(e), Err(se)) => e == se,
            _ => false,
        },
{
    let (bt, h, l) = read_tlv(b, pos, end)?;
    if bt != t {
        return Err(DerError::MalformedTag);
    }
    Ok((h, l))
}

/// Reads the version INTEGER at `pos`; returns it with the position after it.
pub fn decode_version(b: &[u8], pos: usize, end: usize) -> (r: Result<(Version, usize), DerError>)
    requires
        pos <= end <= b@.len(),
    ensures
        match (r, spec_version(b@.subrange(pos as int, end as int))) {
            (Ok((v, np)), Ok((sv, n))) => v == sv && np == pos + n && np <= end,
            (Err(e), Err(se)) => e == se,
            _ => false,
        },
{
    let (h, l) = expect_tag(b, pos, end, TAG_INTEGER)?;
    let start = pos + h;
    let ghost c = b@.subrange(start as int, (start + l) as int);
    proof {
        assert(b@.subrange(pos as int, end as int).subrange(h as int, (h + l) as int) =~= c);
    }
    if l == 0 {
        return Err(DerError::MalformedInteger);
    }
    if l >= 2 && ((b[start] == 0 && b[start + 1] < 0x80) || (b[start] == 0xFF && b[start + 1] >= 0x80)) {
        return Err(DerError::MalformedInteger);
    }
    proof {
        lemma_integer_bounds(c);
    }
    if l > 8 {
        if b[start] >= 0x80 {
            return Err(DerError::InvalidVersion(i64::MIN));
        } else {
            return Err(DerError::InvalidVersion(i64::MAX));
        }
    }
    let mut v: i128 = 0;
    let mut p: i128 = 1;
    let mut i: usize = 0;
    proof {
        reveal_with_fuel(pow256, 9);
    }
    while i < l
        invariant
            i <= l <= 8,
            start + l <= b@.len(),
            c == b@.subrange(start as int, (start + l) as int),
            v == be_value(c.take(i as int)),
            start + l <= usize::MAX,
            p == pow256(i as nat),
            0 <= v < p,
        decreases l - i,
    {
        proof {
            assert(c.take(i + 1).drop_last() =~= c.take(i as int));
            lemma_pow256_mono(i as nat, 7);
            reveal_with_fuel(pow256, 9);
        }
        v = v * 256 + b[start + i] as i128;
        p = p * 256;
        i = i + 1;
    }
    proof {
        assert(c.take(l as int) =~= c);
    }
    let value: i128 = if b[start] >= 0x80 { v - p } else { v };
    assert(value == integer_value(c));
    if 1 <= value && value <= 5 {
        let ver = Version::from_byte(value as u8)?;
        Ok((ver, start + l))
    } else {
        Err(DerError::InvalidVersion(value as i64))
    }
}

/// Copies a vector of octets.
fn copy_vec(v: &Vec<u8>) -> (r: Vec<u8>)
    ensures
        r@ == v@,
{
    copy_range(v.as_slice(), 0, v.len())
}

/// Reads the elements of a digest-algorithm SET OF from its content octets `b[pos..end]`,
/// refusing any that is not an `AlgorithmIdentifier` and any order but the canonical one.
pub fn decode_digest_set(b: &[u8], pos: usize, end: usize) -> (r: Result<Vec<Vec<u8>>, DerError>)
    requires
        pos <= end <= b@.len(),
    ensures
        match (r, spec_digest_set(b@.subrange(pos as int, end as int))) {
            (Ok(v), Ok(sv)) => octets_view(v@) == sv,
            (Err(e), Err(se)) => e == se,
            _ => false,
        },
{
    let elems = read_elems(b, pos, end)?;
    let ghost s = octets_view(elems@);
    assert(spec_elems(b@.subrange(pos as int, end as int)) == Ok::<Seq<Seq<u8>>, DerError>(s));
    let mut i: usize = 0;
    while i < elems.len()
        invariant
            i <= elems@.len(),
            s == octets_view(elems@),
            spec_elems(b@.subrange(pos as int, end as int)) == Ok::<Seq<Seq<u8>>, DerError>(s),
            forall|j: int| 0 <= j < i ==> algorithm_identifier_accepts(#[trigger] s[j]),
        decreases elems@.len() - i,
    {
        if !algorithm_identifier_valid(elems[i].as_slice()) {
            assert(!algorithm_identifier_accepts(s[i as int]));
            return Err(DerError::MalformedAlgorithmIdentifier);
        }
        i = i + 1;
    }
    let mut k: usize = 1;
    while k < elems.len()
        invariant
            1 <= k,
            s == octets_view(elems@),
            spec_elems(b@.subrange(pos as int, end as int)) == Ok::<Seq<Seq<u8>>, DerError>(s),
            forall|j: int| 0 <= j < s.len() ==> algorithm_identifier_accepts(#[trigger] s[j]),
            forall|j: int| 0 < j < k && j < s.len() ==> #[trigger] lex_lt(s[j - 1], s[j]),
        decreases elems@.len() - k,
    {
        if !less_than(elems[k - 1].as_slice(), elems[k].as_slice()) {
            assert(!lex_lt(s[k - 1], s[k as int]));
            return Err(DerError::NonCanonicalSetOrdering);
        }
        k = k + 1;
    }
    Ok(elems)
}

/// Reads the content inside the EXPLICIT `[0]` wrapper, `b[pos..end]`.
pub fn decode_content(b: &[u8], pos: usize, end: usize) -> (r: Result<Content, DerError>)
    requires
        pos <= end <= b@.len(),
    ensures
        match (r, spec_content(b@.subrange(pos as int, end as int))) {
            (Ok(c), Ok(sc)) => c@ == sc,
            (Err(e), Err(se)) => e == se,
            _ => false,
        },
{
    if pos == end {
        return Err(DerError::MalformedContentWrapper);
    }
    let (t, h, l) = read_tlv(b, pos, end)?;
    if pos + h + l != end {
        return Err(DerError::MalformedContentWrapper);
    }
    if t == TAG_OCTET_STRING {
        proof {
            assert(b@.subrange(pos as int, end as int).subrange(h as int, (h + l) as int)
                =~= b@.subrange(pos + h, pos + h + l));
        }
        Ok(Content::OctetString(copy_range(b, pos + h, pos + h + l)))
    } else {
        Ok(Content::Custom(copy_range(b, pos, end)))
    }
}

/// Reads an `EncapsulatedContentInfo` from its content octets `b[pos..end]`.
pub fn decode_eci(b: &[u8], pos: usize, end: usize) -> (r: Result<EncapsulatedContentInfo, DerError>)
    requires
        pos <= end <= b@.len(),
    ensures
        match (r, spec_eci(b@.subrange(pos as int, end as int))) {
            (Ok(c), Ok(sc)) => c@ == sc,
            (Err(e), Err(se)) => e == se,
            _ => false,
        },
{
    reveal(spec_eci);
    let ghost body = b@.subrange(pos as int, end as int);
    let (h, l) = expect_tag(b, pos, end, TAG_OID)?;
    let p = pos + h + l;
    let content_type = copy_range(b, pos + h, p);
    proof {
        assert(body.subrange(h as int, (h + l) as int) =~= content_type@);
        assert(body.skip((h + l) as int) =~= b@.subrange(p as int, end as int));
    }
    if !oid_valid(content_type.as_slice()) {
        return Err(DerError::MalformedObjectIdentifier);
    }
    if p == end {
        return Ok(EncapsulatedContentInfo { content_type, content: None });
    }
    let (t, h2, l2) = read_tlv(b, p, end)?;
    if t != TAG_CONTEXT_0 || p + h2 + l2 != end {
        return Err(DerError::TrailingData);
    }
    proof {
        assert(b@.subrange(p as int, end as int).skip(h2 as int) =~= b@.subrange(p + h2, end as int));
    }
    let c = decode_content(b, p + h2, end)?;
    Ok(EncapsulatedContentInfo { content_type, content: Some(c) })
}

/// Why a certificate-set element is refused, if it is.
fn cert_error(e: &Vec<u8>) -> (r: Option<DerError>)
    requires
        e@.len() > 0,
    ensures
        r == spec_cert_error(e@),
{
    let t = e[0];
    if t == TAG_SEQUENCE {
        None
    } else if t == 0x80 || t == 0x81 || t == 0x82 || t == 0x83 || t == 0xA0 || t == 0xA1 || t == 0xA2
        || t == 0xA3 {
        Some(DerError::UnsupportedCertificateChoice(t % 32))
    } else {
        Some(DerError::MalformedTag)
    }
}

/// Reads the certificates of an IMPLICIT `[0]` certificate set from its content octets.
pub fn decode_cert_set(b: &[u8], pos: usize, end: usize) -> (r: Result<Vec<CertificateChoices>, DerError>)
    requires
        pos <= end <= b@.len(),
    ensures
        match (r, spec_cert_set(b@.subrange(pos as int, end as int))) {
            (Ok(v), Ok(sv)) => certs_view(v@) == sv,
            (Err(e), Err(se)) => e == se,
            _ => false,
        },
{
    let elems = read_elems(b, pos, end)?;
    let ghost s = octets_view(elems@);
    proof {
        lemma_elems_nonempty(b@.subrange(pos as int, end as int));
    }
    let mut out: Vec<CertificateChoices> = Vec::new();
    let mut i: usize = 0;
    assert(s.skip(0) =~= s);
    while i < elems.len()
        invariant
            i <= elems@.len(),
            s == octets_view(elems@),
            spec_elems(b@.subrange(pos as int, end as int)) == Ok::<Seq<Seq<u8>>, DerError>(s),
            forall|j: int| 0 <= j < s.len() ==> (#[trigger] s[j]).len() > 0,
            spec_certs_error(s) == spec_certs_error(s.skip(i as int)),
            certs_view(out@) == s.take(i as int),
        decreases elems@.len() - i,
    {
        assert(s.skip(i as int).skip(1) =~= s.skip(i + 1));
        if let Some(e) = cert_error(&elems[i]) {
            return Err(e);
        }
        let ghost before = certs_view(out@);
        out.push(CertificateChoices::Certificate(copy_vec(&elems[i])));
        assert(certs_view(out@) =~= before.push(s[i as int]));
        assert(s.take(i + 1) =~= s.take(i as int).push(s[i as int]));
        i = i + 1;
    }
    assert(s.skip(i as int).len() == 0);
    assert(s.take(i as int) =~= s);
    Ok(out)
}

/// Every element that `spec_elems` splits off holds at least a header.
pub proof fn lemma_elems_nonempty(b: Seq<u8>)
    requires
        spec_elems(b) is Ok,
    ensures
        forall|j: int| 0 <= j < spec_elems(b)->Ok_0.len() ==> (#[trigger] spec_elems(b)->Ok_0[j]).len() > 0,
    decreases b.len(),
{
    if b.len() > 0 {
        let (t, h, l) = spec_tlv(b)->Ok_0;
        lemma_elems_nonempty(b.skip((h + l) as int));
        let r = spec_elems(b.skip((h + l) as int))->Ok_0;
        assert forall|j: int| 0 <= j < spec_elems(b)->Ok_0.len() implies (#[trigger] spec_elems(b)->Ok_0[j]).len() > 0 by {
            if j > 0 {
                assert(spec_elems(b)->Ok_0[j] == r[j - 1]);
            }
        }
    }
}

/// Reads the optional certificates field from `b[pos..end]`, the rest of the SEQUENCE,
/// and refuses whatever follows it.
fn decode_tail(b: &[u8], pos: usize, end: usize) -> (r: Result<Option<Vec<CertificateChoices>>, DerError>)
    requires
        pos <= end <= b@.len(),
    ensures
        match (r, spec_tail(b@.subrange(pos as int, end as int))) {
            (Ok(None), Ok(None)) => true,
            (Ok(Some(v)), Ok(Some(sv))) => certs_view(v@) == sv,
            (Err(e), Err(se)) => e == se,
            _ => false,
        },
{
    reveal(spec_tail);
    if pos == end {
        return Ok(None);
    }
    if b[pos] != TAG_CONTEXT_0 {
        return Err(DerError::UnsupportedField);
    }
    let (t, h, l) = read_tlv(b, pos, end)?;
    proof {
        assert(b@.subrange(pos as int, end as int).subrange(h as int, (h + l) as int)
            =~= b@.subrange(pos + h, pos + h + l));
    }
    let certs = decode_cert_set(b, pos + h, pos + h + l)?;
    if pos + h + l < end {
        return Err(DerError::UnsupportedField);
    }
    Ok(Some(certs))
}

/// Reads the fields after the digest algorithms from `b[pos..end]`.
fn decode_rest(b: &[u8], pos: usize, end: usize, version: Version, digest_algorithms: Vec<Vec<u8>>) -> (r: Result<SignedDataContent, DerError>)
    requires
        pos <= end <= b@.len(),
    ensures
        match (r, spec_rest(b@.subrange(pos as int, end as int), version, octets_view(digest_algorithms@))) {
            (Ok(v), Ok(sv)) => v@ == sv,
            (Err(e), Err(se)) => e == se,
            _ => false,
        },
{
    reveal(spec_rest);
    let (h, l) = expect_tag(b, pos, end, TAG_SEQUENCE)?;
    let p = pos + h + l;
    proof {
        assert(b@.subrange(pos as int, end as int).subrange(h as int, (h + l) as int)
            =~= b@.subrange(pos + h, p as int));
        assert(b@.subrange(pos as int, end as int).skip((h + l) as int)
            =~= b@.subrange(p as int, end as int));
    }
    let encapsulated_content_info = decode_eci(b, pos + h, p)?;
    let certificates = decode_tail(b, p, end)?;
    Ok(SignedDataContent { version, digest_algorithms, encapsulated_content_info, certificates })
}

/// Reads a `SignedData` from the content octets of its SEQUENCE, `b[pos..end]`.
fn decode_body(b: &[u8], pos: usize, end: usize) -> (r: Result<SignedDataContent, DerError>)
    requires
        pos <= end <= b@.len(),
    ensures
        match (r, spec_body(b@.subrange(pos as int, end as int))) {
            (Ok(v), Ok(sv)) => v@ == sv,
            (Err(e), Err(se)) => e == se,
            _ => false,
        },
{
    let ghost body = b@.subrange(pos as int, end as int);
    reveal(spec_body);
    let (version, p1) = decode_version(b, pos, end)?;
    proof {
        assert(body.skip(p1 - pos) =~= b@.subrange(p1 as int, end as int));
    }
    let (h2, l2) = expect_tag(b, p1, end, TAG_SET)?;
    let p2 = p1 + h2 + l2;
    proof {
        assert(b@.subrange(p1 as int, end as int).subrange(h2 as int, (h2 + l2) as int)
            =~= b@.subrange(p1 + h2, p2 as int));
        assert(b@.subrange(p1 as int, end as int).skip((h2 + l2) as int)
            =~= b@.subrange(p2 as int, end as int));
    }
    let digest_algorithms = decode_digest_set(b, p1 + h2, p2)?;
    decode_rest(b, p2, end, version, digest_algorithms)
}

impl SignedDataContent {
    /// Decodes a buffer that holds exactly one DER `SignedData` SEQUENCE.
    ///
    /// Fields are read in their fixed order, each optional or alternative field chosen by
    /// its tag alone. `crls`, `signerInfos` and any other bytes after the certificates are
    /// refused with `UnsupportedField`; bytes after the SEQUENCE with `TrailingData`.
    pub fn from_der(b: &[u8]) -> (r: Result<SignedDataContent, DerError>)
        ensures
            match (r, spec_decode(b@)) {
                (Ok(v), Ok(sv)) => v@ == sv,
                (Err(e), Err(se)) => e == se,
                _ => false,
            },
            r matches Ok(v) ==> valid(v@) && encodable(v@),
    {
        proof {
            if spec_decode(b@) is Ok {
                lemma_decode_canonical(b@);
            }
        }
        let end = b.len();
        assert(b@.subrange(0, end as int) =~= b@);
        let (h, l) = expect_tag(b, 0, end, TAG_SEQUENCE)?;
        if h + l < end {
            return Err(DerError::TrailingData);
        }
        decode_body(b, h, end)
    }
}

// ---------------------------------------------------------------- encoding

/// The wire form inside the EXPLICIT `[0]` wrapper: the inner tag is kept.
pub open spec fn enc_content(c: ContentView) -> Seq<u8> {
    match c {
        ContentView::OctetString(o) => tlv(TAG_OCTET_STRING, o),
        ContentView::Custom(x) => x,
    }
}

/// The content octets of an `EncapsulatedContentInfo` SEQUENCE.
pub open spec fn enc_eci_body(e: EncapsulatedContentInfoView) -> Seq<u8> {
    tlv(TAG_OID, e.content_type) + match e.content {
        None => Seq::<u8>::empty(),
        Some(c) => tlv(TAG_CONTEXT_0, enc_content(c)),
    }
}

/// The IMPLICIT `[0]` certificate set, or nothing when it is absent.
pub open spec fn enc_certs(c: Option<Seq<Seq<u8>>>) -> Seq<u8> {
    match c {
        None => Seq::<u8>::empty(),
        Some(s) => tlv(TAG_CONTEXT_0, concat(s)),
    }
}

/// The content octets of the `SignedData` SEQUENCE, fields in their fixed order.
pub open spec fn enc_body(v: SignedDataContentView) -> Seq<u8> {
    tlv(TAG_INTEGER, seq![v.version.spec_byte()]) + tlv(TAG_SET, concat(v.digest_algorithms)) + tlv(
        TAG_SEQUENCE,
        enc_eci_body(v.encapsulated_content_info),
    ) + enc_certs(v.certificates)
}

/// The DER encoding of a `SignedData`.
pub open spec fn spec_encode(v: SignedDataContentView) -> Seq<u8> {
    tlv(TAG_SEQUENCE, enc_body(v))
}

/// Whether every length in the encoding is at most `MAX_LEN`.
pub open spec fn encodable(v: SignedDataContentView) -> bool {
    enc_body(v).len() <= MAX_LEN
}

/// Appending one encoding to a concatenation.
pub proof fn lemma_concat_push(s: Seq<Seq<u8>>, x: Seq<u8>)
    ensures
        concat(s.push(x)) == concat(s) + x,
    decreases s.len(),
{
    if s.len() == 0 {
        assert(s.push(x).skip(1) =~= Seq::<Seq<u8>>::empty());
        assert(concat(s.push(x).skip(1)) == Seq::<u8>::empty());
        assert(concat(s.push(x)) =~= concat(s) + x);
    } else {
        assert(s.push(x).skip(1) =~= s.skip(1).push(x));
        lemma_concat_push(s.skip(1), x);
        assert(s.push(x)[0] == s[0]);
        assert(concat(s.push(x)) =~= concat(s) + x);
    }
}

/// Appends the element with tag `t` and content `c`, unless its length does not fit.
fn push_tlv(out: &mut Vec<u8>, t: u8, c: &[u8]) -> (r: Result<(), DerError>)
    ensures
        r is Ok <==> c@.len() <= MAX_LEN,
        r is Ok ==> final(out)@ == old(out)@ + tlv(t, c@),
        r matches Err(e) ==> e == DerError::MalformedLength,
{
    if c.len() as u64 > MAX_LEN {
        return Err(DerError::MalformedLength);
    }
    push_header(out, t, c.len() as u64);
    push_all(out, c);
    assert(final(out)@ =~= old(out)@ + tlv(t, c@));
    Ok(())
}

/// Appends each encoding of `v` in order.
fn push_concat(out: &mut Vec<u8>, v: &Vec<Vec<u8>>)
    ensures
        final(out)@ == old(out)@ + concat(octets_view(v@)),
{
    let ghost s = octets_view(v@);
    let mut i: usize = 0;
    assert(s.take(0) =~= Seq::<Seq<u8>>::empty());
    assert(old(out)@ + concat(s.take(0)) =~= old(out)@);
    while i < v.len()
        invariant
            i <= v@.len(),
            s == octets_view(v@),
            out@ == old(out)@ + concat(s.take(i as int)),
        decreases v@.len() - i,
    {
        proof {
            assert(s.take(i + 1) =~= s.take(i as int).push(s[i as int]));
            lemma_concat_push(s.take(i as int), s[i as int]);
        }
        push_all(out, v[i].as_slice());
        assert(out@ =~= old(out)@ + concat(s.take(i + 1)));
        i = i + 1;
    }
    assert(s.take(i as int) =~= s);
}

/// Appends the encoding of each certificate in order.
fn push_certs(out: &mut Vec<u8>, v: &Vec<CertificateChoices>)
    ensures
        final(out)@ == old(out)@ + concat(certs_view(v@)),
{
    let ghost s = certs_view(v@);
    let mut i: usize = 0;
    assert(s.take(0) =~= Seq::<Seq<u8>>::empty());
    assert(old(out)@ + concat(s.take(0)) =~= old(out)@);
    while i < v.len()
        invariant
            i <= v@.len(),
            s == certs_view(v@),
            out@ == old(out)@ + concat(s.take(i as int)),
        decreases v@.len() - i,
    {
        proof {
            assert(s.take(i + 1) =~= s.take(i as int).push(s[i as int]));
            lemma_concat_push(s.take(i as int), s[i as int]);
        }
        match &v[i] {
            CertificateChoices::Certificate(c) => push_all(out, c.as_slice()),
        }
        assert(out@ =~= old(out)@ + concat(s.take(i + 1)));
        i = i + 1;
    }
    assert(s.take(i as int) =~= s);
}

impl EncapsulatedContentInfo {
    /// The content octets of this `EncapsulatedContentInfo`'s SEQUENCE.
    pub fn encode_body(&self) -> (r: Result<Vec<u8>, DerError>)
        ensures
            r is Ok <==> enc_eci_body(self@).len() <= MAX_LEN,
            r matches Ok(o) ==> o@ == enc_eci_body(self@),
            r matches Err(e) ==> e == DerError::MalformedLength,
    {
        let mut out: Vec<u8> = Vec::new();
        push_tlv(&mut out, TAG_OID, self.content_type.as_slice())?;
        match &self.content {
            None => {
                assert(out@ =~= enc_eci_body(self@));
            },
            Some(Content::OctetString(o)) => {
                let mut inner: Vec<u8> = Vec::new();
                push_tlv(&mut inner, TAG_OCTET_STRING, o.as_slice())?;
                push_tlv(&mut out, TAG_CONTEXT_0, inner.as_slice())?;
                assert(out@ =~= enc_eci_body(self@));
            },
            Some(Content::Custom(x)) => {
                push_tlv(&mut out, TAG_CONTEXT_0, x.as_slice())?;
                assert(out@ =~= enc_eci_body(self@));
            },
        }
        if out.len() as u64 > MAX_LEN {
            return Err(DerError::MalformedLength);
        }
        Ok(out)
    }
}

impl SignedDataContent {
    /// Encodes this value in DER: the fields in their fixed order, an absent certificate
    /// set omitted, every length computed from the bytes below it.
    ///
    /// A value that decoding could not have produced is refused with the error of
    /// `validate` (so an unordered or duplicated digest-algorithm set gives
    /// `NonCanonicalSetOrdering`); a valid value fails only with `MalformedLength`, exactly
    /// when some length exceeds `MAX_LEN`. What is written decodes
    /// back to this value.
    pub fn to_der(&self) -> (r: Result<Vec<u8>, DerError>)
        ensures
            r is Ok <==> valid(self@) && encodable(self@),
            r matches Ok(o) ==> o@ == spec_encode(self@) && spec_decode(o@) == Ok::<
                SignedDataContentView,
                DerError,
            >(self@),
            r matches Err(e) ==> e == match spec_validate(self@) {
                Err(x) => x,
                Ok(_) => DerError::MalformedLength,
            },
    {
        self.validate()?;
        let mut body: Vec<u8> = Vec::new();
        push_header(&mut body, TAG_INTEGER, 1);
        body.push(self.version.to_byte());
        assert(body@ =~= tlv(TAG_INTEGER, seq![self.version.spec_byte()]));
        let mut algs: Vec<u8> = Vec::new();
        push_concat(&mut algs, &self.digest_algorithms);
        push_tlv(&mut body, TAG_SET, algs.as_slice())?;
        let eci = self.encapsulated_content_info.encode_body()?;
        push_tlv(&mut body, TAG_SEQUENCE, eci.as_slice())?;
        match &self.certificates {
            None => {},
            Some(cs) => {
                let mut c: Vec<u8> = Vec::new();
                push_certs(&mut c, cs);
                push_tlv(&mut body, TAG_CONTEXT_0, c.as_slice())?;
            },
        }
        assert(body@ =~= enc_body(self@));
        let mut out: Vec<u8> = Vec::new();
        push_tlv(&mut out, TAG_SEQUENCE, body.as_slice())?;
        proof {
            lemma_round_trip(self@);
        }
        Ok(out)
    }
}

// ---------------------------------------------------------------- laws

proof fn lemma_version_byte(v: Version)
    ensures
        Version::spec_from_byte(v.spec_byte()) == Some(v),
        minimal_integer(seq![v.spec_byte()]),
        integer_value(seq![v.spec_byte()]) == v.spec_byte(),
{
    reveal_with_fuel(be_value, 2);
    assert(seq![v.spec_byte()].drop_last() =~= Seq::<u8>::empty());
}

proof fn lemma_version_canonical(c: Seq<u8>)
    requires
        minimal_integer(c),
        1 <= integer_value(c) <= 5,
    ensures
        Version::spec_from_byte(integer_value(c) as u8) is Some,
        c == seq![(Version::spec_from_byte(integer_value(c) as u8)->0).spec_byte()],
{
    lemma_integer_bounds(c);
    reveal_with_fuel(be_value, 2);
    assert(c.drop_last() =~= Seq::<u8>::empty());
    assert(c =~= seq![c[0]]);
}

proof fn lemma_content_round_trip(c: ContentView)
    requires
        enc_content(c).len() <= MAX_LEN,
        c matches ContentView::Custom(x) ==> single_tlv(x) && x[0] != TAG_OCTET_STRING,
    ensures
        spec_content(enc_content(c)) == Ok::<ContentView, DerError>(c),
{
    match c {
        ContentView::OctetString(o) => {
            lemma_tlv_parse(TAG_OCTET_STRING, o, Seq::<u8>::empty());
            assert(tlv(TAG_OCTET_STRING, o) + Seq::<u8>::empty() =~= tlv(TAG_OCTET_STRING, o));
        },
        ContentView::Custom(x) => {
            lemma_tlv_prefix(x, Seq::<u8>::empty());
        },
    }
}

proof fn lemma_eci_round_trip(e: EncapsulatedContentInfoView)
    requires
        enc_eci_body(e).len() <= MAX_LEN,
        oid_accepts(e.content_type),
        e.content matches Some(ContentView::Custom(x)) ==> single_tlv(x) && x[0] != TAG_OCTET_STRING,
    ensures
        spec_eci(enc_eci_body(e)) == Ok::<EncapsulatedContentInfoView, DerError>(e),
{
    reveal(spec_eci);
    let tail = match e.content {
        None => Seq::<u8>::empty(),
        Some(c) => tlv(TAG_CONTEXT_0, enc_content(c)),
    };
    lemma_tlv_parse(TAG_OID, e.content_type, tail);
    match e.content {
        None => {},
        Some(c) => {
            lemma_tlv_parse(TAG_CONTEXT_0, enc_content(c), Seq::<u8>::empty());
            assert(tail + Seq::<u8>::empty() =~= tail);
            lemma_content_round_trip(c);
            let h2 = (tail.len() - enc_content(c).len()) as int;
            assert(tail.skip(h2) =~= enc_content(c));
        },
    }
}

proof fn lemma_certs_error_none(s: Seq<Seq<u8>>)
    requires
        forall|i: int| 0 <= i < s.len() ==> (#[trigger] s[i]).len() > 0 && s[i][0] == TAG_SEQUENCE,
    ensures
        spec_certs_error(s) is None,
    decreases s.len(),
{
    if s.len() > 0 {
        let tail = s.skip(1);
        assert forall|i: int| 0 <= i < tail.len() implies (#[trigger] tail[i]).len() > 0 && tail[i][0] == TAG_SEQUENCE by {
            assert(tail[i] == s[i + 1]);
        }
        assert(s[0].len() > 0 && s[0][0] == TAG_SEQUENCE);
        lemma_certs_error_none(tail);
    }
}

proof fn lemma_tail_round_trip(c: Option<Seq<Seq<u8>>>)
    requires
        enc_certs(c).len() <= MAX_LEN,
        c matches Some(cs) ==> forall|i: int|
            0 <= i < cs.len() ==> single_tlv(#[trigger] cs[i]) && cs[i][0] == TAG_SEQUENCE,
    ensures
        spec_tail(enc_certs(c)) == Ok::<Option<Seq<Seq<u8>>>, DerError>(c),
{
    reveal(spec_tail);
    match c {
        None => {},
        Some(cs) => {
            lemma_tlv_parse(TAG_CONTEXT_0, concat(cs), Seq::<u8>::empty());
            assert(tlv(TAG_CONTEXT_0, concat(cs)) + Seq::<u8>::empty() =~= tlv(TAG_CONTEXT_0, concat(cs)));
            assert forall|i: int| 0 <= i < cs.len() implies single_tlv(#[trigger] cs[i]) by {}
            lemma_elems_concat(cs);
            assert forall|i: int| 0 <= i < cs.len() implies (#[trigger] cs[i]).len() > 0 && cs[i][0] == TAG_SEQUENCE by {
                lemma_tlv_prefix(cs[i], Seq::<u8>::empty());
            }
            lemma_certs_error_none(cs);
        },
    }
}

proof fn lemma_digest_round_trip(a: Seq<Seq<u8>>)
    requires
        forall|i: int| 0 <= i < a.len() ==> single_tlv(#[trigger] a[i]) && algorithm_identifier_accepts(a[i]),
        strictly_ascending(a),
    ensures
        spec_digest_set(concat(a)) == Ok::<Seq<Seq<u8>>, DerError>(a),
{
    assert forall|i: int| 0 <= i < a.len() implies single_tlv(#[trigger] a[i]) by {}
    lemma_elems_concat(a);
    assert forall|i: int| 0 <= i < a.len() implies algorithm_identifier_accepts(#[trigger] a[i]) by {}
}

proof fn lemma_rest_round_trip(v: SignedDataContentView)
    requires
        valid(v),
        enc_eci_body(v.encapsulated_content_info).len() + enc_certs(v.certificates).len() <= MAX_LEN,
    ensures
        spec_rest(
            tlv(TAG_SEQUENCE, enc_eci_body(v.encapsulated_content_info)) + enc_certs(v.certificates),
            v.version,
            v.digest_algorithms,
        ) == Ok::<SignedDataContentView, DerError>(v),
{
    reveal(spec_rest);
    lemma_tlv_parse(TAG_SEQUENCE, enc_eci_body(v.encapsulated_content_info), enc_certs(v.certificates));
    lemma_eci_round_trip(v.encapsulated_content_info);
    lemma_tail_round_trip(v.certificates);
}

#[verifier::rlimit(60)]
/// Round trip: a valid value whose lengths fit decodes from its own encoding to
/// itself, field for field.
pub proof fn lemma_round_trip(v: SignedDataContentView)
    requires
        valid(v),
        encodable(v),
    ensures
        spec_decode(spec_encode(v)) == Ok::<SignedDataContentView, DerError>(v),
{
    let body = enc_body(v);
    let vb = tlv(TAG_INTEGER, seq![v.version.spec_byte()]);
    let algs = tlv(TAG_SET, concat(v.digest_algorithms));
    let rest = tlv(TAG_SEQUENCE, enc_eci_body(v.encapsulated_content_info)) + enc_certs(v.certificates);
    assert(body =~= vb + (algs + rest));
    lemma_tlv_parse(TAG_SEQUENCE, body, Seq::<u8>::empty());
    assert(spec_encode(v) + Seq::<u8>::empty() =~= spec_encode(v));
    lemma_tlv_parse(TAG_INTEGER, seq![v.version.spec_byte()], algs + rest);
    lemma_version_byte(v.version);
    assert(spec_version(body) == Ok::<(Version, nat), DerError>((v.version, vb.len())));
    lemma_tlv_parse(TAG_SET, concat(v.digest_algorithms), rest);
    lemma_digest_round_trip(v.digest_algorithms);
    lemma_rest_round_trip(v);
    reveal(spec_body);
}


proof fn lemma_content_canonical(inner: Seq<u8>)
    requires
        spec_content(inner) is Ok,
    ensures
        enc_content(spec_content(inner)->Ok_0) == inner,
        spec_content(inner)->Ok_0 matches ContentView::Custom(x) ==> single_tlv(x) && x[0] != TAG_OCTET_STRING,
{
    lemma_tlv_canonical(inner);
    let (t, h, l) = spec_tlv(inner)->Ok_0;
    assert(inner.take((h + l) as int) =~= inner);
}

proof fn lemma_eci_canonical(body: Seq<u8>)
    requires
        spec_eci(body) is Ok,
    ensures
        ({
            let e = spec_eci(body)->Ok_0;
            &&& enc_eci_body(e) == body
            &&& oid_accepts(e.content_type)
            &&& e.content matches Some(ContentView::Custom(x)) ==> single_tlv(x) && x[0] != TAG_OCTET_STRING
        }),
{
    reveal(spec_eci);
    let e = spec_eci(body)->Ok_0;
    lemma_tlv_canonical(body);
    let (t, h, l) = spec_tlv(body)->Ok_0;
    let rest = body.skip((h + l) as int);
    assert(body =~= body.take((h + l) as int) + rest);
    if rest.len() > 0 {
        lemma_tlv_canonical(rest);
        let (t2, h2, l2) = spec_tlv(rest)->Ok_0;
        assert(rest.take((h2 + l2) as int) =~= rest);
        assert(rest.skip(h2 as int) =~= rest.subrange(h2 as int, (h2 + l2) as int));
        lemma_content_canonical(rest.skip(h2 as int));
    } else {
        assert(body.take((h + l) as int) + Seq::<u8>::empty() =~= body.take((h + l) as int));
    }
}

proof fn lemma_certs_error_tags(s: Seq<Seq<u8>>)
    requires
        spec_certs_error(s) is None,
        forall|i: int| 0 <= i < s.len() ==> (#[trigger] s[i]).len() > 0,
    ensures
        forall|i: int| 0 <= i < s.len() ==> (#[trigger] s[i])[0] == TAG_SEQUENCE,
    decreases s.len(),
{
    if s.len() > 0 {
        let tail = s.skip(1);
        assert forall|i: int| 0 <= i < tail.len() implies (#[trigger] tail[i]).len() > 0 by {
            assert(tail[i] == s[i + 1]);
        }
        lemma_certs_error_tags(tail);
        assert forall|i: int| 0 <= i < s.len() implies (#[trigger] s[i])[0] == TAG_SEQUENCE by {
            if i > 0 {
                assert(s[i] == tail[i - 1]);
            }
        }
    }
}

proof fn lemma_tail_canonical(r: Seq<u8>)
    requires
        spec_tail(r) is Ok,
    ensures
        enc_certs(spec_tail(r)->Ok_0) == r,
        spec_tail(r)->Ok_0 matches Some(cs) ==> forall|i: int|
            0 <= i < cs.len() ==> single_tlv(#[trigger] cs[i]) && cs[i][0] == TAG_SEQUENCE,
{
    reveal(spec_tail);
    if r.len() > 0 {
        lemma_tlv_canonical(r);
        let (t, h, l) = spec_tlv(r)->Ok_0;
        let body = r.subrange(h as int, (h + l) as int);
        assert(r.take((h + l) as int) =~= r);
        lemma_elems_canonical(body);
        lemma_elems_nonempty(body);
        let cs = spec_elems(body)->Ok_0;
        lemma_certs_error_tags(cs);
    } else {
        assert(r =~= Seq::<u8>::empty());
    }
}

proof fn lemma_rest_canonical(b: Seq<u8>, v: Version, algs: Seq<Seq<u8>>)
    requires
        spec_rest(b, v, algs) is Ok,
    ensures
        ({
            let w = spec_rest(b, v, algs)->Ok_0;
            &&& w.version == v
            &&& w.digest_algorithms == algs
            &&& tlv(TAG_SEQUENCE, enc_eci_body(w.encapsulated_content_info)) + enc_certs(w.certificates) == b
            &&& oid_accepts(w.encapsulated_content_info.content_type)
            &&& w.encapsulated_content_info.content matches Some(ContentView::Custom(x)) ==> single_tlv(x)
                && x[0] != TAG_OCTET_STRING
            &&& w.certificates matches Some(cs) ==> forall|i: int|
                0 <= i < cs.len() ==> single_tlv(#[trigger] cs[i]) && cs[i][0] == TAG_SEQUENCE
        }),
{
    reveal(spec_rest);
    lemma_tlv_canonical(b);
    let (t, h, l) = spec_tlv(b)->Ok_0;
    let eci = spec_eci(b.subrange(h as int, (h + l) as int))->Ok_0;
    let certs = spec_tail(b.skip((h + l) as int))->Ok_0;
    lemma_eci_canonical(b.subrange(h as int, (h + l) as int));
    lemma_tail_canonical(b.skip((h + l) as int));
    assert(b =~= b.take((h + l) as int) + b.skip((h + l) as int));
}

proof fn lemma_digest_canonical(body: Seq<u8>)
    requires
        spec_digest_set(body) is Ok,
    ensures
        ({
            let a = spec_digest_set(body)->Ok_0;
            &&& concat(a) == body
            &&& forall|i: int| 0 <= i < a.len() ==> single_tlv(#[trigger] a[i]) && algorithm_identifier_accepts(a[i])
            &&& strictly_ascending(a)
        }),
{
    lemma_elems_canonical(body);
}

#[verifier::rlimit(60)]
proof fn lemma_body_canonical(body: Seq<u8>)
    requires
        spec_body(body) is Ok,
    ensures
        valid(spec_body(body)->Ok_0),
        enc_body(spec_body(body)->Ok_0) == body,
{
    reveal(spec_body);
    let v = spec_body(body)->Ok_0;
    lemma_tlv_canonical(body);
    let (t1, h1, l1) = spec_tlv(body)->Ok_0;
    let (ver, n1) = spec_version(body)->Ok_0;
    assert(spec_expect(body, TAG_INTEGER) == Ok::<(nat, nat), DerError>((h1, l1)));
    assert(n1 == h1 + l1);
    let b1 = body.skip((h1 + l1) as int);
    lemma_tlv_canonical(b1);
    let (t2, h2, l2) = spec_tlv(b1)->Ok_0;
    assert(spec_expect(b1, TAG_SET) == Ok::<(nat, nat), DerError>((h2, l2)));
    let b2 = b1.skip((h2 + l2) as int);
    let algs = spec_digest_set(b1.subrange(h2 as int, (h2 + l2) as int))->Ok_0;
    assert(spec_rest(b2, ver, algs) == Ok::<SignedDataContentView, DerError>(v));
    lemma_digest_canonical(b1.subrange(h2 as int, (h2 + l2) as int));
    lemma_rest_canonical(b2, ver, algs);
    lemma_version_canonical(body.subrange(h1 as int, (h1 + l1) as int));
    assert(body.take((h1 + l1) as int) =~= tlv(TAG_INTEGER, seq![v.version.spec_byte()]));
    assert(body =~= body.take((h1 + l1) as int) + (b1.take((h2 + l2) as int) + b2));
    assert(enc_body(v) =~= body);
}

/// Canonical form: whatever decodes is a valid value whose lengths fit, and encoding it
/// again gives back exactly the octets it was decoded from.
pub proof fn lemma_decode_canonical(b: Seq<u8>)
    requires
        spec_decode(b) is Ok,
    ensures
        valid(spec_decode(b)->Ok_0),
        encodable(spec_decode(b)->Ok_0),
        spec_encode(spec_decode(b)->Ok_0) == b,
{
    lemma_tlv_canonical(b);
    let (t, h, l) = spec_tlv(b)->Ok_0;
    let body = b.subrange(h as int, (h + l) as int);
    assert(b.take((h + l) as int) =~= b);
    lemma_body_canonical(body);
}


/// Bounds: a buffer whose outer length claims more octets than it holds is refused with
/// `MalformedLength`, whatever those octets would have been.
pub proof fn lemma_length_overrun(b: Seq<u8>)
    requires
        spec_header(b) is Ok,
        spec_header(b)->Ok_0.1 + spec_header(b)->Ok_0.2 > b.len(),
    ensures
        spec_decode(b) == Err::<SignedDataContentView, DerError>(DerError::MalformedLength),
{
}

/// Trailing data: the encoding of a valid value followed by any further octets is
/// refused with `TrailingData`.
pub proof fn lemma_trailing_data(v: SignedDataContentView, extra: Seq<u8>)
    requires
        valid(v),
        encodable(v),
        extra.len() > 0,
    ensures
        spec_decode(spec_encode(v) + extra) == Err::<SignedDataContentView, DerError>(DerError::TrailingData),
{
    lemma_tlv_parse(TAG_SEQUENCE, enc_body(v), extra);
}

proof fn lemma_certs_error_at(s: Seq<Seq<u8>>, i: int)
    requires
        0 <= i < s.len(),
        forall|j: int| 0 <= j < i ==> (#[trigger] s[j]).len() > 0 && s[j][0] == TAG_SEQUENCE,
        s[i].len() > 0,
        0xA0 <= s[i][0] <= 0xA3 || 0x80 <= s[i][0] <= 0x83,
    ensures
        spec_certs_error(s) == Some(DerError::UnsupportedCertificateChoice(s[i][0] % 32)),
    decreases i,
{
    if i > 0 {
        let tail = s.skip(1);
        assert forall|j: int| 0 <= j < i - 1 implies (#[trigger] tail[j]).len() > 0 && tail[j][0] == TAG_SEQUENCE by {
            assert(tail[j] == s[j + 1]);
        }
        assert(s[0].len() > 0 && s[0][0] == TAG_SEQUENCE);
        lemma_certs_error_at(tail, i - 1);
    }
}

/// Unsupported certificate choices are explicit: in a certificate set of complete
/// elements, the first one tagged `[0]` to `[3]` (after only bare certificates) makes
/// the set fail with `UnsupportedCertificateChoice` and its tag number.
pub proof fn lemma_unsupported_certificate(s: Seq<Seq<u8>>, i: int)
    requires
        0 <= i < s.len(),
        forall|j: int| 0 <= j < s.len() ==> single_tlv(#[trigger] s[j]),
        forall|j: int| 0 <= j < i ==> (#[trigger] s[j])[0] == TAG_SEQUENCE,
        0xA0 <= s[i][0] <= 0xA3 || 0x80 <= s[i][0] <= 0x83,
    ensures
        spec_cert_set(concat(s)) == Err::<Seq<Seq<u8>>, DerError>(
            DerError::UnsupportedCertificateChoice(s[i][0] % 32),
        ),
{
    lemma_elems_concat(s);
    assert forall|j: int| 0 <= j < s.len() implies (#[trigger] s[j]).len() > 0 by {
        lemma_tlv_prefix(s[j], Seq::<u8>::empty());
    }
    lemma_certs_error_at(s, i);
}


/// Range rejection: a `SignedData` whose version INTEGER is the single octet `x`, with
/// `x` outside 1 to 5 (and below 0x80, so non-negative), is refused with
/// `InvalidVersion(x)`, whatever follows it.
pub proof fn lemma_invalid_version(b: Seq<u8>, x: u8)
    requires
        spec_expect(b, TAG_SEQUENCE) is Ok,
        spec_expect(b, TAG_SEQUENCE)->Ok_0.0 + spec_expect(b, TAG_SEQUENCE)->Ok_0.1 == b.len(),
        b.len() >= spec_expect(b, TAG_SEQUENCE)->Ok_0.0 + 3,
        b[spec_expect(b, TAG_SEQUENCE)->Ok_0.0 as int] == TAG_INTEGER,
        b[spec_expect(b, TAG_SEQUENCE)->Ok_0.0 + 1int] == 1,
        b[spec_expect(b, TAG_SEQUENCE)->Ok_0.0 + 2int] == x,
        !(1 <= x <= 5),
        x < 0x80,
    ensures
        spec_decode(b) == Err::<SignedDataContentView, DerError>(DerError::InvalidVersion(x as i64)),
{
    reveal(spec_body);
    let (h, l) = spec_expect(b, TAG_SEQUENCE)->Ok_0;
    let body = b.subrange(h as int, (h + l) as int);
    assert(body[0] == TAG_INTEGER && body[1] == 1 && body[2] == x);
    let c = body.subrange(2, 3);
    assert(c =~= seq![x]);
    reveal_with_fuel(be_value, 2);
    assert(seq![x].drop_last() =~= Seq::<u8>::empty());
    assert(integer_value(c) == x);
}


/// Whether `x` is exactly one complete DER element.
fn is_single_tlv(x: &[u8]) -> (r: bool)
    ensures
        r == single_tlv(x@),
{
    assert(x@.subrange(0, x@.len() as int) =~= x@);
    match read_tlv(x, 0, x.len()) {
        Ok((_t, h, l)) => h + l == x.len(),
        Err(_) => false,
    }
}

impl SignedDataContent {
    /// Checks that this value is one that decoding could have produced: each digest
    /// algorithm one accepted `AlgorithmIdentifier`, in strictly ascending order; an
    /// accepted content-type OID; custom content one element not tagged OCTET STRING;
    /// each certificate one SEQUENCE element.
    pub fn validate(&self) -> (r: Result<(), DerError>)
        ensures
            r == spec_validate(self@),
            r is Ok <==> valid(self@),
    {
        let algs = &self.digest_algorithms;
        let ghost a = octets_view(algs@);
        let mut i: usize = 0;
        while i < algs.len()
            invariant
                i <= algs@.len(),
                a == octets_view(algs@),
                a == self@.digest_algorithms,
                forall|j: int| 0 <= j < i ==> single_tlv(#[trigger] a[j]) && algorithm_identifier_accepts(a[j]),
            decreases algs@.len() - i,
        {
            if !is_single_tlv(algs[i].as_slice()) || !algorithm_identifier_valid(algs[i].as_slice()) {
                assert(!(single_tlv(a[i as int]) && algorithm_identifier_accepts(a[i as int])));
                return Err(DerError::MalformedAlgorithmIdentifier);
            }
            i = i + 1;
        }
        let mut k: usize = 1;
        while k < algs.len()
            invariant
                1 <= k,
                a == octets_view(algs@),
                a == self@.digest_algorithms,
                forall|j: int| 0 <= j < a.len() ==> single_tlv(#[trigger] a[j]) && algorithm_identifier_accepts(a[j]),
                forall|j: int| 0 < j < k && j < a.len() ==> #[trigger] lex_lt(a[j - 1], a[j]),
            decreases algs@.len() - k,
        {
            if !less_than(algs[k - 1].as_slice(), algs[k].as_slice()) {
                assert(!lex_lt(a[k - 1], a[k as int]));
                return Err(DerError::NonCanonicalSetOrdering);
            }
            k = k + 1;
        }
        if !oid_valid(self.encapsulated_content_info.content_type.as_slice()) {
            return Err(DerError::MalformedObjectIdentifier);
        }
        match &self.encapsulated_content_info.content {
            Some(Content::Custom(x)) => {
                if !is_single_tlv(x.as_slice()) || x[0] == TAG_OCTET_STRING {
                    return Err(DerError::MalformedContentWrapper);
                }
            },
            _ => {},
        }
        assert(spec_validate(self@) is Err ==> spec_validate(self@) == Err::<(), DerError>(DerError::MalformedTag));
        match &self.certificates {
            Some(cs) => {
                let ghost c = certs_view(cs@);
                let mut i: usize = 0;
                while i < cs.len()
                    invariant
                        i <= cs@.len(),
                        c == certs_view(cs@),
                        self@.certificates == Some(c),
                        spec_validate(self@) is Err ==> spec_validate(self@) == Err::<(), DerError>(DerError::MalformedTag),
                        forall|j: int| 0 <= j < i ==> single_tlv(#[trigger] c[j]) && c[j][0] == TAG_SEQUENCE,
                    decreases cs@.len() - i,
                {
                    match &cs[i] {
                        CertificateChoices::Certificate(x) => {
                            if !is_single_tlv(x.as_slice()) || x[0] != TAG_SEQUENCE {
                                assert(!(single_tlv(c[i as int]) && c[i as int][0] == TAG_SEQUENCE));
                                assert(c.len() == cs@.len());
                                assert(0 <= i < c.len());
                                assert(!(forall|j: int| 0 <= j < c.len() ==> single_tlv(#[trigger] c[j]) && c[j][0] == TAG_SEQUENCE)) by {
                                    assert(!(single_tlv(c[i as int]) && c[i as int][0] == TAG_SEQUENCE));
                                }
                                assert(!certificates_ok(c));
                                return Err(DerError::MalformedTag);
                            }
                        },
                    }
                    i = i + 1;
                }
            },
            None => {},
        }
        Ok(())
    }
}

} // verus!
