use pkcs7_signed::signed_data::{decode_content, decode_eci, decode_version};
use pkcs7_signed::{
    CertificateChoices, Content, DerError, EncapsulatedContentInfo, SignedDataContent, Version,
};

fn tlv(tag: u8, content: &[u8]) -> Vec<u8> {
    let mut out = vec![tag];
    let n = content.len();
    if n < 0x80 {
        out.push(n as u8);
    } else if n < 0x100 {
        out.push(0x81);
        out.push(n as u8);
    } else {
        out.push(0x82);
        out.push((n >> 8) as u8);
        out.push(n as u8);
    }
    out.extend_from_slice(content);
    out
}

fn cat(parts: &[&[u8]]) -> Vec<u8> {
    let mut out = Vec::new();
    for p in parts {
        out.extend_from_slice(p);
    }
    out
}

// id-data, 1.2.840.113549.1.7.1
const ID_DATA: [u8; 9] = [0x2a, 0x86, 0x48, 0x86, 0xf7, 0x0d, 0x01, 0x07, 0x01];

fn sha1() -> Vec<u8> {
    tlv(0x30, &tlv(0x06, &[0x2b, 0x0e, 0x03, 0x02, 0x1a]))
}

fn sha256() -> Vec<u8> {
    tlv(0x30, &tlv(0x06, &[0x60, 0x86, 0x48, 0x01, 0x65, 0x03, 0x04, 0x02, 0x01]))
}

fn version(v: u8) -> Vec<u8> {
    tlv(0x02, &[v])
}

fn eci_octets(payload: &[u8]) -> Vec<u8> {
    tlv(0x30, &cat(&[&tlv(0x06, &ID_DATA), &tlv(0xa0, &tlv(0x04, payload))]))
}

fn signed(parts: &[&[u8]]) -> Vec<u8> {
    tlv(0x30, &cat(parts))
}

fn fake_certificate(fill: u8) -> Vec<u8> {
    tlv(0x30, &cat(&[&tlv(0x30, &[fill; 4]), &tlv(0x03, &[0x00, fill])]))
}

fn scenario_a_bytes() -> Vec<u8> {
    signed(&[&version(1), &tlv(0x31, &sha256()), &eci_octets(b"hello")])
}

#[test]
fn scenario_a_octet_string_content() {
    let b = scenario_a_bytes();
    assert_eq!(b[0], 0x30);
    assert_eq!(b[1] as usize, b.len() - 2);
    let v = SignedDataContent::from_der(&b).unwrap();
    assert_eq!(v.version, Version::V1);
    assert_eq!(v.digest_algorithms, vec![sha256()]);
    assert_eq!(v.encapsulated_content_info.content_type, ID_DATA.to_vec());
    assert_eq!(
        v.encapsulated_content_info.content,
        Some(Content::OctetString(b"hello".to_vec()))
    );
    assert_eq!(v.certificates, None);
}

#[test]
fn scenario_b_custom_content_round_trips_bytes() {
    let inner = tlv(0x30, &cat(&[&tlv(0x02, &[0x07]), &tlv(0x0c, b"custom")]));
    let eci = tlv(0x30, &cat(&[&tlv(0x06, &ID_DATA), &tlv(0xa0, &inner)]));
    let b = signed(&[&version(1), &tlv(0x31, &sha256()), &eci]);
    let v = SignedDataContent::from_der(&b).unwrap();
    assert_eq!(
        v.encapsulated_content_info.content,
        Some(Content::Custom(inner.clone()))
    );
    assert_eq!(v.to_der().unwrap(), b);
}

#[test]
fn scenario_c_descending_digest_algorithms_rejected() {
    let b = signed(&[
        &version(1),
        &tlv(0x31, &cat(&[&sha256(), &sha1()])),
        &eci_octets(b"hello"),
    ]);
    assert_eq!(SignedDataContent::from_der(&b), Err(DerError::NonCanonicalSetOrdering));
}

#[test]
fn ascending_digest_algorithms_accepted() {
    let b = signed(&[
        &version(1),
        &tlv(0x31, &cat(&[&sha1(), &sha256()])),
        &eci_octets(b"hello"),
    ]);
    let v = SignedDataContent::from_der(&b).unwrap();
    assert_eq!(v.digest_algorithms, vec![sha1(), sha256()]);
}

#[test]
fn duplicate_digest_algorithms_rejected() {
    let b = signed(&[
        &version(1),
        &tlv(0x31, &cat(&[&sha256(), &sha256()])),
        &eci_octets(b"hello"),
    ]);
    assert_eq!(SignedDataContent::from_der(&b), Err(DerError::NonCanonicalSetOrdering));
}

#[test]
fn scenario_d_signer_infos_tail_rejected() {
    let signer_infos = tlv(0x31, &tlv(0x30, &version(1)));
    let b = signed(&[&version(1), &tlv(0x31, &sha256()), &eci_octets(b"hello"), &signer_infos]);
    assert_eq!(SignedDataContent::from_der(&b), Err(DerError::UnsupportedField));
}

#[test]
fn crls_field_rejected() {
    let crls = tlv(0xa1, &tlv(0x30, &[0x05, 0x00]));
    let b = signed(&[&version(1), &tlv(0x31, &sha256()), &eci_octets(b"hello"), &crls]);
    assert_eq!(SignedDataContent::from_der(&b), Err(DerError::UnsupportedField));
}

#[test]
fn signer_infos_after_certificates_rejected() {
    let certs = tlv(0xa0, &fake_certificate(1));
    let signer_infos = tlv(0x31, &[]);
    let b = signed(&[&version(1), &tlv(0x31, &sha256()), &eci_octets(b"x"), &certs, &signer_infos]);
    assert_eq!(SignedDataContent::from_der(&b), Err(DerError::UnsupportedField));
}

#[test]
fn version_zero_and_six_rejected() {
    for bad in [0u8, 6u8] {
        let b = signed(&[&version(bad), &tlv(0x31, &sha256()), &eci_octets(b"hello")]);
        assert_eq!(SignedDataContent::from_der(&b), Err(DerError::InvalidVersion(bad as i64)));
    }
}

#[test]
fn version_numbers() {
    assert_eq!(Version::from_byte(0), Err(DerError::InvalidVersion(0)));
    assert_eq!(Version::from_byte(6), Err(DerError::InvalidVersion(6)));
    assert_eq!(Version::from_byte(3), Ok(Version::V3));
    assert_eq!(Version::V5.to_byte(), 5);
    assert_eq!(Version::V1.to_byte(), 1);
}

fn with_version_content(content: &[u8]) -> Result<SignedDataContent, DerError> {
    let b = signed(&[&tlv(0x02, content), &tlv(0x31, &sha256()), &eci_octets(b"hello")]);
    SignedDataContent::from_der(&b)
}

#[test]
fn version_non_minimal_or_empty_rejected() {
    assert_eq!(with_version_content(&[0x00, 0x01]), Err(DerError::MalformedInteger));
    assert_eq!(with_version_content(&[0xff, 0x80]), Err(DerError::MalformedInteger));
    assert_eq!(with_version_content(&[]), Err(DerError::MalformedInteger));
}

#[test]
fn version_out_of_range_reports_value() {
    assert_eq!(with_version_content(&[0x00, 0x80]), Err(DerError::InvalidVersion(128)));
    assert_eq!(with_version_content(&[0x01, 0x01]), Err(DerError::InvalidVersion(257)));
    assert_eq!(with_version_content(&[0xff]), Err(DerError::InvalidVersion(-1)));
    assert_eq!(with_version_content(&[0x80]), Err(DerError::InvalidVersion(-128)));
    assert_eq!(with_version_content(&[0xff, 0x7f]), Err(DerError::InvalidVersion(-129)));
    assert_eq!(
        with_version_content(&[0x7f, 0xff, 0xff, 0xff, 0xff, 0xff, 0xff, 0xff]),
        Err(DerError::InvalidVersion(i64::MAX))
    );
    assert_eq!(
        with_version_content(&[0x80, 0, 0, 0, 0, 0, 0, 0]),
        Err(DerError::InvalidVersion(i64::MIN))
    );
    assert_eq!(
        with_version_content(&[0x01, 0, 0, 0, 0, 0, 0, 0, 0]),
        Err(DerError::InvalidVersion(i64::MAX))
    );
    assert_eq!(
        with_version_content(&[0x80, 0, 0, 0, 0, 0, 0, 0, 0]),
        Err(DerError::InvalidVersion(i64::MIN))
    );
    assert_eq!(with_version_content(&[0x05]).unwrap().version, Version::V5);
}

#[test]
fn outer_length_overrun_rejected() {
    let mut b = scenario_a_bytes();
    b[1] += 1;
    assert_eq!(SignedDataContent::from_der(&b), Err(DerError::MalformedLength));
    let mut c = scenario_a_bytes();
    c[1] = 0x7f;
    assert_eq!(SignedDataContent::from_der(&c), Err(DerError::MalformedLength));
}

#[test]
fn inner_length_overrun_rejected() {
    // the OCTET STRING claims six bytes where five remain in its wrapper
    let eci = tlv(0x30, &cat(&[&tlv(0x06, &ID_DATA), &tlv(0xa0, &[0x04, 0x06, b'h', b'e', b'l', b'l', b'o'])]));
    let b = signed(&[&version(1), &tlv(0x31, &sha256()), &eci]);
    assert_eq!(SignedDataContent::from_der(&b), Err(DerError::MalformedLength));
}

#[test]
fn truncated_input_rejected() {
    assert_eq!(SignedDataContent::from_der(&[]), Err(DerError::PrematureEof));
    assert_eq!(SignedDataContent::from_der(&[0x30]), Err(DerError::PrematureEof));
    assert_eq!(SignedDataContent::from_der(&[0x30, 0x82, 0x01]), Err(DerError::PrematureEof));
}

#[test]
fn non_minimal_and_indefinite_lengths_rejected() {
    let body = cat(&[&version(1), &tlv(0x31, &sha256()), &eci_octets(b"hello")]);
    let mut long = vec![0x30, 0x81, body.len() as u8];
    long.extend_from_slice(&body);
    assert_eq!(SignedDataContent::from_der(&long), Err(DerError::MalformedLength));
    let mut padded = vec![0x30, 0x82, 0x00, body.len() as u8];
    padded.extend_from_slice(&body);
    assert_eq!(SignedDataContent::from_der(&padded), Err(DerError::MalformedLength));
    let mut indefinite = vec![0x30, 0x80];
    indefinite.extend_from_slice(&body);
    indefinite.extend_from_slice(&[0x00, 0x00]);
    assert_eq!(SignedDataContent::from_der(&indefinite), Err(DerError::MalformedLength));
    let mut five = vec![0x30, 0x85, 0, 0, 0, 0, body.len() as u8];
    five.extend_from_slice(&body);
    assert_eq!(SignedDataContent::from_der(&five), Err(DerError::MalformedLength));
}

#[test]
fn wrong_tags_rejected() {
    let mut b = scenario_a_bytes();
    b[0] = 0x31;
    assert_eq!(SignedDataContent::from_der(&b), Err(DerError::MalformedTag));
    let mut h = scenario_a_bytes();
    h[0] = 0x3f;
    assert_eq!(SignedDataContent::from_der(&h), Err(DerError::MalformedTag));
    let no_set = signed(&[&version(1), &tlv(0x30, &sha256()), &eci_octets(b"hello")]);
    assert_eq!(SignedDataContent::from_der(&no_set), Err(DerError::MalformedTag));
}

#[test]
fn trailing_data_rejected() {
    let mut b = scenario_a_bytes();
    b.push(0x00);
    assert_eq!(SignedDataContent::from_der(&b), Err(DerError::TrailingData));
    let mut twice = scenario_a_bytes();
    twice.extend_from_slice(&scenario_a_bytes());
    assert_eq!(SignedDataContent::from_der(&twice), Err(DerError::TrailingData));
}

#[test]
fn bytes_after_content_wrapper_rejected() {
    let eci = tlv(0x30, &cat(&[&tlv(0x06, &ID_DATA), &tlv(0xa0, &tlv(0x04, b"a")), &tlv(0x04, b"b")]));
    let b = signed(&[&version(1), &tlv(0x31, &sha256()), &eci]);
    assert_eq!(SignedDataContent::from_der(&b), Err(DerError::TrailingData));
}

#[test]
fn certificate_context_one_rejected() {
    let certs = tlv(0xa0, &cat(&[&fake_certificate(1), &tlv(0xa1, &[0x05, 0x00])]));
    let b = signed(&[&version(3), &tlv(0x31, &sha256()), &eci_octets(b"x"), &certs]);
    assert_eq!(
        SignedDataContent::from_der(&b),
        Err(DerError::UnsupportedCertificateChoice(1))
    );
}

#[test]
fn certificate_other_tags_rejected() {
    let certs = tlv(0xa0, &tlv(0xa3, &[0x05, 0x00]));
    let b = signed(&[&version(3), &tlv(0x31, &sha256()), &eci_octets(b"x"), &certs]);
    assert_eq!(
        SignedDataContent::from_der(&b),
        Err(DerError::UnsupportedCertificateChoice(3))
    );
    let odd = tlv(0xa0, &tlv(0x04, &[0x00]));
    let c = signed(&[&version(3), &tlv(0x31, &sha256()), &eci_octets(b"x"), &odd]);
    assert_eq!(SignedDataContent::from_der(&c), Err(DerError::MalformedTag));
}

#[test]
fn certificates_decoded_in_order() {
    let certs = tlv(0xa0, &cat(&[&fake_certificate(2), &fake_certificate(1)]));
    let b = signed(&[&version(3), &tlv(0x31, &sha256()), &eci_octets(b"x"), &certs]);
    let v = SignedDataContent::from_der(&b).unwrap();
    assert_eq!(
        v.certificates,
        Some(vec![
            CertificateChoices::Certificate(fake_certificate(2)),
            CertificateChoices::Certificate(fake_certificate(1)),
        ])
    );
    assert_eq!(v.to_der().unwrap(), b);
}

#[test]
fn malformed_algorithm_identifier_rejected() {
    let not_alg = tlv(0x30, &tlv(0x02, &[0x01]));
    let b = signed(&[&version(1), &tlv(0x31, &not_alg), &eci_octets(b"hello")]);
    assert_eq!(
        SignedDataContent::from_der(&b),
        Err(DerError::MalformedAlgorithmIdentifier)
    );
}

#[test]
fn algorithm_identifier_with_parameters_accepted() {
    let with_null = tlv(0x30, &cat(&[&tlv(0x06, &[0x2b, 0x0e, 0x03, 0x02, 0x1a]), &[0x05, 0x00]]));
    let b = signed(&[&version(1), &tlv(0x31, &with_null), &eci_octets(b"hello")]);
    let v = SignedDataContent::from_der(&b).unwrap();
    assert_eq!(v.digest_algorithms, vec![with_null]);
}

#[test]
fn malformed_content_type_rejected() {
    let eci = tlv(0x30, &tlv(0x06, &[0x2a]));
    let b = signed(&[&version(1), &tlv(0x31, &sha256()), &eci]);
    assert_eq!(
        SignedDataContent::from_der(&b),
        Err(DerError::MalformedObjectIdentifier)
    );
    let eci2 = tlv(0x30, &tlv(0x06, &[0x2a, 0x86]));
    let c = signed(&[&version(1), &tlv(0x31, &sha256()), &eci2]);
    assert_eq!(
        SignedDataContent::from_der(&c),
        Err(DerError::MalformedObjectIdentifier)
    );
}

#[test]
fn content_wrapper_with_zero_or_two_values_rejected() {
    let empty = tlv(0x30, &cat(&[&tlv(0x06, &ID_DATA), &tlv(0xa0, &[])]));
    let b = signed(&[&version(1), &tlv(0x31, &sha256()), &empty]);
    assert_eq!(
        SignedDataContent::from_der(&b),
        Err(DerError::MalformedContentWrapper)
    );
    let two = tlv(0x30, &cat(&[&tlv(0x06, &ID_DATA), &tlv(0xa0, &cat(&[&tlv(0x04, b"a"), &tlv(0x04, b"b")]))]));
    let c = signed(&[&version(1), &tlv(0x31, &sha256()), &two]);
    assert_eq!(
        SignedDataContent::from_der(&c),
        Err(DerError::MalformedContentWrapper)
    );
}

#[test]
fn detached_content_decoded_as_absent() {
    let eci = tlv(0x30, &tlv(0x06, &ID_DATA));
    let b = signed(&[&version(1), &tlv(0x31, &[]), &eci]);
    let v = SignedDataContent::from_der(&b).unwrap();
    assert_eq!(v.digest_algorithms, Vec::<Vec<u8>>::new());
    assert_eq!(v.encapsulated_content_info.content, None);
    assert_eq!(v.to_der().unwrap(), b);
}

fn value(
    version: Version,
    algs: Vec<Vec<u8>>,
    content: Option<Content>,
    certs: Option<Vec<CertificateChoices>>,
) -> SignedDataContent {
    SignedDataContent {
        version,
        digest_algorithms: algs,
        encapsulated_content_info: EncapsulatedContentInfo {
            content_type: ID_DATA.to_vec(),
            content,
        },
        certificates: certs,
    }
}

#[test]
fn round_trip_of_constructed_values() {
    let custom = tlv(0x30, &tlv(0x0c, b"payload"));
    let versions = [Version::V1, Version::V2, Version::V3, Version::V4, Version::V5];
    let alg_sets = vec![vec![], vec![sha256()], vec![sha1(), sha256()]];
    let contents = vec![
        None,
        Some(Content::OctetString(b"hello".to_vec())),
        Some(Content::OctetString(vec![0xab; 300])),
        Some(Content::Custom(custom)),
    ];
    let cert_sets = vec![
        None,
        Some(vec![
            CertificateChoices::Certificate(fake_certificate(7)),
            CertificateChoices::Certificate(fake_certificate(3)),
        ]),
    ];
    for ver in versions {
        for algs in &alg_sets {
            for content in &contents {
                for certs in &cert_sets {
                    let v = value(ver, algs.clone(), content.clone(), certs.clone());
                    let bytes = v.to_der().unwrap();
                    assert_eq!(SignedDataContent::from_der(&bytes), Ok(v));
                }
            }
        }
    }
}

#[test]
fn encoding_is_exact() {
    let v = value(Version::V1, vec![sha256()], Some(Content::OctetString(b"hello".to_vec())), None);
    assert_eq!(v.to_der().unwrap(), scenario_a_bytes());
}

#[test]
fn canonical_input_re_encodes_identically() {
    let long = vec![0x5a; 200];
    let b = signed(&[
        &version(4),
        &tlv(0x31, &cat(&[&sha1(), &sha256()])),
        &eci_octets(&long),
        &tlv(0xa0, &fake_certificate(9)),
    ]);
    let v = SignedDataContent::from_der(&b).unwrap();
    assert_eq!(v.version, Version::V4);
    assert_eq!(v.encapsulated_content_info.content, Some(Content::OctetString(long)));
    assert_eq!(v.to_der().unwrap(), b);
}

#[test]
fn long_form_lengths_decoded() {
    let payload = vec![0x11; 70000];
    let eci = eci_big(&payload);
    let b = signed_big(&cat(&[&version(2), &tlv(0x31, &sha256()), &eci]));
    let v = SignedDataContent::from_der(&b).unwrap();
    assert_eq!(v.encapsulated_content_info.content, Some(Content::OctetString(payload)));
    assert_eq!(v.to_der().unwrap(), b);
}

fn header_big(tag: u8, n: usize) -> Vec<u8> {
    vec![tag, 0x83, (n >> 16) as u8, (n >> 8) as u8, n as u8]
}

fn eci_big(payload: &[u8]) -> Vec<u8> {
    let octets = cat(&[&header_big(0x04, payload.len()), payload]);
    let wrapped = cat(&[&header_big(0xa0, octets.len()), &octets]);
    let body = cat(&[&tlv(0x06, &ID_DATA), &wrapped]);
    cat(&[&header_big(0x30, body.len()), &body])
}

fn signed_big(body: &[u8]) -> Vec<u8> {
    cat(&[&header_big(0x30, body.len()), body])
}

#[test]
fn encoding_refuses_unordered_or_duplicate_digest_algorithms() {
    let v = value(Version::V1, vec![sha256(), sha1()], None, None);
    assert_eq!(v.to_der(), Err(DerError::NonCanonicalSetOrdering));
    assert_eq!(v.validate(), Err(DerError::NonCanonicalSetOrdering));
    let d = value(Version::V1, vec![sha1(), sha1()], None, None);
    assert_eq!(d.to_der(), Err(DerError::NonCanonicalSetOrdering));
}

#[test]
fn encoding_refuses_values_decoding_cannot_produce() {
    let bad_alg = value(Version::V1, vec![vec![0x30, 0x03, 0x02, 0x01, 0x01]], None, None);
    assert_eq!(bad_alg.to_der(), Err(DerError::MalformedAlgorithmIdentifier));
    let not_tlv = value(Version::V1, vec![vec![0x30]], None, None);
    assert_eq!(not_tlv.to_der(), Err(DerError::MalformedAlgorithmIdentifier));
    let mut bad_oid = value(Version::V1, vec![sha256()], None, None);
    bad_oid.encapsulated_content_info.content_type = vec![0x2a];
    assert_eq!(bad_oid.to_der(), Err(DerError::MalformedObjectIdentifier));
    let octet_custom = value(Version::V1, vec![], Some(Content::Custom(tlv(0x04, b"x"))), None);
    assert_eq!(octet_custom.to_der(), Err(DerError::MalformedContentWrapper));
    let two_custom = value(
        Version::V1,
        vec![],
        Some(Content::Custom(cat(&[&tlv(0x30, &[]), &tlv(0x30, &[])]))),
        None,
    );
    assert_eq!(two_custom.to_der(), Err(DerError::MalformedContentWrapper));
    let bad_cert = value(
        Version::V3,
        vec![],
        None,
        Some(vec![CertificateChoices::Certificate(tlv(0x31, &[]))]),
    );
    assert_eq!(bad_cert.to_der(), Err(DerError::MalformedTag));
    let ok = value(Version::V2, vec![sha1(), sha256()], None, None);
    assert_eq!(ok.validate(), Ok(()));
}

#[test]
fn length_beyond_limit_rejected() {
    let b = vec![0x30, 0x84, 0x10, 0x00, 0x00, 0x00, 0x02, 0x01, 0x01];
    assert_eq!(SignedDataContent::from_der(&b), Err(DerError::MalformedLength));
}

#[test]
fn component_decoders() {
    let v = version(3);
    assert_eq!(decode_version(&v, 0, v.len()), Ok((Version::V3, 3)));
    let body = cat(&[&tlv(0x06, &ID_DATA), &tlv(0xa0, &tlv(0x04, b"hi"))]);
    let eci = decode_eci(&body, 0, body.len()).unwrap();
    assert_eq!(eci.content_type, ID_DATA.to_vec());
    assert_eq!(eci.content, Some(Content::OctetString(b"hi".to_vec())));
    assert_eq!(eci.encode_body(), Ok(body.clone()));
    let inner = tlv(0x30, &[0x05, 0x00]);
    assert_eq!(
        decode_content(&inner, 0, inner.len()),
        Ok(Content::Custom(inner.clone()))
    );
}

#[test]
fn unassigned_universal_tags_rejected() {
    for tag in [0x00u8, 0x07, 0x1f, 0xff] {
        let eci = tlv(0x30, &cat(&[&tlv(0x06, &ID_DATA), &tlv(0xa0, &tlv(tag, &[0x01]))]));
        let b = signed(&[&version(1), &tlv(0x31, &sha256()), &eci]);
        assert_eq!(SignedDataContent::from_der(&b), Err(DerError::MalformedTag));
    }
    let eci = tlv(0x30, &cat(&[&tlv(0x06, &ID_DATA), &tlv(0xa0, &tlv(0x0c, b"ok"))]));
    let b = signed(&[&version(1), &tlv(0x31, &sha256()), &eci]);
    assert!(SignedDataContent::from_der(&b).is_ok());
}
