use dns_codec::domain_name::DomainName;
use dns_codec::errors::DnsError;

#[test]
fn domain_name_new() {
    let google_dot_com: &[u8] = &[
        0x06, 0x67, 0x6f, 0x6f, 0x67, 0x6c, 0x65, 0x03, 0x63, 0x6f, 0x6d, 0x00,
    ];

    let domain_name_without_terminating_null_byte = &google_dot_com[..google_dot_com.len() - 1];

    // If the domain name buffer is empty, the parsing should fail
    assert_eq!(DomainName::new(&[]), Err(DnsError::TooShort));

    // If we remove the terminating null byte, the parsing should fail
    assert_eq!(
        DomainName::new(domain_name_without_terminating_null_byte),
        Err(DnsError::UnterminatedName)
    );

    // For correctly formed domain name buffer, parsing should succeed
    assert_eq!(
        DomainName::new(google_dot_com).map(|domain_name| { domain_name.label_segments.join(".") }),
        Ok(String::from("google.com"))
    );
    assert_eq!(
        DomainName::new(google_dot_com).map(|domain_name| { domain_name.wire_format }),
        Ok(google_dot_com.to_vec())
    );

    // If we add additional bytes after terminating null byte, the result should remain the same
    assert_eq!(
        DomainName::new(&[google_dot_com, &[0x06, 0x67, 0x6f]].concat())
            .map(|domain_name| { domain_name.label_segments.join(".") }),
        Ok(String::from("google.com"))
    );
    assert_eq!(
        DomainName::new(google_dot_com).map(|domain_name| { domain_name.wire_format }),
        Ok(google_dot_com.to_vec())
    );
}

#[test]
fn name_example_round_trips_exactly() {
    // The sixteen bytes of "www.google.com" decode to three labels, and
    // the stored wire format reproduces the input exactly.
    let bytes: &[u8] = &[
        0x03, 0x77, 0x77, 0x77, 0x06, 0x67, 0x6f, 0x6f, 0x67, 0x6c, 0x65, 0x03, 0x63, 0x6f, 0x6d,
        0x00,
    ];
    let name = DomainName::new(bytes).unwrap();
    assert_eq!(
        name.label_segments,
        vec!["www".to_string(), "google".to_string(), "com".to_string()]
    );
    assert_eq!(name.wire_format, bytes.to_vec());
}

#[test]
fn root_name_is_a_single_zero_byte() {
    let name = DomainName::new(&[0x00]).unwrap();
    assert_eq!(name.label_segments, Vec::<String>::new());
    assert_eq!(name.wire_format, vec![0x00]);
}

#[test]
fn oversized_label_length_fails() {
    // A length byte that claims more bytes than remain — including the
    // 0xC0 compression-pointer pattern, which this codec does not
    // recognize — fails with the declared-length error.
    assert_eq!(
        DomainName::new(&[0x05, b'a', b'b', 0x00]),
        Err(DnsError::DeclaredLengthExceedsBuffer)
    );
    assert_eq!(
        DomainName::new(&[0xC0, 0x0C]),
        Err(DnsError::DeclaredLengthExceedsBuffer)
    );
}
