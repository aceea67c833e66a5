use dns_codec::class::Class;
use dns_codec::domain_name::DomainName;
use dns_codec::errors::DnsError;
use dns_codec::question::DnsQuestion;
use dns_codec::record_type::RecordType;

#[test]
fn test_dns_question_new() {
    let packet = &[
        // Start of some fake domain name (not relevant for this test)
        0x03, 0x77, 0x77, 0x77, // "www"
        0x06, 0x67, 0x6f, 0x6f, 0x67, 0x6c, 0x65, // "google"
        0x03, 0x63, 0x6f, 0x6d, // "com"
        0x00, // end of name
        0x00, 0x01, // RecordType (e.g. 0x00, 0x01 for A)
        0x00, 0x01, // Class (e.g. 0x00, 0x01 for IN)
    ];

    assert_eq!(
        DnsQuestion::new(packet),
        Ok(DnsQuestion {
            domain_name: DomainName {
                wire_format: [
                    0x03, 0x77, 0x77, 0x77, 0x06, 0x67, 0x6f, 0x6f, 0x67, 0x6c, 0x65, 0x03,
                    0x63, 0x6f, 0x6d, 0x00,
                ]
                .to_vec(),
                label_segments: Vec::from([
                    String::from("www"),
                    String::from("google"),
                    String::from("com")
                ])
            },
            record_type: RecordType::A,
            class: Class::IN
        })
    );
}

#[test]
fn test_dns_question_to_bytes() {
    let packet = &[
        // Start of some fake domain name (not relevant for this test)
        0x03, 0x77, 0x77, 0x77, // "www"
        0x06, 0x67, 0x6f, 0x6f, 0x67, 0x6c, 0x65, // "google"
        0x03, 0x63, 0x6f, 0x6d, // "com"
        0x00, // end of name
        0x00, 0x01, // RecordType (e.g. 0x00, 0x01 for A)
        0x00, 0x01, // Class (e.g. 0x00, 0x01 for IN)
    ];

    assert_eq!(
        DnsQuestion::new(packet).map(|question| question.to_bytes()),
        Ok(packet.to_vec())
    );
}

#[test]
fn test_parse_all_questions() {
    let packet = [
        // Question 1
        0x03, 0x77, 0x77, 0x77, // "www"
        0x06, 0x67, 0x6f, 0x6f, 0x67, 0x6c, 0x65, // "google"
        0x03, 0x63, 0x6f, 0x6d, // "com"
        0x00, // end of name
        0x00, 0x01, // RecordType::A
        0x00, 0x01, // Class::IN
        // Question 2
        0x07, 0x65, 0x78, 0x61, 0x6d, 0x70, 0x6c, 0x65, // "example"
        0x03, 0x6f, 0x72, 0x67, // "org"
        0x00, // end of name
        0x00, 0x01, // RecordType::A
        0x00, 0x01, // Class::IN
        // Answer (for test purposes we include only a couple of null bytes)
        0x00, 0x00, 0x00, 0x00,
    ];

    assert_eq!(
        DnsQuestion::parse_all_questions(&packet, 2),
        Ok((
            vec![
                DnsQuestion {
                    domain_name: DomainName {
                        wire_format: vec![
                            0x03, 0x77, 0x77, 0x77, // "www"
                            0x06, 0x67, 0x6f, 0x6f, 0x67, 0x6c, 0x65, // "google"
                            0x03, 0x63, 0x6f, 0x6d, // "com"
                            0x00, // end of name
                        ],
                        label_segments: vec!["www".into(), "google".into(), "com".into()]
                    },
                    record_type: RecordType::A,
                    class: Class::IN
                },
                DnsQuestion {
                    domain_name: DomainName {
                        wire_format: vec![
                            0x07, 0x65, 0x78, 0x61, 0x6d, 0x70, 0x6c, 0x65, // "example"
                            0x03, 0x6f, 0x72, 0x67, // "org"
                            0x00, // end of name
                        ],
                        label_segments: vec!["example".into(), "org".into()]
                    },
                    record_type: RecordType::A,
                    class: Class::IN
                }
            ],
            &packet[packet.len() - 4..]
        ))
    );

    // If we trucate the second question, the parsing should fail
    assert_eq!(
        DnsQuestion::parse_all_questions(&packet[..packet.len() - 10], 2),
        Err(DnsError::SectionCountMismatch)
    )
}

#[test]
fn question_count_contract() {
    // Two complete questions back to back, nothing after them.
    let two_questions = [
        0x03, b'f', b'o', b'o', 0x00, 0x00, 0x01, 0x00, 0x01, // foo A IN
        0x03, b'b', b'a', b'r', 0x00, 0x00, 0x01, 0x00, 0x01, // bar A IN
    ];
    // Asking for more questions than the buffer holds fails outright.
    assert_eq!(
        DnsQuestion::parse_all_questions(&two_questions, 3),
        Err(DnsError::SectionCountMismatch)
    );
    // Asking for fewer consumes exactly the first entries.
    let (one, rest) = DnsQuestion::parse_all_questions(&two_questions, 1).unwrap();
    assert_eq!(one.len(), 1);
    assert_eq!(rest, &two_questions[9..]);
    let (both, empty_rest) = DnsQuestion::parse_all_questions(&two_questions, 2).unwrap();
    assert_eq!(both.len(), 2);
    assert!(empty_rest.is_empty());
    // Asking for none consumes nothing.
    let (none, all) = DnsQuestion::parse_all_questions(&two_questions, 0).unwrap();
    assert!(none.is_empty());
    assert_eq!(all, &two_questions[..]);
}

#[test]
fn question_with_bad_type_or_class_fails() {
    let bad_type = [0x03, b'f', b'o', b'o', 0x00, 0xFF, 0xFF, 0x00, 0x01];
    assert_eq!(DnsQuestion::new(&bad_type), Err(DnsError::InvalidEnumValue));
    let bad_class = [0x03, b'f', b'o', b'o', 0x00, 0x00, 0x01, 0x00, 0x09];
    assert_eq!(DnsQuestion::new(&bad_class), Err(DnsError::InvalidEnumValue));
    let missing_class = [0x03, b'f', b'o', b'o', 0x00, 0x00, 0x01];
    assert_eq!(DnsQuestion::new(&missing_class), Err(DnsError::TooShort));
}
