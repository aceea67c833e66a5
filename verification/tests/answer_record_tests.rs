use dns_codec::answer_record::{DnsAnswerRecord, RData};
use dns_codec::class::Class;
use dns_codec::domain_name::DomainName;
use dns_codec::errors::DnsError;
use dns_codec::record_type::RecordType;

#[test]
fn test_r_data_new() {
    // A 2-byte slice declaring a 0x0808-byte payload has none of it
    assert_eq!(
        RData::new(&[0x08, 0x08]),
        Err(DnsError::DeclaredLengthExceedsBuffer)
    );

    // If the packet slice has fewer elements than what the r_data_length portion says,
    // then the parsing should also fail
    assert_eq!(
        RData::new(&[0x00, 0x02, 0x08]),
        Err(DnsError::DeclaredLengthExceedsBuffer)
    );

    // It should succeed for an Ipv4 address
    assert_eq!(
        RData::new(&[0x00, 0x04, 0x08, 0x08, 0x08, 0x08]),
        Ok(RData([0x08, 0x08, 0x08, 0x08].to_vec()))
    );
}

#[test]
fn test_dns_answer_record_new() {
    // Helper to create a full valid answer packet:
    // [domain name][record type][class][ttl][rdata len][rdata]
    // Example domain name: \x03www\x06google\x03com\x00
    let domain_bytes = [
        0x03, 0x77, 0x77, 0x77, // "www"
        0x06, 0x67, 0x6f, 0x6f, 0x67, 0x6c, 0x65, // "google"
        0x03, 0x63, 0x6f, 0x6d, // "com"
        0x00, // end of name
    ];
    let record_type_bytes = [0x00, 0x01]; // A
    let class_bytes = [0x00, 0x01]; // IN
    let ttl_bytes = [0x00, 0x00, 0x00, 0x2a]; // TTL = 42
    let rdata_bytes = [0x00, 0x04, 192, 168, 1, 1]; // RData length = 4, IPv4 192.168.1.1

    let full_packet: Vec<u8> = domain_bytes
        .iter()
        .chain(record_type_bytes.iter())
        .chain(class_bytes.iter())
        .chain(ttl_bytes.iter())
        .chain(rdata_bytes.iter())
        .cloned()
        .collect();

    let ans = DnsAnswerRecord::new(&full_packet);
    assert_eq!(
        ans,
        Ok(DnsAnswerRecord {
            domain_name: DomainName {
                wire_format: domain_bytes.to_vec(),
                label_segments: vec!["www".into(), "google".into(), "com".into(),]
            },
            record_type: RecordType::A,
            class: Class::IN,
            time_to_live: 42,
            r_data_length: 4,
            r_data: RData(vec![192, 168, 1, 1])
        })
    );

    // Error: bad domain name (wrong wire format)
    let mut bad_packet = full_packet.clone();
    bad_packet[0] = 0xFF; // Not a valid label length (would cause DomainName::new to error)
    assert_eq!(
        DnsAnswerRecord::new(&bad_packet),
        Err(DnsError::DeclaredLengthExceedsBuffer)
    );

    // Error: not enough bytes for record type
    let too_short = domain_bytes.to_vec();
    assert_eq!(DnsAnswerRecord::new(&too_short), Err(DnsError::TooShort));

    // Error: bad record type
    let mut bad_type = full_packet.clone();
    let dom_len = domain_bytes.len();
    bad_type[dom_len] = 0xFF; // Not defined in RecordType
    bad_type[dom_len + 1] = 0xFF;
    assert_eq!(
        DnsAnswerRecord::new(&bad_type),
        Err(DnsError::InvalidEnumValue)
    );

    // Error: bad class
    let mut bad_class = full_packet.clone();
    let class_offset = domain_bytes.len() + 2;
    bad_class[class_offset] = 0xFF;
    bad_class[class_offset + 1] = 0xFF; // Not defined
    assert_eq!(
        DnsAnswerRecord::new(&bad_class),
        Err(DnsError::InvalidEnumValue)
    );

    // Error: not enough bytes for TTL
    let mut bad_ttl = full_packet.clone();
    bad_ttl.truncate(domain_bytes.len() + 2 + 2 + 2); // Cut into middle of TTL
    assert_eq!(DnsAnswerRecord::new(&bad_ttl), Err(DnsError::TooShort));

    // Error: not enough bytes for RDATA
    let mut bad_rdata = full_packet.clone();
    let rdata_start = domain_bytes.len() + 2 + 2 + 4; // after header, before rdata

    // cut just after rdata len marker (so only rdata_length bytes, missing actual address)
    bad_rdata.truncate(rdata_start + 2 + 1); // less than rdata_length
    assert_eq!(
        DnsAnswerRecord::new(&bad_rdata),
        Err(DnsError::DeclaredLengthExceedsBuffer)
    );
}

#[test]
fn test_dns_answer_record_to_bytes() {
    let domain_bytes = [
        0x03, 0x77, 0x77, 0x77, // "www"
        0x06, 0x67, 0x6f, 0x6f, 0x67, 0x6c, 0x65, // "google"
        0x03, 0x63, 0x6f, 0x6d, // "com"
        0x00, // end of name
    ];
    let record_type_bytes = [0x00, 0x01]; // A
    let class_bytes = [0x00, 0x01]; // IN
    let ttl_bytes = [0x00, 0x00, 0x00, 0x2a]; // TTL = 42
    let rdata_bytes = [0x00, 0x04, 192, 168, 1, 1]; // RData length = 4, IPv4 192.168.1.1

    let full_packet: Vec<u8> = domain_bytes
        .iter()
        .chain(record_type_bytes.iter())
        .chain(class_bytes.iter())
        .chain(ttl_bytes.iter())
        .chain(rdata_bytes.iter())
        .cloned()
        .collect();

    assert_eq!(
        DnsAnswerRecord::new(&full_packet).map(|answer| { answer.to_bytes() }),
        Ok(full_packet)
    );
}

#[test]
fn empty_rdata_at_end_of_buffer_succeeds() {
    // An RDLENGTH of zero needs no payload: the field's own two bytes are
    // all that must be present, even when they end the buffer.
    assert_eq!(RData::new(&[0x00, 0x00]), Ok(RData(vec![])));
    // Fewer than the two length bytes is still too short.
    assert_eq!(RData::new(&[0x00]), Err(DnsError::TooShort));
    assert_eq!(RData::new(&[]), Err(DnsError::TooShort));

    // The 11-byte minimal answer record: root name, type A, class IN,
    // TTL, RDLENGTH 0, ending exactly at the end of the buffer.
    let packet = [
        0x00, // root name
        0x00, 0x01, // TYPE=A
        0x00, 0x01, // CLASS=IN
        0x00, 0x00, 0x00, 0x3c, // TTL=60
        0x00, 0x00, // RDLENGTH=0
    ];
    let answer = DnsAnswerRecord::new(&packet).unwrap();
    assert_eq!(answer.r_data_length, 0);
    assert_eq!(answer.r_data, RData(vec![]));
    assert_eq!(answer.time_to_live, 60);
    assert_eq!(answer.to_bytes(), packet.to_vec());
}

#[test]
fn truncated_rdata_fails_not_shortens() {
    // RDLENGTH says 4 but only 1 payload byte follows: decode must fail,
    // never silently return a 1-byte payload.
    let packet = [
        0x03, b'f', b'o', b'o', 0x00, // name
        0x00, 0x01, // TYPE=A
        0x00, 0x01, // CLASS=IN
        0x00, 0x00, 0x00, 0x3c, // TTL=60
        0x00, 0x04, // RDLENGTH=4
        0x07, // only one byte of payload
    ];
    assert_eq!(
        DnsAnswerRecord::new(&packet),
        Err(DnsError::DeclaredLengthExceedsBuffer)
    );
}

#[test]
fn answer_count_contract() {
    // One complete record followed by a second record cut short.
    let record = [
        0x03, b'f', b'o', b'o', 0x00, // name
        0x00, 0x01, // TYPE=A
        0x00, 0x01, // CLASS=IN
        0x00, 0x00, 0x00, 0x3c, // TTL=60
        0x00, 0x02, // RDLENGTH=2
        0xAB, 0xCD, // payload
    ];
    let mut buffer = record.to_vec();
    buffer.extend_from_slice(&record[..10]);
    assert_eq!(
        DnsAnswerRecord::parse_all_answers(&buffer, 2),
        Err(DnsError::SectionCountMismatch)
    );
    let (records, rest) = DnsAnswerRecord::parse_all_answers(&buffer, 1).unwrap();
    assert_eq!(records.len(), 1);
    assert_eq!(records[0].r_data, RData(vec![0xAB, 0xCD]));
    assert_eq!(rest, &buffer[record.len()..]);
}
