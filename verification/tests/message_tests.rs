use dns_codec::answer_record::{DnsAnswerRecord, RData};
use dns_codec::class::Class;
use dns_codec::dns_message::{DnsMessage, DATAGRAM_SIZE};
use dns_codec::domain_name::DomainName;
use dns_codec::header::{DnsHeader, QRIndicator, ResponseCode};
use dns_codec::question::DnsQuestion;
use dns_codec::record_type::RecordType;

#[test]
fn test_dns_message_new() {
    // Successful parsing test: 1 question, 1 answer, no extra bytes
    let header_bytes = [
        0x12, 0x34,       // packet_identifier = 0x1234
        0b00000001, // QR=0, Opcode=0, AA=0, TC=0, RD=1
        0b00000000, // RA=0, Z=0, RCODE=0
        0x00, 0x01, // QDCOUNT = 1
        0x00, 0x01, // ANCOUNT = 1
        0x00, 0x00, // NSCOUNT = 0
        0x00, 0x00, // ARCOUNT = 0
    ];

    // Question section: qname= [3]foo[3]bar[3]com[0], QTYPE=1, QCLASS=1
    let question_bytes = [
        0x03, b'f', b'o', b'o', 0x03, b'b', b'a', b'r', 0x03, b'c', b'o', b'm',
        0x00, // end of qname
        0x00, 0x01, // QTYPE=A
        0x00, 0x01, // QCLASS=IN
    ];

    // Answer section: domain=same, TYPE=1, CLASS=1, TTL=0x0000003c, RDLEN=4, RDATA=1.2.3.4
    let answer_bytes = [
        0x03, b'f', b'o', b'o', 0x03, b'b', b'a', b'r', 0x03, b'c', b'o', b'm',
        0x00, // end of name
        0x00, 0x01, // TYPE=A
        0x00, 0x01, // CLASS=IN
        0x00, 0x00, 0x00, 0x3c, // TTL=60
        0x00, 0x04, // RDLEN=4
        1, 2, 3, 4, // RDATA
    ];

    // Assemble the full packet
    let mut packet = [0u8; 512];
    let mut write_i = 0;
    for b in header_bytes.iter() {
        packet[write_i] = *b;
        write_i += 1;
    }
    for b in question_bytes.iter() {
        packet[write_i] = *b;
        write_i += 1;
    }
    for b in answer_bytes.iter() {
        packet[write_i] = *b;
        write_i += 1;
    }

    // Correct parse
    assert_eq!(
        DnsMessage::new(&packet),
        Ok(DnsMessage {
            header: DnsHeader {
                packet_identifier: 0x1234,
                query_response_indicator: QRIndicator::Question,
                operation_code: 0,
                authoritative_answer: false,
                truncation: false,
                recursion_desired: true,
                recursion_available: false,
                reserved: 0,
                response_code: ResponseCode::NoError,
                question_count: 1,
                answer_record_count: 1,
                authority_record_count: 0,
                additional_record_count: 0,
            },
            questions: vec![DnsQuestion {
                domain_name: DomainName {
                    wire_format: vec![
                        0x03, b'f', b'o', b'o', 0x03, b'b', b'a', b'r', 0x03, b'c', b'o', b'm',
                        0x00,
                    ],
                    label_segments: vec![
                        "foo".to_string(),
                        "bar".to_string(),
                        "com".to_string(),
                    ],
                },
                record_type: RecordType::A,
                class: Class::IN,
            }],
            answers: vec![DnsAnswerRecord {
                domain_name: DomainName {
                    wire_format: vec![
                        0x03, b'f', b'o', b'o', 0x03, b'b', b'a', b'r', 0x03, b'c', b'o', b'm',
                        0x00,
                    ],
                    label_segments: vec![
                        "foo".to_string(),
                        "bar".to_string(),
                        "com".to_string(),
                    ]
                },
                record_type: RecordType::A,
                class: Class::IN,
                time_to_live: 60,
                r_data_length: 4,
                r_data: RData(vec![1, 2, 3, 4]),
            }],
        })
    );

    // Failing test: alter answer so RDLEN claims more data than available
    let mut bad_packet = packet;
    // set RDLEN to a ridiculous value
    let bad_rdata_pos = header_bytes.len() + question_bytes.len() + 21;
    bad_packet[bad_rdata_pos] = 0x01;
    bad_packet[bad_rdata_pos + 1] = 0xFF; // RDLEN=511 but only 4 bytes present

    assert!(DnsMessage::new(&bad_packet).is_err());
}

#[test]
fn test_dns_message_to_bytes_roundtrip() {
    let header = DnsHeader {
        packet_identifier: 0xBEEF,
        query_response_indicator: QRIndicator::Reply,
        operation_code: 0,
        authoritative_answer: false,
        truncation: false,
        recursion_desired: true,
        recursion_available: false,
        reserved: 0,
        response_code: ResponseCode::NoError,
        question_count: 1,
        answer_record_count: 1,
        authority_record_count: 0,
        additional_record_count: 0,
    };

    let question = DnsQuestion {
        domain_name: DomainName {
            wire_format: vec![
                0x03, b'w', b'w', b'w', 0x06, b'g', b'o', b'o', b'g', b'l', b'e', 0x03, b'c',
                b'o', b'm', 0x00,
            ],
            label_segments: vec!["www".to_string(), "google".to_string(), "com".to_string()],
        },
        record_type: RecordType::A,
        class: Class::IN,
    };

    let answer = DnsAnswerRecord {
        domain_name: question.domain_name.clone(),
        record_type: RecordType::A,
        class: Class::IN,
        time_to_live: 300,
        r_data_length: 4,
        r_data: RData(vec![8, 8, 8, 8]),
    };

    let message = DnsMessage {
        header: header.clone(),
        questions: vec![question.clone()],
        answers: vec![answer.clone()],
    };

    let bytes = message.to_bytes();
    let buffer: [u8; 512] = bytes.try_into().unwrap();
    let parsed = DnsMessage::new(&buffer);

    assert_eq!(parsed, Ok(message));
}

#[test]
fn message_with_empty_sections_round_trips() {
    let message = DnsMessage::build_error_reply();
    let bytes = message.to_bytes();
    assert_eq!(bytes.len(), DATAGRAM_SIZE);
    // 1234 is 0x04D2; QR=1 in the first flag byte; RCODE=2 in the second;
    // all counts zero; everything after the header is padding.
    assert_eq!(
        &bytes[..12],
        &[0x04, 0xD2, 0x80, 0x02, 0, 0, 0, 0, 0, 0, 0, 0]
    );
    assert!(bytes[12..].iter().all(|b| *b == 0));
    let buffer: [u8; 512] = bytes.try_into().unwrap();
    assert_eq!(DnsMessage::new(&buffer), Ok(message));
}

#[test]
fn full_datagram_ending_in_empty_rdata_round_trips() {
    // A message that fills the datagram to the last byte, whose single
    // answer ends with an empty RDATA: decode succeeds and re-encoding
    // reproduces all 512 bytes exactly.
    let mut packet = [0u8; 512];
    packet[7] = 1; // ANCOUNT = 1
    let mut at = 12;
    packet[at] = 255; // first label: 255 bytes
    at += 1;
    for _ in 0..255 {
        packet[at] = b'a';
        at += 1;
    }
    packet[at] = 232; // second label: 232 bytes
    at += 1;
    for _ in 0..232 {
        packet[at] = b'b';
        at += 1;
    }
    packet[at] = 0; // end of name
    at += 1;
    let fixed_fields = [0x00, 0x01, 0x00, 0x01, 0x00, 0x00, 0x00, 0x3c, 0x00, 0x00];
    packet[at..at + fixed_fields.len()].copy_from_slice(&fixed_fields);
    at += fixed_fields.len();
    assert_eq!(at, 512);

    let message = DnsMessage::new(&packet).unwrap();
    assert_eq!(message.answers.len(), 1);
    assert_eq!(message.answers[0].r_data_length, 0);
    assert_eq!(message.to_bytes(), packet.to_vec());
}

#[test]
fn reply_to_a_nearly_full_query_exceeds_the_datagram() {
    // 62 eight-byte questions fill 496 of the 500 bytes after the header.
    // The inbound message fits; its reply swaps in the 31-byte synthetic
    // answer and no longer does, and serialization must be refused.
    let mut packet = [0u8; 512];
    packet[4] = 0;
    packet[5] = 62; // QDCOUNT
    let mut at = 12;
    for _ in 0..62 {
        let question = [0x02, b'h', b'i', 0x00, 0x00, 0x01, 0x00, 0x01];
        packet[at..at + question.len()].copy_from_slice(&question);
        at += question.len();
    }
    let inbound = DnsMessage::new(&packet).unwrap();
    assert!(inbound.fits_datagram());
    let reply = inbound.build_reply();
    assert!(!reply.fits_datagram());
}

#[test]
fn build_error_reply_is_a_fixed_server_failure() {
    let reply = DnsMessage::build_error_reply();
    assert_eq!(reply.header.packet_identifier, 1234);
    assert_eq!(reply.header.query_response_indicator, QRIndicator::Reply);
    assert_eq!(reply.header.response_code, ResponseCode::ServerFailure);
    assert_eq!(reply.header.question_count, 0);
    assert_eq!(reply.header.answer_record_count, 0);
    assert!(reply.questions.is_empty());
    assert!(reply.answers.is_empty());
}
