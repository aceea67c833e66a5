use dns_codec::class::Class;
use dns_codec::dns_message::DnsMessage;
use dns_codec::header::{QRIndicator, ResponseCode};
use dns_codec::record_type::RecordType;

fn inbound_packet(opcode: u8, question_count: u16) -> [u8; 512] {
    let mut packet = [0u8; 512];
    packet[0] = 0xAB;
    packet[1] = 0xCD;
    packet[2] = (opcode << 3) | 0x01; // QR=0, RD=1
    packet[4] = (question_count >> 8) as u8;
    packet[5] = (question_count & 0xFF) as u8;
    let mut at = 12;
    for _ in 0..question_count {
        let question = [0x02, b'h', b'i', 0x00, 0x00, 0x01, 0x00, 0x01];
        packet[at..at + question.len()].copy_from_slice(&question);
        at += question.len();
    }
    packet
}

#[test]
fn reply_always_carries_one_synthetic_a_record() {
    // Whatever the inbound questions were, the reply keeps them, forces
    // QR to reply, and answers with exactly one A record holding a 4-byte
    // payload.
    for question_count in [0u16, 1, 2, 5] {
        let inbound = DnsMessage::new(&inbound_packet(0, question_count)).unwrap();
        let reply = inbound.build_reply();
        assert_eq!(reply.header.query_response_indicator, QRIndicator::Reply);
        assert_eq!(reply.header.packet_identifier, 0xABCD);
        assert_eq!(reply.header.question_count, question_count);
        assert_eq!(reply.header.answer_record_count, 1);
        assert_eq!(reply.header.response_code, ResponseCode::NoError);
        assert!(!reply.header.authoritative_answer);
        assert!(!reply.header.truncation);
        assert!(reply.header.recursion_desired);
        assert!(!reply.header.recursion_available);
        assert_eq!(reply.questions, inbound.questions);
        assert_eq!(reply.answers.len(), 1);
        let answer = &reply.answers[0];
        assert_eq!(answer.record_type, RecordType::A);
        assert_eq!(answer.class, Class::IN);
        assert_eq!(answer.time_to_live, 60);
        assert_eq!(answer.r_data.0, vec![8, 8, 8, 8]);
        assert_eq!(answer.r_data_length, 4);
        assert_eq!(
            answer.domain_name.label_segments,
            vec!["codecrafters".to_string(), "io".to_string()]
        );
    }
}

#[test]
fn reply_to_nonzero_opcode_is_not_implemented() {
    let inbound = DnsMessage::new(&inbound_packet(2, 1)).unwrap();
    let reply = inbound.build_reply();
    assert_eq!(reply.header.response_code, ResponseCode::NotImplemented);
    assert_eq!(reply.header.operation_code, 2);
}

#[test]
fn reply_fits_and_serializes() {
    let inbound = DnsMessage::new(&inbound_packet(0, 2)).unwrap();
    let reply = inbound.build_reply();
    assert!(reply.fits_datagram());
    let bytes = reply.to_bytes();
    assert_eq!(bytes.len(), 512);
    // QR bit of the serialized reply is set.
    assert_eq!(bytes[2] & 0x80, 0x80);
}
