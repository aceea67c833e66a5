use vstd::prelude::*;

use crate::errors::DnsError;
use crate::wire::{spec_be16, spec_be_hi, spec_be_lo, lemma_be16_join, lemma_be16_split};

verus! {

/// Query/Response indicator: the topmost bit of the first flag byte.
#[derive(Clone, Copy, Debug, PartialEq, Eq, Structural)]
pub enum QRIndicator {
    Question,
    Reply,
}

impl QRIndicator {
    /// The bit this indicator contributes to the first flag byte.
    pub open spec fn spec_bit(self) -> u8 {
        match self {
            QRIndicator::Question => 0,
            QRIndicator::Reply => 1,
        }
    }
}

impl vstd::std_specs::convert::FromSpecImpl<u8> for QRIndicator {
    open spec fn obeys_from_spec() -> bool {
        true
    }

    open spec fn from_spec(byte: u8) -> QRIndicator {
        if byte == 0 {
            QRIndicator::Question
        } else {
            QRIndicator::Reply
        }
    }
}

impl From<u8> for QRIndicator {
    /// Zero means question; any other value means reply.
    fn from(byte: u8) -> (r: Self) {
        if byte == 0 {
            QRIndicator::Question
        } else {
            QRIndicator::Reply
        }
    }
}

/// DNS response codes (RFC 1035 section 4.1.1): the low nibble of the
/// second flag byte.
#[derive(Clone, Copy, Debug, PartialEq, Eq, Structural)]
pub enum ResponseCode {
    NoError,
    FormatError,
    ServerFailure,
    NameError,
    NotImplemented,
    Refused,
}

impl ResponseCode {
    /// The nibble this code contributes to the second flag byte.
    pub open spec fn spec_value(self) -> u8 {
        match self {
            ResponseCode::NoError => 0,
            ResponseCode::FormatError => 1,
            ResponseCode::ServerFailure => 2,
            ResponseCode::NameError => 3,
            ResponseCode::NotImplemented => 4,
            ResponseCode::Refused => 5,
        }
    }

    /// The code a nibble decodes to.  Values 6 through 15 are deliberately
    /// narrowed to `FormatError`: that narrowing is the one lossy step in
    /// the whole header codec.
    pub open spec fn spec_from_value(value: u8) -> ResponseCode {
        if value == 0 {
            ResponseCode::NoError
        } else if value == 2 {
            ResponseCode::ServerFailure
        } else if value == 3 {
            ResponseCode::NameError
        } else if value == 4 {
            ResponseCode::NotImplemented
        } else if value == 5 {
            ResponseCode::Refused
        } else {
            ResponseCode::FormatError
        }
    }

    /// Decoding inverts encoding on every code.
    pub proof fn lemma_value_round_trip(self)
        ensures
            Self::spec_from_value(self.spec_value()) == self,
            self.spec_value() <= 5,
    {
    }
}

impl vstd::std_specs::convert::FromSpecImpl<u8> for ResponseCode {
    open spec fn obeys_from_spec() -> bool {
        true
    }

    open spec fn from_spec(byte: u8) -> ResponseCode {
        ResponseCode::spec_from_value(byte)
    }
}

impl From<u8> for ResponseCode {
    /// Bytes 0 and 2 through 5 name their outcome; everything else is
    /// narrowed to `FormatError`.
    fn from(byte: u8) -> (r: Self) {
        if byte == 0 {
            ResponseCode::NoError
        } else if byte == 2 {
            ResponseCode::ServerFailure
        } else if byte == 3 {
            ResponseCode::NameError
        } else if byte == 4 {
            ResponseCode::NotImplemented
        } else if byte == 5 {
            ResponseCode::Refused
        } else {
            ResponseCode::FormatError
        }
    }
}

/// The fixed 12-byte header at the start of every DNS message
/// (RFC 1035 section 4.1.1).
#[derive(Clone, Copy, Debug, PartialEq, Eq, Structural)]
pub struct DnsHeader {
    pub packet_identifier: u16,
    pub query_response_indicator: QRIndicator,
    pub operation_code: u8,
    pub authoritative_answer: bool,
    pub truncation: bool,
    pub recursion_desired: bool,
    pub recursion_available: bool,
    pub reserved: u8,
    pub response_code: ResponseCode,
    pub question_count: u16,
    pub answer_record_count: u16,
    pub authority_record_count: u16,
    pub additional_record_count: u16,
}

/// 1 for true, 0 for false: the value a flag contributes to its flag byte.
pub open spec fn spec_flag_bit(flag: bool) -> int {
    if flag {
        1
    } else {
        0
    }
}

impl DnsHeader {
    /// The bit-packed fields fit their widths: a 4-bit opcode and a 3-bit
    /// reserved field.  Every header read off the wire satisfies this, and
    /// serialization requires it.
    pub open spec fn wf(self) -> bool {
        &&& self.operation_code < 16
        &&& self.reserved < 8
    }

    /// First flag byte: QR(1) | Opcode(4) | AA(1) | TC(1) | RD(1).
    pub open spec fn spec_flags_first_byte(self) -> u8 {
        ((self.query_response_indicator.spec_bit() as int) * 128 + (self.operation_code as int) * 8
            + spec_flag_bit(self.authoritative_answer) * 4 + spec_flag_bit(self.truncation) * 2
            + spec_flag_bit(self.recursion_desired)) as u8
    }

    /// Second flag byte: RA(1) | Z(3) | RCODE(4).
    pub open spec fn spec_flags_second_byte(self) -> u8 {
        (spec_flag_bit(self.recursion_available) * 128 + (self.reserved as int) * 16
            + (self.response_code.spec_value() as int)) as u8
    }

    /// The exact 12 wire bytes of this header.
    pub open spec fn spec_to_bytes(self) -> Seq<u8> {
        seq![
            spec_be_hi(self.packet_identifier),
            spec_be_lo(self.packet_identifier),
            self.spec_flags_first_byte(),
            self.spec_flags_second_byte(),
            spec_be_hi(self.question_count),
            spec_be_lo(self.question_count),
            spec_be_hi(self.answer_record_count),
            spec_be_lo(self.answer_record_count),
            spec_be_hi(self.authority_record_count),
            spec_be_lo(self.authority_record_count),
            spec_be_hi(self.additional_record_count),
            spec_be_lo(self.additional_record_count),
        ]
    }

    /// The header that the first 12 bytes of `b` decode to.
    pub open spec fn spec_from_bytes(b: Seq<u8>) -> DnsHeader {
        DnsHeader {
            packet_identifier: spec_be16(b, 0),
            query_response_indicator: if b[2] / 128 % 2 == 1 {
                QRIndicator::Reply
            } else {
                QRIndicator::Question
            },
            operation_code: b[2] / 8 % 16,
            authoritative_answer: b[2] / 4 % 2 == 1,
            truncation: b[2] / 2 % 2 == 1,
            recursion_desired: b[2] % 2 == 1,
            recursion_available: b[3] / 128 % 2 == 1,
            reserved: b[3] / 16 % 8,
            response_code: ResponseCode::spec_from_value(b[3] % 16),
            question_count: spec_be16(b, 4),
            answer_record_count: spec_be16(b, 6),
            authority_record_count: spec_be16(b, 8),
            additional_record_count: spec_be16(b, 10),
        }
    }

    /// Decodes the first 12 bytes of `packet_slice`; fails if fewer than
    /// 12 bytes are available.
    pub fn new(packet_slice: &[u8]) -> (r: Result<Self, DnsError>)
        ensures
            packet_slice@.len() >= 12 ==> r == Ok::<Self, DnsError>(
                Self::spec_from_bytes(packet_slice@),
            ),
            packet_slice@.len() < 12 ==> r == Err::<Self, DnsError>(DnsError::TooShort),
            r matches Ok(h) ==> h.wf(),
    {
        if packet_slice.len() < 12 {
            return Err(DnsError::TooShort);
        }
        let flags_first: u8 = packet_slice[2];
        let flags_second: u8 = packet_slice[3];
        Ok(
            DnsHeader {
                packet_identifier: (packet_slice[0] as u16) * 256 + (packet_slice[1] as u16),
                query_response_indicator: if flags_first / 128 % 2 == 1 {
                    QRIndicator::Reply
                } else {
                    QRIndicator::Question
                },
                operation_code: flags_first / 8 % 16,
                authoritative_answer: flags_first / 4 % 2 == 1,
                truncation: flags_first / 2 % 2 == 1,
                recursion_desired: flags_first % 2 == 1,
                recursion_available: flags_second / 128 % 2 == 1,
                reserved: flags_second / 16 % 8,
                response_code: ResponseCode::from(flags_second % 16),
                question_count: (packet_slice[4] as u16) * 256 + (packet_slice[5] as u16),
                answer_record_count: (packet_slice[6] as u16) * 256 + (packet_slice[7] as u16),
                authority_record_count: (packet_slice[8] as u16) * 256 + (packet_slice[9] as u16),
                additional_record_count: (packet_slice[10] as u16) * 256 + (
                packet_slice[11] as u16),
            },
        )
    }

    /// Packs the flag fields into their two wire bytes.
    pub fn get_flags_bytes(&self) -> (r: [u8; 2])
        requires
            self.wf(),
        ensures
            r@ == seq![self.spec_flags_first_byte(), self.spec_flags_second_byte()],
    {
        let qr_bit: u8 = match self.query_response_indicator {
            QRIndicator::Question => 0,
            QRIndicator::Reply => 1,
        };
        let flags_first_byte: u8 = qr_bit * 128 + self.operation_code * 8 + (
        if self.authoritative_answer {
            4
        } else {
            0
        }) + (if self.truncation {
            2
        } else {
            0
        }) + (if self.recursion_desired {
            1
        } else {
            0
        });
        let ra_bit: u8 = if self.recursion_available {
            128
        } else {
            0
        };
        let rcode: u8 = match self.response_code {
            ResponseCode::NoError => 0,
            ResponseCode::FormatError => 1,
            ResponseCode::ServerFailure => 2,
            ResponseCode::NameError => 3,
            ResponseCode::NotImplemented => 4,
            ResponseCode::Refused => 5,
        };
        let flags_second_byte: u8 = ra_bit + self.reserved * 16 + rcode;
        let r: [u8; 2] = [flags_first_byte, flags_second_byte];
        assert(r@ =~= seq![self.spec_flags_first_byte(), self.spec_flags_second_byte()]);
        r
    }

    /// Serializes this header into its exact 12 wire bytes.
    pub fn to_bytes(&self) -> (r: [u8; 12])
        requires
            self.wf(),
        ensures
            r@ == self.spec_to_bytes(),
    {
        let flags_bytes = self.get_flags_bytes();
        let r: [u8; 12] = [
            (self.packet_identifier / 256) as u8,
            (self.packet_identifier % 256) as u8,
            flags_bytes[0],
            flags_bytes[1],
            (self.question_count / 256) as u8,
            (self.question_count % 256) as u8,
            (self.answer_record_count / 256) as u8,
            (self.answer_record_count % 256) as u8,
            (self.authority_record_count / 256) as u8,
            (self.authority_record_count % 256) as u8,
            (self.additional_record_count / 256) as u8,
            (self.additional_record_count % 256) as u8,
        ];
        assert(r@ =~= self.spec_to_bytes());
        r
    }
}

/// Unpacking the first flag byte recovers each packed field.
proof fn lemma_flags_first_unpack(qr: u8, op: u8, aa: u8, tc: u8, rd: u8)
    requires
        qr <= 1,
        op < 16,
        aa <= 1,
        tc <= 1,
        rd <= 1,
    ensures
        ({
            let x = ((qr as int) * 128 + (op as int) * 8 + (aa as int) * 4 + (tc as int) * 2 + (
            rd as int)) as u8;
            x / 128 % 2 == qr && x / 8 % 16 == op && x / 4 % 2 == aa && x / 2 % 2 == tc && x % 2
                == rd
        }),
{
    assert({
        let x = ((qr as int) * 128 + (op as int) * 8 + (aa as int) * 4 + (tc as int) * 2 + (
        rd as int)) as u8;
        x / 128 % 2 == qr && x / 8 % 16 == op && x / 4 % 2 == aa && x / 2 % 2 == tc && x % 2 == rd
    }) by (bit_vector)
        requires
            qr <= 1 && op < 16 && aa <= 1 && tc <= 1 && rd <= 1,
    ;
}

/// Unpacking the second flag byte recovers each packed field.
proof fn lemma_flags_second_unpack(ra: u8, z: u8, rc: u8)
    requires
        ra <= 1,
        z < 8,
        rc < 16,
    ensures
        ({
            let x = ((ra as int) * 128 + (z as int) * 16 + (rc as int)) as u8;
            x / 128 % 2 == ra && x / 16 % 8 == z && x % 16 == rc
        }),
{
    assert({
        let x = ((ra as int) * 128 + (z as int) * 16 + (rc as int)) as u8;
        x / 128 % 2 == ra && x / 16 % 8 == z && x % 16 == rc
    }) by (bit_vector)
        requires
            ra <= 1 && z < 8 && rc < 16,
    ;
}

/// Repacking the fields unpacked from the first flag byte restores it.
proof fn lemma_flags_first_pack(x: u8)
    ensures
        ((x / 128 % 2) as int) * 128 + ((x / 8 % 16) as int) * 8 + ((x / 4 % 2) as int) * 4 + ((x
            / 2 % 2) as int) * 2 + ((x % 2) as int) == x as int,
{
    assert(((x / 128 % 2) as int) * 128 + ((x / 8 % 16) as int) * 8 + ((x / 4 % 2) as int) * 4 + ((
    x / 2 % 2) as int) * 2 + ((x % 2) as int) == x as int) by (bit_vector);
}

/// Repacking the fields unpacked from the second flag byte restores it.
proof fn lemma_flags_second_pack(x: u8)
    ensures
        ((x / 128 % 2) as int) * 128 + ((x / 16 % 8) as int) * 16 + ((x % 16) as int) == x as int,
{
    assert(((x / 128 % 2) as int) * 128 + ((x / 16 % 8) as int) * 16 + ((x % 16) as int)
        == x as int) by (bit_vector);
}

/// Decoding reads only the first 12 bytes: buffers that agree on them
/// decode to the same header.
pub proof fn lemma_header_from_bytes_prefix(b1: Seq<u8>, b2: Seq<u8>)
    requires
        forall|i: int| 0 <= i < 12 ==> b1[i] == b2[i],
    ensures
        DnsHeader::spec_from_bytes(b1) == DnsHeader::spec_from_bytes(b2),
{
}

/// Serializing a well-formed header and decoding the 12 bytes restores the
/// header exactly: the header codec is lossless in this direction for every
/// field combination.
pub proof fn lemma_header_encode_decode(h: DnsHeader)
    requires
        h.wf(),
    ensures
        DnsHeader::spec_from_bytes(h.spec_to_bytes()) == h,
{
    let b = h.spec_to_bytes();
    lemma_be16_join(h.packet_identifier);
    lemma_be16_join(h.question_count);
    lemma_be16_join(h.answer_record_count);
    lemma_be16_join(h.authority_record_count);
    lemma_be16_join(h.additional_record_count);
    lemma_flags_first_unpack(
        h.query_response_indicator.spec_bit(),
        h.operation_code,
        (spec_flag_bit(h.authoritative_answer)) as u8,
        (spec_flag_bit(h.truncation)) as u8,
        (spec_flag_bit(h.recursion_desired)) as u8,
    );
    lemma_flags_second_unpack(
        (spec_flag_bit(h.recursion_available)) as u8,
        h.reserved,
        h.response_code.spec_value(),
    );
    h.response_code.lemma_value_round_trip();
    assert(DnsHeader::spec_from_bytes(b) == h);
}

/// Decoding 12 bytes and re-serializing reproduces them exactly, as long
/// as the response-code nibble is 0 through 5.  (Nibbles 6 through 15 are
/// narrowed to `FormatError` on decode, so they re-encode as 1: that is
/// the single deliberately lossy direction of the header codec.)
pub proof fn lemma_header_decode_encode(b: Seq<u8>)
    requires
        b.len() == 12,
        b[3] % 16 <= 5,
    ensures
        DnsHeader::spec_from_bytes(b).spec_to_bytes() =~= b,
{
    let h = DnsHeader::spec_from_bytes(b);
    lemma_be16_split(b[0], b[1]);
    lemma_be16_split(b[4], b[5]);
    lemma_be16_split(b[6], b[7]);
    lemma_be16_split(b[8], b[9]);
    lemma_be16_split(b[10], b[11]);
    lemma_flags_first_pack(b[2]);
    assert(h.spec_flags_first_byte() == b[2]);
    lemma_flags_second_pack(b[3]);
    assert(h.response_code.spec_value() == b[3] % 16);
    assert(h.spec_flags_second_byte() == b[3]);
}

} // verus!
