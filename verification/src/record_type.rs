use vstd::prelude::*;

use crate::errors::DnsError;
use crate::wire::spec_be16;

verus! {

/// DNS record TYPE field (RFC 1035 section 3.2.2).
///
/// The set is closed: the wire values 1 through 16 decode to the sixteen
/// variants below, and every other 16-bit value is a decode failure, not an
/// "unknown" variant.
#[derive(Clone, Copy, Debug, PartialEq, Eq, Structural)]
pub enum RecordType {
    A,
    NS,
    MD,
    MF,
    CNAME,
    SOA,
    MB,
    MG,
    MR,
    NULL,
    WKS,
    PTR,
    HINFO,
    MINFO,
    MX,
    TXT,
}

impl RecordType {
    /// The 16-bit value that stands for this record type on the wire.
    pub open spec fn spec_value(self) -> u16 {
        match self {
            RecordType::A => 1,
            RecordType::NS => 2,
            RecordType::MD => 3,
            RecordType::MF => 4,
            RecordType::CNAME => 5,
            RecordType::SOA => 6,
            RecordType::MB => 7,
            RecordType::MG => 8,
            RecordType::MR => 9,
            RecordType::NULL => 10,
            RecordType::WKS => 11,
            RecordType::PTR => 12,
            RecordType::HINFO => 13,
            RecordType::MINFO => 14,
            RecordType::MX => 15,
            RecordType::TXT => 16,
        }
    }

    /// The record type that a 16-bit wire value decodes to, if any.
    pub open spec fn spec_from_value(value: u16) -> Option<RecordType> {
        if value == 1 {
            Some(RecordType::A)
        } else if value == 2 {
            Some(RecordType::NS)
        } else if value == 3 {
            Some(RecordType::MD)
        } else if value == 4 {
            Some(RecordType::MF)
        } else if value == 5 {
            Some(RecordType::CNAME)
        } else if value == 6 {
            Some(RecordType::SOA)
        } else if value == 7 {
            Some(RecordType::MB)
        } else if value == 8 {
            Some(RecordType::MG)
        } else if value == 9 {
            Some(RecordType::MR)
        } else if value == 10 {
            Some(RecordType::NULL)
        } else if value == 11 {
            Some(RecordType::WKS)
        } else if value == 12 {
            Some(RecordType::PTR)
        } else if value == 13 {
            Some(RecordType::HINFO)
        } else if value == 14 {
            Some(RecordType::MINFO)
        } else if value == 15 {
            Some(RecordType::MX)
        } else if value == 16 {
            Some(RecordType::TXT)
        } else {
            None
        }
    }

    /// Encoding is the exact inverse of decoding: the closed set is total
    /// over the wire values 1 through 16 and empty everywhere else.
    pub proof fn lemma_value_round_trip(self)
        ensures
            Self::spec_from_value(self.spec_value()) == Some(self),
            1 <= self.spec_value() <= 16,
    {
    }

    /// Decoding succeeds exactly on the wire values 1 through 16, and the
    /// decoded variant encodes back to the value it came from.
    pub proof fn lemma_from_value_round_trip(value: u16)
        ensures
            Self::spec_from_value(value) is Some <==> 1 <= value <= 16,
            Self::spec_from_value(value) matches Some(t) ==> t.spec_value() == value,
    {
    }

    /// The 16-bit wire value of this record type.
    pub fn value(&self) -> (v: u16)
        ensures
            v == self.spec_value(),
    {
        match self {
            RecordType::A => 1,
            RecordType::NS => 2,
            RecordType::MD => 3,
            RecordType::MF => 4,
            RecordType::CNAME => 5,
            RecordType::SOA => 6,
            RecordType::MB => 7,
            RecordType::MG => 8,
            RecordType::MR => 9,
            RecordType::NULL => 10,
            RecordType::WKS => 11,
            RecordType::PTR => 12,
            RecordType::HINFO => 13,
            RecordType::MINFO => 14,
            RecordType::MX => 15,
            RecordType::TXT => 16,
        }
    }

    /// Decodes a 16-bit wire value; fails on every value outside 1..=16.
    pub fn try_from_value(value: u16) -> (r: Result<Self, DnsError>)
        ensures
            r == match Self::spec_from_value(value) {
                Some(t) => Ok::<Self, DnsError>(t),
                None => Err::<Self, DnsError>(DnsError::InvalidEnumValue),
            },
    {
        if value == 1 {
            Ok(RecordType::A)
        } else if value == 2 {
            Ok(RecordType::NS)
        } else if value == 3 {
            Ok(RecordType::MD)
        } else if value == 4 {
            Ok(RecordType::MF)
        } else if value == 5 {
            Ok(RecordType::CNAME)
        } else if value == 6 {
            Ok(RecordType::SOA)
        } else if value == 7 {
            Ok(RecordType::MB)
        } else if value == 8 {
            Ok(RecordType::MG)
        } else if value == 9 {
            Ok(RecordType::MR)
        } else if value == 10 {
            Ok(RecordType::NULL)
        } else if value == 11 {
            Ok(RecordType::WKS)
        } else if value == 12 {
            Ok(RecordType::PTR)
        } else if value == 13 {
            Ok(RecordType::HINFO)
        } else if value == 14 {
            Ok(RecordType::MINFO)
        } else if value == 15 {
            Ok(RecordType::MX)
        } else if value == 16 {
            Ok(RecordType::TXT)
        } else {
            Err(DnsError::InvalidEnumValue)
        }
    }

    /// Reads the 2-byte TYPE field that follows a domain name of
    /// `domain_name_len` wire bytes, then decodes it.
    pub fn new(packet: &[u8], domain_name_len: usize) -> (r: Result<Self, DnsError>)
        ensures
            r == spec_read_record_type(packet@, domain_name_len as int),
    {
        if packet.len() >= 2 && domain_name_len <= packet.len() - 2 {
            let value: u16 = (packet[domain_name_len] as u16) * 256 + (packet[domain_name_len
                + 1] as u16);
            Self::try_from_value(value)
        } else {
            Err(DnsError::TooShort)
        }
    }
}

/// What reading a TYPE field at offset `off` of `b` yields: the decoded
/// record type, `TooShort` if the two bytes are not there, and
/// `InvalidEnumValue` on a value outside the closed set.
pub open spec fn spec_read_record_type(b: Seq<u8>, off: int) -> Result<RecordType, DnsError> {
    if off + 2 <= b.len() {
        match RecordType::spec_from_value(spec_be16(b, off)) {
            Some(t) => Ok(t),
            None => Err(DnsError::InvalidEnumValue),
        }
    } else {
        Err(DnsError::TooShort)
    }
}

} // verus!
