use vstd::prelude::*;

use crate::errors::DnsError;
use crate::wire::spec_be16;

verus! {

/// DNS CLASS field (RFC 1035 section 3.2.4).
///
/// The set is closed: the wire values 1 through 4 decode to the four
/// variants below, and every other 16-bit value is a decode failure.
#[derive(Clone, Copy, Debug, PartialEq, Eq, Structural)]
pub enum Class {
    IN,
    CS,
    CH,
    HS,
}

impl Class {
    /// The 16-bit value that stands for this class on the wire.
    pub open spec fn spec_value(self) -> u16 {
        match self {
            Class::IN => 1,
            Class::CS => 2,
            Class::CH => 3,
            Class::HS => 4,
        }
    }

    /// The class that a 16-bit wire value decodes to, if any.
    pub open spec fn spec_from_value(value: u16) -> Option<Class> {
        if value == 1 {
            Some(Class::IN)
        } else if value == 2 {
            Some(Class::CS)
        } else if value == 3 {
            Some(Class::CH)
        } else if value == 4 {
            Some(Class::HS)
        } else {
            None
        }
    }

    /// Encoding is the exact inverse of decoding.
    pub proof fn lemma_value_round_trip(self)
        ensures
            Self::spec_from_value(self.spec_value()) == Some(self),
            1 <= self.spec_value() <= 4,
    {
    }

    /// Decoding succeeds exactly on the wire values 1 through 4, and the
    /// decoded variant encodes back to the value it came from.
    pub proof fn lemma_from_value_round_trip(value: u16)
        ensures
            Self::spec_from_value(value) is Some <==> 1 <= value <= 4,
            Self::spec_from_value(value) matches Some(c) ==> c.spec_value() == value,
    {
    }

    /// The 16-bit wire value of this class.
    pub fn value(&self) -> (v: u16)
        ensures
            v == self.spec_value(),
    {
        match self {
            Class::IN => 1,
            Class::CS => 2,
            Class::CH => 3,
            Class::HS => 4,
        }
    }

    /// Decodes a 16-bit wire value; fails on every value outside 1..=4.
    pub fn try_from_value(value: u16) -> (r: Result<Self, DnsError>)
        ensures
            r == match Self::spec_from_value(value) {
                Some(c) => Ok::<Self, DnsError>(c),
                None => Err::<Self, DnsError>(DnsError::InvalidEnumValue),
            },
    {
        if value == 1 {
            Ok(Class::IN)
        } else if value == 2 {
            Ok(Class::CS)
        } else if value == 3 {
            Ok(Class::CH)
        } else if value == 4 {
            Ok(Class::HS)
        } else {
            Err(DnsError::InvalidEnumValue)
        }
    }

    /// Reads the 2-byte CLASS field that sits two bytes past the end of a
    /// domain name of `domain_name_len` wire bytes, then decodes it.
    pub fn new(packet: &[u8], domain_name_len: usize) -> (r: Result<Self, DnsError>)
        ensures
            r == spec_read_class(packet@, domain_name_len as int + 2),
    {
        if packet.len() >= 4 && domain_name_len <= packet.len() - 4 {
            let value: u16 = (packet[domain_name_len + 2] as u16) * 256 + (packet[domain_name_len
                + 3] as u16);
            Self::try_from_value(value)
        } else {
            Err(DnsError::TooShort)
        }
    }
}

/// What reading a CLASS field at offset `off` of `b` yields.
pub open spec fn spec_read_class(b: Seq<u8>, off: int) -> Result<Class, DnsError> {
    if off + 2 <= b.len() {
        match Class::spec_from_value(spec_be16(b, off)) {
            Some(c) => Ok(c),
            None => Err(DnsError::InvalidEnumValue),
        }
    } else {
        Err(DnsError::TooShort)
    }
}

} // verus!
