use vstd::prelude::*;

verus! {

/// The ways a DNS wire buffer can fail to decode.
///
/// Every decode step returns immediately on its first error; no partial
/// structures are ever handed back.
#[derive(Clone, Copy, Debug, PartialEq, Eq, Structural)]
pub enum DnsError {
    /// Fewer bytes are available than a fixed-size field requires.
    TooShort,
    /// A TYPE or CLASS field holds a value outside its closed set.
    InvalidEnumValue,
    /// A label sequence ends without a zero-length terminator.
    UnterminatedName,
    /// A declared length (RDLENGTH or a label length) claims more bytes
    /// than the buffer still holds.
    DeclaredLengthExceedsBuffer,
    /// A section declared N entries but fewer than N could be decoded.
    SectionCountMismatch,
}

} // verus!

