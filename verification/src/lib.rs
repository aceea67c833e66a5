//! A verified codec for DNS wire messages (RFC 1035): the fixed 12-byte
//! header, the question section, and the answer (resource record) section,
//! including the length-prefixed label encoding used for domain names.
//!
//! Parsing is defensive: every field read is bounds-checked against the
//! buffer, counts declared by the header are a contract that parsing must
//! satisfy exactly, and a declared length is never trusted beyond what the
//! buffer actually contains.  Serialization reproduces the wire bytes
//! exactly; round-trip lemmas relate the two directions.

pub mod answer_record;
pub mod class;
pub mod dns_message;
pub mod domain_name;
pub mod errors;
pub mod header;
pub mod question;
pub mod record_type;
pub mod wire;
