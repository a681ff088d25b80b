//! Decoding and encoding of DNS messages carried over UDP, following the wire
//! layout of RFC 1035: a bounds-checked byte cursor, the fixed 12-byte header,
//! domain names with message compression, questions, resource records and
//! whole messages.

pub mod buffer;
pub mod error;
pub mod header;
pub mod name;
pub mod packet;
pub mod question;
pub mod record;
pub mod section;
pub mod wire;

pub use packet::{parse_dns_packet, serialize_dns_packet};
