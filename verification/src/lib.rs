//! A DNS message codec: building, encoding and decoding DNS packets in
//! the RFC 1035 wire format, with the RFC 6891 EDNS(0) extension.
//!
//! The codec is a pure, stateless transform in both directions.
//! [`Message::from_slice`] decodes untrusted bytes defensively: every
//! read is bounds-checked, a record's RDATA is confined to its declared
//! window, and domain-name compression pointers must point strictly
//! backwards, which bounds the recursion on every input.
//! [`Message::to_vec`] lays the sections out in fixed order and appends
//! the extension as a synthetic additional entry.

pub mod errors;
pub mod message;
pub mod name;
pub mod punycode;
pub mod qname;
pub mod resource;
pub mod roundtrip;
pub mod strutil;
pub mod types;
pub mod util;
pub mod wire;

pub use errors::ParseError;
pub use message::{Extension, Message, Question};
pub use name::Name;
pub use resource::{Record, Resource, A, AAAA, MX, SOA, SRV, TXT};
pub use types::{Class, Opcode, QR, Rcode, Type};
pub use util::{clamp, reverse, IpAddress};

use vstd::prelude::*;

verus! {

} // verus!
