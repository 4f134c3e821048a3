//! The error taxonomy of the codec: every way a decode or an encode can
//! fail, as a typed value.  The codec never panics; the first error aborts
//! the call and is returned to the caller.

use vstd::prelude::*;

verus! {

/// A parse or write failure.
///
/// Decoding errors distinguish malformed wire data (truncation, bad
/// enumerated codes, bad compression pointers, structural mismatches)
/// from invalid domain-name data.  Encoding errors report values that
/// cannot be represented on the wire.
#[derive(Copy, Clone, Debug, PartialEq, Eq, Structural)]
pub enum ParseError {
    /// A read past the end of the buffer, or past the end of a record's
    /// RDLENGTH window.
    Truncated,
    /// An unrecognized opcode, with the raw value.
    InvalidOpcode(u8),
    /// An unrecognized response code, with the raw value.
    InvalidRcode(u8),
    /// An unrecognized record type, with the raw value.
    InvalidType(u16),
    /// An unrecognized record class, with the raw value.
    InvalidClass(u16),
    /// A record type that may not appear as an actual resource record
    /// (Reserved, OPT outside the additional section, or ANY).
    InvalidRecordType(u16),
    /// A compression pointer that does not point strictly backwards.
    InvalidPointer,
    /// A label whose top two length bits are an unsupported pattern.
    UnsupportedCompression(u8),
    /// A label byte outside the ASCII range.
    InvalidLabel,
    /// A label longer than 63 bytes, found while writing a name.
    LabelTooLong,
    /// An empty label (from a leading or doubled dot), found while
    /// writing a name.
    EmptyLabel,
    /// A domain name that is not ASCII, found while writing a name.
    InvalidDomain,
    /// A record's type-specific decoder left bytes of its RDLENGTH
    /// window unread.
    LengthMismatch,
    /// Bytes left over after the whole message was parsed.
    TrailingBytes,
    /// A second EDNS(0) OPT record in one message.
    MultipleExtensions,
    /// An OPT record whose name is not the root name.
    ExtensionNameNotRoot,
    /// An A or AAAA record in a class other than Internet, with the
    /// class's raw code.
    UnsupportedAddressClass(u16),
    /// An SOA rname or email address with no separator to rewrite.
    InvalidRname,
    /// A resource variant that cannot be encoded under its record type,
    /// with the type's wire code.
    UnencodableResource(u16),
    /// A TXT chunk longer than 255 bytes, or RDATA longer than 65535
    /// bytes, found while encoding.
    ResourceTooLong,
    /// A section with more than 65535 entries, found while encoding.
    TooManyEntries,
}

} // verus!
