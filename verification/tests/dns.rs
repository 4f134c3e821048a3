//! Tests of the whole-message codec: the end-to-end query layout, the
//! round trip, and the defensive handling of malformed wire data.

use rustdns::{Class, Extension, Message, ParseError, Type};

/// Encoding a query for www.google.com, type A, class Internet, with an
/// EDNS extension of payload size 4096, produces the documented layout.
#[test]
fn test_end_to_end_query_layout() {
    let mut m = Message::default();
    m.add_question("www.google.com", Type::A, Class::Internet)
        .expect("failed to add question");
    m.add_extension(Extension {
        payload_size: 4096,
        ..Default::default()
    });

    let req = m.to_vec().expect("failed to encode query");
    assert_eq!(req.len(), 12 + 16 + 4 + 11);

    // QDCOUNT = 1, ANCOUNT = 0, NSCOUNT = 0, ARCOUNT = 1
    assert_eq!(&req[4..12], &[0, 1, 0, 0, 0, 0, 0, 1]);

    // the QNAME, length-prefixed labels
    assert_eq!(
        &req[12..28],
        &[
            0x03, 0x77, 0x77, 0x77, 0x06, 0x67, 0x6F, 0x6F, 0x67, 0x6C, 0x65, 0x03, 0x63, 0x6F,
            0x6D, 0x00
        ]
    );

    // QTYPE = 1 (A), QCLASS = 1 (Internet)
    assert_eq!(&req[28..32], &[0, 1, 0, 1]);

    // the OPT pseudo-record
    assert_eq!(
        &req[32..42],
        &[0x00, 0x00, 0x29, 0x10, 0x00, 0x00, 0x00, 0x00, 0x00, 0x00]
    );
}

/// A builder-constructed message decodes back to itself.
#[test]
fn test_round_trip() {
    let mut m = Message::default();
    m.add_question("www.google.com", Type::A, Class::Internet)
        .expect("failed to add question");
    m.add_question("example.com.", Type::AAAA, Class::Internet)
        .expect("failed to add question");
    m.add_extension(Extension {
        payload_size: 4096,
        dnssec_ok: true,
        ..Default::default()
    });

    let bytes = m.to_vec().expect("failed to encode");
    let back = Message::from_slice(&bytes).expect("failed to decode");
    assert_eq!(m, back);
}

/// A round trip without the extension, exercising every flag bit.
#[test]
fn test_round_trip_flags() {
    let mut m = Message::default();
    m.id = 0xABCD;
    m.qr = rustdns::QR::Response;
    m.opcode = rustdns::Opcode::Status;
    m.rcode = rustdns::Rcode::NXDomain;
    m.aa = true;
    m.tc = true;
    m.ra = true;
    m.cd = true;
    m.add_question("a.b", Type::ANY, Class::Chaos)
        .expect("failed to add question");

    let bytes = m.to_vec().expect("failed to encode");
    let back = Message::from_slice(&bytes).expect("failed to decode");
    assert_eq!(m, back);
}

/// idna normalization runs inside add_question: the stored name is the
/// lower-cased, Punycode-encoded wire form with a trailing dot.
#[test]
fn test_add_question_normalizes() {
    let mut m = Message::default();
    m.add_question("B\u{fc}cher.Example", Type::A, Class::Internet)
        .expect("failed to add question");
    assert_eq!(m.questions[0].name, "xn--bcher-kva.example.");

    // the root name is kept as a single dot
    let mut r = Message::default();
    r.add_question("", Type::ANY, Class::Internet)
        .expect("failed to add root question");
    assert_eq!(r.questions[0].name, ".");

    // a conversion that yields an invalid wire name is rejected and
    // leaves the message unchanged
    let mut bad = Message::default();
    let overlong = "a".repeat(64);
    assert!(matches!(
        bad.add_question(&overlong, Type::A, Class::Internet),
        Err(ParseError::LabelTooLong)
    ));
    assert!(bad.questions.is_empty());
}

/// Truncated headers and sections are rejected, never panicking.
#[test]
fn test_truncated_inputs() {
    assert!(matches!(
        Message::from_slice(&[]),
        Err(ParseError::Truncated)
    ));
    assert!(matches!(
        Message::from_slice(&[0x12, 0x34, 0x01]),
        Err(ParseError::Truncated)
    ));
    // a full header promising one question that is not there
    let h = [0u8, 0, 0, 0, 0, 1, 0, 0, 0, 0, 0, 0];
    assert!(matches!(Message::from_slice(&h), Err(ParseError::Truncated)));
}

/// Unassigned enumerated values are rejected with the raw value.
#[test]
fn test_invalid_enumerated_values() {
    // opcode 3 is unassigned
    let m = [0u8, 0, 0b0001_1000, 0, 0, 0, 0, 0, 0, 0, 0, 0];
    assert!(matches!(
        Message::from_slice(&m),
        Err(ParseError::InvalidOpcode(3))
    ));

    // rcode 12 is unassigned
    let m = [0u8, 0, 0, 12, 0, 0, 0, 0, 0, 0, 0, 0];
    assert!(matches!(
        Message::from_slice(&m),
        Err(ParseError::InvalidRcode(12))
    ));

    // type 3 is unassigned: a question of type 3
    let mut m = vec![0u8, 0, 0, 0, 0, 1, 0, 0, 0, 0, 0, 0];
    m.extend_from_slice(&[1, b'a', 0, 0, 3, 0, 1]);
    assert!(matches!(
        Message::from_slice(&m),
        Err(ParseError::InvalidType(3))
    ));

    // class 5 is unassigned
    let mut m = vec![0u8, 0, 0, 0, 0, 1, 0, 0, 0, 0, 0, 0];
    m.extend_from_slice(&[1, b'a', 0, 0, 1, 0, 5]);
    assert!(matches!(
        Message::from_slice(&m),
        Err(ParseError::InvalidClass(5))
    ));
}

/// A compression pointer at offset k pointing at or after k is an
/// invalid-pointer error, not a hang.
#[test]
fn test_compression_loop_guard() {
    // one question whose name is a pointer to itself (offset 12)
    let mut m = vec![0u8, 0, 0, 0, 0, 1, 0, 0, 0, 0, 0, 0];
    m.extend_from_slice(&[0xC0, 12, 0, 1, 0, 1]);
    assert!(matches!(
        Message::from_slice(&m),
        Err(ParseError::InvalidPointer)
    ));

    // a pointer to a later offset
    let mut m = vec![0u8, 0, 0, 0, 0, 1, 0, 0, 0, 0, 0, 0];
    m.extend_from_slice(&[0xC0, 50, 0, 1, 0, 1]);
    assert!(matches!(
        Message::from_slice(&m),
        Err(ParseError::InvalidPointer)
    ));
}

/// A backward pointer is followed and the shared suffix reused.
#[test]
fn test_compression_backward_pointer() {
    // header; question 1: "a.b." type A class IN; question 2: "c" + pointer to "b."
    let mut m = vec![0u8, 0, 0, 0, 0, 2, 0, 0, 0, 0, 0, 0];
    m.extend_from_slice(&[1, b'a', 1, b'b', 0, 0, 1, 0, 1]);
    m.extend_from_slice(&[1, b'c', 0xC0, 14, 0, 1, 0, 1]);
    let msg = Message::from_slice(&m).expect("failed to decode");
    assert_eq!(msg.questions[0].name, "a.b.");
    assert_eq!(msg.questions[1].name, "c.b.");
}

/// The unsupported label patterns 01 and 10 are rejected.
#[test]
fn test_unsupported_compression_type() {
    let mut m = vec![0u8, 0, 0, 0, 0, 1, 0, 0, 0, 0, 0, 0];
    m.extend_from_slice(&[0x40, 0, 0, 1, 0, 1]);
    assert!(matches!(
        Message::from_slice(&m),
        Err(ParseError::UnsupportedCompression(0x40))
    ));
}

/// A label byte outside ASCII is rejected.
#[test]
fn test_non_ascii_label() {
    let mut m = vec![0u8, 0, 0, 0, 0, 1, 0, 0, 0, 0, 0, 0];
    m.extend_from_slice(&[2, b'a', 0x80, 0, 0, 1, 0, 1]);
    assert!(matches!(
        Message::from_slice(&m),
        Err(ParseError::InvalidLabel)
    ));
}

/// An A record whose RDLENGTH says 5 fails with a structural mismatch.
#[test]
fn test_malformed_rdlength() {
    let mut m = vec![0u8, 0, 0, 0, 0, 0, 0, 1, 0, 0, 0, 0];
    // answer: name "a.", type A, class IN, ttl 0, rdlength 5, five bytes
    m.extend_from_slice(&[1, b'a', 0]);
    m.extend_from_slice(&[0, 1, 0, 1, 0, 0, 0, 0, 0, 5]);
    m.extend_from_slice(&[127, 0, 0, 1, 9]);
    assert!(matches!(
        Message::from_slice(&m),
        Err(ParseError::LengthMismatch)
    ));
}

/// An RDLENGTH that promises more bytes than the buffer holds is a
/// truncation error.
#[test]
fn test_rdlength_overruns_buffer() {
    let mut m = vec![0u8, 0, 0, 0, 0, 0, 0, 1, 0, 0, 0, 0];
    m.extend_from_slice(&[1, b'a', 0]);
    m.extend_from_slice(&[0, 1, 0, 1, 0, 0, 0, 0, 0, 5]);
    m.extend_from_slice(&[127, 0, 0, 1]);
    assert!(matches!(Message::from_slice(&m), Err(ParseError::Truncated)));
}

/// Bytes after the last section are rejected.
#[test]
fn test_trailing_bytes() {
    let m = [0u8, 0, 0, 0, 0, 0, 0, 0, 0, 0, 0, 0, 0xFF];
    assert!(matches!(
        Message::from_slice(&m),
        Err(ParseError::TrailingBytes)
    ));
}

/// A second OPT record is rejected.
#[test]
fn test_double_extension() {
    let mut m = vec![0u8, 0, 0, 0, 0, 0, 0, 0, 0, 0, 0, 2];
    let opt = [0u8, 0, 0x29, 0x10, 0, 0, 0, 0, 0, 0, 0];
    m.extend_from_slice(&opt);
    m.extend_from_slice(&opt);
    assert!(matches!(
        Message::from_slice(&m),
        Err(ParseError::MultipleExtensions)
    ));
}

/// An OPT record with a non-root name is rejected.
#[test]
fn test_extension_name_not_root() {
    let mut m = vec![0u8, 0, 0, 0, 0, 0, 0, 0, 0, 0, 0, 1];
    m.extend_from_slice(&[1, b'a', 0]);
    m.extend_from_slice(&[0, 0x29, 0x10, 0, 0, 0, 0, 0, 0, 0]);
    assert!(matches!(
        Message::from_slice(&m),
        Err(ParseError::ExtensionNameNotRoot)
    ));
}

/// A decoded extension carries the payload size and the DNSSEC OK bit.
#[test]
fn test_extension_fields_decode() {
    let mut m = vec![0x12u8, 0x34, 0, 0, 0, 0, 0, 0, 0, 0, 0, 1];
    m.extend_from_slice(&[0, 0, 0x29, 0x02, 0x00, 0, 0, 0x80, 0, 0, 0]);
    let msg = Message::from_slice(&m).expect("failed to decode");
    let e = msg.extension.expect("extension missing");
    assert_eq!(e.payload_size, 512);
    assert_eq!(e.extend_rcode, 0);
    assert_eq!(e.version, 0);
    assert!(e.dnssec_ok);
    assert_eq!(msg.id, 0x1234);
}

/// An A or AAAA record outside the Internet class is rejected.
#[test]
fn test_address_class_check() {
    let mut m = vec![0u8, 0, 0, 0, 0, 0, 0, 1, 0, 0, 0, 0];
    // class 3 (Chaos), rdlength 4
    m.extend_from_slice(&[1, b'a', 0]);
    m.extend_from_slice(&[0, 1, 0, 3, 0, 0, 0, 0, 0, 4]);
    m.extend_from_slice(&[127, 0, 0, 1]);
    assert!(matches!(
        Message::from_slice(&m),
        Err(ParseError::UnsupportedAddressClass(3))
    ));
}

/// Reserved, OPT and ANY may not appear as an answer's type.
#[test]
fn test_invalid_record_type_in_answer() {
    let mut m = vec![0u8, 0, 0, 0, 0, 0, 0, 1, 0, 0, 0, 0];
    // type ANY (255)
    m.extend_from_slice(&[1, b'a', 0]);
    m.extend_from_slice(&[0, 255, 0, 1, 0, 0, 0, 0, 0, 0]);
    assert!(matches!(
        Message::from_slice(&m),
        Err(ParseError::InvalidRecordType(255))
    ));
}

/// Encoding rejects bad names with a typed error.
#[test]
fn test_encode_name_errors() {
    let mut m = Message::default();
    m.questions.push(rustdns::Question {
        name: "a..b".to_string(),
        rtype: Type::A,
        class: Class::Internet,
    });
    assert!(matches!(m.to_vec(), Err(ParseError::EmptyLabel)));

    let mut m2 = Message::default();
    m2.questions.push(rustdns::Question {
        name: format!("{}.", "a".repeat(64)),
        rtype: Type::A,
        class: Class::Internet,
    });
    assert!(matches!(m2.to_vec(), Err(ParseError::LabelTooLong)));

    let mut m3 = Message::default();
    m3.questions.push(rustdns::Question {
        name: "caf\u{e9}.example.".to_string(),
        rtype: Type::A,
        class: Class::Internet,
    });
    assert!(matches!(m3.to_vec(), Err(ParseError::InvalidDomain)));
}

/// Fresh messages default to a recursive query with no sections.
#[test]
fn test_default_message() {
    let m = Message::default();
    assert!(m.rd);
    assert!(m.ad);
    assert!(!m.aa && !m.tc && !m.ra && !m.cd && !m.z);
    assert_eq!(m.opcode, rustdns::Opcode::Query);
    assert_eq!(m.qr, rustdns::QR::Query);
    assert_eq!(m.rcode, rustdns::Rcode::NoError);
    assert!(m.questions.is_empty());
    assert!(m.extension.is_none());
}

/// The clamp helper pins a value into its interval.
#[test]
fn test_clamp() {
    assert_eq!(rustdns::clamp(5, 1, 10), 5);
    assert_eq!(rustdns::clamp(0, 1, 10), 1);
    assert_eq!(rustdns::clamp(11, 1, 10), 10);
}

/// The enumerated wire codes map back to their values.
#[test]
fn test_enum_codes() {
    assert_eq!(Type::from_u16(1), Some(Type::A));
    assert_eq!(Type::from_u16(41), Some(Type::OPT));
    assert_eq!(Type::from_u16(3), None);
    assert_eq!(Type::SRV.to_u16(), 33);
    assert_eq!(Class::from_u16(254), Some(Class::NoneClass));
    assert_eq!(Class::from_u16(5), None);
    assert_eq!(rustdns::QR::from_bool(true), rustdns::QR::Response);
    assert!(!rustdns::QR::from_bool(false).to_bool());
}
