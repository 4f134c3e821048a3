//! Tests of the per-type resource payloads: the SOA mailbox rewriting,
//! the TXT rendering, and record encode/decode round trips.

use rustdns::resource::{Record, A, AAAA, MX, SOA, SRV, TXT};
use rustdns::{reverse, Class, IpAddress, Message, ParseError, Resource, Type};

static RNAME_TESTS: &[(&str, &str)] = &[
    ("username.example.com", "username@example.com"),
    ("root.localhost", "root@localhost"),
    ("Action\\.domains.ISI.EDU", "Action.domains@ISI.EDU"),
    ("a\\.b\\.c.ISI.EDU", "a.b.c@ISI.EDU"),
];

#[test]
fn test_soa_rname_to_email() {
    for (domain, email) in RNAME_TESTS {
        match SOA::rname_to_email(domain) {
            Ok(got) => assert_eq!(got, *email, "incorrect result for '{}'", domain),
            Err(err) => panic!("'{}' Failed:\n{:?}", domain, err),
        }
    }
}

#[test]
fn test_soa_rname_from_email() {
    for (domain, email) in RNAME_TESTS {
        match SOA::email_to_rname(email) {
            Ok(got) => assert_eq!(got, *domain, "incorrect result for '{}'", email),
            Err(err) => panic!("'{}' Failed:\n{:?}", email, err),
        }
    }
}

#[test]
fn test_rname_errors() {
    // no unescaped dot to rewrite
    assert!(matches!(
        SOA::rname_to_email("a\\.b"),
        Err(ParseError::InvalidRname)
    ));
    // no at sign to rewrite
    assert!(matches!(
        SOA::email_to_rname("no-at-sign"),
        Err(ParseError::InvalidRname)
    ));
}

#[test]
fn test_txt_to_string() {
    let txt = TXT(vec![b"v=spf1 include:_spf.google.com ~all".to_vec()]);
    assert_eq!(txt.to_string(), "\"v=spf1 include:_spf.google.com ~all\"");

    let two = TXT(vec![b"one".to_vec(), b"two".to_vec()]);
    assert_eq!(two.to_string(), "\"one\" \"two\"");

    let bad = TXT(vec![vec![0xFF, 0xFE]]);
    assert_eq!(bad.to_string(), "invalid");
}

fn answer(name: &str, resource: Resource) -> Record {
    Record {
        name: name.to_string(),
        class: Class::Internet,
        ttl: 300,
        resource,
    }
}

/// A response full of records survives the encode/decode round trip.
#[test]
fn test_record_sections_round_trip() {
    let mut m = Message::default();
    m.id = 0x4242;
    m.answers.push(answer("a.example.", Resource::A(A { octets: [127, 0, 0, 1] })));
    m.answers.push(answer(
        "aaaa.example.",
        Resource::AAAA(AAAA { octets: [0, 0, 0, 0, 0, 0, 0, 0, 0, 0, 0, 0, 0, 0, 0, 1] }),
    ));
    m.answers.push(answer("www.example.", Resource::CNAME("a.example.".to_string())));
    m.answers.push(answer(
        "example.",
        Resource::MX(MX { preference: 10, exchange: "mail.example.".to_string() }),
    ));
    m.answers.push(answer(
        "example.",
        Resource::TXT(TXT(vec![b"hello".to_vec(), b"world".to_vec()])),
    ));
    m.authoritys.push(answer(
        "example.",
        Resource::SOA(SOA {
            mname: "ns.example.".to_string(),
            rname: "admin@example.com.".to_string(),
            serial: 2020091025,
            refresh: 7200,
            retry: 3600,
            expire: 1209600,
            minimum: 3600,
        }),
    ));
    m.additionals.push(answer(
        "_sip._tcp.example.",
        Resource::SRV(SRV {
            priority: 5,
            weight: 0,
            port: 389,
            name: "ldap.example.".to_string(),
        }),
    ));
    m.additionals.push(answer("ns.example.", Resource::NS("a.example.".to_string())));
    m.additionals.push(answer("1.0.0.127.in-addr.arpa.", Resource::PTR("a.example.".to_string())));

    let bytes = m.to_vec().expect("failed to encode records");
    let back = Message::from_slice(&bytes).expect("failed to decode records");
    assert_eq!(m, back);
}

#[test]
fn test_encode_rejects_pseudo_resources() {
    let mut m = Message::default();
    m.answers.push(answer("example.", Resource::OPT));
    assert!(matches!(m.to_vec(), Err(ParseError::UnencodableResource(41))));

    let mut m2 = Message::default();
    m2.answers.push(answer("example.", Resource::ANY));
    assert!(matches!(m2.to_vec(), Err(ParseError::UnencodableResource(255))));
}

#[test]
fn test_encode_rejects_overlong_txt_chunk() {
    let mut m = Message::default();
    m.answers.push(answer("example.", Resource::TXT(TXT(vec![vec![b'x'; 256]]))));
    assert!(matches!(m.to_vec(), Err(ParseError::ResourceTooLong)));
}

#[test]
fn test_encode_rejects_unrewritable_rname() {
    let mut m = Message::default();
    m.authoritys.push(answer(
        "example.",
        Resource::SOA(SOA {
            mname: "ns.example.".to_string(),
            rname: "no-at-sign".to_string(),
            serial: 1,
            refresh: 1,
            retry: 1,
            expire: 1,
            minimum: 1,
        }),
    ));
    assert!(matches!(m.to_vec(), Err(ParseError::InvalidRname)));
}

#[test]
fn test_record_type_projection() {
    assert_eq!(Resource::A(A { octets: [1, 2, 3, 4] }).rtype(), Type::A);
    assert_eq!(Resource::OPT.rtype(), Type::OPT);
    assert_eq!(Resource::ANY.rtype(), Type::ANY);
    let rec = answer("x.", Resource::NS("y.".to_string()));
    assert_eq!(rec.rtype(), Type::NS);
}

#[test]
fn test_reverse() {
    let tests: Vec<(IpAddress, &str)> = vec![
        (
            IpAddress::V4(A { octets: [127, 0, 0, 1] }),
            "1.0.0.127.in-addr.arpa.",
        ),
        (
            IpAddress::V4(A { octets: [8, 8, 4, 4] }),
            "4.4.8.8.in-addr.arpa.",
        ),
        (
            // 2001:db8::567:89ab
            IpAddress::V6(AAAA {
                octets: [
                    0x20, 0x01, 0x0d, 0xb8, 0, 0, 0, 0, 0, 0, 0, 0, 0x05, 0x67, 0x89, 0xab,
                ],
            }),
            "b.a.9.8.7.6.5.0.0.0.0.0.0.0.0.0.0.0.0.0.0.0.0.0.8.b.d.0.1.0.0.2.ip6.arpa.",
        ),
    ];

    for test in tests {
        assert_eq!(reverse(&test.0), test.1);
    }
}
