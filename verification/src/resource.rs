//! Resource records: the per-type payloads (A, AAAA, NS, CNAME, PTR,
//! MX, SOA, SRV, TXT), their decoding inside an RDLENGTH-bounded window,
//! and their encoding.

use vstd::prelude::*;

use crate::errors::ParseError;
use crate::qname::{read_qname, sname, wire_ok, wname, write_qname};
use crate::strutil::push_char;
use crate::types::{class_code, type_code, Class, Type};
use crate::wire::{
    be16_bytes, be32_bytes, push_bytes, push_u16, push_u32, read_u16, read_u32, sr_u16, sr_u32,
};

verus! {

/// IPv4 address (A) record payload.
#[derive(Clone, Copy, Debug, PartialEq, Eq)]
pub struct A {
    pub octets: [u8; 4],
}

/// IPv6 address (AAAA) record payload.
#[derive(Clone, Copy, Debug, PartialEq, Eq)]
pub struct AAAA {
    pub octets: [u8; 16],
}

/// Text (TXT) record payload: an ordered list of opaque byte strings.
#[derive(Clone, Debug, PartialEq, Eq)]
pub struct TXT(pub Vec<Vec<u8>>);

/// Mail exchanger (MX) record payload.
#[derive(Clone, Debug, PartialEq, Eq)]
pub struct MX {
    /// The preference given to this record among others at the same
    /// owner; lower values are preferred.
    pub preference: u16,
    /// A host willing to act as a mail exchange for the owner name.
    pub exchange: String,
}

/// Start of authority (SOA) record payload.
#[derive(Clone, Debug, PartialEq, Eq)]
pub struct SOA {
    /// The name server that was the original or primary source of data
    /// for this zone.
    pub mname: String,
    /// The mailbox of the person responsible for this zone, kept in
    /// email form ("admin@example.com") rather than in the wire's
    /// rname form ("admin.example.com").
    pub rname: String,
    pub serial: u32,
    /// Refresh interval, in seconds.
    pub refresh: u32,
    /// Retry interval, in seconds.
    pub retry: u32,
    /// Expiry limit, in seconds.
    pub expire: u32,
    /// Minimum time to live, in seconds.
    pub minimum: u32,
}

/// Service locator (SRV) record payload.
#[derive(Clone, Debug, PartialEq, Eq)]
pub struct SRV {
    pub priority: u16,
    pub weight: u16,
    pub port: u16,
    pub name: String,
}

/// The payload of a resource record, one variant per supported type.
#[derive(Clone, Debug, PartialEq, Eq)]
pub enum Resource {
    A(A),
    AAAA(AAAA),
    CNAME(String),
    NS(String),
    PTR(String),
    TXT(TXT),
    MX(MX),
    SOA(SOA),
    SRV(SRV),
    OPT,
    ANY,
}

/// The mathematical value of a resource payload.
pub ghost enum ResourceV {
    A { ip: Seq<u8> },
    AAAA { ip: Seq<u8> },
    CNAME { name: Seq<char> },
    NS { name: Seq<char> },
    PTR { name: Seq<char> },
    TXT { chunks: Seq<Seq<u8>> },
    MX { preference: u16, exchange: Seq<char> },
    SOA {
        mname: Seq<char>,
        rname: Seq<char>,
        serial: u32,
        refresh: u32,
        retry: u32,
        expire: u32,
        minimum: u32,
    },
    SRV { priority: u16, weight: u16, port: u16, name: Seq<char> },
    OPT,
    ANY,
}

/// The byte sequences held by a list of byte vectors.
pub open spec fn chunks_view(v: Seq<Vec<u8>>) -> Seq<Seq<u8>> {
    v.map_values(|c: Vec<u8>| c@)
}

impl View for Resource {
    type V = ResourceV;

    open spec fn view(&self) -> ResourceV {
        match self {
            Resource::A(a) => ResourceV::A { ip: a.octets@ },
            Resource::AAAA(a) => ResourceV::AAAA { ip: a.octets@ },
            Resource::CNAME(n) => ResourceV::CNAME { name: n@ },
            Resource::NS(n) => ResourceV::NS { name: n@ },
            Resource::PTR(n) => ResourceV::PTR { name: n@ },
            Resource::TXT(t) => ResourceV::TXT { chunks: chunks_view(t.0@) },
            Resource::MX(m) => ResourceV::MX { preference: m.preference, exchange: m.exchange@ },
            Resource::SOA(s) => ResourceV::SOA {
                mname: s.mname@,
                rname: s.rname@,
                serial: s.serial,
                refresh: s.refresh,
                retry: s.retry,
                expire: s.expire,
                minimum: s.minimum,
            },
            Resource::SRV(s) => ResourceV::SRV {
                priority: s.priority,
                weight: s.weight,
                port: s.port,
                name: s.name@,
            },
            Resource::OPT => ResourceV::OPT,
            Resource::ANY => ResourceV::ANY,
        }
    }
}

/// The record type a resource payload belongs to.
pub open spec fn resource_type(r: ResourceV) -> Type {
    match r {
        ResourceV::A { .. } => Type::A,
        ResourceV::AAAA { .. } => Type::AAAA,
        ResourceV::CNAME { .. } => Type::CNAME,
        ResourceV::NS { .. } => Type::NS,
        ResourceV::PTR { .. } => Type::PTR,
        ResourceV::TXT { .. } => Type::TXT,
        ResourceV::MX { .. } => Type::MX,
        ResourceV::SOA { .. } => Type::SOA,
        ResourceV::SRV { .. } => Type::SRV,
        ResourceV::OPT => Type::OPT,
        ResourceV::ANY => Type::ANY,
    }
}

impl Resource {
    /// The record type this payload belongs to.
    pub fn rtype(&self) -> (t: Type)
        ensures
            t == resource_type(self@),
    {
        match self {
            Resource::A(_) => Type::A,
            Resource::AAAA(_) => Type::AAAA,
            Resource::CNAME(_) => Type::CNAME,
            Resource::NS(_) => Type::NS,
            Resource::PTR(_) => Type::PTR,
            Resource::TXT(_) => Type::TXT,
            Resource::MX(_) => Type::MX,
            Resource::SOA(_) => Type::SOA,
            Resource::SRV(_) => Type::SRV,
            Resource::OPT => Type::OPT,
            Resource::ANY => Type::ANY,
        }
    }
}

/// A resource record: an owner name, a class, a time to live in
/// seconds, and a typed payload.
#[derive(Clone, Debug, PartialEq, Eq)]
pub struct Record {
    /// The owner name, in ASCII (wire) form with a trailing dot.
    pub name: String,
    /// The record's class.
    pub class: Class,
    /// The number of seconds the record may be cached.
    pub ttl: u32,
    /// The typed payload.
    pub resource: Resource,
}

/// The mathematical value of a resource record.
pub ghost struct RecordV {
    pub name: Seq<char>,
    pub class: Class,
    pub ttl: u32,
    pub resource: ResourceV,
}

impl View for Record {
    type V = RecordV;

    open spec fn view(&self) -> RecordV {
        RecordV {
            name: self.name@,
            class: self.class,
            ttl: self.ttl,
            resource: self.resource@,
        }
    }
}

impl Record {
    /// The record type of this record's payload.
    pub fn rtype(&self) -> (t: Type)
        ensures
            t == resource_type(self@.resource),
    {
        self.resource.rtype()
    }
}

/// One pass of the rname rewrite over the remaining characters, given
/// the previous character and whether the separating dot was already
/// rewritten.  A backslash escapes the next character; the first
/// unescaped dot becomes an at sign.  Returns the rewritten remainder
/// and whether a dot was rewritten.
pub open spec fn rname_steps(cs: Seq<char>, last: char, done: bool) -> (Seq<char>, bool)
    decreases cs.len(),
{
    if cs.len() == 0 {
        (Seq::empty(), done)
    } else {
        let c = cs[0];
        let rest = cs.subrange(1, cs.len() as int);
        if last == '\\' {
            let r = rname_steps(rest, c, done);
            (seq![c] + r.0, r.1)
        } else if c == '.' && !done {
            let r = rname_steps(rest, c, true);
            (seq!['@'] + r.0, r.1)
        } else if c != '\\' {
            let r = rname_steps(rest, c, done);
            (seq![c] + r.0, r.1)
        } else {
            rname_steps(rest, c, done)
        }
    }
}

/// The rname form of a mailbox turned into its email form, when the
/// rname contains an unescaped dot to rewrite.
pub open spec fn rname_to_email_spec(cs: Seq<char>) -> Option<Seq<char>> {
    let r = rname_steps(cs, ' ', false);
    if r.1 {
        Some(r.0)
    } else {
        None
    }
}

/// The index of the first occurrence of `t`, or the length if absent.
pub open spec fn find_char(cs: Seq<char>, t: char) -> int
    decreases cs.len(),
{
    if cs.len() == 0 {
        0
    } else if cs[0] == t {
        0
    } else {
        1 + find_char(cs.subrange(1, cs.len() as int), t)
    }
}

/// The first occurrence of a character is within bounds, the characters
/// before it differ from it, and the character there (if any) is it.
pub proof fn lemma_find_char(cs: Seq<char>, t: char)
    ensures
        0 <= find_char(cs, t) <= cs.len(),
        forall|i: int| 0 <= i < find_char(cs, t) ==> #[trigger] cs[i] != t,
        find_char(cs, t) < cs.len() ==> cs[find_char(cs, t)] == t,
    decreases cs.len(),
{
    if cs.len() == 0 {
    } else if cs[0] == t {
    } else {
        let m = cs.subrange(1, cs.len() as int);
        lemma_find_char(m, t);
        assert forall|i: int| 0 <= i < find_char(cs, t) implies #[trigger] cs[i] != t by {
            if i > 0 {
                assert(cs[i] == m[i - 1]);
            }
        }
        if find_char(cs, t) < cs.len() {
            assert(cs[find_char(cs, t)] == m[find_char(m, t)]);
        }
    }
}

/// The first occurrence of `t`, computed from a scan that stopped at it
/// or at the end.
pub proof fn lemma_find_char_from_scan(m: Seq<char>, t: char, l: int)
    requires
        0 <= l <= m.len(),
        forall|k: int| 0 <= k < l ==> #[trigger] m[k] != t,
        l == m.len() || m[l] == t,
    ensures
        find_char(m, t) == l,
    decreases l,
{
    if l == 0 {
    } else {
        let m2 = m.subrange(1, m.len() as int);
        assert(forall|k: int| 0 <= k < l - 1 ==> #[trigger] m2[k] == m[k + 1]);
        lemma_find_char_from_scan(m2, t, l - 1);
    }
}

/// Every dot doubled into a backslash-dot pair; other characters kept.
pub open spec fn escape_dots(cs: Seq<char>) -> Seq<char>
    decreases cs.len(),
{
    if cs.len() == 0 {
        Seq::empty()
    } else if cs[0] == '.' {
        seq!['\\', '.'] + escape_dots(cs.subrange(1, cs.len() as int))
    } else {
        seq![cs[0]] + escape_dots(cs.subrange(1, cs.len() as int))
    }
}

/// The email form of a mailbox turned into its rname form, when the
/// email contains an at sign: the dots of the local part are escaped,
/// the first at sign becomes a dot, and the rest is kept.
pub open spec fn email_to_rname_spec(cs: Seq<char>) -> Option<Seq<char>> {
    let i = find_char(cs, '@');
    if i == cs.len() {
        None
    } else {
        Some(escape_dots(cs.subrange(0, i)) + seq!['.'] + cs.subrange(i + 1, cs.len() as int))
    }
}

impl SOA {
    /// Rewrites a wire-form rname into an email address: the first
    /// unescaped dot becomes `@`, and backslash escapes are resolved.
    /// Fails when no unescaped dot exists.
    pub fn rname_to_email(domain: &str) -> (r: Result<String, ParseError>)
        ensures
            match r {
                Ok(email) => rname_to_email_spec(domain@) == Some(email@),
                Err(e) => rname_to_email_spec(domain@) is None && e == ParseError::InvalidRname,
            },
    {
        let ghost cs = domain@;
        let len = domain.unicode_len();
        let mut result = String::new();
        let mut last: char = ' ';
        let mut done: bool = false;
        let mut i: usize = 0;
        proof {
            assert(cs.subrange(0, cs.len() as int) =~= cs);
        }
        while i < len
            invariant
                len == cs.len(),
                cs == domain@,
                i <= len,
                rname_steps(cs, ' ', false) == {
                    let r = rname_steps(cs.subrange(i as int, cs.len() as int), last, done);
                    (result@ + r.0, r.1)
                },
            decreases len - i,
        {
            let c = domain.get_char(i);
            let ghost rem = cs.subrange(i as int, cs.len() as int);
            proof {
                assert(rem[0] == c);
                assert(rem.subrange(1, rem.len() as int) =~= cs.subrange(
                    (i + 1) as int,
                    cs.len() as int,
                ));
            }
            if last == '\\' {
                push_char(&mut result, c);
            } else if c == '.' && !done {
                push_char(&mut result, '@');
                done = true;
            } else if c != '\\' {
                push_char(&mut result, c);
            }
            proof {
                let r2 = rname_steps(cs.subrange((i + 1) as int, cs.len() as int), c, done);
                assert(result@ + r2.0 =~= rname_steps(cs, ' ', false).0);
            }
            last = c;
            i += 1;
        }
        proof {
            assert(cs.subrange(len as int, cs.len() as int) =~= Seq::<char>::empty());
            assert(result@ + Seq::<char>::empty() =~= result@);
        }
        if done {
            Ok(result)
        } else {
            Err(ParseError::InvalidRname)
        }
    }

    /// Rewrites an email address into a wire-form rname: dots in the
    /// local part are escaped as backslash-dot, and the first at sign
    /// becomes a dot.  Fails when there is no at sign.
    pub fn email_to_rname(email: &str) -> (r: Result<String, ParseError>)
        ensures
            match r {
                Ok(rname) => email_to_rname_spec(email@) == Some(rname@),
                Err(e) => email_to_rname_spec(email@) is None && e == ParseError::InvalidRname,
            },
    {
        let ghost cs = email@;
        let len = email.unicode_len();
        // find the first at sign
        let mut at: usize = 0;
        while at < len && email.get_char(at) != '@'
            invariant
                len == cs.len(),
                cs == email@,
                at <= len,
                forall|k: int| 0 <= k < at ==> #[trigger] cs[k] != '@',
            decreases len - at,
        {
            at += 1;
        }
        proof {
            lemma_find_char_from_scan(cs, '@', at as int);
        }
        if at == len {
            return Err(ParseError::InvalidRname);
        }
        let mut result = String::new();
        let mut k: usize = 0;
        proof {
            assert(cs.subrange(0, 0) =~= Seq::<char>::empty());
        }
        while k < at
            invariant
                len == cs.len(),
                cs == email@,
                k <= at < len,
                result@ == escape_dots(cs.subrange(0, k as int)),
            decreases at - k,
        {
            let c = email.get_char(k);
            if c == '.' {
                push_char(&mut result, '\\');
                push_char(&mut result, '.');
            } else {
                push_char(&mut result, c);
            }
            proof {
                lemma_escape_dots_push(cs.subrange(0, k as int), c);
                assert(cs.subrange(0, (k + 1) as int) =~= cs.subrange(0, k as int) + seq![c]);
            }
            k += 1;
        }
        push_char(&mut result, '.');
        let mut j = at + 1;
        let ghost mid = result@;
        while j < len
            invariant
                len == cs.len(),
                cs == email@,
                at < j <= len,
                result@ == mid + cs.subrange((at + 1) as int, j as int),
            decreases len - j,
        {
            let c = email.get_char(j);
            push_char(&mut result, c);
            proof {
                assert(mid + cs.subrange((at + 1) as int, (j + 1) as int) =~= result@);
            }
            j += 1;
        }
        proof {
            assert(result@ =~= escape_dots(cs.subrange(0, at as int)) + seq!['.'] + cs.subrange(
                (at + 1) as int,
                cs.len() as int,
            ));
        }
        Ok(result)
    }
}

/// Reading TXT chunks: length-prefixed byte strings until the window is
/// exhausted.  A length byte that promises more bytes than the window
/// holds is a truncation.
pub open spec fn sparse_txt(s: Seq<u8>, end: int, pos: int) -> Result<
    (Seq<Seq<u8>>, int),
    ParseError,
>
    decreases end - pos,
    when 0 <= pos && pos <= end && end <= s.len()
{
    if pos == end {
        Ok((Seq::empty(), pos))
    } else {
        let len = s[pos] as int;
        if pos + 1 + len <= end {
            match sparse_txt(s, end, pos + 1 + len) {
                Err(e) => Err(e),
                Ok((rest, p)) => Ok((seq![s.subrange(pos + 1, pos + 1 + len)] + rest, p)),
            }
        } else {
            Err(ParseError::Truncated)
        }
    }
}

/// Reading the RDATA of one record of type `t` from `pos` inside the
/// window `[0, end)`: the per-type decoding rules of RFC 1035.
pub open spec fn sparse_resource(s: Seq<u8>, end: int, pos: int, t: Type, class: Class) -> Result<
    (ResourceV, int),
    ParseError,
> {
    match t {
        Type::A => {
            if pos + 4 <= end {
                if class == Class::Internet {
                    Ok((ResourceV::A { ip: s.subrange(pos, pos + 4) }, pos + 4))
                } else {
                    Err(ParseError::UnsupportedAddressClass(class_code(class)))
                }
            } else {
                Err(ParseError::Truncated)
            }
        },
        Type::AAAA => {
            if pos + 16 <= end {
                if class == Class::Internet {
                    Ok((ResourceV::AAAA { ip: s.subrange(pos, pos + 16) }, pos + 16))
                } else {
                    Err(ParseError::UnsupportedAddressClass(class_code(class)))
                }
            } else {
                Err(ParseError::Truncated)
            }
        },
        Type::NS => match sname(s, end, pos) {
            Err(e) => Err(e),
            Ok((n, p)) => Ok((ResourceV::NS { name: n }, p)),
        },
        Type::CNAME => match sname(s, end, pos) {
            Err(e) => Err(e),
            Ok((n, p)) => Ok((ResourceV::CNAME { name: n }, p)),
        },
        Type::PTR => match sname(s, end, pos) {
            Err(e) => Err(e),
            Ok((n, p)) => Ok((ResourceV::PTR { name: n }, p)),
        },
        Type::MX => match sr_u16(s, end, pos) {
            Err(e) => Err(e),
            Ok((pref, p1)) => match sname(s, end, p1) {
                Err(e) => Err(e),
                Ok((n, p2)) => Ok((ResourceV::MX { preference: pref, exchange: n }, p2)),
            },
        },
        Type::SOA => match sname(s, end, pos) {
            Err(e) => Err(e),
            Ok((mname, p1)) => match sname(s, end, p1) {
                Err(e) => Err(e),
                Ok((raw_rname, p2)) => match rname_to_email_spec(raw_rname) {
                    Option::None => Err(ParseError::InvalidRname),
                    Option::Some(rname) => match sr_u32(s, end, p2) {
                        Err(e) => Err(e),
                        Ok((serial, p3)) => match sr_u32(s, end, p3) {
                            Err(e) => Err(e),
                            Ok((refresh, p4)) => match sr_u32(s, end, p4) {
                                Err(e) => Err(e),
                                Ok((retry, p5)) => match sr_u32(s, end, p5) {
                                    Err(e) => Err(e),
                                    Ok((expire, p6)) => match sr_u32(s, end, p6) {
                                        Err(e) => Err(e),
                                        Ok((minimum, p7)) => Ok(
                                            (
                                                ResourceV::SOA {
                                                    mname,
                                                    rname,
                                                    serial,
                                                    refresh,
                                                    retry,
                                                    expire,
                                                    minimum,
                                                },
                                                p7,
                                            ),
                                        ),
                                    },
                                },
                            },
                        },
                    },
                },
            },
        },
        Type::SRV => match sr_u16(s, end, pos) {
            Err(e) => Err(e),
            Ok((priority, p1)) => match sr_u16(s, end, p1) {
                Err(e) => Err(e),
                Ok((weight, p2)) => match sr_u16(s, end, p2) {
                    Err(e) => Err(e),
                    Ok((port, p3)) => match sname(s, end, p3) {
                        Err(e) => Err(e),
                        Ok((n, p4)) => Ok((ResourceV::SRV { priority, weight, port, name: n }, p4)),
                    },
                },
            },
        },
        Type::TXT => match sparse_txt(s, end, pos) {
            Err(e) => Err(e),
            Ok((chunks, p)) => Ok((ResourceV::TXT { chunks }, p)),
        },
        Type::Reserved => Err(ParseError::InvalidRecordType(0)),
        Type::OPT => Err(ParseError::InvalidRecordType(41)),
        Type::ANY => Err(ParseError::InvalidRecordType(255)),
    }
}

/// Reading one whole record body after its name and type: the TTL, the
/// RDLENGTH, and the RDATA confined to its window.  The window must lie
/// within the buffer, and the type-specific decoder must consume it
/// exactly.
pub open spec fn sparse_record(s: Seq<u8>, pos: int, name: Seq<char>, t: Type, class: Class) -> Result<
    (RecordV, int),
    ParseError,
> {
    match sr_u32(s, s.len() as int, pos) {
        Err(e) => Err(e),
        Ok((ttl, p1)) => match sr_u16(s, s.len() as int, p1) {
            Err(e) => Err(e),
            Ok((rdlen, p2)) => {
                let wend = p2 + rdlen;
                if wend <= s.len() {
                    match sparse_resource(s, wend, p2, t, class) {
                        Err(e) => Err(e),
                        Ok((res, p3)) => {
                            if p3 == wend {
                                Ok((RecordV { name, class, ttl, resource: res }, wend))
                            } else {
                                Err(ParseError::LengthMismatch)
                            }
                        },
                    }
                } else {
                    Err(ParseError::Truncated)
                }
            },
        },
    }
}

/// Reads a 4-byte IPv4 address; only the Internet class carries one.
pub fn parse_a(buf: &[u8], end: usize, pos: usize, class: Class) -> (r: Result<
    (A, usize),
    ParseError,
>)
    requires
        end <= buf@.len(),
    ensures
        match r {
            Ok((a, p)) => sparse_resource(buf@, end as int, pos as int, Type::A, class) == Ok::<
                _,
                ParseError,
            >((ResourceV::A { ip: a.octets@ }, p as int)),
            Err(e) => sparse_resource(buf@, end as int, pos as int, Type::A, class) == Err::<
                (ResourceV, int),
                _,
            >(e),
        },
{
    if pos >= end || end - pos < 4 {
        return Err(ParseError::Truncated);
    }
    if !matches!(class, Class::Internet) {
        return Err(ParseError::UnsupportedAddressClass(class.to_u16()));
    }
    let a = A { octets: [buf[pos], buf[pos + 1], buf[pos + 2], buf[pos + 3]] };
    proof {
        assert(a.octets@ =~= buf@.subrange(pos as int, pos + 4));
    }
    Ok((a, pos + 4))
}

/// Reads a 16-byte IPv6 address; only the Internet class carries one.
pub fn parse_aaaa(buf: &[u8], end: usize, pos: usize, class: Class) -> (r: Result<
    (AAAA, usize),
    ParseError,
>)
    requires
        end <= buf@.len(),
    ensures
        match r {
            Ok((a, p)) => sparse_resource(buf@, end as int, pos as int, Type::AAAA, class) == Ok::<
                _,
                ParseError,
            >((ResourceV::AAAA { ip: a.octets@ }, p as int)),
            Err(e) => sparse_resource(buf@, end as int, pos as int, Type::AAAA, class) == Err::<
                (ResourceV, int),
                _,
            >(e),
        },
{
    if pos >= end || end - pos < 16 {
        return Err(ParseError::Truncated);
    }
    if !matches!(class, Class::Internet) {
        return Err(ParseError::UnsupportedAddressClass(class.to_u16()));
    }
    let mut octets = [0u8; 16];
    let mut i: usize = 0;
    while i < 16
        invariant
            pos + 16 <= end <= buf@.len(),
            i <= 16,
            octets@.len() == 16,
            forall|k: int| 0 <= k < i ==> octets@[k] == buf@[pos + k],
        decreases 16 - i,
    {
        octets[i] = buf[pos + i];
        i += 1;
    }
    let a = AAAA { octets };
    proof {
        assert(a.octets@ =~= buf@.subrange(pos as int, pos + 16));
    }
    Ok((a, pos + 16))
}

/// Reads TXT chunks until the window is exhausted.
pub fn parse_txt(buf: &[u8], end: usize, pos: usize) -> (r: Result<(TXT, usize), ParseError>)
    requires
        end <= buf@.len(),
        pos <= end,
    ensures
        match r {
            Ok((t, p)) => sparse_txt(buf@, end as int, pos as int) == Ok::<_, ParseError>(
                (chunks_view(t.0@), p as int),
            ),
            Err(e) => sparse_txt(buf@, end as int, pos as int) == Err::<(Seq<Seq<u8>>, int), _>(e),
        },
{
    let ghost s = buf@;
    let mut chunks: Vec<Vec<u8>> = Vec::new();
    let mut cur = pos;
    proof {
        assert(chunks_view(chunks@) =~= Seq::<Seq<u8>>::empty());
    }
    loop
        invariant
            end <= buf@.len(),
            pos <= cur <= end,
            s == buf@,
            (match sparse_txt(s, end as int, cur as int) {
                Err(e) => sparse_txt(s, end as int, pos as int) == Err::<(Seq<Seq<u8>>, int), _>(e),
                Ok((rest, p)) => sparse_txt(s, end as int, pos as int) == Ok::<_, ParseError>(
                    (chunks_view(chunks@) + rest, p),
                ),
            }),
        decreases end - cur,
    {
        if cur == end {
            proof {
                assert(chunks_view(chunks@) + Seq::<Seq<u8>>::empty()
                    =~= chunks_view(chunks@));
            }
            return Ok((TXT(chunks), cur));
        }
        let len = buf[cur] as usize;
        if len > end - (cur + 1) {
            return Err(ParseError::Truncated);
        }
        let mut chunk: Vec<u8> = Vec::new();
        let mut j: usize = 0;
        while j < len
            invariant
                cur + 1 + len <= end <= buf@.len(),
                j <= len,
                s == buf@,
                chunk@ == s.subrange(cur + 1, cur + 1 + j as int),
            decreases len - j,
        {
            chunk.push(buf[cur + 1 + j]);
            proof {
                assert(chunk@ =~= s.subrange(cur + 1, cur + 1 + (j + 1) as int));
            }
            j += 1;
        }
        let ghost old_chunks = chunks_view(chunks@);
        chunks.push(chunk);
        proof {
            assert(chunks_view(chunks@) =~= old_chunks + seq![
                s.subrange(cur + 1, cur + 1 + len as int),
            ]);
            let r = sparse_txt(s, end as int, (cur + 1 + len) as int);
            if r is Ok {
                let rest = r.unwrap().0;
                assert((old_chunks + seq![s.subrange(cur + 1, cur + 1 + len as int)]) + rest
                    =~= old_chunks + (seq![s.subrange(cur + 1, cur + 1 + len as int)] + rest));
            }
        }
        cur = cur + 1 + len;
    }
}

impl MX {
    /// Reads an MX payload: a 16-bit preference and an exchange name.
    pub fn parse(buf: &[u8], end: usize, pos: usize) -> (r: Result<(MX, usize), ParseError>)
        requires
            end <= buf@.len(),
        ensures
            match r {
                Ok((m, p)) => sparse_resource(buf@, end as int, pos as int, Type::MX, Class::Internet)
                    == Ok::<_, ParseError>(
                    (ResourceV::MX { preference: m.preference, exchange: m.exchange@ }, p as int),
                ),
                Err(e) => sparse_resource(buf@, end as int, pos as int, Type::MX, Class::Internet)
                    == Err::<(ResourceV, int), _>(e),
            },
    {
        let (preference, p1) = match read_u16(buf, end, pos) {
            Ok(v) => v,
            Err(e) => {
                return Err(e);
            },
        };
        let (exchange, p2) = match read_qname(buf, end, p1) {
            Ok(v) => v,
            Err(e) => {
                return Err(e);
            },
        };
        Ok((MX { preference, exchange }, p2))
    }
}

impl SRV {
    /// Reads an SRV payload: priority, weight, port, and a target name.
    pub fn parse(buf: &[u8], end: usize, pos: usize) -> (r: Result<(SRV, usize), ParseError>)
        requires
            end <= buf@.len(),
        ensures
            match r {
                Ok((v, p)) => sparse_resource(
                    buf@,
                    end as int,
                    pos as int,
                    Type::SRV,
                    Class::Internet,
                ) == Ok::<_, ParseError>((
                    ResourceV::SRV {
                        priority: v.priority,
                        weight: v.weight,
                        port: v.port,
                        name: v.name@,
                    },
                    p as int,
                )),
                Err(e) => sparse_resource(buf@, end as int, pos as int, Type::SRV, Class::Internet)
                    == Err::<(ResourceV, int), _>(e),
            },
    {
        let (priority, p1) = match read_u16(buf, end, pos) {
            Ok(v) => v,
            Err(e) => {
                return Err(e);
            },
        };
        let (weight, p2) = match read_u16(buf, end, p1) {
            Ok(v) => v,
            Err(e) => {
                return Err(e);
            },
        };
        let (port, p3) = match read_u16(buf, end, p2) {
            Ok(v) => v,
            Err(e) => {
                return Err(e);
            },
        };
        let (name, p4) = match read_qname(buf, end, p3) {
            Ok(v) => v,
            Err(e) => {
                return Err(e);
            },
        };
        Ok((SRV { priority, weight, port, name }, p4))
    }
}

impl SOA {
    /// Reads an SOA payload: two names (the second rewritten to email
    /// form) and five 32-bit fields.
    pub fn parse(buf: &[u8], end: usize, pos: usize) -> (r: Result<(SOA, usize), ParseError>)
        requires
            end <= buf@.len(),
            pos <= end,
        ensures
            match r {
                Ok((v, p)) => sparse_resource(
                    buf@,
                    end as int,
                    pos as int,
                    Type::SOA,
                    Class::Internet,
                ) == Ok::<_, ParseError>((
                    ResourceV::SOA {
                        mname: v.mname@,
                        rname: v.rname@,
                        serial: v.serial,
                        refresh: v.refresh,
                        retry: v.retry,
                        expire: v.expire,
                        minimum: v.minimum,
                    },
                    p as int,
                )),
                Err(e) => sparse_resource(buf@, end as int, pos as int, Type::SOA, Class::Internet)
                    == Err::<(ResourceV, int), _>(e),
            },
    {
        let (mname, p1) = match read_qname(buf, end, pos) {
            Ok(v) => v,
            Err(e) => {
                return Err(e);
            },
        };
        let (raw_rname, p2) = match read_qname(buf, end, p1) {
            Ok(v) => v,
            Err(e) => {
                return Err(e);
            },
        };
        let rname = match Self::rname_to_email(raw_rname.as_str()) {
            Ok(v) => v,
            Err(e) => {
                return Err(e);
            },
        };
        let (serial, p3) = match read_u32(buf, end, p2) {
            Ok(v) => v,
            Err(e) => {
                return Err(e);
            },
        };
        let (refresh, p4) = match read_u32(buf, end, p3) {
            Ok(v) => v,
            Err(e) => {
                return Err(e);
            },
        };
        let (retry, p5) = match read_u32(buf, end, p4) {
            Ok(v) => v,
            Err(e) => {
                return Err(e);
            },
        };
        let (expire, p6) = match read_u32(buf, end, p5) {
            Ok(v) => v,
            Err(e) => {
                return Err(e);
            },
        };
        let (minimum, p7) = match read_u32(buf, end, p6) {
            Ok(v) => v,
            Err(e) => {
                return Err(e);
            },
        };
        Ok((SOA { mname, rname, serial, refresh, retry, expire, minimum }, p7))
    }
}

impl Record {
    /// Reads one record body after its name, type and class: the TTL,
    /// the RDLENGTH, and the RDATA confined to exactly that window.
    pub fn parse(buf: &[u8], pos: usize, name: String, rtype: Type, class: Class) -> (r: Result<
        (Record, usize),
        ParseError,
    >)
        ensures
            match r {
                Ok((rec, p)) => sparse_record(buf@, pos as int, name@, rtype, class) == Ok::<
                    _,
                    ParseError,
                >((rec@, p as int)) && p <= buf@.len(),
                Err(e) => sparse_record(buf@, pos as int, name@, rtype, class) == Err::<
                    (RecordV, int),
                    _,
                >(e),
            },
    {
        let blen = buf.len();
        let (ttl, p1) = match read_u32(buf, blen, pos) {
            Ok(v) => v,
            Err(e) => {
                return Err(e);
            },
        };
        let (rdlen, p2) = match read_u16(buf, blen, p1) {
            Ok(v) => v,
            Err(e) => {
                return Err(e);
            },
        };
        if (rdlen as usize) > blen - p2 {
            return Err(ParseError::Truncated);
        }
        let wend = p2 + rdlen as usize;
        let resource = match rtype {
            Type::A => {
                let (a, p3) = match parse_a(buf, wend, p2, class) {
                    Ok(v) => v,
                    Err(e) => {
                        return Err(e);
                    },
                };
                if p3 != wend {
                    return Err(ParseError::LengthMismatch);
                }
                Resource::A(a)
            },
            Type::AAAA => {
                let (a, p3) = match parse_aaaa(buf, wend, p2, class) {
                    Ok(v) => v,
                    Err(e) => {
                        return Err(e);
                    },
                };
                if p3 != wend {
                    return Err(ParseError::LengthMismatch);
                }
                Resource::AAAA(a)
            },
            Type::NS => {
                let (n, p3) = match read_qname(buf, wend, p2) {
                    Ok(v) => v,
                    Err(e) => {
                        return Err(e);
                    },
                };
                if p3 != wend {
                    return Err(ParseError::LengthMismatch);
                }
                Resource::NS(n)
            },
            Type::CNAME => {
                let (n, p3) = match read_qname(buf, wend, p2) {
                    Ok(v) => v,
                    Err(e) => {
                        return Err(e);
                    },
                };
                if p3 != wend {
                    return Err(ParseError::LengthMismatch);
                }
                Resource::CNAME(n)
            },
            Type::PTR => {
                let (n, p3) = match read_qname(buf, wend, p2) {
                    Ok(v) => v,
                    Err(e) => {
                        return Err(e);
                    },
                };
                if p3 != wend {
                    return Err(ParseError::LengthMismatch);
                }
                Resource::PTR(n)
            },
            Type::MX => {
                let (m, p3) = match MX::parse(buf, wend, p2) {
                    Ok(v) => v,
                    Err(e) => {
                        return Err(e);
                    },
                };
                if p3 != wend {
                    return Err(ParseError::LengthMismatch);
                }
                Resource::MX(m)
            },
            Type::SOA => {
                let (v, p3) = match SOA::parse(buf, wend, p2) {
                    Ok(v) => v,
                    Err(e) => {
                        return Err(e);
                    },
                };
                if p3 != wend {
                    return Err(ParseError::LengthMismatch);
                }
                Resource::SOA(v)
            },
            Type::SRV => {
                let (v, p3) = match SRV::parse(buf, wend, p2) {
                    Ok(v) => v,
                    Err(e) => {
                        return Err(e);
                    },
                };
                if p3 != wend {
                    return Err(ParseError::LengthMismatch);
                }
                Resource::SRV(v)
            },
            Type::TXT => {
                let (t, p3) = match parse_txt(buf, wend, p2) {
                    Ok(v) => v,
                    Err(e) => {
                        return Err(e);
                    },
                };
                if p3 != wend {
                    return Err(ParseError::LengthMismatch);
                }
                Resource::TXT(t)
            },
            Type::Reserved => {
                return Err(ParseError::InvalidRecordType(0));
            },
            Type::OPT => {
                return Err(ParseError::InvalidRecordType(41));
            },
            Type::ANY => {
                return Err(ParseError::InvalidRecordType(255));
            },
        };
        Ok((Record { name, class, ttl, resource }, wend))
    }
}

/// The wire bytes of TXT chunks: each chunk as a length byte and its
/// bytes.
pub open spec fn txt_bytes(chunks: Seq<Seq<u8>>) -> Seq<u8>
    decreases chunks.len(),
{
    if chunks.len() == 0 {
        Seq::empty()
    } else {
        seq![chunks[0].len() as u8] + chunks[0] + txt_bytes(
            chunks.subrange(1, chunks.len() as int),
        )
    }
}

/// Every TXT chunk fits its one-byte length prefix.
pub open spec fn txt_chunks_ok(chunks: Seq<Seq<u8>>) -> bool {
    forall|i: int| 0 <= i < chunks.len() ==> (#[trigger] chunks[i]).len() <= 255
}

/// Whether a resource payload can be written: its names are valid wire
/// names, its TXT chunks fit their length bytes, its SOA rname can be
/// rewritten to wire form, and it is not a pseudo-type.
pub open spec fn res_encodable(r: ResourceV) -> bool {
    match r {
        ResourceV::A { ip } => ip.len() == 4,
        ResourceV::AAAA { ip } => ip.len() == 16,
        ResourceV::CNAME { name } => wire_ok(name),
        ResourceV::NS { name } => wire_ok(name),
        ResourceV::PTR { name } => wire_ok(name),
        ResourceV::TXT { chunks } => txt_chunks_ok(chunks),
        ResourceV::MX { exchange, .. } => wire_ok(exchange),
        ResourceV::SOA { mname, rname, .. } => wire_ok(mname) && match email_to_rname_spec(rname) {
            Option::Some(rn) => wire_ok(rn),
            Option::None => false,
        },
        ResourceV::SRV { name, .. } => wire_ok(name),
        ResourceV::OPT => false,
        ResourceV::ANY => false,
    }
}

/// The RDATA bytes of an encodable resource payload.
pub open spec fn rdata_bytes(r: ResourceV) -> Seq<u8> {
    match r {
        ResourceV::A { ip } => ip,
        ResourceV::AAAA { ip } => ip,
        ResourceV::CNAME { name } => wname(name),
        ResourceV::NS { name } => wname(name),
        ResourceV::PTR { name } => wname(name),
        ResourceV::TXT { chunks } => txt_bytes(chunks),
        ResourceV::MX { preference, exchange } => be16_bytes(preference) + wname(exchange),
        ResourceV::SOA { mname, rname, serial, refresh, retry, expire, minimum } => wname(mname)
            + wname(email_to_rname_spec(rname).unwrap()) + be32_bytes(serial) + be32_bytes(refresh)
            + be32_bytes(retry) + be32_bytes(expire) + be32_bytes(minimum),
        ResourceV::SRV { priority, weight, port, name } => be16_bytes(priority) + be16_bytes(weight)
            + be16_bytes(port) + wname(name),
        ResourceV::OPT => Seq::empty(),
        ResourceV::ANY => Seq::empty(),
    }
}

/// Whether a whole record can be written.
pub open spec fn record_encodable(r: RecordV) -> bool {
    wire_ok(r.name) && res_encodable(r.resource) && rdata_bytes(r.resource).len() <= 65535
}

/// The wire bytes of an encodable record: name, type, class, TTL,
/// RDLENGTH, RDATA.
pub open spec fn record_wire(r: RecordV) -> Seq<u8> {
    wname(r.name) + be16_bytes(type_code(resource_type(r.resource))) + be16_bytes(
        class_code(r.class),
    ) + be32_bytes(r.ttl) + be16_bytes(rdata_bytes(r.resource).len() as u16) + rdata_bytes(
        r.resource,
    )
}

/// Writes the RDATA of a resource payload, appending to `out`.  On an
/// unencodable payload nothing is appended.
fn write_rdata(out: &mut Vec<u8>, res: &Resource) -> (r: Result<(), ParseError>)
    ensures
        match r {
            Ok(()) => res_encodable(res@) && final(out)@ == old(out)@ + rdata_bytes(res@),
            Err(_) => !res_encodable(res@) && final(out)@ == old(out)@,
        },
{
    match res {
        Resource::A(a) => {
            let mut local: Vec<u8> = Vec::new();
            local.push(a.octets[0]);
            local.push(a.octets[1]);
            local.push(a.octets[2]);
            local.push(a.octets[3]);
            proof {
                assert(local@ =~= a.octets@);
            }
            push_bytes(out, &local);
            Ok(())
        },
        Resource::AAAA(a) => {
            let mut local: Vec<u8> = Vec::new();
            let mut i: usize = 0;
            while i < 16
                invariant
                    i <= 16,
                    a.octets@.len() == 16,
                    local@ == a.octets@.subrange(0, i as int),
                decreases 16 - i,
            {
                local.push(a.octets[i]);
                proof {
                    assert(local@ =~= a.octets@.subrange(0, (i + 1) as int));
                }
                i += 1;
            }
            proof {
                assert(local@ =~= a.octets@);
            }
            push_bytes(out, &local);
            Ok(())
        },
        Resource::CNAME(n) => write_qname(out, n.as_str()),
        Resource::NS(n) => write_qname(out, n.as_str()),
        Resource::PTR(n) => write_qname(out, n.as_str()),
        Resource::TXT(t) => {
            let ghost chunks = chunks_view(t.0@);
            let mut local: Vec<u8> = Vec::new();
            let count = t.0.len();
            let mut i: usize = 0;
            proof {
                assert(chunks.subrange(0, chunks.len() as int) =~= chunks);
                assert(local@ + txt_bytes(chunks) =~= txt_bytes(chunks));
            }
            while i < count
                invariant
                    count == t.0@.len(),
                    chunks == chunks_view(t.0@),
                    res@ == (ResourceV::TXT { chunks }),
                    i <= count,
                    forall|k: int| 0 <= k < i ==> (#[trigger] chunks[k]).len() <= 255,
                    txt_bytes(chunks) == local@ + txt_bytes(
                        chunks.subrange(i as int, chunks.len() as int),
                    ),
                decreases count - i,
            {
                let chunk = &t.0[i];
                if chunk.len() > 255 {
                    proof {
                        assert(chunks[i as int].len() > 255);
                        assert(!txt_chunks_ok(chunks)) by {
                            let ki: int = i as int;
                            assert(0 <= ki < chunks.len() && chunks[ki].len() > 255);
                        }
                        assert(!res_encodable(res@));
                    }
                    return Err(ParseError::ResourceTooLong);
                }
                let ghost rem = chunks.subrange(i as int, chunks.len() as int);
                local.push(chunk.len() as u8);
                push_bytes(&mut local, chunk);
                proof {
                    assert(rem[0] == chunks[i as int]);
                    assert(rem.subrange(1, rem.len() as int) =~= chunks.subrange(
                        (i + 1) as int,
                        chunks.len() as int,
                    ));
                    assert(txt_bytes(rem) =~= seq![rem[0].len() as u8] + rem[0] + txt_bytes(
                        chunks.subrange((i + 1) as int, chunks.len() as int),
                    ));
                    assert(txt_bytes(chunks) =~= local@ + txt_bytes(
                        chunks.subrange((i + 1) as int, chunks.len() as int),
                    ));
                }
                i += 1;
            }
            proof {
                assert(chunks.subrange(count as int, chunks.len() as int)
                    =~= Seq::<Seq<u8>>::empty());
                assert(txt_bytes(chunks) =~= local@);
            }
            push_bytes(out, &local);
            Ok(())
        },
        Resource::MX(m) => {
            let mut local: Vec<u8> = Vec::new();
            push_u16(&mut local, m.preference);
            match write_qname(&mut local, m.exchange.as_str()) {
                Ok(()) => {
                    push_bytes(out, &local);
                    proof {
                        assert(local@ =~= rdata_bytes(res@));
                    }
                    Ok(())
                },
                Err(e) => Err(e),
            }
        },
        Resource::SOA(sv) => {
            let rn = match SOA::email_to_rname(sv.rname.as_str()) {
                Ok(v) => v,
                Err(e) => {
                    return Err(e);
                },
            };
            let mut local: Vec<u8> = Vec::new();
            match write_qname(&mut local, sv.mname.as_str()) {
                Ok(()) => (),
                Err(e) => {
                    return Err(e);
                },
            }
            match write_qname(&mut local, rn.as_str()) {
                Ok(()) => (),
                Err(e) => {
                    return Err(e);
                },
            }
            push_u32(&mut local, sv.serial);
            push_u32(&mut local, sv.refresh);
            push_u32(&mut local, sv.retry);
            push_u32(&mut local, sv.expire);
            push_u32(&mut local, sv.minimum);
            proof {
                assert(local@ =~= rdata_bytes(res@));
            }
            push_bytes(out, &local);
            Ok(())
        },
        Resource::SRV(sv) => {
            let mut local: Vec<u8> = Vec::new();
            push_u16(&mut local, sv.priority);
            push_u16(&mut local, sv.weight);
            push_u16(&mut local, sv.port);
            match write_qname(&mut local, sv.name.as_str()) {
                Ok(()) => {
                    proof {
                        assert(local@ =~= rdata_bytes(res@));
                    }
                    push_bytes(out, &local);
                    Ok(())
                },
                Err(e) => Err(e),
            }
        },
        Resource::OPT => Err(ParseError::UnencodableResource(41)),
        Resource::ANY => Err(ParseError::UnencodableResource(255)),
    }
}

impl Record {
    /// Writes this record as name, type, class, TTL, RDLENGTH and
    /// RDATA, appending to `out`.  On an unencodable record nothing is
    /// appended.
    pub fn write(&self, out: &mut Vec<u8>) -> (r: Result<(), ParseError>)
        ensures
            match r {
                Ok(()) => record_encodable(self@) && final(out)@ == old(out)@ + record_wire(self@),
                Err(_) => !record_encodable(self@) && final(out)@ == old(out)@,
            },
    {
        let mut head: Vec<u8> = Vec::new();
        match write_qname(&mut head, self.name.as_str()) {
            Ok(()) => (),
            Err(e) => {
                return Err(e);
            },
        }
        let mut rdata: Vec<u8> = Vec::new();
        match write_rdata(&mut rdata, &self.resource) {
            Ok(()) => (),
            Err(e) => {
                return Err(e);
            },
        }
        if rdata.len() > 65535 {
            return Err(ParseError::ResourceTooLong);
        }
        push_u16(&mut head, self.resource.rtype().to_u16());
        push_u16(&mut head, self.class.to_u16());
        push_u32(&mut head, self.ttl);
        push_u16(&mut head, rdata.len() as u16);
        push_bytes(&mut head, &rdata);
        proof {
            assert(head@ =~= record_wire(self@));
        }
        push_bytes(out, &head);
        Ok(())
    }
}

/// The rendered text of one TXT chunk: quoted when it is valid UTF-8,
/// the word `invalid` otherwise.
pub open spec fn txt_piece(chunk: Seq<u8>) -> Seq<char> {
    if vstd::utf8::valid_utf8(chunk) {
        seq!['"'] + vstd::utf8::decode_utf8(chunk) + seq!['"']
    } else {
        seq!['i', 'n', 'v', 'a', 'l', 'i', 'd']
    }
}

/// The rendered chunks after the first, each preceded by a space.
pub open spec fn txt_tail(chunks: Seq<Seq<u8>>) -> Seq<char>
    decreases chunks.len(),
{
    if chunks.len() == 0 {
        Seq::empty()
    } else {
        seq![' '] + txt_piece(chunks[0]) + txt_tail(chunks.subrange(1, chunks.len() as int))
    }
}

/// The rendered text of a TXT payload: the chunks, quoted, joined by
/// single spaces.
pub open spec fn txt_text(chunks: Seq<Seq<u8>>) -> Seq<char> {
    if chunks.len() == 0 {
        Seq::empty()
    } else {
        txt_piece(chunks[0]) + txt_tail(chunks.subrange(1, chunks.len() as int))
    }
}

impl TXT {
    /// The text of this payload: each chunk quoted when it is valid
    /// UTF-8 and rendered as the word `invalid` otherwise, joined by
    /// spaces.
    pub fn to_string(&self) -> (r: String)
        ensures
            r@ == txt_text(chunks_view(self.0@)),
    {
        let ghost chunks = chunks_view(self.0@);
        let mut out = String::new();
        let count = self.0.len();
        let mut i: usize = 0;
        while i < count
            invariant
                count == self.0@.len(),
                chunks == chunks_view(self.0@),
                i <= count,
                i == 0 ==> out@ == Seq::<char>::empty(),
                i > 0 ==> txt_text(chunks) == out@ + txt_tail(
                    chunks.subrange(i as int, chunks.len() as int),
                ),
            decreases count - i,
        {
            let ghost rem_before = chunks.subrange(i as int, chunks.len() as int);
            if i > 0 {
                push_char(&mut out, ' ');
            }
            let chunk = &self.0[i];
            match crate::strutil::utf8_to_string(chunk.as_slice()) {
                Some(st) => {
                    push_char(&mut out, '"');
                    out.append(st.as_str());
                    push_char(&mut out, '"');
                    proof {
                        assert(chunks[i as int] == chunk@);
                        assert(txt_piece(chunks[i as int]) =~= seq!['"'] + st@ + seq!['"']);
                    }
                },
                None => {
                    out.append("invalid");
                    proof {
                        reveal_strlit("invalid");
                        assert(chunks[i as int] == chunk@);
                        assert("invalid"@ =~= seq!['i', 'n', 'v', 'a', 'l', 'i', 'd']);
                    }
                },
            }
            proof {
                let rem_after = chunks.subrange((i + 1) as int, chunks.len() as int);
                if i == 0 {
                    assert(rem_before =~= chunks);
                    assert(rem_before[0] == chunks[0]);
                    assert(rem_before.subrange(1, rem_before.len() as int) =~= rem_after);
                    assert(out@ =~= txt_piece(chunks[0]));
                    assert(txt_text(chunks) =~= out@ + txt_tail(rem_after));
                } else {
                    assert(rem_before[0] == chunks[i as int]);
                    assert(rem_before.subrange(1, rem_before.len() as int) =~= rem_after);
                    assert(txt_tail(rem_before) =~= seq![' '] + txt_piece(chunks[i as int])
                        + txt_tail(rem_after));
                    assert(txt_text(chunks) =~= out@ + txt_tail(rem_after));
                }
            }
            i += 1;
        }
        proof {
            if count == 0 {
                assert(out@ =~= txt_text(chunks));
            } else {
                assert(chunks.subrange(count as int, chunks.len() as int)
                    =~= Seq::<Seq<u8>>::empty());
                assert(out@ =~= txt_text(chunks));
            }
        }
        out
    }
}

/// Backslash-free characters pass through the rname rewrite unchanged
/// once the dot was already rewritten.
proof fn lemma_rname_steps_after(cs: Seq<char>, last: char)
    requires
        forall|k: int| 0 <= k < cs.len() ==> #[trigger] cs[k] != '\\',
        last != '\\',
    ensures
        rname_steps(cs, last, true) == (cs, true),
    decreases cs.len(),
{
    if cs.len() == 0 {
        assert(rname_steps(cs, last, true).0 =~= cs);
    } else {
        let rest = cs.subrange(1, cs.len() as int);
        assert(forall|k: int| 0 <= k < rest.len() ==> #[trigger] rest[k] != '\\');
        lemma_rname_steps_after(rest, cs[0]);
        assert(seq![cs[0]] + rest =~= cs);
    }
}

/// Escaped dots and other backslash-free characters come back out of
/// the rname rewrite unchanged, with the rewrite still pending.
proof fn lemma_rname_steps_escaped(left: Seq<char>, tail: Seq<char>, last: char)
    requires
        forall|k: int| 0 <= k < left.len() ==> #[trigger] left[k] != '\\',
        last != '\\',
    ensures
        ({
            let r = rname_steps(escape_dots(left) + tail, last, false);
            let rt = rname_steps(tail, if left.len() == 0 {
                last
            } else {
                '.'
            }, false);
            left.len() == 0 ==> r == rt
        }),
        ({
            let r = rname_steps(escape_dots(left) + tail, last, false);
            let rt = rname_steps(tail, if left.len() == 0 {
                last
            } else {
                '.'
            }, false);
            left.len() > 0 ==> r == (left + rt.0, rt.1)
        }),
    decreases left.len(),
{
    reveal_with_fuel(rname_steps, 3);
    if left.len() == 0 {
        assert(escape_dots(left) + tail =~= tail);
    } else {
        let c = left[0];
        let rest = left.subrange(1, left.len() as int);
        assert(forall|k: int| 0 <= k < rest.len() ==> #[trigger] rest[k] != '\\');
        let whole = escape_dots(left) + tail;
        if c == '.' {
            // the escaped pair: a backslash skipped, then the dot kept
            assert(escape_dots(left) =~= seq!['\\', '.'] + escape_dots(rest));
            assert(whole[0] == '\\');
            let w1 = whole.subrange(1, whole.len() as int);
            assert(w1 =~= seq!['.'] + (escape_dots(rest) + tail));
            assert(w1[0] == '.');
            let w2 = w1.subrange(1, w1.len() as int);
            assert(w2 =~= escape_dots(rest) + tail);
            lemma_rname_steps_escaped(rest, tail, '.');
            let rt = rname_steps(tail, '.', false);
            if rest.len() == 0 {
                assert(seq!['.'] + rt.0 =~= left + rt.0);
            } else {
                assert(seq!['.'] + (rest + rt.0) =~= left + rt.0);
            }
        } else {
            assert(escape_dots(left) =~= seq![c] + escape_dots(rest));
            assert(whole[0] == c);
            let w1 = whole.subrange(1, whole.len() as int);
            assert(w1 =~= escape_dots(rest) + tail);
            lemma_rname_steps_escaped(rest, tail, c);
            let rt = rname_steps(tail, if rest.len() == 0 {
                c
            } else {
                '.'
            }, false);
            if rest.len() == 0 {
                assert(seq![c] + rt.0 =~= left + rt.0);
            } else {
                assert(seq![c] + (rest + rt.0) =~= left + rt.0);
            }
        }
    }
}

/// Turning an email into its wire rname form and back yields the email
/// again, for any mailbox free of backslash characters.
pub proof fn lemma_rname_round_trip(e: Seq<char>)
    requires
        forall|k: int| 0 <= k < e.len() ==> #[trigger] e[k] != '\\',
        find_char(e, '@') < e.len(),
    ensures
        email_to_rname_spec(e) is Some,
        rname_to_email_spec(email_to_rname_spec(e).unwrap()) == Some(e),
{
    lemma_find_char(e, '@');
    let i = find_char(e, '@');
    let left = e.subrange(0, i);
    let right = e.subrange(i + 1, e.len() as int);
    let rn = escape_dots(left) + seq!['.'] + right;
    assert(email_to_rname_spec(e) == Some(rn));
    assert(forall|k: int| 0 <= k < left.len() ==> #[trigger] left[k] != '\\');
    assert(forall|k: int| 0 <= k < right.len() ==> #[trigger] right[k] != '\\');
    let tail = seq!['.'] + right;
    assert(rn =~= escape_dots(left) + tail);
    lemma_rname_steps_escaped(left, tail, ' ');
    // the unescaped dot becomes the at sign, and the rest passes through
    let last2 = if left.len() == 0 {
        ' '
    } else {
        '.'
    };
    assert(tail[0] == '.');
    assert(tail.subrange(1, tail.len() as int) =~= right);
    lemma_rname_steps_after(right, '.');
    assert(rname_steps(tail, last2, false) == (seq!['@'] + right, true));
    let r = rname_steps(rn, ' ', false);
    assert(r.1 == true);
    assert(r.0 =~= e) by {
        if left.len() == 0 {
            assert(r.0 == seq!['@'] + right);
            assert(e =~= seq!['@'] + right);
        } else {
            assert(r.0 == left + (seq!['@'] + right));
            assert(e =~= left + (seq!['@'] + right));
        }
    }
}

/// Escaping distributes over appending one character.
pub proof fn lemma_escape_dots_push(cs: Seq<char>, c: char)
    ensures
        escape_dots(cs + seq![c]) == escape_dots(cs) + (if c == '.' {
            seq!['\\', '.']
        } else {
            seq![c]
        }),
    decreases cs.len(),
{
    reveal_with_fuel(escape_dots, 3);
    let whole = cs + seq![c];
    if cs.len() == 0 {
        assert(whole.subrange(1, whole.len() as int) =~= Seq::<char>::empty());
        assert(whole[0] == c);
        if c == '.' {
            assert(escape_dots(whole) =~= seq!['\\', '.']);
            assert(escape_dots(cs) + seq!['\\', '.'] =~= seq!['\\', '.']);
        } else {
            assert(escape_dots(whole) =~= seq![c]);
            assert(escape_dots(cs) + seq![c] =~= seq![c]);
        }
    } else {
        assert(whole[0] == cs[0]);
        assert(whole.subrange(1, whole.len() as int) =~= cs.subrange(1, cs.len() as int) + seq![c]);
        lemma_escape_dots_push(cs.subrange(1, cs.len() as int), c);
        if cs[0] == '.' {
            assert(escape_dots(whole) =~= escape_dots(cs) + (if c == '.' {
                seq!['\\', '.']
            } else {
                seq![c]
            }));
        } else {
            assert(escape_dots(whole) =~= escape_dots(cs) + (if c == '.' {
                seq!['\\', '.']
            } else {
                seq![c]
            }));
        }
    }
}

} // verus!
