//! The message assembler: header bit packing and unpacking, the four
//! record sections, the EDNS(0) extension, and the whole-message decode
//! and encode.

use vstd::prelude::*;

use crate::errors::ParseError;
use crate::qname::{read_qname, sname, wire_normal, wire_ok, wname, write_qname};
use crate::resource::{record_encodable, record_wire, sparse_record, Record, RecordV};
use crate::types::{
    class_code, class_from_code, opcode_code, opcode_from_code, rcode_code, rcode_from_code,
    type_code, type_from_code, Class, Opcode, QR, Rcode, Type,
};
use crate::wire::{be16_bytes, push_u16, sr_u16, sr_u8};

verus! {

broadcast use vstd::string::is_ascii_spec_bytes;

/// A question: a domain name, a query type, and a query class.
#[derive(Clone, Debug, PartialEq, Eq)]
pub struct Question {
    /// The domain name asked about, in ASCII (wire) form with a
    /// trailing dot.
    pub name: String,
    /// The question's type; every type is allowed here, including the
    /// pseudo-types.
    pub rtype: Type,
    /// The question's class.
    pub class: Class,
}

/// The mathematical value of a question.
pub ghost struct QuestionV {
    pub name: Seq<char>,
    pub rtype: Type,
    pub class: Class,
}

impl View for Question {
    type V = QuestionV;

    open spec fn view(&self) -> QuestionV {
        QuestionV { name: self.name@, rtype: self.rtype, class: self.class }
    }
}

/// EDNS(0) extension record, carried as a pseudo resource record in the
/// additional section (RFC 6891).
#[derive(Clone, Copy, Debug, PartialEq, Eq, Structural)]
pub struct Extension {
    /// Requestor's UDP payload size.
    pub payload_size: u16,
    /// Extended response code bits.
    pub extend_rcode: u8,
    /// Version of the extension.
    pub version: u8,
    /// The DNSSEC OK bit.
    pub dnssec_ok: bool,
}

impl Default for Extension {
    fn default() -> (r: Self)
        ensures
            r == (Extension { payload_size: 4096, extend_rcode: 0, version: 0, dnssec_ok: false }),
    {
        Extension { payload_size: 4096, extend_rcode: 0, version: 0, dnssec_ok: false }
    }
}

/// A DNS message: the root of every request and response.
#[derive(Clone, Debug, PartialEq)]
pub struct Message {
    /// Transaction identifier, copied into the reply.
    pub id: u16,
    /// Recursion desired.
    pub rd: bool,
    /// Truncation.
    pub tc: bool,
    /// Authoritative answer.
    pub aa: bool,
    /// The kind of query.
    pub opcode: Opcode,
    /// Query or response.
    pub qr: QR,
    /// Response code.
    pub rcode: Rcode,
    /// Checking disabled.
    pub cd: bool,
    /// Authentic data.
    pub ad: bool,
    /// Reserved bit; zero on the wire today.
    pub z: bool,
    /// Recursion available.
    pub ra: bool,
    /// The question section.
    pub questions: Vec<Question>,
    /// The answer section.
    pub answers: Vec<Record>,
    /// The authority section.
    pub authoritys: Vec<Record>,
    /// The additional section, not counting the extension.
    pub additionals: Vec<Record>,
    /// The optional EDNS(0) extension.
    pub extension: Option<Extension>,
}

/// The mathematical value of a message.
pub ghost struct MessageV {
    pub id: u16,
    pub rd: bool,
    pub tc: bool,
    pub aa: bool,
    pub opcode: Opcode,
    pub qr: QR,
    pub rcode: Rcode,
    pub cd: bool,
    pub ad: bool,
    pub z: bool,
    pub ra: bool,
    pub questions: Seq<QuestionV>,
    pub answers: Seq<RecordV>,
    pub authoritys: Seq<RecordV>,
    pub additionals: Seq<RecordV>,
    pub extension: Option<Extension>,
}

/// The values of a sequence of questions.
pub open spec fn questions_view(v: Seq<Question>) -> Seq<QuestionV> {
    v.map_values(|q: Question| q@)
}

/// The values of a sequence of records.
pub open spec fn records_view(v: Seq<Record>) -> Seq<RecordV> {
    v.map_values(|r: Record| r@)
}

impl View for Message {
    type V = MessageV;

    open spec fn view(&self) -> MessageV {
        MessageV {
            id: self.id,
            rd: self.rd,
            tc: self.tc,
            aa: self.aa,
            opcode: self.opcode,
            qr: self.qr,
            rcode: self.rcode,
            cd: self.cd,
            ad: self.ad,
            z: self.z,
            ra: self.ra,
            questions: questions_view(self.questions@),
            answers: records_view(self.answers@),
            authoritys: records_view(self.authoritys@),
            additionals: records_view(self.additionals@),
            extension: self.extension,
        }
    }
}

/// One bit as a byte.
pub open spec fn bit(b: bool) -> u8 {
    if b {
        1
    } else {
        0
    }
}

/// The first flag byte: QR, opcode, AA, TC, RD.
pub open spec fn pack_flags1(m: MessageV) -> u8 {
    (bit(m.qr == QR::Response) << 7) | (opcode_code(m.opcode) << 3) | (bit(m.aa) << 2) | (bit(m.tc)
        << 1) | bit(m.rd)
}

/// The second flag byte: RA, Z, AD, CD, and the low response-code bits.
pub open spec fn pack_flags2(m: MessageV) -> u8 {
    (bit(m.ra) << 7) | (bit(m.z) << 6) | (bit(m.ad) << 5) | (bit(m.cd) << 4) | (rcode_code(m.rcode)
        & 0x0F)
}

/// The wire bytes of one question.
pub open spec fn question_wire(q: QuestionV) -> Seq<u8> {
    wname(q.name) + be16_bytes(type_code(q.rtype)) + be16_bytes(class_code(q.class))
}

/// The wire bytes of a question section.
pub open spec fn questions_wire(qs: Seq<QuestionV>) -> Seq<u8>
    decreases qs.len(),
{
    if qs.len() == 0 {
        Seq::empty()
    } else {
        question_wire(qs[0]) + questions_wire(qs.subrange(1, qs.len() as int))
    }
}

/// The wire bytes of a record section.
pub open spec fn records_wire(rs: Seq<RecordV>) -> Seq<u8>
    decreases rs.len(),
{
    if rs.len() == 0 {
        Seq::empty()
    } else {
        record_wire(rs[0]) + records_wire(rs.subrange(1, rs.len() as int))
    }
}

/// The wire bytes of the extension pseudo-record: the root name, the
/// OPT type, the payload size in the class field, the extension fields
/// in the TTL field, and a zero RDLENGTH.
pub open spec fn ext_wire(e: Extension) -> Seq<u8> {
    seq![0u8] + be16_bytes(41) + be16_bytes(e.payload_size) + seq![
        e.extend_rcode,
        e.version,
        (if e.dnssec_ok {
            0x80u8
        } else {
            0u8
        }),
        0u8,
    ] + be16_bytes(0)
}

/// The number of entries the wire's additional-section count covers:
/// the additional records plus the extension, when present.
pub open spec fn ar_count(m: MessageV) -> int {
    m.additionals.len() + (if m.extension is Some {
        1int
    } else {
        0int
    })
}

/// Whether a message can be encoded: every name is a valid wire name,
/// every record is encodable, and every section count fits its 16-bit
/// wire field.
pub open spec fn msg_encodable(m: MessageV) -> bool {
    &&& forall|i: int| 0 <= i < m.questions.len() ==> wire_ok((#[trigger] m.questions[i]).name)
    &&& forall|i: int| 0 <= i < m.answers.len() ==> record_encodable(#[trigger] m.answers[i])
    &&& forall|i: int| 0 <= i < m.authoritys.len() ==> record_encodable(#[trigger] m.authoritys[i])
    &&& forall|i: int|
        0 <= i < m.additionals.len() ==> record_encodable(#[trigger] m.additionals[i])
    &&& m.questions.len() <= 65535
    &&& m.answers.len() <= 65535
    &&& m.authoritys.len() <= 65535
    &&& ar_count(m) <= 65535
}

/// The wire bytes of an encodable message: the 12-byte header, the
/// questions, the three record sections, and the extension last.
pub open spec fn message_wire(m: MessageV) -> Seq<u8> {
    be16_bytes(m.id) + seq![pack_flags1(m), pack_flags2(m)] + be16_bytes(
        m.questions.len() as u16,
    ) + be16_bytes(m.answers.len() as u16) + be16_bytes(m.authoritys.len() as u16) + be16_bytes(
        ar_count(m) as u16,
    ) + questions_wire(m.questions) + records_wire(m.answers) + records_wire(m.authoritys)
        + records_wire(m.additionals) + (if m.extension is Some {
        ext_wire(m.extension.unwrap())
    } else {
        Seq::empty()
    })
}

/// Reading the question section: `count` questions from `pos`.
pub open spec fn squestions(s: Seq<u8>, pos: int, count: int) -> Result<
    (Seq<QuestionV>, int),
    ParseError,
>
    decreases count,
    when count >= 0
{
    if count == 0 {
        Ok((Seq::empty(), pos))
    } else {
        match sname(s, s.len() as int, pos) {
            Err(e) => Err(e),
            Ok((name, p1)) => match sr_u16(s, s.len() as int, p1) {
                Err(e) => Err(e),
                Ok((tc, p2)) => match type_from_code(tc) {
                    Option::None => Err(ParseError::InvalidType(tc)),
                    Option::Some(t) => match sr_u16(s, s.len() as int, p2) {
                        Err(e) => Err(e),
                        Ok((cc, p3)) => match class_from_code(cc) {
                            Option::None => Err(ParseError::InvalidClass(cc)),
                            Option::Some(c) => match squestions(s, p3, count - 1) {
                                Err(e) => Err(e),
                                Ok((rest, p4)) => Ok(
                                    (seq![QuestionV { name, rtype: t, class: c }] + rest, p4),
                                ),
                            },
                        },
                    },
                },
            },
        }
    }
}

/// Reading the extension pseudo-record after its name and type: the
/// name must be the root name; the payload size sits in the class
/// field, the extension fields in the TTL field; RDATA is skipped.
pub open spec fn sext(s: Seq<u8>, name: Seq<char>, pos: int) -> Result<(Extension, int), ParseError> {
    if name != seq!['.'] {
        Err(ParseError::ExtensionNameNotRoot)
    } else {
        match sr_u16(s, s.len() as int, pos) {
            Err(e) => Err(e),
            Ok((payload_size, p1)) => match sr_u8(s, s.len() as int, p1) {
                Err(e) => Err(e),
                Ok((extend_rcode, p2)) => match sr_u8(s, s.len() as int, p2) {
                    Err(e) => Err(e),
                    Ok((version, p3)) => match sr_u8(s, s.len() as int, p3) {
                        Err(e) => Err(e),
                        Ok((fb, p4)) => match sr_u8(s, s.len() as int, p4) {
                            Err(e) => Err(e),
                            Ok((_z, p5)) => match sr_u16(s, s.len() as int, p5) {
                                Err(e) => Err(e),
                                Ok((rdlen, p6)) => {
                                    if p6 + rdlen <= s.len() {
                                        Ok(
                                            (
                                                Extension {
                                                    payload_size,
                                                    extend_rcode,
                                                    version,
                                                    dnssec_ok: fb & 0x80 == 0x80,
                                                },
                                                p6 + rdlen,
                                            ),
                                        )
                                    } else {
                                        Err(ParseError::Truncated)
                                    }
                                },
                            },
                        },
                    },
                },
            },
        }
    }
}

/// Reading a record section: `count` entries from `pos`.  In the
/// additional section an OPT entry becomes the extension; a second OPT
/// entry is an error.
pub open spec fn srecords(
    s: Seq<u8>,
    pos: int,
    count: int,
    additionals: bool,
    ext0: Option<Extension>,
) -> Result<(Seq<RecordV>, Option<Extension>, int), ParseError>
    decreases count,
    when count >= 0
{
    if count == 0 {
        Ok((Seq::empty(), ext0, pos))
    } else {
        match sname(s, s.len() as int, pos) {
            Err(e) => Err(e),
            Ok((name, p1)) => match sr_u16(s, s.len() as int, p1) {
                Err(e) => Err(e),
                Ok((tc, p2)) => match type_from_code(tc) {
                    Option::None => Err(ParseError::InvalidType(tc)),
                    Option::Some(t) => {
                        if additionals && t == Type::OPT {
                            if ext0 is Some {
                                Err(ParseError::MultipleExtensions)
                            } else {
                                match sext(s, name, p2) {
                                    Err(e) => Err(e),
                                    Ok((e, p3)) => srecords(
                                        s,
                                        p3,
                                        count - 1,
                                        additionals,
                                        Option::Some(e),
                                    ),
                                }
                            }
                        } else {
                            match sr_u16(s, s.len() as int, p2) {
                                Err(e) => Err(e),
                                Ok((cc, p3)) => match class_from_code(cc) {
                                    Option::None => Err(ParseError::InvalidClass(cc)),
                                    Option::Some(c) => match sparse_record(s, p3, name, t, c) {
                                        Err(e) => Err(e),
                                        Ok((rec, p4)) => match srecords(
                                            s,
                                            p4,
                                            count - 1,
                                            additionals,
                                            ext0,
                                        ) {
                                            Err(e) => Err(e),
                                            Ok((rest, e, p5)) => Ok((seq![rec] + rest, e, p5)),
                                        },
                                    },
                                },
                            }
                        }
                    },
                },
            },
        }
    }
}

/// Reading a whole message: the 12-byte header, the question section,
/// the three record sections, and nothing left over.
pub open spec fn sparse_message(s: Seq<u8>) -> Result<MessageV, ParseError> {
    match sr_u16(s, s.len() as int, 0) {
        Err(e) => Err(e),
        Ok((id, p1)) => match sr_u8(s, s.len() as int, p1) {
            Err(e) => Err(e),
            Ok((b1, p2)) => match opcode_from_code((b1 & 0x78) >> 3) {
                Option::None => Err(ParseError::InvalidOpcode((b1 & 0x78) >> 3)),
                Option::Some(opcode) => match sr_u8(s, s.len() as int, p2) {
                    Err(e) => Err(e),
                    Ok((b2, p3)) => match rcode_from_code(b2 & 0x0F) {
                        Option::None => Err(ParseError::InvalidRcode(b2 & 0x0F)),
                        Option::Some(rcode) => match sr_u16(s, s.len() as int, p3) {
                            Err(e) => Err(e),
                            Ok((qd, p4)) => match sr_u16(s, s.len() as int, p4) {
                                Err(e) => Err(e),
                                Ok((an, p5)) => match sr_u16(s, s.len() as int, p5) {
                                    Err(e) => Err(e),
                                    Ok((ns, p6)) => match sr_u16(s, s.len() as int, p6) {
                                        Err(e) => Err(e),
                                        Ok((ar, p7)) => match squestions(
                                            s,
                                            p7,
                                            qd as int,
                                        ) {
                                            Err(e) => Err(e),
                                            Ok((questions, p8)) => match srecords(
                                                s,
                                                p8,
                                                an as int,
                                                false,
                                                Option::None,
                                            ) {
                                                Err(e) => Err(e),
                                                Ok((answers, _e1, p9)) => match srecords(
                                                    s,
                                                    p9,
                                                    ns as int,
                                                    false,
                                                    Option::None,
                                                ) {
                                                    Err(e) => Err(e),
                                                    Ok(
                                                        (authoritys, _e2, p10),
                                                    ) => match srecords(
                                                        s,
                                                        p10,
                                                        ar as int,
                                                        true,
                                                        Option::None,
                                                    ) {
                                                        Err(e) => Err(e),
                                                        Ok(
                                                            (additionals, extension, p11),
                                                        ) => {
                                                            if p11 == s.len() {
                                                                Ok(
                                                                    MessageV {
                                                                        id,
                                                                        rd: b1 & 0x01 != 0,
                                                                        tc: b1 & 0x02 != 0,
                                                                        aa: b1 & 0x04 != 0,
                                                                        opcode,
                                                                        qr: if b1 & 0x80 != 0 {
                                                                            QR::Response
                                                                        } else {
                                                                            QR::Query
                                                                        },
                                                                        rcode,
                                                                        cd: b2 & 0x10 != 0,
                                                                        ad: b2 & 0x20 != 0,
                                                                        z: b2 & 0x40 != 0,
                                                                        ra: b2 & 0x80 != 0,
                                                                        questions,
                                                                        answers,
                                                                        authoritys,
                                                                        additionals,
                                                                        extension,
                                                                    },
                                                                )
                                                            } else {
                                                                Err(ParseError::TrailingBytes)
                                                            }
                                                        },
                                                    },
                                                },
                                            },
                                        },
                                    },
                                },
                            },
                        },
                    },
                },
            },
        },
    }
}

/// An ASCII character whose byte is 46 is the dot.
proof fn lemma_dot_byte(c: char)
    requires
        (c as u32) < 128,
        (c as u8) == 46,
    ensures
        c == '.',
{
}

impl Extension {
    /// Reads the extension pseudo-record after its name and type were
    /// read.  The name must be the root name.
    pub fn parse(buf: &[u8], pos: usize, name: &str) -> (r: Result<(Extension, usize), ParseError>)
        ensures
            match r {
                Ok((e, p)) => sext(buf@, name@, pos as int) == Ok::<_, ParseError>((e, p as int))
                    && p <= buf@.len(),
                Err(e) => sext(buf@, name@, pos as int) == Err::<(Extension, int), _>(e),
            },
    {
        let blen = buf.len();
        let root = name.is_ascii() && name.len() == 1 && name.as_bytes()[0] == 46;
        proof {
            if root {
                assert(name@.len() == 1);
                assert((name@[0] as u8) == 46);
                assert((name@[0] as u32) < 128) by {
                    assert('\0' <= name@[0] <= '\u{7f}');
                    crate::qname::lemma_char_ascii(name@[0]);
                }
                assert(name@[0] == '.') by {
                    lemma_dot_byte(name@[0]);
                }
                assert(name@ =~= seq!['.']);
            } else {
                assert(name@ != seq!['.']) by {
                    if name@ == seq!['.'] {
                        assert forall|i: int| 0 <= i < name@.len() implies '\0' <= #[trigger] name@[i]
                            <= '\u{7f}' by {
                            assert(name@[i] == '.');
                        }
                        assert(name.is_ascii());
                        assert(name@.len() == 1);
                        assert((name@[0] as u8) == 46);
                    }
                }
            }
        }
        if !root {
            return Err(ParseError::ExtensionNameNotRoot);
        }
        let (payload_size, p1) = match crate::wire::read_u16(buf, blen, pos) {
            Ok(v) => v,
            Err(e) => {
                return Err(e);
            },
        };
        let (extend_rcode, p2) = match crate::wire::read_u8(buf, blen, p1) {
            Ok(v) => v,
            Err(e) => {
                return Err(e);
            },
        };
        let (version, p3) = match crate::wire::read_u8(buf, blen, p2) {
            Ok(v) => v,
            Err(e) => {
                return Err(e);
            },
        };
        let (fb, p4) = match crate::wire::read_u8(buf, blen, p3) {
            Ok(v) => v,
            Err(e) => {
                return Err(e);
            },
        };
        let (_zb, p5) = match crate::wire::read_u8(buf, blen, p4) {
            Ok(v) => v,
            Err(e) => {
                return Err(e);
            },
        };
        let (rdlen, p6) = match crate::wire::read_u16(buf, blen, p5) {
            Ok(v) => v,
            Err(e) => {
                return Err(e);
            },
        };
        if (rdlen as usize) > blen - p6 {
            return Err(ParseError::Truncated);
        }
        let e = Extension {
            payload_size,
            extend_rcode,
            version,
            dnssec_ok: fb & 0x80 == 0x80,
        };
        Ok((e, p6 + rdlen as usize))
    }

    /// Writes the extension pseudo-record, appending to `out`: the root
    /// name, the OPT type, the payload size, the extension fields, and
    /// a zero RDLENGTH.
    pub fn write(&self, out: &mut Vec<u8>)
        ensures
            final(out)@ == old(out)@ + ext_wire(*self),
    {
        out.push(0);
        push_u16(out, 41);
        push_u16(out, self.payload_size);
        out.push(self.extend_rcode);
        out.push(self.version);
        if self.dnssec_ok {
            out.push(0x80);
        } else {
            out.push(0);
        }
        out.push(0);
        push_u16(out, 0);
        proof {
            assert(out@ =~= old(out)@ + ext_wire(*self));
        }
    }
}

/// Reads `count` questions starting at `pos`.
fn read_questions(buf: &[u8], pos: usize, count: u16) -> (r: Result<
    (Vec<Question>, usize),
    ParseError,
>)
    requires
        pos <= buf@.len(),
    ensures
        match r {
            Ok((qs, p)) => squestions(buf@, pos as int, count as int) == Ok::<_, ParseError>(
                (questions_view(qs@), p as int),
            ) && p <= buf@.len(),
            Err(e) => squestions(buf@, pos as int, count as int) == Err::<
                (Seq<QuestionV>, int),
                _,
            >(e),
        },
{
    let ghost s = buf@;
    let mut qs: Vec<Question> = Vec::new();
    let mut cur = pos;
    let mut i: u16 = 0;
    proof {
        assert(questions_view(qs@) =~= Seq::<QuestionV>::empty());
    }
    while i < count
        invariant
            s == buf@,
            i <= count,
            cur <= buf@.len(),
            (match squestions(s, cur as int, (count - i) as int) {
                Err(e) => squestions(s, pos as int, count as int) == Err::<
                    (Seq<QuestionV>, int),
                    _,
                >(e),
                Ok((rest, p)) => squestions(s, pos as int, count as int) == Ok::<_, ParseError>(
                    (questions_view(qs@) + rest, p),
                ),
            }),
        decreases count - i,
    {
        let (name, p1) = match read_qname(buf, buf.len(), cur) {
            Ok(v) => v,
            Err(e) => {
                return Err(e);
            },
        };
        let (tcode, p2) = match crate::wire::read_u16(buf, buf.len(), p1) {
            Ok(v) => v,
            Err(e) => {
                return Err(e);
            },
        };
        let t = match Type::from_u16(tcode) {
            Some(t) => t,
            None => {
                return Err(ParseError::InvalidType(tcode));
            },
        };
        let (ccode, p3) = match crate::wire::read_u16(buf, buf.len(), p2) {
            Ok(v) => v,
            Err(e) => {
                return Err(e);
            },
        };
        let c = match Class::from_u16(ccode) {
            Some(c) => c,
            None => {
                return Err(ParseError::InvalidClass(ccode));
            },
        };
        let ghost old_qs = questions_view(qs@);
        qs.push(Question { name, rtype: t, class: c });
        proof {
            assert(questions_view(qs@) =~= old_qs + seq![
                QuestionV { name: name@, rtype: t, class: c },
            ]);
            let r2 = squestions(s, p3 as int, (count - i - 1) as int);
            if r2 is Ok {
                let rest = r2.unwrap().0;
                assert((old_qs + seq![QuestionV { name: name@, rtype: t, class: c }]) + rest
                    =~= old_qs + (seq![QuestionV { name: name@, rtype: t, class: c }] + rest));
            }
        }
        cur = p3;
        i += 1;
    }
    proof {
        assert(questions_view(qs@) + Seq::<QuestionV>::empty() =~= questions_view(qs@));
    }
    Ok((qs, cur))
}

/// Reads `count` record-section entries starting at `pos`.  In the
/// additional section an OPT entry becomes the extension.
#[verifier::rlimit(80)]
fn read_records(buf: &[u8], pos: usize, count: u16, additionals: bool, ext0: Option<Extension>) -> (r:
    Result<(Vec<Record>, Option<Extension>, usize), ParseError>)
    requires
        pos <= buf@.len(),
    ensures
        match r {
            Ok((rs, e, p)) => srecords(buf@, pos as int, count as int, additionals, ext0) == Ok::<
                _,
                ParseError,
            >((records_view(rs@), e, p as int)) && p <= buf@.len(),
            Err(e) => srecords(buf@, pos as int, count as int, additionals, ext0) == Err::<
                (Seq<RecordV>, Option<Extension>, int),
                _,
            >(e),
        },
{
    let ghost s = buf@;
    let mut rs: Vec<Record> = Vec::new();
    let mut ext = ext0;
    let mut cur = pos;
    let mut i: u16 = 0;
    proof {
        assert(records_view(rs@) =~= Seq::<RecordV>::empty());
    }
    while i < count
        invariant
            s == buf@,
            i <= count,
            cur <= buf@.len(),
            (match srecords(s, cur as int, (count - i) as int, additionals, ext) {
                Err(e) => srecords(s, pos as int, count as int, additionals, ext0) == Err::<
                    (Seq<RecordV>, Option<Extension>, int),
                    _,
                >(e),
                Ok((rest, e, p)) => srecords(s, pos as int, count as int, additionals, ext0)
                    == Ok::<_, ParseError>((records_view(rs@) + rest, e, p)),
            }),
        decreases count - i,
    {
        let (name, p1) = match read_qname(buf, buf.len(), cur) {
            Ok(v) => v,
            Err(e) => {
                return Err(e);
            },
        };
        let (tcode, p2) = match crate::wire::read_u16(buf, buf.len(), p1) {
            Ok(v) => v,
            Err(e) => {
                return Err(e);
            },
        };
        let t = match Type::from_u16(tcode) {
            Some(t) => t,
            None => {
                return Err(ParseError::InvalidType(tcode));
            },
        };
        if additionals && matches!(t, Type::OPT) {
            if ext.is_some() {
                return Err(ParseError::MultipleExtensions);
            }
            let (e, p3) = match Extension::parse(buf, p2, name.as_str()) {
                Ok(v) => v,
                Err(err) => {
                    return Err(err);
                },
            };
            ext = Some(e);
            cur = p3;
        } else {
            let (ccode, p3) = match crate::wire::read_u16(buf, buf.len(), p2) {
                Ok(v) => v,
                Err(e) => {
                    return Err(e);
                },
            };
            let c = match Class::from_u16(ccode) {
                Some(c) => c,
                None => {
                    return Err(ParseError::InvalidClass(ccode));
                },
            };
            let ghost old_rs = records_view(rs@);
            let (rec, p4) = match Record::parse(buf, p3, name, t, c) {
                Ok(v) => v,
                Err(e) => {
                    return Err(e);
                },
            };
            proof {
                let r2 = srecords(s, p4 as int, (count - i - 1) as int, additionals, ext);
                if r2 is Ok {
                    let rest = r2.unwrap().0;
                    assert((old_rs + seq![rec@]) + rest =~= old_rs + (seq![rec@] + rest));
                }
            }
            rs.push(rec);
            proof {
                assert(records_view(rs@) =~= old_rs + seq![rec@]);
            }
            cur = p4;
        }
        i += 1;
    }
    proof {
        assert(records_view(rs@) + Seq::<RecordV>::empty() =~= records_view(rs@));
    }
    Ok((rs, ext, cur))
}

impl Message {
    /// Decodes a DNS message from its wire bytes.  Every malformed
    /// input is rejected with an error; no input panics or loops.
    pub fn from_slice(buf: &[u8]) -> (r: Result<Message, ParseError>)
        ensures
            match r {
                Ok(m) => sparse_message(buf@) == Ok::<_, ParseError>(m@),
                Err(e) => sparse_message(buf@) == Err::<MessageV, _>(e),
            },
    {
        let blen = buf.len();
        let (id, p1) = match crate::wire::read_u16(buf, blen, 0) {
            Ok(v) => v,
            Err(e) => {
                return Err(e);
            },
        };
        let (b1, p2) = match crate::wire::read_u8(buf, blen, p1) {
            Ok(v) => v,
            Err(e) => {
                return Err(e);
            },
        };
        let opcode = match Opcode::from_u8((b1 & 0x78) >> 3) {
            Some(op) => op,
            None => {
                return Err(ParseError::InvalidOpcode((b1 & 0x78) >> 3));
            },
        };
        let (b2, p3) = match crate::wire::read_u8(buf, blen, p2) {
            Ok(v) => v,
            Err(e) => {
                return Err(e);
            },
        };
        let rcode = match Rcode::from_u8(b2 & 0x0F) {
            Some(rc) => rc,
            None => {
                return Err(ParseError::InvalidRcode(b2 & 0x0F));
            },
        };
        let (qd, p4) = match crate::wire::read_u16(buf, blen, p3) {
            Ok(v) => v,
            Err(e) => {
                return Err(e);
            },
        };
        let (an, p5) = match crate::wire::read_u16(buf, blen, p4) {
            Ok(v) => v,
            Err(e) => {
                return Err(e);
            },
        };
        let (ns, p6) = match crate::wire::read_u16(buf, blen, p5) {
            Ok(v) => v,
            Err(e) => {
                return Err(e);
            },
        };
        let (ar, p7) = match crate::wire::read_u16(buf, blen, p6) {
            Ok(v) => v,
            Err(e) => {
                return Err(e);
            },
        };
        let (questions, p8) = match read_questions(buf, p7, qd) {
            Ok(v) => v,
            Err(e) => {
                return Err(e);
            },
        };
        let (answers, _e1, p9) = match read_records(buf, p8, an, false, None) {
            Ok(v) => v,
            Err(e) => {
                return Err(e);
            },
        };
        let (authoritys, _e2, p10) = match read_records(buf, p9, ns, false, None) {
            Ok(v) => v,
            Err(e) => {
                return Err(e);
            },
        };
        let (additionals, extension, p11) = match read_records(buf, p10, ar, true, None) {
            Ok(v) => v,
            Err(e) => {
                return Err(e);
            },
        };
        if p11 != blen {
            return Err(ParseError::TrailingBytes);
        }
        let m = Message {
            id,
            rd: b1 & 0x01 != 0,
            tc: b1 & 0x02 != 0,
            aa: b1 & 0x04 != 0,
            opcode,
            qr: if b1 & 0x80 != 0 {
                QR::Response
            } else {
                QR::Query
            },
            rcode,
            cd: b2 & 0x10 != 0,
            ad: b2 & 0x20 != 0,
            z: b2 & 0x40 != 0,
            ra: b2 & 0x80 != 0,
            questions,
            answers,
            authoritys,
            additionals,
            extension,
        };
        Ok(m)
    }
}

/// Writes the question section, appending to `out`.  On a question
/// whose name is not a valid wire name nothing more is appended.
fn write_questions(out: &mut Vec<u8>, qs: &Vec<Question>) -> (r: Result<(), ParseError>)
    ensures
        match r {
            Ok(()) => (forall|k: int|
                0 <= k < qs@.len() ==> wire_ok((#[trigger] questions_view(qs@)[k]).name))
                && final(out)@ == old(out)@ + questions_wire(questions_view(qs@)),
            Err(_) => exists|k: int|
                0 <= k < qs@.len() && !wire_ok((#[trigger] questions_view(qs@)[k]).name),
        },
{
    let ghost qv = questions_view(qs@);
    let qn = qs.len();
    let mut i: usize = 0;
    proof {
        assert(qv.subrange(0, qv.len() as int) =~= qv);
        assert(old(out)@ + questions_wire(qv) =~= out@ + questions_wire(qv));
    }
    while i < qn
        invariant
            qn == qs@.len(),
            qv == questions_view(qs@),
            i <= qn,
            forall|k: int| 0 <= k < i ==> wire_ok((#[trigger] qv[k]).name),
            old(out)@ + questions_wire(qv) == out@ + questions_wire(
                qv.subrange(i as int, qv.len() as int),
            ),
        decreases qn - i,
    {
        let q = &qs[i];
        let ghost rem = qv.subrange(i as int, qv.len() as int);
        match write_qname(out, q.name.as_str()) {
            Ok(()) => (),
            Err(e) => {
                proof {
                    assert(qv[i as int].name == q.name@);
                    assert(0 <= i < qs@.len() && !wire_ok(qv[i as int].name));
                }
                return Err(e);
            },
        }
        push_u16(out, q.rtype.to_u16());
        push_u16(out, q.class.to_u16());
        proof {
            assert(rem[0] == qv[i as int]);
            assert(rem.subrange(1, rem.len() as int) =~= qv.subrange(
                (i + 1) as int,
                qv.len() as int,
            ));
            assert(questions_wire(rem) =~= question_wire(rem[0]) + questions_wire(
                qv.subrange((i + 1) as int, qv.len() as int),
            ));
            assert(old(out)@ + questions_wire(qv) =~= out@ + questions_wire(
                qv.subrange((i + 1) as int, qv.len() as int),
            ));
        }
        i += 1;
    }
    proof {
        assert(qv.subrange(qn as int, qv.len() as int) =~= Seq::<QuestionV>::empty());
        assert(out@ =~= old(out)@ + questions_wire(qv));
    }
    Ok(())
}

/// Writes one record section, appending to `out`.  On an unencodable
/// record nothing more is appended.
fn write_record_section(out: &mut Vec<u8>, recs: &Vec<Record>) -> (r: Result<(), ParseError>)
    ensures
        match r {
            Ok(()) => (forall|k: int|
                0 <= k < recs@.len() ==> record_encodable(#[trigger] records_view(recs@)[k]))
                && final(out)@ == old(out)@ + records_wire(records_view(recs@)),
            Err(_) => exists|k: int|
                0 <= k < recs@.len() && !record_encodable(#[trigger] records_view(recs@)[k]),
        },
{
    let ghost rv = records_view(recs@);
    let rn = recs.len();
    let mut i: usize = 0;
    proof {
        assert(rv.subrange(0, rv.len() as int) =~= rv);
        assert(old(out)@ + records_wire(rv) =~= out@ + records_wire(rv));
    }
    while i < rn
        invariant
            rn == recs@.len(),
            rv == records_view(recs@),
            i <= rn,
            forall|k: int| 0 <= k < i ==> record_encodable(#[trigger] rv[k]),
            old(out)@ + records_wire(rv) == out@ + records_wire(
                rv.subrange(i as int, rv.len() as int),
            ),
        decreases rn - i,
    {
        let ghost rem = rv.subrange(i as int, rv.len() as int);
        match recs[i].write(out) {
            Ok(()) => (),
            Err(e) => {
                proof {
                    assert(rv[i as int] == recs@[i as int]@);
                    assert(0 <= i < recs@.len() && !record_encodable(rv[i as int]));
                }
                return Err(e);
            },
        }
        proof {
            assert(rem[0] == rv[i as int]);
            assert(rem.subrange(1, rem.len() as int) =~= rv.subrange(
                (i + 1) as int,
                rv.len() as int,
            ));
            assert(records_wire(rem) =~= record_wire(rem[0]) + records_wire(
                rv.subrange((i + 1) as int, rv.len() as int),
            ));
            assert(old(out)@ + records_wire(rv) =~= out@ + records_wire(
                rv.subrange((i + 1) as int, rv.len() as int),
            ));
        }
        i += 1;
    }
    proof {
        assert(rv.subrange(rn as int, rv.len() as int) =~= Seq::<RecordV>::empty());
        assert(out@ =~= old(out)@ + records_wire(rv));
    }
    Ok(())
}

/// What idna's domain-to-ASCII algorithm returns for a domain: the
/// ASCII form when the conversion succeeds, nothing when it fails.
/// The outcome depends on the domain alone.
pub uninterp spec fn idna_ascii_of(domain: Seq<char>) -> Option<Seq<char>>;

/// Relies on idna::domain_to_ascii: returns the ASCII form of a domain
/// name (lower-cased, Punycode where needed), failing exactly when the
/// conversion does.
#[verifier::external_body]
fn domain_to_ascii(domain: &str) -> (r: Result<String, ParseError>)
    ensures
        r is Ok <==> idna_ascii_of(domain@) is Some,
        r matches Ok(s) ==> s@ == idna_ascii_of(domain@).unwrap() && s.is_ascii(),
        r matches Err(e) ==> e == ParseError::InvalidDomain,
{
    match idna::domain_to_ascii(domain) {
        Ok(s) => Ok(s),
        Err(_) => Err(ParseError::InvalidDomain),
    }
}

/// The ASCII form of a domain brought to the trailing-dot normal form.
pub open spec fn normalize_name(a: Seq<char>) -> Seq<char> {
    if a.len() > 0 && a[a.len() - 1] == '.' {
        a
    } else {
        a + seq!['.']
    }
}

impl Message {
    /// A random transaction identifier.  Relies on rand::random: a
    /// value from the thread-local generator; nothing is promised of
    /// it.
    #[verifier::external_body]
    pub fn random_id() -> u16 {
        rand::random()
    }

    /// Adds a question for `domain`, first normalized through idna's
    /// domain-to-ASCII conversion and stored with a trailing dot.
    /// Succeeds exactly when the conversion succeeds and its result,
    /// brought to trailing-dot form, is a valid wire name; on failure
    /// the message is unchanged.
    pub fn add_question(&mut self, domain: &str, rtype: Type, class: Class) -> (r: Result<
        (),
        ParseError,
    >)
        ensures
            r is Ok <==> (idna_ascii_of(domain@) matches Some(a) && wire_ok(normalize_name(a))),
            match r {
                Ok(()) => {
                    let n = normalize_name(idna_ascii_of(domain@).unwrap());
                    &&& wire_normal(n)
                    &&& final(self)@ == (MessageV {
                        questions: old(self)@.questions + seq![
                            QuestionV { name: n, rtype, class },
                        ],
                        ..old(self)@
                    })
                },
                Err(_) => final(self)@ == old(self)@,
            },
    {
        let ascii = match domain_to_ascii(domain) {
            Ok(s) => s,
            Err(e) => {
                return Err(e);
            },
        };
        let ghost a = ascii@;
        let alen = ascii.as_str().unicode_len();
        let mut name = ascii;
        let ends_with_dot = alen > 0 && name.as_str().get_ascii(alen - 1) == 46;
        proof {
            if alen > 0 {
                let last = a[a.len() - 1];
                assert((last as u32) < 128) by {
                    assert('\0' <= last <= '\u{7f}');
                    crate::qname::lemma_char_ascii(last);
                }
                if (last as u8) == 46 {
                    lemma_dot_byte(last);
                } else {
                    assert(last != '.');
                }
            }
            assert(ends_with_dot == (a.len() > 0 && a[a.len() - 1] == '.'));
        }
        if !ends_with_dot {
            crate::strutil::push_char(&mut name, '.');
        }
        proof {
            if ends_with_dot {
                assert(name@ == a);
                assert(normalize_name(a) == a);
            } else {
                assert(name@ == a + seq!['.']);
            }
            assert(name@ == normalize_name(idna_ascii_of(domain@).unwrap()));
        }
        // validate the name by writing it into a scratch buffer
        let mut scratch: Vec<u8> = Vec::new();
        match write_qname(&mut scratch, name.as_str()) {
            Ok(()) => (),
            Err(e) => {
                proof {
                    assert(!wire_ok(normalize_name(idna_ascii_of(domain@).unwrap())));
                }
                return Err(e);
            },
        }
        proof {
            assert(wire_ok(name@));
            assert(wire_normal(name@)) by {
                let n = name@;
                assert(n.len() > 0);
                if n != seq!['.'] {
                    assert(n[n.len() - 1] == '.');
                }
            }
        }
        let ghost old_qs = questions_view(self.questions@);
        self.questions.push(Question { name, rtype, class });
        proof {
            assert(questions_view(self.questions@) =~= old_qs + seq![
                QuestionV { name: normalize_name(idna_ascii_of(domain@).unwrap()), rtype, class },
            ]);
        }
        Ok(())
    }

    /// Sets the EDNS(0) extension record of this message.
    pub fn add_extension(&mut self, ext: Extension)
        ensures
            final(self)@ == (MessageV { extension: Some(ext), ..old(self)@ }),
    {
        self.extension = Some(ext);
    }

    /// Encodes this message as its wire bytes: the 12-byte header, the
    /// questions, the three record sections, and the extension last.
    /// Fails when a name is not a valid wire name, a record cannot be
    /// represented, or a section count does not fit 16 bits.
    #[verifier::rlimit(50)]
    pub fn to_vec(&self) -> (r: Result<Vec<u8>, ParseError>)
        ensures
            match r {
                Ok(v) => msg_encodable(self@) && v@ == message_wire(self@),
                Err(_) => !msg_encodable(self@),
            },
    {
        let ghost m = self@;
        if self.questions.len() > 65535 || self.answers.len() > 65535 || self.authoritys.len()
            > 65535 || self.additionals.len() > 65535 {
            return Err(ParseError::TooManyEntries);
        }
        let ar: usize = self.additionals.len() + (if self.extension.is_some() {
            1
        } else {
            0
        });
        if ar > 65535 {
            return Err(ParseError::TooManyEntries);
        }
        let mut req: Vec<u8> = Vec::new();
        push_u16(&mut req, self.id);
        let qrb: u8 = if self.qr.to_bool() {
            1
        } else {
            0
        };
        let b1: u8 = (qrb << 7) | (self.opcode.to_u8() << 3) | ((if self.aa {
            1u8
        } else {
            0u8
        }) << 2) | ((if self.tc {
            1u8
        } else {
            0u8
        }) << 1) | (if self.rd {
            1u8
        } else {
            0u8
        });
        req.push(b1);
        let b2: u8 = ((if self.ra {
            1u8
        } else {
            0u8
        }) << 7) | ((if self.z {
            1u8
        } else {
            0u8
        }) << 6) | ((if self.ad {
            1u8
        } else {
            0u8
        }) << 5) | ((if self.cd {
            1u8
        } else {
            0u8
        }) << 4) | (self.rcode.to_u8() & 0x0F);
        req.push(b2);
        proof {
            assert(b1 == pack_flags1(m));
            assert(b2 == pack_flags2(m));
        }
        push_u16(&mut req, self.questions.len() as u16);
        push_u16(&mut req, self.answers.len() as u16);
        push_u16(&mut req, self.authoritys.len() as u16);
        push_u16(&mut req, ar as u16);
        let ghost header = be16_bytes(m.id) + seq![pack_flags1(m), pack_flags2(m)] + be16_bytes(
            m.questions.len() as u16,
        ) + be16_bytes(m.answers.len() as u16) + be16_bytes(m.authoritys.len() as u16)
            + be16_bytes(ar_count(m) as u16);
        proof {
            assert(req@ =~= header);
        }
        // the question section
        match write_questions(&mut req, &self.questions) {
            Ok(()) => (),
            Err(e) => {
                proof {
                    let k = choose|k: int|
                        0 <= k < self.questions@.len() && !wire_ok(
                            (#[trigger] questions_view(self.questions@)[k]).name,
                        );
                    assert(!wire_ok(m.questions[k].name));
                }
                return Err(e);
            },
        }
        proof {
            assert(req@ =~= header + questions_wire(m.questions));
        }
        let ghost with_q = header + questions_wire(m.questions);
        // the three record sections
        match write_record_section(&mut req, &self.answers) {
            Ok(()) => (),
            Err(e) => {
                proof {
                    let k = choose|k: int|
                        0 <= k < self.answers@.len() && !record_encodable(
                            #[trigger] records_view(self.answers@)[k],
                        );
                    assert(!record_encodable(m.answers[k]));
                }
                return Err(e);
            },
        }
        proof {
            assert(req@ =~= with_q + records_wire(m.answers));
        }
        let ghost with_an = with_q + records_wire(m.answers);
        match write_record_section(&mut req, &self.authoritys) {
            Ok(()) => (),
            Err(e) => {
                proof {
                    let k = choose|k: int|
                        0 <= k < self.authoritys@.len() && !record_encodable(
                            #[trigger] records_view(self.authoritys@)[k],
                        );
                    assert(!record_encodable(m.authoritys[k]));
                }
                return Err(e);
            },
        }
        proof {
            assert(req@ =~= with_an + records_wire(m.authoritys));
        }
        let ghost with_ns = with_an + records_wire(m.authoritys);
        match write_record_section(&mut req, &self.additionals) {
            Ok(()) => (),
            Err(e) => {
                proof {
                    let k = choose|k: int|
                        0 <= k < self.additionals@.len() && !record_encodable(
                            #[trigger] records_view(self.additionals@)[k],
                        );
                    assert(!record_encodable(m.additionals[k]));
                }
                return Err(e);
            },
        }
        proof {
            assert(req@ =~= with_ns + records_wire(m.additionals));
        }
        match &self.extension {
            Some(e) => {
                e.write(&mut req);
            },
            None => (),
        }
        proof {
            assert(req@ =~= message_wire(m));
        }
        Ok(req)
    }
}

/// A fresh message with sensible defaults for querying: a random
/// identifier, recursion desired, authentic data asked for, and every
/// section empty.
impl Default for Message {
    fn default() -> (r: Self)
        ensures
            r@.rd == true && r@.tc == false && r@.aa == false && r@.opcode == Opcode::Query
                && r@.qr == QR::Query && r@.rcode == Rcode::NoError && r@.cd == false && r@.ad
                == true && r@.z == false && r@.ra == false,
            r@.questions.len() == 0 && r@.answers.len() == 0 && r@.authoritys.len() == 0
                && r@.additionals.len() == 0 && r@.extension is None,
    {
        let m = Message {
            id: Message::random_id(),
            rd: true,
            tc: false,
            aa: false,
            opcode: Opcode::Query,
            qr: QR::Query,
            rcode: Rcode::NoError,
            cd: false,
            ad: true,
            z: false,
            ra: false,
            questions: Vec::new(),
            answers: Vec::new(),
            authoritys: Vec::new(),
            additionals: Vec::new(),
            extension: None,
        };
        proof {
            assert(questions_view(m.questions@) =~= Seq::<QuestionV>::empty());
            assert(records_view(m.answers@) =~= Seq::<RecordV>::empty());
            assert(records_view(m.authoritys@) =~= Seq::<RecordV>::empty());
            assert(records_view(m.additionals@) =~= Seq::<RecordV>::empty());
        }
        m
    }
}

} // verus!
