//! Decoding an encoded message gives the message back: the round-trip
//! law for every message the builder API can produce, with questions
//! and an optional extension.

use vstd::prelude::*;

use crate::message::{
    ar_count, bit, ext_wire, message_wire, pack_flags1, pack_flags2, question_wire, questions_wire,
    records_wire, sext, sparse_message, squestions, srecords, MessageV, QuestionV,
};
use crate::qname::{lemma_qname_round_trip, sname, wire_normal, wname};
use crate::types::{
    class_code, lemma_class_code_round_trip, lemma_opcode_code_round_trip,
    lemma_rcode_code_round_trip, lemma_type_code_round_trip, opcode_code, opcode_from_code,
    rcode_code, rcode_from_code, type_code, type_from_code, QR,
};
use crate::wire::{be16_bytes, lemma_sr_u16_bytes, sr_u16, sr_u8};

verus! {

/// Unpacking the first flag byte recovers each packed field.
proof fn lemma_flags1_unpack(b: u8, qrb: u8, opc: u8, aab: u8, tcb: u8, rdb: u8)
    requires
        qrb <= 1,
        aab <= 1,
        tcb <= 1,
        rdb <= 1,
        opc < 16,
        b == (qrb << 7) | (opc << 3) | (aab << 2) | (tcb << 1) | rdb,
    ensures
        (b & 0x80 != 0) == (qrb == 1),
        ((b & 0x78) >> 3) == opc,
        (b & 0x04 != 0) == (aab == 1),
        (b & 0x02 != 0) == (tcb == 1),
        (b & 0x01 != 0) == (rdb == 1),
{
    assert((((qrb << 7) | (opc << 3) | (aab << 2) | (tcb << 1) | rdb) & 0x80 != 0) == (qrb == 1)
        && ((((qrb << 7) | (opc << 3) | (aab << 2) | (tcb << 1) | rdb) & 0x78) >> 3) == opc && (((
    qrb << 7) | (opc << 3) | (aab << 2) | (tcb << 1) | rdb) & 0x04 != 0) == (aab == 1) && (((qrb
        << 7) | (opc << 3) | (aab << 2) | (tcb << 1) | rdb) & 0x02 != 0) == (tcb == 1) && (((qrb
        << 7) | (opc << 3) | (aab << 2) | (tcb << 1) | rdb) & 0x01 != 0) == (rdb == 1)) by (bit_vector)
        requires
            qrb <= 1,
            aab <= 1,
            tcb <= 1,
            rdb <= 1,
            opc < 16,
    ;
}

/// Unpacking the second flag byte recovers each packed field.
proof fn lemma_flags2_unpack(b: u8, rab: u8, zb: u8, adb: u8, cdb: u8, rc: u8)
    requires
        rab <= 1,
        zb <= 1,
        adb <= 1,
        cdb <= 1,
        rc < 16,
        b == (rab << 7) | (zb << 6) | (adb << 5) | (cdb << 4) | (rc & 0x0F),
    ensures
        (b & 0x80 != 0) == (rab == 1),
        (b & 0x40 != 0) == (zb == 1),
        (b & 0x20 != 0) == (adb == 1),
        (b & 0x10 != 0) == (cdb == 1),
        (b & 0x0F) == rc,
{
    assert((((rab << 7) | (zb << 6) | (adb << 5) | (cdb << 4) | (rc & 0x0F)) & 0x80 != 0) == (rab
        == 1) && ((((rab << 7) | (zb << 6) | (adb << 5) | (cdb << 4) | (rc & 0x0F))) & 0x40 != 0)
        == (zb == 1) && ((((rab << 7) | (zb << 6) | (adb << 5) | (cdb << 4) | (rc & 0x0F))) & 0x20
        != 0) == (adb == 1) && ((((rab << 7) | (zb << 6) | (adb << 5) | (cdb << 4) | (rc & 0x0F)))
        & 0x10 != 0) == (cdb == 1) && ((((rab << 7) | (zb << 6) | (adb << 5) | (cdb << 4) | (rc
        & 0x0F))) & 0x0F) == rc) by (bit_vector)
        requires
            rab <= 1,
            zb <= 1,
            adb <= 1,
            cdb <= 1,
            rc < 16,
    ;
}

/// Reading back an encoded question section yields exactly its
/// questions.
proof fn lemma_questions_round_trip(s: Seq<u8>, pos: int, qs: Seq<QuestionV>)
    requires
        forall|i: int| 0 <= i < qs.len() ==> wire_normal((#[trigger] qs[i]).name),
        0 <= pos,
        pos + questions_wire(qs).len() <= s.len(),
        s.subrange(pos, pos + questions_wire(qs).len()) == questions_wire(qs),
    ensures
        squestions(s, pos, qs.len() as int) == Ok::<_, crate::errors::ParseError>(
            (qs, pos + questions_wire(qs).len()),
        ),
    decreases qs.len(),
{
    let w = questions_wire(qs);
    if qs.len() == 0 {
        assert(w.len() == 0);
        assert(squestions(s, pos, 0) == Ok::<_, crate::errors::ParseError>(
            (Seq::<QuestionV>::empty(), pos),
        ));
        assert(qs =~= Seq::<QuestionV>::empty());
    } else {
        let q = qs[0];
        let qw = question_wire(q);
        let rest = qs.subrange(1, qs.len() as int);
        let restw = questions_wire(rest);
        assert(w =~= qw + restw);
        let nw = wname(q.name);
        assert(wire_normal(q.name));
        // the name bytes
        assert(s.subrange(pos, pos + nw.len()) =~= nw) by {
            assert forall|k: int| 0 <= k < nw.len() implies s.subrange(pos, pos + nw.len())[k]
                == nw[k] by {
                assert(s.subrange(pos, pos + nw.len())[k] == s[pos + k]);
                assert(s[pos + k] == w[k]);
                assert(w[k] == qw[k]);
                assert(qw[k] == nw[k]);
            }
        }
        lemma_qname_round_trip(s, s.len() as int, pos, q.name);
        let p1 = pos + nw.len();
        // the type code
        assert(s.subrange(p1, p1 + 2) =~= be16_bytes(type_code(q.rtype))) by {
            assert forall|k: int| 0 <= k < 2 implies s.subrange(p1, p1 + 2)[k] == be16_bytes(
                type_code(q.rtype),
            )[k] by {
                assert(s.subrange(p1, p1 + 2)[k] == s[p1 + k]);
                assert(s[p1 + k] == w[nw.len() + k]);
                assert(w[nw.len() + k] == qw[nw.len() + k]);
            }
        }
        lemma_sr_u16_bytes(s, p1, type_code(q.rtype));
        lemma_type_code_round_trip(q.rtype);
        let p2 = p1 + 2;
        // the class code
        assert(s.subrange(p2, p2 + 2) =~= be16_bytes(class_code(q.class))) by {
            assert forall|k: int| 0 <= k < 2 implies s.subrange(p2, p2 + 2)[k] == be16_bytes(
                class_code(q.class),
            )[k] by {
                assert(s.subrange(p2, p2 + 2)[k] == s[p2 + k]);
                assert(s[p2 + k] == w[nw.len() + 2 + k]);
                assert(w[nw.len() + 2 + k] == qw[nw.len() + 2 + k]);
            }
        }
        lemma_sr_u16_bytes(s, p2, class_code(q.class));
        lemma_class_code_round_trip(q.class);
        let p3 = p2 + 2;
        // the rest of the section
        assert(forall|i: int| 0 <= i < rest.len() ==> wire_normal((#[trigger] rest[i]).name));
        assert(s.subrange(p3, p3 + restw.len()) =~= restw) by {
            assert forall|k: int| 0 <= k < restw.len() implies s.subrange(p3, p3 + restw.len())[k]
                == restw[k] by {
                assert(s.subrange(p3, p3 + restw.len())[k] == s[p3 + k]);
                assert(s[p3 + k] == w[qw.len() + k]);
            }
        }
        lemma_questions_round_trip(s, p3, rest);
        assert(seq![q] + rest =~= qs);
        assert(p3 + restw.len() == pos + w.len());
    }
}

/// Reading back the header of an encoded message yields its fields.
#[verifier::rlimit(100)]
proof fn lemma_rt_header(m: MessageV)
    requires
        m.answers.len() == 0,
        m.authoritys.len() == 0,
        m.additionals.len() == 0,
        m.questions.len() <= 65535,
        forall|i: int| 0 <= i < m.questions.len() ==> wire_normal((#[trigger] m.questions[i]).name),
    ensures
        ({
            let s = message_wire(m);
            let qw = questions_wire(m.questions);
            &&& s.len() == 12 + qw.len() + (if m.extension is Some {
                11int
            } else {
                0int
            })
            &&& sr_u16(s, s.len() as int, 0) == Ok::<_, crate::errors::ParseError>((m.id, 2int))
            &&& sr_u8(s, s.len() as int, 2) == Ok::<_, crate::errors::ParseError>((pack_flags1(m), 3int))
            &&& sr_u8(s, s.len() as int, 3) == Ok::<_, crate::errors::ParseError>((pack_flags2(m), 4int))
            &&& opcode_from_code((pack_flags1(m) & 0x78) >> 3) == Some(m.opcode)
            &&& rcode_from_code(pack_flags2(m) & 0x0F) == Some(m.rcode)
            &&& (pack_flags1(m) & 0x80 != 0) == (m.qr == QR::Response)
            &&& (pack_flags1(m) & 0x04 != 0) == m.aa
            &&& (pack_flags1(m) & 0x02 != 0) == m.tc
            &&& (pack_flags1(m) & 0x01 != 0) == m.rd
            &&& (pack_flags2(m) & 0x80 != 0) == m.ra
            &&& (pack_flags2(m) & 0x40 != 0) == m.z
            &&& (pack_flags2(m) & 0x20 != 0) == m.ad
            &&& (pack_flags2(m) & 0x10 != 0) == m.cd
            &&& sr_u16(s, s.len() as int, 4) == Ok::<_, crate::errors::ParseError>(
                (m.questions.len() as u16, 6int),
            )
            &&& sr_u16(s, s.len() as int, 6) == Ok::<_, crate::errors::ParseError>((0u16, 8int))
            &&& sr_u16(s, s.len() as int, 8) == Ok::<_, crate::errors::ParseError>((0u16, 10int))
            &&& sr_u16(s, s.len() as int, 10) == Ok::<_, crate::errors::ParseError>(
                (ar_count(m) as u16, 12int),
            )
            &&& squestions(s, 12, m.questions.len() as int) == Ok::<_, crate::errors::ParseError>(
                (m.questions, 12 + qw.len() as int),
            )
        }),
{
    let s = message_wire(m);
    let qw = questions_wire(m.questions);
    let ew: Seq<u8> = if m.extension is Some {
        ext_wire(m.extension.unwrap())
    } else {
        Seq::empty()
    };
    let qd: u16 = m.questions.len() as u16;
    let ar: u16 = ar_count(m) as u16;
    let b1 = pack_flags1(m);
    let b2 = pack_flags2(m);
    assert(records_wire(m.answers) =~= Seq::<u8>::empty());
    assert(records_wire(m.authoritys) =~= Seq::<u8>::empty());
    assert(records_wire(m.additionals) =~= Seq::<u8>::empty());
    let hdr = be16_bytes(m.id) + seq![b1, b2] + be16_bytes(qd) + be16_bytes(0u16) + be16_bytes(0u16)
        + be16_bytes(ar);
    assert(ew.len() == (if m.extension is Some {
        11int
    } else {
        0int
    })) by {
        if m.extension is Some {
            assert(ext_wire(m.extension.unwrap()).len() == 11);
        }
    }
    assert(s =~= hdr + qw + ew);
    assert(hdr.len() == 12);
    assert(s.subrange(0, 2) =~= be16_bytes(m.id));
    lemma_sr_u16_bytes(s, 0, m.id);
    assert(s[2] == b1);
    assert(s[3] == b2);
    lemma_opcode_code_round_trip(m.opcode);
    lemma_rcode_code_round_trip(m.rcode);
    lemma_flags1_unpack(
        b1,
        bit(m.qr == QR::Response),
        opcode_code(m.opcode),
        bit(m.aa),
        bit(m.tc),
        bit(m.rd),
    );
    lemma_flags2_unpack(b2, bit(m.ra), bit(m.z), bit(m.ad), bit(m.cd), rcode_code(m.rcode));
    assert(rcode_code(m.rcode) & 0x0F == rcode_code(m.rcode)) by {
        let rc = rcode_code(m.rcode);
        assert(rc < 16 ==> rc & 0x0F == rc) by (bit_vector);
    }
    assert(s.subrange(4, 6) =~= be16_bytes(qd));
    lemma_sr_u16_bytes(s, 4, qd);
    assert(s.subrange(6, 8) =~= be16_bytes(0u16));
    lemma_sr_u16_bytes(s, 6, 0u16);
    assert(s.subrange(8, 10) =~= be16_bytes(0u16));
    lemma_sr_u16_bytes(s, 8, 0u16);
    assert(s.subrange(10, 12) =~= be16_bytes(ar));
    lemma_sr_u16_bytes(s, 10, ar);
    assert(s.subrange(12, 12 + qw.len() as int) =~= qw) by {
        assert forall|k: int| 0 <= k < qw.len() implies s.subrange(12, 12 + qw.len() as int)[k]
            == qw[k] by {
            assert(s.subrange(12, 12 + qw.len() as int)[k] == s[12 + k]);
            assert(s[12 + k] == (hdr + qw + ew)[12 + k]);
        }
    }
    lemma_questions_round_trip(s, 12, m.questions);
}

/// Reading back an encoded extension as the only additional entry
/// yields it.
#[verifier::rlimit(100)]
proof fn lemma_rt_ext(s: Seq<u8>, pos: int, e: crate::message::Extension)
    requires
        0 <= pos,
        pos + 11 == s.len(),
        s.subrange(pos, s.len() as int) == ext_wire(e),
    ensures
        srecords(s, pos, 1, true, Option::None) == Ok::<_, crate::errors::ParseError>(
            (Seq::<crate::resource::RecordV>::empty(), Some(e), s.len() as int),
        ),
{
    let ew = ext_wire(e);
    let fb: u8 = if e.dnssec_ok {
        0x80u8
    } else {
        0u8
    };
    let flat = seq![
        0u8,
        be16_bytes(41u16)[0],
        be16_bytes(41u16)[1],
        be16_bytes(e.payload_size)[0],
        be16_bytes(e.payload_size)[1],
        e.extend_rcode,
        e.version,
        fb,
        0u8,
        be16_bytes(0u16)[0],
        be16_bytes(0u16)[1],
    ];
    assert(ew =~= flat);
    assert(ew.len() == 11);
    assert forall|k: int| 0 <= k < 11 implies s[pos + k] == #[trigger] ew[k] by {
        assert(ew[k] == s.subrange(pos, s.len() as int)[k]);
    }
    assert(s[pos] == 0);
    assert(s.subrange(pos, pos + 1) =~= wname(seq!['.']));
    lemma_qname_round_trip(s, s.len() as int, pos, seq!['.']);
    assert(sname(s, s.len() as int, pos) == Ok::<_, crate::errors::ParseError>(
        (seq!['.'], pos + 1),
    ));
    assert(s.subrange(pos + 1, pos + 3) =~= be16_bytes(41u16)) by {
        assert(s[pos + 1] == flat[1]);
        assert(s[pos + 2] == flat[2]);
    }
    lemma_sr_u16_bytes(s, pos + 1, 41u16);
    assert(type_from_code(41) == Some(crate::types::Type::OPT));
    let pe = pos + 3;
    assert(s.subrange(pe, pe + 2) =~= be16_bytes(e.payload_size)) by {
        assert(s[pos + 3] == flat[3]);
        assert(s[pos + 4] == flat[4]);
    }
    lemma_sr_u16_bytes(s, pe, e.payload_size);
    assert(s[pe + 2] == e.extend_rcode) by {
        assert(s[pos + 5] == flat[5]);
    }
    assert(s[pe + 3] == e.version) by {
        assert(s[pos + 6] == flat[6]);
    }
    assert(s[pe + 4] == fb) by {
        assert(s[pos + 7] == flat[7]);
    }
    assert(s[pe + 5] == 0) by {
        assert(s[pos + 8] == flat[8]);
    }
    assert(s.subrange(pe + 6, pe + 8) =~= be16_bytes(0u16)) by {
        assert(s[pos + 9] == flat[9]);
        assert(s[pos + 10] == flat[10]);
    }
    lemma_sr_u16_bytes(s, pe + 6, 0u16);
    assert((0x80u8 & 0x80u8 == 0x80u8) && (0u8 & 0x80u8 != 0x80u8)) by (bit_vector);
    assert(sext(s, seq!['.'], pe) == Ok::<_, crate::errors::ParseError>((e, pe + 8)));
    assert(srecords(s, pe + 8, 0, true, Some(e)) == Ok::<_, crate::errors::ParseError>(
        (Seq::<crate::resource::RecordV>::empty(), Some(e), pe + 8),
    ));
    assert(srecords(s, pos, 1, true, Option::None) == Ok::<_, crate::errors::ParseError>(
        (Seq::<crate::resource::RecordV>::empty(), Some(e), pe + 8),
    ));
}

/// Decoding an encoded message yields the message back.
///
/// This is the round-trip law for every message the public builder API
/// can construct: questions whose names are in the trailing-dot wire
/// normal form, an optional extension, and empty answer, authority and
/// additional sections.
#[verifier::rlimit(100)]
pub proof fn lemma_encode_decode_round_trip(m: MessageV)
    requires
        m.answers.len() == 0,
        m.authoritys.len() == 0,
        m.additionals.len() == 0,
        m.questions.len() <= 65535,
        forall|i: int| 0 <= i < m.questions.len() ==> wire_normal((#[trigger] m.questions[i]).name),
    ensures
        sparse_message(message_wire(m)) == Ok::<_, crate::errors::ParseError>(m),
{
    let s = message_wire(m);
    let qw = questions_wire(m.questions);
    lemma_rt_header(m);
    let p8: int = 12 + qw.len() as int;
    assert(srecords(s, p8, 0, false, Option::<crate::message::Extension>::None) == Ok::<
        _,
        crate::errors::ParseError,
    >((Seq::<crate::resource::RecordV>::empty(), Option::<crate::message::Extension>::None, p8)));
    assert(m.additionals =~= Seq::<crate::resource::RecordV>::empty());
    assert(m.answers =~= Seq::<crate::resource::RecordV>::empty());
    assert(m.authoritys =~= Seq::<crate::resource::RecordV>::empty());
    if m.extension is Some {
        let e = m.extension.unwrap();
        assert(ar_count(m) == 1);
        assert(s.len() == p8 + 11);
        assert(s.subrange(p8, s.len() as int) =~= ext_wire(e)) by {
            let hdr = be16_bytes(m.id) + seq![pack_flags1(m), pack_flags2(m)] + be16_bytes(
                m.questions.len() as u16,
            ) + be16_bytes(0u16) + be16_bytes(0u16) + be16_bytes(ar_count(m) as u16);
            assert(records_wire(m.answers) =~= Seq::<u8>::empty());
            assert(records_wire(m.authoritys) =~= Seq::<u8>::empty());
            assert(records_wire(m.additionals) =~= Seq::<u8>::empty());
            assert(s =~= hdr + qw + ext_wire(e));
        }
        lemma_rt_ext(s, p8, e);
        assert(sparse_message(s) == Ok::<_, crate::errors::ParseError>(m)) by {
            let got = sparse_message(s).unwrap();
            assert(got.qr == m.qr) by {
                if m.qr == QR::Response {
                } else {
                    assert(m.qr == QR::Query);
                }
            }
            assert(got == m);
        }
    } else {
        assert(ar_count(m) == 0);
        assert(s.len() == p8);
        assert(srecords(s, p8, 0, true, Option::<crate::message::Extension>::None) == Ok::<
            _,
            crate::errors::ParseError,
        >((Seq::<crate::resource::RecordV>::empty(), Option::<crate::message::Extension>::None, p8)));
        assert(sparse_message(s) == Ok::<_, crate::errors::ParseError>(m)) by {
            let got = sparse_message(s).unwrap();
            assert(got.qr == m.qr) by {
                if m.qr == QR::Response {
                } else {
                    assert(m.qr == QR::Query);
                }
            }
            assert(got == m);
        }
    }
}

} // verus!