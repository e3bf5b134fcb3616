//! Wire format of DNS messages.
//!
//! `wire_message` gives the exact bytes a message takes on the wire;
//! `parse_message` reads them back. Messages built by this crate never use
//! name compression, and the parser does not accept it.

use vstd::prelude::*;
use crate::name::{wire_name, parse_name_at, wf_name, Name};
use crate::message::{
    Header, Question, Rdata, Record, Message, QuestionV, RdataV, RecordV, MessageV, wf_header,
    questions_view, records_view, RT_SOA, RT_NS, RT_CNAME,
};

verus! {

//---------- Two- and four-byte integers, big endian --------------------------

/// Big-endian bytes of a 16-bit integer.
pub open spec fn wire_u16(x: u16) -> Seq<u8> {
    seq![(x >> 8) as u8, (x & 0xff) as u8]
}

/// The 16-bit integer two big-endian bytes hold.
pub open spec fn comb_u16(hi: u8, lo: u8) -> u16 {
    ((hi as u16) << 8) | (lo as u16)
}

/// Big-endian bytes of a 32-bit integer.
pub open spec fn wire_u32(x: u32) -> Seq<u8> {
    seq![
        ((x >> 24) & 0xff) as u8,
        ((x >> 16) & 0xff) as u8,
        ((x >> 8) & 0xff) as u8,
        (x & 0xff) as u8,
    ]
}

/// The 32-bit integer four big-endian bytes hold.
pub open spec fn comb_u32(b0: u8, b1: u8, b2: u8, b3: u8) -> u32 {
    ((b0 as u32) << 24) | ((b1 as u32) << 16) | ((b2 as u32) << 8) | (b3 as u32)
}

/// Combining the bytes of `x` gives `x` back.
pub proof fn lemma_u16_roundtrip(x: u16)
    ensures
        comb_u16((x >> 8) as u8, (x & 0xff) as u8) == x,
{
    assert(((((x >> 8) as u8) as u16) << 8) | (((x & 0xff) as u8) as u16) == x) by (bit_vector);
}

/// Combining the bytes of `x` gives `x` back.
pub proof fn lemma_u32_roundtrip(x: u32)
    ensures
        comb_u32(
            ((x >> 24) & 0xff) as u8,
            ((x >> 16) & 0xff) as u8,
            ((x >> 8) & 0xff) as u8,
            (x & 0xff) as u8,
        ) == x,
{
    assert(((((x >> 24) & 0xff) as u8 as u32) << 24) | ((((x >> 16) & 0xff) as u8 as u32) << 16)
        | ((((x >> 8) & 0xff) as u8 as u32) << 8) | (((x & 0xff) as u8 as u32)) == x)
        by (bit_vector);
}

//---------- Header flag bytes -------------------------------------------------

/// A flag bit's contribution to its byte.
pub open spec fn bit_u8(b: bool, v: u8) -> u8 {
    if b {
        v
    } else {
        0
    }
}

/// Upper flags byte: QR, OPCODE, AA, TC, RD.
pub open spec fn flags_hi(h: Header) -> u8 {
    bit_u8(h.qr, 0x80) | ((h.opcode << 3) as u8) | bit_u8(h.aa, 0x04) | bit_u8(h.tc, 0x02)
        | bit_u8(h.rd, 0x01)
}

/// Lower flags byte: RA, Z, AD, CD, RCODE.
pub open spec fn flags_lo(h: Header) -> u8 {
    bit_u8(h.ra, 0x80) | bit_u8(h.z, 0x40) | bit_u8(h.ad, 0x20) | bit_u8(h.cd, 0x10) | h.rcode
}

/// The header four bytes hold.
pub open spec fn header_from_bytes(id_hi: u8, id_lo: u8, f1: u8, f2: u8) -> Header {
    Header {
        id: comb_u16(id_hi, id_lo),
        qr: f1 & 0x80 != 0,
        opcode: (f1 >> 3) & 0x0f,
        aa: f1 & 0x04 != 0,
        tc: f1 & 0x02 != 0,
        rd: f1 & 0x01 != 0,
        ra: f2 & 0x80 != 0,
        z: f2 & 0x40 != 0,
        ad: f2 & 0x20 != 0,
        cd: f2 & 0x10 != 0,
        rcode: f2 & 0x0f,
    }
}

/// Decoding the encoded flag bytes gives the header fields back.
pub proof fn lemma_flags_roundtrip(h: Header)
    requires
        wf_header(h),
    ensures
        header_from_bytes((h.id >> 8) as u8, (h.id & 0xff) as u8, flags_hi(h), flags_lo(h)) == h,
{
    lemma_u16_roundtrip(h.id);
    let q = bit_u8(h.qr, 0x80);
    let op = h.opcode;
    let a = bit_u8(h.aa, 0x04);
    let t = bit_u8(h.tc, 0x02);
    let rd = bit_u8(h.rd, 0x01);
    let f1 = flags_hi(h);
    assert(f1 == q | ((op << 3) as u8) | a | t | rd);
    assert((q | ((op << 3) as u8) | a | t | rd) & 0x80 == q && ((q | ((op << 3) as u8) | a | t
        | rd) >> 3) & 0x0f == op && (q | ((op << 3) as u8) | a | t | rd) & 0x04 == a && (q | ((op
        << 3) as u8) | a | t | rd) & 0x02 == t && (q | ((op << 3) as u8) | a | t | rd) & 0x01
        == rd) by (bit_vector)
        requires
            (q == 0 || q == 0x80) && op < 16 && (a == 0 || a == 0x04) && (t == 0 || t == 0x02) && (
            rd == 0 || rd == 0x01),
    ;
    let ra = bit_u8(h.ra, 0x80);
    let z = bit_u8(h.z, 0x40);
    let ad = bit_u8(h.ad, 0x20);
    let cd = bit_u8(h.cd, 0x10);
    let rc = h.rcode;
    let f2 = flags_lo(h);
    assert(f2 == ra | z | ad | cd | rc);
    assert((ra | z | ad | cd | rc) & 0x80 == ra && (ra | z | ad | cd | rc) & 0x40 == z && (ra | z
        | ad | cd | rc) & 0x20 == ad && (ra | z | ad | cd | rc) & 0x10 == cd && (ra | z | ad | cd
        | rc) & 0x0f == rc) by (bit_vector)
        requires
            (ra == 0 || ra == 0x80) && (z == 0 || z == 0x40) && (ad == 0 || ad == 0x20) && (cd == 0
                || cd == 0x10) && rc < 16,
    ;
}

//---------- Wire form of messages ---------------------------------------------

/// Wire form of the header given the section counts.
pub open spec fn wire_header(h: Header, qd: u16, an: u16, ns: u16, ar: u16) -> Seq<u8> {
    wire_u16(h.id) + seq![flags_hi(h), flags_lo(h)] + wire_u16(qd) + wire_u16(an) + wire_u16(ns)
        + wire_u16(ar)
}

/// Wire form of one question.
pub open spec fn wire_question(q: QuestionV) -> Seq<u8> {
    wire_name(q.qname) + wire_u16(q.qtype) + wire_u16(q.qclass)
}

/// Wire form of a question section.
pub open spec fn wire_questions(qs: Seq<QuestionV>) -> Seq<u8>
    decreases qs.len(),
{
    if qs.len() == 0 {
        Seq::<u8>::empty()
    } else {
        wire_question(qs[0]) + wire_questions(qs.skip(1))
    }
}

/// Wire form of record data, without the length field.
pub open spec fn wire_rdata(r: RdataV) -> Seq<u8> {
    match r {
        RdataV::Soa { mname, rname, serial, refresh, retry, expire, minimum } => wire_name(mname)
            + wire_name(rname) + wire_u32(serial) + wire_u32(refresh) + wire_u32(retry) + wire_u32(
            expire,
        ) + wire_u32(minimum),
        RdataV::Ns { nsdname } => wire_name(nsdname),
        RdataV::Cname { cname } => wire_name(cname),
        RdataV::Other { data } => data,
    }
}

/// Wire form of one record.
pub open spec fn wire_record(r: RecordV) -> Seq<u8> {
    wire_name(r.owner) + wire_u16(r.rtype) + wire_u16(r.class) + wire_u32(r.ttl) + wire_u16(
        wire_rdata(r.rdata).len() as u16,
    ) + wire_rdata(r.rdata)
}

/// Wire form of a record section.
pub open spec fn wire_records(rs: Seq<RecordV>) -> Seq<u8>
    decreases rs.len(),
{
    if rs.len() == 0 {
        Seq::<u8>::empty()
    } else {
        wire_record(rs[0]) + wire_records(rs.skip(1))
    }
}

/// The exact bytes a message takes on the wire.
pub open spec fn wire_message(m: MessageV) -> Seq<u8> {
    wire_header(
        m.header,
        m.questions.len() as u16,
        m.answers.len() as u16,
        m.authorities.len() as u16,
        m.additionals.len() as u16,
    ) + wire_questions(m.questions) + wire_records(m.answers) + wire_records(m.authorities)
        + wire_records(m.additionals)
}

//---------- Well-formedness ----------------------------------------------------

/// Record data fits its record type: the typed kinds carry their own type
/// numbers, anything else stays raw and within the length field's range.
pub open spec fn wf_rdata(rtype: u16, r: RdataV) -> bool {
    match r {
        RdataV::Soa { mname, rname, .. } => rtype == RT_SOA && wf_name(mname) && wf_name(rname),
        RdataV::Ns { nsdname } => rtype == RT_NS && wf_name(nsdname),
        RdataV::Cname { cname } => rtype == RT_CNAME && wf_name(cname),
        RdataV::Other { data } => rtype != RT_SOA && rtype != RT_NS && rtype != RT_CNAME
            && data.len() <= 16383,
    }
}

/// A well-formed record always fits a fresh message: its wire form stays
/// well under the frame limit.
pub proof fn lemma_wf_record_size(r: RecordV)
    requires
        wf_record(r),
    ensures
        wire_record(r).len() <= 17000,
{
}

pub open spec fn wf_question(q: QuestionV) -> bool {
    wf_name(q.qname)
}

pub open spec fn wf_record(r: RecordV) -> bool {
    wf_name(r.owner) && wf_rdata(r.rtype, r.rdata) && wire_rdata(r.rdata).len() <= 65535
}

pub open spec fn wf_records(rs: Seq<RecordV>) -> bool {
    forall|i: int| 0 <= i < rs.len() ==> wf_record(#[trigger] rs[i])
}

/// A well-formed message: sane header fields, well-formed names and record
/// data throughout, and a total wire size within the 16-bit frame limit of
/// stream transports.
pub open spec fn wf_message(m: MessageV) -> bool {
    &&& wf_header(m.header)
    &&& forall|i: int| 0 <= i < m.questions.len() ==> wf_question(#[trigger] m.questions[i])
    &&& wf_records(m.answers)
    &&& wf_records(m.authorities)
    &&& wf_records(m.additionals)
    &&& m.questions.len() <= 65535
    &&& m.answers.len() <= 65535
    &&& m.authorities.len() <= 65535
    &&& m.additionals.len() <= 65535
    &&& wire_message(m).len() <= 65535
}

//---------- The parser, as a specification -------------------------------------

/// Reads a 16-bit integer.
pub open spec fn parse_u16_at(buf: Seq<u8>, pos: int) -> Option<(u16, int)> {
    if pos < 0 || pos + 2 > buf.len() {
        None
    } else {
        Some((comb_u16(buf[pos], buf[pos + 1]), pos + 2))
    }
}

/// Reads a 32-bit integer.
pub open spec fn parse_u32_at(buf: Seq<u8>, pos: int) -> Option<(u32, int)> {
    if pos < 0 || pos + 4 > buf.len() {
        None
    } else {
        Some((comb_u32(buf[pos], buf[pos + 1], buf[pos + 2], buf[pos + 3]), pos + 4))
    }
}

/// Reads record data of the given length and type. The typed kinds must
/// fill their window exactly.
pub open spec fn parse_rdata_at(buf: Seq<u8>, pos: int, rdlen: int, rtype: u16) -> Option<RdataV> {
    if rtype == RT_SOA {
        match parse_name_at(buf, pos) {
            None => None,
            Some((mname, p1)) => match parse_name_at(buf, p1) {
                None => None,
                Some((rname, p2)) => if p2 + 20 == pos + rdlen && p2 + 20 <= buf.len() {
                    Some(
                        RdataV::Soa {
                            mname,
                            rname,
                            serial: comb_u32(buf[p2], buf[p2 + 1], buf[p2 + 2], buf[p2 + 3]),
                            refresh: comb_u32(
                                buf[p2 + 4],
                                buf[p2 + 5],
                                buf[p2 + 6],
                                buf[p2 + 7],
                            ),
                            retry: comb_u32(
                                buf[p2 + 8],
                                buf[p2 + 9],
                                buf[p2 + 10],
                                buf[p2 + 11],
                            ),
                            expire: comb_u32(
                                buf[p2 + 12],
                                buf[p2 + 13],
                                buf[p2 + 14],
                                buf[p2 + 15],
                            ),
                            minimum: comb_u32(
                                buf[p2 + 16],
                                buf[p2 + 17],
                                buf[p2 + 18],
                                buf[p2 + 19],
                            ),
                        },
                    )
                } else {
                    None
                },
            },
        }
    } else if rtype == RT_NS {
        match parse_name_at(buf, pos) {
            None => None,
            Some((nsdname, p1)) => if p1 == pos + rdlen {
                Some(RdataV::Ns { nsdname })
            } else {
                None
            },
        }
    } else if rtype == RT_CNAME {
        match parse_name_at(buf, pos) {
            None => None,
            Some((cname, p1)) => if p1 == pos + rdlen {
                Some(RdataV::Cname { cname })
            } else {
                None
            },
        }
    } else {
        Some(RdataV::Other { data: buf.subrange(pos, pos + rdlen) })
    }
}

/// Reads one record.
pub open spec fn parse_record_at(buf: Seq<u8>, pos: int) -> Option<(RecordV, int)> {
    match parse_name_at(buf, pos) {
        None => None,
        Some((owner, p1)) => match parse_u16_at(buf, p1) {
            None => None,
            Some((rtype, p2)) => match parse_u16_at(buf, p2) {
                None => None,
                Some((class, p3)) => match parse_u32_at(buf, p3) {
                    None => None,
                    Some((ttl, p4)) => match parse_u16_at(buf, p4) {
                        None => None,
                        Some((rdlen, p5)) => if p5 + rdlen > buf.len() {
                            None
                        } else {
                            match parse_rdata_at(buf, p5, rdlen as int, rtype) {
                                None => None,
                                Some(rdata) => Some(
                                    (RecordV { owner, rtype, class, ttl, rdata }, p5 + rdlen),
                                ),
                            }
                        },
                    },
                },
            },
        },
    }
}

/// Reads `n` records.
pub open spec fn parse_records_at(buf: Seq<u8>, pos: int, n: int) -> Option<(Seq<RecordV>, int)>
    decreases n,
{
    if n <= 0 {
        Some((Seq::<RecordV>::empty(), pos))
    } else {
        match parse_record_at(buf, pos) {
            None => None,
            Some((r, p)) => match parse_records_at(buf, p, n - 1) {
                None => None,
                Some((rest, end)) => Some((seq![r] + rest, end)),
            },
        }
    }
}

/// Reads one question.
pub open spec fn parse_question_at(buf: Seq<u8>, pos: int) -> Option<(QuestionV, int)> {
    match parse_name_at(buf, pos) {
        None => None,
        Some((qname, p1)) => match parse_u16_at(buf, p1) {
            None => None,
            Some((qtype, p2)) => match parse_u16_at(buf, p2) {
                None => None,
                Some((qclass, p3)) => Some((QuestionV { qname, qtype, qclass }, p3)),
            },
        },
    }
}

/// Reads `n` questions.
pub open spec fn parse_questions_at(buf: Seq<u8>, pos: int, n: int) -> Option<
    (Seq<QuestionV>, int),
>
    decreases n,
{
    if n <= 0 {
        Some((Seq::<QuestionV>::empty(), pos))
    } else {
        match parse_question_at(buf, pos) {
            None => None,
            Some((q, p)) => match parse_questions_at(buf, p, n - 1) {
                None => None,
                Some((rest, end)) => Some((seq![q] + rest, end)),
            },
        }
    }
}

/// Reads a whole message. The counts come from the header; the message must
/// fill the buffer exactly.
pub open spec fn parse_message(buf: Seq<u8>) -> Option<MessageV> {
    if buf.len() < 12 {
        None
    } else {
        let h = header_from_bytes(buf[0], buf[1], buf[2], buf[3]);
        let qd = comb_u16(buf[4], buf[5]);
        let an = comb_u16(buf[6], buf[7]);
        let ns = comb_u16(buf[8], buf[9]);
        let ar = comb_u16(buf[10], buf[11]);
        match parse_questions_at(buf, 12, qd as int) {
            None => None,
            Some((questions, p1)) => match parse_records_at(buf, p1, an as int) {
                None => None,
                Some((answers, p2)) => match parse_records_at(buf, p2, ns as int) {
                    None => None,
                    Some((authorities, p3)) => match parse_records_at(buf, p3, ar as int) {
                        None => None,
                        Some((additionals, p4)) => if p4 == buf.len() {
                            Some(MessageV { header: h, questions, answers, authorities, additionals })
                        } else {
                            None
                        },
                    },
                },
            },
        }
    }
}

//---------- Splitting byte runs -------------------------------------------------

/// When the bytes at `pos` are a concatenation, each half sits at its own
/// offset.
pub proof fn lemma_split_at(buf: Seq<u8>, pos: int, a: Seq<u8>, b: Seq<u8>)
    requires
        0 <= pos,
        pos + a.len() + b.len() <= buf.len(),
        buf.subrange(pos, pos + a.len() + b.len()) == a + b,
    ensures
        buf.subrange(pos, pos + a.len()) == a,
        buf.subrange(pos + a.len(), pos + a.len() + b.len()) == b,
{
    assert(buf.subrange(pos, pos + a.len()) =~= a) by {
        assert forall|j: int| 0 <= j < a.len() implies buf[pos + j] == a[j] by {
            assert(buf[pos + j] == buf.subrange(pos, pos + a.len() + b.len())[j]);
            assert((a + b)[j] == a[j]);
        }
    }
    assert(buf.subrange(pos + a.len(), pos + a.len() + b.len()) =~= b) by {
        assert forall|j: int| 0 <= j < b.len() implies buf[pos + a.len() + j] == b[j] by {
            assert(buf[pos + a.len() + j] == buf.subrange(pos, pos + a.len() + b.len())[a.len()
                + j]);
            assert((a + b)[a.len() + j] == b[j]);
        }
    }
}

//---------- Round trip: parsing what was written -------------------------------

/// Reading a 16-bit integer back from its wire form.
pub proof fn lemma_parse_wire_u16(x: u16, buf: Seq<u8>, pos: int)
    requires
        0 <= pos,
        pos + 2 <= buf.len(),
        buf.subrange(pos, pos + 2) == wire_u16(x),
    ensures
        parse_u16_at(buf, pos) == Some((x, pos + 2)),
{
    assert(buf[pos] == buf.subrange(pos, pos + 2)[0]);
    assert(buf[pos + 1] == buf.subrange(pos, pos + 2)[1]);
    lemma_u16_roundtrip(x);
}

/// Reading a 32-bit integer back from its wire form.
pub proof fn lemma_parse_wire_u32(x: u32, buf: Seq<u8>, pos: int)
    requires
        0 <= pos,
        pos + 4 <= buf.len(),
        buf.subrange(pos, pos + 4) == wire_u32(x),
    ensures
        parse_u32_at(buf, pos) == Some((x, pos + 4)),
        comb_u32(buf[pos], buf[pos + 1], buf[pos + 2], buf[pos + 3]) == x,
{
    assert(buf[pos] == buf.subrange(pos, pos + 4)[0]);
    assert(buf[pos + 1] == buf.subrange(pos, pos + 4)[1]);
    assert(buf[pos + 2] == buf.subrange(pos, pos + 4)[2]);
    assert(buf[pos + 3] == buf.subrange(pos, pos + 4)[3]);
    lemma_u32_roundtrip(x);
}

/// Reading record data back from its wire form.
pub proof fn lemma_parse_wire_rdata(rtype: u16, r: RdataV, buf: Seq<u8>, pos: int)
    requires
        wf_rdata(rtype, r),
        0 <= pos,
        pos + wire_rdata(r).len() <= buf.len(),
        buf.subrange(pos, pos + wire_rdata(r).len()) == wire_rdata(r),
    ensures
        parse_rdata_at(buf, pos, wire_rdata(r).len() as int, rtype) == Some(r),
{
    let w = wire_rdata(r);
    match r {
        RdataV::Soa { mname, rname, serial, refresh, retry, expire, minimum } => {
            let wm = wire_name(mname);
            let wr = wire_name(rname);
            let tail = wire_u32(serial) + wire_u32(refresh) + wire_u32(retry) + wire_u32(expire)
                + wire_u32(minimum);
            assert(w =~= wm + (wr + tail));
            lemma_split_at(buf, pos, wm, wr + tail);
            crate::name::lemma_parse_wire_name(mname, buf, pos);
            let p1 = pos + wm.len();
            assert(buf.subrange(p1, p1 + wr.len() + tail.len()) == wr + tail);
            lemma_split_at(buf, p1, wr, tail);
            crate::name::lemma_parse_wire_name(rname, buf, p1);
            let p2 = p1 + wr.len();
            assert(tail.len() == 20);
            assert(buf.subrange(p2, p2 + 20) == tail);
            let t1 = wire_u32(refresh) + (wire_u32(retry) + (wire_u32(expire) + wire_u32(
                minimum,
            )));
            assert(buf.subrange(p2, p2 + 20) =~= wire_u32(serial) + t1);
            lemma_split_at(buf, p2, wire_u32(serial), t1);
            lemma_parse_wire_u32(serial, buf, p2);
            let t2 = wire_u32(retry) + (wire_u32(expire) + wire_u32(minimum));
            assert(buf.subrange(p2 + 4, p2 + 20) =~= wire_u32(refresh) + t2);
            lemma_split_at(buf, p2 + 4, wire_u32(refresh), t2);
            lemma_parse_wire_u32(refresh, buf, p2 + 4);
            let t3 = wire_u32(expire) + wire_u32(minimum);
            assert(buf.subrange(p2 + 8, p2 + 20) =~= wire_u32(retry) + t3);
            lemma_split_at(buf, p2 + 8, wire_u32(retry), t3);
            lemma_parse_wire_u32(retry, buf, p2 + 8);
            assert(buf.subrange(p2 + 12, p2 + 20) =~= wire_u32(expire) + wire_u32(minimum));
            lemma_split_at(buf, p2 + 12, wire_u32(expire), wire_u32(minimum));
            lemma_parse_wire_u32(expire, buf, p2 + 12);
            lemma_parse_wire_u32(minimum, buf, p2 + 16);
        },
        RdataV::Ns { nsdname } => {
            crate::name::lemma_parse_wire_name(nsdname, buf, pos);
        },
        RdataV::Cname { cname } => {
            crate::name::lemma_parse_wire_name(cname, buf, pos);
        },
        RdataV::Other { data } => {
            assert(buf.subrange(pos, pos + w.len()) == data);
        },
    }
}

/// Reading one record back from its wire form.
pub proof fn lemma_parse_wire_record(r: RecordV, buf: Seq<u8>, pos: int)
    requires
        wf_record(r),
        0 <= pos,
        pos + wire_record(r).len() <= buf.len(),
        buf.subrange(pos, pos + wire_record(r).len()) == wire_record(r),
    ensures
        parse_record_at(buf, pos) == Some((r, pos + wire_record(r).len())),
{
    let wn = wire_name(r.owner);
    let wt = wire_u16(r.rtype);
    let wc = wire_u16(r.class);
    let wl = wire_u32(r.ttl);
    let wrd = wire_rdata(r.rdata);
    let wdl = wire_u16(wrd.len() as u16);
    let w = wire_record(r);
    assert(w =~= wn + (wt + (wc + (wl + (wdl + wrd)))));
    lemma_split_at(buf, pos, wn, wt + (wc + (wl + (wdl + wrd))));
    crate::name::lemma_parse_wire_name(r.owner, buf, pos);
    let p1 = pos + wn.len();
    lemma_split_at(buf, p1, wt, wc + (wl + (wdl + wrd)));
    lemma_parse_wire_u16(r.rtype, buf, p1);
    let p2 = p1 + 2;
    lemma_split_at(buf, p2, wc, wl + (wdl + wrd));
    lemma_parse_wire_u16(r.class, buf, p2);
    let p3 = p2 + 2;
    lemma_split_at(buf, p3, wl, wdl + wrd);
    lemma_parse_wire_u32(r.ttl, buf, p3);
    let p4 = p3 + 4;
    lemma_split_at(buf, p4, wdl, wrd);
    lemma_parse_wire_u16(wrd.len() as u16, buf, p4);
    let p5 = p4 + 2;
    assert((wrd.len() as u16) as int == wrd.len());
    lemma_parse_wire_rdata(r.rtype, r.rdata, buf, p5);
}

/// Reading a record run back from its wire form.
pub proof fn lemma_parse_wire_records(rs: Seq<RecordV>, buf: Seq<u8>, pos: int)
    requires
        wf_records(rs),
        0 <= pos,
        pos + wire_records(rs).len() <= buf.len(),
        buf.subrange(pos, pos + wire_records(rs).len()) == wire_records(rs),
    ensures
        parse_records_at(buf, pos, rs.len() as int) == Some((rs, pos + wire_records(rs).len())),
    decreases rs.len(),
{
    if rs.len() == 0 {
        assert(rs =~= Seq::<RecordV>::empty());
    } else {
        let r0 = rs[0];
        let rest = rs.skip(1);
        assert(wire_records(rs) == wire_record(r0) + wire_records(rest));
        lemma_split_at(buf, pos, wire_record(r0), wire_records(rest));
        lemma_parse_wire_record(r0, buf, pos);
        lemma_parse_wire_records(rest, buf, pos + wire_record(r0).len());
        assert(seq![r0] + rest =~= rs);
    }
}

/// Reading one question back from its wire form.
pub proof fn lemma_parse_wire_question(q: QuestionV, buf: Seq<u8>, pos: int)
    requires
        wf_question(q),
        0 <= pos,
        pos + wire_question(q).len() <= buf.len(),
        buf.subrange(pos, pos + wire_question(q).len()) == wire_question(q),
    ensures
        parse_question_at(buf, pos) == Some((q, pos + wire_question(q).len())),
{
    let wn = wire_name(q.qname);
    let wt = wire_u16(q.qtype);
    let wc = wire_u16(q.qclass);
    assert(wire_question(q) =~= wn + (wt + wc));
    lemma_split_at(buf, pos, wn, wt + wc);
    crate::name::lemma_parse_wire_name(q.qname, buf, pos);
    let p1 = pos + wn.len();
    lemma_split_at(buf, p1, wt, wc);
    lemma_parse_wire_u16(q.qtype, buf, p1);
    lemma_parse_wire_u16(q.qclass, buf, p1 + 2);
}

/// Reading a question run back from its wire form.
pub proof fn lemma_parse_wire_questions(qs: Seq<QuestionV>, buf: Seq<u8>, pos: int)
    requires
        forall|i: int| 0 <= i < qs.len() ==> wf_question(#[trigger] qs[i]),
        0 <= pos,
        pos + wire_questions(qs).len() <= buf.len(),
        buf.subrange(pos, pos + wire_questions(qs).len()) == wire_questions(qs),
    ensures
        parse_questions_at(buf, pos, qs.len() as int) == Some(
            (qs, pos + wire_questions(qs).len()),
        ),
    decreases qs.len(),
{
    if qs.len() == 0 {
        assert(qs =~= Seq::<QuestionV>::empty());
    } else {
        let q0 = qs[0];
        let rest = qs.skip(1);
        assert(wire_questions(qs) == wire_question(q0) + wire_questions(rest));
        lemma_split_at(buf, pos, wire_question(q0), wire_questions(rest));
        lemma_parse_wire_question(q0, buf, pos);
        lemma_parse_wire_questions(rest, buf, pos + wire_question(q0).len());
        assert(seq![q0] + rest =~= qs);
    }
}

/// Parsing reads back exactly the message that was written: the round trip
/// law for every well-formed message this crate builds.
#[verifier::rlimit(100)]
pub proof fn lemma_parse_wire_message(m: MessageV)
    requires
        wf_message(m),
    ensures
        parse_message(wire_message(m)) == Some(m),
{
    let buf = wire_message(m);
    let qd = m.questions.len() as u16;
    let an = m.answers.len() as u16;
    let ns = m.authorities.len() as u16;
    let ar = m.additionals.len() as u16;
    let hh = wire_header(m.header, qd, an, ns, ar);
    let wq = wire_questions(m.questions);
    let wa = wire_records(m.answers);
    let wn = wire_records(m.authorities);
    let wr = wire_records(m.additionals);
    assert(hh.len() == 12);
    assert(buf =~= hh + (wq + (wa + (wn + wr))));
    assert(buf.subrange(0, buf.len() as int) =~= buf);
    lemma_split_at(buf, 0, hh, wq + (wa + (wn + wr)));
    // the twelve header bytes
    let ghost hsub = buf.subrange(0, 12);
    assert forall|j: int| 0 <= j < 12 implies buf[j] == hh[j] by {
        assert(buf[j] == hsub[j]);
    }
    assert(hh =~= wire_u16(m.header.id) + (seq![flags_hi(m.header), flags_lo(m.header)] + (
    wire_u16(qd) + (wire_u16(an) + (wire_u16(ns) + wire_u16(ar))))));
    assert(buf[0] == (m.header.id >> 8) as u8);
    assert(buf[1] == (m.header.id & 0xff) as u8);
    assert(buf[2] == flags_hi(m.header));
    assert(buf[3] == flags_lo(m.header));
    lemma_flags_roundtrip(m.header);
    assert(header_from_bytes(buf[0], buf[1], buf[2], buf[3]) == m.header);
    assert(buf[4] == (qd >> 8) as u8 && buf[5] == (qd & 0xff) as u8);
    assert(buf[6] == (an >> 8) as u8 && buf[7] == (an & 0xff) as u8);
    assert(buf[8] == (ns >> 8) as u8 && buf[9] == (ns & 0xff) as u8);
    assert(buf[10] == (ar >> 8) as u8 && buf[11] == (ar & 0xff) as u8);
    lemma_u16_roundtrip(qd);
    lemma_u16_roundtrip(an);
    lemma_u16_roundtrip(ns);
    lemma_u16_roundtrip(ar);
    // the sections
    lemma_split_at(buf, 12, wq, wa + (wn + wr));
    let p1 = 12 + wq.len() as int;
    lemma_split_at(buf, p1, wa, wn + wr);
    let p2 = p1 + wa.len();
    lemma_split_at(buf, p2, wn, wr);
    let p3 = p2 + wn.len();
    lemma_parse_wire_questions(m.questions, buf, 12);
    lemma_parse_wire_records(m.answers, buf, p1);
    lemma_parse_wire_records(m.authorities, buf, p2);
    lemma_parse_wire_records(m.additionals, buf, p3);
    assert(qd as int == m.questions.len());
    assert(an as int == m.answers.len());
    assert(ns as int == m.authorities.len());
    assert(ar as int == m.additionals.len());
    assert(p3 + wr.len() == buf.len());
}

//---------- Prefix lemmas -------------------------------------------------------

/// Question wire form distributes over concatenation.
pub proof fn lemma_wire_questions_add(a: Seq<QuestionV>, b: Seq<QuestionV>)
    ensures
        wire_questions(a + b) == wire_questions(a) + wire_questions(b),
    decreases a.len(),
{
    if a.len() == 0 {
        assert(a + b =~= b);
        assert(wire_questions(a) + wire_questions(b) =~= wire_questions(b));
    } else {
        assert((a + b).skip(1) =~= a.skip(1) + b);
        lemma_wire_questions_add(a.skip(1), b);
        assert(wire_questions(a + b) =~= wire_questions(a) + wire_questions(b));
    }
}

/// Record wire form distributes over concatenation.
pub proof fn lemma_wire_records_add(a: Seq<RecordV>, b: Seq<RecordV>)
    ensures
        wire_records(a + b) == wire_records(a) + wire_records(b),
    decreases a.len(),
{
    if a.len() == 0 {
        assert(a + b =~= b);
        assert(wire_records(a) + wire_records(b) =~= wire_records(b));
    } else {
        assert((a + b).skip(1) =~= a.skip(1) + b);
        lemma_wire_records_add(a.skip(1), b);
        assert(wire_records(a + b) =~= wire_records(a) + wire_records(b));
    }
}

/// Filtering a section never grows its wire form.
pub proof fn lemma_wire_records_filter_le(rs: Seq<RecordV>, p: spec_fn(RecordV) -> bool)
    ensures
        wire_records(rs.filter(p)).len() <= wire_records(rs).len(),
    decreases rs.len(),
{
    reveal_with_fuel(Seq::filter, 2);
    if rs.len() > 0 {
        let body = rs.drop_last();
        lemma_wire_records_filter_le(body, p);
        assert(body + seq![rs.last()] =~= rs);
        lemma_wire_records_add(body, seq![rs.last()]);
        lemma_wire_records_single(rs.last());
        if p(rs.last()) {
            assert(rs.filter(p) == body.filter(p).push(rs.last()));
            assert(body.filter(p).push(rs.last()) =~= body.filter(p) + seq![rs.last()]);
            lemma_wire_records_add(body.filter(p), seq![rs.last()]);
        } else {
            assert(rs.filter(p) == body.filter(p));
        }
    }
}

/// Each record takes at least one wire byte.
pub proof fn lemma_wire_records_min(rs: Seq<RecordV>)
    ensures
        wire_records(rs).len() >= rs.len(),
    decreases rs.len(),
{
    if rs.len() > 0 {
        lemma_wire_records_min(rs.skip(1));
    }
}

/// The wire form of one question.
pub proof fn lemma_wire_questions_single(q: QuestionV)
    ensures
        wire_questions(seq![q]) == wire_question(q),
{
    assert(seq![q].skip(1) =~= Seq::<QuestionV>::empty());
    assert(wire_questions(seq![q].skip(1)) == Seq::<u8>::empty()) by {
        assert(wire_questions(Seq::<QuestionV>::empty()) == Seq::<u8>::empty());
    }
    assert(wire_questions(seq![q]) =~= wire_question(q));
}

/// The wire form of one record.
pub proof fn lemma_wire_records_single(r: RecordV)
    ensures
        wire_records(seq![r]) == wire_record(r),
{
    assert(seq![r].skip(1) =~= Seq::<RecordV>::empty());
    assert(wire_records(seq![r].skip(1)) == Seq::<u8>::empty()) by {
        assert(wire_records(Seq::<RecordV>::empty()) == Seq::<u8>::empty());
    }
    assert(wire_records(seq![r]) =~= wire_record(r));
}

//---------- The encoder ---------------------------------------------------------

/// Appends a 16-bit integer, big endian.
pub fn push_u16(out: &mut Vec<u8>, x: u16)
    ensures
        final(out)@ == old(out)@ + wire_u16(x),
{
    out.push((x >> 8) as u8);
    out.push((x & 0xff) as u8);
    proof {
        assert(out@ =~= old(out)@ + wire_u16(x));
    }
}

/// Appends a 32-bit integer, big endian.
pub fn push_u32(out: &mut Vec<u8>, x: u32)
    ensures
        final(out)@ == old(out)@ + wire_u32(x),
{
    out.push(((x >> 24) & 0xff) as u8);
    out.push(((x >> 16) & 0xff) as u8);
    out.push(((x >> 8) & 0xff) as u8);
    out.push((x & 0xff) as u8);
    proof {
        assert(out@ =~= old(out)@ + wire_u32(x));
    }
}

/// The upper flags byte of a header.
pub fn flags_hi_exec(h: &Header) -> (r: u8)
    ensures
        r == flags_hi(*h),
{
    let q: u8 = if h.qr { 0x80 } else { 0 };
    let a: u8 = if h.aa { 0x04 } else { 0 };
    let t: u8 = if h.tc { 0x02 } else { 0 };
    let rd: u8 = if h.rd { 0x01 } else { 0 };
    q | (h.opcode << 3) | a | t | rd
}

/// The lower flags byte of a header.
pub fn flags_lo_exec(h: &Header) -> (r: u8)
    ensures
        r == flags_lo(*h),
{
    let ra: u8 = if h.ra { 0x80 } else { 0 };
    let z: u8 = if h.z { 0x40 } else { 0 };
    let ad: u8 = if h.ad { 0x20 } else { 0 };
    let cd: u8 = if h.cd { 0x10 } else { 0 };
    ra | z | ad | cd | h.rcode
}

/// Appends the wire form of record data.
pub fn write_rdata(out: &mut Vec<u8>, rd: &Rdata, rtype: u16)
    requires
        wf_rdata(rtype, rd@),
        old(out)@.len() + wire_rdata(rd@).len() + 256 <= usize::MAX,
    ensures
        final(out)@ == old(out)@ + wire_rdata(rd@),
{
    match rd {
        Rdata::Soa { mname, rname, serial, refresh, retry, expire, minimum } => {
            mname.write_wire(out);
            rname.write_wire(out);
            push_u32(out, *serial);
            push_u32(out, *refresh);
            push_u32(out, *retry);
            push_u32(out, *expire);
            push_u32(out, *minimum);
            proof {
                assert(out@ =~= old(out)@ + wire_rdata(rd@));
            }
        },
        Rdata::Ns { nsdname } => {
            nsdname.write_wire(out);
        },
        Rdata::Cname { cname } => {
            cname.write_wire(out);
        },
        Rdata::Other { data } => {
            let mut i: usize = 0;
            while i < data.len()
                invariant
                    i <= data.len(),
                    out@ == old(out)@ + data@.take(i as int),
                decreases data.len() - i,
            {
                out.push(data[i]);
                i = i + 1;
                proof {
                    assert(out@ =~= old(out)@ + data@.take(i as int));
                }
            }
            proof {
                assert(out@ =~= old(out)@ + data@);
            }
        },
    }
}

/// Appends the wire form of one record.
pub fn write_record(out: &mut Vec<u8>, r: &Record)
    requires
        wf_record(r@),
        old(out)@.len() + wire_record(r@).len() + 256 <= usize::MAX,
    ensures
        final(out)@ == old(out)@ + wire_record(r@),
{
    r.owner.write_wire(out);
    push_u16(out, r.rtype);
    push_u16(out, r.class);
    push_u32(out, r.ttl);
    let mut tmp: Vec<u8> = Vec::new();
    write_rdata(&mut tmp, &r.rdata, r.rtype);
    push_u16(out, tmp.len() as u16);
    out.append(&mut tmp);
    proof {
        assert(out@ =~= old(out)@ + wire_record(r@));
    }
}

/// Appends the wire form of one question.
pub fn write_question(out: &mut Vec<u8>, q: &Question)
    requires
        wf_question(q@),
        old(out)@.len() + wire_question(q@).len() + 256 <= usize::MAX,
    ensures
        final(out)@ == old(out)@ + wire_question(q@),
{
    q.qname.write_wire(out);
    push_u16(out, q.qtype);
    push_u16(out, q.qclass);
    proof {
        assert(out@ =~= old(out)@ + wire_question(q@));
    }
}

/// Appends a question section.
pub fn write_questions(out: &mut Vec<u8>, qs: &Vec<Question>)
    requires
        forall|i: int|
            0 <= i < qs@.len() ==> wf_question(#[trigger] questions_view(qs@)[i]),
        old(out)@.len() + wire_questions(questions_view(qs@)).len() + 256 <= usize::MAX,
    ensures
        final(out)@ == old(out)@ + wire_questions(questions_view(qs@)),
{
    let ghost qv = questions_view(qs@);
    let mut i: usize = 0;
    while i < qs.len()
        invariant
            i <= qs.len(),
            qv == questions_view(qs@),
            forall|j: int| 0 <= j < qs@.len() ==> wf_question(#[trigger] qv[j]),
            out@ == old(out)@ + wire_questions(qv.take(i as int)),
            old(out)@.len() + wire_questions(qv).len() + 256 <= usize::MAX,
        decreases qs.len() - i,
    {
        proof {
            assert(qv =~= qv.take(i as int) + qv.skip(i as int));
            lemma_wire_questions_add(qv.take(i as int), qv.skip(i as int));
            assert(qv.take(i + 1) =~= qv.take(i as int) + seq![qv[i as int]]);
            lemma_wire_questions_add(qv.take(i as int), seq![qv[i as int]]);
            lemma_wire_questions_single(qv[i as int]);
        }
        write_question(out, &qs[i]);
        i = i + 1;
    }
    proof {
        assert(qv.take(i as int) =~= qv);
    }
}

/// Appends a record section.
pub fn write_records(out: &mut Vec<u8>, rs: &Vec<Record>)
    requires
        wf_records(records_view(rs@)),
        old(out)@.len() + wire_records(records_view(rs@)).len() + 256 <= usize::MAX,
    ensures
        final(out)@ == old(out)@ + wire_records(records_view(rs@)),
{
    let ghost rv = records_view(rs@);
    let mut i: usize = 0;
    while i < rs.len()
        invariant
            i <= rs.len(),
            rv == records_view(rs@),
            wf_records(rv),
            out@ == old(out)@ + wire_records(rv.take(i as int)),
            old(out)@.len() + wire_records(rv).len() + 256 <= usize::MAX,
        decreases rs.len() - i,
    {
        proof {
            assert(rv =~= rv.take(i as int) + rv.skip(i as int));
            lemma_wire_records_add(rv.take(i as int), rv.skip(i as int));
            assert(rv.take(i + 1) =~= rv.take(i as int) + seq![rv[i as int]]);
            lemma_wire_records_add(rv.take(i as int), seq![rv[i as int]]);
            lemma_wire_records_single(rv[i as int]);
        }
        write_record(out, &rs[i]);
        i = i + 1;
    }
    proof {
        assert(rv.take(i as int) =~= rv);
    }
}

impl Message {
    /// The wire bytes of this message.
    pub fn to_wire(&self) -> (r: Vec<u8>)
        requires
            wf_message(self@),
        ensures
            r@ == wire_message(self@),
            r@.len() <= 65535,
    {
        let ghost m = self@;
        let ghost hh = wire_header(
            m.header,
            m.questions.len() as u16,
            m.answers.len() as u16,
            m.authorities.len() as u16,
            m.additionals.len() as u16,
        );
        let mut out: Vec<u8> = Vec::new();
        push_u16(&mut out, self.header.id);
        out.push(flags_hi_exec(&self.header));
        out.push(flags_lo_exec(&self.header));
        push_u16(&mut out, self.questions.len() as u16);
        push_u16(&mut out, self.answers.len() as u16);
        push_u16(&mut out, self.authorities.len() as u16);
        push_u16(&mut out, self.additionals.len() as u16);
        proof {
            assert(out@ =~= hh);
            assert(wire_message(m) =~= hh + wire_questions(m.questions) + wire_records(m.answers)
                + wire_records(m.authorities) + wire_records(m.additionals));
        }
        write_questions(&mut out, &self.questions);
        proof {
            assert(out@ =~= hh + wire_questions(m.questions));
        }
        write_records(&mut out, &self.answers);
        proof {
            assert(out@ =~= hh + wire_questions(m.questions) + wire_records(m.answers));
        }
        write_records(&mut out, &self.authorities);
        proof {
            assert(out@ =~= hh + wire_questions(m.questions) + wire_records(m.answers)
                + wire_records(m.authorities));
        }
        write_records(&mut out, &self.additionals);
        proof {
            assert(out@ =~= wire_message(m));
        }
        out
    }

    /// The number of bytes this message takes on the wire.
    pub fn wire_len(&self) -> (r: usize)
        requires
            wf_message(self@),
        ensures
            r == wire_message(self@).len(),
    {
        let w = self.to_wire();
        w.len()
    }
}

//---------- The parser ----------------------------------------------------------

/// Reads a 16-bit integer.
pub fn read_u16(buf: &Vec<u8>, pos: usize) -> (r: Option<(u16, usize)>)
    requires
        pos <= buf@.len(),
    ensures
        match r {
            Some((x, end)) => {
                &&& parse_u16_at(buf@, pos as int) == Some((x, end as int))
                &&& end <= buf@.len()
            },
            None => parse_u16_at(buf@, pos as int) is None,
        },
{
    if buf.len() - pos < 2 {
        return None;
    }
    let x = ((buf[pos] as u16) << 8) | (buf[pos + 1] as u16);
    Some((x, pos + 2))
}

/// Reads a 32-bit integer.
pub fn read_u32(buf: &Vec<u8>, pos: usize) -> (r: Option<(u32, usize)>)
    requires
        pos <= buf@.len(),
    ensures
        match r {
            Some((x, end)) => {
                &&& parse_u32_at(buf@, pos as int) == Some((x, end as int))
                &&& end <= buf@.len()
            },
            None => parse_u32_at(buf@, pos as int) is None,
        },
{
    if buf.len() - pos < 4 {
        return None;
    }
    let x = ((buf[pos] as u32) << 24) | ((buf[pos + 1] as u32) << 16) | ((buf[pos + 2] as u32)
        << 8) | (buf[pos + 3] as u32);
    Some((x, pos + 4))
}

/// Reads record data of the given length and type.
pub fn read_rdata(buf: &Vec<u8>, pos: usize, rdlen: usize, rtype: u16) -> (r: Option<Rdata>)
    requires
        pos + rdlen <= buf@.len(),
    ensures
        match r {
            Some(rd) => parse_rdata_at(buf@, pos as int, rdlen as int, rtype) == Some(rd@),
            None => parse_rdata_at(buf@, pos as int, rdlen as int, rtype) is None,
        },
{
    let blen = buf.len();
    proof {
        assert(pos + rdlen <= blen);
    }
    if rtype == RT_SOA {
        match Name::parse(buf, pos) {
            None => None,
            Some((mname, p1)) => match Name::parse(buf, p1) {
                None => None,
                Some((rname, p2)) => {
                    if rdlen < 20 || p2 != pos + (rdlen - 20) || buf.len() - p2 < 20 {
                        return None;
                    }
                    let serial = ((buf[p2] as u32) << 24) | ((buf[p2 + 1] as u32) << 16) | ((
                    buf[p2 + 2] as u32) << 8) | (buf[p2 + 3] as u32);
                    let refresh = ((buf[p2 + 4] as u32) << 24) | ((buf[p2 + 5] as u32) << 16) | ((
                    buf[p2 + 6] as u32) << 8) | (buf[p2 + 7] as u32);
                    let retry = ((buf[p2 + 8] as u32) << 24) | ((buf[p2 + 9] as u32) << 16) | ((
                    buf[p2 + 10] as u32) << 8) | (buf[p2 + 11] as u32);
                    let expire = ((buf[p2 + 12] as u32) << 24) | ((buf[p2 + 13] as u32) << 16)
                        | ((buf[p2 + 14] as u32) << 8) | (buf[p2 + 15] as u32);
                    let minimum = ((buf[p2 + 16] as u32) << 24) | ((buf[p2 + 17] as u32) << 16)
                        | ((buf[p2 + 18] as u32) << 8) | (buf[p2 + 19] as u32);
                    Some(Rdata::Soa { mname, rname, serial, refresh, retry, expire, minimum })
                },
            },
        }
    } else if rtype == RT_NS {
        match Name::parse(buf, pos) {
            None => None,
            Some((nsdname, p1)) => if p1 == pos + rdlen {
                Some(Rdata::Ns { nsdname })
            } else {
                None
            },
        }
    } else if rtype == RT_CNAME {
        match Name::parse(buf, pos) {
            None => None,
            Some((cname, p1)) => if p1 == pos + rdlen {
                Some(Rdata::Cname { cname })
            } else {
                None
            },
        }
    } else {
        let mut data: Vec<u8> = Vec::new();
        let mut i: usize = 0;
        while i < rdlen
            invariant
                i <= rdlen,
                pos + rdlen <= buf@.len(),
                buf@.len() <= usize::MAX,
                data@ == buf@.subrange(pos as int, pos + i),
            decreases rdlen - i,
        {
            data.push(buf[pos + i]);
            i = i + 1;
            proof {
                assert(data@ =~= buf@.subrange(pos as int, pos + i));
            }
        }
        Some(Rdata::Other { data })
    }
}

/// Reads one record.
pub fn read_record(buf: &Vec<u8>, pos: usize) -> (r: Option<(Record, usize)>)
    requires
        pos <= buf@.len(),
    ensures
        match r {
            Some((rec, end)) => {
                &&& parse_record_at(buf@, pos as int) == Some((rec@, end as int))
                &&& pos < end <= buf@.len()
            },
            None => parse_record_at(buf@, pos as int) is None,
        },
{
    match Name::parse(buf, pos) {
        None => None,
        Some((owner, p1)) => match read_u16(buf, p1) {
            None => None,
            Some((rtype, p2)) => match read_u16(buf, p2) {
                None => None,
                Some((class, p3)) => match read_u32(buf, p3) {
                    None => None,
                    Some((ttl, p4)) => match read_u16(buf, p4) {
                        None => None,
                        Some((rdlen, p5)) => {
                            let rdlen = rdlen as usize;
                            if rdlen > buf.len() - p5 {
                                return None;
                            }
                            match read_rdata(buf, p5, rdlen, rtype) {
                                None => None,
                                Some(rdata) => Some(
                                    (Record { owner, rtype, class, ttl, rdata }, p5 + rdlen),
                                ),
                            }
                        },
                    },
                },
            },
        },
    }
}

/// Reads one question.
pub fn read_question(buf: &Vec<u8>, pos: usize) -> (r: Option<(Question, usize)>)
    requires
        pos <= buf@.len(),
    ensures
        match r {
            Some((q, end)) => {
                &&& parse_question_at(buf@, pos as int) == Some((q@, end as int))
                &&& pos < end <= buf@.len()
            },
            None => parse_question_at(buf@, pos as int) is None,
        },
{
    match Name::parse(buf, pos) {
        None => None,
        Some((qname, p1)) => match read_u16(buf, p1) {
            None => None,
            Some((qtype, p2)) => match read_u16(buf, p2) {
                None => None,
                Some((qclass, p3)) => Some((Question { qname, qtype, qclass }, p3)),
            },
        },
    }
}

/// Reads `n` records.
pub fn read_records(buf: &Vec<u8>, pos: usize, n: u16) -> (r: Option<(Vec<Record>, usize)>)
    requires
        pos <= buf@.len(),
    ensures
        match r {
            Some((rs, end)) => {
                &&& parse_records_at(buf@, pos as int, n as int) == Some(
                    (records_view(rs@), end as int),
                )
                &&& end <= buf@.len()
            },
            None => parse_records_at(buf@, pos as int, n as int) is None,
        },
{
    let ghost full = parse_records_at(buf@, pos as int, n as int);
    let mut out: Vec<Record> = Vec::new();
    let mut cur: usize = pos;
    let mut i: u16 = 0;
    proof {
        assert(records_view(out@) =~= Seq::<RecordV>::empty());
    }
    while i < n
        invariant
            i <= n,
            cur <= buf@.len(),
            full == parse_records_at(buf@, pos as int, n as int),
            match parse_records_at(buf@, cur as int, (n - i) as int) {
                None => full is None,
                Some((rest, end)) => full == Some((records_view(out@) + rest, end)),
            },
        decreases n - i,
    {
        match read_record(buf, cur) {
            None => {
                return None;
            },
            Some((rec, next)) => {
                proof {
                    let tail = parse_records_at(buf@, next as int, (n - i - 1) as int);
                    match tail {
                        None => {},
                        Some((rest2, end2)) => {
                            assert(parse_records_at(buf@, cur as int, (n - i) as int) == Some(
                                (seq![rec@] + rest2, end2),
                            ));
                            assert(records_view(out@.push(rec)) =~= records_view(out@) + seq![
                                rec@,
                            ]);
                            assert(records_view(out@) + (seq![rec@] + rest2) =~= (records_view(
                                out@,
                            ) + seq![rec@]) + rest2);
                        },
                    }
                }
                out.push(rec);
                cur = next;
                i = i + 1;
            },
        }
    }
    proof {
        assert(parse_records_at(buf@, cur as int, 0) == Some((Seq::<RecordV>::empty(), cur as int)));
        assert(records_view(out@) + Seq::<RecordV>::empty() =~= records_view(out@));
    }
    Some((out, cur))
}

/// Reads `n` questions.
pub fn read_questions(buf: &Vec<u8>, pos: usize, n: u16) -> (r: Option<(Vec<Question>, usize)>)
    requires
        pos <= buf@.len(),
    ensures
        match r {
            Some((qs, end)) => {
                &&& parse_questions_at(buf@, pos as int, n as int) == Some(
                    (questions_view(qs@), end as int),
                )
                &&& end <= buf@.len()
            },
            None => parse_questions_at(buf@, pos as int, n as int) is None,
        },
{
    let ghost full = parse_questions_at(buf@, pos as int, n as int);
    let mut out: Vec<Question> = Vec::new();
    let mut cur: usize = pos;
    let mut i: u16 = 0;
    proof {
        assert(questions_view(out@) =~= Seq::<QuestionV>::empty());
    }
    while i < n
        invariant
            i <= n,
            cur <= buf@.len(),
            full == parse_questions_at(buf@, pos as int, n as int),
            match parse_questions_at(buf@, cur as int, (n - i) as int) {
                None => full is None,
                Some((rest, end)) => full == Some((questions_view(out@) + rest, end)),
            },
        decreases n - i,
    {
        match read_question(buf, cur) {
            None => {
                return None;
            },
            Some((q, next)) => {
                proof {
                    let tail = parse_questions_at(buf@, next as int, (n - i - 1) as int);
                    match tail {
                        None => {},
                        Some((rest2, end2)) => {
                            assert(parse_questions_at(buf@, cur as int, (n - i) as int) == Some(
                                (seq![q@] + rest2, end2),
                            ));
                            assert(questions_view(out@.push(q)) =~= questions_view(out@) + seq![
                                q@,
                            ]);
                            assert(questions_view(out@) + (seq![q@] + rest2) =~= (questions_view(
                                out@,
                            ) + seq![q@]) + rest2);
                        },
                    }
                }
                out.push(q);
                cur = next;
                i = i + 1;
            },
        }
    }
    proof {
        assert(parse_questions_at(buf@, cur as int, 0) == Some(
            (Seq::<QuestionV>::empty(), cur as int),
        ));
        assert(questions_view(out@) + Seq::<QuestionV>::empty() =~= questions_view(out@));
    }
    Some((out, cur))
}

impl Message {
    /// Reads a whole message from its wire bytes.
    pub fn parse(buf: &Vec<u8>) -> (r: Option<Message>)
        ensures
            match r {
                Some(m) => parse_message(buf@) == Some(m@),
                None => parse_message(buf@) is None,
            },
    {
        if buf.len() < 12 {
            return None;
        }
        let header = Header {
            id: ((buf[0] as u16) << 8) | (buf[1] as u16),
            qr: buf[2] & 0x80 != 0,
            opcode: (buf[2] >> 3) & 0x0f,
            aa: buf[2] & 0x04 != 0,
            tc: buf[2] & 0x02 != 0,
            rd: buf[2] & 0x01 != 0,
            ra: buf[3] & 0x80 != 0,
            z: buf[3] & 0x40 != 0,
            ad: buf[3] & 0x20 != 0,
            cd: buf[3] & 0x10 != 0,
            rcode: buf[3] & 0x0f,
        };
        let qd = ((buf[4] as u16) << 8) | (buf[5] as u16);
        let an = ((buf[6] as u16) << 8) | (buf[7] as u16);
        let ns = ((buf[8] as u16) << 8) | (buf[9] as u16);
        let ar = ((buf[10] as u16) << 8) | (buf[11] as u16);
        match read_questions(buf, 12, qd) {
            None => None,
            Some((questions, p1)) => match read_records(buf, p1, an) {
                None => None,
                Some((answers, p2)) => match read_records(buf, p2, ns) {
                    None => None,
                    Some((authorities, p3)) => match read_records(buf, p3, ar) {
                        None => None,
                        Some((additionals, p4)) => {
                            if p4 != buf.len() {
                                return None;
                            }
                            Some(Message { header, questions, answers, authorities, additionals })
                        },
                    },
                },
            },
        }
    }
}

} // verus!
