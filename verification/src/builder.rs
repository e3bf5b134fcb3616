//! Building response messages.
//!
//! A [`ResponseBuilder`] is a well-formed message under construction. When
//! it is finished it becomes a [`StreamTarget`]: the message bytes behind a
//! two-byte length prefix, from which either the datagram slice (without
//! the prefix) or the stream slice (with it) can be taken.

use vstd::prelude::*;
use crate::message::{
    Header, Message, MessageV, Question, QuestionV, Record, RecordV, empty_header,
    questions_view, records_view,
};
use crate::wire::{
    wf_message, wf_question, wf_record, wire_message, wire_question, wire_record, wire_u16,
    comb_u16, write_question, write_record, push_u16, lemma_wire_questions_add,
    lemma_wire_questions_single, lemma_wire_records_add, lemma_wire_records_single,
    wire_questions, wire_records, wire_header,
};

verus! {

/// Error of a push that would grow a message past what its counts or a
/// stream frame can carry.
#[derive(Clone, Copy, Debug, PartialEq, Eq, Structural)]
pub struct ShortBuf;

/// A response message under construction. Every operation keeps the
/// message well formed.
pub struct ResponseBuilder {
    pub msg: Message,
}

impl View for ResponseBuilder {
    type V = MessageV;

    open spec fn view(&self) -> MessageV {
        self.msg@
    }
}

/// An empty message takes exactly the twelve header bytes on the wire.
pub proof fn lemma_empty_message_wire(m: MessageV)
    requires
        m.questions.len() == 0,
        m.answers.len() == 0,
        m.authorities.len() == 0,
        m.additionals.len() == 0,
    ensures
        wire_message(m).len() == 12,
{
    assert(wire_questions(m.questions).len() == 0);
    assert(wire_records(m.answers).len() == 0);
    assert(wire_records(m.authorities).len() == 0);
    assert(wire_records(m.additionals).len() == 0);
}

impl ResponseBuilder {
    /// Whether the message under construction is well formed. Every method
    /// keeps this.
    pub open spec fn wf(&self) -> bool {
        wf_message(self@)
    }

    /// A fresh builder: empty message, zero header.
    pub fn new() -> (r: ResponseBuilder)
        ensures
            r@.header == empty_header(),
            r@.questions.len() == 0,
            r@.answers.len() == 0,
            r@.authorities.len() == 0,
            r@.additionals.len() == 0,
            r.wf(),
    {
        let msg = Message::new();
        proof {
            lemma_empty_message_wire(msg@);
        }
        ResponseBuilder { msg }
    }

    /// The header as built so far.
    pub fn header(&self) -> (r: Header)
        ensures
            r == self@.header,
    {
        self.msg.header
    }

    /// Replaces the whole header. The four-bit fields must fit.
    pub fn set_header(&mut self, h: Header)
        requires
            old(self).wf(),
            h.opcode < 16,
            h.rcode < 16,
        ensures
            final(self)@ == (MessageV { header: h, ..old(self)@ }),
            final(self).wf(),
    {
        proof {
            lemma_header_only_changes_header(self@, MessageV { header: h, ..self@ });
        }
        self.msg.header = h;
    }

    /// Sets the message ID.
    pub fn set_id(&mut self, id: u16)
        requires
            old(self).wf(),
        ensures
            final(self)@ == (MessageV {
                header: Header { id, ..old(self)@.header },
                ..old(self)@
            }),
            final(self).wf(),
    {
        let mut h = self.msg.header;
        h.id = id;
        self.set_header(h);
    }

    /// Sets or clears the QR bit.
    pub fn set_qr(&mut self, qr: bool)
        requires
            old(self).wf(),
        ensures
            final(self)@ == (MessageV {
                header: Header { qr, ..old(self)@.header },
                ..old(self)@
            }),
            final(self).wf(),
    {
        let mut h = self.msg.header;
        h.qr = qr;
        self.set_header(h);
    }

    /// Sets or clears the RD bit.
    pub fn set_rd(&mut self, rd: bool)
        requires
            old(self).wf(),
        ensures
            final(self)@ == (MessageV {
                header: Header { rd, ..old(self)@.header },
                ..old(self)@
            }),
            final(self).wf(),
    {
        let mut h = self.msg.header;
        h.rd = rd;
        self.set_header(h);
    }

    /// Sets or clears the TC bit.
    pub fn set_tc(&mut self, tc: bool)
        requires
            old(self).wf(),
        ensures
            final(self)@ == (MessageV {
                header: Header { tc, ..old(self)@.header },
                ..old(self)@
            }),
            final(self).wf(),
    {
        let mut h = self.msg.header;
        h.tc = tc;
        self.set_header(h);
    }

    /// Sets or clears the AA bit.
    pub fn set_aa(&mut self, aa: bool)
        requires
            old(self).wf(),
        ensures
            final(self)@ == (MessageV {
                header: Header { aa, ..old(self)@.header },
                ..old(self)@
            }),
            final(self).wf(),
    {
        let mut h = self.msg.header;
        h.aa = aa;
        self.set_header(h);
    }

    /// Sets the response code.
    pub fn set_rcode(&mut self, rcode: u8)
        requires
            old(self).wf(),
            rcode < 16,
        ensures
            final(self)@ == (MessageV {
                header: Header { rcode, ..old(self)@.header },
                ..old(self)@
            }),
            final(self).wf(),
    {
        let mut h = self.msg.header;
        h.rcode = rcode;
        self.set_header(h);
    }

    /// The built message's wire length so far.
    pub fn wire_len(&self) -> (r: usize)
        requires
            self.wf(),
        ensures
            r == wire_message(self@).len(),
    {
        self.msg.wire_len()
    }

    /// Appends a question, unless that would push the message past the
    /// 16-bit frame limit.
    pub fn push_question(&mut self, q: Question) -> (r: Result<(), ShortBuf>)
        requires
            old(self).wf(),
            wf_question(q@),
        ensures
            match r {
                Ok(()) => {
                    &&& final(self)@ == (MessageV {
                        questions: old(self)@.questions + seq![q@],
                        ..old(self)@
                    })
                    &&& final(self).wf()
                    &&& wire_message(final(self)@).len() == wire_message(old(self)@).len()
                        + wire_question(q@).len()
                },
                Err(ShortBuf) => {
                    &&& *final(self) == *old(self)
                    &&& wire_message(old(self)@).len() + wire_question(q@).len() > 65535
                        || old(self)@.questions.len() >= 65535
                },
            },
    {
        let cur = self.msg.wire_len();
        let mut tmp: Vec<u8> = Vec::new();
        write_question(&mut tmp, &q);
        if self.msg.questions.len() >= 65535 || tmp.len() > 65535 - cur {
            return Err(ShortBuf);
        }
        let ghost oldm = self@;
        let ghost newm = MessageV { questions: oldm.questions + seq![q@], ..oldm };
        proof {
            lemma_wire_questions_add(oldm.questions, seq![q@]);
            lemma_wire_questions_single(q@);
            assert(wire_message(newm) =~= wire_header(
                newm.header,
                newm.questions.len() as u16,
                newm.answers.len() as u16,
                newm.authorities.len() as u16,
                newm.additionals.len() as u16,
            ) + wire_questions(newm.questions) + wire_records(newm.answers) + wire_records(
                newm.authorities,
            ) + wire_records(newm.additionals));
            lemma_header_len(
                newm.header,
                newm.questions.len() as u16,
                newm.answers.len() as u16,
                newm.authorities.len() as u16,
                newm.additionals.len() as u16,
            );
            lemma_header_len(
                oldm.header,
                oldm.questions.len() as u16,
                oldm.answers.len() as u16,
                oldm.authorities.len() as u16,
                oldm.additionals.len() as u16,
            );
        }
        self.msg.questions.push(q);
        proof {
            assert(self@.questions =~= newm.questions);
            assert(self@ == newm);
        }
        Ok(())
    }

    /// Appends a record to the answer section, under the same size rule.
    pub fn push_answer(&mut self, rec: Record) -> (r: Result<(), ShortBuf>)
        requires
            old(self).wf(),
            wf_record(rec@),
        ensures
            match r {
                Ok(()) => {
                    &&& final(self)@ == (MessageV {
                        answers: old(self)@.answers + seq![rec@],
                        ..old(self)@
                    })
                    &&& final(self).wf()
                    &&& wire_message(final(self)@).len() == wire_message(old(self)@).len()
                        + wire_record(rec@).len()
                },
                Err(ShortBuf) => {
                    &&& *final(self) == *old(self)
                    &&& wire_message(old(self)@).len() + wire_record(rec@).len() > 65535
                        || old(self)@.answers.len() >= 65535
                },
            },
    {
        let cur = self.msg.wire_len();
        let mut tmp: Vec<u8> = Vec::new();
        write_record(&mut tmp, &rec);
        if self.msg.answers.len() >= 65535 || tmp.len() > 65535 - cur {
            return Err(ShortBuf);
        }
        let ghost oldm = self@;
        let ghost newm = MessageV { answers: oldm.answers + seq![rec@], ..oldm };
        proof {
            lemma_push_record_wire(oldm, newm, rec@, 0);
        }
        self.msg.answers.push(rec);
        proof {
            assert(self@.answers =~= newm.answers);
            assert(self@ == newm);
        }
        Ok(())
    }

    /// Appends a record to the authority section, under the same size rule.
    pub fn push_authority(&mut self, rec: Record) -> (r: Result<(), ShortBuf>)
        requires
            old(self).wf(),
            wf_record(rec@),
        ensures
            match r {
                Ok(()) => {
                    &&& final(self)@ == (MessageV {
                        authorities: old(self)@.authorities + seq![rec@],
                        ..old(self)@
                    })
                    &&& final(self).wf()
                    &&& wire_message(final(self)@).len() == wire_message(old(self)@).len()
                        + wire_record(rec@).len()
                },
                Err(ShortBuf) => {
                    &&& *final(self) == *old(self)
                    &&& wire_message(old(self)@).len() + wire_record(rec@).len() > 65535
                        || old(self)@.authorities.len() >= 65535
                },
            },
    {
        let cur = self.msg.wire_len();
        let mut tmp: Vec<u8> = Vec::new();
        write_record(&mut tmp, &rec);
        if self.msg.authorities.len() >= 65535 || tmp.len() > 65535 - cur {
            return Err(ShortBuf);
        }
        let ghost oldm = self@;
        let ghost newm = MessageV { authorities: oldm.authorities + seq![rec@], ..oldm };
        proof {
            lemma_push_record_wire(oldm, newm, rec@, 1);
        }
        self.msg.authorities.push(rec);
        proof {
            assert(self@.authorities =~= newm.authorities);
            assert(self@ == newm);
        }
        Ok(())
    }

    /// Appends a record to the additional section, under the same size rule.
    pub fn push_additional(&mut self, rec: Record) -> (r: Result<(), ShortBuf>)
        requires
            old(self).wf(),
            wf_record(rec@),
        ensures
            match r {
                Ok(()) => {
                    &&& final(self)@ == (MessageV {
                        additionals: old(self)@.additionals + seq![rec@],
                        ..old(self)@
                    })
                    &&& final(self).wf()
                    &&& wire_message(final(self)@).len() == wire_message(old(self)@).len()
                        + wire_record(rec@).len()
                },
                Err(ShortBuf) => {
                    &&& *final(self) == *old(self)
                    &&& wire_message(old(self)@).len() + wire_record(rec@).len() > 65535
                        || old(self)@.additionals.len() >= 65535
                },
            },
    {
        let cur = self.msg.wire_len();
        let mut tmp: Vec<u8> = Vec::new();
        write_record(&mut tmp, &rec);
        if self.msg.additionals.len() >= 65535 || tmp.len() > 65535 - cur {
            return Err(ShortBuf);
        }
        let ghost oldm = self@;
        let ghost newm = MessageV { additionals: oldm.additionals + seq![rec@], ..oldm };
        proof {
            lemma_push_record_wire(oldm, newm, rec@, 2);
        }
        self.msg.additionals.push(rec);
        proof {
            assert(self@.additionals =~= newm.additionals);
            assert(self@ == newm);
        }
        Ok(())
    }

    /// Finishes the message into a stream target: its wire bytes behind a
    /// two-byte length prefix.
    pub fn finish(self) -> (t: StreamTarget)
        requires
            self.wf(),
        ensures
            t.buf@ == wire_u16(wire_message(self@).len() as u16) + wire_message(self@),
            t.wf(),
            t.dgram_view() == wire_message(self@),
    {
        let w = self.msg.to_wire();
        let mut buf: Vec<u8> = Vec::new();
        push_u16(&mut buf, w.len() as u16);
        let ghost wv = w@;
        let mut i: usize = 0;
        let mut w = w;
        while i < w.len()
            invariant
                i <= w.len(),
                w@ == wv,
                buf@ == wire_u16(wv.len() as u16) + wv.take(i as int),
            decreases w.len() - i,
        {
            buf.push(w[i]);
            i = i + 1;
            proof {
                assert(buf@ =~= wire_u16(wv.len() as u16) + wv.take(i as int));
            }
        }
        proof {
            assert(wv.take(wv.len() as int) =~= wv);
            crate::wire::lemma_u16_roundtrip(wv.len() as u16);
        }
        let t = StreamTarget { buf };
        proof {
            assert(t.buf@.skip(2) =~= wv);
        }
        t
    }
}

/// The header's wire form is always twelve bytes.
pub proof fn lemma_header_len(h: Header, qd: u16, an: u16, ns: u16, ar: u16)
    ensures
        wire_header(h, qd, an, ns, ar).len() == 12,
{
}

/// Changing only the header changes only the first twelve wire bytes, and
/// keeps the length.
pub proof fn lemma_header_only_changes_header(a: MessageV, b: MessageV)
    requires
        b.questions == a.questions,
        b.answers == a.answers,
        b.authorities == a.authorities,
        b.additionals == a.additionals,
    ensures
        wire_message(b).len() == wire_message(a).len(),
{
}

/// Appending one record to a section grows the wire form by that record's
/// wire length. `section` picks answers, authorities or additionals.
pub proof fn lemma_push_record_wire(oldm: MessageV, newm: MessageV, rec: RecordV, section: int)
    requires
        section == 0 ==> newm == (MessageV { answers: oldm.answers + seq![rec], ..oldm }),
        section == 1 ==> newm == (MessageV { authorities: oldm.authorities + seq![rec], ..oldm }),
        section == 2 ==> newm == (MessageV { additionals: oldm.additionals + seq![rec], ..oldm }),
        0 <= section <= 2,
    ensures
        wire_message(newm).len() == wire_message(oldm).len() + wire_record(rec).len(),
{
    if section == 0 {
        lemma_wire_records_add(oldm.answers, seq![rec]);
    } else if section == 1 {
        lemma_wire_records_add(oldm.authorities, seq![rec]);
    } else {
        lemma_wire_records_add(oldm.additionals, seq![rec]);
    }
    lemma_wire_records_single(rec);
}

//---------- StreamTarget --------------------------------------------------------

/// A finished message: its wire bytes with a two-byte length prefix
/// reserved at the head, ready for a stream transport; a datagram transport
/// takes the bytes after the prefix.
pub struct StreamTarget {
    pub buf: Vec<u8>,
}

impl StreamTarget {
    /// The prefix states the length of what follows it.
    pub open spec fn wf(&self) -> bool {
        &&& self.buf@.len() >= 2
        &&& self.buf@.len() - 2 <= 65535
        &&& comb_u16(self.buf@[0], self.buf@[1]) == self.buf@.len() - 2
    }

    /// The message bytes, without the prefix.
    pub open spec fn dgram_view(&self) -> Seq<u8> {
        self.buf@.skip(2)
    }

    /// The message bytes, without the prefix: what a datagram transport
    /// sends.
    pub fn as_dgram_slice(&self) -> (r: Vec<u8>)
        requires
            self.wf(),
        ensures
            r@ == self.dgram_view(),
    {
        let mut out: Vec<u8> = Vec::new();
        let mut i: usize = 2;
        while i < self.buf.len()
            invariant
                2 <= i <= self.buf@.len(),
                out@ == self.buf@.subrange(2, i as int),
            decreases self.buf@.len() - i,
        {
            out.push(self.buf[i]);
            i = i + 1;
            proof {
                assert(out@ =~= self.buf@.subrange(2, i as int));
            }
        }
        proof {
            assert(out@ =~= self.dgram_view());
        }
        out
    }

    /// The framed bytes, prefix included: what a stream transport sends.
    pub fn as_stream_slice(&self) -> (r: &Vec<u8>)
        ensures
            r@ == self.buf@,
    {
        &self.buf
    }
}

} // verus!
