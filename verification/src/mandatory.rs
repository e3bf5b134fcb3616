//! The mandatory processor: RFC-required request checks and response
//! fixups that every server must apply.
//!
//! Before the service runs, a request with more than one OPT record is
//! refused with FORMERR, and a datagram request's OPT payload size becomes
//! the response size hint when it is at least 512. After the service runs,
//! the response takes the request's ID and RD bit and the QR bit, and an
//! oversized datagram response is truncated down to header, question and
//! OPT with TC set.

use vstd::prelude::*;
use crate::builder::ResponseBuilder;
use crate::context::{ContextAwareMessage, ContextAwareMessageV};
use crate::message::{
    Header, Message, MessageV, QuestionV, RecordV, empty_header, records_view, questions_view,
    first_opt, opt_count, count_opts, find_opt, lemma_no_opt, RT_OPT, RCODE_FORMERR,
};
use crate::wire::{
    wf_message, wf_record, wire_message, wire_record, wire_records, wire_questions,
    lemma_wire_records_add, lemma_wire_records_single,
};

verus! {

/// What one preprocessor tells the chain.
pub enum PreprocessOutcome {
    /// Go on to the next processor, or to the service.
    Continue,
    /// Stop: this response, post-processed, answers the request.
    Break(ResponseBuilder),
}

/// The FORMERR reply to a request that breaks the one-OPT rule: an empty
/// message carrying only the response code.
pub open spec fn formerr_response() -> MessageV {
    MessageV {
        header: Header { rcode: RCODE_FORMERR, ..empty_header() },
        questions: Seq::<QuestionV>::empty(),
        answers: Seq::<RecordV>::empty(),
        authorities: Seq::<RecordV>::empty(),
        additionals: Seq::<RecordV>::empty(),
    }
}

/// When the mandatory preprocessor refuses a request, and with what.
pub open spec fn mandatory_pre_breaks(req: ContextAwareMessageV) -> Option<MessageV> {
    if opt_count(req.msg.additionals) > 1 {
        Some(formerr_response())
    } else {
        None
    }
}

/// The request as the mandatory preprocessor leaves it when it continues:
/// over a datagram transport, a lone OPT's payload size of at least 512
/// becomes the response size hint, unless one is set already.
pub open spec fn mandatory_pre_request(req: ContextAwareMessageV) -> ContextAwareMessageV {
    if opt_count(req.msg.additionals) == 1 && req.udp {
        let o = first_opt(req.msg.additionals).unwrap();
        if o.class >= 512 && req.max_response_size_hint is None {
            ContextAwareMessageV { max_response_size_hint: Some(o.class), ..req }
        } else {
            req
        }
    } else {
        req
    }
}

/// The truncated form of a response that exceeds a datagram request's size
/// hint: TC set, only the header, the question and the first OPT kept.
pub open spec fn truncate_spec(req: ContextAwareMessageV, resp: MessageV) -> MessageV {
    if req.udp && req.max_response_size_hint is Some && wire_message(resp).len()
        > req.max_response_size_hint.unwrap() {
        MessageV {
            header: Header { tc: true, ..resp.header },
            questions: resp.questions,
            answers: Seq::<RecordV>::empty(),
            authorities: Seq::<RecordV>::empty(),
            additionals: match first_opt(resp.additionals) {
                Some(o) => seq![o],
                None => Seq::<RecordV>::empty(),
            },
        }
    } else {
        resp
    }
}

/// The response without any OPT record, as it must go out when the
/// request carried none; a request with an OPT leaves the response alone.
pub open spec fn strip_opt_spec(req: ContextAwareMessageV, resp: MessageV) -> MessageV {
    if opt_count(req.msg.additionals) == 0 {
        MessageV {
            additionals: resp.additionals.filter(|r: RecordV| r.rtype != RT_OPT),
            ..resp
        }
    } else {
        resp
    }
}

/// The response as the mandatory postprocessor leaves it: truncated when
/// oversized, stripped of its OPT when the request had none, and carrying
/// the request's ID and RD bit and the QR bit.
pub open spec fn mandatory_post_spec(req: ContextAwareMessageV, resp: MessageV) -> MessageV {
    let t = strip_opt_spec(req, truncate_spec(req, resp));
    MessageV {
        header: Header {
            id: req.msg.header.id,
            qr: true,
            rd: req.msg.header.rd,
            ..t.header
        },
        ..t
    }
}

/// A response to a request without an OPT leaves the mandatory
/// postprocessor without an OPT of its own.
pub proof fn lemma_opt_stripped(req: ContextAwareMessageV, resp: MessageV)
    requires
        opt_count(req.msg.additionals) == 0,
    ensures
        forall|i: int|
            0 <= i < mandatory_post_spec(req, resp).additionals.len()
                ==> mandatory_post_spec(req, resp).additionals[i].rtype != RT_OPT,
{
    let t = truncate_spec(req, resp);
    let stripped = t.additionals.filter(|r: RecordV| r.rtype != RT_OPT);
    assert forall|i: int| 0 <= i < stripped.len() implies stripped[i].rtype != RT_OPT by {
        t.additionals.lemma_filter_pred(|r: RecordV| r.rtype != RT_OPT, i);
    }
}

/// Every response that leaves the mandatory postprocessor answers under
/// the request's ID, as a reply, echoing the request's RD bit.
pub proof fn lemma_mandatory_post_header(req: ContextAwareMessageV, resp: MessageV)
    ensures
        mandatory_post_spec(req, resp).header.id == req.msg.header.id,
        mandatory_post_spec(req, resp).header.qr == true,
        mandatory_post_spec(req, resp).header.rd == req.msg.header.rd,
{
}

/// Every datagram response larger than the hint leaves truncation with TC
/// set and nothing but the header, the question and at most one OPT; and a
/// response within the hint is left alone.
pub proof fn lemma_truncation(req: ContextAwareMessageV, resp: MessageV)
    requires
        req.udp,
        req.max_response_size_hint is Some,
    ensures
        wire_message(resp).len() > req.max_response_size_hint.unwrap() ==> {
            let t = truncate_spec(req, resp);
            &&& t.header.tc == true
            &&& t.answers.len() == 0
            &&& t.authorities.len() == 0
            &&& t.questions == resp.questions
            &&& forall|i: int| 0 <= i < t.additionals.len() ==> t.additionals[i].rtype == RT_OPT
            &&& t.additionals.len() <= 1
        },
        wire_message(resp).len() > req.max_response_size_hint.unwrap() ==> wire_message(
            truncate_spec(req, resp),
        ).len() == 12 + wire_questions(resp.questions).len() + (match first_opt(
            resp.additionals,
        ) {
            Some(o) => wire_record(o).len(),
            None => 0,
        }),
        wire_message(truncate_spec(req, resp)).len() <= wire_message(resp).len(),
        wire_message(resp).len() <= req.max_response_size_hint.unwrap() ==> truncate_spec(
            req,
            resp,
        ) == resp,
{
    let p = |r: RecordV| r.rtype == RT_OPT;
    if wire_message(resp).len() > req.max_response_size_hint.unwrap() {
        let t = truncate_spec(req, resp);
        match first_opt(resp.additionals) {
            Some(o) => {
                resp.additionals.lemma_filter_pred(p, 0);
                assert(o.rtype == RT_OPT);
                assert(t.additionals =~= seq![o]);
                crate::wire::lemma_wire_records_add(seq![o], Seq::<RecordV>::empty());
                crate::wire::lemma_wire_records_single(o);
                assert(wire_records(t.additionals).len() == wire_record(o).len());
                // the kept OPT weighs no more than the old additional section
                crate::wire::lemma_wire_records_filter_le(resp.additionals, p);
                lemma_record_in_section(resp.additionals.filter(p), 0);
            },
            None => {
                assert(wire_records(t.additionals).len() == 0);
            },
        }
        assert(wire_records(t.answers).len() == 0);
        assert(wire_records(t.authorities).len() == 0);
        assert(wire_message(t).len() <= wire_message(resp).len());
    }
}

/// A record of a section never outweighs the whole section.
pub proof fn lemma_record_in_section(rs: Seq<RecordV>, i: int)
    requires
        0 <= i < rs.len(),
    ensures
        wire_record(rs[i]).len() <= wire_records(rs).len(),
{
    assert(rs =~= rs.take(i) + (seq![rs[i]] + rs.skip(i + 1)));
    lemma_wire_records_add(rs.take(i), seq![rs[i]] + rs.skip(i + 1));
    lemma_wire_records_add(seq![rs[i]], rs.skip(i + 1));
    lemma_wire_records_single(rs[i]);
}

//---------- The processor -------------------------------------------------------

/// The processor that enforces the RFCs' MUST requirements on every
/// message.
#[derive(Clone, Copy, Debug)]
pub struct MandatoryMiddlewareProcessor;

impl MandatoryMiddlewareProcessor {
    /// Constructs the processor.
    pub fn new() -> (r: MandatoryMiddlewareProcessor)
        ensures
            true,
    {
        MandatoryMiddlewareProcessor
    }

    /// Truncates an oversized datagram response down to header, question
    /// and OPT, setting TC.
    pub fn truncate(request: &ContextAwareMessage, response: &mut ResponseBuilder)
        requires
            old(response).wf(),
        ensures
            final(response)@ == truncate_spec(request@, old(response)@),
            final(response).wf(),
    {
        let hint = match request.max_response_size_hint() {
            Some(h) => h,
            None => {
                return ;
            },
        };
        if !request.transport().is_udp() {
            return ;
        }
        let response_len = response.wire_len();
        if response_len <= hint as usize {
            return ;
        }
        let ghost oldresp = response@;
        // keep only the header (with TC), the question, and the first OPT
        let mut additionals: Vec<crate::message::Record> = Vec::new();
        match find_opt(&response.msg.additionals) {
            Some(i) => {
                additionals.push(response.msg.additionals[i].clone());
                proof {
                    assert(records_view(additionals@) =~= seq![
                        first_opt(oldresp.additionals).unwrap(),
                    ]);
                    lemma_record_in_section(oldresp.additionals, i as int);
                }
            },
            None => {
                proof {
                    assert(records_view(additionals@) =~= Seq::<RecordV>::empty());
                }
            },
        }
        let mut header = response.msg.header;
        header.tc = true;
        let questions = crate::message::clone_questions(&response.msg.questions);
        let msg = Message {
            header,
            questions,
            answers: Vec::new(),
            authorities: Vec::new(),
            additionals,
        };
        proof {
            let newm = msg@;
            let t = truncate_spec(request@, oldresp);
            assert(newm.answers =~= Seq::<RecordV>::empty());
            assert(newm.authorities =~= Seq::<RecordV>::empty());
            assert(newm.questions =~= t.questions);
            assert(newm.additionals =~= t.additionals);
            assert(newm == t);
            // the truncated message still fits a frame
            assert(wire_records(newm.answers).len() == 0);
            assert(wire_records(newm.authorities).len() == 0);
            assert(wire_questions(newm.questions) == wire_questions(oldresp.questions));
            match first_opt(oldresp.additionals) {
                Some(o) => {
                    lemma_wire_records_add(seq![o], Seq::<RecordV>::empty());
                    lemma_wire_records_single(o);
                    assert(newm.additionals =~= seq![o]);
                    assert(wire_records(newm.additionals).len() == wire_record(o).len());
                },
                None => {
                    assert(wire_records(newm.additionals).len() == 0);
                },
            }
            assert(wire_message(newm).len() <= wire_message(oldresp).len());
            assert(wf_message(newm));
        }
        response.msg = msg;
    }

    /// The preprocessor: refuse more than one OPT with FORMERR; adopt a
    /// datagram request's payload size of at least 512 as the response
    /// size hint.
    pub fn preprocess(&self, request: &mut ContextAwareMessage) -> (r: PreprocessOutcome)
        ensures
            match r {
                PreprocessOutcome::Break(b) => {
                    &&& mandatory_pre_breaks(old(request)@) == Some(b@)
                    &&& b.wf()
                    &&& *final(request) == *old(request)
                },
                PreprocessOutcome::Continue => {
                    &&& mandatory_pre_breaks(old(request)@) is None
                    &&& final(request)@ == mandatory_pre_request(old(request)@)
                },
            },
    {
        let n = count_opts(&request.msg.additionals);
        if n > 1 {
            let mut builder = ResponseBuilder::new();
            builder.set_rcode(RCODE_FORMERR);
            proof {
                assert(builder@.questions =~= formerr_response().questions);
                assert(builder@.answers =~= formerr_response().answers);
                assert(builder@.authorities =~= formerr_response().authorities);
                assert(builder@.additionals =~= formerr_response().additionals);
                assert(builder@ == formerr_response());
            }
            return PreprocessOutcome::Break(builder);
        }
        if n == 1 {
            match find_opt(&request.msg.additionals) {
                Some(i) => {
                    if request.transport().is_udp() {
                        let class = request.msg.additionals[i].class;
                        let hint_unset = match request.max_response_size_hint() {
                            None => true,
                            Some(_) => false,
                        };
                        if class >= 512 && hint_unset {
                            request.set_max_response_size_hint(class);
                        }
                    }
                },
                None => {
                    proof {
                        lemma_no_opt(records_view(request.msg.additionals@));
                    }
                },
            }
        }
        PreprocessOutcome::Continue
    }

    /// Drops every OPT record from the response when the request's
    /// additional section holds none: a requestor without EDNS must not be
    /// answered with it.
    pub fn strip_opt(request: &ContextAwareMessage, response: &mut ResponseBuilder)
        requires
            old(response).wf(),
        ensures
            final(response)@ == strip_opt_spec(request@, old(response)@),
            final(response).wf(),
    {
        let n = count_opts(&request.msg.additionals);
        if n != 0 {
            return ;
        }
        let ghost oldresp = response@;
        let ghost p = |r: RecordV| r.rtype != RT_OPT;
        let rs = &response.msg.additionals;
        let ghost rv = records_view(rs@);
        let mut kept: Vec<crate::message::Record> = Vec::new();
        let mut i: usize = 0;
        proof {
            assert(records_view(kept@) =~= rv.take(0).filter(p));
        }
        while i < rs.len()
            invariant
                i <= rs.len(),
                rv == records_view(rs@),
                p == (|r: RecordV| r.rtype != RT_OPT),
                records_view(kept@) == rv.take(i as int).filter(p),
                forall|x: int|
                    0 <= x < kept@.len() ==> crate::wire::wf_record(
                        #[trigger] records_view(kept@)[x],
                    ),
                crate::wire::wf_records(rv),
            decreases rs.len() - i,
        {
            let ghost pre = records_view(kept@);
            proof {
                reveal_with_fuel(Seq::filter, 2);
                assert(rv.take(i + 1).drop_last() =~= rv.take(i as int));
                assert(rv.take(i + 1).last() == rv[i as int]);
            }
            if rs[i].rtype != RT_OPT {
                kept.push(rs[i].clone());
                proof {
                    assert(records_view(kept@) =~= pre.push(rv[i as int]));
                }
            }
            i = i + 1;
        }
        proof {
            assert(rv.take(i as int) =~= rv);
        }
        let msg = Message {
            header: response.msg.header,
            questions: crate::message::clone_questions(&response.msg.questions),
            answers: crate::message::clone_records(&response.msg.answers),
            authorities: crate::message::clone_records(&response.msg.authorities),
            additionals: kept,
        };
        proof {
            let newm = msg@;
            let t = strip_opt_spec(request@, oldresp);
            assert(newm.questions =~= t.questions);
            assert(newm.answers =~= t.answers);
            assert(newm.authorities =~= t.authorities);
            assert(newm.additionals =~= t.additionals);
            assert(newm == t);
            crate::wire::lemma_wire_records_filter_le(oldresp.additionals, p);
            assert(wire_message(newm).len() <= wire_message(oldresp).len());
            assert(wf_message(newm));
        }
        response.msg = msg;
    }

    /// The postprocessor: truncate when oversized, strip the OPT when the
    /// request had none, then carry the request's ID and RD bit and mark
    /// the message a response.
    pub fn postprocess(&self, request: &ContextAwareMessage, response: &mut ResponseBuilder)
        requires
            old(response).wf(),
        ensures
            final(response)@ == mandatory_post_spec(request@, old(response)@),
            final(response).wf(),
    {
        Self::truncate(request, response);
        Self::strip_opt(request, response);
        response.set_id(request.message().header.id);
        response.set_qr(true);
        response.set_rd(request.message().header.rd);
    }
}

} // verus!
