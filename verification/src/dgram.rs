//! The datagram server's request handling.
//!
//! Bytes from the socket are parsed, wrapped with their transport context,
//! run through the middleware chain and the service, post-processed, and
//! turned back into wire bytes for a single `send_to`. A packet that does
//! not parse is dropped. The socket loop itself lives with the runtime;
//! what stands here is everything it decides.

use vstd::prelude::*;
use crate::builder::StreamTarget;
use crate::context::{ContextAwareMessage, ContextAwareMessageV, PeerAddr};
use crate::message::{Message, MessageV, Record, records_view};
use crate::middleware::{
    MiddlewareChain, ChainPreprocessOutcome, ChainPreV, chain_pre, chain_post,
};
use crate::service::{Service, ServiceCommand};
use crate::wire::{
    parse_message, wire_message, wf_message, wf_question, wf_record, wf_rdata, wire_rdata,
    wire_questions, wire_records, write_question, write_record, lemma_wire_questions_add,
    lemma_wire_questions_single, lemma_wire_records_add, lemma_wire_records_single,
};
use crate::zonetree::check_rdata;
use crate::zone_service::questions_wf;

verus! {

/// Well-formed record data never outgrows its length field.
pub proof fn lemma_wf_rdata_bound(rtype: u16, rd: crate::message::RdataV)
    requires
        wf_rdata(rtype, rd),
    ensures
        wire_rdata(rd).len() <= 65535,
{
}

/// Checks one record for well-formedness.
pub fn check_record_wf(rec: &Record) -> (r: bool)
    ensures
        r == wf_record(rec@),
{
    let r = rec.owner.is_wf() && check_rdata(rec.rtype, &rec.rdata);
    proof {
        if r {
            lemma_wf_rdata_bound(rec@.rtype, rec@.rdata);
        }
    }
    r
}

/// Checks a whole section for well-formedness.
pub fn check_records_wf(rs: &Vec<Record>) -> (r: bool)
    ensures
        r == crate::wire::wf_records(records_view(rs@)),
{
    let mut i: usize = 0;
    while i < rs.len()
        invariant
            i <= rs.len(),
            forall|j: int| 0 <= j < i ==> wf_record(#[trigger] records_view(rs@)[j]),
        decreases rs.len() - i,
    {
        if !check_record_wf(&rs[i]) {
            proof {
                assert(!wf_record(records_view(rs@)[i as int]));
            }
            return false;
        }
        i = i + 1;
    }
    true
}

/// Checks a message against everything `wf_message` asks: header fields
/// in range, names and record data well formed, and the whole within a
/// stream frame.
pub fn check_message_wf(m: &Message) -> (r: bool)
    ensures
        r == wf_message(m@),
{
    if m.header.opcode >= 16 || m.header.rcode >= 16 {
        return false;
    }
    if m.questions.len() > 65535 || m.answers.len() > 65535 || m.authorities.len() > 65535
        || m.additionals.len() > 65535 {
        return false;
    }
    if !questions_wf(&m.questions) {
        return false;
    }
    if !check_records_wf(&m.answers) || !check_records_wf(&m.authorities) || !check_records_wf(
        &m.additionals,
    ) {
        return false;
    }
    // the sections are well formed; what is left is the total size
    let ghost target = m@;
    let ghost wq = wire_questions(target.questions);
    let ghost wa = wire_records(target.answers);
    let ghost wn = wire_records(target.authorities);
    let ghost wr = wire_records(target.additionals);
    proof {
        assert(wire_message(target).len() == 12 + wq.len() + wa.len() + wn.len() + wr.len());
    }
    let mut sum: usize = 12;
    let qv = &m.questions;
    let mut i: usize = 0;
    proof {
        assert(wire_questions(target.questions.take(0)).len() == 0);
    }
    while i < qv.len()
        invariant
            i <= qv.len(),
            target == m@,
            wq == wire_questions(target.questions),
            crate::message::questions_view(qv@) == target.questions,
            forall|x: int|
                0 <= x < target.questions.len() ==> wf_question(#[trigger] target.questions[x]),
            sum == 12 + wire_questions(target.questions.take(i as int)).len(),
            sum <= 65535,
        decreases qv.len() - i,
    {
        proof {
            assert(target.questions.take(i + 1) =~= target.questions.take(i as int) + seq![
                target.questions[i as int],
            ]);
            lemma_wire_questions_add(
                target.questions.take(i as int),
                seq![target.questions[i as int]],
            );
            lemma_wire_questions_single(target.questions[i as int]);
            assert(target.questions =~= target.questions.take(i + 1) + target.questions.skip(
                i + 1,
            ));
            lemma_wire_questions_add(target.questions.take(i + 1), target.questions.skip(i + 1));
        }
        let mut tmp: Vec<u8> = Vec::new();
        write_question(&mut tmp, &qv[i]);
        if tmp.len() > 65535 - sum {
            proof {
                assert(wire_message(target).len() > 65535);
            }
            return false;
        }
        sum = sum + tmp.len();
        i = i + 1;
    }
    proof {
        assert(target.questions.take(i as int) =~= target.questions);
    }
    match measure_records(&m.answers, sum, Ghost(target), 0) {
        Some(s2) => match measure_records(&m.authorities, s2, Ghost(target), 1) {
            Some(s3) => match measure_records(&m.additionals, s3, Ghost(target), 2) {
                Some(_) => true,
                None => false,
            },
            None => false,
        },
        None => false,
    }
}

/// Adds one record section's wire length to the running total, refusing
/// when the whole message would outgrow a frame. `section` names which
/// section, so the running total can be pinned against the message.
fn measure_records(rs: &Vec<Record>, sum: usize, Ghost(target): Ghost<MessageV>, section: u8) -> (r:
    Option<usize>)
    requires
        section < 3,
        crate::wire::wf_records(records_view(rs@)),
        section == 0 ==> records_view(rs@) == target.answers && sum == 12 + wire_questions(
            target.questions,
        ).len(),
        section == 1 ==> records_view(rs@) == target.authorities && sum == 12 + wire_questions(
            target.questions,
        ).len() + wire_records(target.answers).len(),
        section == 2 ==> records_view(rs@) == target.additionals && sum == 12 + wire_questions(
            target.questions,
        ).len() + wire_records(target.answers).len() + wire_records(target.authorities).len(),
        sum <= 65535,
    ensures
        match r {
            Some(s) => {
                &&& s == sum + wire_records(records_view(rs@)).len()
                &&& s <= 65535
            },
            None => wire_message(target).len() > 65535,
        },
{
    let ghost rv = records_view(rs@);
    proof {
        assert(wire_message(target).len() == 12 + wire_questions(target.questions).len()
            + wire_records(target.answers).len() + wire_records(target.authorities).len()
            + wire_records(target.additionals).len());
        assert(wire_records(rv.take(0)).len() == 0);
    }
    let mut total: usize = sum;
    let mut i: usize = 0;
    while i < rs.len()
        invariant
            i <= rs.len(),
            section < 3,
            rv == records_view(rs@),
            crate::wire::wf_records(rv),
            total == sum + wire_records(rv.take(i as int)).len(),
            total <= 65535,
            wire_message(target).len() >= sum + wire_records(rv).len(),
        decreases rs.len() - i,
    {
        proof {
            assert(rv.take(i + 1) =~= rv.take(i as int) + seq![rv[i as int]]);
            lemma_wire_records_add(rv.take(i as int), seq![rv[i as int]]);
            lemma_wire_records_single(rv[i as int]);
            assert(rv =~= rv.take(i + 1) + rv.skip(i + 1));
            lemma_wire_records_add(rv.take(i + 1), rv.skip(i + 1));
        }
        let mut tmp: Vec<u8> = Vec::new();
        write_record(&mut tmp, &rs[i]);
        if tmp.len() > 65535 - total {
            proof {
                assert(wire_message(target).len() > 65535);
            }
            return None;
        }
        total = total + tmp.len();
        i = i + 1;
    }
    proof {
        assert(rv.take(i as int) =~= rv);
    }
    Some(total)
}

//---------- The request path ---------------------------------------------------------

/// The SERVFAIL reply a failed service call becomes: an empty message
/// carrying only the response code, which postprocessing then fits to the
/// request.
pub open spec fn servfail_response() -> MessageV {
    MessageV {
        header: crate::message::Header {
            rcode: crate::message::RCODE_SERVFAIL,
            ..crate::message::empty_header()
        },
        questions: Seq::<crate::message::QuestionV>::empty(),
        answers: Seq::<crate::message::RecordV>::empty(),
        authorities: Seq::<crate::message::RecordV>::empty(),
        additionals: Seq::<crate::message::RecordV>::empty(),
    }
}

/// Builds the empty SERVFAIL response body.
pub fn servfail_builder() -> (r: crate::builder::ResponseBuilder)
    ensures
        r@ == servfail_response(),
        r.wf(),
{
    let mut b = crate::builder::ResponseBuilder::new();
    b.set_rcode(crate::message::RCODE_SERVFAIL);
    proof {
        assert(b@.questions =~= servfail_response().questions);
        assert(b@.answers =~= servfail_response().answers);
        assert(b@.authorities =~= servfail_response().authorities);
        assert(b@.additionals =~= servfail_response().additionals);
        assert(b@ == servfail_response());
    }
    b
}

/// The SERVFAIL answer to a request, postprocessed by the whole chain and
/// framed, as a failed service call is answered.
pub fn servfail_target(chain: &MiddlewareChain, request: &ContextAwareMessage) -> (t: StreamTarget)
    ensures
        t.wf(),
        t.dgram_view() == wire_message(
            chain_post(
                chain.processors_view(),
                request@,
                servfail_response(),
                chain.processors@.len() as int,
            ),
        ),
{
    let mut b = servfail_builder();
    chain.postprocess(request, &mut b, None);
    b.finish()
}

/// A target as the service path emits it: framed, well formed, and the
/// postprocessing walk of some response to the preprocessed request.
pub open spec fn postprocessed_target(
    ps: Seq<crate::middleware::ProcessorV>,
    q: ContextAwareMessageV,
    t: StreamTarget,
) -> bool {
    &&& t.wf()
    &&& exists|resp0: MessageV|
        t.dgram_view() == wire_message(#[trigger] chain_post(ps, q, resp0, ps.len() as int))
}

/// What one call result of the service becomes on the wire, value by
/// value: a well-formed response is postprocessed by the whole chain and
/// framed; an item carrying no response, or an ill-formed one, yields
/// nothing to send.
pub fn finish_call_result(
    chain: &MiddlewareChain,
    request: &ContextAwareMessage,
    cr: crate::service::CallResult,
) -> (r: Option<StreamTarget>)
    ensures
        match cr.response {
            Some(b) => {
                if wf_message(b@) {
                    r matches Some(t) && t.wf() && t.dgram_view() == wire_message(
                        chain_post(
                            chain.processors_view(),
                            request@,
                            b@,
                            chain.processors@.len() as int,
                        ),
                    )
                } else {
                    r is None
                }
            },
            None => r is None,
        },
{
    match cr.response {
        Some(mut b) => {
            if check_message_wf(&b.msg) {
                chain.postprocess(request, &mut b, None);
                Some(b.finish())
            } else {
                None
            }
        },
        None => None,
    }
}

/// Handles one datagram: parse, preprocess, serve, postprocess, and give
/// back the bytes to send — or nothing, when the packet does not parse,
/// the service is shutting down, or its response is unusable. A service
/// error becomes a postprocessed SERVFAIL reply; every emitted target is
/// `finish_call_result`'s work, so with the mandatory processor first in
/// the chain it answers under the request's ID.
pub fn handle_dgram_request<S: Service>(
    chain: &MiddlewareChain,
    service: &S,
    msg_bytes: &Vec<u8>,
    peer: PeerAddr,
    received_at: u64,
) -> (r: Option<StreamTarget>)
    ensures
        parse_message(msg_bytes@) is None ==> r is None,
        match parse_message(msg_bytes@) {
            Some(m) => {
                let req0 = ContextAwareMessageV {
                    msg: m,
                    udp: true,
                    max_response_size_hint: None,
                    peer: peer@,
                    received_at,
                };
                let ps = chain.processors_view();
                match chain_pre(ps, req0, 0) {
                    ChainPreV::Broke(q, resp, idx) => r matches Some(t) && t.wf()
                        && t.dgram_view() == wire_message(chain_post(ps, q, resp, idx + 1)),
                    ChainPreV::Continued(q) => match r {
                        Some(t) => postprocessed_target(ps, q, t),
                        None => true,
                    },
                }
            },
            None => true,
        },
{
    let msg = match Message::parse(msg_bytes) {
        Some(m) => m,
        None => {
            return None;
        },
    };
    let mut request = ContextAwareMessage::new(msg, false, peer, received_at);
    match chain.preprocess::<S::Error>(&mut request) {
        ChainPreprocessOutcome::Break(t, idx) => {
            let mut t = t;
            match t.next() {
                Some(Ok(cr)) => match cr.response {
                    Some(mut b) => {
                        chain.postprocess(&request, &mut b, Some(idx));
                        Some(b.finish())
                    },
                    None => {
                        proof {
                            assert(false);
                        }
                        None
                    },
                },
                _ => {
                    proof {
                        assert(false);
                    }
                    None
                },
            }
        },
        ChainPreprocessOutcome::Continue => {
            let ghost ps = chain.processors_view();
            let ghost q = request@;
            let out = match service.call(&request) {
                Ok(mut t) => match t.next() {
                    Some(Ok(cr)) => finish_call_result(chain, &request, cr),
                    Some(Err(e)) => match e {
                        crate::service::ServiceError::ShuttingDown => None,
                        _ => Some(servfail_target(chain, &request)),
                    },
                    None => None,
                },
                Err(e) => match e {
                    crate::service::ServiceError::ShuttingDown => None,
                    _ => Some(servfail_target(chain, &request)),
                },
            };
            proof {
                assert(out matches Some(t) ==> postprocessed_target(ps, q, t));
            }
            out
        },
    }
}

//---------- Commands at the datagram server ------------------------------------------

/// What the datagram server's loop does with an observed command.
#[derive(Clone, Copy, Debug, PartialEq, Eq, Structural)]
pub enum DgramCommandAction {
    /// Leave the receive loop cleanly.
    Terminate,
    /// Nothing; keep receiving.
    Ignore,
}

/// The datagram server's reading of a command: `Shutdown` ends the loop,
/// `Reconfigure` changes nothing for datagrams. `Init` is never observed
/// after start and `CloseConnection` has no meaning without connections,
/// so neither is accepted here.
pub fn dgram_command_action(cmd: ServiceCommand) -> (r: DgramCommandAction)
    requires
        !(cmd is Init),
        !(cmd is CloseConnection),
    ensures
        cmd is Shutdown ==> r == DgramCommandAction::Terminate,
        cmd is Reconfigure ==> r == DgramCommandAction::Ignore,
{
    match cmd {
        ServiceCommand::Shutdown => DgramCommandAction::Terminate,
        _ => DgramCommandAction::Ignore,
    }
}

} // verus!
