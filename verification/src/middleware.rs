//! Chaining middleware processors.
//!
//! A chain is an immutable ordered run of processors. Preprocessing walks
//! it front to back and may stop early with a ready response; the index at
//! which it stopped bounds postprocessing, which walks backward from there,
//! so that exactly the processors that saw the request see the response.

use vstd::prelude::*;
use crate::builder::ResponseBuilder;
use crate::context::{ContextAwareMessage, ContextAwareMessageV};
use crate::mandatory::{
    MandatoryMiddlewareProcessor, PreprocessOutcome, mandatory_pre_breaks, mandatory_pre_request,
    mandatory_post_spec,
};
use crate::message::MessageV;
use crate::service::{CallResult, ServiceError, Transaction};
use crate::wire::wf_message;

verus! {

/// A middleware processor the chain can hold.
pub enum Processor {
    Mandatory(MandatoryMiddlewareProcessor),
}

pub ghost enum ProcessorV {
    Mandatory,
}

impl View for Processor {
    type V = ProcessorV;

    open spec fn view(&self) -> ProcessorV {
        match self {
            Processor::Mandatory(_) => ProcessorV::Mandatory,
        }
    }
}

impl Clone for Processor {
    fn clone(&self) -> (r: Self)
        ensures
            r@ == self@,
    {
        match self {
            Processor::Mandatory(_) => Processor::Mandatory(MandatoryMiddlewareProcessor),
        }
    }
}

/// When a processor's preprocessing refuses the request, and with what.
pub open spec fn proc_pre_breaks(p: ProcessorV, req: ContextAwareMessageV) -> Option<MessageV> {
    match p {
        ProcessorV::Mandatory => mandatory_pre_breaks(req),
    }
}

/// The request as a processor's preprocessing leaves it when it continues.
pub open spec fn proc_pre_request(p: ProcessorV, req: ContextAwareMessageV) -> ContextAwareMessageV {
    match p {
        ProcessorV::Mandatory => mandatory_pre_request(req),
    }
}

/// The response as a processor's postprocessing leaves it.
pub open spec fn proc_post(p: ProcessorV, req: ContextAwareMessageV, resp: MessageV) -> MessageV {
    match p {
        ProcessorV::Mandatory => mandatory_post_spec(req, resp),
    }
}

/// What walking the chain's preprocessors from index `i` comes to.
pub ghost enum ChainPreV {
    /// All processors from `i` on continued; the request ends up thus.
    Continued(ContextAwareMessageV),
    /// The processor at the carried index broke with the carried response;
    /// the request ends up thus.
    Broke(ContextAwareMessageV, MessageV, int),
}

/// The chain's preprocessing walk: processors in order, each either
/// passing the (possibly updated) request on or stopping with a response.
pub open spec fn chain_pre(ps: Seq<ProcessorV>, req: ContextAwareMessageV, i: int) -> ChainPreV
    decreases ps.len() - i,
{
    if i < 0 || i >= ps.len() {
        ChainPreV::Continued(req)
    } else {
        match proc_pre_breaks(ps[i], req) {
            Some(resp) => ChainPreV::Broke(req, resp, i),
            None => chain_pre(ps, proc_pre_request(ps[i], req), i + 1),
        }
    }
}

/// The chain's postprocessing walk: the processors below `upto`, applied
/// backward — the processor at `upto - 1` first, the one at 0 last.
pub open spec fn chain_post(
    ps: Seq<ProcessorV>,
    req: ContextAwareMessageV,
    resp: MessageV,
    upto: int,
) -> MessageV
    decreases upto,
{
    if upto <= 0 || upto > ps.len() {
        resp
    } else {
        chain_post(ps, req, proc_post(ps[upto - 1], req, resp), upto - 1)
    }
}

/// Only the processors that saw the request figure in postprocessing: a
/// walk bounded at the break index gives the same response on the chain
/// cut off there, so the processors past it can have observed nothing.
pub proof fn lemma_post_only_ran_processors(
    ps: Seq<ProcessorV>,
    req: ContextAwareMessageV,
    resp: MessageV,
    upto: int,
)
    requires
        0 <= upto <= ps.len(),
    ensures
        chain_post(ps, req, resp, upto) == chain_post(ps.take(upto), req, resp, upto),
    decreases upto,
{
    if upto > 0 {
        assert(ps.take(upto)[upto - 1] == ps[upto - 1]);
        lemma_post_only_ran_processors(ps, req, proc_post(ps[upto - 1], req, resp), upto - 1);
        assert(ps.take(upto - 1) =~= ps.take(upto).take(upto - 1));
        lemma_post_only_ran_processors(
            ps.take(upto),
            req,
            proc_post(ps[upto - 1], req, resp),
            upto - 1,
        );
    }
}

/// When the chain starts with the mandatory processor, every response that
/// leaves a postprocessing walk that reaches it carries the request's ID
/// and RD bit and the QR bit.
pub proof fn lemma_chain_post_header(
    ps: Seq<ProcessorV>,
    req: ContextAwareMessageV,
    resp: MessageV,
    upto: int,
)
    requires
        1 <= upto <= ps.len(),
        ps[0] is Mandatory,
    ensures
        chain_post(ps, req, resp, upto).header.id == req.msg.header.id,
        chain_post(ps, req, resp, upto).header.qr == true,
        chain_post(ps, req, resp, upto).header.rd == req.msg.header.rd,
    decreases upto,
{
    if upto == 1 {
        assert(chain_post(ps, req, resp, 1) == chain_post(ps, req, proc_post(ps[0], req, resp), 0));
        assert(chain_post(ps, req, proc_post(ps[0], req, resp), 0) == proc_post(ps[0], req, resp));
        assert(proc_post(ps[0], req, resp) == mandatory_post_spec(req, resp));
    } else {
        lemma_chain_post_header(ps, req, proc_post(ps[upto - 1], req, resp), upto - 1);
    }
}

/// What the chain's preprocessing tells the caller.
pub enum ChainPreprocessOutcome<E> {
    /// Every processor continued; hand the request to the service.
    Continue,
    /// A processor broke with this one-response transaction; postprocess
    /// it from the carried index.
    Break(Transaction<Result<CallResult, ServiceError<E>>>, usize),
}

/// An immutable ordered run of middleware processors, shared by servers.
pub struct MiddlewareChain {
    pub processors: Vec<Processor>,
}

impl Clone for MiddlewareChain {
    fn clone(&self) -> (r: Self)
        ensures
            r.processors_view() == self.processors_view(),
    {
        let mut processors: Vec<Processor> = Vec::new();
        let mut i: usize = 0;
        while i < self.processors.len()
            invariant
                i <= self.processors.len(),
                processors@.len() == i,
                forall|j: int| 0 <= j < i ==> #[trigger] processors@[j]@ == self.processors@[j]@,
            decreases self.processors.len() - i,
        {
            processors.push(self.processors[i].clone());
            i = i + 1;
        }
        let r = MiddlewareChain { processors };
        proof {
            assert(r.processors_view() =~= self.processors_view());
        }
        r
    }
}

impl MiddlewareChain {
    /// The views of the processors.
    pub open spec fn processors_view(&self) -> Seq<ProcessorV> {
        Seq::new(self.processors@.len(), |i: int| self.processors@[i]@)
    }

    /// A chain of the given processors, in order.
    pub fn new(processors: Vec<Processor>) -> (r: MiddlewareChain)
        ensures
            r.processors == processors,
    {
        MiddlewareChain { processors }
    }

    /// Walks the chain forward, giving each preprocessor the request.
    /// Either all continue — the request, possibly updated, goes to the
    /// service — or one breaks, and its response, as a one-item
    /// transaction, goes back with the index to postprocess from.
    pub fn preprocess<E>(&self, request: &mut ContextAwareMessage) -> (r: ChainPreprocessOutcome<
        E,
    >)
        ensures
            match r {
                ChainPreprocessOutcome::Continue => {
                    &&& chain_pre(self.processors_view(), old(request)@, 0) matches
                        ChainPreV::Continued(q) && final(request)@ == q
                },
                ChainPreprocessOutcome::Break(t, i) => {
                    &&& chain_pre(self.processors_view(), old(request)@, 0) matches
                        ChainPreV::Broke(q, resp, idx) && {
                        &&& final(request)@ == q
                        &&& i == idx
                        &&& i < self.processors@.len()
                        &&& t is Single
                        &&& t.remaining().len() == 1
                        &&& match t.remaining()[0] {
                            Ok(cr) => {
                                &&& cr@.response == Some(resp)
                                &&& cr@.command is None
                                &&& cr.response matches Some(b) && b.wf()
                            },
                            Err(_) => false,
                        }
                    }
                },
            },
    {
        let ghost ps = self.processors_view();
        let ghost req0 = request@;
        let mut i: usize = 0;
        while i < self.processors.len()
            invariant
                i <= self.processors.len(),
                ps == self.processors_view(),
                req0 == old(request)@,
                chain_pre(ps, req0, 0) == chain_pre(ps, request@, i as int),
            decreases self.processors.len() - i,
        {
            let outcome = match &self.processors[i] {
                Processor::Mandatory(p) => p.preprocess(request),
            };
            match outcome {
                PreprocessOutcome::Continue => {},
                PreprocessOutcome::Break(b) => {
                    proof {
                        assert(ps[i as int] == ProcessorV::Mandatory);
                        assert(proc_pre_breaks(ps[i as int], request@) == Some(b@));
                        assert(chain_pre(ps, request@, i as int) == ChainPreV::Broke(
                            request@,
                            b@,
                            i as int,
                        ));
                    }
                    let cr = CallResult::new(b);
                    let t = Transaction::single(Ok(cr));
                    return ChainPreprocessOutcome::Break(t, i);
                },
            }
            i = i + 1;
        }
        ChainPreprocessOutcome::Continue
    }

    /// Walks the chain backward, letting each processor that preprocessed
    /// the request postprocess the response: from the breaking processor
    /// itself when an index is given, from the end when none is.
    pub fn postprocess(
        &self,
        request: &ContextAwareMessage,
        response: &mut ResponseBuilder,
        last_processor_idx: Option<usize>,
    )
        requires
            old(response).wf(),
            match last_processor_idx {
                Some(i) => i < self.processors@.len(),
                None => true,
            },
        ensures
            final(response).wf(),
            final(response)@ == chain_post(
                self.processors_view(),
                request@,
                old(response)@,
                match last_processor_idx {
                    Some(i) => i + 1int,
                    None => self.processors@.len() as int,
                },
            ),
    {
        let n = self.processors.len();
        let upto = match last_processor_idx {
            Some(i) => i + 1,
            None => n,
        };
        let ghost ps = self.processors_view();
        let ghost orig = response@;
        let mut j: usize = upto;
        while j > 0
            invariant
                j <= upto,
                upto <= self.processors@.len(),
                ps == self.processors_view(),
                response.wf(),
                chain_post(ps, request@, orig, upto as int) == chain_post(
                    ps,
                    request@,
                    response@,
                    j as int,
                ),
            decreases j,
        {
            j = j - 1;
            match &self.processors[j] {
                Processor::Mandatory(p) => p.postprocess(request, response),
            }
        }
    }
}

} // verus!
