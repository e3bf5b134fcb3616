//! The stream server's per-connection logic.
//!
//! A connection reads length-prefixed frames, numbers each request, and
//! must write responses in request order even when they finish out of
//! order: the ordered collector holds finished responses until their turn.
//! The connection itself moves through accepting, active, draining and
//! closed, and the step function here decides every transition.

use vstd::prelude::*;
use crate::builder::StreamTarget;
use crate::service::ServiceCommand;

verus! {

//---------- Ordered response collection ----------------------------------------------

/// Responses finished for requests whose turn has not come: each under
/// its request's sequence number.
pub struct OrderedCollector {
    pub next_seq: u64,
    pub pending: Vec<(u64, Vec<StreamTarget>)>,
}

impl OrderedCollector {
    /// Sequence numbers held are distinct and none is past due.
    pub open spec fn wf(&self) -> bool {
        &&& forall|i: int, j: int|
            0 <= i < j < self.pending@.len() ==> (#[trigger] self.pending@[i]).0 != (
            #[trigger] self.pending@[j]).0
        &&& forall|i: int|
            0 <= i < self.pending@.len() ==> (#[trigger] self.pending@[i]).0 >= self.next_seq
    }

    /// Whether a sequence number is held.
    pub open spec fn holds(&self, seq: u64) -> bool {
        exists|i: int| 0 <= i < self.pending@.len() && (#[trigger] self.pending@[i]).0 == seq
    }

    /// An empty collector, waiting for the first request's responses.
    pub fn new() -> (r: OrderedCollector)
        ensures
            r.next_seq == 0,
            r.pending@.len() == 0,
            r.wf(),
    {
        OrderedCollector { next_seq: 0, pending: Vec::new() }
    }

    /// Files the finished responses of request `seq` to wait their turn.
    pub fn push(&mut self, seq: u64, responses: Vec<StreamTarget>)
        requires
            old(self).wf(),
            seq >= old(self).next_seq,
            !old(self).holds(seq),
        ensures
            final(self).wf(),
            final(self).next_seq == old(self).next_seq,
            final(self).pending@ == old(self).pending@.push((seq, responses)),
            final(self).holds(seq),
    {
        let ghost pre = self.pending@;
        self.pending.push((seq, responses));
        proof {
            assert forall|i: int, j: int|
                0 <= i < j < self.pending@.len() implies (#[trigger] self.pending@[i]).0 != (
            #[trigger] self.pending@[j]).0 by {
                if j < pre.len() {
                } else {
                    if (pre[i]).0 == seq {
                        assert(old(self).holds(seq));
                    }
                }
            }
            assert(self.pending@[pre.len() as int].0 == seq);
        }
    }

    /// The responses whose turn it is: those of request `next_seq`, when
    /// they have been filed; taking them advances the turn. The wire thus
    /// carries responses in request order, each request's together.
    pub fn pop_ready(&mut self) -> (r: Option<Vec<StreamTarget>>)
        requires
            old(self).wf(),
            old(self).next_seq < u64::MAX,
        ensures
            final(self).wf(),
            match r {
                Some(responses) => {
                    &&& old(self).holds(old(self).next_seq)
                    &&& exists|i: int|
                        0 <= i < old(self).pending@.len() && (#[trigger] old(self).pending@[i])
                            == (old(self).next_seq, responses)
                    &&& final(self).next_seq == old(self).next_seq + 1
                    &&& !final(self).holds(old(self).next_seq)
                },
                None => {
                    &&& !old(self).holds(old(self).next_seq)
                    &&& *final(self) == *old(self)
                },
            },
    {
        let mut i: usize = 0;
        while i < self.pending.len()
            invariant
                i <= self.pending@.len(),
                self.wf(),
                self.next_seq < u64::MAX,
                *self == *old(self),
                forall|j: int| 0 <= j < i ==> (#[trigger] self.pending@[j]).0 != self.next_seq,
            decreases self.pending@.len() - i,
        {
            if self.pending[i].0 == self.next_seq {
                let ghost pre = self.pending@;
                let (seq, responses) = self.pending.remove(i);
                self.next_seq = self.next_seq + 1;
                proof {
                    assert(pre[i as int] == (old(self).next_seq, responses));
                    assert forall|x: int|
                        0 <= x < self.pending@.len() implies (#[trigger] self.pending@[x]).0
                        >= self.next_seq by {
                        if x < i {
                            assert(self.pending@[x] == pre[x]);
                            assert(pre[x].0 != old(self).next_seq);
                        } else {
                            assert(self.pending@[x] == pre[x + 1]);
                            assert(pre[x + 1].0 != old(self).next_seq) by {
                                if pre[x + 1].0 == old(self).next_seq {
                                    assert(pre[i as int].0 == pre[x + 1].0);
                                }
                            }
                        }
                    }
                    assert forall|x: int, y: int|
                        0 <= x < y < self.pending@.len() implies (#[trigger] self.pending@[x]).0
                        != (#[trigger] self.pending@[y]).0 by {
                        let px = if x < i {
                            x
                        } else {
                            x + 1
                        };
                        let py = if y < i {
                            y
                        } else {
                            y + 1
                        };
                        assert(self.pending@[x] == pre[px]);
                        assert(self.pending@[y] == pre[py]);
                    }
                    assert forall|x: int|
                        0 <= x < self.pending@.len() implies (#[trigger] self.pending@[x]).0
                        != old(self).next_seq by {
                        assert(self.pending@[x].0 >= self.next_seq);
                    }
                }
                return Some(responses);
            }
            i = i + 1;
        }
        None
    }
}

/// The order a connection's write half puts on the wire: every request's
/// responses whole, in request order.
pub open spec fn flatten_targets(rs: Seq<Vec<StreamTarget>>) -> Seq<StreamTarget>
    decreases rs.len(),
{
    if rs.len() == 0 {
        Seq::<StreamTarget>::empty()
    } else {
        rs[0]@ + flatten_targets(rs.skip(1))
    }
}

/// What a connection writes for requests answered in order: the first
/// request's responses, then the second's, and so on — never interleaved.
pub fn wire_order(mut responses_by_request: Vec<Vec<StreamTarget>>) -> (r: Vec<StreamTarget>)
    ensures
        r@ == flatten_targets(responses_by_request@),
{
    let ghost rv = responses_by_request@;
    let mut out: Vec<StreamTarget> = Vec::new();
    let mut i: usize = 0;
    let n_exec = responses_by_request.len();
    proof {
        assert(rv.len() == n_exec);
        assert(out@ =~= flatten_targets(rv.take(0)));
    }
    while responses_by_request.len() > 0
        invariant
            i + responses_by_request@.len() == rv.len(),
            rv.len() <= usize::MAX,
            responses_by_request@ == rv.skip(i as int),
            out@ == flatten_targets(rv.take(i as int)),
        decreases responses_by_request@.len(),
    {
        let ghost prerest = responses_by_request@;
        let mut batch = responses_by_request.remove(0);
        proof {
            assert(prerest[0] == rv[i as int]);
            assert forall|x: int|
                0 <= x < responses_by_request@.len() implies responses_by_request@[x] == rv.skip(
                i + 1,
            )[x] by {
                assert(responses_by_request@[x] == prerest[x + 1]);
            }
            assert(responses_by_request@ =~= rv.skip(i + 1));
        }
        let ghost pre = out@;
        let ghost bv = batch@;
        let b_exec = batch.len();
        proof {
            assert(bv.len() == b_exec);
        }
        let mut j: usize = 0;
        while batch.len() > 0
            invariant
                j + batch@.len() == bv.len(),
                bv.len() <= usize::MAX,
                batch@ == bv.skip(j as int),
                out@ == pre + bv.take(j as int),
            decreases batch@.len(),
        {
            let ghost preb = batch@;
            let t = batch.remove(0);
            proof {
                assert(preb[0] == bv[j as int]);
                assert forall|x: int| 0 <= x < batch@.len() implies batch@[x] == bv.skip(j + 1)[x]
                    by {
                    assert(batch@[x] == preb[x + 1]);
                }
                assert(batch@ =~= bv.skip(j + 1));
            }
            out.push(t);
            j = j + 1;
            proof {
                assert(out@ =~= pre + bv.take(j as int));
            }
        }
        proof {
            assert(bv.take(j as int) =~= bv);
            lemma_flatten_targets_snoc(rv, i as int);
            assert(out@ =~= flatten_targets(rv.take(i + 1)));
        }
        i = i + 1;
    }
    proof {
        assert(rv.take(i as int) =~= rv);
    }
    out
}

/// One more request's responses go behind all the earlier ones.
pub proof fn lemma_flatten_targets_snoc(rs: Seq<Vec<StreamTarget>>, i: int)
    requires
        0 <= i < rs.len(),
    ensures
        flatten_targets(rs.take(i + 1)) == flatten_targets(rs.take(i)) + rs[i]@,
    decreases i,
{
    if i == 0 {
        assert(rs.take(1)[0] == rs[0]);
        assert(rs.take(1).skip(1) =~= Seq::<Vec<StreamTarget>>::empty());
        assert(rs.take(0) =~= Seq::<Vec<StreamTarget>>::empty());
        assert(flatten_targets(rs.take(1)) =~= flatten_targets(rs.take(0)) + rs[0]@);
    } else {
        let rs2 = rs.skip(1);
        assert(rs.take(i + 1)[0] == rs[0]);
        assert(rs.take(i + 1).skip(1) =~= rs2.take(i));
        assert(rs.take(i)[0] == rs[0]);
        assert(rs.take(i).skip(1) =~= rs2.take(i - 1));
        lemma_flatten_targets_snoc(rs2, i - 1);
        assert(rs2[i - 1] == rs[i]);
        assert(flatten_targets(rs.take(i + 1)) =~= flatten_targets(rs.take(i)) + rs[i]@);
    }
}

//---------- The stream request path ---------------------------------------------------

/// Handles one framed request on a stream connection: parse, preprocess,
/// serve, postprocess every streamed response, and give back the framed
/// targets to write in order — or nothing, exactly when the frame does
/// not parse. A service error becomes a postprocessed SERVFAIL reply,
/// except a shutting-down service, which yields no reply and asks the
/// connection to close. Every emitted target on the service path is
/// `finish_call_result`'s work or that SERVFAIL reply. The command, when
/// an item carried one, comes along for the connection to obey.
#[verifier::rlimit(100)]
pub fn handle_stream_request<S: crate::service::Service>(
    chain: &crate::middleware::MiddlewareChain,
    service: &S,
    msg_bytes: &Vec<u8>,
    peer: crate::context::PeerAddr,
    received_at: u64,
) -> (r: Option<(Vec<StreamTarget>, Option<ServiceCommand>)>)
    ensures
        (r is None) == (crate::wire::parse_message(msg_bytes@) is None),
        match crate::wire::parse_message(msg_bytes@) {
            Some(m) => {
                let req0 = crate::context::ContextAwareMessageV {
                    msg: m,
                    udp: false,
                    max_response_size_hint: None,
                    peer: peer@,
                    received_at,
                };
                let ps = chain.processors_view();
                match crate::middleware::chain_pre(ps, req0, 0) {
                    crate::middleware::ChainPreV::Broke(q, resp, idx) => r matches Some(
                        (targets, _),
                    ) && targets@.len() == 1 && targets@[0].wf() && targets@[0].dgram_view()
                        == crate::wire::wire_message(
                        crate::middleware::chain_post(ps, q, resp, idx + 1),
                    ),
                    crate::middleware::ChainPreV::Continued(q) => match r {
                        Some((targets, _)) => forall|k: int|
                            0 <= k < targets@.len() ==> crate::dgram::postprocessed_target(
                                ps,
                                q,
                                #[trigger] targets@[k],
                            ),
                        None => true,
                    },
                }
            },
            None => true,
        },
{
    let msg = match crate::message::Message::parse(msg_bytes) {
        Some(m) => m,
        None => {
            return None;
        },
    };
    let mut request = crate::context::ContextAwareMessage::new(msg, true, peer, received_at);
    let mut out: Vec<StreamTarget> = Vec::new();
    let mut command: Option<ServiceCommand> = None;
    match chain.preprocess::<S::Error>(&mut request) {
        crate::middleware::ChainPreprocessOutcome::Break(t, idx) => {
            let mut t = t;
            match t.next() {
                Some(Ok(cr)) => match cr.response {
                    Some(mut b) => {
                        chain.postprocess(&request, &mut b, Some(idx));
                        out.push(b.finish());
                        proof {
                            assert(out@.len() == 1);
                        }
                    },
                    None => {
                        proof {
                            assert(false);
                        }
                    },
                },
                _ => {
                    proof {
                        assert(false);
                    }
                },
            }
        },
        crate::middleware::ChainPreprocessOutcome::Continue => {
            let ghost ps = chain.processors_view();
            let ghost q = request@;
            match service.call(&request) {
                Ok(mut t) => {
                    loop
                        invariant
                            ps == chain.processors_view(),
                            request@ == q,
                            forall|k: int|
                                0 <= k < out@.len() ==> crate::dgram::postprocessed_target(
                                    ps,
                                    q,
                                    #[trigger] out@[k],
                                ),
                        decreases t.remaining().len(),
                    {
                        match t.next() {
                            Some(Ok(cr)) => {
                                if command.is_none() {
                                    command = cr.command;
                                }
                                match cr.response {
                                    Some(mut b) => {
                                        if crate::dgram::check_message_wf(&b.msg) {
                                            let ghost resp0 = b@;
                                            chain.postprocess(&request, &mut b, None);
                                            let target = b.finish();
                                            proof {
                                                assert(target.dgram_view()
                                                    == crate::wire::wire_message(
                                                    crate::middleware::chain_post(
                                                        ps,
                                                        q,
                                                        resp0,
                                                        ps.len() as int,
                                                    ),
                                                ));
                                                assert(crate::dgram::postprocessed_target(
                                                    ps,
                                                    q,
                                                    target,
                                                ));
                                            }
                                            let ghost pre_out = out@;
                                            out.push(target);
                                            proof {
                                                assert(out@[pre_out.len() as int] == target);
                                                assert(forall|k: int|
                                                    0 <= k < pre_out.len() ==> out@[k]
                                                        == pre_out[k]);
                                            }
                                        }
                                    },
                                    None => {},
                                }
                            },
                            Some(Err(e)) => {
                                match e {
                                    crate::service::ServiceError::ShuttingDown => {
                                        command = Some(ServiceCommand::CloseConnection);
                                    },
                                    _ => {
                                        let target = crate::dgram::servfail_target(
                                            chain,
                                            &request,
                                        );
                                        proof {
                                            assert(target.dgram_view()
                                                == crate::wire::wire_message(
                                                crate::middleware::chain_post(
                                                    ps,
                                                    q,
                                                    crate::dgram::servfail_response(),
                                                    ps.len() as int,
                                                ),
                                            ));
                                        }
                                        proof {
                                            assert(crate::dgram::postprocessed_target(
                                                ps,
                                                q,
                                                target,
                                            ));
                                        }
                                        let ghost pre_out = out@;
                                        out.push(target);
                                        proof {
                                            assert(forall|k: int|
                                                0 <= k < pre_out.len() ==> out@[k] == pre_out[k]);
                                            assert(out@[pre_out.len() as int] == target);
                                        }
                                    },
                                }
                            },
                            None => {
                                break ;
                            },
                        }
                    }
                },
                Err(e) => {
                    match e {
                        crate::service::ServiceError::ShuttingDown => {
                            command = Some(ServiceCommand::CloseConnection);
                        },
                        _ => {
                            let target = crate::dgram::servfail_target(chain, &request);
                            proof {
                                assert(target.dgram_view() == crate::wire::wire_message(
                                    crate::middleware::chain_post(
                                        ps,
                                        q,
                                        crate::dgram::servfail_response(),
                                        ps.len() as int,
                                    ),
                                ));
                            }
                            proof {
                                assert(crate::dgram::postprocessed_target(ps, q, target));
                            }
                            out.push(target);
                            proof {
                                assert(out@.len() == 1);
                                assert(out@[0] == target);
                            }
                        },
                    }
                },
            }
        },
    }
    Some((out, command))
}

/// The best-effort FORMERR a connection writes before draining on a
/// framing error: an empty reply with only the response code and the
/// reply bit set. With no parseable request there is no ID to echo.
pub open spec fn framing_error_response() -> crate::message::MessageV {
    crate::message::MessageV {
        header: crate::message::Header {
            qr: true,
            rcode: crate::message::RCODE_FORMERR,
            ..crate::message::empty_header()
        },
        questions: Seq::<crate::message::QuestionV>::empty(),
        answers: Seq::<crate::message::RecordV>::empty(),
        authorities: Seq::<crate::message::RecordV>::empty(),
        additionals: Seq::<crate::message::RecordV>::empty(),
    }
}

/// Builds the framed best-effort FORMERR reply.
pub fn framing_error_reply() -> (t: StreamTarget)
    ensures
        t.wf(),
        t.dgram_view() == crate::wire::wire_message(framing_error_response()),
{
    let mut b = crate::builder::ResponseBuilder::new();
    b.set_rcode(crate::message::RCODE_FORMERR);
    b.set_qr(true);
    proof {
        assert(b@.questions =~= framing_error_response().questions);
        assert(b@.answers =~= framing_error_response().answers);
        assert(b@.authorities =~= framing_error_response().authorities);
        assert(b@.additionals =~= framing_error_response().additionals);
        assert(b@ == framing_error_response());
    }
    b.finish()
}

//---------- The connection state machine ---------------------------------------------

/// Where a connection stands.
#[derive(Clone, Copy, Debug, PartialEq, Eq, Structural)]
pub enum ConnectionState {
    /// The listener has not yielded the stream yet.
    Accepting,
    /// Reading requests and writing responses.
    Active,
    /// No new reads; queued responses still go out.
    Draining,
    /// The socket is released.
    Closed,
}

/// What a connection's select loop observed.
pub enum ConnectionEvent {
    /// The listener yielded the stream and peer.
    Accepted,
    /// A complete, parseable frame arrived.
    FrameReceived,
    /// A short read, a bad length, or an unparseable frame.
    FramingError,
    /// The control plane spoke.
    CommandReceived(ServiceCommand),
    /// Nothing was read or written for the idle timeout.
    IdleTimeout,
    /// While draining, the last queued response went out.
    ResponsesFlushed,
}

/// What one step decides: the next state, whether to attempt a best-effort
/// FORMERR response first, and a new idle timeout to adopt.
pub struct ConnStep {
    pub state: ConnectionState,
    pub respond_formerr: bool,
    pub new_idle_timeout: Option<u64>,
}

/// The transition table of a connection.
pub open spec fn connection_step_spec(state: ConnectionState, ev: ConnectionEvent) -> ConnStep {
    let stay = ConnStep { state, respond_formerr: false, new_idle_timeout: None };
    match state {
        ConnectionState::Accepting => match ev {
            ConnectionEvent::Accepted => ConnStep {
                state: ConnectionState::Active,
                respond_formerr: false,
                new_idle_timeout: None,
            },
            _ => stay,
        },
        ConnectionState::Active => match ev {
            ConnectionEvent::FrameReceived => stay,
            ConnectionEvent::FramingError => ConnStep {
                state: ConnectionState::Draining,
                respond_formerr: true,
                new_idle_timeout: None,
            },
            ConnectionEvent::CommandReceived(cmd) => match cmd {
                ServiceCommand::Shutdown | ServiceCommand::CloseConnection => ConnStep {
                    state: ConnectionState::Draining,
                    respond_formerr: false,
                    new_idle_timeout: None,
                },
                ServiceCommand::Reconfigure { idle_timeout } => ConnStep {
                    state: ConnectionState::Active,
                    respond_formerr: false,
                    new_idle_timeout: Some(idle_timeout),
                },
                ServiceCommand::Init => stay,
            },
            ConnectionEvent::IdleTimeout => ConnStep {
                state: ConnectionState::Draining,
                respond_formerr: false,
                new_idle_timeout: None,
            },
            _ => stay,
        },
        ConnectionState::Draining => match ev {
            ConnectionEvent::ResponsesFlushed => ConnStep {
                state: ConnectionState::Closed,
                respond_formerr: false,
                new_idle_timeout: None,
            },
            _ => ConnStep {
                state: ConnectionState::Draining,
                respond_formerr: false,
                new_idle_timeout: None,
            },
        },
        ConnectionState::Closed => ConnStep {
            state: ConnectionState::Closed,
            respond_formerr: false,
            new_idle_timeout: None,
        },
    }
}

/// Takes one step of the connection state machine.
pub fn connection_step(state: ConnectionState, ev: ConnectionEvent) -> (r: ConnStep)
    ensures
        r == connection_step_spec(state, ev),
{
    match state {
        ConnectionState::Accepting => match ev {
            ConnectionEvent::Accepted => ConnStep {
                state: ConnectionState::Active,
                respond_formerr: false,
                new_idle_timeout: None,
            },
            _ => ConnStep { state, respond_formerr: false, new_idle_timeout: None },
        },
        ConnectionState::Active => match ev {
            ConnectionEvent::FramingError => ConnStep {
                state: ConnectionState::Draining,
                respond_formerr: true,
                new_idle_timeout: None,
            },
            ConnectionEvent::CommandReceived(cmd) => match cmd {
                ServiceCommand::Shutdown | ServiceCommand::CloseConnection => ConnStep {
                    state: ConnectionState::Draining,
                    respond_formerr: false,
                    new_idle_timeout: None,
                },
                ServiceCommand::Reconfigure { idle_timeout } => ConnStep {
                    state: ConnectionState::Active,
                    respond_formerr: false,
                    new_idle_timeout: Some(idle_timeout),
                },
                ServiceCommand::Init => ConnStep {
                    state,
                    respond_formerr: false,
                    new_idle_timeout: None,
                },
            },
            ConnectionEvent::IdleTimeout => ConnStep {
                state: ConnectionState::Draining,
                respond_formerr: false,
                new_idle_timeout: None,
            },
            _ => ConnStep { state, respond_formerr: false, new_idle_timeout: None },
        },
        ConnectionState::Draining => match ev {
            ConnectionEvent::ResponsesFlushed => ConnStep {
                state: ConnectionState::Closed,
                respond_formerr: false,
                new_idle_timeout: None,
            },
            _ => ConnStep {
                state: ConnectionState::Draining,
                respond_formerr: false,
                new_idle_timeout: None,
            },
        },
        ConnectionState::Closed => ConnStep {
            state: ConnectionState::Closed,
            respond_formerr: false,
            new_idle_timeout: None,
        },
    }
}

/// A shutdown seen by an active connection does not close it: it drains
/// first, and only the flush of the queued responses closes it. An
/// in-flight response thus still goes out.
pub proof fn lemma_shutdown_drains_before_close()
    ensures
        connection_step_spec(
            ConnectionState::Active,
            ConnectionEvent::CommandReceived(ServiceCommand::Shutdown),
        ).state == ConnectionState::Draining,
        connection_step_spec(
            ConnectionState::Draining,
            ConnectionEvent::ResponsesFlushed,
        ).state == ConnectionState::Closed,
        forall|ev: ConnectionEvent|
            !(ev is ResponsesFlushed) ==> #[trigger] connection_step_spec(
                ConnectionState::Draining,
                ev,
            ).state == ConnectionState::Draining,
{
}

//---------- Stream server configuration ----------------------------------------------

/// Limits a stream server puts on each connection.
#[derive(Clone, Copy, Debug, PartialEq, Eq, Structural)]
pub struct Config {
    pub idle_timeout: u64,
    pub max_queued_responses: usize,
}

impl Config {
    /// The default configuration value.
    pub open spec fn new_spec() -> Config {
        Config { idle_timeout: 30000u64, max_queued_responses: 1024usize }
    }

    /// The default limits: a thirty-second idle timeout, room for 1024
    /// queued responses.
    pub fn new() -> (r: Config)
        ensures
            r == Config::new_spec(),
    {
        Config { idle_timeout: 30000, max_queued_responses: 1024 }
    }
}

} // verus!
