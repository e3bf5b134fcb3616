//! Requests with their transport context.
//!
//! A context-aware message wraps a parsed DNS message with the transport it
//! arrived over, the peer that sent it, and — for datagram transports — the
//! response size hint a preprocessor may set from the request's OPT record.

use vstd::prelude::*;
use crate::message::{Message, MessageV};

verus! {

/// A peer's address: its IP bytes (four or sixteen) and port.
pub struct PeerAddr {
    pub ip: Vec<u8>,
    pub port: u16,
}

pub ghost struct PeerAddrV {
    pub ip: Seq<u8>,
    pub port: u16,
}

impl View for PeerAddr {
    type V = PeerAddrV;

    open spec fn view(&self) -> PeerAddrV {
        PeerAddrV { ip: self.ip@, port: self.port }
    }
}

impl Clone for PeerAddr {
    fn clone(&self) -> (r: Self)
        ensures
            r@ == self@,
    {
        PeerAddr { ip: self.ip.clone(), port: self.port }
    }
}

/// What a datagram transport knows about a request: the largest response
/// the peer said it can take, once a preprocessor has read it.
#[derive(Clone, Copy, PartialEq, Eq, Structural)]
pub struct UdpSpecificTransportContext {
    pub max_response_size_hint: Option<u16>,
}

/// The transport a request arrived over.
#[derive(Clone, Copy, PartialEq, Eq, Structural)]
pub enum TransportSpecificContext {
    Udp(UdpSpecificTransportContext),
    NonUdp,
}

impl TransportSpecificContext {
    /// Whether the request arrived over a datagram transport.
    pub fn is_udp(&self) -> (r: bool)
        ensures
            r == (self is Udp),
    {
        match self {
            TransportSpecificContext::Udp(_) => true,
            TransportSpecificContext::NonUdp => false,
        }
    }
}

pub ghost struct ContextAwareMessageV {
    pub msg: MessageV,
    pub udp: bool,
    pub max_response_size_hint: Option<u16>,
    pub peer: PeerAddrV,
    pub received_at: u64,
}

/// A parsed request together with its transport context. The message is
/// read-only; only the size hint may be set, by a preprocessor.
pub struct ContextAwareMessage {
    pub msg: Message,
    pub transport: TransportSpecificContext,
    pub peer: PeerAddr,
    pub received_at: u64,
}

impl View for ContextAwareMessage {
    type V = ContextAwareMessageV;

    open spec fn view(&self) -> ContextAwareMessageV {
        ContextAwareMessageV {
            msg: self.msg@,
            udp: self.transport is Udp,
            max_response_size_hint: match self.transport {
                TransportSpecificContext::Udp(ctx) => ctx.max_response_size_hint,
                TransportSpecificContext::NonUdp => None,
            },
            peer: self.peer@,
            received_at: self.received_at,
        }
    }
}

impl ContextAwareMessage {
    /// Wraps a parsed message with its transport context and the moment
    /// it arrived. A datagram request starts with no size hint.
    pub fn new(
        msg: Message,
        received_over_tcp: bool,
        peer: PeerAddr,
        received_at: u64,
    ) -> (r: ContextAwareMessage)
        ensures
            r@.msg == msg@,
            r@.udp == !received_over_tcp,
            r@.max_response_size_hint is None,
            r@.peer == peer@,
            r@.received_at == received_at,
    {
        let transport = if received_over_tcp {
            TransportSpecificContext::NonUdp
        } else {
            TransportSpecificContext::Udp(
                UdpSpecificTransportContext { max_response_size_hint: None },
            )
        };
        ContextAwareMessage { msg, transport, peer, received_at }
    }

    /// When the request arrived, in milliseconds of the host's clock.
    pub fn received_at(&self) -> (r: u64)
        ensures
            r == self@.received_at,
    {
        self.received_at
    }

    /// The wrapped message.
    pub fn message(&self) -> (r: &Message)
        ensures
            r@ == self@.msg,
    {
        &self.msg
    }

    /// The transport context.
    pub fn transport(&self) -> (r: &TransportSpecificContext)
        ensures
            (*r is Udp) == self@.udp,
            match *r {
                TransportSpecificContext::Udp(ctx) => self@.max_response_size_hint
                    == ctx.max_response_size_hint,
                TransportSpecificContext::NonUdp => self@.max_response_size_hint is None,
            },
    {
        &self.transport
    }

    /// The peer the request came from.
    pub fn peer(&self) -> (r: &PeerAddr)
        ensures
            r@ == self@.peer,
    {
        &self.peer
    }

    /// The response size hint, when one has been set.
    pub fn max_response_size_hint(&self) -> (r: Option<u16>)
        ensures
            r == self@.max_response_size_hint,
    {
        match &self.transport {
            TransportSpecificContext::Udp(ctx) => ctx.max_response_size_hint,
            TransportSpecificContext::NonUdp => None,
        }
    }

    /// Sets the response size hint. Meaningful only over a datagram
    /// transport; on a stream transport nothing changes.
    pub fn set_max_response_size_hint(&mut self, hint: u16)
        ensures
            final(self)@.msg == old(self)@.msg,
            final(self)@.udp == old(self)@.udp,
            final(self)@.peer == old(self)@.peer,
            final(self)@.received_at == old(self)@.received_at,
            old(self)@.udp ==> final(self)@.max_response_size_hint == Some(hint),
            !old(self)@.udp ==> final(self)@.max_response_size_hint == old(
                self,
            )@.max_response_size_hint,
    {
        match &self.transport {
            TransportSpecificContext::Udp(_) => {
                self.transport = TransportSpecificContext::Udp(
                    UdpSpecificTransportContext { max_response_size_hint: Some(hint) },
                );
            },
            TransportSpecificContext::NonUdp => {},
        }
    }
}

} // verus!
