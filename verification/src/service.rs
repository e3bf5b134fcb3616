//! The service contract: what user code implements to answer requests.
//!
//! A service turns one request into a [`Transaction`]: either a single
//! response or an ordered stream of responses, each one a [`CallResult`]
//! carrying an optional response and an optional command to the server.

use vstd::prelude::*;
use crate::builder::ResponseBuilder;
use crate::context::ContextAwareMessage;
use crate::message::{Message, MessageV};
use crate::wire::{comb_u16, parse_message};

verus! {

/// Error of turning bytes into a message: the bytes do not hold one.
#[derive(Clone, Copy, Debug, PartialEq, Eq, Structural)]
pub struct ShortMessage;

//---------- MsgProvider ---------------------------------------------------------

/// Turns raw bytes into a concrete message type, telling first how many
/// bytes to read: a stream transport reads a fixed header, asks how long
/// the message is, then reads that many bytes and parses them.
pub trait MsgProvider {
    type Msg;

    /// How many bytes must be read before the message length is known.
    spec fn spec_min_hdr_bytes() -> usize;

    /// How many bytes must be read before the message length is known.
    fn min_hdr_bytes() -> (r: usize)
        ensures
            r == Self::spec_min_hdr_bytes(),
    ;

    /// The number of message bytes that follow the header bytes.
    fn determine_msg_len(hdr_buf: &Vec<u8>) -> (r: usize)
        requires
            hdr_buf@.len() >= Self::spec_min_hdr_bytes(),
    ;

    /// Turns the message bytes into a message.
    fn from_octets(octets: Vec<u8>) -> Result<Self::Msg, ShortMessage>;
}

impl MsgProvider for Message {
    type Msg = Message;

    /// A stream frame starts with the two length bytes of RFC 1035.
    open spec fn spec_min_hdr_bytes() -> usize {
        2
    }

    fn min_hdr_bytes() -> (r: usize) {
        2
    }

    /// The length is the big-endian integer in the two header bytes.
    fn determine_msg_len(hdr_buf: &Vec<u8>) -> (r: usize)
        ensures
            r == comb_u16(hdr_buf@[0], hdr_buf@[1]),
    {
        (((hdr_buf[0] as u16) << 8) | (hdr_buf[1] as u16)) as usize
    }

    fn from_octets(octets: Vec<u8>) -> (r: Result<Message, ShortMessage>)
        ensures
            match r {
                Ok(m) => parse_message(octets@) == Some(m@),
                Err(ShortMessage) => parse_message(octets@) is None,
            },
    {
        match Message::parse(&octets) {
            Some(m) => Ok(m),
            None => Err(ShortMessage),
        }
    }
}

//---------- ServiceError --------------------------------------------------------

/// Why a service could not answer.
#[derive(Debug)]
pub enum ServiceError<T> {
    /// An error of the service's own, opaque to the framework.
    ServiceSpecificError(T),
    /// The service is shutting down and takes no new work.
    ShuttingDown,
    /// Any other failure, described in words.
    Other(String),
}

impl<T> ServiceError<T> {
    /// The variant's name, as the error displays itself.
    pub fn kind_str(&self) -> (r: &'static str)
        ensures
            match self {
                ServiceError::ServiceSpecificError(_) => r@ == "ServiceSpecificError"@,
                ServiceError::ShuttingDown => r@ == "ShuttingDown"@,
                ServiceError::Other(_) => r@ == "Other"@,
            },
    {
        match self {
            ServiceError::ServiceSpecificError(_) => "ServiceSpecificError",
            ServiceError::ShuttingDown => "ShuttingDown",
            ServiceError::Other(_) => "Other",
        }
    }
}

//---------- ServiceCommand ------------------------------------------------------

/// A command a service or server control plane issues to running servers.
#[derive(Clone, Copy, Debug, PartialEq, Eq, Structural)]
pub enum ServiceCommand {
    /// Close the connection the command reaches.
    CloseConnection,
    /// The initial value of a command channel; never sent.
    Init,
    /// Adopt a new idle timeout, in milliseconds.
    Reconfigure { idle_timeout: u64 },
    /// Stop serving: finish in-flight work, take no more.
    Shutdown,
}

//---------- CallResult ----------------------------------------------------------

pub ghost struct CallResultV {
    pub response: Option<MessageV>,
    pub command: Option<ServiceCommand>,
}

/// One item of a transaction: an optional response and an optional command
/// to the server handling the request.
pub struct CallResult {
    pub response: Option<ResponseBuilder>,
    pub command: Option<ServiceCommand>,
}

impl View for CallResult {
    type V = CallResultV;

    open spec fn view(&self) -> CallResultV {
        CallResultV {
            response: match self.response {
                Some(b) => Some(b@),
                None => None,
            },
            command: self.command,
        }
    }
}

impl CallResult {
    /// A plain response, with no command.
    pub fn new(response: ResponseBuilder) -> (r: CallResult)
        ensures
            r@.response == Some(response@),
            r@.command is None,
            r.response == Some(response),
    {
        CallResult { response: Some(response), command: None }
    }

    /// The same response, now also carrying a command.
    pub fn with_command(self, command: ServiceCommand) -> (r: CallResult)
        ensures
            r@.response == self@.response,
            r@.command == Some(command),
            r.response == self.response,
    {
        CallResult { response: self.response, command: Some(command) }
    }
}

//---------- Transaction ---------------------------------------------------------

/// The responses generated for one request: exactly one, or an ordered
/// finite stream, as a zone transfer produces.
pub enum Transaction<Item> {
    /// One response; taken once, then the transaction is spent.
    Single(Vec<Item>),
    /// An ordered run of responses, yielded front to back.
    Stream(Vec<Item>),
}

impl<Item> Transaction<Item> {
    /// The items not yet yielded, in the order they will come.
    pub open spec fn remaining(&self) -> Seq<Item> {
        match self {
            Transaction::Single(items) => items@,
            Transaction::Stream(items) => items@,
        }
    }

    /// A transaction of one response.
    pub fn single(item: Item) -> (r: Self)
        ensures
            r.remaining() == seq![item],
            r is Single,
    {
        let mut items: Vec<Item> = Vec::new();
        items.push(item);
        proof {
            assert(items@ =~= seq![item]);
        }
        Transaction::Single(items)
    }

    /// A transaction of one response, available at once: what a
    /// pre-processor that short-circuits a request produces.
    pub fn immediate(item: Item) -> (r: Self)
        ensures
            r.remaining() == seq![item],
            r is Single,
    {
        Transaction::single(item)
    }

    /// A transaction of an ordered run of responses.
    pub fn stream(items: Vec<Item>) -> (r: Self)
        ensures
            r.remaining() == items@,
            r is Stream,
    {
        Transaction::Stream(items)
    }

    /// Whether this transaction is a stream.
    pub fn is_stream(&self) -> (r: bool)
        ensures
            r == (self is Stream),
    {
        match self {
            Transaction::Single(_) => false,
            Transaction::Stream(_) => true,
        }
    }

    /// The next response, in order; `None` when the transaction is spent.
    pub fn next(&mut self) -> (r: Option<Item>)
        ensures
            old(self).remaining().len() == 0 ==> r is None && final(self).remaining()
                == old(self).remaining(),
            old(self).remaining().len() > 0 ==> r == Some(old(self).remaining()[0])
                && final(self).remaining() == old(self).remaining().skip(1),
    {
        match self {
            Transaction::Single(items) => {
                if items.len() == 0 {
                    None
                } else {
                    let it = items.remove(0);
                    proof {
                        assert(items@ =~= old(self).remaining().skip(1));
                    }
                    Some(it)
                }
            },
            Transaction::Stream(items) => {
                if items.len() == 0 {
                    None
                } else {
                    let it = items.remove(0);
                    proof {
                        assert(items@ =~= old(self).remaining().skip(1));
                    }
                    Some(it)
                }
            },
        }
    }
}

/// What one step of a transaction yields.
pub type ServiceResultItem<E> = Result<CallResult, ServiceError<E>>;

/// What a service call yields.
pub type ServiceResult<E> = Result<Transaction<ServiceResultItem<E>>, ServiceError<E>>;

//---------- Service -------------------------------------------------------------

/// Marker for the octet types a service builds its responses into. The
/// framework's builders work over plain byte vectors.
pub trait MkServiceTarget {

}

impl MkServiceTarget for Vec<u8> {

}


/// A service answers DNS requests: one call per request, yielding a
/// transaction of responses or an error.
pub trait Service {
    type Error;

    fn call(&self, request: &ContextAwareMessage) -> ServiceResult<Self::Error>;
}

} // verus!
