//! Messages in shared byte containers.
//!
//! Clients of the framework pass messages around in cheaply cloneable
//! shared buffers; the parser and builder work on plain vectors. The
//! bridge between the two stands here.

use vstd::prelude::*;
use crate::message::Message;
use crate::wire::{parse_message, wire_message, wf_message};

verus! {

#[verifier::external_type_specification]
#[verifier::external_body]
pub struct ExBytes(bytes::Bytes);

/// What a shared byte container holds.
pub uninterp spec fn bytes_content(b: bytes::Bytes) -> Seq<u8>;

/// Relies on `bytes::Bytes::from(Vec<u8>)`: the container holds exactly
/// the vector's bytes.
#[verifier::external_body]
pub fn bytes_from_vec(v: Vec<u8>) -> (r: bytes::Bytes)
    ensures
        bytes_content(r) == v@,
{
    bytes::Bytes::from(v)
}

/// Relies on `<bytes::Bytes as AsRef<[u8]>>::as_ref` and
/// `slice::to_vec`: the bytes come back unchanged.
#[verifier::external_body]
pub fn bytes_to_vec(b: &bytes::Bytes) -> (r: Vec<u8>)
    ensures
        r@ == bytes_content(*b),
{
    b.as_ref().to_vec()
}

impl Message {
    /// Reads a message out of a shared byte container.
    pub fn parse_bytes(b: &bytes::Bytes) -> (r: Option<Message>)
        ensures
            match r {
                Some(m) => parse_message(bytes_content(*b)) == Some(m@),
                None => parse_message(bytes_content(*b)) is None,
            },
    {
        let v = bytes_to_vec(b);
        Message::parse(&v)
    }

    /// The wire bytes of this message, in a shared container.
    pub fn to_bytes(&self) -> (r: bytes::Bytes)
        requires
            wf_message(self@),
        ensures
            bytes_content(r) == wire_message(self@),
    {
        bytes_from_vec(self.to_wire())
    }
}

} // verus!
