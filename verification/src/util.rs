//! Small utilities for building and working with servers.

use vstd::prelude::*;
use vstd::string::{StrSliceExecFns, StringExecFns};
use crate::builder::{ResponseBuilder, ShortBuf};
use crate::context::ContextAwareMessage;
use crate::message::{MessageV, Question};
use crate::wire::{wf_question, wire_message, wire_question, wire_questions, lemma_wire_questions_add, lemma_wire_questions_single};

verus! {

//---------- Hex dumps for tracing ------------------------------------------------

/// The sixteen hex digits, lowercase.
pub open spec fn hex_digit(n: int) -> char {
    seq!['0', '1', '2', '3', '4', '5', '6', '7', '8', '9', 'a', 'b', 'c', 'd', 'e', 'f'][n]
}

/// The two hex digits of one byte.
pub open spec fn hex_pair(b: u8) -> Seq<char> {
    seq![hex_digit((b >> 4) as int), hex_digit((b & 0xf) as int)]
}

/// The hex form of a byte run: two lowercase digits per byte.
pub open spec fn hex_of(bytes: Seq<u8>) -> Seq<char> {
    Seq::new(
        2 * bytes.len(),
        |i: int|
            if i % 2 == 0 {
                hex_digit((bytes[i / 2] >> 4) as int)
            } else {
                hex_digit((bytes[i / 2] & 0xf) as int)
            },
    )
}

/// Relies on hex::encode: each byte becomes its two lowercase hex digits,
/// in order.
#[verifier::external_body]
fn hex_encode(bytes: &Vec<u8>) -> (r: String)
    ensures
        r@ == hex_of(bytes@),
{
    hex::encode(bytes)
}

/// The body of a hex dump line: a space and two digits per byte.
pub open spec fn pcap_body(bytes: Seq<u8>) -> Seq<char>
    decreases bytes.len(),
{
    if bytes.len() == 0 {
        Seq::<char>::empty()
    } else {
        pcap_body(bytes.drop_last()) + seq![' '] + hex_pair(bytes.last())
    }
}

/// A hex dump of the first `num_bytes` bytes, in the text form the
/// text2pcap tool takes: an offset column of zeroes, then each byte as two
/// hex digits behind a space.
pub fn to_pcap_text(bytes: &Vec<u8>, num_bytes: usize) -> (r: String)
    requires
        num_bytes <= bytes@.len(),
        num_bytes <= 65535,
    ensures
        r@ == "000000"@ + pcap_body(bytes@.take(num_bytes as int)),
{
    let mut prefix: Vec<u8> = Vec::new();
    let mut i: usize = 0;
    while i < num_bytes
        invariant
            i <= num_bytes,
            num_bytes <= bytes@.len(),
            prefix@ == bytes@.take(num_bytes as int).take(i as int),
        decreases num_bytes - i,
    {
        proof {
            assert(bytes@.take(num_bytes as int)[i as int] == bytes@[i as int]);
        }
        prefix.push(bytes[i]);
        i = i + 1;
        proof {
            assert(prefix@ =~= bytes@.take(num_bytes as int).take(i as int));
        }
    }
    proof {
        assert(prefix@ =~= bytes@.take(num_bytes as int));
    }
    let hexed = hex_encode(&prefix);
    let mut formatted = String::from_str("000000");
    let mut j: usize = 0;
    proof {
        assert(formatted@ + pcap_body(prefix@.take(0)) =~= formatted@);
        assert(pcap_body(prefix@.take(0)) =~= Seq::<char>::empty());
    }
    let ghost base = formatted@;
    while j < num_bytes
        invariant
            j <= num_bytes,
            num_bytes <= 65535,
            num_bytes == prefix@.len(),
            hexed@ == hex_of(prefix@),
            formatted@ == base + pcap_body(prefix@.take(j as int)),
        decreases num_bytes - j,
    {
        proof {
            reveal_strlit(" ");
        }
        formatted.append(" ");
        let pair = hexed.as_str().substring_char(2 * j, 2 * j + 2);
        formatted.append(pair);
        proof {
            assert(pair@ =~= hex_pair(prefix@[j as int])) by {
                assert(pair@ == hex_of(prefix@).subrange(2 * j, 2 * j + 2));
                assert(hex_of(prefix@)[2 * j] == hex_digit((prefix@[j as int] >> 4) as int));
                assert(hex_of(prefix@)[2 * j + 1] == hex_digit((prefix@[j as int] & 0xf) as int));
            }
            assert(prefix@.take(j + 1).drop_last() =~= prefix@.take(j as int));
            assert(prefix@.take(j + 1).last() == prefix@[j as int]);
            assert(formatted@ =~= base + pcap_body(prefix@.take(j + 1)));
        }
        j = j + 1;
    }
    proof {
        assert(prefix@.take(j as int) =~= prefix@);
    }
    formatted
}

//---------- Builders --------------------------------------------------------------

/// A fresh builder for a response message.
pub fn mk_builder_for_target() -> (r: ResponseBuilder)
    ensures
        r@.header == crate::message::empty_header(),
        r@.questions.len() == 0,
        r@.answers.len() == 0,
        r@.authorities.len() == 0,
        r@.additionals.len() == 0,
        r.wf(),
{
    ResponseBuilder::new()
}

/// A builder holding the request's question, for a reply to grow in.
pub fn start_reply(request: &ContextAwareMessage) -> (r: Result<ResponseBuilder, ShortBuf>)
    requires
        forall|i: int|
            0 <= i < request@.msg.questions.len() ==> wf_question(
                #[trigger] request@.msg.questions[i],
            ),
        request@.msg.questions.len() <= 65535,
    ensures
        match r {
            Ok(b) => {
                &&& b.wf()
                &&& b@.header == crate::message::empty_header()
                &&& b@.questions == request@.msg.questions
                &&& b@.answers.len() == 0
                &&& b@.authorities.len() == 0
                &&& b@.additionals.len() == 0
            },
            Err(ShortBuf) => 12 + wire_questions(request@.msg.questions).len() > 65535,
        },
{
    let mut builder = ResponseBuilder::new();
    proof {
        crate::builder::lemma_empty_message_wire(builder@);
        assert(builder@.questions =~= request@.msg.questions.take(0));
        assert(wire_questions(request@.msg.questions.take(0)).len() == 0);
    }
    let qs = &request.message().questions;
    let ghost qv = request@.msg.questions;
    let mut i: usize = 0;
    while i < qs.len()
        invariant
            i <= qs.len(),
            qv == crate::message::questions_view(qs@),
            qv == request@.msg.questions,
            qv.len() <= 65535,
            forall|x: int| 0 <= x < qv.len() ==> wf_question(#[trigger] qv[x]),
            builder.wf(),
            builder@.header == crate::message::empty_header(),
            builder@.questions == qv.take(i as int),
            builder@.answers.len() == 0,
            builder@.authorities.len() == 0,
            builder@.additionals.len() == 0,
            wire_message(builder@).len() == 12 + wire_questions(qv.take(i as int)).len(),
        decreases qs.len() - i,
    {
        proof {
            assert(qv.take(i + 1) =~= qv.take(i as int) + seq![qv[i as int]]);
            lemma_wire_questions_add(qv.take(i as int), seq![qv[i as int]]);
            lemma_wire_questions_single(qv[i as int]);
            assert(qv =~= qv.take(i as int) + (seq![qv[i as int]] + qv.skip(i + 1)));
            lemma_wire_questions_add(qv.take(i as int), seq![qv[i as int]] + qv.skip(i + 1));
            lemma_wire_questions_add(seq![qv[i as int]], qv.skip(i + 1));
        }
        match builder.push_question(qs[i].clone()) {
            Ok(()) => {},
            Err(ShortBuf) => {
                proof {
                    assert(12 + wire_questions(qv).len() > 65535);
                }
                return Err(ShortBuf);
            },
        }
        i = i + 1;
    }
    proof {
        assert(qv.take(i as int) =~= qv);
    }
    Ok(builder)
}

} // verus!
