//! Round trips and parsing of the wire format.

use domain::builder::{ResponseBuilder, ShortBuf};
use domain::message::{Header, Message, Question, Rdata, Record, RT_A, RT_NS, RT_SOA, CLASS_IN};
use domain::name::Name;
use domain::service::{MsgProvider, ShortMessage};

fn name(labels: &[&str]) -> Name {
    Name::from_labels(labels.iter().map(|l| l.as_bytes().to_vec()).collect())
}

fn sample_message() -> Message {
    let mut header = Header::new();
    header.id = 0x1234;
    header.rd = true;
    Message {
        header,
        questions: vec![Question { qname: name(&["example", "com"]), qtype: RT_NS, qclass: CLASS_IN }],
        answers: vec![Record {
            owner: name(&["example", "com"]),
            rtype: RT_A,
            class: CLASS_IN,
            ttl: 3600,
            rdata: Rdata::Other { data: vec![192, 0, 2, 1] },
        }],
        authorities: vec![],
        additionals: vec![],
    }
}

#[test]
fn parse_of_built_message_returns_it() {
    let m = sample_message();
    let bytes = m.to_wire();
    let parsed = Message::parse(&bytes).expect("built message must parse");
    assert_eq!(parsed.header, m.header);
    assert_eq!(parsed.questions.len(), 1);
    assert_eq!(parsed.questions[0].qtype, RT_NS);
    assert_eq!(parsed.questions[0].qclass, CLASS_IN);
    assert_eq!(parsed.questions[0].qname.labels, m.questions[0].qname.labels);
    assert_eq!(parsed.answers.len(), 1);
    assert_eq!(parsed.answers[0].rtype, RT_A);
    assert_eq!(parsed.answers[0].ttl, 3600);
    match &parsed.answers[0].rdata {
        Rdata::Other { data } => assert_eq!(data, &vec![192, 0, 2, 1]),
        _ => panic!("A record data must stay raw"),
    }
    assert_eq!(parsed.authorities.len(), 0);
    assert_eq!(parsed.additionals.len(), 0);
}

#[test]
fn soa_record_round_trips_typed() {
    let mut m = sample_message();
    m.answers = vec![Record {
        owner: name(&["example", "com"]),
        rtype: RT_SOA,
        class: CLASS_IN,
        ttl: 3600,
        rdata: Rdata::Soa {
            mname: name(&["ns1", "example", "com"]),
            rname: name(&["hostmaster", "example", "com"]),
            serial: 100,
            refresh: 10800,
            retry: 3600,
            expire: 604800,
            minimum: 86400,
        },
    }];
    let bytes = m.to_wire();
    let parsed = Message::parse(&bytes).expect("built message must parse");
    match &parsed.answers[0].rdata {
        Rdata::Soa { serial, minimum, mname, .. } => {
            assert_eq!(*serial, 100);
            assert_eq!(*minimum, 86400);
            assert_eq!(mname.labels, name(&["ns1", "example", "com"]).labels);
        }
        _ => panic!("SOA record data must come back typed"),
    }
}

#[test]
fn short_buffer_does_not_parse() {
    assert!(Message::parse(&vec![0u8; 5]).is_none());
    // a full header promising a question it does not carry
    let mut bytes = vec![0u8; 12];
    bytes[5] = 1; // QDCOUNT = 1
    assert!(Message::parse(&bytes).is_none());
}

#[test]
fn trailing_bytes_are_refused() {
    let m = sample_message();
    let mut bytes = m.to_wire();
    bytes.push(0);
    assert!(Message::parse(&bytes).is_none());
}

#[test]
fn compressed_names_are_refused() {
    let m = sample_message();
    let mut bytes = m.to_wire();
    // overwrite the first label length with a compression pointer tag
    bytes[12] = 0xC0;
    assert!(Message::parse(&bytes).is_none());
}

#[test]
fn stream_header_gives_message_length() {
    assert_eq!(<Message as MsgProvider>::min_hdr_bytes(), 2);
    let hdr = vec![0x01u8, 0x10u8];
    assert_eq!(<Message as MsgProvider>::determine_msg_len(&hdr), 0x0110);
}

#[test]
fn from_octets_parses_or_refuses() {
    let m = sample_message();
    let ok = <Message as MsgProvider>::from_octets(m.to_wire());
    assert!(ok.is_ok());
    let err = <Message as MsgProvider>::from_octets(vec![1, 2, 3]);
    assert_eq!(err.err(), Some(ShortMessage));
}

#[test]
fn finished_message_carries_length_prefix() {
    let m = sample_message();
    let wire = m.to_wire();
    let builder = ResponseBuilder { msg: sample_message() };
    let target = builder.finish();
    let stream = target.as_stream_slice().clone();
    assert_eq!(stream.len(), wire.len() + 2);
    assert_eq!(((stream[0] as usize) << 8) | stream[1] as usize, wire.len());
    assert_eq!(&stream[2..], &wire[..]);
    assert_eq!(target.as_dgram_slice(), wire);
}

#[test]
fn pushes_past_the_frame_limit_are_refused() {
    let mut b = ResponseBuilder::new();
    let big = |i: u8| Record {
        owner: name(&["example", "com"]),
        rtype: 16,
        class: CLASS_IN,
        ttl: 60,
        rdata: Rdata::Other { data: vec![i; 16000] },
    };
    for i in 0..4 {
        b.push_answer(big(i)).expect("four large records fit a frame");
    }
    assert_eq!(b.push_answer(big(9)), Err(ShortBuf));
    assert_eq!(b.msg.answers.len(), 4);
}

#[test]
fn shared_buffers_carry_messages_whole() {
    let m = sample_message();
    let shared = m.to_bytes();
    let back = Message::parse_bytes(&shared).expect("the carried message parses");
    assert_eq!(back.header, m.header);
    assert_eq!(back.to_wire(), m.to_wire());
    assert!(Message::parse_bytes(&bytes::Bytes::from_static(&[1, 2, 3])).is_none());
}
