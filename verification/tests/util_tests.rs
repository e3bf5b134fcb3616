//! Utilities, names, transactions and service plumbing.

use domain::builder::ResponseBuilder;
use domain::chain::{Chain, ChainIter};
use domain::context::{ContextAwareMessage, PeerAddr};
use domain::message::{Header, Message, Question, RT_NS, CLASS_IN};
use domain::name::Name;
use domain::service::{CallResult, ServiceCommand, ServiceError, Transaction};
use domain::util::{mk_builder_for_target, start_reply, to_pcap_text};

fn name(labels: &[&str]) -> Name {
    Name::from_labels(labels.iter().map(|l| l.as_bytes().to_vec()).collect())
}

#[test]
fn pcap_text_formats_hex_bytes() {
    let bytes = vec![0x00u8, 0x01, 0xab, 0xFF, 0x99];
    assert_eq!(to_pcap_text(&bytes, 4), "000000 00 01 ab ff");
    assert_eq!(to_pcap_text(&bytes, 0), "000000");
}

#[test]
fn start_reply_copies_the_question() {
    let mut header = Header::new();
    header.id = 0x5151;
    let msg = Message {
        header,
        questions: vec![Question { qname: name(&["example", "com"]), qtype: RT_NS, qclass: CLASS_IN }],
        answers: vec![],
        authorities: vec![],
        additionals: vec![],
    };
    let request = ContextAwareMessage::new(msg, false, PeerAddr { ip: vec![127, 0, 0, 1], port: 53 }, 0);
    let reply = start_reply(&request).expect("one question always fits");
    assert_eq!(reply.msg.questions.len(), 1);
    assert_eq!(reply.msg.questions[0].qname.labels, name(&["example", "com"]).labels);
    assert_eq!(reply.msg.answers.len(), 0);
    let fresh = mk_builder_for_target();
    assert_eq!(fresh.msg.questions.len(), 0);
}

#[test]
fn names_compare_case_insensitively() {
    let a = name(&["Example", "COM"]);
    let b = name(&["eXaMpLe", "com"]);
    assert!(a.eq_ignore_case(&b));
    assert!(!a.eq_ignore_case(&name(&["example", "net"])));
    assert!(name(&["example", "com"]).is_ancestor_of(&name(&["www", "Example", "Com"])));
    assert!(!name(&["www", "example", "com"]).is_ancestor_of(&name(&["example", "com"])));
    assert!(Name::root().is_ancestor_of(&a));
}

#[test]
fn name_well_formedness() {
    assert!(name(&["example", "com"]).is_wf());
    assert!(Name::root().is_wf());
    assert!(!Name::from_labels(vec![vec![]]).is_wf());
    assert!(!Name::from_labels(vec![vec![0u8; 64]]).is_wf());
    // 200 + 54 label bytes plus length bytes and the root exceed 255
    assert!(!Name::from_labels(vec![vec![1u8; 63]; 4]).is_wf());
}

#[test]
fn chained_names_concatenate() {
    let c = Chain::new(name(&["www"]), name(&["example", "com"]));
    let mut out = Vec::new();
    c.compose(&mut out);
    // "www" labels, then the absolute name with its root byte
    let expected = vec![
        3, b'w', b'w', b'w', 7, b'e', b'x', b'a', b'm', b'p', b'l', b'e', 3, b'c', b'o', b'm', 0,
    ];
    assert_eq!(out, expected);
    assert_eq!(c.compose_len(), expected.len());
    let mut it = c.iter_labels();
    assert_eq!(it.next(), Some(b"www".to_vec()));
    assert_eq!(it.next(), Some(b"example".to_vec()));
    assert_eq!(it.next(), Some(b"com".to_vec()));
    assert_eq!(it.next(), None);
    let (l, r) = c.unwrap();
    let c2 = Chain::new(l, r).chain(name(&["org"]));
    assert_eq!(c2.right.labels, name(&["org"]).labels);
    let mut left_only = ChainIter::Left(vec![b"a".to_vec()], 0);
    assert_eq!(left_only.next(), Some(b"a".to_vec()));
    assert_eq!(left_only.next(), None);
}

#[test]
fn transactions_yield_in_order() {
    let mut single: Transaction<u32> = Transaction::single(7);
    assert!(!single.is_stream());
    assert_eq!(single.next(), Some(7));
    assert_eq!(single.next(), None);
    let mut stream: Transaction<u32> = Transaction::stream(vec![1, 2, 3]);
    assert!(stream.is_stream());
    assert_eq!(stream.next(), Some(1));
    assert_eq!(stream.next(), Some(2));
    assert_eq!(stream.next(), Some(3));
    assert_eq!(stream.next(), None);
    let mut imm: Transaction<u32> = Transaction::immediate(9);
    assert_eq!(imm.next(), Some(9));
}

#[test]
fn call_results_carry_commands() {
    let b = ResponseBuilder::new();
    let cr = CallResult::new(b);
    assert!(cr.command.is_none());
    assert!(cr.response.is_some());
    let cr = cr.with_command(ServiceCommand::CloseConnection);
    assert_eq!(cr.command, Some(ServiceCommand::CloseConnection));
    assert!(cr.response.is_some());
}

#[test]
fn service_errors_name_themselves() {
    let e: ServiceError<u8> = ServiceError::ServiceSpecificError(3);
    assert_eq!(e.kind_str(), "ServiceSpecificError");
    let e: ServiceError<u8> = ServiceError::ShuttingDown;
    assert_eq!(e.kind_str(), "ShuttingDown");
    let e: ServiceError<u8> = ServiceError::Other("boom".to_string());
    assert_eq!(e.kind_str(), "Other");
}

#[test]
fn hint_is_settable_only_over_udp() {
    let msg = Message::new();
    let mut udp = ContextAwareMessage::new(msg, false, PeerAddr { ip: vec![1, 2, 3, 4], port: 1 }, 0);
    assert!(udp.transport().is_udp());
    udp.set_max_response_size_hint(700);
    assert_eq!(udp.max_response_size_hint(), Some(700));
    let msg = Message::new();
    let mut tcp = ContextAwareMessage::new(msg, true, PeerAddr { ip: vec![1, 2, 3, 4], port: 1 }, 0);
    assert!(!tcp.transport().is_udp());
    tcp.set_max_response_size_hint(700);
    assert_eq!(tcp.max_response_size_hint(), None);
    assert_eq!(tcp.peer().port, 1);
}
