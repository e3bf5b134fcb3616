//! The mandatory processor and the chain walk.

use domain::builder::ResponseBuilder;
use domain::context::{ContextAwareMessage, PeerAddr};
use domain::mandatory::{MandatoryMiddlewareProcessor, PreprocessOutcome};
use domain::message::{
    Header, Message, Question, Rdata, Record, RT_A, RT_NS, RT_OPT, CLASS_IN, RCODE_FORMERR,
};
use domain::middleware::{MiddlewareChain, Processor, ChainPreprocessOutcome};
use domain::name::Name;

fn name(labels: &[&str]) -> Name {
    Name::from_labels(labels.iter().map(|l| l.as_bytes().to_vec()).collect())
}

fn peer() -> PeerAddr {
    PeerAddr { ip: vec![127, 0, 0, 1], port: 5353 }
}

fn opt_record(class: u16) -> Record {
    Record {
        owner: Name::root(),
        rtype: RT_OPT,
        class,
        ttl: 0,
        rdata: Rdata::Other { data: vec![] },
    }
}

fn query(id: u16, rd: bool, additionals: Vec<Record>) -> Message {
    let mut header = Header::new();
    header.id = id;
    header.rd = rd;
    Message {
        header,
        questions: vec![Question { qname: name(&["example", "com"]), qtype: RT_NS, qclass: CLASS_IN }],
        answers: vec![],
        authorities: vec![],
        additionals,
    }
}

#[test]
fn two_opts_break_with_formerr() {
    let p = MandatoryMiddlewareProcessor::new();
    let mut request =
        ContextAwareMessage::new(query(7, false, vec![opt_record(512), opt_record(512)]), false, peer(), 0);
    match p.preprocess(&mut request) {
        PreprocessOutcome::Break(b) => {
            assert_eq!(b.header().rcode, RCODE_FORMERR);
            assert_eq!(b.msg.questions.len(), 0);
        }
        PreprocessOutcome::Continue => panic!("two OPTs must be refused"),
    }
}

#[test]
fn payload_size_becomes_hint() {
    let p = MandatoryMiddlewareProcessor::new();
    let mut request = ContextAwareMessage::new(query(7, false, vec![opt_record(1232)]), false, peer(), 0);
    assert!(matches!(p.preprocess(&mut request), PreprocessOutcome::Continue));
    assert_eq!(request.max_response_size_hint(), Some(1232));
}

#[test]
fn small_payload_size_is_ignored() {
    let p = MandatoryMiddlewareProcessor::new();
    let mut request = ContextAwareMessage::new(query(7, false, vec![opt_record(400)]), false, peer(), 0);
    assert!(matches!(p.preprocess(&mut request), PreprocessOutcome::Continue));
    assert_eq!(request.max_response_size_hint(), None);
}

#[test]
fn tcp_request_gets_no_hint() {
    let p = MandatoryMiddlewareProcessor::new();
    let mut request = ContextAwareMessage::new(query(7, false, vec![opt_record(1232)]), true, peer(), 0);
    assert!(matches!(p.preprocess(&mut request), PreprocessOutcome::Continue));
    assert_eq!(request.max_response_size_hint(), None);
}

#[test]
fn postprocess_fixes_header() {
    let p = MandatoryMiddlewareProcessor::new();
    let request = ContextAwareMessage::new(query(0x4242, true, vec![]), false, peer(), 0);
    let mut response = ResponseBuilder::new();
    p.postprocess(&request, &mut response);
    let h = response.header();
    assert_eq!(h.id, 0x4242);
    assert!(h.qr);
    assert!(h.rd);
}

#[test]
fn oversized_udp_response_is_truncated() {
    let p = MandatoryMiddlewareProcessor::new();
    let mut request = ContextAwareMessage::new(query(1, false, vec![opt_record(512)]), false, peer(), 0);
    assert!(matches!(p.preprocess(&mut request), PreprocessOutcome::Continue));
    assert_eq!(request.max_response_size_hint(), Some(512));
    // a response bigger than 512 bytes
    let mut response = ResponseBuilder::new();
    response
        .push_question(Question { qname: name(&["example", "com"]), qtype: RT_NS, qclass: CLASS_IN })
        .unwrap();
    response
        .push_answer(Record {
            owner: name(&["example", "com"]),
            rtype: 16,
            class: CLASS_IN,
            ttl: 60,
            rdata: Rdata::Other { data: vec![7u8; 700] },
        })
        .unwrap();
    response.push_additional(opt_record(1232)).unwrap();
    p.postprocess(&request, &mut response);
    let m = &response.msg;
    assert!(m.header.tc);
    assert_eq!(m.answers.len(), 0);
    assert_eq!(m.authorities.len(), 0);
    assert_eq!(m.questions.len(), 1);
    // the OPT is the only additional record kept
    assert_eq!(m.additionals.len(), 1);
    assert_eq!(m.additionals[0].rtype, RT_OPT);
    assert!(m.to_wire().len() <= 512);
}

#[test]
fn fitting_udp_response_is_left_alone() {
    let p = MandatoryMiddlewareProcessor::new();
    let mut request = ContextAwareMessage::new(query(1, false, vec![opt_record(512)]), false, peer(), 0);
    assert!(matches!(p.preprocess(&mut request), PreprocessOutcome::Continue));
    let mut response = ResponseBuilder::new();
    response
        .push_answer(Record {
            owner: name(&["example", "com"]),
            rtype: RT_A,
            class: CLASS_IN,
            ttl: 60,
            rdata: Rdata::Other { data: vec![192, 0, 2, 1] },
        })
        .unwrap();
    p.postprocess(&request, &mut response);
    assert!(!response.msg.header.tc);
    assert_eq!(response.msg.answers.len(), 1);
}

#[test]
fn chain_break_carries_index_and_response() {
    let chain = MiddlewareChain::new(vec![Processor::Mandatory(MandatoryMiddlewareProcessor::new())]);
    let mut request =
        ContextAwareMessage::new(query(0x9999, true, vec![opt_record(512), opt_record(512)]), false, peer(), 0);
    match chain.preprocess::<()>(&mut request) {
        ChainPreprocessOutcome::Break(mut t, idx) => {
            assert_eq!(idx, 0);
            let item = t.next().expect("one response").expect("no service error");
            let mut b = item.response.expect("a response is present");
            assert!(t.next().is_none());
            // postprocessing from the break index applies the header fixups
            chain.postprocess(&request, &mut b, Some(idx));
            assert_eq!(b.header().id, 0x9999);
            assert!(b.header().qr);
            assert!(b.header().rd);
            assert_eq!(b.header().rcode, RCODE_FORMERR);
        }
        ChainPreprocessOutcome::Continue => panic!("two OPTs must break the chain"),
    }
}

#[test]
fn empty_chain_continues() {
    let chain = MiddlewareChain::new(vec![]);
    let mut request = ContextAwareMessage::new(query(1, false, vec![]), false, peer(), 0);
    assert!(matches!(
        chain.preprocess::<()>(&mut request),
        ChainPreprocessOutcome::Continue
    ));
}

#[test]
fn response_opt_is_stripped_when_request_had_none() {
    let p = MandatoryMiddlewareProcessor::new();
    let request = ContextAwareMessage::new(query(0x7777, false, vec![]), false, peer(), 0);
    let mut response = ResponseBuilder::new();
    response
        .push_answer(Record {
            owner: name(&["example", "com"]),
            rtype: RT_A,
            class: CLASS_IN,
            ttl: 60,
            rdata: Rdata::Other { data: vec![192, 0, 2, 1] },
        })
        .unwrap();
    response.push_additional(opt_record(1232)).unwrap();
    p.postprocess(&request, &mut response);
    // the answer stays; the OPT does not survive a request without one
    assert_eq!(response.msg.answers.len(), 1);
    assert!(response.msg.additionals.iter().all(|r| r.rtype != RT_OPT));
    assert_eq!(response.header().id, 0x7777);
}

#[test]
fn response_opt_survives_when_request_had_one() {
    let p = MandatoryMiddlewareProcessor::new();
    let request = ContextAwareMessage::new(query(1, false, vec![opt_record(1232)]), false, peer(), 0);
    let mut response = ResponseBuilder::new();
    response.push_additional(opt_record(1232)).unwrap();
    p.postprocess(&request, &mut response);
    assert!(response.msg.additionals.iter().any(|r| r.rtype == RT_OPT));
}
