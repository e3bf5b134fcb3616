//! The servers' decision logic: the datagram path end to end, ordering on
//! stream connections, the connection state machine, metrics and buffers.

use domain::buf::{BufSource, VecBufSource};
use domain::builder::{ResponseBuilder, StreamTarget};
use domain::context::PeerAddr;
use domain::dgram::{dgram_command_action, handle_dgram_request, DgramCommandAction};
use domain::mandatory::MandatoryMiddlewareProcessor;
use domain::message::{
    Header, Message, Question, Rdata, Record, RT_A, RT_NS, RT_OPT, RT_SOA, CLASS_IN,
    RCODE_FORMERR, RCODE_NOERROR,
};
use domain::metrics::ServerMetrics;
use domain::middleware::{MiddlewareChain, Processor};
use domain::name::Name;
use domain::service::ServiceCommand;
use domain::stream::{
    connection_step, wire_order, Config, ConnectionEvent, ConnectionState, OrderedCollector,
};
use domain::zonetree::{Rrset, Zone, ZoneTree};
use domain::zone_service::ZoneService;

fn name(labels: &[&str]) -> Name {
    Name::from_labels(labels.iter().map(|l| l.as_bytes().to_vec()).collect())
}

fn soa(serial: u32) -> Rrset {
    Rrset::single(
        RT_SOA,
        3600,
        Rdata::Soa {
            mname: name(&["ns1", "example", "com"]),
            rname: name(&["hostmaster", "example", "com"]),
            serial,
            refresh: 10800,
            retry: 3600,
            expire: 604800,
            minimum: 86400,
        },
    )
}

fn test_zone() -> Zone {
    let apex = name(&["example", "com"]);
    let mut zone = Zone::new(apex.clone(), 1);
    let mut w = zone.write();
    w.update_rrset(&apex, soa(100));
    w.update_rrset(&apex, Rrset::single(RT_NS, 3600, Rdata::Ns {
        nsdname: name(&["ns1", "example", "com"]),
    }));
    w.update_rrset(
        &name(&["big", "example", "com"]),
        Rrset::single(16, 60, Rdata::Other { data: vec![9u8; 700] }),
    );
    zone.commit(w, false).expect("valid zone must commit");
    zone
}

fn service() -> ZoneService {
    let mut zones = ZoneTree::new();
    zones.insert_zone(test_zone()).unwrap();
    ZoneService::new(zones)
}

fn chain() -> MiddlewareChain {
    MiddlewareChain::new(vec![Processor::Mandatory(MandatoryMiddlewareProcessor::new())])
}

fn peer() -> PeerAddr {
    PeerAddr { ip: vec![127, 0, 0, 1], port: 5353 }
}

fn query(id: u16, qname: &[&str], qtype: u16, additionals: Vec<Record>) -> Vec<u8> {
    let mut header = Header::new();
    header.id = id;
    Message {
        header,
        questions: vec![Question { qname: name(qname), qtype, qclass: CLASS_IN }],
        answers: vec![],
        authorities: vec![],
        additionals,
    }
    .to_wire()
}

fn opt_record(class: u16) -> Record {
    Record {
        owner: Name::root(),
        rtype: RT_OPT,
        class,
        ttl: 0,
        rdata: Rdata::Other { data: vec![] },
    }
}

#[test]
fn apex_ns_over_udp() {
    let bytes = query(0x1234, &["example", "com"], RT_NS, vec![]);
    let target = handle_dgram_request(&chain(), &service(), &bytes, peer(), 0)
        .expect("a response is sent");
    let response = Message::parse(&target.as_dgram_slice()).expect("the response parses");
    assert_eq!(response.header.id, 0x1234);
    assert!(response.header.qr);
    assert_eq!(response.header.rcode, RCODE_NOERROR);
    assert_eq!(response.answers.len(), 1);
    assert_eq!(response.answers[0].rtype, RT_NS);
    match &response.answers[0].rdata {
        Rdata::Ns { nsdname } => {
            assert_eq!(nsdname.labels, name(&["ns1", "example", "com"]).labels)
        }
        _ => panic!("the NS record comes back typed"),
    }
    // no OPT in the response: the request carried none
    assert!(response.additionals.iter().all(|r| r.rtype != RT_OPT));
}

#[test]
fn oversized_response_is_truncated_to_512() {
    let bytes = query(0x2222, &["big", "example", "com"], 16, vec![opt_record(512)]);
    let target = handle_dgram_request(&chain(), &service(), &bytes, peer(), 0)
        .expect("a response is sent");
    let wire = target.as_dgram_slice();
    assert!(wire.len() <= 512);
    let response = Message::parse(&wire).expect("the response parses");
    assert!(response.header.tc);
    assert_eq!(response.header.id, 0x2222);
    assert_eq!(response.answers.len(), 0);
    assert_eq!(response.authorities.len(), 0);
    assert_eq!(response.questions.len(), 1);
    assert_eq!(response.questions[0].qname.labels, name(&["big", "example", "com"]).labels);
}

#[test]
fn two_opts_get_formerr_with_matching_id() {
    let bytes = query(0x3131, &["example", "com"], RT_A, vec![opt_record(512), opt_record(512)]);
    let target = handle_dgram_request(&chain(), &service(), &bytes, peer(), 0)
        .expect("a response is sent");
    let response = Message::parse(&target.as_dgram_slice()).expect("the response parses");
    assert_eq!(response.header.rcode, RCODE_FORMERR);
    assert_eq!(response.header.id, 0x3131);
    assert!(response.header.qr);
}

#[test]
fn unparseable_packet_is_dropped() {
    let bytes = vec![1u8, 2, 3];
    assert!(handle_dgram_request(&chain(), &service(), &bytes, peer(), 0).is_none());
}

#[test]
fn shutdown_ends_the_datagram_loop() {
    assert_eq!(dgram_command_action(ServiceCommand::Shutdown), DgramCommandAction::Terminate);
    assert_eq!(
        dgram_command_action(ServiceCommand::Reconfigure { idle_timeout: 5 }),
        DgramCommandAction::Ignore
    );
}

fn target_with_tag(tag: u8) -> StreamTarget {
    let mut b = ResponseBuilder::new();
    b.set_id(tag as u16);
    b.finish()
}

#[test]
fn collector_emits_responses_in_request_order() {
    let mut c = OrderedCollector::new();
    // responses finish out of order: request 1 before request 0
    c.push(1, vec![target_with_tag(11), target_with_tag(12)]);
    assert!(c.pop_ready().is_none());
    c.push(0, vec![target_with_tag(1)]);
    let first = c.pop_ready().expect("request 0 is ready");
    assert_eq!(first.len(), 1);
    assert_eq!(first[0].as_dgram_slice()[1], 1);
    let second = c.pop_ready().expect("request 1 is ready");
    assert_eq!(second.len(), 2);
    assert_eq!(second[0].as_dgram_slice()[1], 11);
    assert_eq!(second[1].as_dgram_slice()[1], 12);
    assert!(c.pop_ready().is_none());
}

#[test]
fn wire_order_keeps_streams_contiguous() {
    let out = wire_order(vec![
        vec![target_with_tag(1), target_with_tag(2)],
        vec![target_with_tag(3)],
        vec![target_with_tag(4), target_with_tag(5)],
    ]);
    let tags: Vec<u8> = out.iter().map(|t| t.as_dgram_slice()[1]).collect();
    assert_eq!(tags, vec![1, 2, 3, 4, 5]);
}

#[test]
fn graceful_shutdown_drains_then_closes() {
    // an active connection with one response still queued
    let mut collector = OrderedCollector::new();
    collector.push(0, vec![target_with_tag(42)]);
    // shutdown arrives: the connection drains, it does not close
    let step = connection_step(
        ConnectionState::Active,
        ConnectionEvent::CommandReceived(ServiceCommand::Shutdown),
    );
    assert_eq!(step.state, ConnectionState::Draining);
    // while draining, the queued response still goes out
    let flushed = collector.pop_ready().expect("the in-flight response is written");
    assert_eq!(flushed[0].as_dgram_slice()[1], 42);
    // reads are over: a frame while draining changes nothing
    let step = connection_step(ConnectionState::Draining, ConnectionEvent::FrameReceived);
    assert_eq!(step.state, ConnectionState::Draining);
    // only the flush closes the connection
    let step = connection_step(ConnectionState::Draining, ConnectionEvent::ResponsesFlushed);
    assert_eq!(step.state, ConnectionState::Closed);
}

#[test]
fn framing_errors_drain_with_formerr() {
    let step = connection_step(ConnectionState::Active, ConnectionEvent::FramingError);
    assert_eq!(step.state, ConnectionState::Draining);
    assert!(step.respond_formerr);
}

#[test]
fn reconfigure_updates_the_idle_timeout() {
    let step = connection_step(
        ConnectionState::Active,
        ConnectionEvent::CommandReceived(ServiceCommand::Reconfigure { idle_timeout: 9000 }),
    );
    assert_eq!(step.state, ConnectionState::Active);
    assert_eq!(step.new_idle_timeout, Some(9000));
    assert_eq!(Config::new().max_queued_responses, 1024);
}

#[test]
fn accepting_becomes_active() {
    let step = connection_step(ConnectionState::Accepting, ConnectionEvent::Accepted);
    assert_eq!(step.state, ConnectionState::Active);
}

#[test]
fn metrics_count_up_and_down() {
    let mut m = ServerMetrics::connection_oriented();
    assert!(m.connection_oriented);
    m.inc_connections();
    m.inc_received();
    m.inc_inflight();
    m.inc_pending_writes();
    m.dec_pending_writes();
    m.inc_sent();
    m.dec_inflight();
    assert_eq!(m.num_connections, 1);
    assert_eq!(m.num_received_requests, 1);
    assert_eq!(m.num_inflight_requests, 0);
    assert_eq!(m.num_pending_writes, 0);
    assert_eq!(m.num_sent_responses, 1);
    m.dec_connections();
    assert_eq!(m.num_connections, 0);
    // decrements stop at zero
    m.dec_connections();
    assert_eq!(m.num_connections, 0);
}

#[test]
fn buffers_come_zeroed_and_sized() {
    let src = VecBufSource;
    let b = src.create_buf();
    assert_eq!(b.len(), 1024);
    assert!(b.iter().all(|x| *x == 0));
    let s = src.create_sized(17);
    assert_eq!(s.len(), 17);
}

struct FailingService {
    shutting_down: bool,
}

impl domain::service::Service for FailingService {
    type Error = ();

    fn call(
        &self,
        _request: &domain::context::ContextAwareMessage,
    ) -> domain::service::ServiceResult<()> {
        if self.shutting_down {
            Err(domain::service::ServiceError::ShuttingDown)
        } else {
            Err(domain::service::ServiceError::Other("backend failed".to_string()))
        }
    }
}

#[test]
fn service_errors_become_servfail() {
    let bytes = query(0x5050, &["example", "com"], RT_A, vec![]);
    let svc = FailingService { shutting_down: false };
    let target = handle_dgram_request(&chain(), &svc, &bytes, peer(), 0)
        .expect("a SERVFAIL reply is sent");
    let response = Message::parse(&target.as_dgram_slice()).expect("the response parses");
    assert_eq!(response.header.rcode, domain::message::RCODE_SERVFAIL);
    assert_eq!(response.header.id, 0x5050);
    assert!(response.header.qr);
}

#[test]
fn shutting_down_service_sends_nothing_over_udp() {
    let bytes = query(0x5051, &["example", "com"], RT_A, vec![]);
    let svc = FailingService { shutting_down: true };
    assert!(handle_dgram_request(&chain(), &svc, &bytes, peer(), 0).is_none());
}

#[test]
fn stream_service_errors_become_servfail() {
    let bytes = query(0x6060, &["example", "com"], RT_A, vec![]);
    let svc = FailingService { shutting_down: false };
    let (targets, command) =
        domain::stream::handle_stream_request(&chain(), &svc, &bytes, peer(), 0)
            .expect("a reply comes back");
    assert!(command.is_none());
    assert_eq!(targets.len(), 1);
    let response = Message::parse(&targets[0].as_dgram_slice()).expect("the response parses");
    assert_eq!(response.header.rcode, domain::message::RCODE_SERVFAIL);
    assert_eq!(response.header.id, 0x6060);
}

#[test]
fn shutting_down_service_drains_the_connection() {
    let bytes = query(0x6061, &["example", "com"], RT_A, vec![]);
    let svc = FailingService { shutting_down: true };
    let (targets, command) =
        domain::stream::handle_stream_request(&chain(), &svc, &bytes, peer(), 0)
            .expect("the frame parsed");
    assert!(targets.is_empty());
    assert_eq!(command, Some(ServiceCommand::CloseConnection));
}

#[test]
fn framing_errors_get_a_best_effort_formerr() {
    let reply = domain::stream::framing_error_reply();
    let response = Message::parse(&reply.as_dgram_slice()).expect("the reply parses");
    assert_eq!(response.header.rcode, RCODE_FORMERR);
    assert!(response.header.qr);
    assert_eq!(response.questions.len(), 0);
}

#[test]
fn requests_remember_when_they_arrived() {
    let msg = Message::parse(&query(1, &["example", "com"], RT_A, vec![])).unwrap();
    let request = domain::context::ContextAwareMessage::new(msg, false, peer(), 123456);
    assert_eq!(request.received_at(), 123456);
}
