//! Zone transfers: full, incremental, and the streams they produce.

use domain::builder::StreamTarget;
use domain::context::{ContextAwareMessage, PeerAddr};
use domain::message::{
    Header, Message, Question, Rdata, Record, RT_A, RT_AXFR, RT_IXFR, RT_NS, RT_SOA, CLASS_IN,
    RCODE_NOTIMP,
};
use domain::name::Name;
use domain::service::{CallResult, Service, ServiceError, Transaction};
use domain::xfr::{apply_entries_to_empty, axfr_entries, apply_diff_chain, DiffStore};
use domain::zonetree::{entry_eq, Rrset, Snapshot, Zone, ZoneEntry};
use domain::zone_service::{XfrMiddlewareService, ZoneService};

fn name(labels: &[&str]) -> Name {
    Name::from_labels(labels.iter().map(|l| l.as_bytes().to_vec()).collect())
}

fn soa(serial: u32) -> Rrset {
    Rrset::single(
        RT_SOA,
        3600,
        Rdata::Soa {
            mname: name(&["ns1", "example", "com"]),
            rname: name(&["hostmaster", "example", "com"]),
            serial,
            refresh: 10800,
            retry: 3600,
            expire: 604800,
            minimum: 86400,
        },
    )
}

fn ns() -> Rrset {
    Rrset::single(RT_NS, 3600, Rdata::Ns { nsdname: name(&["ns1", "example", "com"]) })
}

fn a(last: u8) -> Rrset {
    Rrset::single(RT_A, 60, Rdata::Other { data: vec![192, 0, 2, last] })
}

fn test_zone(serial: u32) -> Zone {
    let apex = name(&["example", "com"]);
    let mut zone = Zone::new(apex.clone(), 1);
    let mut w = zone.write();
    w.update_rrset(&apex, soa(serial));
    w.update_rrset(&apex, ns());
    w.update_rrset(&name(&["www", "example", "com"]), a(1));
    w.update_rrset(&name(&["mail", "example", "com"]), a(2));
    zone.commit(w, false).expect("valid zone must commit");
    zone
}

fn snapshots_equal(a: &Snapshot, b: &Snapshot) -> bool {
    if a.entries.len() != b.entries.len() {
        return false;
    }
    for e in &a.entries {
        match b.find(&e.owner, e.rrset.rtype) {
            Some(i) => {
                if !entry_eq(e, &b.entries[i]) {
                    return false;
                }
            }
            None => return false,
        }
    }
    true
}

#[test]
fn axfr_collect_rebuilds_the_zone() {
    let zone = test_zone(100);
    let snap = zone.read();
    let entries = axfr_entries(&snap);
    // first and last are the apex SOA
    assert_eq!(entries[0].rrset.rtype, RT_SOA);
    assert_eq!(entries[entries.len() - 1].rrset.rtype, RT_SOA);
    assert_eq!(entries.len(), snap.entries.len() + 1);
    let rebuilt = apply_entries_to_empty(zone.apex.clone(), &entries);
    assert!(snapshots_equal(&rebuilt, &snap));
}

fn collect_stream(t: &mut Transaction<Result<CallResult, ServiceError<()>>>) -> Vec<Message> {
    let mut out = Vec::new();
    while let Some(item) = t.next() {
        let cr = item.expect("stream items carry no error");
        let b = cr.response.expect("stream items carry responses");
        out.push(b.msg);
    }
    out
}

fn xfr_service(zone: Zone) -> XfrMiddlewareService<ZoneService> {
    let mut inner_zones = domain::zonetree::ZoneTree::new();
    inner_zones.insert_zone(test_zone(100)).unwrap();
    let mut svc = XfrMiddlewareService::new(ZoneService::new(inner_zones));
    svc.add_zone(zone).unwrap();
    svc
}

fn xfr_query(qtype: u16, authorities: Vec<Record>) -> Message {
    let mut header = Header::new();
    header.id = 0x77;
    Message {
        header,
        questions: vec![Question { qname: name(&["example", "com"]), qtype, qclass: CLASS_IN }],
        answers: vec![],
        authorities,
        additionals: vec![],
    }
}

fn soa_record(serial: u32) -> Record {
    Record {
        owner: name(&["example", "com"]),
        rtype: RT_SOA,
        class: CLASS_IN,
        ttl: 3600,
        rdata: Rdata::Soa {
            mname: name(&["ns1", "example", "com"]),
            rname: name(&["hostmaster", "example", "com"]),
            serial,
            refresh: 10800,
            retry: 3600,
            expire: 604800,
            minimum: 86400,
        },
    }
}

#[test]
fn axfr_over_stream_yields_soa_bracketed_records() {
    let svc = xfr_service(test_zone(100));
    let request = ContextAwareMessage::new(xfr_query(RT_AXFR, vec![]), true, PeerAddr { ip: vec![127, 0, 0, 1], port: 4000 }, 0);
    let mut t = svc.call(&request).expect("transfers succeed");
    assert!(t.is_stream());
    let messages = collect_stream(&mut t);
    assert!(!messages.is_empty());
    let records: Vec<&Record> = messages.iter().flat_map(|m| m.answers.iter()).collect();
    // first and last answer records are the apex SOA
    assert_eq!(records[0].rtype, RT_SOA);
    assert_eq!(records[records.len() - 1].rtype, RT_SOA);
    // every record of the zone appears exactly once, the SOA twice
    let soa_count = records.iter().filter(|r| r.rtype == RT_SOA).count();
    assert_eq!(soa_count, 2);
    let a_count = records.iter().filter(|r| r.rtype == RT_A).count();
    assert_eq!(a_count, 2);
    let ns_count = records.iter().filter(|r| r.rtype == RT_NS).count();
    assert_eq!(ns_count, 1);
}

#[test]
fn axfr_over_udp_is_notimp() {
    let svc = xfr_service(test_zone(100));
    let request = ContextAwareMessage::new(xfr_query(RT_AXFR, vec![]), false, PeerAddr { ip: vec![127, 0, 0, 1], port: 4000 }, 0);
    let mut t = svc.call(&request).expect("a reply comes back");
    assert!(!t.is_stream());
    let cr = t.next().unwrap().unwrap();
    assert_eq!(cr.response.unwrap().header().rcode, RCODE_NOTIMP);
}

#[test]
fn ixfr_with_known_serial_streams_the_diff() {
    // a zone moving from serial 100 to 101
    let mut zone = test_zone(100);
    let apex = zone.apex.clone();
    let mut w = zone.write();
    w.update_rrset(&apex, soa(101));
    w.update_rrset(&name(&["new", "example", "com"]), a(7));
    let diff = zone.commit(w, true).unwrap().unwrap();
    assert_eq!((diff.old_serial, diff.new_serial), (100, 101));
    let mut svc = xfr_service(zone);
    svc.add_diff(diff);
    let request = ContextAwareMessage::new(xfr_query(RT_IXFR, vec![soa_record(100)]), true, PeerAddr { ip: vec![127, 0, 0, 1], port: 4000 }, 0);
    let mut t = svc.call(&request).expect("transfers succeed");
    assert!(t.is_stream());
    let messages = collect_stream(&mut t);
    let records: Vec<&Record> = messages.iter().flat_map(|m| m.answers.iter()).collect();
    // incremental shape: bracketed by the current SOA, and far fewer
    // records than the whole zone doubled
    assert_eq!(records[0].rtype, RT_SOA);
    assert_eq!(records[records.len() - 1].rtype, RT_SOA);
    // the added A record travels in the stream
    assert!(records
        .iter()
        .any(|r| r.rtype == RT_A && r.owner.labels == name(&["new", "example", "com"]).labels));
    // an incremental stream of one diff carries no unrelated records
    assert!(!records
        .iter()
        .any(|r| r.rtype == RT_A && r.owner.labels == name(&["www", "example", "com"]).labels));
}

#[test]
fn ixfr_with_unknown_serial_falls_back_to_axfr() {
    let mut zone = test_zone(100);
    let apex = zone.apex.clone();
    let mut w = zone.write();
    w.update_rrset(&apex, soa(101));
    let diff = zone.commit(w, true).unwrap().unwrap();
    let mut svc = xfr_service(zone);
    svc.add_diff(diff);
    // serial 50 has no diff chain: the full zone comes back
    let request = ContextAwareMessage::new(xfr_query(RT_IXFR, vec![soa_record(50)]), true, PeerAddr { ip: vec![127, 0, 0, 1], port: 4000 }, 0);
    let mut t = svc.call(&request).expect("transfers succeed");
    let messages = collect_stream(&mut t);
    let records: Vec<&Record> = messages.iter().flat_map(|m| m.answers.iter()).collect();
    assert_eq!(records[0].rtype, RT_SOA);
    assert_eq!(records[records.len() - 1].rtype, RT_SOA);
    // the full zone travels: both A records are there
    let a_count = records.iter().filter(|r| r.rtype == RT_A).count();
    assert_eq!(a_count, 2);
}

#[test]
fn diff_chain_applies_across_serials() {
    let mut zone = test_zone(100);
    let apex = zone.apex.clone();
    let start = zone.read();
    let mut w = zone.write();
    w.update_rrset(&apex, soa(101));
    w.update_rrset(&name(&["one", "example", "com"]), a(11));
    let d1 = zone.commit(w, true).unwrap().unwrap();
    let mut w = zone.write();
    w.update_rrset(&apex, soa(102));
    w.remove_rrset(&name(&["www", "example", "com"]), RT_A);
    let d2 = zone.commit(w, true).unwrap().unwrap();
    let end = zone.read();
    let chained = apply_diff_chain(&start, &vec![d1, d2]);
    assert!(snapshots_equal(&chained, &end));
}

#[test]
fn non_transfer_queries_reach_the_inner_service() {
    let svc = xfr_service(test_zone(100));
    let request = ContextAwareMessage::new(xfr_query(RT_NS, vec![]), false, PeerAddr { ip: vec![127, 0, 0, 1], port: 4000 }, 0);
    let mut t = svc.call(&request).expect("the inner service answers");
    assert!(!t.is_stream());
    let cr = t.next().unwrap().unwrap();
    let b = cr.response.unwrap();
    assert_eq!(b.msg.answers.len(), 1);
    assert_eq!(b.msg.answers[0].rtype, RT_NS);
}

#[test]
fn stream_targets_carry_frames() {
    let zone = test_zone(100);
    let snap = zone.read();
    let entries = axfr_entries(&snap);
    let records = domain::xfr::entries_to_records(&entries, CLASS_IN);
    let builders = domain::xfr::batch_records(records);
    let targets: Vec<StreamTarget> = builders.into_iter().map(|b| b.finish()).collect();
    for t in &targets {
        let framed = t.as_stream_slice();
        let len = ((framed[0] as usize) << 8) | framed[1] as usize;
        assert_eq!(len, framed.len() - 2);
    }
}

#[test]
fn diff_chains_are_found_across_serials() {
    let mut zone = test_zone(100);
    let apex = zone.apex.clone();
    let mut w = zone.write();
    w.update_rrset(&apex, soa(101));
    let d1 = zone.commit(w, true).unwrap().unwrap();
    let mut w = zone.write();
    w.update_rrset(&apex, soa(102));
    let d2 = zone.commit(w, true).unwrap().unwrap();
    let mut store = DiffStore::new(8);
    store.add_diff(d1);
    store.add_diff(d2);
    let chain = store.find_chain(100, 102).expect("the two diffs link 100 to 102");
    assert_eq!(chain.len(), 2);
    assert_eq!(store.diffs[chain[0]].old_serial, 100);
    assert_eq!(store.diffs[chain[1]].new_serial, 102);
    assert!(store.find_chain(50, 102).is_none());
    assert!(store.find_chain(100, 100).is_none());
}
