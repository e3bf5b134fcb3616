//! The zone store: commits, lookups, diffs.

use domain::message::{Rdata, RT_A, RT_CNAME, RT_NS, RT_SOA, RT_ANY, RCODE_NOERROR, RCODE_NXDOMAIN};
use domain::name::Name;
use domain::zonetree::{
    apply_diff, compute_diff, entry_eq, reverse_diff, Rrset, Snapshot, Zone, ZoneEntry, ZoneError,
    ZoneTree, ZoneTreeError,
};

fn name(labels: &[&str]) -> Name {
    Name::from_labels(labels.iter().map(|l| l.as_bytes().to_vec()).collect())
}

fn soa(serial: u32) -> Rrset {
    Rrset::single(
        RT_SOA,
        3600,
        Rdata::Soa {
            mname: name(&["ns1", "example", "com"]),
            rname: name(&["hostmaster", "example", "com"]),
            serial,
            refresh: 10800,
            retry: 3600,
            expire: 604800,
            minimum: 86400,
        },
    )
}

fn ns() -> Rrset {
    Rrset::single(RT_NS, 3600, Rdata::Ns { nsdname: name(&["ns1", "example", "com"]) })
}

fn a(last: u8) -> Rrset {
    Rrset::single(RT_A, 60, Rdata::Other { data: vec![192, 0, 2, last] })
}

fn test_zone(serial: u32) -> Zone {
    let apex = name(&["example", "com"]);
    let mut zone = Zone::new(apex.clone(), 1);
    let mut w = zone.write();
    w.update_rrset(&apex, soa(serial));
    w.update_rrset(&apex, ns());
    w.update_rrset(&name(&["www", "example", "com"]), a(1));
    zone.commit(w, false).expect("valid zone must commit");
    zone
}

fn snapshots_equal(a: &Snapshot, b: &Snapshot) -> bool {
    if a.entries.len() != b.entries.len() {
        return false;
    }
    for e in &a.entries {
        match b.find(&e.owner, e.rrset.rtype) {
            Some(i) => {
                if !entry_eq(e, &b.entries[i]) {
                    return false;
                }
            }
            None => return false,
        }
    }
    true
}

#[test]
fn commit_without_soa_is_refused() {
    let apex = name(&["example", "com"]);
    let mut zone = Zone::new(apex.clone(), 1);
    let mut w = zone.write();
    w.update_rrset(&apex, ns());
    assert_eq!(zone.commit(w, false).err(), Some(ZoneError::MissingSoa));
    assert_eq!(zone.published.entries.len(), 0);
}

#[test]
fn commit_without_ns_is_refused() {
    let apex = name(&["example", "com"]);
    let mut zone = Zone::new(apex.clone(), 1);
    let mut w = zone.write();
    w.update_rrset(&apex, soa(1));
    assert_eq!(zone.commit(w, false).err(), Some(ZoneError::MissingNs));
}

#[test]
fn commit_with_two_soa_records_is_refused() {
    let apex = name(&["example", "com"]);
    let mut zone = Zone::new(apex.clone(), 1);
    let mut w = zone.write();
    let mut two = soa(1);
    two.push_data(Rdata::Soa {
        mname: name(&["ns2", "example", "com"]),
        rname: name(&["hostmaster", "example", "com"]),
        serial: 2,
        refresh: 1,
        retry: 1,
        expire: 1,
        minimum: 1,
    });
    w.update_rrset(&apex, two);
    w.update_rrset(&apex, ns());
    assert_eq!(zone.commit(w, false).err(), Some(ZoneError::MultipleSoaRdata));
}

#[test]
fn commit_with_owner_outside_zone_is_refused() {
    let apex = name(&["example", "com"]);
    let mut zone = Zone::new(apex.clone(), 1);
    let mut w = zone.write();
    w.update_rrset(&apex, soa(1));
    w.update_rrset(&apex, ns());
    w.update_rrset(&name(&["example", "net"]), a(1));
    assert_eq!(zone.commit(w, false).err(), Some(ZoneError::OutOfZone));
}

#[test]
fn commit_with_cname_beside_data_is_refused() {
    let apex = name(&["example", "com"]);
    let mut zone = Zone::new(apex.clone(), 1);
    let mut w = zone.write();
    w.update_rrset(&apex, soa(1));
    w.update_rrset(&apex, ns());
    let www = name(&["www", "example", "com"]);
    w.update_rrset(&www, a(1));
    w.update_rrset(
        &www,
        Rrset::single(RT_CNAME, 60, Rdata::Cname { cname: name(&["example", "com"]) }),
    );
    assert_eq!(zone.commit(w, false).err(), Some(ZoneError::CnameConflict));
}

#[test]
fn readers_keep_their_snapshot_across_commits() {
    let mut zone = test_zone(100);
    let before = zone.read();
    let mut w = zone.write();
    w.update_rrset(&name(&["mail", "example", "com"]), a(9));
    w.update_rrset(&zone.apex.clone(), soa(101));
    zone.commit(w, false).expect("valid zone must commit");
    // the old handle still shows the old contents, whole
    assert!(before.find(&name(&["mail", "example", "com"]), RT_A).is_none());
    assert!(zone.read().find(&name(&["mail", "example", "com"]), RT_A).is_some());
}

#[test]
fn diff_applies_forward_and_backward() {
    let zone = test_zone(100);
    let before = zone.read();
    let mut zone2 = test_zone(100);
    let apex = zone2.apex.clone();
    let mut w = zone2.write();
    w.update_rrset(&apex, soa(101));
    w.update_rrset(&name(&["mail", "example", "com"]), a(9));
    w.remove_rrset(&name(&["www", "example", "com"]), RT_A);
    let diff = zone2
        .commit(w, true)
        .expect("valid zone must commit")
        .expect("a diff was asked for");
    assert_eq!(diff.old_serial, 100);
    assert_eq!(diff.new_serial, 101);
    let after = zone2.read();
    // applying the diff to the old snapshot yields the new one
    let forward = apply_diff(&before, &diff);
    assert!(snapshots_equal(&forward, &after));
    // applying it in reverse returns to the old snapshot
    let back = apply_diff(&after, &reverse_diff(&diff));
    assert!(snapshots_equal(&back, &before));
}

#[test]
fn computed_diff_holds_only_changes() {
    let zone_a = test_zone(100);
    let zone_b = test_zone(100);
    let d = compute_diff(&zone_a.read(), &zone_b.read(), 100, 100);
    assert_eq!(d.removed.len(), 0);
    assert_eq!(d.added.len(), 0);
}

#[test]
fn query_answers_apex_ns() {
    let zone = test_zone(100);
    let snap = zone.read();
    let a = snap.query(&name(&["example", "com"]), RT_NS);
    assert_eq!(a.rcode, RCODE_NOERROR);
    assert_eq!(a.answer.len(), 1);
    assert_eq!(a.answer[0].rrset.rtype, RT_NS);
    assert_eq!(a.authority.len(), 0);
}

#[test]
fn query_missing_type_gives_nodata_with_soa() {
    let zone = test_zone(100);
    let snap = zone.read();
    let a = snap.query(&name(&["www", "example", "com"]), RT_NS);
    assert_eq!(a.rcode, RCODE_NOERROR);
    assert_eq!(a.answer.len(), 0);
    assert_eq!(a.authority.len(), 1);
    assert_eq!(a.authority[0].rrset.rtype, RT_SOA);
}

#[test]
fn query_missing_name_gives_nxdomain_with_soa() {
    let zone = test_zone(100);
    let snap = zone.read();
    let a = snap.query(&name(&["nope", "example", "com"]), RT_A);
    assert_eq!(a.rcode, RCODE_NXDOMAIN);
    assert_eq!(a.answer.len(), 0);
    assert_eq!(a.authority[0].rrset.rtype, RT_SOA);
}

#[test]
fn query_below_cut_gives_referral() {
    let apex = name(&["example", "com"]);
    let mut zone = Zone::new(apex.clone(), 1);
    let mut w = zone.write();
    w.update_rrset(&apex, soa(1));
    w.update_rrset(&apex, ns());
    w.update_rrset(
        &name(&["sub", "example", "com"]),
        Rrset::single(RT_NS, 3600, Rdata::Ns { nsdname: name(&["ns1", "sub", "example", "com"]) }),
    );
    zone.commit(w, false).expect("valid zone must commit");
    let snap = zone.read();
    let a = snap.query(&name(&["www", "sub", "example", "com"]), RT_A);
    assert_eq!(a.rcode, RCODE_NOERROR);
    assert_eq!(a.answer.len(), 0);
    assert_eq!(a.authority.len(), 1);
    assert_eq!(a.authority[0].rrset.rtype, RT_NS);
    assert_eq!(a.authority[0].owner.labels, name(&["sub", "example", "com"]).labels);
}

#[test]
fn query_cname_is_returned_for_other_types() {
    let apex = name(&["example", "com"]);
    let mut zone = Zone::new(apex.clone(), 1);
    let mut w = zone.write();
    w.update_rrset(&apex, soa(1));
    w.update_rrset(&apex, ns());
    w.update_rrset(
        &name(&["alias", "example", "com"]),
        Rrset::single(RT_CNAME, 60, Rdata::Cname { cname: name(&["www", "example", "com"]) }),
    );
    zone.commit(w, false).expect("valid zone must commit");
    let snap = zone.read();
    let a = snap.query(&name(&["alias", "example", "com"]), RT_A);
    assert_eq!(a.rcode, RCODE_NOERROR);
    assert_eq!(a.answer.len(), 1);
    assert_eq!(a.answer[0].rrset.rtype, RT_CNAME);
}

#[test]
fn query_any_returns_every_rrset_at_the_name() {
    let zone = test_zone(100);
    let snap = zone.read();
    let a = snap.query(&name(&["example", "com"]), RT_ANY);
    assert_eq!(a.rcode, RCODE_NOERROR);
    assert_eq!(a.answer.len(), 2); // SOA and NS
}

#[test]
fn tree_finds_deepest_zone() {
    let mut tree = ZoneTree::new();
    tree.insert_zone(test_zone(1)).unwrap();
    let mut sub = Zone::new(name(&["sub", "example", "com"]), 1);
    let mut w = sub.write();
    w.update_rrset(&name(&["sub", "example", "com"]), soa(1));
    w.update_rrset(
        &name(&["sub", "example", "com"]),
        Rrset::single(RT_NS, 3600, Rdata::Ns { nsdname: name(&["ns1", "sub", "example", "com"]) }),
    );
    sub.commit(w, false).unwrap();
    tree.insert_zone(sub).unwrap();
    let i = tree
        .find_zone(&name(&["www", "sub", "example", "com"]), 1)
        .expect("a zone matches");
    assert_eq!(tree.zones[i].apex.labels, name(&["sub", "example", "com"]).labels);
    let j = tree.find_zone(&name(&["www", "example", "com"]), 1).expect("a zone matches");
    assert_eq!(tree.zones[j].apex.labels, name(&["example", "com"]).labels);
    assert!(tree.find_zone(&name(&["example", "net"]), 1).is_none());
}

#[test]
fn duplicate_apex_is_refused() {
    let mut tree = ZoneTree::new();
    tree.insert_zone(test_zone(1)).unwrap();
    assert_eq!(tree.insert_zone(test_zone(2)).err(), Some(ZoneTreeError::ZoneExists));
}

#[test]
fn case_insensitive_lookup() {
    let zone = test_zone(100);
    let snap = zone.read();
    let upper = Name::from_labels(vec![b"WWW".to_vec(), b"EXAMPLE".to_vec(), b"COM".to_vec()]);
    let a = snap.query(&upper, RT_A);
    assert_eq!(a.rcode, RCODE_NOERROR);
    assert_eq!(a.answer.len(), 1);
}

#[test]
fn remove_zone_keeps_other_zones() {
    let mut tree = ZoneTree::new();
    tree.insert_zone(test_zone(1)).unwrap();
    let mut other = Zone::new(name(&["example", "net"]), 1);
    let mut w = other.write();
    w.update_rrset(&name(&["example", "net"]), soa(1));
    w.update_rrset(
        &name(&["example", "net"]),
        Rrset::single(RT_NS, 3600, Rdata::Ns { nsdname: name(&["ns1", "example", "net"]) }),
    );
    other.commit(w, false).unwrap();
    tree.insert_zone(other).unwrap();
    tree.remove_zone(&name(&["example", "com"]), 1);
    assert_eq!(tree.zones.len(), 1);
    assert_eq!(tree.zones[0].apex.labels, name(&["example", "net"]).labels);
    // removing an absent zone changes nothing
    tree.remove_zone(&name(&["example", "org"]), 1);
    assert_eq!(tree.zones.len(), 1);
}
